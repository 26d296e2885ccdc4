//! The shape of a grid and of its division among workers, checked once.

use vstd::prelude::*;
use vstd::arithmetic::power2::is_pow2;
use crate::power_of_two::is_power_of_two;

verus! {

/// Why a grid size and a worker count cannot be used together.
#[derive(Clone, Copy, Debug, PartialEq, Eq, Structural)]
pub enum ConfigurationError {
    /// The side of the grid is not a power of two.
    SizeNotPowerOfTwo,
    /// There is no worker, or the rows cannot be dealt out evenly.
    WorkersDoNotDivideSize,
    /// The number of cells does not fit the machine's index type.
    GridTooLarge,
}

/// A grid of `size` rows of `size` cells, with its rows dealt out in equal
/// contiguous shares to `workers` workers.
///
/// A value of this type only exists for a `size` that is a power of two and a
/// `workers` that divides it.
#[derive(Clone, Copy, Debug)]
pub struct GridConfig {
    size: usize,
    workers: usize,
}

/// A grid of side `size` can be dealt out to `workers` workers: the side is a
/// power of two, the worker count divides it, and the cells can be indexed.
pub open spec fn is_valid_grid(size: nat, workers: nat) -> bool {
    &&& is_pow2(size as int)
    &&& workers > 0
    &&& size % workers == 0
    &&& size * size <= usize::MAX
}

/// The first reason, if any, for which `size` and `workers` are turned down.
pub open spec fn rejection(size: usize, workers: usize) -> Option<ConfigurationError> {
    if !is_pow2(size as int) {
        Some(ConfigurationError::SizeNotPowerOfTwo)
    } else if workers == 0 || size % workers != 0 {
        Some(ConfigurationError::WorkersDoNotDivideSize)
    } else if size * size > usize::MAX {
        Some(ConfigurationError::GridTooLarge)
    } else {
        None
    }
}

impl GridConfig {
    /// Side of the grid: the number of rows and the length of each.
    pub closed spec fn spec_size(&self) -> usize {
        self.size
    }

    /// Number of workers the rows are dealt out to.
    pub closed spec fn spec_workers(&self) -> usize {
        self.workers
    }

    /// What holds of every configuration.
    #[verifier::type_invariant]
    pub open spec fn wf(&self) -> bool {
        is_valid_grid(self.spec_size() as nat, self.spec_workers() as nat)
    }

    /// Number of rows in one worker's share.
    pub open spec fn spec_rows_per_worker(&self) -> usize {
        (self.spec_size() / self.spec_workers()) as usize
    }

    /// Number of cells in one worker's share.
    pub open spec fn spec_cells_per_worker(&self) -> usize {
        (self.spec_rows_per_worker() * self.spec_size()) as usize
    }

    /// Number of cells in the grid.
    pub open spec fn spec_cells(&self) -> usize {
        (self.spec_size() * self.spec_size()) as usize
    }

    /// Offset of the first cell of worker `k`'s share.
    pub open spec fn partition_start(&self, k: int) -> int {
        k * self.spec_cells_per_worker()
    }

    /// Worker `k`'s share of the buffer `s`: its block of whole rows.
    pub open spec fn partition_of<T>(&self, s: Seq<T>, k: int) -> Seq<T> {
        s.subrange(self.partition_start(k), self.partition_start(k + 1))
    }

    /// The shares are whole rows, none is empty of meaning, and together they
    /// are the grid.
    pub proof fn lemma_partitions(&self)
        requires
            self.wf(),
        ensures
            self.spec_size() >= 1,
            self.spec_workers() >= 1,
            self.spec_rows_per_worker() * self.spec_workers() == self.spec_size(),
            self.spec_cells_per_worker() == self.spec_rows_per_worker() * self.spec_size(),
            self.spec_cells() == self.spec_size() * self.spec_size(),
            self.spec_cells_per_worker() * self.spec_workers() == self.spec_cells(),
            self.partition_start(0) == 0,
            self.partition_start(self.spec_workers() as int) == self.spec_cells(),
    {
        let n = self.spec_size() as int;
        let w = self.spec_workers() as int;
        let q = n / w;
        assert(n >= 1) by {
            reveal(is_pow2);
        }
        vstd::arithmetic::div_mod::lemma_fundamental_div_mod(n, w);
        assert(q * w == n && 0 <= q <= n && q * n <= n * n && (q * n) * w == n * n) by (nonlinear_arith)
            requires
                n == w * q + 0,
                w >= 1,
                n >= 1,
        ;
        assert(w * (q * n) == (q * n) * w) by (nonlinear_arith);
    }

    /// The share of worker `k` lies inside the grid, after those of the workers
    /// before it.
    pub proof fn lemma_partition_bounds(&self, k: int)
        requires
            self.wf(),
            0 <= k < self.spec_workers(),
        ensures
            0 <= self.partition_start(k),
            self.partition_start(k + 1) == self.partition_start(k) + self.spec_cells_per_worker(),
            self.partition_start(k + 1) <= self.spec_cells(),
    {
        self.lemma_partitions();
        let c = self.spec_cells_per_worker() as int;
        let w = self.spec_workers() as int;
        assert(0 <= k * c && (k + 1) * c == k * c + c && (k + 1) * c <= w * c) by (nonlinear_arith)
            requires
                0 <= k < w,
                c >= 0,
        ;
        assert(w * c == c * w) by (nonlinear_arith);
    }

    /// Checks a grid size and a worker count and makes a configuration of them.
    ///
    /// The size must be a power of two, the worker count must be positive and
    /// divide it, and the grid must be addressable; the first of these that
    /// fails is reported.
    pub fn new(size: usize, workers: usize) -> (made: Result<GridConfig, ConfigurationError>)
        ensures
            match made {
                Ok(config) => {
                    &&& rejection(size, workers) is None
                    &&& config.wf()
                    &&& config.spec_size() == size
                    &&& config.spec_workers() == workers
                },
                Err(reason) => rejection(size, workers) == Some(reason),
            },
    {
        if !is_power_of_two(size) {
            return Err(ConfigurationError::SizeNotPowerOfTwo);
        }
        if workers == 0 || size % workers != 0 {
            return Err(ConfigurationError::WorkersDoNotDivideSize);
        }
        if size.checked_mul(size).is_none() {
            return Err(ConfigurationError::GridTooLarge);
        }
        Ok(GridConfig { size, workers })
    }

    /// Side of the grid.
    #[verifier::when_used_as_spec(spec_size)]
    pub fn size(&self) -> (n: usize)
        ensures
            n == self.spec_size(),
    {
        self.size
    }

    /// Number of workers.
    #[verifier::when_used_as_spec(spec_workers)]
    pub fn workers(&self) -> (w: usize)
        ensures
            w == self.spec_workers(),
    {
        self.workers
    }

    /// Number of rows in one worker's share.
    #[verifier::when_used_as_spec(spec_rows_per_worker)]
    pub fn rows_per_worker(&self) -> (rows: usize)
        ensures
            rows == self.spec_rows_per_worker(),
    {
        proof {
            use_type_invariant(self);
        }
        self.size / self.workers
    }

    /// Number of cells in one worker's share.
    #[verifier::when_used_as_spec(spec_cells_per_worker)]
    pub fn cells_per_worker(&self) -> (cells: usize)
        ensures
            cells == self.spec_cells_per_worker(),
    {
        proof {
            use_type_invariant(self);
            self.lemma_partitions();
        }
        (self.size / self.workers) * self.size
    }

    /// Number of cells in the grid.
    #[verifier::when_used_as_spec(spec_cells)]
    pub fn cells(&self) -> (cells: usize)
        ensures
            cells == self.spec_cells(),
    {
        proof {
            use_type_invariant(self);
        }
        self.size * self.size
    }
}

} // verus!
