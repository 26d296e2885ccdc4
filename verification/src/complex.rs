//! The complex amplitude stored in a grid buffer.

use vstd::prelude::*;

verus! {

/// A complex number with real and imaginary parts of type `T`.
///
/// The transform only moves amplitudes around and hands pairs of them to the
/// caller's butterfly, so `T` can be any copyable number type.
#[derive(Clone, Copy, Debug, PartialEq)]
pub struct Complex<T> {
    pub real: T,
    pub imag: T,
}

impl<T> Complex<T> {
    /// The complex number `real + i * imag`.
    pub fn new(re: T, im: T) -> (z: Self)
        ensures
            z.real == re,
            z.imag == im,
    {
        Complex { real: re, imag: im }
    }
}

} // verus!
