use vstd::prelude::*;

verus! {

/// A single-channel pixel.
#[derive(Debug, Clone, Copy, PartialEq)]
pub struct Gray<T> {
    pub value: T,
}

/// A three-channel pixel.
#[derive(Debug, Clone, Copy, PartialEq)]
pub struct Rgb<T> {
    pub r: T,
    pub g: T,
    pub b: T,
}

impl<T> Gray<T> {
    pub fn new(value: T) -> (p: Self)
        ensures
            p.value == value,
    {
        Gray { value }
    }
}

impl<T> Rgb<T> {
    pub fn new(r: T, g: T, b: T) -> (p: Self)
        ensures
            p.r == r,
            p.g == g,
            p.b == b,
    {
        Rgb { r, g, b }
    }
}

} // verus!
