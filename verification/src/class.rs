use vstd::prelude::*;

verus! {

/// The problem classes of the benchmarks, from the sample size up.
#[derive(Clone, Copy, Debug, PartialEq, Eq, Structural)]
pub enum Class {
    S,
    A,
    B,
    C,
    D,
}

/// The position of a class in the order of problem sizes, from the sample
/// size up.
pub open spec fn class_size(c: Class) -> nat {
    match c {
        Class::S => 0,
        Class::A => 1,
        Class::B => 2,
        Class::C => 3,
        Class::D => 4,
    }
}

} // verus!
