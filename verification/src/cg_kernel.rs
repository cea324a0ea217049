use vstd::prelude::*;
use crate::class::{Class, class_size};

verus! {

/// The integer parameters of the conjugate gradient kernel: an `n` by `n`
/// matrix built from vectors with `nonzero` random entries, and `n_iter`
/// outer iterations.
pub struct CgKernel {
    pub n: usize,
    pub n_iter: usize,
    pub nonzero: usize,
}

impl CgKernel {
    /// The integer parameters of `class`, as the benchmark's tables give them.
    pub open spec fn matches_class(self, class: Class) -> bool {
        match class {
            Class::S => self.n == 1_400 && self.n_iter == 15 && self.nonzero == 7,
            Class::A => self.n == 14_000 && self.n_iter == 15 && self.nonzero == 11,
            Class::B => self.n == 75_000 && self.n_iter == 75 && self.nonzero == 13,
            Class::C => self.n == 150_000 && self.n_iter == 75 && self.nonzero == 15,
            Class::D => self.n == 1_500_000 && self.n_iter == 100 && self.nonzero == 21,
        }
    }

    /// The integer parameters of a class.
    pub fn from_class(class: Class) -> (r: Self)
        ensures
            r.matches_class(class),
    {
        match class {
            Class::S => Self { n: 1_400, n_iter: 15, nonzero: 7 },
            Class::A => Self { n: 14_000, n_iter: 15, nonzero: 11 },
            Class::B => Self { n: 75_000, n_iter: 75, nonzero: 13 },
            Class::C => Self { n: 150_000, n_iter: 75, nonzero: 15 },
            Class::D => Self { n: 1_500_000, n_iter: 100, nonzero: 21 },
        }
    }
}

/// Law: a larger class is a larger problem. Its matrix is strictly larger,
/// is built from vectors with strictly more random entries, and is iterated
/// at least as often.
pub proof fn lemma_cg_classes_grow(k1: CgKernel, c1: Class, k2: CgKernel, c2: Class)
    requires
        k1.matches_class(c1),
        k2.matches_class(c2),
        class_size(c1) < class_size(c2),
    ensures
        k1.n < k2.n,
        k1.nonzero < k2.nonzero,
        k1.n_iter <= k2.n_iter,
{
}

/// Law: in every class the vectors have fewer random entries than the
/// matrix has columns, so each vector can be filled.
pub proof fn lemma_cg_nonzero_fits(k: CgKernel, c: Class)
    requires
        k.matches_class(c),
    ensures
        0 < k.nonzero < k.n,
{
}

} // verus!
