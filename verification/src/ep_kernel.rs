use vstd::prelude::*;
use crate::class::{Class, class_size};
use crate::randdp::{modulus, power};

verus! {

/// Sum of a sequence of counts.
pub open spec fn sum_counts(s: Seq<u64>) -> int
    decreases s.len(),
{
    if s.len() == 0 {
        0
    } else {
        sum_counts(s.drop_last()) + s.last()
    }
}

/// The integer parameters of the embarrassingly parallel kernel: `n` pairs
/// drawn from the generator with multiplier `a` and seed `s`, and how many
/// accepted pairs are expected to fall into each of the ten square annuli.
pub struct EpKernel {
    pub n: u64,
    pub a: u64,
    pub s: u64,
    pub expected_counts: [u64; 10],
}

/// How the annulus counts of a run differ from the expected ones.
#[derive(Clone, Copy, Debug, PartialEq, Eq, Structural)]
pub enum CountsMismatch {
    /// The totals differ.
    Sum,
    /// The totals agree but some annulus count differs.
    Counts,
}

/// Adds up ten counts.
fn total(c: &[u64; 10]) -> (r: u64)
    requires
        sum_counts(c@) <= u64::MAX,
    ensures
        r == sum_counts(c@),
{
    let mut t: u64 = 0;
    let mut i: usize = 0;
    while i < 10
        invariant
            i <= 10,
            sum_counts(c@) <= u64::MAX,
            t == sum_counts(c@.take(i as int)),
        decreases 10 - i,
    {
        proof {
            assert(c@.take(i as int + 1).drop_last() =~= c@.take(i as int));
            lemma_sum_counts_prefix(c@, i as int + 1);
        }
        t = t + c[i];
        i += 1;
    }
    assert(c@.take(10) =~= c@);
    t
}

/// A prefix of counts sums to no more than the whole.
proof fn lemma_sum_counts_prefix(s: Seq<u64>, k: int)
    requires
        0 <= k <= s.len(),
    ensures
        sum_counts(s.take(k)) <= sum_counts(s),
    decreases s.len(),
{
    if k < s.len() {
        assert(s.drop_last().take(k) =~= s.take(k));
        lemma_sum_counts_prefix(s.drop_last(), k);
    } else {
        assert(s.take(k) =~= s);
    }
}

impl EpKernel {
    /// The integer parameters of `class`, as the benchmark's tables give them.
    pub open spec fn matches_class(self, class: Class) -> bool {
        &&& self.a == 1_220_703_125
        &&& self.s == 271_828_183
        &&& match class {
            Class::S => self.n == 0x100_0000 && self.expected_counts@ == seq![
                6140517u64,
                5865300,
                1100361,
                68546,
                1648,
                17,
                0,
                0,
                0,
                0,
            ],
            Class::A => self.n == 0x1000_0000 && self.expected_counts@ == seq![
                98257395u64,
                93827014,
                17611549,
                1110028,
                26536,
                245,
                0,
                0,
                0,
                0,
            ],
            Class::B => self.n == 0x4000_0000 && self.expected_counts@ == seq![
                393058470u64,
                375280898,
                70460742,
                4438852,
                105691,
                948,
                5,
                0,
                0,
                0,
            ],
            Class::C => self.n == 0x1_0000_0000 && self.expected_counts@ == seq![
                1572172634u64,
                1501108549,
                281805648,
                17761221,
                424017,
                3821,
                13,
                0,
                0,
                0,
            ],
            Class::D => self.n == 0x10_0000_0000 && self.expected_counts@ == seq![
                25154622775u64,
                24017899906,
                4508609839,
                284201296,
                6776403,
                61541,
                197,
                0,
                0,
                0,
            ],
        }
    }

    /// The integer parameters of a class.
    pub fn from_class(class: Class) -> (r: Self)
        ensures
            r.matches_class(class),
    {
        let (n, expected_counts) = match class {
            Class::S => (0x100_0000u64, [6140517u64, 5865300, 1100361, 68546, 1648, 17, 0, 0, 0, 0]),
            Class::A => (
                0x1000_0000u64,
                [98257395u64, 93827014, 17611549, 1110028, 26536, 245, 0, 0, 0, 0],
            ),
            Class::B => (
                0x4000_0000u64,
                [393058470u64, 375280898, 70460742, 4438852, 105691, 948, 5, 0, 0, 0],
            ),
            Class::C => (
                0x1_0000_0000u64,
                [1572172634u64, 1501108549, 281805648, 17761221, 424017, 3821, 13, 0, 0, 0],
            ),
            Class::D => (
                0x10_0000_0000u64,
                [
                    25154622775u64,
                    24017899906,
                    4508609839,
                    284201296,
                    6776403,
                    61541,
                    197,
                    0,
                    0,
                    0,
                ],
            ),
        };
        let r = Self { n, a: 1_220_703_125, s: 271_828_183, expected_counts };
        assert(r.expected_counts@ =~= match class {
            Class::S => seq![6140517u64, 5865300, 1100361, 68546, 1648, 17, 0, 0, 0, 0],
            Class::A => seq![98257395u64, 93827014, 17611549, 1110028, 26536, 245, 0, 0, 0, 0],
            Class::B => seq![393058470u64, 375280898, 70460742, 4438852, 105691, 948, 5, 0, 0, 0],
            Class::C => seq![
                1572172634u64,
                1501108549,
                281805648,
                17761221,
                424017,
                3821,
                13,
                0,
                0,
                0,
            ],
            Class::D => seq![
                25154622775u64,
                24017899906,
                4508609839,
                284201296,
                6776403,
                61541,
                197,
                0,
                0,
                0,
            ],
        });
        r
    }

    /// Checks the annulus counts of a run: first their total against the
    /// expected total, then each count.
    pub fn verify_counts(&self, counts: &[u64; 10]) -> (r: Result<(), CountsMismatch>)
        requires
            sum_counts(counts@) <= u64::MAX,
            sum_counts(self.expected_counts@) <= u64::MAX,
        ensures
            r == (if sum_counts(counts@) != sum_counts(self.expected_counts@) {
                Err(CountsMismatch::Sum)
            } else if counts@ != self.expected_counts@ {
                Err(CountsMismatch::Counts)
            } else {
                Ok(())
            }),
    {
        let got = total(counts);
        let sum_expected = total(&self.expected_counts);
        if got != sum_expected {
            return Err(CountsMismatch::Sum);
        }
        let mut i: usize = 0;
        while i < 10
            invariant
                i <= 10,
                sum_counts(counts@) == sum_counts(self.expected_counts@),
                forall|j: int| 0 <= j < i ==> counts[j] == self.expected_counts[j],
            decreases 10 - i,
        {
            if counts[i] != self.expected_counts[i] {
                assert(counts@[i as int] != self.expected_counts@[i as int]);
                return Err(CountsMismatch::Counts);
            }
            i += 1;
        }
        assert(counts@ =~= self.expected_counts@);
        Ok(())
    }
}

/// Law: a pair of uniform values in `[-1, 1)` is accepted where it falls in
/// the unit disc, which covers a fraction pi/4 of the square. So in every
/// class the expected annulus counts add up to pi/4 of the `n` pairs, to
/// four digits (0.7853 < total / n < 0.7855), and the outer annuli hold no
/// more pairs than the inner ones from the second on.
pub proof fn lemma_ep_counts_fill_the_disc(k: EpKernel, c: Class)
    requires
        k.matches_class(c),
    ensures
        7853 * k.n < 10000 * sum_counts(k.expected_counts@) < 7855 * k.n,
        forall|i: int| 1 <= i < 9 ==> k.expected_counts[i + 1] <= #[trigger] k.expected_counts[i],
{
    reveal_with_fuel(sum_counts, 11);
}

/// Law: a larger class draws strictly more pairs and accepts strictly more.
pub proof fn lemma_ep_classes_grow(k1: EpKernel, c1: Class, k2: EpKernel, c2: Class)
    requires
        k1.matches_class(c1),
        k2.matches_class(c2),
        class_size(c1) < class_size(c2),
    ensures
        k1.n < k2.n,
        sum_counts(k1.expected_counts@) < sum_counts(k2.expected_counts@),
{
    reveal_with_fuel(sum_counts, 11);
}

/// Law: the accepted pairs become pairs of independent standard Gaussian
/// deviates, and annulus `l` counts those whose larger absolute value lies in
/// `[l, l + 1)`. Its share of all accepted pairs is therefore
/// `erf((l+1)/sqrt 2)^2 - erf(l/sqrt 2)^2`: about 0.46606, 0.44500, 0.08354,
/// 0.00527 and 0.000126 for the first five annuli. In every class the expected
/// counts keep these shares to within sampling noise.
pub proof fn lemma_ep_counts_are_gaussian(k: EpKernel, c: Class)
    requires
        k.matches_class(c),
    ensures
        ({
            let t = sum_counts(k.expected_counts@);
            let e = k.expected_counts;
            &&& 4659 * t < 10000 * e[0] < 4662 * t
            &&& 4449 * t < 10000 * e[1] < 4452 * t
            &&& 834 * t < 10000 * e[2] < 837 * t
            &&& 51 * t < 10000 * e[3] < 54 * t
            &&& 11 * t < 100000 * e[4] < 14 * t
        }),
{
    reveal_with_fuel(sum_counts, 11);
}

/// Law: in every class the generator's multiplier is odd and its seed is no
/// multiple of 2^46, so every uniform value it hands out lies strictly between
/// 0 and 1 (see `lemma_lcg_state_in_range`); and the number of pairs is a
/// power of two.
pub proof fn lemma_ep_stream_in_range(k: EpKernel, c: Class)
    requires
        k.matches_class(c),
    ensures
        k.a % 2 == 1,
        (k.s as nat) % modulus() != 0,
        exists|e: nat| power(2, e) == k.n,
{
    reveal_with_fuel(power, 37);
    match c {
        Class::S => assert(power(2, 24) == k.n),
        Class::A => assert(power(2, 28) == k.n),
        Class::B => assert(power(2, 30) == k.n),
        Class::C => assert(power(2, 32) == k.n),
        Class::D => assert(power(2, 36) == k.n),
    }
}

} // verus!
