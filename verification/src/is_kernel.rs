use vstd::prelude::*;
use crate::class::{Class, class_size};
use crate::randdp::{
    A, LazyRanddp, SEED, power, lcg_state, modulus, lemma_lcg_state_in_range, lemma_lcg_state_adds,
};
use crate::counting::{
    count_eq, count_le, in_range, is_sorted, lemma_count_bounds, lemma_count_le_ends,
    lemma_count_le_split, lemma_count_push, lemma_count_le_mono, lemma_count_eq_occurs,
    lemma_same_counts_same_multiset,
};

verus! {

/// The state of the integer sort kernel: `n` keys in `[0, b_max)`, ranked
/// `i_max` times and checked against the expected ranks of five test keys.
pub struct IsKernel {
    pub n: usize,
    pub b_max: u32,
    pub i_max: u32,
    pub keys: Vec<i32>,
    pub test_index_array: Vec<usize>,
    pub test_rank_array: Vec<u32>,
    pub add_i: Vec<bool>,
    pub iter_offset: i32,
}

/// Appends `count` copies of `value`.
fn push_copies(sorted: &mut Vec<i32>, value: i32, count: u32)
    ensures
        final(sorted).len() == old(sorted).len() + count,
        forall|i: int| 0 <= i < old(sorted).len() ==> final(sorted)[i] == old(sorted)[i],
        forall|i: int| old(sorted).len() <= i < final(sorted).len() ==> final(sorted)[i] == value,
        forall|v: int|
            count_eq(final(sorted)@, v) == count_eq(old(sorted)@, v) + (if v == value {
                count as nat
            } else {
                0nat
            }),
{
    let mut t: u32 = 0;
    while t < count
        invariant
            t <= count,
            sorted.len() == old(sorted).len() + t,
            forall|i: int| 0 <= i < old(sorted).len() ==> sorted[i] == old(sorted)[i],
            forall|i: int| old(sorted).len() <= i < sorted.len() ==> sorted[i] == value,
            forall|v: int|
                count_eq(sorted@, v) == count_eq(old(sorted)@, v) + (if v == value {
                    t as nat
                } else {
                    0nat
                }),
        decreases count - t,
    {
        proof {
            assert forall|v: int| true implies count_eq(sorted@.push(value), v) == count_eq(sorted@, v) + (if v == value {
                1nat
            } else {
                0nat
            }) by {
                lemma_count_push(sorted@, value, v);
            }
        }
        sorted.push(value);
        t += 1;
    }
}

/// `b_max` times the mean of four values `x / 2^46` whose states add up to
/// `sum`, rounded down and capped at `i32::MAX`.
pub open spec fn scaled_mean(sum: nat, b_max: nat) -> int {
    let q = (sum * b_max) as int / 0x1_0000_0000_0000int;
    if q > i32::MAX {
        i32::MAX as int
    } else {
        q
    }
}

/// Key `k`: `b_max` times the mean of the four uniform values `x / 2^46`
/// that the generator hands out as its values `4k+1 ..= 4k+4`, rounded down
/// (and capped at `i32::MAX`). With `b_max` a power of two this is exact in
/// binary floating point too.
pub open spec fn is_key(b_max: nat, k: nat) -> int {
    let s = lcg_state(SEED as nat, A as nat, 4 * k + 1) + lcg_state(SEED as nat, A as nat, 4 * k + 2)
        + lcg_state(SEED as nat, A as nat, 4 * k + 3) + lcg_state(SEED as nat, A as nat, 4 * k + 4);
    scaled_mean(s, b_max)
}

/// The first `n` keys.
pub open spec fn is_keys(b_max: nat, n: nat) -> Seq<i32> {
    Seq::new(n, |k: int| is_key(b_max, k as nat) as i32)
}

/// The keys after the test keys of iterations `1..=t` were put in: in
/// iteration `i`, key `i` becomes `i` and key `i + i_max` becomes `b_max - i`.
pub open spec fn keys_after(keys: Seq<i32>, i_max: u32, b_max: u32, t: nat) -> Seq<i32>
    decreases t,
{
    if t == 0 {
        keys
    } else {
        keys_after(keys, i_max, b_max, (t - 1) as nat).update(t as int, t as i32).update(
            t + i_max,
            (b_max - t) as i32,
        )
    }
}

/// The rank that a table of running counts gives to a key: how many keys
/// lie below it.
pub open spec fn rank_from(ranks: Seq<u32>, key: int) -> int {
    if key == 0 {
        0
    } else {
        ranks[key - 1] as int
    }
}

/// Draws the next four values and returns their sum.
fn draw_four(g: &mut LazyRanddp) -> (s: u64)
    requires
        old(g).remaining() >= 4,
    ensures
        s == lcg_state(old(g).state(), old(g).multiplier(), 1) + lcg_state(
            old(g).state(),
            old(g).multiplier(),
            2,
        ) + lcg_state(old(g).state(), old(g).multiplier(), 3) + lcg_state(
            old(g).state(),
            old(g).multiplier(),
            4,
        ),
        s < 4 * modulus(),
        final(g).state() == lcg_state(old(g).state(), old(g).multiplier(), 4),
        final(g).remaining() == old(g).remaining() - 4,
        final(g).multiplier() == old(g).multiplier(),
{
    let ghost x = old(g).state();
    let ghost a = old(g).multiplier();
    proof {
        lemma_lcg_state_in_range(x, a, 1);
        lemma_lcg_state_in_range(x, a, 2);
        lemma_lcg_state_in_range(x, a, 3);
        lemma_lcg_state_in_range(x, a, 4);
        assert(lcg_state(x, a, 0) == x);
    }
    let mut s: u64 = 0;
    match g.next() {
        Some(v) => s = s + v,
        None => {},
    }
    assert(g.state() == lcg_state(x, a, 1));
    match g.next() {
        Some(v) => s = s + v,
        None => {},
    }
    assert(g.state() == lcg_state(x, a, 2));
    match g.next() {
        Some(v) => s = s + v,
        None => {},
    }
    assert(g.state() == lcg_state(x, a, 3));
    match g.next() {
        Some(v) => s = s + v,
        None => {},
    }
    s
}

/// `b_max` times the mean of four values `x / 2^46`, rounded down and
/// capped at `i32::MAX`.
fn key_from_sum(sum: u64, b_max: u32) -> (key: i32)
    requires
        sum < 4 * modulus(),
    ensures
        key == scaled_mean(sum as nat, b_max as nat),
        0 <= key,
        b_max > 0 ==> key < b_max,
{
    assert((sum as int) * (b_max as int) < 0x1_0000_0000_0000 * 0x1_0000_0000) by (nonlinear_arith)
        requires
            sum < 0x1_0000_0000_0000,
            b_max < 0x1_0000_0000,
    ;
    let p = (sum as u128) * (b_max as u128);
    assert((sum as int) * b_max / 0x1_0000_0000_0000 <= b_max) by (nonlinear_arith)
        requires
            sum < 0x1_0000_0000_0000,
    ;
    if b_max > 0 {
        assert((sum as int) * b_max / 0x1_0000_0000_0000 < b_max) by (nonlinear_arith)
            requires
                sum < 0x1_0000_0000_0000,
                b_max > 0,
        ;
    }
    let q = p / 0x1_0000_0000_0000u128;
    if q > 0x7fff_ffff {
        i32::MAX
    } else {
        q as i32
    }
}

impl IsKernel {
    /// The parameters of `class`, as the benchmark's tables give them.
    pub open spec fn matches_class(self, class: Class) -> bool {
    match class {
        Class::S => {
            &&& self.n == 65_536 && self.b_max == 2_048 && self.i_max == 9 && self.iter_offset == 0
            &&& self.test_index_array@ == seq![48427usize, 17148, 23627, 62548, 4431]
            &&& self.test_rank_array@ == seq![0u32, 18, 346, 64917, 65463]
            &&& self.add_i@ == seq![true, true, true, false, false]
        },
        Class::A => {
            &&& self.n == 8_388_608 && self.b_max == 524_288 && self.i_max == 10 && self.iter_offset
                == -1
            &&& self.test_index_array@ == seq![2112377usize, 662041, 5336171, 3642833, 4250760]
            &&& self.test_rank_array@ == seq![104u32, 17523, 123928, 8288932, 8388264]
            &&& self.add_i@ == seq![true, true, true, false, false]
        },
        Class::B => {
            &&& self.n == 33_554_432 && self.b_max == 2_097_152 && self.i_max == 10
                && self.iter_offset == 0
            &&& self.test_index_array@ == seq![41869usize, 812306, 5102857, 18232239, 26860214]
            &&& self.test_rank_array@ == seq![33422937u32, 10244, 59149, 33135281, 99]
            &&& self.add_i@ == seq![false, true, true, false, true]
        },
        Class::C => {
            &&& self.n == 134_217_728 && self.b_max == 8_388_608 && self.i_max == 10
                && self.iter_offset == 0
            &&& self.test_index_array@ == seq![
                44172927usize,
                72999161,
                74326391,
                129606274,
                21736814,
            ]
            &&& self.test_rank_array@ == seq![61147u32, 882988, 266290, 133997595, 133525895]
            &&& self.add_i@ == seq![true, true, true, false, false]
        },
        Class::D => {
            &&& self.n == 2_147_483_648 && self.b_max == 134_217_728 && self.i_max == 10
                && self.iter_offset == 0
            &&& self.test_index_array@ == seq![
                1317351170usize,
                995930646,
                1157283250,
                1503301535,
                1453734525,
            ]
            &&& self.test_rank_array@ == seq![
                1u32,
                36538729,
                1978098519,
                2145192618,
                2147425337,
            ]
            &&& self.add_i@ == seq![true, true, false, false, false]
        },
    }
    }

    /// What `run` needs: keys in `[0, b_max)` and few enough to count in a
    /// `u32`, room for the test keys, `b_max` within the keys' type, and the
    /// checks of every iteration defined.
    pub open spec fn ready_to_run(self) -> bool {
        &&& in_range(self.keys@, self.b_max as int)
        &&& self.keys.len() <= u32::MAX
        &&& 2 * self.i_max < self.keys.len()
        &&& self.i_max < self.b_max
        &&& self.b_max <= 0x8000_0000
        &&& forall|t: u32| 1 <= t <= self.i_max ==> #[trigger] self.checks_defined(t)
    }

    /// The parameters of a class: `n` keys below `b_max`, `i_max`
    /// iterations, and the five test keys with their ranks; no keys yet.
    pub fn from_class(class: Class) -> (r: Self)
        ensures
            r.keys@ == Seq::<i32>::empty(),
            r.matches_class(class),
    {
        match class {
            Class::S => Self {
                n: 65_536,
                b_max: 2_048,
                i_max: 9,
                keys: Vec::with_capacity(65_536),
                test_index_array: vec![48427, 17148, 23627, 62548, 4431],
                test_rank_array: vec![0, 18, 346, 64917, 65463],
                add_i: vec![true, true, true, false, false],
                iter_offset: 0,
            },
            Class::A => Self {
                n: 8_388_608,
                b_max: 524_288,
                i_max: 10,
                keys: Vec::with_capacity(8_388_608),
                test_index_array: vec![2112377, 662041, 5336171, 3642833, 4250760],
                test_rank_array: vec![104, 17523, 123928, 8288932, 8388264],
                add_i: vec![true, true, true, false, false],
                iter_offset: -1,
            },
            Class::B => Self {
                n: 33_554_432,
                b_max: 2_097_152,
                i_max: 10,
                keys: Vec::with_capacity(33_554_432),
                test_index_array: vec![41869, 812306, 5102857, 18232239, 26860214],
                test_rank_array: vec![33422937, 10244, 59149, 33135281, 99],
                add_i: vec![false, true, true, false, true],
                iter_offset: 0,
            },
            Class::C => Self {
                n: 134_217_728,
                b_max: 8_388_608,
                i_max: 10,
                keys: Vec::with_capacity(134_217_728),
                test_index_array: vec![44172927, 72999161, 74326391, 129606274, 21736814],
                test_rank_array: vec![61147, 882988, 266290, 133997595, 133525895],
                add_i: vec![true, true, true, false, false],
                iter_offset: 0,
            },
            Class::D => Self {
                n: 2_147_483_648,
                b_max: 134_217_728,
                i_max: 10,
                keys: Vec::with_capacity(2_147_483_648),
                test_index_array: vec![1317351170, 995930646, 1157283250, 1503301535, 1453734525],
                test_rank_array: vec![1, 36538729, 1978098519, 2145192618, 2147425337],
                add_i: vec![true, true, false, false, false],
                iter_offset: 0,
            },
        }
    }

    /// The iteration number shifted by the class's offset.
    pub open spec fn i_adjusted(self, i: u32) -> u32 {
        ((i as i32) + self.iter_offset) as u32
    }

    /// The rank that test key `j` must have in iteration `i`.
    pub open spec fn expected_rank(self, j: int, i: u32) -> int {
        if self.add_i[j] {
            self.test_rank_array[j] + self.i_adjusted(i)
        } else {
            self.test_rank_array[j] - self.i_adjusted(i)
        }
    }

    /// Test key `j` in `keys`.
    pub open spec fn test_key(self, keys: Seq<i32>, j: int) -> int {
        keys[self.test_index_array[j] as int] as int
    }

    /// Whether test key `j` has its expected rank among `keys` in iteration `i`.
    pub open spec fn check_passes(self, keys: Seq<i32>, j: int, i: u32) -> bool {
        count_le(keys, self.test_key(keys, j) - 1) == self.expected_rank(j, i)
    }

    /// Whether all five test keys have their expected ranks in iteration `i`.
    pub open spec fn checks_pass(self, keys: Seq<i32>, i: u32) -> bool {
        forall|j: int| 0 <= j < 5 ==> self.check_passes(keys, j, i)
    }

    /// The five checks of iteration `i` are defined: the test tables hold five
    /// entries, the test keys exist, and the expected ranks fit in a `u32`.
    pub open spec fn checks_defined(self, i: u32) -> bool {
        &&& self.test_index_array.len() >= 5
        &&& self.test_rank_array.len() >= 5
        &&& self.add_i.len() >= 5
        &&& forall|j: int| 0 <= j < 5 ==> self.test_index_array[j] < self.keys.len()
        &&& i32::MIN <= (i as i32) + self.iter_offset <= i32::MAX
        &&& forall|j: int| 0 <= j < 5 ==> 0 <= #[trigger] self.expected_rank(j, i) <= u32::MAX
    }

    /// Checks the ranks of the five test keys in iteration `i` against the
    /// expected ones; `Err(j)` names the first test key whose rank differs.
    pub fn partial_verification(&self, ranks: &Vec<u32>, i: u32) -> (r: Result<(), usize>)
        requires
            self.checks_defined(i),
            forall|j: int|
                0 <= j < 5 ==> 0 <= #[trigger] self.test_key(self.keys@, j) <= ranks.len(),
        ensures
            r is Ok <==> (forall|j: int|
                0 <= j < 5 ==> rank_from(ranks@, #[trigger] self.test_key(self.keys@, j))
                    == self.expected_rank(j, i)),
            r matches Err(j) ==> {
                &&& j < 5
                &&& rank_from(ranks@, self.test_key(self.keys@, j as int)) != self.expected_rank(
                    j as int,
                    i,
                )
                &&& forall|jj: int|
                    0 <= jj < j ==> rank_from(ranks@, #[trigger] self.test_key(self.keys@, jj))
                        == self.expected_rank(jj, i)
            },
    {
        let mut j: usize = 0;
        while j < 5
            invariant
                j <= 5,
                self.checks_defined(i),
                forall|jj: int|
                    0 <= jj < 5 ==> 0 <= #[trigger] self.test_key(self.keys@, jj) <= ranks.len(),
                forall|jj: int|
                    0 <= jj < j ==> rank_from(ranks@, #[trigger] self.test_key(self.keys@, jj))
                        == self.expected_rank(jj, i),
            decreases 5 - j,
        {
            let idx = self.test_index_array[j];
            let key = self.keys[idx];
            assert(0 <= self.test_key(self.keys@, j as int) <= ranks.len());
            let key_val = key as usize;
            let computed_rank = if key_val == 0 {
                0
            } else {
                ranks[key_val - 1]
            };
            let i_adjusted = (i as i32 + self.iter_offset) as u32;
            assert(0 <= self.expected_rank(j as int, i) <= u32::MAX);
            let expected = if self.add_i[j] {
                self.test_rank_array[j] + i_adjusted
            } else {
                self.test_rank_array[j] - i_adjusted
            };
            assert(rank_from(ranks@, self.test_key(self.keys@, j as int)) == computed_rank);
            assert(self.expected_rank(j as int, i) == expected);
            if computed_rank != expected {
                return Err(j);
            }
            j += 1;
        }
        Ok(())
    }

    /// For each value `k` in `[0, b_max)`, how many keys are at most `k`;
    /// so the rank of a key `k > 0` (how many keys are below it) is the
    /// entry at `k - 1`.
    pub fn compute_ranks(&self) -> (r: Vec<u32>)
        requires
            in_range(self.keys@, self.b_max as int),
            self.keys.len() <= u32::MAX,
        ensures
            r.len() == self.b_max,
            forall|k: int| 0 <= k < self.b_max ==> r[k] == count_le(self.keys@, k),
    {
        let keys = &self.keys;
        let b = self.b_max as usize;
        let mut bucket: Vec<u32> = vec![0u32; b];
        let mut i: usize = 0;
        while i < keys.len()
            invariant
                i <= keys.len(),
                keys.len() <= u32::MAX,
                bucket.len() == b,
                b == self.b_max,
                keys == self.keys,
                in_range(keys@, b as int),
                forall|v: int| 0 <= v < b ==> bucket[v] == count_eq(keys@.take(i as int), v),
            decreases keys.len() - i,
        {
            let key = keys[i];
            assert(0 <= keys@[i as int] < b);
            let k = key as usize;
            proof {
                lemma_count_bounds(keys@.take(i as int), k as int);
            }
            let c = bucket[k];
            bucket.set(k, c + 1);
            proof {
                assert(keys@.take(i as int + 1) =~= keys@.take(i as int).push(key));
                assert forall|v: int| 0 <= v < b implies bucket[v] == count_eq(
                    keys@.take(i as int + 1),
                    v,
                ) by {
                    lemma_count_push(keys@.take(i as int), key, v);
                }
            }
            i += 1;
        }
        assert(keys@.take(keys.len() as int) =~= keys@);
        // bucket[k] now counts the keys equal to k; turn it into running sums.
        proof {
            lemma_count_le_ends(keys@, b as int);
        }
        if b > 0 {
            proof {
                lemma_count_le_split(keys@, 0);
            }
        }
        let mut k: usize = 1;
        while k < b
            invariant
                1 <= k <= b || b == 0,
                bucket.len() == b,
                b == self.b_max,
                keys == self.keys,
                keys.len() <= u32::MAX,
                forall|v: int| 0 <= v < k && v < b ==> bucket[v] == count_le(keys@, v),
                forall|v: int| k <= v < b ==> bucket[v] == count_eq(keys@, v),
            decreases b - k,
        {
            proof {
                lemma_count_le_split(keys@, k as int);
                lemma_count_bounds(keys@, k as int);
            }
            let c = bucket[k] + bucket[k - 1];
            bucket.set(k, c);
            k += 1;
        }
        bucket
    }

    /// Appends the `n` keys, drawn from the generator started at `SEED`.
    pub fn generate_keys(&mut self)
        requires
            4 * old(self).n <= usize::MAX,
        ensures
            final(self).keys@ == old(self).keys@ + is_keys(old(self).b_max as nat, old(self).n as nat),
            old(self).b_max > 0 ==> in_range(
                is_keys(old(self).b_max as nat, old(self).n as nat),
                old(self).b_max as int,
            ),
            final(self).n == old(self).n,
            final(self).b_max == old(self).b_max,
            final(self).i_max == old(self).i_max,
            final(self).test_index_array == old(self).test_index_array,
            final(self).test_rank_array == old(self).test_rank_array,
            final(self).add_i == old(self).add_i,
            final(self).iter_offset == old(self).iter_offset,
    {
        let ghost keys0 = self.keys@;
        let ghost bm = self.b_max as nat;
        let mut lazy_randdp = LazyRanddp::new(SEED, usize::MAX, A);
        let mut k: usize = 0;
        while k < self.n
            invariant
                k <= self.n,
                4 * self.n <= usize::MAX,
                bm == self.b_max,
                self.n == old(self).n,
                self.b_max == old(self).b_max,
                self.i_max == old(self).i_max,
                self.test_index_array == old(self).test_index_array,
                self.test_rank_array == old(self).test_rank_array,
                self.add_i == old(self).add_i,
                self.iter_offset == old(self).iter_offset,
                keys0 == old(self).keys@,
                lazy_randdp.state() == lcg_state(SEED as nat, A as nat, 4 * k as nat),
                lazy_randdp.remaining() == usize::MAX - 4 * k,
                lazy_randdp.multiplier() == A,
                self.keys@ == keys0 + is_keys(bm, k as nat),
                bm > 0 ==> in_range(is_keys(bm, k as nat), bm as int),
            decreases self.n - k,
        {
            let ghost t = 4 * k as nat;
            let ghost x = lazy_randdp.state();
            let sum = draw_four(&mut lazy_randdp);
            proof {
                lemma_lcg_state_adds(SEED as nat, A as nat, t, 1);
                lemma_lcg_state_adds(SEED as nat, A as nat, t, 2);
                lemma_lcg_state_adds(SEED as nat, A as nat, t, 3);
                lemma_lcg_state_adds(SEED as nat, A as nat, t, 4);
            }
            let key = key_from_sum(sum, self.b_max);
            assert(key == is_key(bm, k as nat));
            self.keys.push(key);
            proof {
                assert(self.keys@ =~= keys0 + is_keys(bm, k as nat + 1));
                let ks = is_keys(bm, k as nat + 1);
                assert(bm > 0 ==> in_range(ks, bm as int)) by {
                if bm > 0 {
                assert forall|p: int| 0 <= p < ks.len() implies 0 <= #[trigger] ks[p] < bm by {
                    if p < k {
                        assert(ks[p] == is_keys(bm, k as nat)[p]);
                    }
                }
                }
                }
            }
            k += 1;
        }
    }

    /// The ranks that a table of running counts of `keys` gives agree with
    /// the checks stated over the keys themselves.
    proof fn lemma_ranks_agree(self, keys: Seq<i32>, ranks: Seq<u32>, i: u32)
        requires
            in_range(keys, self.b_max as int),
            ranks.len() == self.b_max,
            forall|k: int| 0 <= k < self.b_max ==> ranks[k] == count_le(keys, k),
            self.test_index_array.len() >= 5,
            forall|j: int| 0 <= j < 5 ==> self.test_index_array[j] < keys.len(),
        ensures
            forall|j: int|
                0 <= j < 5 ==> (rank_from(ranks, #[trigger] self.test_key(keys, j))
                    == self.expected_rank(j, i) <==> self.check_passes(keys, j, i)),
    {
        lemma_count_le_ends(keys, self.b_max as int);
        assert forall|j: int| 0 <= j < 5 implies (rank_from(ranks, #[trigger] self.test_key(keys, j))
            == self.expected_rank(j, i) <==> self.check_passes(keys, j, i)) by {
            let idx = self.test_index_array[j] as int;
            assert(0 <= keys[idx] < self.b_max);
        }
    }

    /// Runs the `i_max` timed iterations: puts in the test keys of iteration
    /// `i`, ranks all keys and checks the five test keys. `Err((i, j))` names
    /// the first iteration and test key whose rank differs from the expected
    /// one; the keys are left as they were at that check.
    pub fn run(&mut self) -> (r: Result<(), (u32, usize)>)
        requires
            old(self).ready_to_run(),
        ensures
            final(self).n == old(self).n,
            final(self).b_max == old(self).b_max,
            final(self).i_max == old(self).i_max,
            final(self).test_index_array == old(self).test_index_array,
            final(self).test_rank_array == old(self).test_rank_array,
            final(self).add_i == old(self).add_i,
            final(self).iter_offset == old(self).iter_offset,
            final(self).keys.len() == old(self).keys.len(),
            in_range(final(self).keys@, old(self).b_max as int),
            r is Ok ==> {
                &&& final(self).keys@ == keys_after(
                    old(self).keys@,
                    old(self).i_max,
                    old(self).b_max,
                    old(self).i_max as nat,
                )
                &&& forall|t: u32|
                    1 <= t <= old(self).i_max ==> #[trigger] old(self).checks_pass(
                        keys_after(old(self).keys@, old(self).i_max, old(self).b_max, t as nat),
                        t,
                    )
            },
            r matches Err((i, j)) ==> {
                let ks = keys_after(old(self).keys@, old(self).i_max, old(self).b_max, i as nat);
                &&& 1 <= i <= old(self).i_max
                &&& j < 5
                &&& final(self).keys@ == ks
                &&& forall|t: u32|
                    1 <= t < i ==> #[trigger] old(self).checks_pass(
                        keys_after(old(self).keys@, old(self).i_max, old(self).b_max, t as nat),
                        t,
                    )
                &&& forall|jj: int| 0 <= jj < j ==> old(self).check_passes(ks, jj, i)
                &&& !old(self).check_passes(ks, j as int, i)
            },
    {
        let ghost keys0 = self.keys@;
        let ghost k0 = *self;
        let mut i: u32 = 1;
        while i <= self.i_max
            invariant
                1 <= i <= k0.i_max + 1,
                k0 == *old(self),
                self.n == k0.n,
                self.b_max == k0.b_max,
                self.i_max == k0.i_max,
                self.test_index_array == k0.test_index_array,
                self.test_rank_array == k0.test_rank_array,
                self.add_i == k0.add_i,
                self.iter_offset == k0.iter_offset,
                self.keys.len() == keys0.len(),
                keys0 == k0.keys@,
                keys0.len() <= u32::MAX,
                2 * k0.i_max < keys0.len(),
                k0.i_max < k0.b_max,
                k0.b_max <= 0x8000_0000,
                forall|t: u32| 1 <= t <= k0.i_max ==> #[trigger] k0.checks_defined(t),
                self.keys@ == keys_after(keys0, k0.i_max, k0.b_max, (i - 1) as nat),
                in_range(self.keys@, k0.b_max as int),
                forall|t: u32|
                    1 <= t < i ==> #[trigger] k0.checks_pass(
                        keys_after(keys0, k0.i_max, k0.b_max, t as nat),
                        t,
                    ),
            decreases k0.i_max + 1 - i,
        {
            let ghost prev = self.keys@;
            self.keys.set(i as usize, i as i32);
            let hi = i + self.i_max;
            self.keys.set(hi as usize, (self.b_max - i) as i32);
            proof {
                assert(self.keys@ == keys_after(keys0, k0.i_max, k0.b_max, i as nat));
                assert forall|p: int| 0 <= p < self.keys.len() implies 0 <= #[trigger] self.keys@[p]
                    < k0.b_max by {
                    if p != i && p != hi {
                        assert(self.keys@[p] == prev[p]);
                    }
                }
                assert(k0.checks_defined(i));
                assert forall|j: int| 0 <= j < 5 implies #[trigger] self.expected_rank(j, i)
                    == k0.expected_rank(j, i) by {}
                assert(self.checks_defined(i));
            }
            let ranks = self.compute_ranks();
            proof {
                self.lemma_ranks_agree(self.keys@, ranks@, i);
                assert forall|j: int| 0 <= j < 5 implies #[trigger] self.check_passes(
                    self.keys@,
                    j,
                    i,
                ) == k0.check_passes(self.keys@, j, i) by {}
            }
            let checked = self.partial_verification(&ranks, i);
            match checked {
                Ok(()) => {
                    proof {
                        assert forall|j: int| 0 <= j < 5 implies k0.check_passes(
                            self.keys@,
                            j,
                            i,
                        ) by {
                            assert(rank_from(ranks@, self.test_key(self.keys@, j))
                                == self.expected_rank(j, i));
                        }
                        assert(k0.checks_pass(self.keys@, i));
                    }
                },
                Err(j) => {
                    proof {
                        assert forall|jj: int| 0 <= jj < j implies k0.check_passes(
                            self.keys@,
                            jj,
                            i,
                        ) by {
                            assert(rank_from(ranks@, self.test_key(self.keys@, jj))
                                == self.expected_rank(jj, i));
                        }
                        assert(!self.check_passes(self.keys@, j as int, i));
                    }
                    return Err((i, j));
                },
            }
            i += 1;
        }
        Ok(())
    }

    /// Sorts the keys by counting: the new keys are the old ones in
    /// ascending order.
    pub fn sort_keys(&mut self)
        requires
            in_range(old(self).keys@, old(self).b_max as int),
            old(self).keys.len() <= u32::MAX,
        ensures
            is_sorted(final(self).keys@),
            final(self).keys@.to_multiset() == old(self).keys@.to_multiset(),
            final(self).keys.len() == old(self).keys.len(),
            final(self).n == old(self).n,
            final(self).b_max == old(self).b_max,
            final(self).i_max == old(self).i_max,
            final(self).test_index_array == old(self).test_index_array,
            final(self).test_rank_array == old(self).test_rank_array,
            final(self).add_i == old(self).add_i,
            final(self).iter_offset == old(self).iter_offset,
    {
        let ghost keys = self.keys@;
        let bucket = self.compute_ranks();
        let b = bucket.len();
        proof {
            lemma_count_le_ends(keys, b as int);
        }
        let mut sorted: Vec<i32> = Vec::with_capacity(self.n);
        let mut prev: u32 = 0;
        let mut k: usize = 0;
        while k < b
            invariant
                k <= b,
                b == bucket.len(),
                b == self.b_max,
                keys == self.keys@,
                keys.len() <= u32::MAX,
                in_range(keys, b as int),
                forall|v: int| 0 <= v < b ==> bucket[v] == count_le(keys, v),
                count_le(keys, -1) == 0,
                prev == count_le(keys, k - 1),
                sorted.len() == count_le(keys, k - 1),
                is_sorted(sorted@),
                forall|i: int| 0 <= i < sorted.len() ==> sorted[i] < k,
                forall|v: int| v < k ==> count_eq(sorted@, v) == count_eq(keys, v),
                forall|v: int| v >= k ==> count_eq(sorted@, v) == 0,
            decreases b - k,
        {
            let cumulative = bucket[k];
            proof {
                lemma_count_le_mono(keys, k - 1, k as int);
                lemma_count_le_split(keys, k as int);
            }
            let freq = cumulative - prev;
            if freq > 0 {
                proof {
                    lemma_count_eq_occurs(keys, k as int);
                }
                let ghost before = sorted@;
                push_copies(&mut sorted, k as i32, freq);
                proof {
                    assert forall|p: int, q: int| 0 <= p <= q < sorted.len() implies sorted[p]
                        <= sorted[q] by {
                        if q < before.len() {
                            assert(before[p] <= before[q]);
                        } else if p < before.len() {
                            assert(before[p] < k);
                        }
                    }
                }
            }
            prev = cumulative;
            k += 1;
        }
        proof {
            assert forall|v: int| count_eq(sorted@, v) == count_eq(keys, v) by {
                if v >= b as int {
                    assert(count_eq(keys, v) == 0);
                }
            }
            lemma_same_counts_same_multiset(sorted@, keys);
        }
        self.keys = sorted;
    }

    /// Whether the first `n` keys are in ascending order.
    pub fn full_verify(&self) -> (r: bool)
        requires
            self.n <= self.keys.len(),
        ensures
            r == is_sorted(self.keys@.take(self.n as int)),
    {
        if self.n == 0 {
            assert(is_sorted(self.keys@.take(0)));
            return true;
        }
        let mut i: usize = 1;
        assert(is_sorted(self.keys@.take(1)));
        while i < self.n
            invariant
                1 <= i <= self.n,
                self.n <= self.keys.len(),
                is_sorted(self.keys@.take(i as int)),
            decreases self.n - i,
        {
            if self.keys[i - 1] > self.keys[i] {
                assert(!is_sorted(self.keys@.take(self.n as int))) by {
                    let t = self.keys@.take(self.n as int);
                    assert(t[i - 1] > t[i as int]);
                }
                return false;
            }
            proof {
                let t = self.keys@.take(i as int + 1);
                assert forall|p: int, q: int| 0 <= p <= q < t.len() implies t[p] <= t[q] by {
                    let s = self.keys@.take(i as int);
                    if q < i {
                        assert(t[p] == s[p] && t[q] == s[q]);
                    } else if p < i {
                        assert(s[p] <= s[i - 1]);
                    }
                }
            }
            i += 1;
        }
        assert(self.keys@.take(i as int) =~= self.keys@.take(self.n as int));
        true
    }
}

/// Law: the tables of every class fit the kernel. Once its `n` keys in
/// `[0, b_max)` are generated, a kernel built for any class meets everything
/// that `run` needs, so its checks never overflow and never index out of range.
pub proof fn lemma_class_ready_to_run(k: IsKernel, class: Class)
    requires
        k.matches_class(class),
        k.keys.len() == k.n,
        in_range(k.keys@, k.b_max as int),
    ensures
        k.ready_to_run(),
{
    assert forall|t: u32| 1 <= t <= k.i_max implies #[trigger] k.checks_defined(t) by {
        assert forall|j: int| 0 <= j < 5 implies 0 <= #[trigger] k.expected_rank(j, t) <= u32::MAX by {
            assert(0 <= k.i_adjusted(t) <= 10) by {
                assert(0 <= (t as i32) + k.iter_offset <= 10);
            }
        }
    }
}

/// Law: the rank expected of test key `j` in iteration `i` is its published
/// rank shifted by `i + iter_offset`: up where `add_i[j]`, down otherwise.
/// (With the offset -1 of class A, iteration 1 expects the published ranks
/// themselves.)
pub proof fn lemma_expected_rank_shift(k: IsKernel, j: int, i: u32)
    requires
        0 <= j < k.test_rank_array.len(),
        j < k.add_i.len(),
        i <= i32::MAX,
        0 <= i + k.iter_offset <= i32::MAX,
    ensures
        k.expected_rank(j, i) == k.test_rank_array[j] + (if k.add_i[j] {
            i + k.iter_offset
        } else {
            -(i + k.iter_offset)
        }),
{
}

/// Law: a larger class sorts strictly more keys over a strictly larger range,
/// and never fewer iterations.
pub proof fn lemma_is_classes_grow(k1: IsKernel, c1: Class, k2: IsKernel, c2: Class)
    requires
        k1.matches_class(c1),
        k2.matches_class(c2),
        class_size(c1) < class_size(c2),
    ensures
        k1.n < k2.n,
        k1.b_max < k2.b_max,
        k1.i_max <= k2.i_max,
{
}

/// Law: in every class the test keys lie among the `n` keys, and the
/// published ranks are ranks among them: below `n`.
pub proof fn lemma_is_test_keys_fit(k: IsKernel, c: Class)
    requires
        k.matches_class(c),
    ensures
        forall|j: int| 0 <= j < 5 ==> #[trigger] k.test_index_array[j] < k.n,
        forall|j: int| 0 <= j < 5 ==> #[trigger] k.test_rank_array[j] < k.n,
{
}

/// Law: in every class the number of keys and the key range are powers of
/// two, with at least 16 keys per value on average. (With `b_max` a power of
/// two the integer keys equal the floating point ones.)
pub proof fn lemma_is_sizes_are_powers_of_two(k: IsKernel, c: Class)
    requires
        k.matches_class(c),
    ensures
        exists|e: nat| power(2, e) == k.n,
        exists|e: nat| power(2, e) == k.b_max,
        16 * k.b_max <= k.n,
{
    reveal_with_fuel(power, 32);
    match c {
        Class::S => {
            assert(power(2, 16) == k.n);
            assert(power(2, 11) == k.b_max);
        },
        Class::A => {
            assert(power(2, 23) == k.n);
            assert(power(2, 19) == k.b_max);
        },
        Class::B => {
            assert(power(2, 25) == k.n);
            assert(power(2, 21) == k.b_max);
        },
        Class::C => {
            assert(power(2, 27) == k.n);
            assert(power(2, 23) == k.b_max);
        },
        Class::D => {
            assert(power(2, 31) == k.n);
            assert(power(2, 27) == k.b_max);
        },
    }
}

} // verus!
