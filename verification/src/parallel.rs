use vstd::prelude::*;
use vstd::arithmetic::div_mod::{lemma_fundamental_div_mod, lemma_mod_bound};
use crate::randdp::{
    LazyRanddp, lcg_outputs, lcg_state, modulus, power, lemma_lcg_outputs_concat,
    lemma_lcg_state_start_mod, lemma_skip_is_steps,
};

verus! {

/// The even batch size that each generator but the first gets: `n / m`,
/// lowered by one where that is odd.
pub open spec fn batch_size_of(n: nat, m: nat) -> nat {
    if (n / m) % 2 == 1 {
        (n / m - 1) as nat
    } else {
        n / m
    }
}

/// What the first generator gets on top of its batch: the `m` values taken
/// off the batches where `n / m` is odd, and `n % m`.
pub open spec fn remainder_of(n: nat, m: nat) -> nat {
    (if (n / m) % 2 == 1 {
        m
    } else {
        0nat
    }) + n % m
}

/// How many values the next generator hands out: the first one gets the
/// remainder on top of its batch, each later one its batch.
pub open spec fn next_count(first: bool, batch: nat, rem: nat) -> nat {
    if first {
        batch + rem
    } else {
        batch
    }
}

/// The generators, as (start state, count) pairs, that a splitter hands out
/// in order: each starts `prev` steps after `current`, where `prev` is the
/// count of the generator before it (0 before the first one).
pub open spec fn par_generators(
    current: nat,
    prev: nat,
    first: bool,
    a: nat,
    m: nat,
    batch: nat,
    rem: nat,
) -> Seq<(nat, nat)>
    decreases m,
{
    if m == 0 {
        Seq::empty()
    } else {
        let st = (current * power(a, prev)) % modulus();
        let c = next_count(first, batch, rem);
        seq![(st, c)] + par_generators(st, c, false, a, (m - 1) as nat, batch, rem)
    }
}

/// Whether every skip that the remaining `m` generators make fits below
/// `u32::MAX`, the bound of `LazyRanddp::skip_forward`.
pub open spec fn skips_fit_from(prev: nat, first: bool, batch: nat, rem: nat, m: nat) -> bool
    decreases m,
{
    if m == 0 {
        true
    } else {
        prev < u32::MAX && skips_fit_from(
            next_count(first, batch, rem),
            false,
            batch,
            rem,
            (m - 1) as nat,
        )
    }
}

/// The values that a sequence of generators hands out, one after the other.
pub open spec fn concat_outputs(gens: Seq<(nat, nat)>, a: nat) -> Seq<nat>
    decreases gens.len(),
{
    if gens.len() == 0 {
        Seq::empty()
    } else {
        lcg_outputs(gens[0].0, a, gens[0].1) + concat_outputs(gens.drop_first(), a)
    }
}

/// Splits the sequence of `n` values of a generator into `m` generators that
/// can run in parallel: the first hands out a batch and the remainder, each
/// other one batch.
pub struct ParallelLazyRanddp {
    current: u64,
    prev_n: usize,
    first: bool,
    a: u64,
    m: usize,
    batch_size: usize,
    remainder: usize,
}

impl ParallelLazyRanddp {
    /// The first generator's count fits in a `usize`.
    #[verifier::type_invariant]
    spec fn counts_fit(self) -> bool {
        self.batch_size + self.remainder <= usize::MAX
    }

    /// The state from which the next generator starts, before its skip.
    pub closed spec fn state(self) -> nat {
        self.current as nat
    }

    /// How many values the previous generator hands out (0 before the first).
    pub closed spec fn prev_count(self) -> nat {
        self.prev_n as nat
    }

    /// Whether the next generator is the first one.
    pub closed spec fn is_first(self) -> bool {
        self.first
    }

    /// The multiplier of the sequence.
    pub closed spec fn multiplier(self) -> nat {
        self.a as nat
    }

    /// How many generators are still to come.
    pub closed spec fn generators_left(self) -> nat {
        self.m as nat
    }

    /// The batch of each generator.
    pub closed spec fn batch(self) -> nat {
        self.batch_size as nat
    }

    /// What the first generator gets on top of its batch.
    pub closed spec fn extra(self) -> nat {
        self.remainder as nat
    }

    /// The generators still to come, as (start state, count) pairs.
    pub open spec fn generators(self) -> Seq<(nat, nat)> {
        par_generators(
            self.state(),
            self.prev_count(),
            self.is_first(),
            self.multiplier(),
            self.generators_left(),
            self.batch(),
            self.extra(),
        )
    }

    /// Whether handing out the remaining generators stays within the skip
    /// bound of `LazyRanddp::skip_forward`.
    pub open spec fn skips_fit(self) -> bool {
        skips_fit_from(
            self.prev_count(),
            self.is_first(),
            self.batch(),
            self.extra(),
            self.generators_left(),
        )
    }

    /// A splitter of the `n` values that follow `seed` into `m` generators.
    pub fn new(seed: u64, n: usize, a: u64, m: usize) -> (r: Self)
        requires
            m > 0,
            n % 2 == 0,
        ensures
            r.state() == seed,
            r.prev_count() == 0,
            r.is_first(),
            r.multiplier() == a,
            r.generators_left() == m,
            r.batch() == batch_size_of(n as nat, m as nat),
            r.extra() == remainder_of(n as nat, m as nat),
            r.batch() % 2 == 0,
            r.extra() % 2 == 0,
            m * r.batch() + r.extra() == n,
    {
        proof {
            lemma_batch_split(n as nat, m as nat);
            lemma_fundamental_div_mod(n as int, m as int);
            lemma_mod_bound(n as int, m as int);
            assert(batch_size_of(n as nat, m as nat) <= m * batch_size_of(n as nat, m as nat))
                by (nonlinear_arith)
                requires
                    m >= 1,
            ;
        }
        let mut batch_size = n / m;
        let mut remainder: usize = 0;
        if batch_size % 2 != 0 {
            batch_size -= 1;
            remainder += m;
        }
        remainder += n % m;
        Self { current: seed, prev_n: 0, first: true, a, m, batch_size, remainder }
    }

    /// Hands out the next generator, already moved to its start, or `None`
    /// once all `m` have been handed out.
    pub fn next(&mut self) -> (r: Option<LazyRanddp>)
        requires
            old(self).generators_left() > 0 ==> old(self).prev_count() < u32::MAX,
        ensures
            old(self).skips_fit() ==> final(self).skips_fit(),
            final(self).multiplier() == old(self).multiplier(),
            final(self).batch() == old(self).batch(),
            final(self).extra() == old(self).extra(),
            old(self).generators_left() == 0 ==> r is None && *final(self) == *old(self),
            old(self).generators_left() > 0 ==> {
                &&& r is Some
                &&& r->0.state() == old(self).generators()[0].0
                &&& r->0.remaining() == old(self).generators()[0].1
                &&& r->0.multiplier() == old(self).multiplier()
                &&& final(self).state() == old(self).generators()[0].0
                &&& final(self).prev_count() == old(self).generators()[0].1
                &&& !final(self).is_first()
                &&& final(self).generators() == old(self).generators().drop_first()
                &&& final(self).generators_left() == old(self).generators_left() - 1
            },
    {
        proof {
            use_type_invariant(&*self);
        }
        if self.m == 0 {
            return None;
        }
        self.m -= 1;
        let n = if self.first {
            self.batch_size + self.remainder
        } else {
            self.batch_size
        };
        self.first = false;
        let mut lazy_randdp = LazyRanddp::new(self.current, n, self.a);
        lazy_randdp.skip_forward(self.prev_n as u64);
        self.current = lazy_randdp.get_current();
        self.prev_n = n;
        proof {
            let g = old(self).generators();
            assert(g == seq![(self.current as nat, n as nat)] + self.generators());
            assert(g.drop_first() =~= self.generators());
        }
        Some(lazy_randdp)
    }

    /// Whether every skip that handing out the remaining generators makes
    /// stays below `u32::MAX`, as `to_vec` needs.
    pub fn all_skips_fit(&self) -> (r: bool)
        ensures
            r == self.skips_fit(),
    {
        proof {
            use_type_invariant(self);
        }
        let mut p = self.prev_n;
        let mut first = self.first;
        let mut k = self.m;
        while k > 0
            invariant
                self.batch_size + self.remainder <= usize::MAX,
                self.skips_fit() == skips_fit_from(
                    p as nat,
                    first,
                    self.batch(),
                    self.extra(),
                    k as nat,
                ),
            decreases k,
        {
            if p as u64 >= u32::MAX as u64 {
                return false;
            }
            p = if first {
                self.batch_size + self.remainder
            } else {
                self.batch_size
            };
            first = false;
            k -= 1;
        }
        true
    }

    /// Hands out all the remaining generators, in order.
    pub fn to_vec(self) -> (r: Vec<LazyRanddp>)
        requires
            self.skips_fit(),
        ensures
            r.len() == self.generators().len(),
            forall|i: int|
                0 <= i < r.len() ==> {
                    &&& (#[trigger] r[i]).state() == self.generators()[i].0
                    &&& r[i].remaining() == self.generators()[i].1
                    &&& r[i].multiplier() == self.multiplier()
                },
    {
        let ghost gens = self.generators();
        proof {
            lemma_par_generators_len(self);
        }
        let mut p = self;
        let mut iters: Vec<LazyRanddp> = Vec::new();
        while p.m > 0
            invariant
                p.skips_fit(),
                p.multiplier() == self.multiplier(),
                gens.len() == self.generators_left(),
                iters.len() + p.generators_left() == gens.len(),
                p.generators() == gens.subrange(iters.len() as int, gens.len() as int),
                forall|i: int|
                    0 <= i < iters.len() ==> {
                        &&& (#[trigger] iters[i]).state() == gens[i].0
                        &&& iters[i].remaining() == gens[i].1
                        &&& iters[i].multiplier() == self.multiplier()
                    },
            decreases p.m,
        {
            proof {
                lemma_par_generators_len(p);
            }
            let k = iters.len();
            let ghost before = p.generators();
            let e = p.next();
            match e {
                Some(g) => {
                    iters.push(g);
                },
                None => {},
            }
            proof {
                assert(before[0] == gens[k as int]);
                assert(before.drop_first() =~= gens.subrange(k + 1, gens.len() as int));
            }
        }
        iters
    }
}

/// The batches and the remainder add up to `n`, and both are even.
pub proof fn lemma_batch_split(n: nat, m: nat)
    requires
        m > 0,
        n % 2 == 0,
    ensures
        m * batch_size_of(n, m) + remainder_of(n, m) == n,
        batch_size_of(n, m) % 2 == 0,
        remainder_of(n, m) % 2 == 0,
{
    let q = n / m;
    let r0 = n % m;
    let b = batch_size_of(n, m);
    let r = remainder_of(n, m);
    lemma_fundamental_div_mod(n as int, m as int);
    assert(m * b + r == n) by (nonlinear_arith)
        requires
            n == m * q + r0,
            q % 2 == 1 ==> b == q - 1 && r == m + r0,
            q % 2 == 0 ==> b == q && r == r0,
    ;
    let h = b / 2;
    assert(m * b == 2 * (m * h)) by (nonlinear_arith)
        requires
            b == 2 * h,
    ;
}

proof fn lemma_concat_cons(x: (nat, nat), rest: Seq<(nat, nat)>, a: nat)
    ensures
        concat_outputs(seq![x] + rest, a) == lcg_outputs(x.0, a, x.1) + concat_outputs(rest, a),
{
    let g = seq![x] + rest;
    assert(g[0] == x);
    assert(g.drop_first() =~= rest);
}

proof fn lemma_outputs_empty(x: nat, a: nat)
    ensures
        lcg_outputs(x, a, 0) == Seq::<nat>::empty(),
{
    assert(lcg_outputs(x, a, 0) =~= Seq::<nat>::empty());
}

/// After the first generator, each of the `m` generators continues where the
/// previous one stopped, with `batch` values each.
proof fn lemma_concat_tail(current: nat, prev: nat, a: nat, m: nat, batch: nat, rem: nat)
    requires
        prev >= 1 || current < modulus(),
    ensures
        concat_outputs(par_generators(current, prev, false, a, m, batch, rem), a) == lcg_outputs(
            lcg_state(current, a, prev),
            a,
            m * batch,
        ),
    decreases m,
{
    if m == 0 {
        lemma_outputs_empty(lcg_state(current, a, prev), a);
        assert(m * batch == 0);
        assert(par_generators(current, prev, false, a, m, batch, rem) == Seq::<(nat, nat)>::empty());
    } else {
        let st = (current * power(a, prev)) % modulus();
        lemma_skip_is_steps(current, a, prev);
        vstd::arithmetic::div_mod::lemma_mod_bound((current * power(a, prev)) as int, modulus() as int);
        let rest = par_generators(st, batch, false, a, (m - 1) as nat, batch, rem);
        assert(par_generators(current, prev, false, a, m, batch, rem) == seq![(st, batch)] + rest);
        lemma_concat_cons((st, batch), rest, a);
        lemma_concat_tail(st, batch, a, (m - 1) as nat, batch, rem);
        lemma_lcg_outputs_concat(st, a, batch, ((m - 1) * batch) as nat);
        assert(batch + (m - 1) * batch == m * batch) by (nonlinear_arith);
    }
}

/// Law: splitting changes nothing. The generators of a splitter built by
/// `ParallelLazyRanddp::new(seed, n, a, m)`, run one after the other, hand
/// out exactly the `n` values that one `LazyRanddp::new(seed, n, a)` hands
/// out.
pub proof fn lemma_split_preserves_sequence(seed: nat, n: nat, a: nat, m: nat)
    requires
        m > 0,
        n % 2 == 0,
    ensures
        concat_outputs(
            par_generators(seed, 0, true, a, m, batch_size_of(n, m), remainder_of(n, m)),
            a,
        ) == lcg_outputs(seed, a, n),
{
    let b = batch_size_of(n, m);
    let r = remainder_of(n, m);
    lemma_batch_split(n, m);
    let n0 = b + r;
    let st = (seed * power(a, 0)) % modulus();
    assert(power(a, 0) == 1);
    vstd::arithmetic::div_mod::lemma_mod_bound(seed as int, modulus() as int);
    let rest = par_generators(st, n0, false, a, (m - 1) as nat, b, r);
    assert(par_generators(seed, 0, true, a, m, b, r) == seq![(st, n0)] + rest);
    lemma_concat_cons((st, n0), rest, a);
    if n0 >= 1 {
        lemma_concat_tail(st, n0, a, (m - 1) as nat, b, r);
    } else {
        lemma_concat_tail(st, 0, a, (m - 1) as nat, b, r);
        assert(lcg_state(st, a, 0) == st);
    }
    assert(lcg_state(st, a, n0) == lcg_state(st, a, n0));
    lemma_lcg_outputs_concat(st, a, n0, ((m - 1) * b) as nat);
    assert(n0 + (m - 1) * b == n) by (nonlinear_arith)
        requires
            m * b + r == n,
            n0 == b + r,
    ;
    assert forall|i: int| 0 <= i < n implies lcg_outputs(st, a, n)[i] == lcg_outputs(
        seed,
        a,
        n,
    )[i] by {
        lemma_lcg_state_start_mod(seed, a, (i + 1) as nat);
    }
    assert(lcg_outputs(st, a, n) =~= lcg_outputs(seed, a, n));
}

/// A splitter hands out exactly as many generators as it has left.
pub proof fn lemma_par_generators_len(p: ParallelLazyRanddp)
    ensures
        p.generators().len() == p.generators_left(),
{
    lemma_gens_len(
        p.state(),
        p.prev_count(),
        p.is_first(),
        p.multiplier(),
        p.generators_left(),
        p.batch(),
        p.extra(),
    );
}

proof fn lemma_gens_len(
    current: nat,
    prev: nat,
    first: bool,
    a: nat,
    m: nat,
    batch: nat,
    rem: nat,
)
    ensures
        par_generators(current, prev, first, a, m, batch, rem).len() == m,
    decreases m,
{
    if m > 0 {
        let st = (current * power(a, prev)) % modulus();
        lemma_gens_len(st, next_count(first, batch, rem), false, a, (m - 1) as nat, batch, rem);
    }
}

} // verus!
