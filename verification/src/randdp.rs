use vstd::prelude::*;
use vstd::arithmetic::div_mod::{lemma_mod_mod, lemma_mul_mod_noop_general, lemma_mod_bound};

verus! {

/// The modulus of the generator, 2^46.
pub const B: u64 = 0x4000_0000_0000;

/// The multiplier of the benchmarks' generator, 5^13.
pub const A: u64 = 1_220_703_125;

/// The seed of the streams of the integer sort and conjugate gradient kernels.
pub const SEED: u64 = 314_159_265;

/// 2^46 as a mathematical integer.
pub open spec fn modulus() -> nat {
    0x4000_0000_0000
}

/// 2^64, the range of `u64`.
pub open spec fn word() -> nat {
    0x1_0000_0000_0000_0000
}

/// `a` to the power `k`.
pub open spec fn power(a: nat, k: nat) -> nat
    decreases k,
{
    if k == 0 {
        1
    } else {
        a * power(a, (k - 1) as nat)
    }
}

/// One step of the generator: `x_{k+1} = a * x_k mod 2^46`.
pub open spec fn lcg_step(a: nat, x: nat) -> nat {
    (a * x) % modulus()
}

/// The state of a generator started at `x0` after `k` steps.
pub open spec fn lcg_state(x0: nat, a: nat, k: nat) -> nat
    decreases k,
{
    if k == 0 {
        x0
    } else {
        lcg_step(a, lcg_state(x0, a, (k - 1) as nat))
    }
}

/// The `n` values that a generator started at `x0` hands out, in order.
pub open spec fn lcg_outputs(x0: nat, a: nat, n: nat) -> Seq<nat> {
    Seq::new(n, |i: int| lcg_state(x0, a, (i + 1) as nat))
}

/// `u64::wrapping_pow`: as its documentation states, `base` raised to the
/// power `exp` in wrapping (modular) arithmetic, that is modulo 2^64.
#[verifier::external_body]
fn wrapping_pow(base: u64, exp: u32) -> (r: u64)
    ensures
        r as nat == power(base as nat, exp as nat) % word(),
{
    base.wrapping_pow(exp)
}

/// Powers add their exponents.
pub proof fn lemma_power_adds(a: nat, x: nat, y: nat)
    ensures
        power(a, x + y) == power(a, x) * power(a, y),
    decreases x,
{
    if x == 0 {
        assert(power(a, 0) == 1);
    } else {
        let x1 = (x - 1) as nat;
        lemma_power_adds(a, x1, y);
        assert(power(a, x1 + y + 1) == a * power(a, x1 + y));
        assert(x1 + y + 1 == x + y);
        assert(power(a, x) == a * power(a, x1));
        vstd::arithmetic::mul::lemma_mul_is_associative(
            a as int,
            power(a, x1) as int,
            power(a, y) as int,
        );
    }
}

proof fn lemma_mask_step(amount: u64, mask: u64, j: u64)
    by (bit_vector)
    requires
        j < 32,
        mask == 1u64 << j,
    ensures
        (amount & mask) == 0u64 || (amount & mask) == mask,
        amount & (((mask << 1u64) - 1u64) as u64) == (amount & ((mask - 1u64) as u64)) + (amount & mask),
        mask << 1u64 == 1u64 << ((j + 1u64) as u64),
        amount & mask <= amount,
{
}

proof fn lemma_mask_bounds(amount: u64, mask: u64, j: u64)
    by (bit_vector)
    requires
        j <= 32,
        mask == 1u64 << j,
        amount < 0xffff_ffffu64,
    ensures
        mask <= amount ==> j < 32,
        mask > amount ==> amount & ((mask - 1u64) as u64) == amount,
        j == 0u64 ==> amount & ((mask - 1u64) as u64) == 0u64,
{
}

/// Stepping `j` times and then `k` times is stepping `j + k` times.
pub proof fn lemma_lcg_state_adds(x: nat, a: nat, j: nat, k: nat)
    ensures
        lcg_state(lcg_state(x, a, j), a, k) == lcg_state(x, a, j + k),
    decreases k,
{
    if k > 0 {
        lemma_lcg_state_adds(x, a, j, (k - 1) as nat);
        assert(j + k == (j + (k - 1) as nat) + 1);
    }
}

/// After at least one step, the state no longer depends on the start beyond
/// its residue modulo 2^46.
pub proof fn lemma_lcg_state_start_mod(x: nat, a: nat, k: nat)
    requires
        k >= 1,
    ensures
        lcg_state(x % modulus(), a, k) == lcg_state(x, a, k),
    decreases k,
{
    if k == 1 {
        assert(lcg_state(x % modulus(), a, 0) == x % modulus());
        assert(lcg_state(x, a, 0) == x);
        lemma_mul_mod_noop_general(a as int, x as int, modulus() as int);
    } else {
        lemma_lcg_state_start_mod(x, a, (k - 1) as nat);
    }
}

/// The closed form of the sequence: after `k >= 1` steps from `x` the state
/// is `x * a^k mod 2^46`.
pub proof fn lemma_lcg_state_closed_form(x: nat, a: nat, k: nat)
    requires
        k >= 1,
    ensures
        lcg_state(x, a, k) == (x * power(a, k)) % modulus(),
    decreases k,
{
    let m = modulus() as int;
    if k == 1 {
        assert(lcg_state(x, a, 0) == x);
        assert(power(a, 1) == a * power(a, 0));
        assert(x * power(a, 1) == a * x) by (nonlinear_arith)
            requires
                power(a, 1) == a * power(a, 0),
                power(a, 0) == 1,
        ;
    } else {
        let k1 = (k - 1) as nat;
        lemma_lcg_state_closed_form(x, a, k1);
        let p = x * power(a, k1);
        lemma_mul_mod_noop_general(a as int, p as int, m);
        assert(power(a, k) == a * power(a, k1));
        assert(a * p == x * power(a, k)) by (nonlinear_arith)
            requires
                p == x * power(a, k1),
                power(a, k) == a * power(a, k1),
        ;
    }
}

/// Skipping ahead agrees with stepping: for `k >= 1`, or for any `k` from a
/// state below 2^46, `x * a^k mod 2^46` is the state after `k` steps.
pub proof fn lemma_skip_is_steps(x: nat, a: nat, k: nat)
    requires
        k >= 1 || x < modulus(),
    ensures
        (x * power(a, k)) % modulus() == lcg_state(x, a, k),
{
    if k >= 1 {
        lemma_lcg_state_closed_form(x, a, k);
    } else {
        assert(power(a, 0) == 1);
        vstd::arithmetic::div_mod::lemma_small_mod(x, modulus());
    }
}

/// The values handed out in two runs one after the other are those of one
/// run of the combined length.
pub proof fn lemma_lcg_outputs_concat(x: nat, a: nat, c1: nat, c2: nat)
    ensures
        lcg_outputs(x, a, c1) + lcg_outputs(lcg_state(x, a, c1), a, c2) == lcg_outputs(
            x,
            a,
            c1 + c2,
        ),
{
    let l = lcg_outputs(x, a, c1) + lcg_outputs(lcg_state(x, a, c1), a, c2);
    let r = lcg_outputs(x, a, c1 + c2);
    assert forall|i: int| c1 <= i < c1 + c2 implies l[i] == r[i] by {
        lemma_lcg_state_adds(x, a, c1, (i - c1 + 1) as nat);
    }
    assert(l =~= r);
}

/// Law: handing out the values one by one gives what handing them out at
/// once gives: the first value, then the values of the generator it leaves.
pub proof fn lemma_lcg_outputs_first(x: nat, a: nat, n: nat)
    requires
        n >= 1,
    ensures
        lcg_outputs(x, a, n) == seq![lcg_step(a, x)] + lcg_outputs(lcg_step(a, x), a, (n - 1) as nat),
{
    assert(lcg_state(x, a, 0) == x);
    assert(lcg_step(a, x) == lcg_state(x, a, 1));
    lemma_lcg_outputs_concat(x, a, 1, (n - 1) as nat);
    assert(lcg_outputs(x, a, 1) =~= seq![lcg_step(a, x)]);
}

/// An odd factor cannot bring a product to a multiple of `2^k`: if
/// `a * x` is a multiple of `2^k` and `a` is odd, then `x` is one.
pub proof fn lemma_odd_factor(a: nat, x: nat, k: nat)
    requires
        a % 2 == 1,
        (a * x) % power(2, k) == 0,
    ensures
        x % power(2, k) == 0,
    decreases k,
{
    if k > 0 {
        let k1 = (k - 1) as nat;
        let p = power(2, k1);
        lemma_power_positive(k1);
        assert(power(2, k) == p * 2);
        lemma_mod_mod((a * x) as int, p as int, 2);
        lemma_odd_factor(a, x, k1);
        let y = x / p;
        vstd::arithmetic::div_mod::lemma_fundamental_div_mod(x as int, p as int);
        assert(x == p * y);
        assert(a * x == p * (a * y)) by (nonlinear_arith)
            requires
                x == p * y,
        ;
        vstd::arithmetic::div_mod::lemma_truncate_middle((a * y) as int, p as int, 2);
        assert(p * ((a * y) % 2) == 0);
        assert((a * y) % 2 == 0) by (nonlinear_arith)
            requires
                p * ((a * y) % 2) == 0,
                p > 0,
        ;
        lemma_mul_mod_noop_general(a as int, y as int, 2);
        assert(y % 2 == 0);
        let z = y / 2;
        assert(x == (p * 2) * z) by (nonlinear_arith)
            requires
                x == p * y,
                y == 2 * z,
        ;
        vstd::arithmetic::div_mod::lemma_mod_multiples_basic(z as int, (p * 2) as int);
        assert(x == z * (p * 2)) by (nonlinear_arith)
            requires
                x == (p * 2) * z,
        ;
    }
}

/// Powers of two are positive.
proof fn lemma_power_positive(k: nat)
    ensures
        power(2, k) > 0,
    decreases k,
{
    if k > 0 {
        lemma_power_positive((k - 1) as nat);
    }
}

/// Every value the generator hands out lies below 2^46; where the
/// multiplier is odd and the start is not a multiple of 2^46, every value is
/// also above 0, so the uniform values `x / 2^46` lie strictly between 0
/// and 1.
pub proof fn lemma_lcg_state_in_range(x: nat, a: nat, k: nat)
    requires
        k >= 1,
    ensures
        lcg_state(x, a, k) < modulus(),
        a % 2 == 1 && x % modulus() != 0 ==> 0 < lcg_state(x, a, k),
    decreases k,
{
    let prev = lcg_state(x, a, (k - 1) as nat);
    let v = a * prev;
    assert(lcg_state(x, a, k) == v % modulus());
    lemma_mod_bound(v as int, modulus() as int);
    if a % 2 == 1 && x % modulus() != 0 {
        if k > 1 {
            lemma_lcg_state_in_range(x, a, (k - 1) as nat);
            vstd::arithmetic::div_mod::lemma_small_mod(prev, modulus());
        } else {
            assert(prev == x);
        }
        assert(prev % modulus() != 0);
        reveal_with_fuel(power, 47);
        assert(power(2, 46) == modulus());
        if v % modulus() == 0 {
            lemma_odd_factor(a, prev, 46);
        }
    }
}

/// A lazy generator of the pseudo random sequence `x_{k+1} = a * x_k mod 2^46`,
/// which hands out at most `n` further values.
#[derive(Clone, Copy)]
pub struct LazyRanddp {
    current: u64,
    n: usize,
    a: u64,
}

impl LazyRanddp {
    /// The current state `x_k`.
    pub closed spec fn state(self) -> nat {
        self.current as nat
    }

    /// How many values the generator still hands out.
    pub closed spec fn remaining(self) -> nat {
        self.n as nat
    }

    /// The multiplier `a`.
    pub closed spec fn multiplier(self) -> nat {
        self.a as nat
    }

    /// A generator that starts at `seed` and hands out `n` values.
    pub fn new(seed: u64, n: usize, a: u64) -> (r: Self)
        ensures
            r.state() == seed,
            r.remaining() == n,
            r.multiplier() == a,
    {
        Self { current: seed, n, a }
    }

    /// The current state.
    pub fn get_current(&self) -> (r: u64)
        ensures
            r == self.state(),
    {
        self.current
    }

    /// Hands out the next value of the sequence, or `None` once `n` values
    /// have been handed out.
    pub fn next(&mut self) -> (r: Option<u64>)
        ensures
            final(self).multiplier() == old(self).multiplier(),
            old(self).remaining() == 0 ==> r is None && *final(self) == *old(self),
            old(self).remaining() > 0 ==> {
                &&& r == Some(final(self).state() as u64)
                &&& final(self).state() == lcg_step(old(self).multiplier(), old(self).state())
                &&& final(self).remaining() == old(self).remaining() - 1
            },
    {
        if self.n == 0 {
            return None;
        }
        self.n -= 1;
        let next = self.a.wrapping_mul(self.current) % B;
        proof {
            let p = self.a as int * self.current as int;
            lemma_mod_mod(p, modulus() as int, 0x40000);
            assert(modulus() * 0x40000 == word());
            lemma_mod_bound(p, modulus() as int);
        }
        self.current = next;
        Some(next)
    }

    /// Moves the generator `amount` steps ahead in `O(log amount)` time:
    /// the state becomes `x * a^amount mod 2^46`.
    pub fn skip_forward(&mut self, amount: u64)
        requires
            amount < u32::MAX,
        ensures
            final(self).state() == (old(self).state() * power(old(self).multiplier(), amount as nat))
                % modulus(),
            final(self).remaining() == old(self).remaining(),
            final(self).multiplier() == old(self).multiplier(),
    {
        let ghost cur = self.current as nat;
        let ghost a = self.a as nat;
        let mut mask: u64 = 1;
        let mut scaler = self.current;
        let ghost mut j: u64 = 0;
        proof {
            assert(1u64 == 1u64 << 0u64) by (bit_vector);
            lemma_mask_bounds(amount, mask, j);
            assert(power(a, 0) == 1);
            vstd::arithmetic::div_mod::lemma_small_mod(cur, word());
        }
        while mask <= amount
            invariant
                amount < u32::MAX,
                j <= 32,
                mask == 1u64 << j,
                a == self.a,
                scaler as nat == (cur * power(a, (amount & ((mask - 1u64) as u64)) as nat)) % word(),
            decreases 32 - j,
        {
            proof {
                lemma_mask_bounds(amount, mask, j);
                lemma_mask_step(amount, mask, j);
            }
            let exp = amount & mask;
            let wp = wrapping_pow(self.a, exp as u32);
            let ghost low = (amount & ((mask - 1u64) as u64)) as nat;
            let ghost pp = cur * power(a, low);
            let ghost q = power(a, exp as nat);
            proof {
                lemma_mul_mod_noop_general(pp as int, q as int, word() as int);
                lemma_power_adds(a, low, exp as nat);
                vstd::arithmetic::mul::lemma_mul_is_associative(
                    cur as int,
                    power(a, low) as int,
                    q as int,
                );
            }
            scaler = scaler.wrapping_mul(wp);
            mask = mask << 1;
            proof {
                j = (j + 1) as u64;
            }
        }
        proof {
            lemma_mask_bounds(amount, mask, j);
            lemma_mod_mod((cur * power(a, amount as nat)) as int, modulus() as int, 0x40000);
            assert(modulus() * 0x40000 == word());
        }
        self.current = scaler % B;
    }

    /// Hands out all the remaining values, in order.
    pub fn to_vec(self) -> (r: Vec<u64>)
        ensures
            r@.map_values(|v: u64| v as nat) == lcg_outputs(
                self.state(),
                self.multiplier(),
                self.remaining(),
            ),
    {
        let ghost x0 = self.state();
        let ghost a = self.multiplier();
        let ghost n = self.remaining();
        let mut g = self;
        let mut r_k: Vec<u64> = Vec::new();
        while g.n > 0
            invariant
                g.multiplier() == a,
                r_k.len() + g.remaining() == n,
                g.state() == lcg_state(x0, a, r_k.len() as nat),
                forall|i: int|
                    0 <= i < r_k.len() ==> r_k[i] as nat == lcg_state(x0, a, (i + 1) as nat),
            decreases g.n,
        {
            let v = g.next();
            match v {
                Some(e) => r_k.push(e),
                None => {},
            }
        }
        assert(r_k@.map_values(|v: u64| v as nat) =~= lcg_outputs(x0, a, n));
        r_k
    }
}

} // verus!
