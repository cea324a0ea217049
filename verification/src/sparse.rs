use vstd::prelude::*;
use crate::randdp::{A, LazyRanddp, SEED, lcg_step, modulus};

verus! {

/// The state that stands for the value 0.5 = 2^45 / 2^46 on the diagonal.
pub const HALF: u64 = 0x2000_0000_0000;

/// The smallest power of two that is at least `n`, searched from `p` up.
pub open spec fn smallest_power_of_two_from(p: nat, n: nat) -> nat
    decreases (if p < n {
        n - p
    } else {
        0
    }),
{
    if p == 0 || p >= n {
        p
    } else {
        smallest_power_of_two_from(2 * p, n)
    }
}

/// `usize::next_power_of_two`: as its documentation states, the smallest
/// power of two greater than or equal to `n` (1 for 0). It panics on overflow
/// in debug builds, so `n` must not exceed the largest power of two of `usize`.
#[verifier::external_body]
fn next_power_of_two(n: usize) -> (r: usize)
    requires
        n <= usize::MAX / 2 + 1,
    ensures
        r == smallest_power_of_two_from(1, n as nat),
{
    n.next_power_of_two()
}

/// The column that a drawn state `x` selects: `floor(x / 2^46 * ipwr2)`.
pub open spec fn column_of(x: nat, ipwr2: nat) -> nat {
    (x * ipwr2) / modulus()
}

/// Whether some entry of `v` lies in column `c`.
pub open spec fn has_col(v: Seq<(usize, u64)>, c: nat) -> bool {
    exists|k: int| 0 <= k < v.len() && v[k].0 == c
}

/// Drawing one sparse vector: from generator state `x` with `rem` values
/// left, having chosen the entries `chosen`, draw a value and a column;
/// keep the pair unless the column is out of range or already taken, until
/// `nonzero` entries are chosen. The result holds the entries, the state and
/// the values left, or is `None` where the generator runs dry first.
pub open spec fn draw_vector(
    x: nat,
    a: nat,
    rem: nat,
    chosen: Seq<(usize, u64)>,
    n: nat,
    nonzero: nat,
    ipwr2: nat,
) -> Option<(Seq<(usize, u64)>, nat, nat)>
    decreases rem,
{
    if chosen.len() >= nonzero {
        Some((chosen, x, rem))
    } else if rem < 2 {
        None
    } else {
        let v = lcg_step(a, x);
        let w = lcg_step(a, v);
        let c = column_of(w, ipwr2);
        if c >= n || has_col(chosen, c) {
            draw_vector(w, a, (rem - 2) as nat, chosen, n, nonzero, ipwr2)
        } else {
            draw_vector(w, a, (rem - 2) as nat, chosen.push((c as usize, v as u64)), n, nonzero, ipwr2)
        }
    }
}

/// No two entries of `v` share a column.
pub open spec fn distinct_cols(v: Seq<(usize, u64)>) -> bool {
    forall|j: int, k: int| 0 <= j < k < v.len() ==> v[j].0 != v[k].0
}

/// The vector with its entry in column `i` set to 0.5, added where missing.
pub open spec fn with_diagonal(v: Seq<(usize, u64)>, i: nat) -> Seq<(usize, u64)> {
    let u = Seq::new(v.len(), |k: int| if v[k].0 == i { (v[k].0, HALF) } else { v[k] });
    if has_col(v, i) {
        u
    } else {
        u.push((i as usize, HALF))
    }
}

/// Whether column `c` is among those of `v`; with its position.
fn find_col(v: &Vec<(usize, u64)>, c: usize) -> (r: Option<usize>)
    ensures
        r is None <==> !has_col(v@, c as nat),
        r matches Some(k) ==> k < v.len() && v@[k as int].0 == c,
{
    let mut k: usize = 0;
    while k < v.len()
        invariant
            k <= v.len(),
            forall|j: int| 0 <= j < k ==> v@[j].0 != c,
        decreases v.len() - k,
    {
        if v[k].0 == c {
            return Some(k);
        }
        k += 1;
    }
    None
}

/// Draws one sparse vector, as `draw_vector` says, from the generator.
fn draw_sparse_vector(g: &mut LazyRanddp, n: usize, nonzero: usize, ipwr2: usize) -> (r: Option<
    Vec<(usize, u64)>,
>)
    ensures
        final(g).multiplier() == old(g).multiplier(),
        match draw_vector(
            old(g).state(),
            old(g).multiplier(),
            old(g).remaining(),
            Seq::empty(),
            n as nat,
            nonzero as nat,
            ipwr2 as nat,
        ) {
            Some((v, x, rem)) => r matches Some(u) && u@ == v && final(g).state() == x
                && final(g).remaining() == rem && distinct_cols(v) && forall|j: int|
                0 <= j < v.len() ==> #[trigger] v[j].0 < n,
            None => r is None,
        },
{
    let ghost x0 = old(g).state();
    let ghost a = old(g).multiplier();
    let ghost rem0 = old(g).remaining();
    let mut chosen: Vec<(usize, u64)> = Vec::new();
    while chosen.len() < nonzero
        invariant
            x0 == old(g).state(),
            a == old(g).multiplier(),
            rem0 == old(g).remaining(),
            g.multiplier() == a,
            distinct_cols(chosen@),
            forall|j: int| 0 <= j < chosen.len() ==> #[trigger] chosen@[j].0 < n,
            draw_vector(x0, a, rem0, Seq::empty(), n as nat, nonzero as nat, ipwr2 as nat)
                == draw_vector(
                g.state(),
                a,
                g.remaining(),
                chosen@,
                n as nat,
                nonzero as nat,
                ipwr2 as nat,
            ),
        decreases g.remaining(),
    {
        let ghost x = g.state();
        let ghost rem = g.remaining();
        let value = match g.next() {
            Some(v) => v,
            None => {
                return None;
            },
        };
        let w = match g.next() {
            Some(v) => v,
            None => {
                return None;
            },
        };
        assert((w as nat) < modulus()) by {
            vstd::arithmetic::div_mod::lemma_mod_bound(
                (a * value) as int,
                modulus() as int,
            );
        }
        assert((w as int) * (ipwr2 as int) < 0x4000_0000_0000 * 0x1_0000_0000_0000_0000) by (
        nonlinear_arith)
            requires
                w < 0x4000_0000_0000,
                ipwr2 < 0x1_0000_0000_0000_0000,
        ;
        let idx128 = (w as u128) * (ipwr2 as u128) / 0x4000_0000_0000u128;
        assert(idx128 <= ipwr2) by (nonlinear_arith)
            requires
                idx128 == (w as int) * (ipwr2 as int) / 0x4000_0000_0000,
                w < 0x4000_0000_0000,
        ;
        let random_idx = idx128 as usize;
        if random_idx >= n {
            continue;
        }
        if find_col(&chosen, random_idx).is_some() {
            continue;
        }
        chosen.push((random_idx, value));
    }
    Some(chosen)
}

/// Sets the entry of `v` in column `i` to 0.5, adding it where missing.
fn set_diagonal(v: &mut Vec<(usize, u64)>, i: usize)
    requires
        distinct_cols(old(v)@),
    ensures
        final(v)@ == with_diagonal(old(v)@, i as nat),
        has_col(final(v)@, i as nat),
        forall|j: int|
            0 <= j < final(v).len() ==> #[trigger] final(v)@[j].0 == i || exists|k: int|
                0 <= k < old(v).len() && old(v)@[k].0 == final(v)@[j].0,
{
    match find_col(v, i) {
        Some(k) => {
            v.set(k, (i, HALF));
            assert(v@[k as int].0 == i);
            assert forall|j: int| 0 <= j < v.len() implies #[trigger] v@[j].0 == i || exists|kk: int|
                0 <= kk < old(v).len() && old(v)@[kk].0 == v@[j].0 by {
                if j != k {
                    assert(old(v)@[j].0 == v@[j].0);
                }
            }
            assert(v@ =~= with_diagonal(old(v)@, i as nat)) by {
                assert forall|j: int| 0 <= j < v.len() implies v@[j] == with_diagonal(
                    old(v)@,
                    i as nat,
                )[j] by {
                    if j != k {
                        assert(old(v)@[j].0 != old(v)@[k as int].0);
                    }
                }
            }
        },
        None => {
            v.push((i, HALF));
            assert(v@[old(v).len() as int].0 == i);
            assert forall|j: int| 0 <= j < v.len() implies #[trigger] v@[j].0 == i || exists|kk: int|
                0 <= kk < old(v).len() && old(v)@[kk].0 == v@[j].0 by {
                if j < old(v).len() {
                    assert(old(v)@[j].0 == v@[j].0);
                }
            }
            assert(v@ =~= with_diagonal(old(v)@, i as nat));
        },
    }
}

/// The sparse vectors `start .. start + count`, each drawn as `draw_vector`
/// says and given 0.5 on its diagonal; `None` where the generator runs dry.
pub open spec fn make_rows(
    x: nat,
    a: nat,
    rem: nat,
    start: nat,
    count: nat,
    n: nat,
    nonzero: nat,
    ipwr2: nat,
) -> Option<Seq<Seq<(usize, u64)>>>
    decreases count,
{
    if count == 0 {
        Some(Seq::empty())
    } else {
        match draw_vector(x, a, rem, Seq::empty(), n, nonzero, ipwr2) {
            None => None,
            Some((v, x2, rem2)) => match make_rows(
                x2,
                a,
                rem2,
                start + 1,
                (count - 1) as nat,
                n,
                nonzero,
                ipwr2,
            ) {
                None => None,
                Some(rest) => Some(seq![with_diagonal(v, start)] + rest),
            },
        }
    }
}

/// `done` followed by the rows of `rest`, if there are any.
pub open spec fn prepend_rows(
    done: Seq<Seq<(usize, u64)>>,
    rest: Option<Seq<Seq<(usize, u64)>>>,
) -> Option<Seq<Seq<(usize, u64)>>> {
    match rest {
        None => None,
        Some(r) => Some(done + r),
    }
}

/// The `n` sparse vectors of the matrix: the generator starts at `SEED`,
/// skips one value, and each vector gets `nonzero` random entries with
/// columns below `n`, then 0.5 on its diagonal. Values are states `x` that
/// stand for `x / 2^46`.
pub open spec fn sparse_vectors_spec(n: nat, nonzero: nat) -> Option<Seq<Seq<(usize, u64)>>> {
    make_rows(
        lcg_step(A as nat, SEED as nat),
        A as nat,
        (usize::MAX - 1) as nat,
        0,
        n,
        n,
        nonzero,
        smallest_power_of_two_from(1, n),
    )
}

/// Draws the `n` sparse vectors whose outer products make up the matrix;
/// `None` where the generator runs dry before all are drawn.
pub fn make_sparse_vectors(n: usize, nonzero: usize) -> (r: Option<Vec<Vec<(usize, u64)>>>)
    requires
        n <= usize::MAX / 2 + 1,
    ensures
        match sparse_vectors_spec(n as nat, nonzero as nat) {
            Some(rows) => r matches Some(v) && v.len() == rows.len() && forall|i: int|
                0 <= i < rows.len() ==> (#[trigger] v[i])@ == rows[i],
            None => r is None,
        },
        r matches Some(v) ==> {
            &&& v.len() == n
            &&& cols_below(views(v@), n as nat)
            &&& forall|i: int| 0 <= i < n ==> has_col(#[trigger] v[i]@, i as nat)
        },
{
    let mut randdp = LazyRanddp::new(SEED, usize::MAX, A);
    let _ = randdp.next();
    let ipwr2 = next_power_of_two(n);
    let ghost x0 = randdp.state();
    let ghost rem0 = randdp.remaining();
    let ghost a = A as nat;
    let mut rows: Vec<Vec<(usize, u64)>> = Vec::with_capacity(n);
    let mut i: usize = 0;
    while i < n
        invariant
            i <= n,
            randdp.multiplier() == a,
            a == A,
            x0 == lcg_step(A as nat, SEED as nat),
            rem0 == usize::MAX - 1,
            ipwr2 == smallest_power_of_two_from(1, n as nat),
            rows.len() == i,
            cols_below(views(rows@), n as nat),
            forall|k: int| 0 <= k < i ==> has_col(#[trigger] rows[k]@, k as nat),
            sparse_vectors_spec(n as nat, nonzero as nat) == prepend_rows(
                Seq::new(i as nat, |k: int| rows[k]@),
                make_rows(
                    randdp.state(),
                    a,
                    randdp.remaining(),
                    i as nat,
                    (n - i) as nat,
                    n as nat,
                    nonzero as nat,
                    ipwr2 as nat,
                ),
            ),
        decreases n - i,
    {
        let ghost done = Seq::new(i as nat, |k: int| rows[k]@);
        let ghost x = randdp.state();
        let ghost rem = randdp.remaining();
        match draw_sparse_vector(&mut randdp, n, nonzero, ipwr2) {
            None => {
                return None;
            },
            Some(v) => {
                let mut v = v;
                let ghost drawn = v@;
                set_diagonal(&mut v, i);
                let ghost before = rows@;
                rows.push(v);
                proof {
                    assert forall|k: int, j: int|
                        0 <= k < rows.len() && 0 <= j < views(rows@)[k].len() implies #[trigger] views(
                        rows@,
                    )[k][j].0 < n by {
                        if k < i {
                            assert(views(rows@)[k] == views(before)[k]);
                        } else {
                            let vv = rows[k]@;
                            if vv[j].0 != i {
                                let kk = choose|kk: int| 0 <= kk < drawn.len() && drawn[kk].0 == vv[j].0;
                                assert(drawn[kk].0 < n);
                            }
                        }
                    }
                    assert forall|k: int| 0 <= k < i + 1 implies has_col(#[trigger] rows[k]@, k as nat) by {
                        if k < i {
                            assert(rows[k] == before[k]);
                        }
                    }
                    assert(Seq::new((i + 1) as nat, |k: int| rows[k]@) =~= done + seq![rows[i as int]@]);
                    let tail = make_rows(
                        randdp.state(),
                        a,
                        randdp.remaining(),
                        (i + 1) as nat,
                        (n - i - 1) as nat,
                        n as nat,
                        nonzero as nat,
                        ipwr2 as nat,
                    );
                    match tail {
                        Some(t) => {
                            assert(done + (seq![rows[i as int]@] + t) =~= (done + seq![rows[i as int]@]) + t);
                        },
                        None => {},
                    }
                }
            },
        }
        i += 1;
    }
    assert(Seq::new(n as nat, |k: int| rows[k]@) + Seq::<Seq<(usize, u64)>>::empty() =~= Seq::new(n as nat, |k: int| rows[k]@));
    Some(rows)
}

/// Entry `(l, c)` of the matrix is structurally nonzero: some vector has
/// entries in both column `l` and column `c`, so its outer product reaches it.
pub open spec fn in_pattern(vs: Seq<Seq<(usize, u64)>>, l: nat, c: nat) -> bool {
    exists|k: int| 0 <= k < vs.len() && has_col(#[trigger] vs[k], l) && has_col(vs[k], c)
}

/// Every column of every vector lies below `n`.
pub open spec fn cols_below(vs: Seq<Seq<(usize, u64)>>, n: nat) -> bool {
    forall|k: int, j: int| 0 <= k < vs.len() && 0 <= j < vs[k].len() ==> #[trigger] vs[k][j].0 < n
}

/// The views of a vector of vectors.
pub open spec fn views(v: Seq<Vec<(usize, u64)>>) -> Seq<Seq<(usize, u64)>> {
    Seq::new(v.len(), |k: int| v[k]@)
}

/// `s` is strictly ascending.
pub open spec fn strictly_ascending(s: Seq<usize>) -> bool {
    forall|i: int, j: int| 0 <= i < j < s.len() ==> s[i] < s[j]
}

/// Records row `l` in the list of each column of `v`.
fn add_row(lists: &mut Vec<Vec<usize>>, l: usize, v: &Vec<(usize, u64)>)
    requires
        forall|j: int| 0 <= j < v.len() ==> #[trigger] v[j].0 < old(lists).len(),
    ensures
        final(lists).len() == old(lists).len(),
        forall|c: int, x: usize|
            0 <= c < old(lists).len() ==> (#[trigger] final(lists)[c]@.contains(x) <==> (old(
                lists,
            )[c]@.contains(x) || (x == l && has_col(v@, c as nat)))),
{
    let mut t: usize = 0;
    while t < v.len()
        invariant
            t <= v.len(),
            lists.len() == old(lists).len(),
            forall|j: int| 0 <= j < v.len() ==> #[trigger] v[j].0 < old(lists).len(),
            forall|c: int, x: usize|
                0 <= c < old(lists).len() ==> (#[trigger] lists[c]@.contains(x) <==> (old(
                    lists,
                )[c]@.contains(x) || (x == l && exists|tt: int|
                    0 <= tt < t && v@[tt].0 == c))),
        decreases v.len() - t,
    {
        let c0 = v[t].0;
        let ghost before = lists@;
        lists[c0].push(l);
        proof {
            assert forall|c: int, x: usize| 0 <= c < old(lists).len() implies (
            #[trigger] lists[c]@.contains(x) <==> (old(lists)[c]@.contains(x) || (x == l
                && exists|tt: int| 0 <= tt < t + 1 && v@[tt].0 == c))) by {
                let was = before[c]@.contains(x);
                assert(was <==> (old(lists)[c]@.contains(x) || (x == l && exists|tt: int|
                    0 <= tt < t && v@[tt].0 == c)));
                let e_new = exists|tt: int| 0 <= tt < t + 1 && v@[tt].0 == c;
                let e_old = exists|tt: int| 0 <= tt < t && v@[tt].0 == c;
                if c == c0 {
                    assert(lists[c]@ == before[c]@.push(l));
                    assert(e_new) by {
                        assert(v@[t as int].0 == c);
                    }
                    if x == l {
                        assert(lists[c]@[before[c]@.len() as int] == l);
                    } else if lists[c]@.contains(x) {
                        let p = choose|p: int| 0 <= p < lists[c]@.len() && lists[c]@[p] == x;
                        assert(before[c]@[p] == x);
                    } else if was {
                        let p = choose|p: int| 0 <= p < before[c]@.len() && before[c]@[p] == x;
                        assert(lists[c]@[p] == x);
                    }
                } else {
                    assert(lists[c]@ == before[c]@);
                    if e_new {
                        let tt = choose|tt: int| 0 <= tt < t + 1 && v@[tt].0 == c;
                        assert(tt < t);
                        assert(e_old);
                    }
                }
            }
        }
        t += 1;
    }
}

/// Records, for each pair of columns `(x, c)` of `v`, row `x` in the list of
/// column `c`.
fn add_vector(lists: &mut Vec<Vec<usize>>, v: &Vec<(usize, u64)>)
    requires
        forall|j: int| 0 <= j < v.len() ==> #[trigger] v[j].0 < old(lists).len(),
    ensures
        final(lists).len() == old(lists).len(),
        forall|c: int, x: usize|
            0 <= c < old(lists).len() ==> (#[trigger] final(lists)[c]@.contains(x) <==> (old(
                lists,
            )[c]@.contains(x) || (has_col(v@, x as nat) && has_col(v@, c as nat)))),
{
    let mut j: usize = 0;
    while j < v.len()
        invariant
            j <= v.len(),
            lists.len() == old(lists).len(),
            forall|jj: int| 0 <= jj < v.len() ==> #[trigger] v[jj].0 < old(lists).len(),
            forall|c: int, x: usize|
                0 <= c < old(lists).len() ==> (#[trigger] lists[c]@.contains(x) <==> (old(
                    lists,
                )[c]@.contains(x) || ((exists|jj: int| 0 <= jj < j && v@[jj].0 == x) && has_col(
                    v@,
                    c as nat,
                )))),
        decreases v.len() - j,
    {
        let ghost before = lists@;
        let l = v[j].0;
        add_row(lists, l, v);
        proof {
            assert forall|c: int, x: usize| 0 <= c < old(lists).len() implies (
            #[trigger] lists[c]@.contains(x) <==> (old(lists)[c]@.contains(x) || ((exists|jj: int|
                0 <= jj < j + 1 && v@[jj].0 == x) && has_col(v@, c as nat)))) by {
                assert(before[c]@.contains(x) <==> (old(lists)[c]@.contains(x) || ((exists|jj: int|
                    0 <= jj < j && v@[jj].0 == x) && has_col(v@, c as nat))));
                if exists|jj: int| 0 <= jj < j + 1 && v@[jj].0 == x {
                    let jj = choose|jj: int| 0 <= jj < j + 1 && v@[jj].0 == x;
                    if jj < j {
                    } else {
                        assert(x == l);
                    }
                }
                if x == l {
                    assert(v@[j as int].0 == x);
                }
            }
        }
        j += 1;
    }
}

/// For each column `c < n`, the list of rows `l` with `(l, c)` in the pattern
/// of the matrix (with repeats, in no order).
fn column_lists(vectors: &Vec<Vec<(usize, u64)>>, n: usize) -> (lists: Vec<Vec<usize>>)
    requires
        cols_below(views(vectors@), n as nat),
    ensures
        lists.len() == n,
        forall|c: int, x: usize|
            0 <= c < n ==> (#[trigger] lists[c]@.contains(x) <==> in_pattern(
                views(vectors@),
                x as nat,
                c as nat,
            )),
{
    let mut lists: Vec<Vec<usize>> = Vec::with_capacity(n);
    let mut i: usize = 0;
    while i < n
        invariant
            i <= n,
            lists.len() == i,
            forall|c: int| 0 <= c < i ==> (#[trigger] lists[c]@) == Seq::<usize>::empty(),
        decreases n - i,
    {
        lists.push(Vec::new());
        i += 1;
    }
    let ghost vs = views(vectors@);
    let mut k: usize = 0;
    while k < vectors.len()
        invariant
            k <= vectors.len(),
            lists.len() == n,
            vs == views(vectors@),
            cols_below(vs, n as nat),
            forall|c: int, x: usize|
                0 <= c < n ==> (#[trigger] lists[c]@.contains(x) <==> exists|kk: int|
                    0 <= kk < k && has_col(#[trigger] vs[kk], x as nat) && has_col(vs[kk], c as nat)),
        decreases vectors.len() - k,
    {
        let ghost before = lists@;
        assert forall|j: int| 0 <= j < vectors[k as int].len() implies #[trigger] vectors[k as int][j].0
            < lists.len() by {
            assert(vs[k as int][j] == vectors[k as int][j]);
        }
        add_vector(&mut lists, &vectors[k]);
        proof {
            assert forall|c: int, x: usize| 0 <= c < n implies (#[trigger] lists[c]@.contains(x)
                <==> exists|kk: int|
                0 <= kk < k + 1 && has_col(#[trigger] vs[kk], x as nat) && has_col(
                    vs[kk],
                    c as nat,
                )) by {
                assert(vs[k as int] == vectors[k as int]@);
                assert(before[c]@.contains(x) <==> exists|kk: int|
                    0 <= kk < k && has_col(#[trigger] vs[kk], x as nat) && has_col(vs[kk], c as nat));
            }
        }
        k += 1;
    }
    lists
}

/// The rows of the matrix pattern: row `l` lists, in ascending order and
/// once each, the columns `c` with `(l, c)` in the pattern.
pub fn pattern_rows(vectors: &Vec<Vec<(usize, u64)>>, n: usize) -> (out: Vec<Vec<usize>>)
    requires
        cols_below(views(vectors@), n as nat),
    ensures
        out.len() == n,
        forall|l: int| 0 <= l < n ==> strictly_ascending(#[trigger] out[l]@),
        forall|l: int, x: usize|
            0 <= l < n ==> (#[trigger] out[l]@.contains(x) <==> in_pattern(
                views(vectors@),
                l as nat,
                x as nat,
            )),
        (vectors.len() >= n && forall|i: int| 0 <= i < n ==> has_col(#[trigger] vectors[i]@, i as nat))
            ==> forall|l: int| 0 <= l < n ==> (#[trigger] out[l]).len() > 0,
{
    let ghost vs = views(vectors@);
    let lists = column_lists(vectors, n);
    let mut out: Vec<Vec<usize>> = Vec::with_capacity(n);
    let mut i: usize = 0;
    while i < n
        invariant
            i <= n,
            out.len() == i,
            forall|c: int| 0 <= c < i ==> (#[trigger] out[c]@) == Seq::<usize>::empty(),
        decreases n - i,
    {
        out.push(Vec::new());
        i += 1;
    }
    let mut c: usize = 0;
    while c < n
        invariant
            c <= n,
            out.len() == n,
            lists.len() == n,
            vs == views(vectors@),
            cols_below(vs, n as nat),
            forall|cc: int, x: usize|
                0 <= cc < n ==> (#[trigger] lists[cc]@.contains(x) <==> in_pattern(
                    vs,
                    x as nat,
                    cc as nat,
                )),
            forall|l: int| 0 <= l < n ==> strictly_ascending(#[trigger] out[l]@),
            forall|l: int, p: int| 0 <= l < n && 0 <= p < out[l]@.len() ==> #[trigger] out[l]@[p] < c,
            forall|l: int, x: usize|
                0 <= l < n ==> (#[trigger] out[l]@.contains(x) <==> (x < c && in_pattern(
                    vs,
                    l as nat,
                    x as nat,
                ))),
        decreases n - c,
    {
        let list = &lists[c];
        let mut t: usize = 0;
        while t < list.len()
            invariant
                c < n,
                t <= list.len(),
                out.len() == n,
                lists.len() == n,
                list == lists[c as int],
                vs == views(vectors@),
                cols_below(vs, n as nat),
                forall|cc: int, x: usize|
                    0 <= cc < n ==> (#[trigger] lists[cc]@.contains(x) <==> in_pattern(
                        vs,
                        x as nat,
                        cc as nat,
                    )),
                forall|l: int| 0 <= l < n ==> strictly_ascending(#[trigger] out[l]@),
                forall|l: int, p: int|
                    0 <= l < n && 0 <= p < out[l]@.len() ==> #[trigger] out[l]@[p] <= c,
                forall|l: int, x: usize|
                    0 <= l < n ==> (#[trigger] out[l]@.contains(x) <==> ((x < c && in_pattern(
                        vs,
                        l as nat,
                        x as nat,
                    )) || (x == c && exists|tt: int| 0 <= tt < t && list@[tt] == l))),
            decreases list.len() - t,
        {
            let l = list[t];
            proof {
                assert(list@.contains(l));
                let k = choose|k: int|
                    0 <= k < vs.len() && has_col(#[trigger] vs[k], l as nat) && has_col(
                        vs[k],
                        c as nat,
                    );
                let j = choose|j: int| 0 <= j < vs[k].len() && vs[k][j].0 == l;
                assert(vs[k][j].0 < n);
            }
            let len = out[l].len();
            let ghost before = out@;
            if len == 0 || out[l][len - 1] != c {
                out[l].push(c);
                proof {
                    assert(out[l as int]@ == before[l as int]@.push(c));
                    assert forall|p: int, q: int|
                        0 <= p < q < out[l as int]@.len() implies out[l as int]@[p]
                        < out[l as int]@[q] by {
                        if q < len {
                            assert(before[l as int]@[p] < before[l as int]@[q]);
                        } else {
                            assert(before[l as int]@[p] <= c);
                            assert(before[l as int]@[p] <= before[l as int]@[len - 1]);
                        }
                    }
                }
            }
            proof {
                assert forall|ll: int, x: usize| 0 <= ll < n implies (#[trigger] out[ll]@.contains(x)
                    <==> ((x < c && in_pattern(vs, ll as nat, x as nat)) || (x == c && exists|tt: int|
                    0 <= tt < t + 1 && list@[tt] == ll))) by {
                    let was = before[ll]@.contains(x);
                    assert(was <==> ((x < c && in_pattern(vs, ll as nat, x as nat)) || (x == c
                        && exists|tt: int| 0 <= tt < t && list@[tt] == ll)));
                    if exists|tt: int| 0 <= tt < t + 1 && list@[tt] == ll {
                        let tt = choose|tt: int| 0 <= tt < t + 1 && list@[tt] == ll;
                        if tt == t {
                            assert(ll == l);
                        }
                    }
                    if ll == l {
                        assert(list@[t as int] == ll);
                        if len == 0 || before[l as int]@[len - 1] != c {
                            if x == c {
                                assert(out[ll]@[len as int] == c);
                            } else if out[ll]@.contains(x) {
                                let p = choose|p: int| 0 <= p < out[ll]@.len() && out[ll]@[p] == x;
                                assert(before[ll]@[p] == x);
                            } else if was {
                                let p = choose|p: int| 0 <= p < before[ll]@.len() && before[ll]@[p]
                                    == x;
                                assert(out[ll]@[p] == x);
                            }
                        } else {
                            assert(before[ll]@[len - 1] == c);
                        }
                    } else {
                        assert(out[ll]@ == before[ll]@);
                    }
                }
                assert forall|ll: int, p: int|
                    0 <= ll < n && 0 <= p < out[ll]@.len() implies #[trigger] out[ll]@[p] <= c by {
                    if ll == l && p >= before[ll]@.len() {
                    } else {
                        assert(out[ll]@[p] == before[ll]@[p]);
                    }
                }
            }
            t += 1;
        }
        proof {
            assert forall|l: int, x: usize| 0 <= l < n implies (#[trigger] out[l]@.contains(x)
                <==> (x < c + 1 && in_pattern(vs, l as nat, x as nat))) by {
                if x == c {
                    if in_pattern(vs, l as nat, x as nat) {
                        assert(lists[c as int]@.contains(l as usize));
                    }
                    if exists|tt: int| 0 <= tt < list.len() && list@[tt] == l {
                        let tt = choose|tt: int| 0 <= tt < list.len() && list@[tt] == l;
                        assert(list@.contains(list@[tt]));
                    }
                }
            }
            assert forall|l: int, p: int|
                0 <= l < n && 0 <= p < out[l]@.len() implies #[trigger] out[l]@[p] < c + 1 by {
                assert(out[l]@[p] <= c);
            }
        }
        c += 1;
    }
    proof {
        assert forall|l: int, x: usize| 0 <= l < n implies (#[trigger] out[l]@.contains(x)
            <==> in_pattern(vs, l as nat, x as nat)) by {
            if in_pattern(vs, l as nat, x as nat) {
                let k = choose|k: int|
                    0 <= k < vs.len() && has_col(#[trigger] vs[k], l as nat) && has_col(
                        vs[k],
                        x as nat,
                    );
                let j = choose|j: int| 0 <= j < vs[k].len() && vs[k][j].0 == x;
                assert(vs[k][j].0 < n);
            }
        }
        if vectors.len() >= n && forall|i: int| 0 <= i < n ==> has_col(#[trigger] vectors[i]@, i as nat) {
            assert forall|l: int| 0 <= l < n implies (#[trigger] out[l]).len() > 0 by {
                assert(vs[l] == vectors[l]@);
                assert(has_col(vs[l], l as nat));
                assert(in_pattern(vs, l as nat, l as nat));
                assert(out[l]@.contains(l as usize));
            }
        }
    }
    out
}

/// Law: the pattern of the matrix is symmetric, as a sum of outer products
/// of vectors with themselves is.
pub proof fn lemma_pattern_symmetric(vs: Seq<Seq<(usize, u64)>>, l: nat, c: nat)
    ensures
        in_pattern(vs, l, c) == in_pattern(vs, c, l),
{
}

/// The rows one after the other.
pub open spec fn flat(segs: Seq<Seq<usize>>) -> Seq<usize>
    decreases segs.len(),
{
    if segs.len() == 0 {
        Seq::empty()
    } else {
        flat(segs.drop_last()) + segs.last()
    }
}

/// The views of the rows.
pub open spec fn row_views(v: Seq<Vec<usize>>) -> Seq<Seq<usize>> {
    Seq::new(v.len(), |k: int| v[k]@)
}

/// Compressed sparse row layout of a pattern in which every row has an
/// entry: `rows[l]` is where row `l` starts among the columns, and the
/// columns follow one row after the other. A zero column closes the last
/// row and is counted in it, so `rows[n]` is one past the entries.
pub fn compress_rows(segs: &Vec<Vec<usize>>) -> (r: (Vec<u32>, Vec<u32>))
    requires
        forall|l: int| 0 <= l < segs.len() ==> (#[trigger] segs[l]).len() > 0,
    ensures
        r.0.len() == segs.len() + 1,
        forall|l: int|
            0 <= l <= segs.len() ==> r.0[l] == (flat(row_views(segs@).take(l)).len() + (if l
                == segs.len() {
                1int
            } else {
                0int
            })) as u32,
        r.1@ == flat(row_views(segs@)).map_values(|c: usize| c as u32).push(0u32),
{
    let ghost rv = row_views(segs@);
    let mut rows: Vec<u32> = Vec::new();
    let mut cols: Vec<u32> = Vec::new();
    let mut l: usize = 0;
    while l < segs.len()
        invariant
            l <= segs.len(),
            rv == row_views(segs@),
            rows.len() == l,
            forall|k: int| 0 <= k < l ==> rows[k] == (flat(rv.take(k)).len()) as u32,
            cols@ == flat(rv.take(l as int)).map_values(|c: usize| c as u32),
        decreases segs.len() - l,
    {
        rows.push(cols.len() as u32);
        let seg = &segs[l];
        let ghost base = cols@;
        let mut t: usize = 0;
        while t < seg.len()
            invariant
                t <= seg.len(),
                cols@ == base + seg@.take(t as int).map_values(|c: usize| c as u32),
            decreases seg.len() - t,
        {
            cols.push(seg[t] as u32);
            proof {
                assert(seg@.take(t as int + 1).map_values(|c: usize| c as u32) =~= seg@.take(
                    t as int,
                ).map_values(|c: usize| c as u32).push(seg@[t as int] as u32));
            }
            t += 1;
        }
        proof {
            assert(rv.take(l as int + 1).drop_last() =~= rv.take(l as int));
            assert(rv.take(l as int + 1).last() == seg@);
            assert(seg@.take(seg.len() as int) =~= seg@);
            assert(flat(rv.take(l as int + 1)).map_values(|c: usize| c as u32) =~= base + seg@.map_values(
                |c: usize| c as u32,
            ));
        }
        l += 1;
    }
    cols.push(0);
    rows.push(cols.len() as u32);
    proof {
        assert(rv.take(l as int) =~= rv);
        assert(flat(rv).map_values(|c: usize| c as u32).len() == flat(rv).len());
    }
    (rows, cols)
}

} // verus!
