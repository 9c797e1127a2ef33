//! Orderings of sequences of words: index permutations, stable sorting by a
//! key, and the facts that make a least-significant-digit radix sort work.
use vstd::arithmetic::div_mod::{lemma_mod_breakdown, lemma_small_mod};
use vstd::prelude::*;
use vstd::relations::injective_on;
use vstd::set_lib::{lemma_int_range, lemma_map_size, lemma_subset_equality, set_int_range};

verus! {

/// `p` lists every index of `0..n` exactly once.
pub open spec fn is_index_perm(p: Seq<int>, n: int) -> bool {
    &&& p.len() == n
    &&& forall|k: int| 0 <= k < n ==> 0 <= #[trigger] p[k] < n
    &&& forall|k1: int, k2: int|
        0 <= k1 < n && 0 <= k2 < n && k1 != k2 ==> #[trigger] p[k1] != #[trigger] p[k2]
    &&& forall|i: int| 0 <= i < n ==> #[trigger] takes(p, n, i)
}

/// Some position of `p` within `0..n` holds `i`.
pub open spec fn takes(p: Seq<int>, n: int, i: int) -> bool {
    exists|k: int| 0 <= k < n && #[trigger] p[k] == i
}

/// Some index of `0..n` is mapped by `f` to `t`.
pub open spec fn reaches(f: spec_fn(int) -> int, n: int, t: int) -> bool {
    exists|i: int| 0 <= i < n && #[trigger] f(i) == t
}

/// `out` holds the words of `inp` taken in the order `p`.
pub open spec fn arranged(out: Seq<u32>, inp: Seq<u32>, p: Seq<int>) -> bool {
    &&& out.len() == inp.len()
    &&& is_index_perm(p, inp.len() as int)
    &&& forall|k: int| 0 <= k < out.len() ==> #[trigger] out[k] == inp[p[k]]
}

/// `out` is `inp` taken in the order `p`, ascending by `key`, and words of
/// equal key keep the order they had in `inp`.
pub open spec fn stable_sorted_with(
    out: Seq<u32>,
    inp: Seq<u32>,
    p: Seq<int>,
    key: spec_fn(u32) -> int,
) -> bool {
    &&& arranged(out, inp, p)
    &&& forall|k1: int, k2: int|
        0 <= k1 < k2 < out.len() ==> key(#[trigger] out[k1]) < key(#[trigger] out[k2]) || (key(
            out[k1],
        ) == key(out[k2]) && p[k1] < p[k2])
}

/// `out` is the stable sort of `inp` by `key`.
pub open spec fn is_stable_sort_by(out: Seq<u32>, inp: Seq<u32>, key: spec_fn(u32) -> int) -> bool {
    exists|p: Seq<int>| stable_sorted_with(out, inp, p, key)
}

/// A word as a number.
pub open spec fn value_key() -> spec_fn(u32) -> int {
    |x: u32| x as int
}

/// The part of a word below `e`.
pub open spec fn low_key(e: int) -> spec_fn(u32) -> int {
    |x: u32| x as int % e
}

/// The digit of a word in base `b` whose place value is `e`.
pub open spec fn digit_key(e: int, b: int) -> spec_fn(u32) -> int {
    |x: u32| (x as int / e) % b
}

/// `s` is in non-decreasing order.
pub open spec fn is_sorted(s: Seq<u32>) -> bool {
    forall|i: int, j: int| 0 <= i <= j < s.len() ==> #[trigger] s[i] <= #[trigger] s[j]
}

/// The largest word of a non-empty sequence.
pub open spec fn seq_max(s: Seq<u32>) -> u32
    decreases s.len(),
{
    if s.len() <= 1 {
        if s.len() == 1 { s[0] } else { 0 }
    } else {
        let m = seq_max(s.drop_last());
        if s.last() > m { s.last() } else { m }
    }
}

/// The identity order on `0..n`.
pub open spec fn identity(n: int) -> Seq<int> {
    Seq::new(n as nat, |k: int| k)
}

/// The order `q` applied after the order `p`.
pub open spec fn compose(p: Seq<int>, q: Seq<int>) -> Seq<int> {
    Seq::new(q.len(), |k: int| p[q[k]])
}

/// `seq_max` bounds every word and is one of them.
pub proof fn lemma_seq_max(s: Seq<u32>)
    requires
        s.len() > 0,
    ensures
        forall|i: int| 0 <= i < s.len() ==> #[trigger] s[i] <= seq_max(s),
        exists|i: int| 0 <= i < s.len() && #[trigger] s[i] == seq_max(s),
    decreases s.len(),
{
    if s.len() > 1 {
        let t = s.drop_last();
        lemma_seq_max(t);
        let i0 = choose|i: int| 0 <= i < t.len() && #[trigger] t[i] == seq_max(t);
        assert(s[i0] == t[i0]);
        assert forall|i: int| 0 <= i < s.len() implies #[trigger] s[i] <= seq_max(s) by {
            if i < t.len() {
                assert(s[i] == t[i]);
            }
        }
        if s.last() > seq_max(t) {
            assert(s[s.len() - 1] == seq_max(s));
        }
    } else {
        assert(s[0] == seq_max(s));
    }
}

/// An injective map of `0..n` into itself reaches every index.
pub proof fn lemma_injection_is_onto(f: spec_fn(int) -> int, n: int)
    requires
        0 <= n,
        forall|i: int| 0 <= i < n ==> 0 <= #[trigger] f(i) < n,
        forall|i: int, j: int| 0 <= i < n && 0 <= j < n && i != j ==> #[trigger] f(i) != #[trigger] f(j),
    ensures
        forall|t: int| 0 <= t < n ==> #[trigger] reaches(f, n, t),
{
    let dom = set_int_range(0, n);
    lemma_int_range(0, n);
    let img = dom.map(f);
    assert(injective_on(f, dom));
    lemma_map_size(dom, img, f);
    assert(img.subset_of(dom)) by {
        assert forall|t: int| img.contains(t) implies dom.contains(t) by {
            let i = choose|i: int| dom.contains(i) && f(i) == t;
        }
    }
    lemma_subset_equality(img, dom);
    assert forall|t: int| 0 <= t < n implies #[trigger] reaches(f, n, t) by {
        assert(dom.contains(t));
        assert(img.contains(t));
    }
}

/// The identity order is a stable sort when all keys are equal.
pub proof fn lemma_identity_sorts_equal_keys(s: Seq<u32>, key: spec_fn(u32) -> int)
    requires
        forall|i: int, j: int| 0 <= i < s.len() && 0 <= j < s.len() ==> key(#[trigger] s[i]) == key(
            #[trigger] s[j],
        ),
    ensures
        stable_sorted_with(s, s, identity(s.len() as int), key),
{
    let n = s.len() as int;
    let id = identity(n);
    assert forall|i: int| 0 <= i < n implies #[trigger] takes(id, n, i) by {
        assert(id[i] == i);
    }
}

/// A stable sort by a given key is unique.
pub proof fn lemma_stable_sort_unique(
    out1: Seq<u32>,
    out2: Seq<u32>,
    inp: Seq<u32>,
    p1: Seq<int>,
    p2: Seq<int>,
    key: spec_fn(u32) -> int,
)
    requires
        stable_sorted_with(out1, inp, p1, key),
        stable_sorted_with(out2, inp, p2, key),
    ensures
        p1 == p2,
        out1 == out2,
{
    lemma_orders_agree(out1, out2, inp, p1, p2, key, inp.len() as int);
    assert(p1 =~= p2);
    assert(out1 =~= out2);
}

proof fn lemma_orders_agree(
    out1: Seq<u32>,
    out2: Seq<u32>,
    inp: Seq<u32>,
    p1: Seq<int>,
    p2: Seq<int>,
    key: spec_fn(u32) -> int,
    m: int,
)
    requires
        stable_sorted_with(out1, inp, p1, key),
        stable_sorted_with(out2, inp, p2, key),
        0 <= m <= inp.len(),
    ensures
        forall|k: int| 0 <= k < m ==> p1[k] == p2[k],
    decreases m,
{
    if m > 0 {
        lemma_orders_agree(out1, out2, inp, p1, p2, key, m - 1);
        let k = m - 1;
        let a = p1[k];
        let b = p2[k];
        if a != b {
            assert(out1[k] == inp[a]);
            assert(out2[k] == inp[b]);
            if key(inp[a]) < key(inp[b]) || (key(inp[a]) == key(inp[b]) && a < b) {
                // `a` stands in the second order somewhere after `k`.
                assert(takes(p2, inp.len() as int, a));
                let j = choose|j: int| 0 <= j < inp.len() && #[trigger] p2[j] == a;
                if j < k {
                    assert(p1[j] == p2[j]);
                } else {
                    assert(out2[j] == inp[a]);
                }
            } else {
                assert(takes(p1, inp.len() as int, b));
                let j = choose|j: int| 0 <= j < inp.len() && #[trigger] p1[j] == b;
                if j < k {
                    assert(p1[j] == p2[j]);
                } else {
                    assert(out1[j] == inp[b]);
                }
            }
        }
    }
}

/// Before any pass, a sequence is its own stable sort by the part below 1.
pub proof fn lemma_radix_start(s: Seq<u32>)
    ensures
        stable_sorted_with(s, s, identity(s.len() as int), low_key(1)),
{
    lemma_identity_sorts_equal_keys(s, low_key(1));
}

proof fn lemma_lex(d1: int, d2: int, r1: int, r2: int, e: int)
    requires
        0 <= r1 < e,
        0 <= r2 < e,
        d1 < d2,
    ensures
        d1 * e + r1 < d2 * e + r2,
{
    assert((d1 + 1) * e <= d2 * e) by (nonlinear_arith)
        requires
            d1 + 1 <= d2,
            0 < e,
    ;
    assert((d1 + 1) * e == d1 * e + e) by (nonlinear_arith);
}

/// One stable pass on the digit of place value `e` in base `b`, made after
/// the words were stably sorted by their part below `e`, leaves them stably
/// sorted by their part below `e * b`.
pub proof fn lemma_radix_step(
    inp: Seq<u32>,
    mid: Seq<u32>,
    out: Seq<u32>,
    p: Seq<int>,
    q: Seq<int>,
    e: int,
    b: int,
)
    requires
        0 < e,
        0 < b,
        stable_sorted_with(mid, inp, p, low_key(e)),
        stable_sorted_with(out, mid, q, digit_key(e, b)),
    ensures
        stable_sorted_with(out, inp, compose(p, q), low_key(e * b)),
{
    let n = inp.len() as int;
    let c = compose(p, q);
    assert forall|k1: int, k2: int| 0 <= k1 < n && 0 <= k2 < n && k1 != k2 implies #[trigger] c[k1]
        != #[trigger] c[k2] by {
        assert(q[k1] != q[k2]);
    }
    assert forall|i: int| 0 <= i < n implies #[trigger] takes(c, n, i) by {
        assert(takes(p, n, i));
        let m = choose|m: int| 0 <= m < n && #[trigger] p[m] == i;
        assert(takes(q, n, m));
        let k = choose|k: int| 0 <= k < n && #[trigger] q[k] == m;
        assert(c[k] == i);
    }
    assert forall|k: int| 0 <= k < n implies #[trigger] out[k] == inp[c[k]] by {
        assert(out[k] == mid[q[k]]);
    }
    assert forall|k1: int, k2: int| 0 <= k1 < k2 < n implies low_key(e * b)(#[trigger] out[k1])
        < low_key(e * b)(#[trigger] out[k2]) || (low_key(e * b)(out[k1]) == low_key(e * b)(out[k2])
        && c[k1] < c[k2]) by {
        let x1 = out[k1] as int;
        let x2 = out[k2] as int;
        lemma_mod_breakdown(x1, e, b);
        lemma_mod_breakdown(x2, e, b);
        let d1 = (x1 / e) % b;
        let d2 = (x2 / e) % b;
        assert(x1 % (e * b) == d1 * e + x1 % e) by (nonlinear_arith)
            requires
                x1 % (e * b) == e * d1 + x1 % e,
        ;
        assert(x2 % (e * b) == d2 * e + x2 % e) by (nonlinear_arith)
            requires
                x2 % (e * b) == e * d2 + x2 % e,
        ;
        assert(out[k1] == mid[q[k1]]);
        assert(out[k2] == mid[q[k2]]);
        if d1 < d2 {
            lemma_lex(d1, d2, x1 % e, x2 % e, e);
        } else {
            assert(d1 == d2 && q[k1] < q[k2]);
            assert(low_key(e)(mid[q[k1]]) < low_key(e)(mid[q[k2]]) || (low_key(e)(mid[q[k1]])
                == low_key(e)(mid[q[k2]]) && p[q[k1]] < p[q[k2]]));
        }
    }
}

/// Once every word lies below `e`, a stable sort by the part below `e` is a
/// stable sort by value.
pub proof fn lemma_radix_finish(out: Seq<u32>, inp: Seq<u32>, p: Seq<int>, e: int)
    requires
        stable_sorted_with(out, inp, p, low_key(e)),
        forall|i: int| 0 <= i < inp.len() ==> (#[trigger] inp[i] as int) < e,
    ensures
        stable_sorted_with(out, inp, p, value_key()),
{
    assert forall|k: int| 0 <= k < out.len() implies low_key(e)(#[trigger] out[k]) == out[k] as int by {
        assert(out[k] == inp[p[k]]);
        assert(inp[p[k]] < e);
        lemma_small_mod(out[k] as nat, e as nat);
    }
}

/// Words taken in the order of an index permutation form the same multiset.
pub proof fn lemma_arranged_same_multiset(out: Seq<u32>, inp: Seq<u32>, p: Seq<int>)
    requires
        arranged(out, inp, p),
    ensures
        out.to_multiset() == inp.to_multiset(),
    decreases inp.len(),
{
    broadcast use vstd::seq_lib::group_to_multiset_ensures;

    let n = inp.len() as int;
    if n == 0 {
        assert(out =~= inp);
    } else {
        let j = p[n - 1];
        let out2 = out.drop_last();
        let inp2 = inp.remove(j);
        let p2 = Seq::new((n - 1) as nat, |k: int| if p[k] < j { p[k] } else { p[k] - 1 });
        assert forall|k: int| 0 <= k < n - 1 implies 0 <= #[trigger] p2[k] < n - 1 && out2[k]
            == inp2[p2[k]] by {
            assert(p[k] != p[n - 1]);
        }
        assert forall|k1: int, k2: int| 0 <= k1 < n - 1 && 0 <= k2 < n - 1 && k1 != k2 implies #[trigger] p2[k1]
            != #[trigger] p2[k2] by {
            assert(p[k1] != p[k2]);
            assert(p[k1] != p[n - 1]);
            assert(p[k2] != p[n - 1]);
        }
        assert forall|i: int| 0 <= i < n - 1 implies #[trigger] takes(p2, n - 1, i) by {
            let t = if i < j { i } else { i + 1 };
            assert(takes(p, n, t));
            let k = choose|k: int| 0 <= k < n && #[trigger] p[k] == t;
            assert(k != n - 1);
            assert(p2[k] == i);
        }
        lemma_arranged_same_multiset(out2, inp2, p2);
        assert(out =~= out2.push(out[n - 1]));
        assert(out[n - 1] == inp[j]);
        assert(inp.to_multiset().contains(inp[j]));
        assert(inp.to_multiset() =~= inp2.to_multiset().insert(inp[j]));
    }
}

} // verus!
