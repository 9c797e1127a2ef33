//! The counting-sort pass: one stable pass ordering words by one digit.
use crate::order::{
    digit_key, is_stable_sort_by, lemma_injection_is_onto, reaches, stable_sorted_with, takes,
};
use vstd::arithmetic::power2::{lemma_pow2_pos, pow2};
use vstd::bits::lemma_u32_low_bits_mask_is_mod;
use vstd::prelude::*;

verus! {

/// How many of the first `m` words of `s` have a key below `d`.
pub open spec fn count_below(s: Seq<u32>, key: spec_fn(u32) -> int, d: int, m: int) -> int
    decreases m,
{
    if m <= 0 {
        0
    } else {
        count_below(s, key, d, m - 1) + if key(s[m - 1]) < d { 1int } else { 0int }
    }
}

/// How many of the first `m` words of `s` have the key `d`.
pub open spec fn count_equal(s: Seq<u32>, key: spec_fn(u32) -> int, d: int, m: int) -> int
    decreases m,
{
    if m <= 0 {
        0
    } else {
        count_equal(s, key, d, m - 1) + if key(s[m - 1]) == d { 1int } else { 0int }
    }
}

/// The position that a stable pass by `key` gives to word `j` of `s`: after
/// every word of smaller key, and after the earlier words of the same key.
pub open spec fn slot(s: Seq<u32>, key: spec_fn(u32) -> int, j: int) -> int {
    count_below(s, key, key(s[j]), s.len() as int) + count_equal(s, key, key(s[j]), j)
}

/// Every key of `s` lies in `0..b`.
pub open spec fn keys_below(s: Seq<u32>, key: spec_fn(u32) -> int, b: int) -> bool {
    forall|j: int| 0 <= j < s.len() ==> 0 <= #[trigger] key(s[j]) < b
}

proof fn lemma_count_split(s: Seq<u32>, key: spec_fn(u32) -> int, d: int, m: int)
    ensures
        count_below(s, key, d + 1, m) == count_below(s, key, d, m) + count_equal(s, key, d, m),
    decreases m,
{
    if m > 0 {
        lemma_count_split(s, key, d, m - 1);
    }
}

proof fn lemma_count_bounds(s: Seq<u32>, key: spec_fn(u32) -> int, d: int, m: int)
    ensures
        0 <= count_below(s, key, d, m) <= if m < 0 { 0 } else { m },
        0 <= count_equal(s, key, d, m) <= if m < 0 { 0 } else { m },
    decreases m,
{
    if m > 0 {
        lemma_count_bounds(s, key, d, m - 1);
    }
}

proof fn lemma_below_grows(s: Seq<u32>, key: spec_fn(u32) -> int, d1: int, d2: int, m: int)
    requires
        d1 <= d2,
    ensures
        count_below(s, key, d1, m) <= count_below(s, key, d2, m),
    decreases m,
{
    if m > 0 {
        lemma_below_grows(s, key, d1, d2, m - 1);
    }
}

proof fn lemma_equal_grows(s: Seq<u32>, key: spec_fn(u32) -> int, d: int, m1: int, m2: int)
    requires
        m1 <= m2,
    ensures
        count_equal(s, key, d, m1) <= count_equal(s, key, d, m2),
    decreases m2 - m1,
{
    if m1 < m2 {
        lemma_equal_grows(s, key, d, m1, m2 - 1);
        lemma_count_bounds(s, key, d, m2 - 1);
    }
}

proof fn lemma_below_edges(s: Seq<u32>, key: spec_fn(u32) -> int, b: int, m: int)
    requires
        keys_below(s, key, b),
        0 <= m <= s.len(),
    ensures
        count_below(s, key, 0, m) == 0,
        count_below(s, key, b, m) == m,
    decreases m,
{
    if m > 0 {
        lemma_below_edges(s, key, b, m - 1);
        assert(0 <= key(s[m - 1]) < b);
    }
}

/// Word `j` gets a slot inside the output.
proof fn lemma_slot_range(s: Seq<u32>, key: spec_fn(u32) -> int, b: int, j: int)
    requires
        keys_below(s, key, b),
        0 <= j < s.len(),
    ensures
        0 <= slot(s, key, j) < s.len(),
{
    let n = s.len() as int;
    let d = key(s[j]);
    assert(0 <= d < b);
    lemma_count_bounds(s, key, d, n);
    lemma_count_bounds(s, key, d, j);
    lemma_equal_grows(s, key, d, j + 1, n);
    lemma_count_split(s, key, d, n);
    lemma_below_grows(s, key, d + 1, b, n);
    lemma_below_edges(s, key, b, n);
}

/// Slots follow the key, and the input order among equal keys.
proof fn lemma_slot_order(s: Seq<u32>, key: spec_fn(u32) -> int, b: int, j1: int, j2: int)
    requires
        keys_below(s, key, b),
        0 <= j1 < s.len(),
        0 <= j2 < s.len(),
        key(s[j1]) < key(s[j2]) || (key(s[j1]) == key(s[j2]) && j1 < j2),
    ensures
        slot(s, key, j1) < slot(s, key, j2),
{
    let n = s.len() as int;
    let d1 = key(s[j1]);
    let d2 = key(s[j2]);
    if d1 < d2 {
        lemma_equal_grows(s, key, d1, j1 + 1, n);
        lemma_count_split(s, key, d1, n);
        lemma_below_grows(s, key, d1 + 1, d2, n);
        lemma_count_bounds(s, key, d2, j2);
    } else {
        lemma_equal_grows(s, key, d1, j1 + 1, j2);
    }
}

/// Writing each word to its slot is a stable sort by the key.
proof fn lemma_slots_sort(s: Seq<u32>, key: spec_fn(u32) -> int, b: int, out: Seq<u32>, p: Seq<int>)
    requires
        keys_below(s, key, b),
        out.len() == s.len(),
        p.len() == s.len(),
        forall|j: int|
            0 <= j < s.len() ==> out[#[trigger] slot(s, key, j)] == s[j] && p[slot(s, key, j)] == j,
    ensures
        stable_sorted_with(out, s, p, key),
{
    let n = s.len() as int;
    let f = |j: int| slot(s, key, j);
    assert forall|j: int| 0 <= j < n implies 0 <= #[trigger] f(j) < n by {
        lemma_slot_range(s, key, b, j);
    }
    assert forall|i: int, j: int| 0 <= i < n && 0 <= j < n && i != j implies #[trigger] f(i)
        != #[trigger] f(j) by {
        if key(s[i]) < key(s[j]) || (key(s[i]) == key(s[j]) && i < j) {
            lemma_slot_order(s, key, b, i, j);
        } else {
            lemma_slot_order(s, key, b, j, i);
        }
    }
    lemma_injection_is_onto(f, n);
    assert forall|k: int| 0 <= k < n implies 0 <= #[trigger] p[k] < n && f(p[k]) == k && out[k]
        == s[p[k]] by {
        assert(reaches(f, n, k));
        let j = choose|j: int| 0 <= j < n && #[trigger] f(j) == k;
    }
    assert forall|i: int| 0 <= i < n implies #[trigger] takes(p, n, i) by {
        lemma_slot_range(s, key, b, i);
        assert(p[f(i)] == i);
    }
    assert forall|k1: int, k2: int| 0 <= k1 < k2 < n implies key(#[trigger] out[k1]) < key(
        #[trigger] out[k2],
    ) || (key(out[k1]) == key(out[k2]) && p[k1] < p[k2]) by {
        let j1 = p[k1];
        let j2 = p[k2];
        assert(f(j1) == k1 && f(j2) == k2);
        if key(s[j2]) < key(s[j1]) || (key(s[j2]) == key(s[j1]) && j2 < j1) {
            lemma_slot_order(s, key, b, j2, j1);
        }
    }
}

/// How a pass isolates one digit once the word is divided by the place value.
pub enum DigitRule {
    /// The remainder by the base.
    Remainder,
    /// A mask of the low `w` bits; the base is then `2^w`.
    Mask(u32),
}

/// The rule can be used with this base.
pub open spec fn rule_fits(rule: DigitRule, base: u32) -> bool {
    match rule {
        DigitRule::Remainder => base > 0,
        DigitRule::Mask(w) => w < 32 && base as nat == pow2(w as nat),
    }
}

/// The digit of `x` whose place value is `exp`, in base `base`.
fn digit_of(x: u32, exp: u32, base: u32, rule: &DigitRule) -> (r: u32)
    requires
        exp > 0,
        rule_fits(*rule, base),
    ensures
        r as int == digit_key(exp as int, base as int)(x),
        r < base,
{
    let q: u32 = x / exp;
    match rule {
        DigitRule::Remainder => q % base,
        DigitRule::Mask(w) => {
            proof {
                lemma_u32_low_bits_mask_is_mod(q, *w as nat);
                lemma_pow2_pos(*w as nat);
            }
            q & (base - 1)
        },
    }
}

/// One stable counting-sort pass over the first `n` words of `arr`, by the
/// digit of place value `exp` in base `base`, isolated by `rule`. The words are counted per
/// digit, the counts are summed into end positions, and the words are placed
/// from the last one back, so that equal digits keep their order.
pub fn counting_pass(arr: &[u32], n: usize, exp: u32, base: u32, rule: &DigitRule) -> (out: Vec<u32>)
    requires
        n <= arr@.len(),
        exp > 0,
        rule_fits(*rule, base),
    ensures
        is_stable_sort_by(out@, arr@.subrange(0, n as int), digit_key(exp as int, base as int)),
{
    proof {
        if let DigitRule::Mask(w) = *rule {
            lemma_pow2_pos(w as nat);
        }
    }
    let ghost s = arr@.subrange(0, n as int);
    let ghost key = digit_key(exp as int, base as int);
    let ghost b = base as int;
    let mut counts: Vec<usize> = vec![0usize; base as usize];
    assert forall|j: int| 0 <= j < s.len() implies 0 <= #[trigger] key(s[j]) < b by {
        assert(0 <= (s[j] as int / exp as int) % b < b);
    }
    let mut i: usize = 0;
    while i < n
        invariant
            n <= arr@.len(),
            s == arr@.subrange(0, n as int),
            s.len() == n,
            key == digit_key(exp as int, base as int),
            b == base as int,
            exp > 0,
            base > 0,
            rule_fits(*rule, base),
            0 <= i <= n,
            counts@.len() == base,
            forall|e: int| 0 <= e < b ==> #[trigger] counts@[e] == count_equal(s, key, e, i as int),
        decreases n - i,
    {
        let d: u32 = digit_of(arr[i], exp, base, rule);
        proof {
            assert(s[i as int] == arr@[i as int]);
            lemma_count_bounds(s, key, d as int, i as int);
        }
        counts[d as usize] = counts[d as usize] + 1;
        i = i + 1;
    }
    proof {
        lemma_count_split(s, key, 0, n as int);
        lemma_below_edges(s, key, b, n as int);
    }
    let mut d: usize = 1;
    while d < base as usize
        invariant
            s == arr@.subrange(0, n as int),
            s.len() == n,
            key == digit_key(exp as int, base as int),
            b == base as int,
            keys_below(s, key, b),
            1 <= d <= base,
            counts@.len() == base,
            forall|e: int| 0 <= e < d ==> #[trigger] counts@[e] == count_below(s, key, e + 1, n as int),
            forall|e: int| d <= e < b ==> #[trigger] counts@[e] == count_equal(s, key, e, n as int),
        decreases base - d,
    {
        proof {
            lemma_count_split(s, key, d as int, n as int);
            lemma_below_grows(s, key, d as int + 1, b, n as int);
            lemma_below_edges(s, key, b, n as int);
            lemma_count_bounds(s, key, d as int + 1, n as int);
        }
        counts[d] = counts[d] + counts[d - 1];
        d = d + 1;
    }
    assert forall|e: int| 0 <= e < b implies #[trigger] counts@[e] == count_below(s, key, e, n as int)
        + count_equal(s, key, e, n as int) by {
        lemma_count_split(s, key, e, n as int);
    }
    let mut out: Vec<u32> = vec![0u32; n];
    let ghost mut p: Seq<int> = Seq::new(n as nat, |k: int| 0);
    let mut i: usize = n;
    while i > 0
        invariant
            s == arr@.subrange(0, n as int),
            s.len() == n,
            n <= arr@.len(),
            key == digit_key(exp as int, base as int),
            b == base as int,
            exp > 0,
            base > 0,
            rule_fits(*rule, base),
            keys_below(s, key, b),
            0 <= i <= n,
            counts@.len() == base,
            out@.len() == n,
            p.len() == n,
            forall|e: int| 0 <= e < b ==> #[trigger] counts@[e] == count_below(s, key, e, n as int)
                + count_equal(s, key, e, i as int),
            forall|j: int|
                i <= j < n ==> out@[#[trigger] slot(s, key, j)] == s[j] && p[slot(s, key, j)] == j,
        decreases i,
    {
        let idx: usize = i - 1;
        let v: u32 = arr[idx];
        let d: u32 = digit_of(v, exp, base, rule);
        proof {
            assert(s[idx as int] == v);
            lemma_count_bounds(s, key, d as int, n as int);
            lemma_count_bounds(s, key, d as int, idx as int);
            lemma_slot_range(s, key, b, idx as int);
            assert forall|j: int| i <= j < n implies slot(s, key, j) != slot(s, key, idx as int) by {
                if key(s[j]) < key(s[idx as int]) {
                    lemma_slot_order(s, key, b, j, idx as int);
                } else {
                    lemma_slot_order(s, key, b, idx as int, j);
                }
            }
        }
        let pos: usize = counts[d as usize] - 1;
        counts[d as usize] = pos;
        out[pos] = v;
        proof {
            p = p.update(pos as int, idx as int);
            assert forall|j: int| i - 1 <= j < n implies out@[#[trigger] slot(s, key, j)] == s[j]
                && p[slot(s, key, j)] == j by {
                lemma_slot_range(s, key, b, j);
            }
        }
        i = idx;
    }
    proof {
        lemma_slots_sort(s, key, b, out@, p);
    }
    out
}

} // verus!
