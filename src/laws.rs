//! Properties of the generator and the sorts, stated over the models that
//! their contracts use.
use crate::mt::{draw, seeded, twist_upto, STATE_SIZE};
use crate::order::{
    arranged, identity, is_sorted, is_stable_sort_by, lemma_arranged_same_multiset,
    lemma_identity_sorts_equal_keys, lemma_radix_finish, lemma_seq_max, lemma_stable_sort_unique,
    low_key, seq_max, stable_sorted_with, takes, value_key,
};
use crate::sort::{hex_passes, mask_cap, mask_passes};
use vstd::arithmetic::power::{
    lemma_pow0, lemma_pow_multiplies, lemma_pow_positive, lemma_pow_strictly_increases, pow,
};
use vstd::arithmetic::power2::{lemma2_to64, pow2};
use vstd::prelude::*;

verus! {

/// The first `k` words emitted from `(words, cursor)`.
pub open spec fn stream(words: Seq<u32>, cursor: nat, k: nat) -> Seq<u32>
    decreases k,
{
    if k == 0 {
        Seq::empty()
    } else {
        let (w, c, x) = draw(words, cursor);
        seq![x] + stream(w, c, (k - 1) as nat)
    }
}

/// Two generators made from the same seed emit the same words, however many
/// are drawn.
pub proof fn lemma_same_seed_same_stream(
    seed: u32,
    words1: Seq<u32>,
    cursor1: nat,
    words2: Seq<u32>,
    cursor2: nat,
    k: nat,
)
    requires
        words1 == seeded(seed),
        cursor1 == 0,
        words2 == seeded(seed),
        cursor2 == 0,
    ensures
        stream(words1, cursor1, k) == stream(words2, cursor2, k),
{
}

/// A draw keeps the state whole and the cursor within it, so drawing can go
/// on without end.
pub proof fn lemma_draw_stays_in_bounds(words: Seq<u32>, cursor: nat)
    requires
        words.len() == STATE_SIZE,
        cursor <= STATE_SIZE,
    ensures
        draw(words, cursor).0.len() == STATE_SIZE,
        1 <= draw(words, cursor).1 <= STATE_SIZE,
{
    if cursor >= STATE_SIZE {
        lemma_twist_keeps_length(words, STATE_SIZE as nat);
    }
}

proof fn lemma_twist_keeps_length(words: Seq<u32>, k: nat)
    requires
        words.len() == STATE_SIZE,
        k <= STATE_SIZE,
    ensures
        twist_upto(words, k).len() == STATE_SIZE,
    decreases k,
{
    if k > 0 {
        lemma_twist_keeps_length(words, (k - 1) as nat);
    }
}

/// Among equal words of `out`, the order `p` keeps input order.
pub open spec fn keeps_ties(out: Seq<u32>, p: Seq<int>) -> bool {
    forall|k1: int, k2: int|
        0 <= k1 < k2 < out.len() && out[k1] == out[k2] ==> #[trigger] p[k1] < #[trigger] p[k2]
}

/// A stable sort by value is ascending, holds the same words as its input,
/// and keeps equal words in input order.
pub proof fn lemma_stable_sort_sorted(out: Seq<u32>, inp: Seq<u32>)
    requires
        is_stable_sort_by(out, inp, value_key()),
    ensures
        is_sorted(out),
        out.to_multiset() == inp.to_multiset(),
        exists|p: Seq<int>| arranged(out, inp, p) && keeps_ties(out, p),
{
    let p = choose|p: Seq<int>| stable_sorted_with(out, inp, p, value_key());
    assert forall|i: int, j: int| 0 <= i <= j < out.len() implies #[trigger] out[i] <= #[trigger] out[j] by {
        if i < j {
            assert(value_key()(out[i]) < value_key()(out[j]) || value_key()(out[i]) == value_key()(out[j]));
        }
    }
    assert(arranged(out, inp, p) && keeps_ties(out, p));
    lemma_arranged_same_multiset(out, inp, p);
}

/// An ascending sequence is its own stable sort by value.
proof fn lemma_identity_sorts_sorted(inp: Seq<u32>)
    requires
        is_sorted(inp),
    ensures
        stable_sorted_with(inp, inp, identity(inp.len() as int), value_key()),
{
    let n = inp.len() as int;
    let id = identity(n);
    assert forall|i: int| 0 <= i < n implies #[trigger] takes(id, n, i) by {
        assert(id[i] == i);
    }
    assert forall|k1: int, k2: int| 0 <= k1 < k2 < n implies value_key()(#[trigger] inp[k1]) < value_key()(
        #[trigger] inp[k2],
    ) || (value_key()(inp[k1]) == value_key()(inp[k2]) && id[k1] < id[k2]) by {
        assert(inp[k1] <= inp[k2]);
    }
}

/// A stable sort by value leaves an ascending input as it is.
pub proof fn lemma_sorted_input_unchanged(inp: Seq<u32>, out: Seq<u32>)
    requires
        is_sorted(inp),
        is_stable_sort_by(out, inp, value_key()),
    ensures
        out == inp,
{
    lemma_identity_sorts_sorted(inp);
    let p = choose|p: Seq<int>| stable_sorted_with(out, inp, p, value_key());
    lemma_stable_sort_unique(out, inp, inp, p, identity(inp.len() as int), value_key());
}

/// A stable sort of words that are all equal, by any key, leaves them as
/// they are; a single word is one such case.
pub proof fn lemma_equal_words_unchanged(inp: Seq<u32>, out: Seq<u32>, key: spec_fn(u32) -> int)
    requires
        forall|i: int, j: int| 0 <= i < inp.len() && 0 <= j < inp.len() ==> #[trigger] inp[i] == #[trigger] inp[j],
        is_stable_sort_by(out, inp, key),
    ensures
        out == inp,
{
    lemma_identity_sorts_equal_keys(inp, key);
    let p = choose|p: Seq<int>| stable_sorted_with(out, inp, p, key);
    lemma_stable_sort_unique(out, inp, inp, p, identity(inp.len() as int), key);
}

/// Once every word of `inp` lies below `e`, a stable sort by the part below
/// `e` is a stable sort by value.
proof fn lemma_covered(out: Seq<u32>, inp: Seq<u32>, e: int)
    requires
        inp.len() > 0,
        is_stable_sort_by(out, inp, low_key(e)),
        seq_max(inp) < e,
    ensures
        is_stable_sort_by(out, inp, value_key()),
{
    lemma_seq_max(inp);
    let p = choose|p: Seq<int>| stable_sorted_with(out, inp, p, low_key(e));
    lemma_radix_finish(out, inp, p, e);
}

/// `inp` holds a word strictly between 0 and `m`, or a word `m` before a 0.
pub open spec fn out_of_place_below(inp: Seq<u32>, m: int) -> bool {
    ||| exists|i: int| 0 <= i < inp.len() && 0 < #[trigger] inp[i] < m
    ||| exists|i: int, k: int| 0 <= i < k < inp.len() && #[trigger] inp[i] == m && #[trigger] inp[k] == 0
}

/// The inputs that the base-16 sort leaves out of order: the largest word is
/// `16^j` for some `j` below 8, so the pass on digit `j` is not made, and
/// some word is out of place with respect to it.
pub open spec fn hex_misses(inp: Seq<u32>) -> bool {
    exists|j: nat|
        j < 8 && seq_max(inp) == #[trigger] pow(16, j) && out_of_place_below(inp, seq_max(inp) as int)
}

/// The inputs below its cap that the bit-width sort leaves out of order: the
/// largest word is `(2^width)^j` for some `j` below the cap, and some word is
/// out of place with respect to it.
pub open spec fn mask_misses(inp: Seq<u32>, width: u32) -> bool {
    exists|j: nat|
        j < mask_cap(width) && seq_max(inp) == #[trigger] pow(pow2(width as nat) as int, j)
            && out_of_place_below(inp, seq_max(inp) as int)
}

/// When the largest word `e` is the last place value, and every other word
/// is 0 and stands before every `e`, the stable sort by the part below `e`
/// is a stable sort by value.
proof fn lemma_power_case(inp: Seq<u32>, out: Seq<u32>, e: int)
    requires
        inp.len() > 0,
        seq_max(inp) == e,
        e > 0,
        is_stable_sort_by(out, inp, low_key(e)),
        !out_of_place_below(inp, e),
    ensures
        is_stable_sort_by(out, inp, value_key()),
{
    lemma_seq_max(inp);
    assert forall|i: int, j: int| 0 <= i < inp.len() && 0 <= j < inp.len() implies low_key(e)(
        #[trigger] inp[i],
    ) == low_key(e)(#[trigger] inp[j]) by {
        assert(inp[i] <= e && inp[j] <= e);
        assert(inp[i] == 0 || inp[i] == e);
        assert(inp[j] == 0 || inp[j] == e);
    }
    lemma_identity_sorts_equal_keys(inp, low_key(e));
    let p = choose|p: Seq<int>| stable_sorted_with(out, inp, p, low_key(e));
    lemma_stable_sort_unique(out, inp, inp, p, identity(inp.len() as int), low_key(e));
    assert forall|i: int, k: int| 0 <= i <= k < inp.len() implies #[trigger] inp[i] <= #[trigger] inp[k] by {
        assert(inp[i] <= e && inp[k] <= e);
        assert(inp[i] == 0 || inp[i] == e);
        assert(inp[k] == 0 || inp[k] == e);
    }
    lemma_identity_sorts_sorted(inp);
}

proof fn lemma_hex_passes_stop(max: u32, d: nat)
    requires
        d <= 8,
    ensures
        hex_passes(max, d) <= 8,
        hex_passes(max, d) == 8 || max <= pow(16, hex_passes(max, d)),
    decreases 8 - d,
{
    if d < 8 && max as int > pow(16, d) {
        lemma_hex_passes_stop(max, d + 1);
    }
}

proof fn lemma_hex_passes_at_power(max: u32, j: nat, d: nat)
    requires
        j < 8,
        max == pow(16, j),
        d <= j,
    ensures
        hex_passes(max, d) == j,
    decreases j - d,
{
    if d < j {
        lemma_pow_strictly_increases(16, d, j);
        lemma_hex_passes_at_power(max, j, d + 1);
    }
}

/// The base-16 sort is a stable sort by value, except on the inputs of
/// `hex_misses`.
pub proof fn lemma_hex_sort_complete(inp: Seq<u32>, out: Seq<u32>)
    requires
        inp.len() > 0,
        is_stable_sort_by(out, inp, low_key(pow(16, hex_passes(seq_max(inp), 0)))),
        !hex_misses(inp),
    ensures
        is_stable_sort_by(out, inp, value_key()),
{
    let max = seq_max(inp);
    let k = hex_passes(max, 0);
    if exists|j: nat| j < 8 && max == #[trigger] pow(16, j) {
        let j = choose|j: nat| j < 8 && max == #[trigger] pow(16, j);
        lemma_hex_passes_at_power(max, j, 0);
        lemma_pow_positive(16, j);
        lemma_power_case(inp, out, pow(16, j));
    } else {
        lemma_hex_passes_stop(max, 0);
        if k == 8 {
            lemma2_to64();
            lemma_pow_positive(2, 4);
            assert(pow(2, 4) == 16);
            lemma_pow_multiplies(2, 4, 8);
            lemma_pow_positive(2, 32);
        }
        lemma_covered(out, inp, pow(16, k));
    }
}

proof fn lemma_mask_passes_stop(max: u32, width: u32, d: nat)
    requires
        d <= mask_cap(width),
    ensures
        mask_stopped(max, width, mask_passes(max, width, d)),
    decreases mask_cap(width) - d,
{
    if d < mask_cap(width) && max as int > pow(pow2(width as nat) as int, d) {
        lemma_mask_passes_stop(max, width, d + 1);
    }
}

proof fn lemma_mask_passes_at_power(max: u32, width: u32, j: nat, d: nat)
    requires
        1 <= width,
        j < mask_cap(width),
        max == pow(pow2(width as nat) as int, j),
        d <= j,
    ensures
        mask_passes(max, width, d) == j,
    decreases j - d,
{
    if d < j {
        lemma_pow_positive(2, width as nat);
        lemma_pow_strictly_increases(2, 0, width as nat);
        lemma_pow0(2);
        assert(pow2(width as nat) > 1);
        lemma_pow_strictly_increases(pow2(width as nat), d, j);
        lemma_mask_passes_at_power(max, width, j, d + 1);
    }
}

/// The bit-width sort stopped at `k`: at its cap, or at a place value that
/// reaches the largest word.
pub open spec fn mask_stopped(max: u32, width: u32, k: nat) -> bool {
    k <= mask_cap(width) && (k == mask_cap(width) || max <= pow(pow2(width as nat) as int, k))
}

/// The bit-width sort is a stable sort by value whenever its largest word
/// lies below `(2^width)^cap`, except on the inputs of `mask_misses`.
pub proof fn lemma_mask_sort_complete(inp: Seq<u32>, width: u32, out: Seq<u32>)
    requires
        1 <= width <= 31,
        inp.len() > 0,
        is_stable_sort_by(out, inp, low_key(pow(pow2(width as nat) as int, mask_passes(seq_max(inp), width, 0)))),
        seq_max(inp) < pow(pow2(width as nat) as int, mask_cap(width) as nat),
        !mask_misses(inp, width),
    ensures
        is_stable_sort_by(out, inp, value_key()),
{
    let max = seq_max(inp);
    let be = pow2(width as nat) as int;
    assert(32int / (width as int) >= 1) by (nonlinear_arith)
        requires
            1 <= width <= 31,
    ;
    if exists|j: nat| j < mask_cap(width) && max == #[trigger] pow(be, j) {
        let j = choose|j: nat| j < mask_cap(width) && max == #[trigger] pow(be, j);
        lemma_mask_passes_at_power(max, width, j, 0);
        lemma_pow_positive(2, width as nat);
        lemma_pow_positive(be, j);
        lemma_power_case(inp, out, pow(be, j));
    } else {
        lemma_mask_passes_stop(max, width, 0);
        lemma_covered(out, inp, pow(be, mask_passes(max, width, 0)));
    }
}

/// For an input whose largest word lies below `2^28`, the base-16 radix
/// sort, the fixed base-16 sort and the bit-width sort of width 4 give the
/// same result, except on the inputs of `hex_misses`.
pub proof fn lemma_variants_agree(inp: Seq<u32>, by_base: Seq<u32>, by_hex: Seq<u32>, by_mask: Seq<u32>)
    requires
        inp.len() > 0,
        seq_max(inp) < 0x1000_0000,
        !hex_misses(inp),
        is_stable_sort_by(by_base, inp, value_key()),
        is_stable_sort_by(by_hex, inp, low_key(pow(16, hex_passes(seq_max(inp), 0)))),
        is_stable_sort_by(by_mask, inp, low_key(pow(pow2(4) as int, mask_passes(seq_max(inp), 4, 0)))),
    ensures
        by_hex == by_base,
        by_mask == by_base,
{
    lemma2_to64();
    lemma_pow_positive(2, 4);
    assert(pow2(4) == 16);
    assert(mask_cap(4) == 7);
    lemma_pow_multiplies(2, 4, 7);
    lemma_pow_positive(2, 28);
    assert(pow(16, 7) == 0x1000_0000);
    if mask_misses(inp, 4) {
        let j = choose|j: nat|
            j < mask_cap(4) && seq_max(inp) == #[trigger] pow(pow2(4) as int, j)
                && out_of_place_below(inp, seq_max(inp) as int);
        assert(seq_max(inp) == pow(16, j));
    }
    lemma_hex_sort_complete(inp, by_hex);
    lemma_mask_sort_complete(inp, 4, by_mask);
    let p1 = choose|p: Seq<int>| stable_sorted_with(by_base, inp, p, value_key());
    let p2 = choose|p: Seq<int>| stable_sorted_with(by_hex, inp, p, value_key());
    let p3 = choose|p: Seq<int>| stable_sorted_with(by_mask, inp, p, value_key());
    lemma_stable_sort_unique(by_hex, by_base, inp, p2, p1, value_key());
    lemma_stable_sort_unique(by_mask, by_base, inp, p3, p1, value_key());
}

} // verus!
