//! Radix sorts of 32-bit words: an arbitrary base, base 16, and a base of
//! `2^w` for a bit width `w`, each made of stable counting-sort passes from
//! the least significant digit up.
use crate::order::{
    compose, digit_key, identity, is_stable_sort_by, lemma_radix_finish, lemma_radix_start,
    lemma_radix_step, lemma_seq_max, low_key, seq_max, stable_sorted_with, value_key,
};
use crate::pass::{counting_pass, DigitRule};
use vstd::arithmetic::power::{lemma_pow_increases, lemma_pow_multiplies, lemma_pow_positive, pow};
use vstd::arithmetic::power2::{lemma2_to64, pow2};
use vstd::prelude::*;

verus! {

/// Why a sort could not be made.
#[derive(Debug, Clone, Copy, PartialEq, Eq, Structural)]
pub enum SortError {
    /// The input holds no word, so it has no largest word to bound the passes.
    EmptyInput,
}

/// The digit position at which the base-16 sort stops, counting from `d`:
/// it goes on while fewer than 8 passes are made and the largest word
/// exceeds the place value.
pub open spec fn hex_passes(max: u32, d: nat) -> nat
    decreases 8 - d,
{
    if d < 8 && max as int > pow(16, d) {
        hex_passes(max, d + 1)
    } else {
        d
    }
}

/// The number of passes the bit-width sort allows for width `width`.
pub open spec fn mask_cap(width: u32) -> int {
    32int / (width as int) - 1
}

/// The digit position at which the bit-width sort stops, counting from `d`:
/// it goes on while fewer than `mask_cap(width)` passes are made and the
/// largest word exceeds the place value.
pub open spec fn mask_passes(max: u32, width: u32, d: nat) -> nat
    decreases mask_cap(width) - d,
{
    if d < mask_cap(width) && max as int > pow(pow2(width as nat) as int, d) {
        mask_passes(max, width, d + 1)
    } else {
        d
    }
}

/// `b` raised to `e`, when it fits in a word.
fn power(b: u32, e: u32) -> (r: u32)
    requires
        b >= 1,
        pow(b as int, e as nat) <= u32::MAX,
    ensures
        r as int == pow(b as int, e as nat),
{
    let mut r: u32 = 1;
    let mut k: u32 = 0;
    proof {
        reveal(pow);
    }
    while k < e
        invariant
            b >= 1,
            k <= e,
            pow(b as int, e as nat) <= u32::MAX,
            r as int == pow(b as int, k as nat),
        decreases e - k,
    {
        proof {
            reveal(pow);
            lemma_pow_increases(b as nat, (k + 1) as nat, e as nat);
            assert(pow(b as int, (k + 1) as nat) == b * pow(b as int, k as nat));
        }
        r = r * b;
        k = k + 1;
    }
    r
}

/// `16^d` is `2^(4 d)`.
proof fn lemma_hex_place(d: nat)
    ensures
        pow(16, d) == pow2(4 * d),
{
    lemma2_to64();
    lemma_pow_positive(2, 4);
    assert(pow(2, 4) == 16);
    lemma_pow_multiplies(2, 4, d);
    lemma_pow_positive(2, 4 * d);
}

/// One stable counting-sort pass over the first `arr_len` words, by digit
/// `nth_digit` in base `base` (place value `base^nth_digit`). The words are
/// read, not changed.
pub fn counting_sort(arr: &mut [u32], arr_len: usize, base: u32, nth_digit: u32) -> (out: Vec<u32>)
    requires
        arr_len <= old(arr)@.len(),
        base >= 1,
        pow(base as int, nth_digit as nat) <= u32::MAX,
    ensures
        final(arr)@ == old(arr)@,
        is_stable_sort_by(
            out@,
            old(arr)@.subrange(0, arr_len as int),
            digit_key(pow(base as int, nth_digit as nat), base as int),
        ),
{
    proof {
        lemma_pow_positive(base as int, nth_digit as nat);
    }
    let exp: u32 = power(base, nth_digit);
    counting_pass(arr, arr_len, exp, base, &DigitRule::Remainder)
}

/// One stable counting-sort pass over the first `arr_len` words, by
/// hexadecimal digit `nth_digit`, isolated with a mask.
pub fn counting_sort_16(arr: &mut [u32], arr_len: usize, nth_digit: u32) -> (out: Vec<u32>)
    requires
        arr_len <= old(arr)@.len(),
        nth_digit < 8,
    ensures
        final(arr)@ == old(arr)@,
        is_stable_sort_by(
            out@,
            old(arr)@.subrange(0, arr_len as int),
            digit_key(pow(16, nth_digit as nat), 16),
        ),
{
    proof {
        lemma_hex_place(nth_digit as nat);
        lemma_pow_increases(2, 4 * nth_digit as nat, 28);
        lemma2_to64();
    }
    let exp: u32 = power(16, nth_digit);
    counting_pass(arr, arr_len, exp, 16, &DigitRule::Mask(4))
}

/// One stable counting-sort pass over the first `arr_len` words, by the
/// digit of place value `exp` in base `2^width`, isolated with the mask
/// `2^width - 1`.
pub fn counting_sort_bitmask(arr: &mut [u32], arr_len: usize, exp: u32, width: u32) -> (out: Vec<
    u32,
>)
    requires
        arr_len <= old(arr)@.len(),
        exp >= 1,
        width < 32,
    ensures
        final(arr)@ == old(arr)@,
        is_stable_sort_by(
            out@,
            old(arr)@.subrange(0, arr_len as int),
            digit_key(exp as int, pow2(width as nat) as int),
        ),
{
    proof {
        lemma_pow_increases(2, width as nat, 31);
        lemma2_to64();
    }
    let base: u32 = power(2, width);
    counting_pass(arr, arr_len, exp, base, &DigitRule::Mask(width))
}

/// The largest word of a non-empty vector.
fn max_of(arr: &Vec<u32>) -> (r: u32)
    requires
        arr@.len() > 0,
    ensures
        r == seq_max(arr@),
{
    let mut m: u32 = arr[0];
    let mut i: usize = 1;
    proof {
        assert(arr@.subrange(0, 1).drop_last().len() == 0);
    }
    while i < arr.len()
        invariant
            1 <= i <= arr@.len(),
            m == seq_max(arr@.subrange(0, i as int)),
        decreases arr@.len() - i,
    {
        proof {
            assert(arr@.subrange(0, i as int + 1).drop_last() =~= arr@.subrange(0, i as int));
        }
        if arr[i] > m {
            m = arr[i];
        }
        i = i + 1;
    }
    proof {
        assert(arr@.subrange(0, arr@.len() as int) =~= arr@);
    }
    m
}

/// Radix sort in base `base`: one stable pass per digit, from the least
/// significant up, while the place value does not exceed the largest word
/// (`max / exp > 0`). Unlike the base-16 and bit-width sorts, whose test is
/// strict, this one also makes the pass whose place value equals the largest
/// word, so every digit of every word is ordered. The result holds the same
/// words, ascending, with equal words in their input order.
pub fn radix_sort(arr: Vec<u32>, base: u32) -> (r: Result<Vec<u32>, SortError>)
    requires
        base >= 2,
    ensures
        r is Err <==> arr@.len() == 0,
        r matches Ok(out) ==> is_stable_sort_by(out@, arr@, value_key()),
{
    if arr.len() == 0 {
        return Err(SortError::EmptyInput);
    }
    let max: u32 = max_of(&arr);
    let ghost inp = arr@;
    let ghost mut perm = identity(inp.len() as int);
    proof {
        lemma_radix_start(inp);
        lemma_seq_max(inp);
        reveal(pow);
    }
    let mut output: Vec<u32> = arr;
    let mut digit: u32 = 0;
    let mut exp: u64 = 1;
    while max as u64 >= exp
        invariant
            base >= 2,
            1 <= exp,
            exp as int == pow(base as int, digit as nat),
            exp <= 0xffff_ffff * base,
            digit < exp,
            stable_sorted_with(output@, inp, perm, low_key(exp as int)),
            forall|i: int| 0 <= i < inp.len() ==> #[trigger] inp[i] <= max,
        decreases (max as int + 1) * base - exp,
    {
        let len: usize = output.len();
        let next: Vec<u32> = counting_sort(output.as_mut_slice(), len, base, digit);
        proof {
            assert(output@.subrange(0, len as int) =~= output@);
            let q = choose|q: Seq<int>|
                stable_sorted_with(next@, output@, q, digit_key(exp as int, base as int));
            lemma_radix_step(inp, output@, next@, perm, q, exp as int, base as int);
            perm = compose(perm, q);
            reveal(pow);
            assert(pow(base as int, (digit + 1) as nat) == base * pow(base as int, digit as nat));
            assert(exp * base <= 0xffff_ffff * base) by (nonlinear_arith)
                requires
                    exp <= max,
                    max <= 0xffff_ffff,
                    base >= 2,
            ;
            assert(exp * base < 0x1_0000_0000 * 0x1_0000_0000) by (nonlinear_arith)
                requires
                    exp <= 0xffff_ffff,
                    base <= 0xffff_ffff,
            ;
            assert(exp * base <= max * base) by (nonlinear_arith)
                requires
                    exp <= max,
                    base >= 2,
            ;
            assert((max + 1) * base == max * base + base) by (nonlinear_arith);
            assert(exp * base >= 2 * exp) by (nonlinear_arith)
                requires
                    exp >= 1,
                    base >= 2,
            ;
        }
        output = next;
        exp = exp * base as u64;
        digit = digit + 1;
    }
    proof {
        lemma_radix_finish(output@, inp, perm, exp as int);
    }
    Ok(output)
}

/// Radix sort in base 16: one stable pass per hexadecimal digit, from the
/// least significant up, while fewer than 8 passes are made and the largest
/// word exceeds the place value. The result is the stable sort of the input
/// by its part below `16^k`, for the `k` passes made.
pub fn radix_sort_16(arr: Vec<u32>) -> (r: Result<Vec<u32>, SortError>)
    ensures
        r is Err <==> arr@.len() == 0,
        r matches Ok(out) ==> is_stable_sort_by(
            out@,
            arr@,
            low_key(pow(16, hex_passes(seq_max(arr@), 0))),
        ),
{
    if arr.len() == 0 {
        return Err(SortError::EmptyInput);
    }
    let max: u32 = max_of(&arr);
    let ghost inp = arr@;
    let ghost mut perm = identity(inp.len() as int);
    proof {
        lemma_radix_start(inp);
        reveal(pow);
    }
    let mut output: Vec<u32> = arr;
    let mut digit: u32 = 0;
    let mut exp: u64 = 1;
    while digit < 8 && max as u64 > exp
        invariant
            digit <= 8,
            exp as int == pow(16, digit as nat),
            max == seq_max(inp),
            hex_passes(max, 0) == hex_passes(max, digit as nat),
            stable_sorted_with(output@, inp, perm, low_key(exp as int)),
        decreases 8 - digit,
    {
        let len: usize = output.len();
        let next: Vec<u32> = counting_sort_16(output.as_mut_slice(), len, digit);
        proof {
            assert(output@.subrange(0, len as int) =~= output@);
            lemma_pow_positive(16, digit as nat);
            let q = choose|q: Seq<int>| stable_sorted_with(next@, output@, q, digit_key(exp as int, 16));
            lemma_radix_step(inp, output@, next@, perm, q, exp as int, 16);
            perm = compose(perm, q);
            reveal(pow);
            assert(pow(16, (digit + 1) as nat) == 16 * pow(16, digit as nat));
            lemma_hex_place(digit as nat);
            lemma_pow_increases(2, 4 * digit as nat, 28);
            lemma2_to64();
        }
        output = next;
        exp = exp * 16;
        digit = digit + 1;
    }
    Ok(output)
}

/// A place value of the bit-width sort below its pass cap fits in a word.
proof fn lemma_mask_place(width: u32, d: nat)
    requires
        1 <= width <= 31,
        d < mask_cap(width),
    ensures
        pow(pow2(width as nat) as int, d) <= 0x8000_0000,
{
    let w = width as int;
    assert((32int / w) * w <= 32) by (nonlinear_arith)
        requires
            w > 0,
    ;
    assert(w * d <= 31) by (nonlinear_arith)
        requires
            d + 1 < 32int / w,
            (32int / w) * w <= 32,
            w > 0,
    ;
    lemma_pow_positive(2, width as nat);
    lemma_pow_multiplies(2, width as nat, d);
    lemma_pow_increases(2, width as nat * d, 31);
    lemma2_to64();
}

/// Radix sort in base `2^exp` for a bit width `exp`: one stable pass per
/// digit, isolated with a mask, from the least significant up, while fewer
/// than `32 / exp - 1` passes are made and the largest word exceeds the place
/// value. The result is the stable sort of the input by its part below
/// `(2^exp)^k`, for the `k` passes made.
pub fn radix_sort_bitmask(arr: Vec<u32>, exp: u32) -> (r: Result<Vec<u32>, SortError>)
    requires
        1 <= exp <= 31,
    ensures
        r is Err <==> arr@.len() == 0,
        r matches Ok(out) ==> is_stable_sort_by(
            out@,
            arr@,
            low_key(pow(pow2(exp as nat) as int, mask_passes(seq_max(arr@), exp, 0))),
        ),
{
    if arr.len() == 0 {
        return Err(SortError::EmptyInput);
    }
    let max: u32 = max_of(&arr);
    let ghost inp = arr@;
    let ghost mut perm = identity(inp.len() as int);
    proof {
        lemma_radix_start(inp);
        reveal(pow);
        lemma_pow_increases(2, exp as nat, 31);
        lemma_pow_positive(2, exp as nat);
        lemma2_to64();
    }
    let base_exp: u32 = power(2, exp);
    assert(32u32 / exp >= 1) by (nonlinear_arith)
        requires
            1 <= exp <= 31,
    ;
    let cap: u32 = 32 / exp - 1;
    let mut digit: u32 = 0;
    let mut place: u64 = 1;
    let mut output: Vec<u32> = arr;
    while digit < cap && max as u64 > place
        invariant
            1 <= exp <= 31,
            cap as int == mask_cap(exp),
            base_exp as int == pow2(exp as nat),
            2 <= base_exp <= 0x8000_0000,
            digit <= cap,
            place as int == pow(base_exp as int, digit as nat),
            max == seq_max(inp),
            mask_passes(max, exp, 0) == mask_passes(max, exp, digit as nat),
            stable_sorted_with(output@, inp, perm, low_key(place as int)),
        decreases cap - digit,
    {
        proof {
            lemma_mask_place(exp, digit as nat);
            lemma_pow_positive(base_exp as int, digit as nat);
        }
        let len: usize = output.len();
        let next: Vec<u32> = counting_sort_bitmask(output.as_mut_slice(), len, place as u32, exp);
        proof {
            assert(output@.subrange(0, len as int) =~= output@);
            let q = choose|q: Seq<int>|
                stable_sorted_with(next@, output@, q, digit_key(place as int, base_exp as int));
            lemma_radix_step(inp, output@, next@, perm, q, place as int, base_exp as int);
            perm = compose(perm, q);
            reveal(pow);
            assert(pow(base_exp as int, (digit + 1) as nat) == base_exp * pow(
                base_exp as int,
                digit as nat,
            ));
            assert(place * base_exp <= 0x8000_0000 * 0x8000_0000) by (nonlinear_arith)
                requires
                    place <= 0x8000_0000,
                    base_exp <= 0x8000_0000,
            ;
        }
        output = next;
        place = place * base_exp as u64;
        digit = digit + 1;
    }
    Ok(output)
}

} // verus!
