use radix_sort::mt::MT;
use radix_sort::sort::{
    counting_sort, counting_sort_16, counting_sort_bitmask, radix_sort, radix_sort_16,
    radix_sort_bitmask, SortError,
};

fn sorted_copy(v: &[u32]) -> Vec<u32> {
    let mut s = v.to_vec();
    s.sort();
    s
}

fn draws(seed: u32, n: usize, modulus: u32) -> Vec<u32> {
    let mut g = MT::new(seed);
    (0..n).map(|_| g.next_rand() % modulus).collect()
}

#[test]
fn counting_pass_by_units_digit() {
    let mut a = vec![170, 45, 75, 90, 802, 24, 2, 66];
    let out = counting_sort(&mut a, 8, 10, 0);
    assert_eq!(out, vec![170, 90, 802, 2, 24, 45, 75, 66]);
    assert_eq!(a, vec![170, 45, 75, 90, 802, 24, 2, 66]);
}

#[test]
fn counting_pass_by_tens_digit() {
    let mut a = vec![170, 90, 802, 2, 24, 45, 75, 66];
    let out = counting_sort(&mut a, 8, 10, 1);
    assert_eq!(out, vec![802, 2, 24, 45, 66, 170, 75, 90]);
}

#[test]
fn counting_pass_on_prefix() {
    let mut a = vec![9, 3, 7, 1];
    let out = counting_sort(&mut a, 2, 10, 0);
    assert_eq!(out, vec![3, 9]);
}

#[test]
fn counting_pass_hex_digit() {
    let mut a = vec![0x21, 0x13, 0x32, 0x11];
    assert_eq!(counting_sort_16(&mut a, 4, 0), vec![0x21, 0x11, 0x32, 0x13]);
    assert_eq!(counting_sort_16(&mut a, 4, 1), vec![0x13, 0x11, 0x21, 0x32]);
}

#[test]
fn counting_pass_bitmask_digit() {
    let mut a = vec![0x21, 0x13, 0x32, 0x11];
    assert_eq!(counting_sort_bitmask(&mut a, 4, 1, 4), vec![0x21, 0x11, 0x32, 0x13]);
    assert_eq!(counting_sort_bitmask(&mut a, 4, 16, 4), vec![0x13, 0x11, 0x21, 0x32]);
    assert_eq!(counting_sort_bitmask(&mut a, 4, 1, 1), vec![0x32, 0x21, 0x13, 0x11]);
}

#[test]
fn radix_base_ten_classic() {
    let out = radix_sort(vec![170, 45, 75, 90, 802, 24, 2, 66], 10).unwrap();
    assert_eq!(out, vec![2, 24, 45, 66, 75, 90, 170, 802]);
}

#[test]
fn radix_exact_power_of_base() {
    assert_eq!(radix_sort(vec![100, 7, 10, 1, 0], 10).unwrap(), vec![0, 1, 7, 10, 100]);
    assert_eq!(radix_sort(vec![16, 1], 16).unwrap(), vec![1, 16]);
    assert_eq!(radix_sort(vec![1, 0, 1, 0], 2).unwrap(), vec![0, 0, 1, 1]);
}

#[test]
fn radix_largest_words() {
    let v = vec![u32::MAX, 0, 4_000_000_000, 1, u32::MAX - 1];
    let expect = vec![0, 1, 4_000_000_000, u32::MAX - 1, u32::MAX];
    assert_eq!(radix_sort(v.clone(), 10).unwrap(), expect);
    assert_eq!(radix_sort(v.clone(), 2).unwrap(), expect);
    assert_eq!(radix_sort(v.clone(), 1000).unwrap(), expect);
    assert_eq!(radix_sort_16(v.clone()).unwrap(), expect);
}

#[test]
fn radix_many_bases_sort_random_words() {
    let v = draws(7, 300, u32::MAX);
    let expect = sorted_copy(&v);
    for base in [2u32, 3, 10, 16, 255, 256, 65536] {
        assert_eq!(radix_sort(v.clone(), base).unwrap(), expect);
    }
}

#[test]
fn hex_sort_random_words() {
    let v = draws(99, 500, u32::MAX);
    assert_eq!(radix_sort_16(v.clone()).unwrap(), sorted_copy(&v));
}

#[test]
fn bitmask_sort_small_words() {
    let v = draws(11, 400, 1 << 28);
    let expect = sorted_copy(&v);
    assert_eq!(radix_sort_bitmask(v.clone(), 4).unwrap(), expect);
    assert_eq!(radix_sort_bitmask(v.clone(), 1).unwrap(), expect[..].to_vec());
    let w = draws(12, 300, 1 << 16);
    assert_eq!(radix_sort_bitmask(w.clone(), 8).unwrap(), sorted_copy(&w));
}

#[test]
fn bitmask_sort_stops_at_its_cap() {
    // Width 16 allows a single pass, over the low 16 bits.
    let out = radix_sort_bitmask(vec![0x2_0001, 0x1_0002, 0x3_0000], 16).unwrap();
    assert_eq!(out, vec![0x3_0000, 0x2_0001, 0x1_0002]);
    // Width 20 allows no pass at all.
    assert_eq!(radix_sort_bitmask(vec![5, 3], 20).unwrap(), vec![5, 3]);
}

#[test]
fn hex_sort_stops_at_power_of_sixteen() {
    // The largest word equals the place value of the second digit, so only
    // the units pass is made.
    assert_eq!(radix_sort_16(vec![16, 1]).unwrap(), vec![16, 1]);
    assert_eq!(radix_sort_16(vec![17, 1]).unwrap(), vec![1, 17]);
    assert_eq!(radix_sort_16(vec![16, 0]).unwrap(), vec![16, 0]);
    assert_eq!(radix_sort_16(vec![0, 256, 0, 256]).unwrap(), vec![0, 256, 0, 256]);
    // Zeros before the largest words are in order already.
    assert_eq!(radix_sort_16(vec![0, 0, 256, 256]).unwrap(), vec![0, 0, 256, 256]);
}

#[test]
fn stability_with_tagged_duplicates() {
    // Words whose units digit is a tag: with base 10 and only the tens digit
    // compared, ties keep input order.
    let mut a = vec![31, 12, 33, 14, 35, 16];
    let out = counting_sort(&mut a, 6, 10, 1);
    assert_eq!(out, vec![12, 14, 16, 31, 33, 35]);
    let mut b = vec![35, 12, 33, 16, 31, 14];
    let out = counting_sort(&mut b, 6, 10, 1);
    assert_eq!(out, vec![12, 16, 14, 35, 33, 31]);
}

#[test]
fn stability_on_duplicate_values() {
    let v = vec![5, 3, 5, 1, 3, 5, 0];
    assert_eq!(radix_sort(v.clone(), 10).unwrap(), vec![0, 1, 3, 3, 5, 5, 5]);
    assert_eq!(radix_sort_16(v.clone()).unwrap(), vec![0, 1, 3, 3, 5, 5, 5]);
    assert_eq!(radix_sort_bitmask(v, 4).unwrap(), vec![0, 1, 3, 3, 5, 5, 5]);
}

#[test]
fn sorting_sorted_input_is_identity() {
    let v = sorted_copy(&draws(3, 200, 1 << 28));
    assert_eq!(radix_sort(v.clone(), 10).unwrap(), v);
    assert_eq!(radix_sort_16(v.clone()).unwrap(), v);
    assert_eq!(radix_sort_bitmask(v.clone(), 4).unwrap(), v);
}

#[test]
fn variants_agree_on_same_input() {
    let v = draws(2024, 300, 1 << 28);
    let a = radix_sort(v.clone(), 16).unwrap();
    let b = radix_sort_16(v.clone()).unwrap();
    let c = radix_sort_bitmask(v.clone(), 4).unwrap();
    assert_eq!(a, b);
    assert_eq!(a, c);
}

#[test]
fn single_element_sorts_to_itself() {
    assert_eq!(radix_sort(vec![42], 10).unwrap(), vec![42]);
    assert_eq!(radix_sort_16(vec![42]).unwrap(), vec![42]);
    assert_eq!(radix_sort_bitmask(vec![42], 4).unwrap(), vec![42]);
}

#[test]
fn all_equal_sorts_to_itself() {
    let v = vec![16, 16, 16, 16];
    assert_eq!(radix_sort(v.clone(), 10).unwrap(), v);
    assert_eq!(radix_sort_16(v.clone()).unwrap(), v);
    assert_eq!(radix_sort_bitmask(v.clone(), 4).unwrap(), v);
}

#[test]
fn empty_input_is_rejected() {
    assert_eq!(radix_sort(vec![], 10), Err(SortError::EmptyInput));
    assert_eq!(radix_sort_16(vec![]), Err(SortError::EmptyInput));
    assert_eq!(radix_sort_bitmask(vec![], 4), Err(SortError::EmptyInput));
}

#[test]
fn zeros_only() {
    assert_eq!(radix_sort(vec![0, 0, 0], 10).unwrap(), vec![0, 0, 0]);
    assert_eq!(radix_sort_16(vec![0, 0]).unwrap(), vec![0, 0]);
}

#[test]
fn seeded_draws_sorted_in_base_ten() {
    let v = draws(1234, 10, 100000);
    assert_eq!(
        v,
        vec![39170, 46538, 82362, 44111, 74516, 48330, 19071, 64975, 75294, 57411]
    );
    let out = radix_sort(v.clone(), 10).unwrap();
    assert_eq!(
        out,
        vec![19071, 39170, 44111, 46538, 48330, 57411, 64975, 74516, 75294, 82362]
    );
    assert_eq!(out, sorted_copy(&v));
}
