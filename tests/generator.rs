use radix_sort::mt::MT;

#[test]
fn first_draws_for_seed_1234() {
    let mut g = MT::new(1234);
    let got: Vec<u32> = (0..10).map(|_| g.next_rand()).collect();
    assert_eq!(
        got,
        vec![
            574639170, 1550046538, 251382362, 4062644111, 292974516, 571348330, 1832619071,
            90964975, 1704875294, 380557411
        ]
    );
}

#[test]
fn seed_zero_first_draws() {
    let mut g = MT::new(0);
    assert_eq!(g.next_rand(), 0);
    assert_eq!(g.next_rand(), 4194449);
    assert_eq!(g.next_rand(), 1288460453);
}

#[test]
fn draws_across_regeneration() {
    let mut g = MT::new(1234);
    let got: Vec<u32> = (0..626).map(|_| g.next_rand()).collect();
    assert_eq!(&got[623..626], &[3457734850, 822569775, 2137449171]);
}

#[test]
fn twist_matches_reference_output() {
    // After one twist the seed 5489 gives the well-known first outputs.
    let mut g = MT::new(5489);
    g.twist();
    assert_eq!(g.next_rand(), 3499211612);
    assert_eq!(g.next_rand(), 581869302);
    assert_eq!(g.next_rand(), 3890346734);
}

#[test]
fn same_seed_same_sequence() {
    let mut a = MT::new(6969420);
    let mut b = MT::new(6969420);
    for _ in 0..2000 {
        assert_eq!(a.next_rand(), b.next_rand());
    }
}

#[test]
fn different_seeds_differ() {
    let mut a = MT::new(1);
    let mut b = MT::new(2);
    let xs: Vec<u32> = (0..8).map(|_| a.next_rand()).collect();
    let ys: Vec<u32> = (0..8).map(|_| b.next_rand()).collect();
    assert_ne!(xs, ys);
}

#[test]
fn many_draws_do_not_panic() {
    let mut g = MT::new(42);
    let mut acc: u64 = 0;
    for _ in 0..5000 {
        acc = acc.wrapping_add(g.next_rand() as u64);
    }
    assert!(acc > 0);
}

#[test]
fn interleaved_draws_match_program_run() {
    let mut g = MT::new(6969420);
    let mut arr = vec![0u32; 20];
    let mut arr2 = vec![0u32; 20];
    for i in 0..20 {
        arr[i] = g.next_rand();
        arr2[i] = g.next_rand();
    }
    assert_eq!(arr[0], 1048598567);
    assert_eq!(arr2[0], 643459035);
    assert_eq!(arr[19], 4264314859);
    assert_eq!(arr2[19], 1505260762);
}
