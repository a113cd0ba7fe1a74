use ein_infer::mt19937::Mt19937;

/// The first words `random.Random(seed).getrandbits(32)` produces,
/// including a seed wider than one word and a negative one.
#[test]
fn the_first_draws_match_cpython() {
    for (seed, want) in [
        (0i64, [3_626_764_237u32, 1_654_615_998, 3_255_389_356]),
        (42, [2_746_317_213, 478_163_327, 107_420_369]),
        (-7, [1_390_851_128, 4_071_050_724, 647_892_279]),
        (
            12_345_678_901_234,
            [107_551_873, 2_403_399_316, 624_174_316],
        ),
    ] {
        let mut r = Mt19937::seeded(seed);
        let got = [r.genrand_uint32(), r.genrand_uint32(), r.genrand_uint32()];
        assert_eq!(got, want, "seed {seed}");
    }
}

/// `shuffle` itself, and that one generator carries its state across two
/// shuffles.
#[test]
fn shuffle_matches_cpython_and_carries_state() {
    let mut r = Mt19937::seeded(42);
    let mut x: Vec<u32> = (0..10).collect();
    r.shuffle(&mut x);
    assert_eq!(x, [7, 3, 2, 8, 5, 6, 9, 4, 0, 1]);
    let mut y: Vec<u32> = (0..5).collect();
    r.shuffle(&mut y);
    assert_eq!(y, [1, 2, 0, 3, 4]);
}

#[test]
fn a_negative_seed_is_its_magnitude() {
    let mut a = Mt19937::seeded(-5);
    let mut b = Mt19937::seeded(5);
    for _ in 0..700 {
        assert_eq!(a.genrand_uint32(), b.genrand_uint32());
    }
}

#[test]
fn shuffling_keeps_every_element() {
    let mut r = Mt19937::seeded(7);
    let mut x: Vec<u32> = (0..50).collect();
    r.shuffle(&mut x);
    let mut sorted = x.clone();
    sorted.sort();
    assert_eq!(sorted, (0..50).collect::<Vec<u32>>());
    assert_ne!(x, (0..50).collect::<Vec<u32>>());
}

#[test]
fn shuffling_short_lists_draws_nothing() {
    let mut r = Mt19937::seeded(3);
    let mut empty: Vec<u32> = Vec::new();
    r.shuffle(&mut empty);
    let mut one = vec![9u32];
    r.shuffle(&mut one);
    assert_eq!(one, [9]);
    let mut fresh = Mt19937::seeded(3);
    assert_eq!(r.genrand_uint32(), fresh.genrand_uint32());
}

/// `getrandbits(0)` draws nothing; `getrandbits(k)` for `k <= 32` is the
/// top `k` bits of one word; above 32 bits the low word comes first.
#[test]
fn getrandbits_takes_the_top_bits_of_its_words() {
    let mut a = Mt19937::seeded(42);
    let mut b = Mt19937::seeded(42);
    assert_eq!(a.getrandbits(0), 0);
    assert_eq!(a.genrand_uint32(), b.genrand_uint32(), "no word was drawn");
    let w = b.genrand_uint32();
    assert_eq!(a.getrandbits(5), (w >> 27) as u64);
    let lo = b.genrand_uint32() as u64;
    let hi = (b.genrand_uint32() >> 24) as u64;
    assert_eq!(a.getrandbits(40), lo | (hi << 32));
    for k in 1..64u32 {
        assert!(a.getrandbits(k) < (1u64 << k));
    }
}

/// `randbelow(0)` is 0 and draws nothing; otherwise the answer is below `n`.
#[test]
fn randbelow_stays_below_its_bound() {
    let mut a = Mt19937::seeded(7);
    let mut b = Mt19937::seeded(7);
    assert_eq!(a.randbelow(0), 0);
    assert_eq!(a.genrand_uint32(), b.genrand_uint32());
    for n in 1..200usize {
        assert!(a.randbelow(n) < n);
    }
}

/// Two generators in one state shuffle two lists of one length by the same
/// permutation.
#[test]
fn equal_states_shuffle_alike() {
    let mut a = Mt19937::seeded(3);
    let mut b = Mt19937::seeded(3);
    let mut idx: Vec<usize> = (0..12).collect();
    let letters: Vec<char> = "abcdefghijkl".chars().collect();
    let mut x = letters.clone();
    a.shuffle(&mut idx);
    b.shuffle(&mut x);
    let via: Vec<char> = idx.iter().map(|&i| letters[i]).collect();
    assert_eq!(x, via);
    assert_eq!(a.genrand_uint32(), b.genrand_uint32(), "and end in one state");
}
