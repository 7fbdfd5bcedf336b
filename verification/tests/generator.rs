use zhl_algorithm_template_rs::random::generator::{
    seed_of_micros, Pseudorandom64, MT19937_64,
};

#[test]
fn same_seed_gives_same_stream() {
    let mut a = MT19937_64::new(Some(42));
    let mut b = MT19937_64::new(Some(42));
    for _ in 0..1000 {
        assert_eq!(a.gen(), b.gen());
    }
}

#[test]
fn seed_zero_first_output_is_pinned() {
    let mut rng = MT19937_64::new(Some(0));
    assert_eq!(rng.gen(), 2947667278772165694);
}

#[test]
fn seed_zero_first_outputs() {
    let mut rng = MT19937_64::new(Some(0));
    let expected: [u64; 5] = [
        2947667278772165694,
        18301848765998365067,
        729919693006235833,
        11021831128136023278,
        10003392056472839596,
    ];
    for e in expected {
        assert_eq!(rng.gen(), e);
    }
}

#[test]
fn default_seed_of_the_algorithm_gives_its_published_outputs() {
    let mut rng = MT19937_64::new(Some(5489));
    let first = rng.gen();
    assert_eq!(first, 14514284786278117030);
    let mut last = first;
    for _ in 1..10000 {
        last = rng.gen();
    }
    assert_eq!(last, 9981545732273789042);
}

#[test]
fn twist_happens_transparently_across_blocks() {
    let mut a = MT19937_64::new(Some(9));
    let mut b = MT19937_64::new(Some(9));
    for _ in 0..311 {
        a.gen();
        b.gen();
    }
    for _ in 0..700 {
        assert_eq!(a.gen(), b.gen());
    }
}

#[test]
fn different_seeds_give_different_streams() {
    let mut a = MT19937_64::new(Some(1));
    let mut b = MT19937_64::new(Some(2));
    let xs: Vec<u64> = (0..8).map(|_| a.gen()).collect();
    let ys: Vec<u64> = (0..8).map(|_| b.gen()).collect();
    assert_ne!(xs, ys);
}

#[test]
fn reseeding_restarts_the_stream() {
    let mut rng = MT19937_64::new(Some(3));
    for _ in 0..500 {
        rng.gen();
    }
    rng.seed(0);
    assert_eq!(rng.gen(), 2947667278772165694);
    assert_eq!(rng.gen(), 18301848765998365067);
}

#[test]
fn clone_duplicates_the_future_outputs() {
    let mut a = MT19937_64::new(Some(77));
    for _ in 0..100 {
        a.gen();
    }
    let mut b = a.clone();
    for _ in 0..1000 {
        assert_eq!(a.gen(), b.gen());
    }
}

#[test]
fn clock_seeded_generator_produces_a_stream() {
    let mut rng = MT19937_64::new(None);
    let mut copy = rng.clone();
    for _ in 0..400 {
        assert_eq!(rng.gen(), copy.gen());
    }
}

#[test]
fn clock_reading_is_cut_to_a_seed() {
    assert_eq!(seed_of_micros(None), 0);
    assert_eq!(seed_of_micros(Some(0)), 0);
    assert_eq!(seed_of_micros(Some(1_700_000_000_000_000)), 1_700_000_000_000_000);
    assert_eq!(seed_of_micros(Some(u64::MAX as u128)), u64::MAX);
    assert_eq!(seed_of_micros(Some((1 << 64) + 5)), 5);
    assert_eq!(seed_of_micros(Some(u128::MAX)), u64::MAX);
}
