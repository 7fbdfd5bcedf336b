use zhl_algorithm_template_rs::random::generator::{
    ConstantSource, IntGenerator, Pseudorandom64, MT19937_64,
};
use zhl_algorithm_template_rs::random::model::SampleError;

/// A sampler over words that have all bits set.
fn stuck() -> IntGenerator<ConstantSource> {
    IntGenerator::new(&ConstantSource::new(Some(u64::MAX)))
}

fn sampler(seed: u64) -> IntGenerator<MT19937_64> {
    IntGenerator::new(&MT19937_64::new(Some(seed)))
}

#[test]
fn bytes_are_cut_from_one_word_lowest_first() {
    let mut words = MT19937_64::new(Some(0));
    let mut gen = sampler(0);
    for _ in 0..5 {
        let w = words.gen();
        for k in 0..8 {
            assert_eq!(gen.gen_u8(), ((w >> (8 * k)) & 0xff) as u8);
        }
    }
}

#[test]
fn first_bytes_of_seed_zero() {
    let mut gen = sampler(0);
    let got: Vec<u8> = (0..10).map(|_| gen.gen_u8()).collect();
    assert_eq!(got, vec![62, 220, 65, 203, 197, 55, 232, 40, 139, 249]);
}

#[test]
fn shorts_are_cut_from_one_word_lowest_first() {
    let mut words = MT19937_64::new(Some(0));
    let mut gen = sampler(0);
    for _ in 0..5 {
        let w = words.gen();
        for k in 0..4 {
            assert_eq!(gen.gen_u16(), ((w >> (16 * k)) & 0xffff) as u16);
        }
    }
}

#[test]
fn halves_are_cut_from_one_word_lowest_first() {
    let mut words = MT19937_64::new(Some(0));
    let mut gen = sampler(0);
    for _ in 0..5 {
        let w = words.gen();
        assert_eq!(gen.gen_u32(), (w & 0xffff_ffff) as u32);
        assert_eq!(gen.gen_u32(), (w >> 32) as u32);
    }
}

#[test]
fn first_narrow_values_of_seed_zero() {
    let mut gen = sampler(0);
    let shorts: Vec<u16> = (0..5).map(|_| gen.gen_u16()).collect();
    assert_eq!(shorts, vec![56382, 52033, 14277, 10472, 63883]);
    let mut gen = sampler(0);
    let halves: Vec<u32> = (0..3).map(|_| gen.gen_u32()).collect();
    assert_eq!(halves, vec![3410091070, 686307269, 1044445579]);
}

#[test]
fn each_width_has_its_own_buffer() {
    let mut words = MT19937_64::new(Some(5));
    let w0 = words.gen();
    let w1 = words.gen();
    let w2 = words.gen();
    let w3 = words.gen();
    let mut gen = sampler(5);
    assert_eq!(gen.gen_u8(), (w0 & 0xff) as u8);
    assert_eq!(gen.gen_u16(), (w1 & 0xffff) as u16);
    assert_eq!(gen.gen_u32(), (w2 & 0xffff_ffff) as u32);
    assert_eq!(gen.gen_u8(), ((w0 >> 8) & 0xff) as u8);
    assert_eq!(gen.gen_u16(), ((w1 >> 16) & 0xffff) as u16);
    assert_eq!(gen.gen_u32(), (w2 >> 32) as u32);
    assert_eq!(gen.gen_u64(), w3);
}

#[test]
fn wide_values_are_whole_words() {
    let mut words = MT19937_64::new(Some(0));
    let mut gen = sampler(0);
    let w0 = words.gen();
    assert_eq!(gen.gen_u64(), w0);
    let hi = words.gen();
    let lo = words.gen();
    assert_eq!(gen.gen_u128(), ((hi as u128) << 64) | lo as u128);
    let mut gen = sampler(0);
    assert_eq!(gen.gen_u128(), 54374863905958008332553393091995826571);
}

#[test]
fn pointer_sized_value_is_a_draw_of_pointer_width() {
    let mut words = MT19937_64::new(Some(11));
    let mut gen = sampler(11);
    let w = words.gen();
    if usize::BITS == 64 {
        assert_eq!(gen.gen_usize() as u64, w);
    } else {
        assert_eq!(gen.gen_usize() as u64, w & 0xffff_ffff);
    }
}

#[test]
fn signed_values_are_unsigned_values_shifted_by_half() {
    let mut a = sampler(21);
    let mut b = sampler(21);
    for _ in 0..100 {
        assert_eq!(a.gen_i8() as i32, b.gen_u8() as i32 - 128);
        assert_eq!(a.gen_i16() as i32, b.gen_u16() as i32 - 32768);
        assert_eq!(a.gen_i32() as i64, b.gen_u32() as i64 - 2147483648);
        assert_eq!(a.gen_i64() as i128, b.gen_u64() as i128 - 9223372036854775808);
        let u = b.gen_u128();
        let s = a.gen_i128();
        if u >= 1 << 127 {
            assert_eq!(s as u128, u - (1 << 127));
        } else {
            assert_eq!(s, u as i128 - i128::MAX - 1);
        }
    }
}

#[test]
fn sampler_works_on_a_clone_of_the_generator() {
    let mut rng = MT19937_64::new(Some(3));
    let mut gen = IntGenerator::new(&rng);
    let first = rng.gen();
    assert_eq!(gen.gen_u64(), first);
    let mut twin = gen.clone();
    for _ in 0..50 {
        assert_eq!(gen.gen_u8(), twin.gen_u8());
        assert_eq!(gen.gen_u64(), twin.gen_u64());
    }
}

#[test]
fn ranged_samples_stay_in_range_for_every_width() {
    let mut gen = sampler(1);
    for _ in 0..20000 {
        let x = gen.gen_range_u8(100u8..200u8).unwrap();
        assert!(x >= 100 && x < 200);
        let x = gen.gen_range_u16(10000u16..20000u16).unwrap();
        assert!(x >= 10000 && x < 20000);
        let x = gen.gen_range_u32(1000000u32..2000000u32).unwrap();
        assert!(x >= 1000000 && x < 2000000);
        let x = gen.gen_range_u64(100000000u64..200000000u64).unwrap();
        assert!(x >= 100000000 && x < 200000000);
        let x = gen.gen_range_u128(10000000000u128..20000000000u128).unwrap();
        assert!(x >= 10000000000 && x < 20000000000);
        let x = gen.gen_range_i8(-100i8..100i8).unwrap();
        assert!(x >= -100 && x < 100);
        let x = gen.gen_range_i16(-10000i16..10000i16).unwrap();
        assert!(x >= -10000 && x < 10000);
        let x = gen.gen_range_i32(-1000000i32..1000000i32).unwrap();
        assert!(x >= -1000000 && x < 1000000);
        let x = gen.gen_range_i64(-100000000i64..100000000i64).unwrap();
        assert!(x >= -100000000 && x < 100000000);
        let x = gen.gen_range_i128(-10000000000i128..10000000000i128).unwrap();
        assert!(x >= -10000000000 && x < 10000000000);
        let x = gen.gen_range_usize(100usize..200usize).unwrap();
        assert!(x >= 100 && x < 200);
    }
}

#[test]
fn ranged_samples_reach_the_ends_of_the_type() {
    let mut gen = sampler(2);
    let mut low = false;
    let mut high = false;
    for _ in 0..5000 {
        let x = gen.gen_range_i8(i8::MIN..i8::MAX).unwrap();
        assert!(x < i8::MAX);
        low |= x == i8::MIN;
        high |= x == i8::MAX - 1;
    }
    assert!(low && high);
    for _ in 0..100 {
        let x = gen.gen_range_u128(0..u128::MAX).unwrap();
        assert!(x < u128::MAX);
        let y = gen.gen_range_i128(i128::MIN..i128::MAX).unwrap();
        assert!(y < i128::MAX);
        let z = gen.gen_range_u64(u64::MAX - 2..u64::MAX).unwrap();
        assert!(z >= u64::MAX - 2 && z < u64::MAX);
    }
}

#[test]
fn ranged_samples_of_seed_zero() {
    let mut gen = sampler(0);
    let got: Vec<u8> = (0..8).map(|_| gen.gen_range_u8(100..200).unwrap()).collect();
    assert_eq!(got, vec![162, 165, 197, 155, 140, 139, 164, 162]);
    let mut gen = sampler(0);
    let got: Vec<u64> = (0..5).map(|_| gen.gen_range_u64(10..17).unwrap()).collect();
    assert_eq!(got, vec![13, 13, 13, 16, 15]);
    let mut gen = sampler(0);
    let got: Vec<i32> = (0..6).map(|_| gen.gen_range_i32(-5..5).unwrap()).collect();
    assert_eq!(got, vec![-5, 4, 4, 3, 2, -4]);
    let mut gen = sampler(0);
    let lo: u128 = 1_000_000_000_000_000_000_000_000_000_000;
    let hi: u128 = lo + 10_000_000_000_000_000_000_000_000;
    assert_eq!(gen.gen_range_u128(lo..hi).unwrap(), 1000008008332553393091995826571);
    assert_eq!(gen.gen_range_u128(lo..hi).unwrap(), 1000006676113177597470518279406);
}

#[test]
fn rejected_draw_is_redrawn_not_reduced() {
    // The first byte of seed 0 is 62 and the second 220. For a range of
    // 200 values, draws from 200 on are turned down.
    let mut gen = sampler(0);
    assert_eq!(gen.gen_range_u8(0..200).unwrap(), 62);
    assert_eq!(gen.gen_range_u8(0..200).unwrap(), 65);
}

#[test]
fn empty_range_is_refused() {
    let mut gen = sampler(4);
    assert_eq!(gen.gen_range_u8(5..5), Err(SampleError::InvalidRange));
    assert_eq!(gen.gen_range_u8(6..5), Err(SampleError::InvalidRange));
    assert_eq!(gen.gen_range_i8(5..-5), Err(SampleError::InvalidRange));
    assert_eq!(gen.gen_range_u16(9..9), Err(SampleError::InvalidRange));
    assert_eq!(gen.gen_range_i16(0..0), Err(SampleError::InvalidRange));
    assert_eq!(gen.gen_range_u32(9..1), Err(SampleError::InvalidRange));
    assert_eq!(gen.gen_range_i32(1..-1), Err(SampleError::InvalidRange));
    assert_eq!(gen.gen_range_u64(9..9), Err(SampleError::InvalidRange));
    assert_eq!(gen.gen_range_i64(9..9), Err(SampleError::InvalidRange));
    assert_eq!(gen.gen_range_u128(9..9), Err(SampleError::InvalidRange));
    assert_eq!(gen.gen_range_i128(9..9), Err(SampleError::InvalidRange));
    assert_eq!(gen.gen_range_usize(9..9), Err(SampleError::InvalidRange));
}

#[test]
fn range_of_one_value_takes_no_draw() {
    let mut gen = sampler(0);
    assert_eq!(gen.gen_range_u8(7..8), Ok(7));
    assert_eq!(gen.gen_range_i64(-3..-2), Ok(-3));
    assert_eq!(gen.gen_range_u128(u128::MAX - 1..u128::MAX), Ok(u128::MAX - 1));
    assert_eq!(gen.gen_range_usize(0..1), Ok(0));
    assert_eq!(gen.gen_u64(), 2947667278772165694);
    assert_eq!(gen.gen_u8(), (18301848765998365067u64 & 0xff) as u8);
}

#[test]
fn seven_values_over_a_byte_come_equally_often() {
    let mut gen = sampler(12345);
    let draws = 70000;
    let mut count = [0u32; 7];
    for _ in 0..draws {
        let x = gen.gen_range_u8(0..7).unwrap();
        count[x as usize] += 1;
    }
    let expected = draws as f64 / 7.0;
    let mut chi = 0.0f64;
    for c in count {
        let d = c as f64 - expected;
        chi += d * d / expected;
    }
    // Six degrees of freedom: 22.46 is the 0.1% point.
    assert!(chi < 22.46, "chi-square {}", chi);
}

#[test]
fn signed_range_comes_equally_often() {
    let mut gen = sampler(99);
    let draws = 60000;
    let mut count = [0u32; 6];
    for _ in 0..draws {
        let x = gen.gen_range_i16(-3..3).unwrap();
        count[(x + 3) as usize] += 1;
    }
    for c in count {
        assert!(c > 9400 && c < 10600, "count {}", c);
    }
}

#[test]
fn retry_limit_is_reported() {
    let mut gen = stuck();
    assert_eq!(gen.gen_range_u8(0..7), Err(SampleError::RetryLimit));
    assert_eq!(gen.gen_range_u64(0..3), Err(SampleError::RetryLimit));
    assert_eq!(gen.gen_range_k_u8(0..7, 2, true), Err(SampleError::RetryLimit));
    assert_eq!(gen.gen_range_k_u8(0..70, 2, false), Err(SampleError::RetryLimit));
    let mut d = vec![1, 2, 3];
    assert_eq!(gen.random_shuffle(&mut d), Err(SampleError::RetryLimit));
    assert_eq!(d, vec![1, 2, 3]);
}

#[test]
fn stuck_generator_still_serves_ranges_that_divide_the_width() {
    let mut gen = stuck();
    assert_eq!(gen.gen_range_u8(0..4), Ok(3));
    assert_eq!(gen.gen_range_u16(10..26), Ok(25));
    // Every sample is the same, so a second distinct one never comes.
    assert_eq!(gen.gen_range_k_u8(0..64, 2, false), Err(SampleError::RetryLimit));
}

#[test]
fn k_samples_with_repeats() {
    let mut gen = sampler(7);
    assert_eq!(gen.gen_range_k_u16(10..13, 6, true).unwrap(), vec![10, 11, 10, 12, 10, 10]);
    let got = gen.gen_range_k_i64(-2..2, 1000, true).unwrap();
    assert_eq!(got.len(), 1000);
    assert!(got.iter().all(|&x| x >= -2 && x < 2));
    assert_eq!(gen.gen_range_k_u8(0..1, 3, true).unwrap(), vec![0, 0, 0]);
    assert_eq!(gen.gen_range_k_u8(0..9, 0, true).unwrap(), Vec::<u8>::new());
}

#[test]
fn k_distinct_samples_from_a_large_range() {
    let mut gen = sampler(7);
    assert_eq!(
        gen.gen_range_k_u32(1000..2000, 5, false).unwrap(),
        vec![1151, 1209, 1730, 1620, 1766]
    );
}

#[test]
fn k_distinct_samples_from_a_small_range() {
    let mut gen = sampler(7);
    assert_eq!(gen.gen_range_k_u8(10..20, 4, false).unwrap(), vec![10, 17, 14, 19]);
}

#[test]
fn k_distinct_samples_are_distinct_for_every_width() {
    let mut gen = sampler(8);
    for k in [0usize, 1, 3, 10, 19, 20] {
        let mut got = gen.gen_range_k_u8(100..120, k, false).unwrap();
        assert_eq!(got.len(), k);
        assert!(got.iter().all(|&x| x >= 100 && x < 120));
        got.sort();
        got.dedup();
        assert_eq!(got.len(), k);
    }
    let mut got = gen.gen_range_k_i8(-100..100, 30, false).unwrap();
    assert!(got.iter().all(|&x| x >= -100 && x < 100));
    got.sort();
    got.dedup();
    assert_eq!(got.len(), 30);
    let mut got = gen.gen_range_k_u16(10000..20000, 10, false).unwrap();
    got.sort();
    got.dedup();
    assert_eq!(got.len(), 10);
    let mut got = gen.gen_range_k_i16(-5..5, 10, false).unwrap();
    got.sort();
    assert_eq!(got, vec![-5, -4, -3, -2, -1, 0, 1, 2, 3, 4]);
    let mut got = gen.gen_range_k_i32(-1000000..1000000, 10, false).unwrap();
    got.sort();
    got.dedup();
    assert_eq!(got.len(), 10);
    let mut got = gen.gen_range_k_u64(5..12, 6, false).unwrap();
    assert!(got.iter().all(|&x| x >= 5 && x < 12));
    got.sort();
    got.dedup();
    assert_eq!(got.len(), 6);
    let mut got = gen.gen_range_k_i64(-100000000..100000000, 10, false).unwrap();
    got.sort();
    got.dedup();
    assert_eq!(got.len(), 10);
    let mut got = gen.gen_range_k_u128(10000000000..20000000000, 10, false).unwrap();
    got.sort();
    got.dedup();
    assert_eq!(got.len(), 10);
    let mut got = gen.gen_range_k_i128(-3..4, 7, false).unwrap();
    got.sort();
    assert_eq!(got, vec![-3, -2, -1, 0, 1, 2, 3]);
    let mut got = gen.gen_range_k_usize(100..200, 10, false).unwrap();
    got.sort();
    got.dedup();
    assert_eq!(got.len(), 10);
}

#[test]
fn k_samples_refuse_bad_ranges() {
    let mut gen = sampler(9);
    assert_eq!(gen.gen_range_k_u8(5..5, 0, true), Err(SampleError::InvalidRange));
    assert_eq!(gen.gen_range_k_u8(5..5, 3, false), Err(SampleError::InvalidRange));
    assert_eq!(gen.gen_range_k_i32(5..-5, 3, true), Err(SampleError::InvalidRange));
    assert_eq!(gen.gen_range_k_u8(5..8, 4, false), Err(SampleError::RangeTooSmall));
    assert_eq!(gen.gen_range_k_i8(-1..1, 3, false), Err(SampleError::RangeTooSmall));
    assert_eq!(gen.gen_range_k_u16(5..8, 4, false), Err(SampleError::RangeTooSmall));
    assert_eq!(gen.gen_range_k_i16(5..8, 4, false), Err(SampleError::RangeTooSmall));
    assert_eq!(gen.gen_range_k_u32(5..8, 4, false), Err(SampleError::RangeTooSmall));
    assert_eq!(gen.gen_range_k_u64(5..8, 4, false), Err(SampleError::RangeTooSmall));
    assert_eq!(gen.gen_range_k_i64(5..8, 4, false), Err(SampleError::RangeTooSmall));
    assert_eq!(gen.gen_range_k_u128(5..8, 4, false), Err(SampleError::RangeTooSmall));
    assert_eq!(gen.gen_range_k_i128(5..8, 4, false), Err(SampleError::RangeTooSmall));
    assert_eq!(gen.gen_range_k_usize(5..8, 4, false), Err(SampleError::RangeTooSmall));
    assert_eq!(gen.gen_range_k_u8(5..8, 4, true).unwrap().len(), 4);
    assert_eq!(gen.gen_range_k_u8(5..8, 3, false).unwrap().len(), 3);
}

#[test]
fn shuffle_of_seed_seven() {
    let mut gen = sampler(7);
    let mut d: Vec<usize> = (0..10).collect();
    assert_eq!(gen.random_shuffle(&mut d), Ok(()));
    if usize::BITS == 64 {
        assert_eq!(d, vec![0, 7, 4, 9, 3, 1, 2, 8, 6, 5]);
    }
}

#[test]
fn shuffle_gives_a_permutation() {
    let mut gen = sampler(10);
    for len in 0..40usize {
        let given: Vec<u32> = (0..len as u32).map(|x| x % 7).collect();
        let mut d = given.clone();
        gen.random_shuffle(&mut d).unwrap();
        assert_eq!(d.len(), len);
        let mut a = given.clone();
        let mut b = d.clone();
        a.sort();
        b.sort();
        assert_eq!(a, b);
    }
}

#[test]
fn shuffle_of_short_slices_takes_no_draw() {
    let mut gen = sampler(0);
    let mut none: Vec<u8> = vec![];
    let mut one = vec![5u8];
    gen.random_shuffle(&mut none).unwrap();
    gen.random_shuffle(&mut one).unwrap();
    assert_eq!(one, vec![5]);
    assert_eq!(gen.gen_u64(), 2947667278772165694);
}

#[test]
fn every_permutation_of_three_comes_nearly_equally_often() {
    let mut gen = sampler(31337);
    let trials = 60000;
    let mut count = [0u32; 6];
    for _ in 0..trials {
        let mut d = [0u8, 1, 2];
        gen.random_shuffle(&mut d).unwrap();
        let code = match d {
            [0, 1, 2] => 0,
            [0, 2, 1] => 1,
            [1, 0, 2] => 2,
            [1, 2, 0] => 3,
            [2, 0, 1] => 4,
            [2, 1, 0] => 5,
            _ => unreachable!(),
        };
        count[code] += 1;
    }
    for c in count {
        assert!(c > 9400 && c < 10600, "count {}", c);
    }
}

#[test]
fn pick_one_returns_a_value_of_the_vector() {
    let mut gen = sampler(13);
    let d = vec![10u32, 20, 30, 40];
    let mut seen = [false; 4];
    for _ in 0..200 {
        let x = gen.gen_from_vec(&d).unwrap();
        let at = d.iter().position(|&y| y == x).unwrap();
        seen[at] = true;
    }
    assert!(seen.iter().all(|&s| s));
    let empty: Vec<u32> = vec![];
    assert_eq!(gen.gen_from_vec(&empty), Err(SampleError::InvalidRange));
    assert_eq!(gen.gen_from_vec(&vec![9u8]), Ok(9));
}

#[test]
fn pick_one_follows_the_sampled_position() {
    let mut a = sampler(14);
    let mut b = sampler(14);
    let d: Vec<String> = (0..50).map(|i| format!("v{}", i)).collect();
    for _ in 0..100 {
        let at = a.gen_range_usize(0..d.len()).unwrap();
        assert_eq!(b.gen_from_vec(&d).unwrap(), d[at]);
    }
}

#[test]
fn pick_k_without_repeats_gives_distinct_positions() {
    let mut gen = sampler(7);
    let d: Vec<usize> = (0..10).map(|i| i * 10).collect();
    let got = gen.gen_from_vec_k(&d, 5, false).unwrap();
    if usize::BITS == 64 {
        assert_eq!(got, vec![0, 70, 40, 90, 30]);
    }
    for k in 0..=10 {
        let mut got = gen.gen_from_vec_k(&d, k, false).unwrap();
        assert_eq!(got.len(), k);
        assert!(got.iter().all(|x| d.contains(x)));
        got.sort();
        got.dedup();
        assert_eq!(got.len(), k);
    }
}

#[test]
fn pick_k_with_repeats() {
    let mut gen = sampler(15);
    let d = vec!['a', 'b', 'c'];
    let got = gen.gen_from_vec_k(&d, 20, true).unwrap();
    assert_eq!(got.len(), 20);
    assert!(got.iter().all(|x| d.contains(x)));
    let empty: Vec<char> = vec![];
    assert_eq!(gen.gen_from_vec_k(&empty, 2, true), Err(SampleError::InvalidRange));
    assert_eq!(gen.gen_from_vec_k(&empty, 0, false), Err(SampleError::InvalidRange));
}

#[test]
fn pick_k_of_more_than_there_are_is_refused() {
    let mut gen = sampler(16);
    let d = vec![1, 2, 3];
    assert_eq!(gen.gen_from_vec_k(&d, 4, false), Err(SampleError::RangeTooSmall));
    let empty: Vec<i32> = vec![];
    assert_eq!(gen.gen_from_vec_k(&empty, 1, false), Err(SampleError::RangeTooSmall));
    assert_eq!(gen.gen_from_vec_k(&d, 3, false).unwrap().len(), 3);
}

#[test]
fn partition_of_seed_seven() {
    if usize::BITS != 64 {
        return;
    }
    let d: Vec<u32> = (0..10).collect();
    let mut gen = sampler(7);
    assert_eq!(
        gen.split_vec_k(&d, 4, true).unwrap(),
        vec![vec![], vec![0, 1, 2, 3, 4, 5, 6], vec![7, 8], vec![9]]
    );
    let mut gen = sampler(7);
    assert_eq!(
        gen.split_vec_k(&d, 4, false).unwrap(),
        vec![vec![0, 1, 2, 3], vec![4], vec![5, 6, 7], vec![8, 9]]
    );
}

#[test]
fn partition_without_empty_parts() {
    let mut gen = sampler(17);
    for len in 1..30usize {
        let d: Vec<usize> = (0..len).collect();
        for k in 1..=len {
            let parts = gen.split_vec_k(&d, k, false).unwrap();
            assert_eq!(parts.len(), k);
            assert!(parts.iter().all(|p| !p.is_empty()));
            assert_eq!(parts.concat(), d);
        }
    }
}

#[test]
fn partition_with_empty_parts() {
    let mut gen = sampler(18);
    for len in 0..12usize {
        let d: Vec<usize> = (0..len).collect();
        for k in 1..20 {
            let parts = gen.split_vec_k(&d, k, true).unwrap();
            assert_eq!(parts.len(), k);
            assert_eq!(parts.concat(), d);
        }
    }
}

#[test]
fn partition_into_more_parts_than_values_is_refused() {
    let mut gen = sampler(19);
    let d = vec![1, 2, 3];
    assert_eq!(gen.split_vec_k(&d, 4, false), Err(SampleError::RangeTooSmall));
    let empty: Vec<i32> = vec![];
    assert_eq!(gen.split_vec_k(&empty, 1, false), Err(SampleError::RangeTooSmall));
    assert_eq!(gen.split_vec_k(&empty, 3, true).unwrap(), vec![vec![], vec![], vec![]]);
    assert_eq!(gen.split_vec_k(&d, 3, false).unwrap(), vec![vec![1], vec![2], vec![3]]);
    assert_eq!(gen.split_vec_k(&vec![8], 1, false).unwrap(), vec![vec![8]]);
}

#[test]
fn generic_draws_agree_with_the_typed_ones() {
    let mut a = sampler(23);
    let mut b = sampler(23);
    for _ in 0..50 {
        assert_eq!(a.gen::<u8>(), b.gen_u8());
        assert_eq!(a.gen::<i8>(), b.gen_i8());
        assert_eq!(a.gen::<u16>(), b.gen_u16());
        assert_eq!(a.gen::<i16>(), b.gen_i16());
        assert_eq!(a.gen::<u32>(), b.gen_u32());
        assert_eq!(a.gen::<i32>(), b.gen_i32());
        assert_eq!(a.gen::<u64>(), b.gen_u64());
        assert_eq!(a.gen::<i64>(), b.gen_i64());
        assert_eq!(a.gen::<u128>(), b.gen_u128());
        assert_eq!(a.gen::<i128>(), b.gen_i128());
        assert_eq!(a.gen::<usize>(), b.gen_usize());
    }
}

#[test]
fn generic_ranges_agree_with_the_typed_ones() {
    let mut a = sampler(24);
    let mut b = sampler(24);
    for _ in 0..50 {
        assert_eq!(a.gen_range(3u8..200), b.gen_range_u8(3..200));
        assert_eq!(a.gen_range(-7i16..9), b.gen_range_i16(-7..9));
        assert_eq!(a.gen_range(0u128..1 << 100), b.gen_range_u128(0..1 << 100));
        assert_eq!(a.gen_range(5usize..6), b.gen_range_usize(5..6));
        assert_eq!(a.gen_range(5i64..5), Err(SampleError::InvalidRange));
        assert_eq!(a.gen_range_k(0u32..1000, 7, false), b.gen_range_k_u32(0..1000, 7, false));
        assert_eq!(a.gen_range_k(-4i8..4, 8, false), b.gen_range_k_i8(-4..4, 8, false));
        assert_eq!(a.gen_range_k(10u64..12, 5, true), b.gen_range_k_u64(10..12, 5, true));
    }
    assert_eq!(a.gen_range_k(1i32..3, 3, false), Err(SampleError::RangeTooSmall));
}
