use zhl_algorithm_template_rs::math::prime::{
    BruteForcePrimalityTest, ExtractPrimeFactors, MillerRabin, PollardRho, PrimalityTest,
};
use zhl_algorithm_template_rs::random::generator::{ConstantSource, Pseudorandom64, MT19937_64};

fn miller_rabin(seed: u64) -> MillerRabin<MT19937_64> {
    MillerRabin::new(&MT19937_64::new(Some(seed)), None)
}

fn pollard_rho(seed: u64) -> PollardRho<MT19937_64, MillerRabin<MT19937_64>> {
    PollardRho::new(&MT19937_64::new(Some(seed)), &miller_rabin(seed + 1))
}

fn sorted(mut v: Vec<u64>) -> Vec<u64> {
    v.sort();
    v
}

const LARGE_PRIMES: [u64; 8] = [
    998244353,
    1000000007,
    4294967291,
    4294967311,
    1000000000039,
    1000000000000000003,
    9223372036854775783,
    18446744073709551557,
];

const LARGE_COMPOSITES: [u64; 12] = [
    3215031751,
    4294967295,
    9624742921,
    11346205609,
    13079177569,
    21515221081,
    27278026129,
    65700513721,
    3825123056546413051,
    998244359987710471,
    1000000014000000049,
    18446744073709551615,
];

#[test]
fn trial_division_on_small_numbers() {
    let mut bf = BruteForcePrimalityTest::new();
    let primes = [2u32, 3, 5, 7, 11, 13, 17, 19, 23, 29, 31, 37, 41, 43, 47];
    for n in 0..50u32 {
        assert_eq!(bf.is_prime_u32(&n), primes.contains(&n), "{}", n);
        assert_eq!(bf.is_prime_u64(&(n as u64)), primes.contains(&n), "{}", n);
    }
}

#[test]
fn trial_division_at_the_edges() {
    let mut bf = BruteForcePrimalityTest::new();
    assert!(!bf.is_prime_u32(&0));
    assert!(!bf.is_prime_u32(&1));
    assert!(bf.is_prime_u32(&2));
    assert!(!bf.is_prime_u32(&4));
    assert!(!bf.is_prime_u32(&9));
    assert!(bf.is_prime_u32(&4294967291));
    assert!(!bf.is_prime_u32(&4294967295));
    assert!(!bf.is_prime_u32(&4294836225));
    assert!(bf.is_prime_u64(&4294967291));
    assert!(!bf.is_prime_u64(&4294967295));
    assert!(!bf.is_prime_u64(&4294967296));
    assert!(bf.is_prime_u64(&4294967311));
    assert!(bf.is_prime_u64(&1000000000039));
}

#[test]
fn trial_division_finds_the_least_factor() {
    let mut bf = BruteForcePrimalityTest::new();
    for n in [0u32, 1, 2, 3, 5, 7, 97, 4294967291] {
        assert_eq!(bf.extract_factor_u32(&n), None);
        assert_eq!(bf.extract_factor_u64(&(n as u64)), None);
    }
    assert_eq!(bf.extract_factor_u32(&4), Some(2));
    assert_eq!(bf.extract_factor_u32(&9), Some(3));
    assert_eq!(bf.extract_factor_u32(&15), Some(3));
    assert_eq!(bf.extract_factor_u32(&49), Some(7));
    assert_eq!(bf.extract_factor_u32(&1000), Some(2));
    assert_eq!(bf.extract_factor_u32(&4294967295), Some(3));
    assert_eq!(bf.extract_factor_u32(&4294836225), Some(3));
    assert_eq!(bf.extract_factor_u64(&(1000003 * 1000033)), Some(1000003));
    assert_eq!(bf.extract_factor_u64(&(65537 * 65537)), Some(65537));
    assert_eq!(bf.extract_factor_u64(&18446744073709551615), Some(3));
    assert_eq!(bf.extract_factor_u64(&1000000000039), None);
}

#[test]
fn trial_division_factors_in_ascending_order() {
    let mut bf = BruteForcePrimalityTest::new();
    assert_eq!(bf.extract_prime_factors_u32(&1), Vec::<u32>::new());
    assert_eq!(bf.extract_prime_factors_u32(&2), vec![2]);
    assert_eq!(bf.extract_prime_factors_u32(&97), vec![97]);
    assert_eq!(bf.extract_prime_factors_u32(&360), vec![2, 2, 2, 3, 3, 5]);
    assert_eq!(bf.extract_prime_factors_u32(&1024), vec![2; 10]);
    assert_eq!(bf.extract_prime_factors_u32(&4294967295), vec![3, 5, 17, 257, 65537]);
    assert_eq!(bf.extract_prime_factors_u32(&4294967291), vec![4294967291]);
    assert_eq!(bf.extract_prime_factors_u64(&1), Vec::<u64>::new());
    assert_eq!(bf.extract_prime_factors_u64(&360), vec![2, 2, 2, 3, 3, 5]);
    assert_eq!(
        bf.extract_prime_factors_u64(&18446744073709551615),
        vec![3, 5, 17, 257, 641, 65537, 6700417]
    );
    assert_eq!(bf.extract_prime_factors_u64(&(1 << 63)), vec![2; 63]);
    assert_eq!(bf.extract_prime_factors_u64(&(1000003 * 1000003 * 7)), vec![7, 1000003, 1000003]);
}

#[test]
fn trial_division_factors_multiply_to_the_number() {
    let mut bf = BruteForcePrimalityTest::new();
    for n in 1..3000u32 {
        let f = bf.extract_prime_factors_u32(&n);
        assert_eq!(f.iter().product::<u32>(), n);
        for p in f {
            assert!(bf.is_prime_u32(&p));
        }
    }
}

#[test]
fn both_tests_agree_on_a_dense_small_range() {
    let mut bf = BruteForcePrimalityTest::new();
    let mut mr = miller_rabin(1);
    for n in 0..100000u32 {
        let expected = bf.is_prime_u32(&n);
        assert_eq!(mr.is_prime_u32(&n), expected, "{}", n);
        assert_eq!(mr.is_prime_u64(&(n as u64)), expected, "{}", n);
    }
}

#[test]
fn both_tests_agree_where_the_rounds_are_used() {
    let mut bf = BruteForcePrimalityTest::new();
    let mut mr = MillerRabin::new(&MT19937_64::new(Some(5)), Some(20));
    // Above 20480^2 a 32-bit number is tested by the rounds.
    for n in 4294000001u32..4294003000 {
        assert_eq!(mr.is_prime_u32(&n), bf.is_prime_u32(&n), "{}", n);
    }
    for n in 4294967296u64..4294968296 {
        assert_eq!(mr.is_prime_u64(&n), bf.is_prime_u64(&n), "{}", n);
    }
}

#[test]
fn miller_rabin_accepts_known_primes() {
    for seed in 0..20 {
        let mut mr = miller_rabin(seed);
        for p in LARGE_PRIMES {
            assert!(mr.is_prime_u64(&p), "{}", p);
            if p <= u32::MAX as u64 {
                assert!(mr.is_prime_u32(&(p as u32)), "{}", p);
            }
        }
    }
}

#[test]
fn miller_rabin_rejects_known_composites() {
    let mut mr = miller_rabin(2024);
    for c in LARGE_COMPOSITES {
        assert!(!mr.is_prime_u64(&c), "{}", c);
    }
    assert!(!mr.is_prime_u32(&3215031751));
    assert!(!mr.is_prime_u32(&4294967295));
    for c in [561u32, 1105, 1729, 2465, 2821, 6601, 8911, 294409, 56052361, 118901521] {
        assert!(!mr.is_prime_u32(&c), "{}", c);
    }
}

#[test]
fn miller_rabin_handles_the_smallest_numbers_for_any_round_count() {
    for rounds in [Some(0), Some(1), Some(20), None] {
        let mut mr = MillerRabin::new(&MT19937_64::new(Some(3)), rounds);
        assert!(!mr.is_prime_u32(&0));
        assert!(!mr.is_prime_u32(&1));
        assert!(mr.is_prime_u32(&2));
        assert!(!mr.is_prime_u64(&0));
        assert!(!mr.is_prime_u64(&1));
        assert!(mr.is_prime_u64(&2));
    }
}

#[test]
fn miller_rabin_without_rounds_accepts_everything_from_three_on() {
    let mut mr = MillerRabin::new(&MT19937_64::new(Some(3)), Some(0));
    assert!(mr.is_prime_u32(&3));
    assert!(mr.is_prime_u32(&9));
    assert!(mr.is_prime_u64(&(1 << 40)));
}

#[test]
fn miller_rabin_with_one_base_can_take_a_composite_for_a_prime() {
    // Every base drawn from a stream of zeros is 2, and 3215031751 is a
    // strong pseudoprime to the base 2.
    let mut mr = MillerRabin::new(&ConstantSource::new(Some(0)), None);
    assert!(mr.is_prime_u32(&3215031751));
    assert!(mr.is_prime_u64(&3215031751));
    assert!(!mr.is_prime_u64(&3215031753));
    assert!(mr.is_prime_u64(&18446744073709551557));
}

#[test]
fn miller_rabin_falls_back_on_trial_division_when_no_base_comes() {
    let mut mr = MillerRabin::new(&ConstantSource::new(Some(u64::MAX)), None);
    assert!(mr.is_prime_u32(&1000000007));
    assert!(!mr.is_prime_u32(&3000000021));
    assert!(!mr.is_prime_u32(&3215031751));
    assert!(mr.is_prime_u64(&1000000000039));
    assert!(!mr.is_prime_u64(&(1000003 * 1000033)));
}

#[test]
fn miller_rabin_clone_gives_the_same_answers() {
    let mut a = MillerRabin::new(&MT19937_64::new(Some(8)), Some(1));
    let mut b = a.clone();
    for n in 4294000001u32..4294001000 {
        assert_eq!(a.is_prime_u32(&n), b.is_prime_u32(&n));
    }
}

#[test]
fn product_of_two_known_primes_is_split_into_them() {
    let mut rho = pollard_rho(0);
    let n: u64 = 1000000007 * 998244353;
    assert_eq!(sorted(rho.extract_prime_factors_u64(&n)), vec![998244353, 1000000007]);
}

#[test]
fn one_factor_of_a_composite_divides_it() {
    let mut bf = BruteForcePrimalityTest::new();
    for seed in 0..5 {
        let mut rho = pollard_rho(seed);
        for n in 3..3000u32 {
            let f = rho.extract_factor_u32(&n);
            if bf.is_prime_u32(&n) {
                assert_eq!(f, None);
            } else {
                let p = f.unwrap();
                assert!(1 < p && p < n && n % p == 0, "{} {}", n, p);
            }
            let f = rho.extract_factor_u64(&(n as u64));
            if bf.is_prime_u32(&n) {
                assert_eq!(f, None);
            } else {
                let p = f.unwrap();
                assert!(1 < p && p < n as u64 && n as u64 % p == 0, "{} {}", n, p);
            }
        }
    }
}

#[test]
fn one_factor_of_large_composites() {
    let mut rho = pollard_rho(11);
    for n in LARGE_COMPOSITES {
        let p = rho.extract_factor_u64(&n).unwrap();
        assert!(1 < p && p < n && n % p == 0, "{} {}", n, p);
    }
    for n in LARGE_PRIMES {
        assert_eq!(rho.extract_factor_u64(&n), None);
    }
    assert_eq!(rho.extract_factor_u32(&4294967291), None);
    let p = rho.extract_factor_u32(&4294836225).unwrap();
    assert!(4294836225 % p == 0 && p > 1 && p < 4294836225);
}

#[test]
fn there_is_no_factor_of_the_smallest_numbers() {
    let mut rho = pollard_rho(12);
    for n in 0..=2u32 {
        assert_eq!(rho.extract_factor_u32(&n), None);
        assert_eq!(rho.extract_factor_u64(&(n as u64)), None);
    }
    assert_eq!(rho.extract_factor_u32(&4), Some(2));
    assert_eq!(rho.extract_factor_u64(&(1 << 63)), Some(2));
    assert_eq!(rho.extract_factor_u32(&9), Some(3));
    assert_eq!(rho.extract_factor_u32(&25), Some(5));
}

#[test]
fn all_factors_multiply_to_the_number_and_are_prime() {
    let mut bf = BruteForcePrimalityTest::new();
    let mut mr = miller_rabin(40);
    let mut rho = pollard_rho(13);
    for n in 1..5000u32 {
        let f = rho.extract_prime_factors_u32(&n);
        assert_eq!(f.iter().product::<u32>(), n);
        for p in &f {
            assert!(bf.is_prime_u32(p) && mr.is_prime_u32(p), "{} {}", n, p);
        }
        let mut narrow: Vec<u64> = f.iter().map(|&p| p as u64).collect();
        narrow.sort();
        assert_eq!(narrow, bf.extract_prime_factors_u64(&(n as u64)));
        let g = rho.extract_prime_factors_u64(&(n as u64));
        assert_eq!(sorted(g), narrow);
    }
}

#[test]
fn all_factors_of_large_numbers() {
    let mut rho = pollard_rho(14);
    assert_eq!(
        sorted(rho.extract_prime_factors_u64(&18446744073709551615)),
        vec![3, 5, 17, 257, 641, 65537, 6700417]
    );
    assert_eq!(
        sorted(rho.extract_prime_factors_u64(&1000000014000000049)),
        vec![1000000007, 1000000007]
    );
    assert_eq!(
        sorted(rho.extract_prime_factors_u64(&3825123056546413051)),
        vec![149491, 747451, 34233211]
    );
    assert_eq!(
        sorted(rho.extract_prime_factors_u64(&(2 * 2 * 2 * 3 * 3 * 1000000007 * 1000003))),
        vec![2, 2, 2, 3, 3, 1000003, 1000000007]
    );
    assert_eq!(rho.extract_prime_factors_u64(&(1 << 63)), vec![2; 63]);
    assert_eq!(rho.extract_prime_factors_u64(&1), Vec::<u64>::new());
    assert_eq!(rho.extract_prime_factors_u32(&1), Vec::<u32>::new());
    let mut narrow = rho.extract_prime_factors_u32(&4294967295);
    narrow.sort();
    assert_eq!(narrow, vec![3, 5, 17, 257, 65537]);
    for p in LARGE_PRIMES {
        assert_eq!(rho.extract_prime_factors_u64(&p), vec![p]);
    }
    for n in LARGE_COMPOSITES {
        let f = rho.extract_prime_factors_u64(&n);
        assert!(f.len() >= 2);
        assert_eq!(f.iter().product::<u64>(), n);
    }
}

#[test]
fn repeated_prime_factors_come_with_multiplicity() {
    let mut rho = pollard_rho(15);
    assert_eq!(sorted(rho.extract_prime_factors_u64(&(3u64.pow(20) * 7u64.pow(10)))), {
        let mut v = vec![3u64; 20];
        v.extend(vec![7u64; 10]);
        v
    });
    assert_eq!(sorted(rho.extract_prime_factors_u64(&(65537u64.pow(3)))), vec![65537; 3]);
    let mut f = rho.extract_prime_factors_u32(&(9 * 25 * 49 * 121));
    f.sort();
    assert_eq!(f, vec![3, 3, 5, 5, 7, 7, 11, 11]);
}

#[test]
fn rho_with_the_exact_tester() {
    let mut bf = BruteForcePrimalityTest::new();
    let mut rho = PollardRho::new(&MT19937_64::new(Some(16)), &bf);
    for n in 1..2000u64 {
        let f = rho.extract_prime_factors_u64(&n);
        assert_eq!(sorted(f), bf.extract_prime_factors_u64(&n));
    }
    let n: u64 = 1000003 * 1000033;
    assert_eq!(sorted(rho.extract_prime_factors_u64(&n)), vec![1000003, 1000033]);
}

#[test]
fn rho_finds_nothing_where_the_tester_takes_a_composite_for_a_prime() {
    let tester = MillerRabin::new(&ConstantSource::new(Some(0)), None);
    let mut rho = PollardRho::new(&MT19937_64::new(Some(17)), &tester);
    assert_eq!(rho.extract_factor_u64(&3215031751), None);
    assert_eq!(rho.extract_prime_factors_u64(&3215031751), vec![3215031751]);
    let p = rho.extract_factor_u64(&3215031753).unwrap();
    assert!(3215031753 % p == 0 && p > 1 && p < 3215031753);
}

#[test]
fn rho_falls_back_on_trial_division_when_no_constant_comes() {
    let bf = BruteForcePrimalityTest::new();
    let mut rho = PollardRho::new(&ConstantSource::new(Some(u64::MAX)), &bf);
    assert_eq!(rho.extract_factor_u32(&15), Some(3));
    assert_eq!(rho.extract_factor_u64(&(1000003 * 1000033)), Some(1000003));
    assert_eq!(rho.extract_factor_u64(&1000000007), None);
    assert_eq!(sorted(rho.extract_prime_factors_u64(&(7 * 11 * 13 * 1000003))), vec![
        7, 11, 13, 1000003
    ]);
}

#[test]
fn rho_clone_works_on_its_own() {
    let mut a = pollard_rho(18);
    let mut b = a.clone();
    let n: u64 = 1000000007 * 998244353;
    assert_eq!(sorted(a.extract_prime_factors_u64(&n)), sorted(b.extract_prime_factors_u64(&n)));
}

#[test]
fn trial_division_decides_up_to_the_crossover() {
    // With one round a number of 17 bits is decided by trial division up to
    // (17 * 17 * 1)^2 = 83521. Every base from a stream of zeros is 2, and
    // 80581 and 85489 are strong pseudoprimes to the base 2.
    let mut mr = MillerRabin::new(&ConstantSource::new(Some(0)), Some(1));
    assert!(!mr.is_prime_u32(&80581));
    assert!(!mr.is_prime_u32(&83521));
    assert!(mr.is_prime_u32(&85489));
    assert!(mr.is_prime_u64(&88357));
    assert!(!mr.is_prime_u64(&85491));
    // With two rounds the crossover for 17 bits is (17 * 17 * 2)^2 = 334084.
    let mut two = MillerRabin::new(&ConstantSource::new(Some(0)), Some(2));
    assert!(!two.is_prime_u32(&85489));
    assert!(!two.is_prime_u32(&90751));
}

#[test]
fn factors_two_come_first() {
    let bf = BruteForcePrimalityTest::new();
    let mut rho = PollardRho::new(&MT19937_64::new(Some(0)), &bf);
    assert_eq!(rho.extract_prime_factors_u32(&12), vec![2, 2, 3]);
    assert_eq!(rho.extract_prime_factors_u32(&13), vec![13]);
    assert_eq!(rho.extract_prime_factors_u32(&1), Vec::<u32>::new());
    assert_eq!(rho.extract_prime_factors_u64(&96), vec![2, 2, 2, 2, 2, 3]);
    let mut with_rounds = pollard_rho(3);
    for n in [2u64 * 3 * 5 * 7, 32 * 1000003 * 1000033, 1 << 20, 64 * 81 * 125, 1000000007 * 6] {
        let f = with_rounds.extract_prime_factors_u64(&n);
        let twos = n.trailing_zeros() as usize;
        assert!(f.len() >= twos);
        assert!(f[..twos].iter().all(|&p| p == 2));
        assert!(f[twos..].iter().all(|&p| p % 2 == 1));
        assert_eq!(f.iter().product::<u64>(), n);
    }
}

#[test]
fn nothing_is_drawn_where_there_is_no_factor_to_find() {
    let bf = BruteForcePrimalityTest::new();
    let mut asked = PollardRho::new(&MT19937_64::new(Some(21)), &bf);
    let mut fresh = PollardRho::new(&MT19937_64::new(Some(21)), &bf);
    for n in [0u64, 1, 2, 3, 13, 1000000007, 18446744073709551557, 4, 1 << 40, 6, 1000000007 * 2] {
        let f = asked.extract_factor_u64(&n);
        assert!(f.is_none() || f == Some(2));
    }
    assert_eq!(asked.extract_prime_factors_u64(&(1 << 30)), vec![2; 30]);
    assert_eq!(asked.extract_prime_factors_u64(&(8 * 1000000007)), vec![2, 2, 2, 1000000007]);
    assert_eq!(asked.extract_prime_factors_u32(&1), Vec::<u32>::new());
    let odd_composites = [1000003u64 * 1000033, 3215031751, 998244359987710471, 9 * 25 * 49];
    for n in odd_composites {
        assert_eq!(asked.extract_factor_u64(&n), fresh.extract_factor_u64(&n));
        assert_eq!(asked.extract_prime_factors_u64(&n), fresh.extract_prime_factors_u64(&n));
    }
}

#[test]
fn a_number_that_the_tester_rejects_is_split() {
    let tester = MillerRabin::new(&MT19937_64::new(Some(0)), None);
    let mut judge = tester.clone();
    let mut rho = PollardRho::new(&MT19937_64::new(Some(0)), &tester);
    let n: u64 = 1000000007 * 998244353;
    assert!(!judge.is_prime_u64(&n));
    let f = rho.extract_prime_factors_u64(&n);
    assert_eq!(f.len(), 2);
    assert!(f == vec![1000000007, 998244353] || f == vec![998244353, 1000000007]);
}
