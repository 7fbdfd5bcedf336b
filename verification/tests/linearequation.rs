use std::cmp::Ordering;
use zhl_algorithm_template_rs::math::linearequation::{
    XorLinearEquationSystem, ZeroOneLinearEquation,
};

fn equation(size: usize, ones: &[usize]) -> ZeroOneLinearEquation {
    let mut e = ZeroOneLinearEquation::new(size);
    for &i in ones {
        e.set_i(i);
    }
    e
}

fn bits(e: &ZeroOneLinearEquation) -> Vec<usize> {
    (0..e.equation_size()).filter(|&i| e.get_i(i)).collect()
}

fn system(size: usize, rows: &[&[usize]]) -> XorLinearEquationSystem {
    let mut s = XorLinearEquationSystem::new(rows.len(), size);
    for (i, row) in rows.iter().enumerate() {
        for &j in row.iter() {
            s.set_i_j(i, j);
        }
    }
    s
}

fn value(e: &ZeroOneLinearEquation) -> u64 {
    bits(e).iter().map(|&i| 1u64 << i).sum()
}

#[test]
fn new_equation_is_all_zeros() {
    for size in [0usize, 1, 127, 128, 129, 300] {
        let e = ZeroOneLinearEquation::new(size);
        assert_eq!(e.equation_size(), size);
        assert_eq!(e.count_ones(), 0);
        assert_eq!(e.count_zeros(), size);
        assert!(e.is_all_zeros());
        assert_eq!(e.is_all_ones(), size == 0);
        assert_eq!(e.highest_one_bit(), None);
    }
}

#[test]
fn bits_are_set_cleared_and_flipped() {
    let mut e = ZeroOneLinearEquation::new(300);
    e.set_i(0);
    e.set_i(127);
    e.set_i(128);
    e.set_i(299);
    e.set_i(0);
    assert_eq!(bits(&e), vec![0, 127, 128, 299]);
    assert_eq!(e.count_ones(), 4);
    assert_eq!(e.count_zeros(), 296);
    e.unset_i(127);
    e.unset_i(5);
    assert_eq!(bits(&e), vec![0, 128, 299]);
    e.flip_i(0);
    e.flip_i(1);
    assert_eq!(bits(&e), vec![1, 128, 299]);
    assert!(e.get_i(128) && !e.get_i(127) && !e.get_i(129));
    assert!(!e.is_all_zeros() && !e.is_all_ones());
}

#[test]
fn highest_one_bit_is_found_in_every_word() {
    let mut e = ZeroOneLinearEquation::new(400);
    e.set_i(3);
    assert_eq!(e.highest_one_bit(), Some(3));
    e.set_i(127);
    assert_eq!(e.highest_one_bit(), Some(127));
    e.set_i(128);
    assert_eq!(e.highest_one_bit(), Some(128));
    e.set_i(399);
    assert_eq!(e.highest_one_bit(), Some(399));
    e.unset_i(399);
    e.unset_i(128);
    assert_eq!(e.highest_one_bit(), Some(127));
    e.unset_i(127);
    e.unset_i(3);
    assert_eq!(e.highest_one_bit(), None);
    let mut one = ZeroOneLinearEquation::new(1);
    one.set_i(0);
    assert_eq!(one.highest_one_bit(), Some(0));
}

#[test]
fn all_ones_is_recognized() {
    for size in [1usize, 64, 128, 129, 256] {
        let mut e = ZeroOneLinearEquation::new(size);
        for i in 0..size {
            assert!(!e.is_all_ones());
            e.set_i(i);
        }
        assert!(e.is_all_ones());
        assert_eq!(e.count_ones(), size);
        assert_eq!(e.count_zeros(), 0);
        assert_eq!(e.highest_one_bit(), Some(size - 1));
        e.flip_i(size / 2);
        assert!(!e.is_all_ones());
        assert_eq!(e.count_zeros(), 1);
    }
}

#[test]
fn xor_adds_bit_by_bit() {
    let mut a = equation(200, &[0, 5, 130, 199]);
    let b = equation(200, &[5, 6, 130, 150]);
    a.xor(&b);
    assert_eq!(bits(&a), vec![0, 6, 150, 199]);
    let copy = a.clone();
    a.xor(&copy);
    assert!(a.is_all_zeros());
    assert_eq!(bits(&copy), vec![0, 6, 150, 199]);
}

#[test]
fn system_starts_with_zero_equations() {
    let mut s = XorLinearEquationSystem::new(3, 10);
    assert_eq!(s.count_basis(), 3);
    assert_eq!(s.equation_size(), 10);
    assert!(!s.is_full_basis());
    for i in 0..3 {
        assert!(s.is_all_zeros_i(i));
        assert!(!s.is_all_ones_i(i));
        assert_eq!(s.count_ones_i(i), 0);
        assert_eq!(s.count_zeros_i(i), 10);
    }
    let e = s.new_equation();
    assert_eq!(e.equation_size(), 10);
    assert!(e.is_all_zeros());
}

#[test]
fn system_bits_are_reached_by_row_and_column() {
    let mut s = XorLinearEquationSystem::new(2, 130);
    s.set_i_j(0, 129);
    s.set_i_j(1, 0);
    s.flip_i_j(1, 1);
    s.flip_i_j(1, 0);
    s.set_i_j(0, 3);
    s.unset_i_j(0, 3);
    assert!(s.get_i_j(0, 129) && !s.get_i_j(0, 3));
    assert!(!s.get_i_j(1, 0) && s.get_i_j(1, 1));
    assert_eq!(bits(s.get_i(0)), vec![129]);
    assert_eq!(bits(s.get_i(1)), vec![1]);
    assert_eq!(s.count_ones_i(0), 1);
    assert_eq!(s.count_zeros_i(1), 129);
}

#[test]
fn basis_of_dependent_equations() {
    // 0b110, 0b011, 0b101: the third is the sum of the first two.
    let mut s = system(3, &[&[1, 2], &[0, 1], &[0, 2]]);
    s.compute_basis();
    assert_eq!(s.count_basis(), 2);
    assert!(!s.is_full_basis());
    assert_eq!(s.highest_one_bit_i(0), 2);
    assert_eq!(s.highest_one_bit_i(1), 1);
    assert_eq!(bits(s.get_i(0)), vec![0, 2]);
    assert_eq!(bits(s.get_i(1)), vec![0, 1]);
    assert!(s.can_represent(equation(3, &[1, 2])));
    assert!(s.can_represent(equation(3, &[0, 2])));
    assert!(s.can_represent(equation(3, &[])));
    assert!(!s.can_represent(equation(3, &[0])));
    assert!(!s.can_represent(equation(3, &[0, 1, 2])));
}

#[test]
fn basis_of_independent_equations_is_full() {
    let mut s = system(3, &[&[0], &[0, 1], &[0, 1, 2]]);
    s.compute_basis();
    assert_eq!(s.count_basis(), 3);
    assert!(s.is_full_basis());
    for v in 0..8usize {
        let ones: Vec<usize> = (0..3).filter(|&i| v >> i & 1 == 1).collect();
        assert!(s.can_represent(equation(3, &ones)));
    }
    assert_eq!(bits(s.get_i(0)), vec![2]);
    assert_eq!(bits(s.get_i(1)), vec![1]);
    assert_eq!(bits(s.get_i(2)), vec![0]);
}

#[test]
fn basis_of_no_equations_or_zero_equations_is_empty() {
    let mut s = XorLinearEquationSystem::new(0, 5);
    s.compute_basis();
    assert_eq!(s.count_basis(), 0);
    assert!(s.can_represent(equation(5, &[])));
    assert!(!s.can_represent(equation(5, &[2])));
    let mut z = XorLinearEquationSystem::new(4, 5);
    z.compute_basis();
    assert_eq!(z.count_basis(), 0);
}

#[test]
fn greatest_vector_of_the_span() {
    for rows in [vec![3u64, 5, 6], vec![1, 2, 4, 8], vec![9, 12, 5], vec![7], vec![10, 10, 3]] {
        let sets: Vec<Vec<usize>> =
            rows.iter().map(|&r| (0..4).filter(|&i| r >> i & 1 == 1).collect()).collect();
        let refs: Vec<&[usize]> = sets.iter().map(|s| &s[..]).collect();
        let mut s = system(4, &refs);
        s.compute_basis();
        let mut best = 0u64;
        for pick in 0..1u32 << rows.len() {
            let mut v = 0u64;
            for (k, r) in rows.iter().enumerate() {
                if pick >> k & 1 == 1 {
                    v ^= r;
                }
            }
            best = best.max(v);
            let ones: Vec<usize> = (0..4).filter(|&i| v >> i & 1 == 1).collect();
            assert!(s.can_represent(equation(4, &ones)));
        }
        assert_eq!(value(&s.get_max()), best);
    }
}

#[test]
fn inserting_keeps_the_basis_reduced() {
    let mut s = XorLinearEquationSystem::new(0, 6);
    s.compute_basis();
    let given = [&[1usize, 3][..], &[0, 1], &[1, 3], &[5, 0], &[0, 3], &[2, 4], &[5, 3, 1, 0]];
    let grew: Vec<bool> = given.iter().map(|g| s.insert_basis(equation(6, g))).collect();
    assert_eq!(grew, vec![true, true, false, true, false, true, false]);
    assert_eq!(s.count_basis(), 4);
    let pivots: Vec<usize> = (0..4).map(|k| s.highest_one_bit_i(k)).collect();
    assert_eq!(pivots, vec![5, 4, 3, 1]);
    for k in 0..4 {
        assert_eq!(s.get_i(k).highest_one_bit(), Some(pivots[k]));
        for m in 0..4 {
            assert_eq!(s.get_i_j(m, pivots[k]), m == k);
        }
    }
    for g in given {
        assert!(s.can_represent(equation(6, g)));
    }
    assert!(!s.can_represent(equation(6, &[2])));
    assert!(!s.can_represent(equation(6, &[0])));
    assert_eq!(value(&s.get_max()), 0b111111);
}

#[test]
fn inserting_agrees_with_elimination() {
    let mut x = 2024u64;
    for round in 0..40 {
        let size = 1 + round % 9;
        let count = round % 7;
        let rows: Vec<u64> = (0..count)
            .map(|_| {
                x = x.wrapping_mul(6364136223846793005).wrapping_add(1442695040888963407);
                (x >> 33) % (1 << size)
            })
            .collect();
        let sets: Vec<Vec<usize>> =
            rows.iter().map(|&r| (0..size).filter(|&i| r >> i & 1 == 1).collect()).collect();
        let refs: Vec<&[usize]> = sets.iter().map(|s| &s[..]).collect();
        let mut a = system(size, &refs);
        a.compute_basis();
        let mut b = XorLinearEquationSystem::new(0, size);
        b.compute_basis();
        for set in &sets {
            b.insert_basis(equation(size, set));
        }
        assert_eq!(a.count_basis(), b.count_basis());
        for k in 0..a.count_basis() {
            assert_eq!(a.highest_one_bit_i(k), b.highest_one_bit_i(k));
            assert_eq!(bits(a.get_i(k)), bits(b.get_i(k)));
        }
        for v in 0..1u64 << size {
            let ones: Vec<usize> = (0..size).filter(|&i| v >> i & 1 == 1).collect();
            let mut reached = false;
            for pick in 0..1u32 << rows.len() {
                let mut w = 0u64;
                for (k, r) in rows.iter().enumerate() {
                    if pick >> k & 1 == 1 {
                        w ^= r;
                    }
                }
                reached |= w == v;
            }
            assert_eq!(a.can_represent(equation(size, &ones)), reached);
        }
    }
}

#[test]
fn wide_equations_are_eliminated_across_words() {
    let mut s = system(260, &[&[259, 128, 0], &[259, 127], &[128, 127, 0], &[200]]);
    s.compute_basis();
    assert_eq!(s.count_basis(), 3);
    assert_eq!(s.highest_one_bit_i(0), 259);
    assert_eq!(s.highest_one_bit_i(1), 200);
    assert_eq!(s.highest_one_bit_i(2), 128);
    assert!(s.can_represent(equation(260, &[128, 127, 0])));
    assert!(!s.can_represent(equation(260, &[127])));
    assert_eq!(bits(&s.get_max()), vec![0, 128, 200, 259]);
    assert!(s.insert_basis(equation(260, &[127])));
    assert!(!s.insert_basis(equation(260, &[0, 128])));
    assert_eq!(s.count_basis(), 4);
    assert_eq!(bits(&s.get_max()), vec![0, 127, 128, 200, 259]);
}

#[test]
fn equations_are_equal_where_their_bits_are() {
    let a = equation(200, &[0, 130]);
    let mut b = equation(200, &[130]);
    assert!(a != b);
    b.set_i(0);
    assert!(a == b);
    b.flip_i(199);
    assert!(a != b);
    assert!(equation(5, &[]) == equation(5, &[]));
    assert!(equation(5, &[1]) != equation(6, &[1]));
    assert!(equation(128, &[1]) != equation(129, &[1]));
}

#[test]
fn equations_compare_as_binary_numbers() {
    let low = equation(200, &[0, 1, 2, 127]);
    let high = equation(200, &[128]);
    assert_eq!(low.partial_cmp(&high), Some(Ordering::Less));
    assert_eq!(high.partial_cmp(&low), Some(Ordering::Greater));
    assert_eq!(high.partial_cmp(&equation(200, &[128])), Some(Ordering::Equal));
    assert!(low < high && high > low && low <= low.clone() && high >= low);
    assert_eq!(equation(200, &[128, 3]).partial_cmp(&equation(200, &[128, 4])), Some(Ordering::Less));
    assert_eq!(equation(3, &[]).partial_cmp(&equation(4, &[])), None);
    for a in 0..16u64 {
        for b in 0..16u64 {
            let x: Vec<usize> = (0..4).filter(|&i| a >> i & 1 == 1).collect();
            let y: Vec<usize> = (0..4).filter(|&i| b >> i & 1 == 1).collect();
            assert_eq!(equation(4, &x).partial_cmp(&equation(4, &y)), a.partial_cmp(&b));
            assert_eq!(equation(4, &x) == equation(4, &y), a == b);
        }
    }
}
