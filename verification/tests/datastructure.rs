use zhl_algorithm_template_rs::datastructure::{CompactUnionSet, UnionSet};

#[test]
fn compact_sets_start_apart() {
    let mut set = CompactUnionSet::new(5);
    for x in 0..5 {
        assert_eq!(set.getfa(x), Ok(x));
    }
    assert_eq!(set.is_union(0, 1), Ok(false));
    assert_eq!(set.is_union(3, 3), Ok(true));
}

#[test]
fn compact_sets_refuse_numbers_they_do_not_hold() {
    let mut set = CompactUnionSet::new(3);
    assert_eq!(set.getfa(3), Err(()));
    assert_eq!(set.is_union(0, 3), Err(()));
    assert_eq!(set.is_union(7, 0), Err(()));
    assert_eq!(set.unite(0, 3), Err(()));
    assert_eq!(set.unite(3, 0), Err(()));
    assert_eq!(set.is_union(0, 1), Ok(false));
    let mut none = CompactUnionSet::new(0);
    assert_eq!(none.getfa(0), Err(()));
}

#[test]
fn compact_unite_joins_sets() {
    let mut set = CompactUnionSet::new(6);
    assert_eq!(set.unite(0, 1), Ok(()));
    assert_eq!(set.unite(2, 3), Ok(()));
    assert_eq!(set.is_union(0, 1), Ok(true));
    assert_eq!(set.is_union(1, 2), Ok(false));
    assert_eq!(set.unite(1, 3), Ok(()));
    assert_eq!(set.is_union(0, 2), Ok(true));
    assert_eq!(set.is_union(0, 4), Ok(false));
    assert_eq!(set.unite(4, 4), Ok(()));
    assert_eq!(set.is_union(4, 5), Ok(false));
}

#[test]
fn compact_unite_takes_the_representative_of_the_second() {
    let mut set = CompactUnionSet::new(4);
    set.unite(0, 1).unwrap();
    assert_eq!(set.getfa(0), Ok(1));
    assert_eq!(set.getfa(1), Ok(1));
    set.unite(1, 2).unwrap();
    assert_eq!(set.getfa(0), Ok(2));
    set.unite(3, 0).unwrap();
    assert_eq!(set.getfa(3), Ok(2));
    set.unite(0, 3).unwrap();
    assert_eq!(set.getfa(1), Ok(2));
}

#[test]
fn compact_long_chain_is_followed_to_its_end() {
    let n = 2000;
    let mut set = CompactUnionSet::new(n);
    for x in 0..n - 1 {
        set.unite(x, x + 1).unwrap();
    }
    for x in 0..n {
        assert_eq!(set.getfa(x), Ok(n - 1));
    }
}

#[test]
fn compact_enlarging_adds_to_the_set_of_zero() {
    let mut set = CompactUnionSet::new(3);
    set.unite(0, 2).unwrap();
    set.enlarge_to(6);
    assert_eq!(set.getfa(5), Ok(2));
    assert_eq!(set.is_union(3, 4), Ok(true));
    assert_eq!(set.is_union(3, 0), Ok(true));
    assert_eq!(set.is_union(3, 1), Ok(false));
    assert_eq!(set.getfa(6), Err(()));
    set.enlarge_to(2);
    assert_eq!(set.getfa(5), Ok(2));
    let mut none = CompactUnionSet::new(0);
    none.enlarge_to(3);
    assert_eq!(none.getfa(2), Ok(0));
    assert_eq!(none.getfa(0), Ok(0));
}

#[test]
fn sets_of_values_start_empty() {
    let mut set: UnionSet<u64> = UnionSet::new();
    assert!(!set.contains(&1));
    assert_eq!(set.getfa(&1), Err(()));
    assert_eq!(set.is_union(&1, &1), Err(()));
    assert_eq!(set.unite(&1, &2), Err(()));
}

#[test]
fn sets_of_values_take_new_values_once() {
    let mut set: UnionSet<u64> = UnionSet::new();
    assert_eq!(set.insert(&10), Ok(()));
    assert_eq!(set.insert(&20), Ok(()));
    assert_eq!(set.insert(&10), Err(()));
    assert!(set.contains(&10));
    assert!(set.contains(&20));
    assert!(!set.contains(&30));
    assert_eq!(set.getfa(&10), Ok(10));
    assert_eq!(set.is_union(&10, &20), Ok(false));
}

#[test]
fn sets_of_values_from_a_vector() {
    let mut set = UnionSet::new_from_vec(&vec![5u32, 7, 5, 9]);
    assert!(set.contains(&5) && set.contains(&7) && set.contains(&9));
    assert!(!set.contains(&6));
    assert_eq!(set.getfa(&5), Ok(5));
    assert_eq!(set.is_union(&5, &7), Ok(false));
    assert_eq!(set.insert(&7), Err(()));
    assert_eq!(set.insert(&6), Ok(()));
}

#[test]
fn sets_of_values_unite() {
    let mut set = UnionSet::new_from_vec(&vec![1i64, -2, 3, -4, 5]);
    set.unite(&1, &-2).unwrap();
    set.unite(&3, &-4).unwrap();
    assert_eq!(set.is_union(&1, &-2), Ok(true));
    assert_eq!(set.is_union(&-2, &3), Ok(false));
    assert_eq!(set.getfa(&1), Ok(-2));
    set.unite(&-2, &-4).unwrap();
    assert_eq!(set.is_union(&1, &3), Ok(true));
    assert_eq!(set.getfa(&1), Ok(-4));
    assert_eq!(set.is_union(&1, &5), Ok(false));
    assert_eq!(set.unite(&1, &6), Err(()));
    assert_eq!(set.is_union(&6, &1), Err(()));
    assert_eq!(set.unite(&5, &5), Ok(()));
    assert_eq!(set.getfa(&5), Ok(5));
}

#[test]
fn sets_of_values_agree_with_compact_sets() {
    let n = 300usize;
    let mut a = CompactUnionSet::new(n);
    let mut b = UnionSet::new_from_vec(&(0..n).collect::<Vec<usize>>());
    let mut x = 1usize;
    for _ in 0..250 {
        x = (x * 7919 + 13) % n;
        let y = (x * 31 + 7) % n;
        a.unite(x, y).unwrap();
        b.unite(&x, &y).unwrap();
    }
    for p in 0..n {
        assert_eq!(a.getfa(p), b.getfa(&p));
        assert_eq!(a.is_union(p, (p * 3) % n), b.is_union(&p, &((p * 3) % n)));
    }
}
