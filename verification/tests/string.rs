use zhl_algorithm_template_rs::string::{EXKMP, KMP};

fn bytes(s: &str) -> Vec<u8> {
    s.as_bytes().to_vec()
}

fn naive_prefix_function(s: &[u8]) -> Vec<usize> {
    (0..s.len())
        .map(|i| (0..=i).rev().find(|&k| s[..k] == s[i + 1 - k..=i]).unwrap())
        .collect()
}

fn naive_z(s: &[u8], t: &[u8]) -> Vec<usize> {
    (0..t.len())
        .map(|i| (0..).take_while(|&k| k < s.len() && i + k < t.len() && s[k] == t[i + k]).count())
        .collect()
}

#[test]
fn prefix_function_of_known_strings() {
    assert_eq!(KMP::new(&bytes("abcabcd")).get_pref_func(), &vec![0, 0, 0, 1, 2, 3, 0]);
    assert_eq!(KMP::new(&bytes("aabaaab")).get_pref_func(), &vec![0, 1, 0, 1, 2, 2, 3]);
    assert_eq!(KMP::new(&bytes("aaaa")).get_pref_func(), &vec![0, 1, 2, 3]);
    assert_eq!(KMP::new(&bytes("a")).get_pref_func(), &vec![0]);
    assert_eq!(KMP::new(&bytes("")).get_pref_func(), &Vec::<usize>::new());
    assert_eq!(KMP::new(&bytes("abacaba")).get_s(), &bytes("abacaba"));
}

#[test]
fn prefix_function_is_the_longest_border() {
    let mut x = 12345u32;
    for len in 0..60 {
        let s: Vec<u8> = (0..len)
            .map(|_| {
                x = x.wrapping_mul(1103515245).wrapping_add(12345);
                b'a' + ((x >> 16) % 2) as u8
            })
            .collect();
        assert_eq!(KMP::new(&s).get_pref_func(), &naive_prefix_function(&s));
    }
}

#[test]
fn kmp_extend_gives_the_longest_prefix_ending_at_each_position() {
    let kmp = KMP::new(&bytes("aba"));
    assert_eq!(kmp.extend(&bytes("ababa")), vec![1, 2, 3, 2, 3]);
    assert_eq!(kmp.extend(&bytes("xxabx")), vec![0, 0, 1, 2, 0]);
    assert_eq!(kmp.extend(&bytes("")), Vec::<usize>::new());
    assert_eq!(KMP::new(&bytes("")).extend(&bytes("")), Vec::<usize>::new());
    assert_eq!(KMP::new(&bytes("aa")).extend(&bytes("aaaa")), vec![1, 2, 2, 2]);
}

#[test]
fn kmp_finds_all_occurrences() {
    let kmp = KMP::new(&bytes("aba"));
    assert_eq!(kmp.find_occurences(&bytes("ababababa")), vec![0, 2, 4, 6]);
    assert_eq!(kmp.find_occurences(&bytes("aba")), vec![0]);
    assert_eq!(kmp.find_occurences(&bytes("ab")), Vec::<usize>::new());
    assert_eq!(kmp.find_occurences(&bytes("")), Vec::<usize>::new());
    assert_eq!(kmp.find_occurences(&bytes("xxxxxx")), Vec::<usize>::new());
    assert_eq!(KMP::new(&bytes("a")).find_occurences(&bytes("banana")), vec![1, 3, 5]);
    assert_eq!(KMP::new(&bytes("")).find_occurences(&bytes("")), Vec::<usize>::new());
    assert_eq!(KMP::new(&vec![1u32, 2]).find_occurences(&vec![1, 2, 1, 1, 2]), vec![0, 3]);
}

#[test]
fn kmp_occurrences_agree_with_a_search_by_hand() {
    let mut x = 99u32;
    let t: Vec<u8> = (0..400)
        .map(|_| {
            x = x.wrapping_mul(1103515245).wrapping_add(12345);
            b'a' + ((x >> 16) % 3) as u8
        })
        .collect();
    for start in 0..20 {
        for len in 1..5 {
            let s = t[start..start + len].to_vec();
            let expected: Vec<usize> =
                (0..=t.len() - len).filter(|&p| t[p..p + len] == s[..]).collect();
            assert_eq!(KMP::new(&s).find_occurences(&t), expected);
        }
    }
}

#[test]
fn z_function_of_known_strings() {
    assert_eq!(EXKMP::new(&bytes("aaaaa")).get_z(), &vec![5, 4, 3, 2, 1]);
    assert_eq!(EXKMP::new(&bytes("aaabaab")).get_z(), &vec![7, 2, 1, 0, 2, 1, 0]);
    assert_eq!(EXKMP::new(&bytes("abacaba")).get_z(), &vec![7, 0, 1, 0, 3, 0, 1]);
    assert_eq!(EXKMP::new(&bytes("a")).get_z(), &vec![1]);
    assert_eq!(EXKMP::new(&bytes("")).get_z(), &Vec::<usize>::new());
    assert_eq!(EXKMP::new(&bytes("abacaba")).get_s(), &bytes("abacaba"));
}

#[test]
fn z_function_is_the_longest_common_prefix() {
    let mut x = 777u32;
    for len in 0..60 {
        let s: Vec<u8> = (0..len)
            .map(|_| {
                x = x.wrapping_mul(1103515245).wrapping_add(12345);
                b'a' + ((x >> 16) % 2) as u8
            })
            .collect();
        assert_eq!(EXKMP::new(&s).get_z(), &naive_z(&s, &s));
    }
}

#[test]
fn z_extend_compares_with_another_string() {
    let z = EXKMP::new(&bytes("aba"));
    assert_eq!(z.extend(&bytes("ababa")), vec![3, 0, 3, 0, 1]);
    assert_eq!(z.extend(&bytes("xaby")), vec![0, 2, 0, 0]);
    assert_eq!(z.extend(&bytes("")), Vec::<usize>::new());
    assert_eq!(EXKMP::new(&bytes("")).extend(&bytes("abc")), vec![0, 0, 0]);
    let mut x = 4242u32;
    let mut next = |m: u32| {
        x = x.wrapping_mul(1103515245).wrapping_add(12345);
        b'a' + ((x >> 16) % m) as u8
    };
    for len in 0..30 {
        let s: Vec<u8> = (0..len % 7).map(|_| next(2)).collect();
        let t: Vec<u8> = (0..len * 3).map(|_| next(2)).collect();
        assert_eq!(EXKMP::new(&s).extend(&t), naive_z(&s, &t));
    }
}
