use algorithms::kmp::{kmp, prefix_n};

#[test]
fn test_prefix_n() {
    let p = prefix_n("abcabcd");
    assert_eq!(&p, &[0, 0, 0, 1, 2, 3, 0]);

    let s = "abaabbbaabbaaaabaab";
    let p = prefix_n(s);
    for (i, &v) in p.iter().enumerate() {
        assert_eq!(s[..v], s[(i + 1 - v)..(i + 1)])
    }
}

#[test]
fn test_kmp() {
    assert_eq!(Some(0), kmp("aaaaa", "aaaa"));
    assert_eq!(Some(2), kmp("abababxxc", "ababx"));
    assert_eq!(Some(3), kmp("abababxxc", "babx"));
    assert_eq!(Some(5), kmp("klslapwosldkal", "pwo"));
    assert_eq!(Some(2), kmp("pqpsapspsp", "ps"));
    assert_eq!(Some(6), kmp("bacbadababacamcaddababaca", "ababaca"),)
}

#[test]
fn kmp_absent_and_edges() {
    assert_eq!(kmp("abc", "abd"), None);
    assert_eq!(kmp("", "a"), None);
    assert_eq!(kmp("ab", "abc"), None);
    assert_eq!(kmp("aabaabaaab", "aaab"), Some(6));
    assert_eq!(prefix_n(""), Vec::<usize>::new());
    assert_eq!(prefix_n("aaaa"), vec![0, 1, 2, 3]);
}
