use algorithms::rb_tree::RBTree;
use rand::Rng;

#[test]
fn test_rb_tree_insert1() {
    let mut t = RBTree::new();
    assert!(t.insert(1, 1).is_none());
    assert!(t.insert(2, 2).is_none());
    assert!(t.insert(3, 3).is_none());
    assert!(t.insert(4, 4).is_none());
    assert!(t.insert(5, 5).is_none());
    assert!(t.insert(6, 6).is_none());
    assert!(t.insert(7, 7).is_none());
    assert!(t.insert(8, 8).is_none());
    println!("{:?}", t.depth());

    let mut t = RBTree::new();
    assert!(t.insert(5, 5).is_none());
    assert!(t.insert(4, 4).is_none());
    assert!(t.insert(3, 3).is_none());
    assert!(t.insert(2, 2).is_none());
    assert!(t.insert(1, 1).is_none());
    println!("{:?}", t.depth());

    let mut t = RBTree::new();
    assert!(t.insert(1, 1).is_none());
    assert!(t.insert(2, 2).is_none());
    assert!(t.insert(3, 3).is_none());
    assert!(t.insert(1, 1).is_some());
    assert!(t.insert(2, 2).is_some());
    assert!(t.insert(3, 3).is_some());
    println!("{:?}", t.depth());
}

#[test]
fn test_rb_tree_insert2() {
    let mut t = RBTree::new();
    for i in 1..=10000 {
        assert!(t.insert(i, i).is_none());
        t.depth();
    }

    let mut t = RBTree::new();
    for i in (1..1000).rev() {
        assert!(t.insert(i, i).is_none());
        t.depth();
    }

    let mut rng = rand::thread_rng();

    let mut t = RBTree::new();
    for _ in 1..1000 {
        let k = rng.gen_range(1..10000);
        t.insert(k, k);
        t.depth();
    }
}

#[test]
fn test_rb_tree_insert3() {
    let mut t = RBTree::new();
    t.insert(1468, 1468);
    t.insert(7127, 7127);
    t.insert(1810, 1810);
    t.insert(7151, 7151);
    t.insert(3101, 3101);
    t.insert(5739, 5739);
    t.insert(8951, 8951);
    t.insert(1545, 1545);
    t.insert(2848, 2848);
    t.insert(3339, 3339);

    t.depth();
}

#[test]
fn test_rb_tree_delete1() {
    let mut t = RBTree::new();
    assert!(t.insert(1, 1).is_none());
    assert!(t.insert(2, 2).is_none());
    assert!(t.insert(3, 3).is_none());
    assert!(t.insert(4, 4).is_none());
    assert!(t.insert(5, 5).is_none());
    assert!(t.insert(6, 6).is_none());
    assert!(t.insert(7, 7).is_none());
    assert!(t.insert(8, 8).is_none());

    assert_eq!(t.delete(&6), Some(6));
    assert_eq!(t.delete(&8), Some(8));
    assert_eq!(t.delete(&1), Some(1));
}

#[test]
fn test_rb_tree_delete2() {
    let mut t = RBTree::new();

    for i in 1..=1000 {
        assert!(t.insert(i, i).is_none());
        t.depth();
    }

    for i in (1..=1000).rev() {
        assert!(t.delete(&i).is_some());
        t.depth();
    }

    let mut t = RBTree::new();

    for i in 1..=10000 {
        t.insert(i, i);
        t.depth();
    }

    for i in 1..=500 {
        t.delete(&(i * 10));
        t.depth();
    }

    for i in (500..=1000).rev() {
        t.delete(&(i * 10));
        t.depth();
    }
}

#[test]
fn test_rb_tree_depth() {
    for i in 2..15 {
        let mut t = RBTree::new();
        for i in 1..(1 << i) {
            assert!(t.insert(i, i).is_none());
        }

        assert_eq!(t.depth(), i);
    }

    for i in 2..15 {
        let mut t = RBTree::new();
        for i in (1..(1 << i)).rev() {
            assert!(t.insert(i, i).is_none());
        }

        assert_eq!(t.depth(), i);
    }
}

#[test]
fn rb_tree_example_scenario() {
    let mut t = RBTree::new();
    for k in 1..=8u64 {
        assert_eq!(t.insert(k, k), None);
    }
    assert!(t.height() <= 4);
    assert!(t.depth() <= 4);
    assert_eq!(t.find(&5), Some(&5));
    assert_eq!(t.delete(&6), Some(6));
    assert_eq!(t.delete(&8), Some(8));
    assert_eq!(t.delete(&1), Some(1));
    for k in [2u64, 3, 4, 5, 7] {
        assert_eq!(t.find(&k), Some(&k));
    }
    assert_eq!(t.find(&6), None);
    assert_eq!(t.find(&8), None);
    assert_eq!(t.find(&1), None);
    assert_eq!(t.len(), 5);
}

#[test]
fn rb_tree_size_consistency() {
    let mut t = RBTree::new();
    for k in 0..100u64 {
        assert_eq!(t.insert(k * 3, k * 3), None);
    }
    for k in 0..40u64 {
        assert_eq!(t.delete(&(k * 6)), Some(k * 6));
    }
    let mut found = 0;
    for k in 0..300u64 {
        if t.find(&k).is_some() {
            found += 1;
            assert!(k % 3 == 0 && !(k % 6 == 0 && k < 240));
        }
    }
    assert_eq!(found, 60);
    assert_eq!(t.len(), 60);
}

#[test]
fn rb_tree_round_trip() {
    let mut t = RBTree::new();
    for k in [10u64, 20, 30, 40] {
        t.insert(k, k);
    }
    assert_eq!(t.insert(25, 2500), None);
    assert_eq!(t.delete(&25), Some(2500));
    assert_eq!(t.find(&25), None);
    for k in [10u64, 20, 30, 40] {
        assert_eq!(t.find(&k), Some(&k));
    }
    assert_eq!(t.delete(&25), None);
}

#[test]
fn rb_tree_duplicate_insert() {
    let mut t = RBTree::new();
    assert_eq!(t.insert(7, "first"), None);
    assert_eq!(t.insert(7, "second"), Some("first"));
    assert_eq!(t.len(), 1);
    assert_eq!(t.find(&7), Some(&"second"));
    assert_eq!(t.delete(&7), Some("second"));
    assert!(t.is_empty());
}

#[test]
fn rb_tree_height_bound() {
    let mut t = RBTree::new();
    for n in 1..=2000u64 {
        t.insert(n, ());
        let h = t.height() as u32;
        assert!(2u128.pow(h) <= ((n + 1) as u128) * ((n + 1) as u128));
    }
    for n in (1..=2000u64).rev() {
        t.delete(&n);
        let m = t.len() as u128;
        assert!(2u128.pow(t.height() as u32) <= (m + 1) * (m + 1));
    }
    assert_eq!(t.height(), 0);
}

#[test]
fn rb_tree_empty_tree() {
    let mut t = RBTree::new();
    assert_eq!(t.depth(), 0);
    assert_eq!(t.find(&1), None);
    assert_eq!(t.delete(&1), None);
    assert!(t.is_empty());
    t.insert(1, 1);
    assert_eq!(t.depth(), 2);
}

#[test]
fn rb_tree_no_change_on_duplicate_or_missing_key() {
    let mut t = RBTree::new();
    for k in 1..=20u64 {
        t.insert(k, k);
    }
    let (h, d) = (t.height(), t.depth());
    assert_eq!(t.insert(7, 700), Some(7));
    assert_eq!((t.height(), t.depth()), (h, d));
    assert_eq!(t.find(&7), Some(&700));
    assert_eq!(t.delete(&99), None);
    assert_eq!((t.height(), t.depth(), t.len()), (h, d, 20));
}
