use algorithms::disjoint_set::DisjointSet;

#[test]
fn test_disjoint_set() {
    let mut set = DisjointSet::new(&[1, 2, 3, 4, 5, 6, 7]);
    set.union(&1, &2);
    set.union(&2, &3);

    set.union(&4, &5);
    set.union(&5, &6);
    set.union(&6, &7);

    assert_eq!(set.find(&1), set.find(&3));
    assert_eq!(set.find(&5), set.find(&6));
    assert_ne!(set.find(&2), set.find(&4));
    assert_ne!(set.find(&3), set.find(&7));
}

#[test]
fn disjoint_set_singletons_and_repeats() {
    let mut set = DisjointSet::new(&[10, 20, 30, 10]);
    assert_eq!(set.find(&10), 10);
    assert_ne!(set.find(&10), set.find(&20));
    set.union(&10, &20);
    set.union(&20, &10);
    assert_eq!(set.find(&10), set.find(&20));
    assert_ne!(set.find(&30), set.find(&10));
    set.union(&30, &30);
    assert_eq!(set.find(&30), 30);
}
