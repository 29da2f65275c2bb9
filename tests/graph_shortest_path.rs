use algorithms::graph_shortest_path::floyd;

fn assert_shortest_path<F>(f: F)
where
    F: Fn(usize, &[(usize, usize, usize)], usize, usize) -> Option<usize>,
{
    let g1 = [(1, 2, 2), (2, 3, 2), (3, 4, 1), (1, 3, 1)];
    assert_eq!(f(4, &g1, 1, 4), Some(2));

    let g2 = [
        (1, 2, 10),
        (1, 6, 3),
        (2, 3, 7),
        (2, 4, 5),
        (4, 1, 3),
        (4, 3, 4),
        (4, 5, 7),
        (6, 2, 2),
        (6, 4, 6),
        (6, 5, 1),
    ];

    assert_eq!(f(6, &g2, 1, 2), Some(5));
    assert_eq!(f(6, &g2, 1, 3), Some(12));
    assert_eq!(f(6, &g2, 1, 4), Some(9));
    assert_eq!(f(6, &g2, 1, 5), Some(4));
    assert_eq!(f(6, &g2, 1, 6), Some(3));
}

#[test]
fn test_floyd() {
    assert_shortest_path(floyd);
}

#[test]
fn floyd_unreachable_and_self() {
    let g = [(1, 2, 4), (2, 1, 1)];
    assert_eq!(floyd(3, &g, 1, 3), None);
    assert_eq!(floyd(3, &g, 3, 3), Some(0));
    assert_eq!(floyd(3, &g, 2, 1), Some(1));
    let later = [(1, 2, 9), (1, 2, 3)];
    assert_eq!(floyd(2, &later, 1, 2), Some(3));
}
