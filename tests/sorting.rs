use algorithms::sorting::{
    bubble_sort, cocktail_sort, countint_sort, heap_sort, insertion_sort, merge_sort, quick_sort,
    selection_sort, shell_sort,
};
use rand::Rng;

fn rand_slice() -> Vec<usize> {
    let mut rng = rand::thread_rng();

    let n = rng.gen_range(32..2048);
    (0..n).map(|_| rng.gen_range(0..1000)).collect()
}

fn is_sorted(v: &[usize]) -> bool {
    v.windows(2).all(|w| w[0] <= w[1])
}

fn do_rand_test<F>(sorter: F)
where
    F: Fn(&mut [usize]),
{
    for _ in 0..32 {
        let mut v = rand_slice();
        let mut expected = v.clone();
        expected.sort();
        sorter(&mut v);
        if !is_sorted(&v) {
            panic!("");
        }
        assert_eq!(v, expected);
    }
}

#[test]
fn test_bubble_sort() {
    do_rand_test(bubble_sort);
}

#[test]
fn test_cocktail_sort() {
    do_rand_test(cocktail_sort);
}

#[test]
fn test_selection_sort() {
    do_rand_test(selection_sort);
}

#[test]
fn test_insertion_sort() {
    do_rand_test(insertion_sort);
}

#[test]
fn test_shell_sort() {
    do_rand_test(shell_sort);
}

#[test]
fn test_countint_sort() {
    fn countint_sort1(v: &mut [usize]) {
        countint_sort(v, 10000);
    }

    do_rand_test(countint_sort1);
}

#[test]
fn test_merge_sort() {
    do_rand_test(merge_sort);
}

#[test]
fn test_heap_sort() {
    do_rand_test(heap_sort);
}

#[test]
fn test_quick_sort() {
    do_rand_test(quick_sort);
}

#[test]
fn sorting_small_inputs() {
    fn counting(v: &mut [usize]) {
        countint_sort(v, 8);
    }
    let sorters: [fn(&mut [usize]); 9] = [
        bubble_sort,
        cocktail_sort,
        selection_sort,
        insertion_sort,
        shell_sort,
        merge_sort,
        heap_sort,
        quick_sort,
        counting,
    ];
    for s in sorters {
        let mut e: Vec<usize> = vec![];
        s(&mut e);
        assert!(e.is_empty());
        let mut one = vec![7];
        s(&mut one);
        assert_eq!(one, vec![7]);
        let mut two = vec![2, 1];
        s(&mut two);
        assert_eq!(two, vec![1, 2]);
        let mut dup = vec![3, 1, 3, 0, 1];
        s(&mut dup);
        assert_eq!(dup, vec![0, 1, 1, 3, 3]);
    }
}
