//! All-pairs shortest paths by the Floyd-Warshall recurrence.
use vstd::prelude::*;

verus! {

/// The weight of the last edge from `x` to `y` in `edges`, if any: a later
/// edge between the same nodes replaces an earlier one.
pub open spec fn last_weight(edges: Seq<(usize, usize, usize)>, x: int, y: int) -> Option<usize>
    decreases edges.len(),
{
    if edges.len() == 0 {
        None
    } else if edges.last().0 == x && edges.last().1 == y {
        Some(edges.last().2)
    } else {
        last_weight(edges.drop_last(), x, y)
    }
}

/// The smaller of two optional lengths; an absent one does not count.
pub open spec fn min_opt(a: Option<usize>, b: Option<usize>) -> Option<usize> {
    match (a, b) {
        (None, None) => None,
        (Some(a), None) => Some(a),
        (None, Some(b)) => Some(b),
        (Some(a), Some(b)) => Some(if a <= b { a } else { b }),
    }
}

/// The length of two paths joined; none when either is absent or the sum
/// leaves the range of `usize`.
pub open spec fn join_opt(a: Option<usize>, b: Option<usize>) -> Option<usize> {
    match (a, b) {
        (Some(a), Some(b)) => if a + b <= usize::MAX {
            Some((a + b) as usize)
        } else {
            None
        },
        _ => None,
    }
}

/// The shortest length from `x` to `y` among paths whose inner nodes are
/// numbered at most `k`, for nodes `1..=n`.
pub open spec fn shortest(
    n: nat,
    edges: Seq<(usize, usize, usize)>,
    k: nat,
    x: int,
    y: int,
) -> Option<usize>
    decreases k,
{
    if k == 0 {
        if 1 <= x <= n && x == y {
            Some(0)
        } else {
            last_weight(edges, x, y)
        }
    } else if 1 <= x <= n && 1 <= y <= n {
        min_opt(
            shortest(n, edges, (k - 1) as nat, x, y),
            join_opt(
                shortest(n, edges, (k - 1) as nat, x, k as int),
                shortest(n, edges, (k - 1) as nat, k as int, y),
            ),
        )
    } else {
        None
    }
}

/// The smaller of two optional lengths.
fn min_option_usize(a: Option<usize>, b: Option<usize>) -> (r: Option<usize>)
    ensures
        r == min_opt(a, b),
{
    match (a, b) {
        (None, None) => None,
        (Some(a), None) => Some(a),
        (None, Some(b)) => Some(b),
        (Some(a), Some(b)) => Some(if a <= b { a } else { b }),
    }
}

/// The length of two paths joined, if both exist and the sum fits.
fn join_option(a: Option<usize>, b: Option<usize>) -> (r: Option<usize>)
    ensures
        r == join_opt(a, b),
{
    match (a, b) {
        (Some(a), Some(b)) => a.checked_add(b),
        _ => None,
    }
}

/// The table of direct distances: 0 from a node to itself, else the last
/// edge's weight.
fn base_table(n: usize, edges: &[(usize, usize, usize)]) -> (f: Vec<Vec<Option<usize>>>)
    requires
        n < usize::MAX,
    ensures
        f@.len() == n + 1,
        forall|x: int| 0 <= x <= n ==> #[trigger] f@[x]@.len() == n + 1,
        forall|x: int, y: int|
            0 <= x <= n && 0 <= y <= n ==> #[trigger] f@[x]@[y] == shortest(n as nat, edges@, 0, x, y),
{
    let m = n + 1;
    let mut f: Vec<Vec<Option<usize>>> = Vec::new();
    let mut x: usize = 0;
    while x < m
        invariant
            m == n + 1,
            x <= m,
            f@.len() == x,
            forall|a: int| 0 <= a < x ==> #[trigger] f@[a]@.len() == m,
            forall|a: int, y: int|
                0 <= a < x && 0 <= y < m ==> #[trigger] f@[a]@[y] == shortest(n as nat, edges@, 0, a, y),
        decreases m - x,
    {
        let mut row: Vec<Option<usize>> = Vec::new();
        let mut y: usize = 0;
        while y < m
            invariant
                y <= m,
                row@.len() == y,
                forall|b: int| 0 <= b < y ==> #[trigger] row@[b] == None::<usize>,
            decreases m - y,
        {
            row.push(None);
            y += 1;
        }
        let mut j: usize = 0;
        while j < edges.len()
            invariant
                j <= edges@.len(),
                row@.len() == m,
                forall|b: int| 0 <= b < m ==> #[trigger] row@[b] == last_weight(edges@.take(j as int), x as int, b),
            decreases edges@.len() - j,
        {
            let (u, v, w) = edges[j];
            assert(edges@.take(j + 1).drop_last() == edges@.take(j as int));
            assert(edges@.take(j + 1).last() == edges@[j as int]);
            if u == x && v < m {
                row.set(v, Some(w));
            }
            j += 1;
        }
        assert(edges@.take(edges@.len() as int) == edges@);
        if 1 <= x && x <= n {
            row.set(x, Some(0));
        }
        f.push(row);
        x += 1;
    }
    f
}

/// The length of a shortest path from `src` to `dst` over nodes `1..=n`
/// joined by the directed weighted `edges`, or `None` when there is none.
/// A later edge between the same two nodes replaces an earlier one.
pub fn floyd(n: usize, edges: &[(usize, usize, usize)], src: usize, dst: usize) -> (r: Option<usize>)
    requires
        n < usize::MAX,
        src <= n,
        dst <= n,
    ensures
        r == shortest(n as nat, edges@, n as nat, src as int, dst as int),
{
    let m = n + 1;
    let mut f = base_table(n, edges);
    let mut k: usize = 1;
    while k <= n
        invariant
            m == n + 1,
            1 <= k <= m,
            f@.len() == m,
            forall|x: int| 0 <= x < m ==> #[trigger] f@[x]@.len() == m,
            forall|x: int, y: int|
                0 <= x < m && 0 <= y < m ==> #[trigger] f@[x]@[y] == shortest(
                    n as nat,
                    edges@,
                    (k - 1) as nat,
                    x,
                    y,
                ),
        decreases m - k,
    {
        let mut g: Vec<Vec<Option<usize>>> = Vec::new();
        let mut x: usize = 0;
        while x < m
            invariant
                m == n + 1,
                1 <= k <= n,
                x <= m,
                f@.len() == m,
                forall|a: int| 0 <= a < m ==> #[trigger] f@[a]@.len() == m,
                forall|a: int, b: int|
                    0 <= a < m && 0 <= b < m ==> #[trigger] f@[a]@[b] == shortest(
                        n as nat,
                        edges@,
                        (k - 1) as nat,
                        a,
                        b,
                    ),
                g@.len() == x,
                forall|a: int| 0 <= a < x ==> #[trigger] g@[a]@.len() == m,
                forall|a: int, b: int|
                    0 <= a < x && 0 <= b < m ==> #[trigger] g@[a]@[b] == shortest(
                        n as nat,
                        edges@,
                        k as nat,
                        a,
                        b,
                    ),
            decreases m - x,
        {
            let mut row: Vec<Option<usize>> = Vec::new();
            let mut y: usize = 0;
            while y < m
                invariant
                    m == n + 1,
                    1 <= k <= n,
                    x < m,
                    y <= m,
                    f@.len() == m,
                    forall|a: int| 0 <= a < m ==> #[trigger] f@[a]@.len() == m,
                    forall|a: int, b: int|
                        0 <= a < m && 0 <= b < m ==> #[trigger] f@[a]@[b] == shortest(
                            n as nat,
                            edges@,
                            (k - 1) as nat,
                            a,
                            b,
                        ),
                    row@.len() == y,
                    forall|b: int|
                        0 <= b < y ==> #[trigger] row@[b] == shortest(n as nat, edges@, k as nat, x as int, b),
                decreases m - y,
            {
                if 1 <= x && 1 <= y {
                    let through = join_option(f[x][k], f[k][y]);
                    row.push(min_option_usize(f[x][y], through));
                } else {
                    row.push(None);
                }
                y += 1;
            }
            g.push(row);
            x += 1;
        }
        f = g;
        k += 1;
    }
    f[src][dst]
}

} // verus!
