//! The pairwise computations over an embedding table: the distance matrix
//! and the relatedness graph.
use vstd::prelude::*;
use crate::table::{strings_view, EmbeddingTable};

verus! {

/// `related` may answer `r` on the vectors of entries `i` and `j`.
pub open spec fn judged<C, F: Fn(&Vec<C>, &Vec<C>) -> bool>(
    table: &EmbeddingTable<C>,
    related: F,
    i: int,
    j: int,
    r: bool,
) -> bool {
    related.ensures((&table.spec_vector(i), &table.spec_vector(j)), r)
}

/// `related` answers `true` on every pair of vectors.
pub open spec fn accepts_every_pair<C, F: Fn(&Vec<C>, &Vec<C>) -> bool>(related: F) -> bool {
    forall|a: &Vec<C>, b: &Vec<C>, r: bool| #[trigger] related.ensures((a, b), r) ==> r
}

/// `related` answers `false` on every pair of vectors.
pub open spec fn rejects_every_pair<C, F: Fn(&Vec<C>, &Vec<C>) -> bool>(related: F) -> bool {
    forall|a: &Vec<C>, b: &Vec<C>, r: bool| #[trigger] related.ensures((a, b), r) ==> !r
}

/// Pair `p` comes before `(i, j)` in the order of the nested enumeration.
pub open spec fn comes_before(p: (usize, usize), i: int, j: int) -> bool {
    p.0 < i || (p.0 == i && p.1 < j)
}

/// Builds the relatedness graph of a table. Every ordered pair of entries
/// `(i, j)`, self-pairs included, is judged once by `related`, in nested
/// order (`i` slowest); the pairs judged related form the edge list, each
/// stored once, so that a related pair of distinct entries is stored in
/// both directions. Also returns the words, whose positions the edges name.
pub fn create_network<C, F: Fn(&Vec<C>, &Vec<C>) -> bool>(
    table: &EmbeddingTable<C>,
    related: F,
) -> (r: (Vec<String>, Vec<(usize, usize)>))
    requires
        table.wf(),
        forall|a: &Vec<C>, b: &Vec<C>| #[trigger] related.requires((a, b)),
    ensures
        strings_view(r.0@) == table.spec_words(),
        r.1@.no_duplicates(),
        forall|k: int|
            0 <= k < r.1@.len() ==> {
                let (i, j) = #[trigger] r.1@[k];
                &&& i < table.spec_len()
                &&& j < table.spec_len()
                &&& judged(table, related, i as int, j as int, true)
            },
        forall|i: usize, j: usize|
            i < table.spec_len() && j < table.spec_len() && !r.1@.contains((i, j)) ==> judged(
                table,
                related,
                i as int,
                j as int,
                false,
            ),
        rejects_every_pair(related) ==> r.1@.len() == 0,
        accepts_every_pair(related) ==> r.1@.len() == table.spec_len() * table.spec_len(),
        accepts_every_pair(related) ==> forall|i: usize, j: usize|
            i < table.spec_len() && j < table.spec_len() ==> #[trigger] r.1@.contains((i, j)),
{
    let n = table.len();
    let words = table.words().clone();
    let mut edges: Vec<(usize, usize)> = Vec::new();
    let mut i: usize = 0;
    while i < n
        invariant
            n == table.spec_len(),
            table.wf(),
            i <= n,
            forall|a: &Vec<C>, b: &Vec<C>| #[trigger] related.requires((a, b)),
            edges@.no_duplicates(),
            forall|k: int|
                0 <= k < edges@.len() ==> {
                    let (a, b) = #[trigger] edges@[k];
                    &&& a < n
                    &&& b < n
                    &&& comes_before(edges@[k], i as int, 0)
                    &&& judged(table, related, a as int, b as int, true)
                },
            forall|a: usize, b: usize|
                a < i && b < n && !edges@.contains((a, b)) ==> judged(
                    table,
                    related,
                    a as int,
                    b as int,
                    false,
                ),
            accepts_every_pair(related) ==> edges@.len() == i * n,
        decreases n - i,
    {
        let mut j: usize = 0;
        while j < n
            invariant
                n == table.spec_len(),
                table.wf(),
                i < n,
                j <= n,
                forall|a: &Vec<C>, b: &Vec<C>| #[trigger] related.requires((a, b)),
                edges@.no_duplicates(),
                forall|k: int|
                    0 <= k < edges@.len() ==> {
                        let (a, b) = #[trigger] edges@[k];
                        &&& a < n
                        &&& b < n
                        &&& comes_before(edges@[k], i as int, j as int)
                        &&& judged(table, related, a as int, b as int, true)
                    },
                forall|a: usize, b: usize|
                    (a < i && b < n || a == i && b < j) && !edges@.contains((a, b)) ==> judged(
                        table,
                        related,
                        a as int,
                        b as int,
                        false,
                    ),
                accepts_every_pair(related) ==> edges@.len() == i * n + j,
            decreases n - j,
        {
            let is_related = related(table.vector(i), table.vector(j));
            if is_related {
                let ghost before = edges@;
                assert(!edges@.contains((i, j))) by {
                    if edges@.contains((i, j)) {
                        let k = choose|k: int| 0 <= k < before.len() && before[k] == (i, j);
                        assert(comes_before(before[k], i as int, j as int));
                    }
                };
                edges.push((i, j));
                assert forall|a: usize, b: usize|
                    (a < i && b < n || a == i && b < j + 1) && !edges@.contains((a, b)) implies judged(
                    table,
                    related,
                    a as int,
                    b as int,
                    false,
                ) by {
                    assert(edges@[before.len() as int] == (i, j));
                    if before.contains((a, b)) {
                        let k = choose|k: int| 0 <= k < before.len() && before[k] == (a, b);
                        assert(edges@[k] == (a, b));
                    }
                };
            } else {
                assert(!accepts_every_pair(related));
            }
            j = j + 1;
        }
        proof {
            assert(i * n + n == (i + 1) * n) by (nonlinear_arith);
        }
        i = i + 1;
    }
    proof {
        if accepts_every_pair(related) {
            assert forall|a: usize, b: usize| a < n && b < n implies #[trigger] edges@.contains(
                (a, b),
            ) by {
                if !edges@.contains((a, b)) {
                    assert(judged(table, related, a as int, b as int, false));
                }
            }
        }
        if rejects_every_pair(related) && edges@.len() > 0 {
            let (a, b) = edges@[0];
            assert(judged(table, related, a as int, b as int, true));
        }
    }
    (words, edges)
}

/// `distance` may return `d` on the vectors of entries `i` and `j`.
pub open spec fn measured<C, T, F: Fn(&Vec<C>, &Vec<C>) -> T>(
    table: &EmbeddingTable<C>,
    distance: F,
    i: int,
    j: int,
    d: T,
) -> bool {
    distance.ensures((&table.spec_vector(i), &table.spec_vector(j)), d)
}

/// The distance matrix of a table, row by row: one value for every ordered
/// pair of entries `(i, j)`, self-pairs included, at position `i * n + j`
/// where `n` is the number of entries, so that `i` varies slowest.
pub fn distance_matrix<C, T, F: Fn(&Vec<C>, &Vec<C>) -> T>(
    table: &EmbeddingTable<C>,
    distance: F,
) -> (r: Vec<T>)
    requires
        table.wf(),
        table.spec_len() * table.spec_len() <= usize::MAX,
        forall|a: &Vec<C>, b: &Vec<C>| #[trigger] distance.requires((a, b)),
    ensures
        r@.len() == table.spec_len() * table.spec_len(),
        forall|i: int, j: int|
            0 <= i < table.spec_len() && 0 <= j < table.spec_len() ==> measured(
                table,
                distance,
                i,
                j,
                #[trigger] r@[i * table.spec_len() + j],
            ),
{
    let n = table.len();
    let mut matrix: Vec<T> = Vec::new();
    let mut i: usize = 0;
    while i < n
        invariant
            n == table.spec_len(),
            n * n <= usize::MAX,
            table.wf(),
            i <= n,
            forall|a: &Vec<C>, b: &Vec<C>| #[trigger] distance.requires((a, b)),
            matrix@.len() == i * n,
            forall|a: int, b: int|
                0 <= a < i && 0 <= b < n ==> measured(
                    table,
                    distance,
                    a,
                    b,
                    #[trigger] matrix@[a * n + b],
                ),
        decreases n - i,
    {
        let mut j: usize = 0;
        while j < n
            invariant
                n == table.spec_len(),
                n * n <= usize::MAX,
                table.wf(),
                i < n,
                j <= n,
                forall|a: &Vec<C>, b: &Vec<C>| #[trigger] distance.requires((a, b)),
                matrix@.len() == i * n + j,
                forall|a: int, b: int|
                    (0 <= a < i && 0 <= b < n || a == i && 0 <= b < j) ==> measured(
                        table,
                        distance,
                        a,
                        b,
                        #[trigger] matrix@[a * n + b],
                    ),
            decreases n - j,
        {
            let d = distance(table.vector(i), table.vector(j));
            let ghost before = matrix@;
            matrix.push(d);
            assert forall|a: int, b: int|
                (0 <= a < i && 0 <= b < n || a == i && 0 <= b < j + 1) implies measured(
                table,
                distance,
                a,
                b,
                #[trigger] matrix@[a * n + b],
            ) by {
                if a < i {
                    assert(a * n + b < i * n) by (nonlinear_arith)
                        requires
                            0 <= a < i,
                            0 <= b < n,
                    ;
                    assert(matrix@[a * n + b] == before[a * n + b]);
                } else if b < j {
                    assert(matrix@[a * n + b] == before[a * n + b]);
                }
            };
            j = j + 1;
        }
        proof {
            assert(i * n + n == (i + 1) * n) by (nonlinear_arith);
        }
        i = i + 1;
    }
    matrix
}

} // verus!
