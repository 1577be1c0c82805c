//! Threshold calibration: the binary search over candidate thresholds that
//! finds the largest one `p` points can beat, and the entry points built on it.

use crate::geometry::{distance_matrix, point_table, Point};
use crate::model::{
    dist, feasible, index_set, is_distance_table, is_square, is_optimal_selection, is_selection,
    lemma_feasible_monotone, separated, strictly_increasing, table_view,
};
use crate::search::{search, AdjacencyMatrix, SolveStack};
use vstd::prelude::*;

verus! {

/// Why no selection was returned.
#[derive(Clone, Copy, Debug, PartialEq, Eq, Structural)]
pub enum FailureKind {
    /// No points, no placements asked for, or more placements than points.
    InvalidInput,
    /// No `p` of the points lie pairwise apart.
    Unsolvable,
}

/// The failure of a solve.
#[derive(Clone, Copy, Debug, PartialEq, Eq, Structural)]
pub struct NoPossibleDispersion {
    pub kind: FailureKind,
}

/// `v` lists, in increasing order, `p` of the `n` points that lie pairwise
/// farther apart than `t`.
pub open spec fn is_witness(m: Seq<Seq<u128>>, n: int, p: int, v: Seq<usize>, t: u128) -> bool {
    &&& strictly_increasing(v)
    &&& v.len() == p
    &&& is_selection(index_set(v), n, p)
    &&& separated(m, index_set(v), t)
}

/// `c` is sorted in ascending order.
pub open spec fn ascending(c: Seq<u128>) -> bool {
    forall|a: int, b: int| 0 <= a < b < c.len() ==> c[a] <= c[b]
}

proof fn lemma_index_set(v: Seq<usize>, w: Set<int>)
    requires
        strictly_increasing(v),
        forall|k: int| 0 <= k < v.len() ==> w.contains(#[trigger] v[k] as int),
        forall|i: int| #[trigger] w.contains(i) ==> exists|k: int| 0 <= k < v.len() && v[k] == i,
    ensures
        index_set(v) == w,
        w.finite(),
        w.len() == v.len(),
{
    let mapped = v.map_values(|x: usize| x as int);
    assert forall|i: int| #[trigger] w.contains(i) <==> mapped.contains(i) by {
        if w.contains(i) {
            let k = choose|k: int| 0 <= k < v.len() && v[k] == i;
            assert(mapped[k] == i);
        }
        if mapped.contains(i) {
            let k = choose|k: int| 0 <= k < mapped.len() && mapped[k] == i;
            assert(v[k] as int == i);
        }
    }
    assert(index_set(v) =~= w);
    assert(mapped.no_duplicates()) by {
        assert forall|a: int, b: int| 0 <= a < mapped.len() && 0 <= b < mapped.len() && a != b
            implies mapped[a] != mapped[b] by {
            if a < b {
                assert(v[a] < v[b]);
            } else {
                assert(v[b] < v[a]);
            }
        }
    }
    mapped.unique_seq_to_set();
    vstd::seq_lib::seq_to_set_is_finite(mapped);
}

/// Relies on `slice::sort_unstable`: the same values, in ascending order.
#[verifier::external_body]
fn sort_ascending(v: &mut Vec<u128>)
    ensures
        final(v)@.len() == old(v)@.len(),
        final(v)@.to_multiset() == old(v)@.to_multiset(),
        ascending(final(v)@),
{
    v.sort_unstable();
}

/// Finds, by binary search over the ascending `candidates`, the largest
/// threshold among them that `select_size` points beat, and returns those
/// points with the threshold's position.
pub fn calibrate(distances: &Vec<Vec<u128>>, candidates: &Vec<u128>, select_size: usize) -> (r:
    Option<(Vec<usize>, usize)>)
    requires
        is_distance_table(table_view(distances@), distances@.len() as int),
        distances@.len() <= usize::MAX - 63,
        select_size <= distances@.len(),
        ascending(candidates@),
    ensures
        match r {
            Some((v, k)) => {
                &&& k < candidates@.len()
                &&& is_witness(table_view(distances@), distances@.len() as int, select_size as int, v@, candidates@[k as int])
                &&& forall|j: int|
                    k < j < candidates@.len() ==> !feasible(
                        table_view(distances@),
                        distances@.len() as int,
                        select_size as int,
                        #[trigger] candidates@[j],
                    )
            },
            None => forall|j: int|
                0 <= j < candidates@.len() ==> !feasible(
                    table_view(distances@),
                    distances@.len() as int,
                    select_size as int,
                    #[trigger] candidates@[j],
                ),
        },
{
    let n = distances.len();
    let ghost m = table_view(distances@);
    let ghost p = select_size as int;
    let mut stack = SolveStack::new(select_size + 1, n);
    let mut best: Option<(Vec<usize>, usize)> = None;
    let mut low: usize = 0;
    let mut high: usize = candidates.len();
    while low < high
        invariant
            n == m.len(),
            m == table_view(distances@),
            p == select_size,
            is_distance_table(m, n as int),
            n <= usize::MAX - 63,
            select_size <= n,
            ascending(candidates@),
            low <= high <= candidates@.len(),
            stack.wf(n as nat),
            stack.depth() == select_size + 1,
            forall|j: int| 0 <= j < low ==> feasible(m, n as int, p, #[trigger] candidates@[j]),
            forall|j: int|
                high <= j < candidates@.len() ==> !feasible(m, n as int, p, #[trigger] candidates@[j]),
            low == 0 ==> best is None,
            low > 0 ==> match best {
                Some((v, k)) => k == low - 1 && is_witness(m, n as int, p, v@, candidates@[k as int]),
                None => false,
            },
        decreases high - low,
    {
        let mid = low + (high - low) / 2;
        let threshold = candidates[mid];
        let adjacency = AdjacencyMatrix::new(n, distances, threshold);
        stack.reset(n);
        let root = stack.allocate();
        let ghost full = vstd::set_lib::set_int_range(0, n as int);
        proof {
            assert(stack.selected(0) =~= Set::<int>::empty());
            assert(Set::<int>::empty() + full =~= full);
        }
        let ghost before = stack;
        let found = search(root, &mut stack, &adjacency, select_size);
        match found {
            Some(w) => {
                let v = stack.node(w).selected_points.indices();
                proof {
                    let sel = stack.selected(w as int);
                    lemma_index_set(v@, sel);
                    assert forall|a: int, b: int|
                        sel.contains(a) && sel.contains(b) && a != b implies #[trigger] dist(
                        m,
                        a,
                        b,
                    ) > threshold by {
                        assert(full.contains(a));
                        assert(full.contains(b));
                        assert(!adjacency.close(a).contains(b));
                    }
                    assert(separated(m, sel, threshold));
                    assert(feasible(m, n as int, p, threshold));
                    assert forall|j: int| 0 <= j < mid + 1 implies feasible(
                        m,
                        n as int,
                        p,
                        #[trigger] candidates@[j],
                    ) by {
                        lemma_feasible_monotone(m, n as int, p, threshold, candidates@[j]);
                    }
                }
                best = Some((v, mid));
                low = mid + 1;
            },
            None => {
                proof {
                    assert forall|j: int| mid <= j < candidates@.len() implies !feasible(
                        m,
                        n as int,
                        p,
                        #[trigger] candidates@[j],
                    ) by {
                        if feasible(m, n as int, p, candidates@[j]) {
                            lemma_feasible_monotone(m, n as int, p, candidates@[j], threshold);
                            let t = choose|t: Set<int>|
                                is_selection(t, n as int, p) && #[trigger] separated(m, t, threshold);
                            assert forall|a: int, b: int|
                                t.contains(a) && t.contains(b) && a != b implies !(#[trigger] adjacency.close(
                                a,
                            ).contains(b)) by {
                                assert(dist(m, a, b) > threshold);
                            }
                            assert(t.subset_of(Set::<int>::empty() + full));
                            assert(adjacency.completes(before.selected(0), before.remaining(0), p, t));
                        }
                    }
                }
                high = mid;
            },
        }
    }
    best
}

/// Every key of the table, in ascending order.
pub fn candidate_thresholds(distances: &Vec<Vec<u128>>) -> (r: Vec<u128>)
    requires
        is_square(table_view(distances@), distances@.len() as int),
    ensures
        ascending(r@),
        forall|i: int, j: int|
            0 <= i < distances@.len() && 0 <= j < distances@.len() ==> r@.contains(
                #[trigger] dist(table_view(distances@), i, j),
            ),
{
    let ghost m = table_view(distances@);
    let n = distances.len();
    let mut keys: Vec<u128> = Vec::new();
    let mut a: usize = 0;
    while a < n
        invariant
            n == distances@.len(),
            m == table_view(distances@),
            is_square(m, n as int),
            a <= n,
            forall|i: int, j: int| 0 <= i < a && 0 <= j < n ==> keys@.contains(#[trigger] dist(m, i, j)),
        decreases n - a,
    {
        assert(m[a as int] == distances@[a as int]@);
        let mut b: usize = 0;
        while b < n
            invariant
                n == distances@.len(),
                m == table_view(distances@),
                is_square(m, n as int),
                a < n,
                b <= n,
                m[a as int] == distances@[a as int]@,
                forall|i: int, j: int| 0 <= i < a && 0 <= j < n ==> keys@.contains(#[trigger] dist(m, i, j)),
                forall|j: int| 0 <= j < b ==> keys@.contains(#[trigger] dist(m, a as int, j)),
            decreases n - b,
        {
            let ghost prev = keys@;
            keys.push(distances[a][b]);
            assert forall|x: u128| prev.contains(x) implies keys@.contains(x) by {
                let k = choose|k: int| 0 <= k < prev.len() && prev[k] == x;
                assert(keys@[k] == x);
            }
            assert(keys@[prev.len() as int] == dist(m, a as int, b as int));
            b += 1;
        }
        a += 1;
    }
    let ghost unsorted = keys@;
    sort_ascending(&mut keys);
    proof {
        unsorted.to_multiset_ensures();
        keys@.to_multiset_ensures();
        assert forall|i: int, j: int|
            0 <= i < n && 0 <= j < n implies keys@.contains(#[trigger] dist(m, i, j)) by {
            assert(unsorted.contains(dist(m, i, j)));
            assert(unsorted.to_multiset().count(dist(m, i, j)) > 0);
        }
    }
    keys
}

/// Solves the problem on a table of distance keys: the indices, in
/// increasing order, of `placements` points whose smallest distance is the
/// largest any choice of that many points achieves.
pub fn solve_distances(distances: &Vec<Vec<u128>>, placements: u32) -> (r: Result<
    Vec<usize>,
    NoPossibleDispersion,
>)
    requires
        is_distance_table(table_view(distances@), distances@.len() as int),
        distances@.len() <= usize::MAX - 63,
    ensures
        ({
            let m = table_view(distances@);
            let n = distances@.len() as int;
            let p = placements as int;
            match r {
                Ok(v) => {
                    &&& 1 <= p <= n
                    &&& feasible(m, n, p, 0)
                    &&& strictly_increasing(v@)
                    &&& v@.len() == p
                    &&& is_optimal_selection(m, n, p, index_set(v@))
                },
                Err(e) => {
                    &&& (e.kind == FailureKind::InvalidInput) == (n == 0 || p == 0 || p > n)
                    &&& (e.kind == FailureKind::Unsolvable) == (1 <= p <= n && !feasible(
                        m,
                        n,
                        p,
                        0,
                    ))
                },
            }
        }),
{
    let ghost m = table_view(distances@);
    let n = distances.len();
    if n == 0 || placements == 0 || placements as usize > n {
        return Err(NoPossibleDispersion { kind: FailureKind::InvalidInput });
    }
    let p = placements as usize;
    let candidates = candidate_thresholds(distances);
    let found = calibrate(distances, &candidates, p);
    match found {
        Some((v, k)) => {
            proof {
                let w = index_set(v@);
                let t = candidates@[k as int];
                assert(separated(m, w, 0));
                assert forall|u: Set<int>, x: u128|
                    is_selection(u, n as int, p as int) && #[trigger] separated(m, u, x) implies separated(
                    m,
                    w,
                    x,
                ) by {
                    assert forall|a: int, b: int|
                        w.contains(a) && w.contains(b) && a != b implies #[trigger] dist(m, a, b)
                        > x by {
                        let d = dist(m, a, b);
                        if d <= x {
                            let j = choose|j: int| 0 <= j < candidates@.len() && candidates@[j] == d;
                            assert(d > t);
                            assert(j > k);
                            assert(separated(m, u, d));
                            assert(feasible(m, n as int, p as int, candidates@[j]));
                        }
                    }
                }
            }
            Ok(v)
        },
        None => {
            proof {
                let j = choose|j: int| 0 <= j < candidates@.len() && candidates@[j] == dist(m, 0, 0);
                assert(!feasible(m, n as int, p as int, candidates@[j]));
            }
            Err(NoPossibleDispersion { kind: FailureKind::Unsolvable })
        },
    }
}

/// Solves the problem for `input_array`: the indices, in increasing order,
/// of `placements` points whose smallest distance is the largest any choice
/// of that many points achieves.
pub fn solve_p_dispersion(input_array: &[Point], placements: u32) -> (r: Result<
    Vec<usize>,
    NoPossibleDispersion,
>)
    requires
        input_array@.len() <= usize::MAX - 63,
    ensures
        ({
            let m = point_table(input_array@);
            let n = input_array@.len() as int;
            let p = placements as int;
            match r {
                Ok(v) => {
                    &&& 1 <= p <= n
                    &&& feasible(m, n, p, 0)
                    &&& strictly_increasing(v@)
                    &&& v@.len() == p
                    &&& is_optimal_selection(m, n, p, index_set(v@))
                },
                Err(e) => {
                    &&& (e.kind == FailureKind::InvalidInput) == (n == 0 || p == 0 || p > n)
                    &&& (e.kind == FailureKind::Unsolvable) == (1 <= p <= n && !feasible(
                        m,
                        n,
                        p,
                        0,
                    ))
                },
            }
        }),
{
    let distances = distance_matrix(input_array);
    solve_distances(&distances, placements)
}


/// `x` is the key of the distance from the first point to one of the `n`.
pub open spec fn from_first_row(m: Seq<Seq<u128>>, n: int, x: u128) -> bool {
    exists|j: int| 0 <= j < n && #[trigger] dist(m, 0, j) == x
}

/// The keys of the first row of the table, in ascending order: the
/// distances from the first point.
pub fn first_row_thresholds(distances: &Vec<Vec<u128>>) -> (r: Vec<u128>)
    requires
        distances@.len() > 0,
        is_square(table_view(distances@), distances@.len() as int),
    ensures
        ascending(r@),
        forall|j: int|
            0 <= j < distances@.len() ==> r@.contains(#[trigger] dist(table_view(distances@), 0, j)),
        forall|k: int|
            0 <= k < r@.len() ==> from_first_row(table_view(distances@), distances@.len() as int, #[trigger] r@[k]),
{
    let ghost m = table_view(distances@);
    let n = distances.len();
    assert(m[0] == distances@[0]@);
    let mut keys: Vec<u128> = Vec::with_capacity(n);
    let mut b: usize = 0;
    while b < n
        invariant
            n == distances@.len(),
            m == table_view(distances@),
            is_square(m, n as int),
            m[0] == distances@[0]@,
            b <= n,
            keys@.len() == b,
            forall|j: int| 0 <= j < b ==> #[trigger] keys@[j] == dist(m, 0, j),
        decreases n - b,
    {
        keys.push(distances[0][b]);
        b += 1;
    }
    let ghost unsorted = keys@;
    sort_ascending(&mut keys);
    proof {
        unsorted.to_multiset_ensures();
        keys@.to_multiset_ensures();
        assert forall|j: int| 0 <= j < n implies keys@.contains(#[trigger] dist(m, 0, j)) by {
            assert(unsorted[j] == dist(m, 0, j));
            assert(unsorted.contains(dist(m, 0, j)));
            assert(unsorted.to_multiset().count(dist(m, 0, j)) > 0);
        }
        assert forall|k: int| 0 <= k < keys@.len() implies from_first_row(m, n as int, #[trigger] keys@[k]) by {
            assert(keys@.contains(keys@[k]));
            assert(keys@.to_multiset().count(keys@[k]) > 0);
            assert(unsorted.contains(keys@[k]));
            let j = choose|j: int| 0 <= j < unsorted.len() && unsorted[j] == keys@[k];
            assert(keys@[k] == dist(m, 0, j));
            assert(0 <= j < distances@.len());
        }
    }
    keys
}

/// Solves the problem for `input_data` over a reduced set of thresholds,
/// the distances from the first point: the indices, in increasing order, of
/// `placements` points that lie pairwise farther apart than the largest of
/// those distances that that many points can beat.
pub fn p_solver(input_data: &[Point], placements: u32) -> (r: Option<Vec<usize>>)
    requires
        input_data@.len() <= usize::MAX - 63,
    ensures
        ({
            let m = point_table(input_data@);
            let n = input_data@.len() as int;
            let p = placements as int;
            match r {
                Some(v) => {
                    &&& 1 <= p <= n
                    &&& feasible(m, n, p, 0)
                    &&& exists|j: int|
                        0 <= j < n && is_witness(m, n, p, v@, dist(m, 0, j)) && forall|i: int|
                            0 <= i < n && #[trigger] feasible(m, n, p, dist(m, 0, i)) ==> dist(m, 0, i)
                                <= dist(m, 0, j)
                },
                None => n == 0 || p == 0 || p > n || !feasible(m, n, p, 0),
            }
        }),
{
    let distances = distance_matrix(input_data);
    let ghost m = table_view(distances@);
    let n = distances.len();
    if n == 0 || placements == 0 || placements as usize > n {
        return None;
    }
    let p = placements as usize;
    let candidates = first_row_thresholds(&distances);
    let found = calibrate(&distances, &candidates, p);
    match found {
        Some((v, k)) => {
            proof {
                let t = candidates@[k as int];
                assert(from_first_row(m, n as int, candidates@[k as int]));
                let j = choose|j: int| 0 <= j < n && #[trigger] dist(m, 0, j) == candidates@[k as int];
                assert(separated(m, index_set(v@), 0));
                assert forall|i: int|
                    0 <= i < n && #[trigger] feasible(m, n as int, p as int, dist(m, 0, i)) implies dist(
                    m,
                    0,
                    i,
                ) <= dist(m, 0, j) by {
                    let d = dist(m, 0, i);
                    let jj = choose|jj: int| 0 <= jj < candidates@.len() && candidates@[jj] == d;
                    if d > t {
                        assert(jj > k);
                    }
                }
                assert(is_witness(m, n as int, p as int, v@, dist(m, 0, j)));
            }
            Some(v)
        },
        None => {
            proof {
                let j = choose|j: int| 0 <= j < candidates@.len() && candidates@[j] == dist(m, 0, 0);
                assert(!feasible(m, n as int, p as int, candidates@[j]));
            }
            None
        },
    }
}

/// `p_solver` for a placement count that fits in a byte.
pub fn naive_solver(input_data: &[Point], placements: u8) -> (r: Option<Vec<usize>>)
    requires
        input_data@.len() <= usize::MAX - 63,
    ensures
        ({
            let m = point_table(input_data@);
            let n = input_data@.len() as int;
            let p = placements as int;
            match r {
                Some(v) => {
                    &&& 1 <= p <= n
                    &&& feasible(m, n, p, 0)
                    &&& exists|j: int|
                        0 <= j < n && is_witness(m, n, p, v@, dist(m, 0, j)) && forall|i: int|
                            0 <= i < n && #[trigger] feasible(m, n, p, dist(m, 0, i)) ==> dist(m, 0, i)
                                <= dist(m, 0, j)
                },
                None => n == 0 || p == 0 || p > n || !feasible(m, n, p, 0),
            }
        }),
{
    p_solver(input_data, placements as u32)
}

} // verus!
