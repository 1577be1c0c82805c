//! The mathematical statement of the problem, over a table of distance keys.

use vstd::prelude::*;

verus! {

/// The table held by a vector of rows.
pub open spec fn table_view(m: Seq<Vec<u128>>) -> Seq<Seq<u128>> {
    m.map_values(|row: Vec<u128>| row@)
}

/// The key of the distance from point `i` to point `j`.
pub open spec fn dist(m: Seq<Seq<u128>>, i: int, j: int) -> u128 {
    m[i][j]
}

/// `m` is an `n` by `n` table.
pub open spec fn is_square(m: Seq<Seq<u128>>, n: int) -> bool {
    &&& m.len() == n
    &&& forall|i: int| 0 <= i < n ==> #[trigger] m[i].len() == n
}

/// `m` is a table of distances among `n` points: square, symmetric, and
/// zero from each point to itself.
pub open spec fn is_distance_table(m: Seq<Seq<u128>>, n: int) -> bool {
    &&& is_square(m, n)
    &&& forall|i: int, j: int|
        0 <= i < n && 0 <= j < n ==> #[trigger] dist(m, i, j) == dist(m, j, i)
    &&& forall|i: int| 0 <= i < n ==> #[trigger] dist(m, i, i) == 0
}

/// `s` is a choice of `p` of the indices `0..n`.
pub open spec fn is_selection(s: Set<int>, n: int, p: int) -> bool {
    &&& s.finite()
    &&& s.len() == p
    &&& forall|i: int| #[trigger] s.contains(i) ==> 0 <= i < n
}

/// Every two distinct members of `s` lie farther apart than `t`.
pub open spec fn separated(m: Seq<Seq<u128>>, s: Set<int>, t: u128) -> bool {
    forall|a: int, b: int|
        s.contains(a) && s.contains(b) && a != b ==> #[trigger] dist(m, a, b) > t
}

/// Some `p` of the `n` points lie pairwise farther apart than `t`.
pub open spec fn feasible(m: Seq<Seq<u128>>, n: int, p: int, t: u128) -> bool {
    exists|s: Set<int>| is_selection(s, n, p) && #[trigger] separated(m, s, t)
}

/// `s` is a choice of `p` points whose smallest distance is as large as
/// that of any other choice of `p` points.
pub open spec fn is_optimal_selection(m: Seq<Seq<u128>>, n: int, p: int, s: Set<int>) -> bool {
    &&& is_selection(s, n, p)
    &&& forall|u: Set<int>, v: u128|
        is_selection(u, n, p) && #[trigger] separated(m, u, v) ==> separated(m, s, v)
}

/// The indices held by `v`, as a set.
pub open spec fn index_set(v: Seq<usize>) -> Set<int> {
    v.map_values(|x: usize| x as int).to_set()
}

/// Each element of `v` is larger than the one before it.
pub open spec fn strictly_increasing(v: Seq<usize>) -> bool {
    forall|a: int, b: int| 0 <= a < b < v.len() ==> v[a] < v[b]
}

/// A threshold that `p` points beat stays beaten when it is lowered.
pub proof fn lemma_feasible_monotone(m: Seq<Seq<u128>>, n: int, p: int, t: u128, lower: u128)
    requires
        feasible(m, n, p, t),
        lower <= t,
    ensures
        feasible(m, n, p, lower),
{
    let s = choose|s: Set<int>| is_selection(s, n, p) && #[trigger] separated(m, s, t);
    assert(separated(m, s, lower));
}

/// A best choice of `p` points holds no two coincident points (distance key
/// zero) whenever some `p` points exist of which no two coincide.
pub proof fn lemma_optimal_avoids_coincident(m: Seq<Seq<u128>>, n: int, p: int, s: Set<int>)
    requires
        is_optimal_selection(m, n, p, s),
        feasible(m, n, p, 0),
    ensures
        forall|a: int, b: int| s.contains(a) && s.contains(b) && a != b ==> #[trigger] dist(m, a, b) != 0,
{
    let u = choose|u: Set<int>| is_selection(u, n, p) && #[trigger] separated(m, u, 0);
    assert(separated(m, s, 0));
}

} // verus!
