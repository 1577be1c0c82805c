//! Points with integer coordinates and their table of squared distances.

use crate::model::{dist, is_distance_table, is_square, table_view};
use vstd::prelude::*;

verus! {

/// A point of the plane with integer coordinates.
#[derive(Clone, Copy, Debug, PartialEq, Eq)]
pub struct Point {
    pub x: i32,
    pub y: i32,
}

/// The square of the Euclidean distance from `a` to `b`. It orders pairs of
/// points as the distance itself does.
pub open spec fn squared_distance(a: Point, b: Point) -> int {
    (a.x - b.x) * (a.x - b.x) + (a.y - b.y) * (a.y - b.y)
}

impl Point {
    pub fn new(x: i32, y: i32) -> (r: Self)
        ensures
            r.x == x,
            r.y == y,
    {
        Point { x, y }
    }

    /// The squared distance to `point`, exactly.
    pub fn squared_distance(&self, point: &Point) -> (r: u128)
        ensures
            r == squared_distance(*self, *point),
    {
        let dx = self.x as i128 - point.x as i128;
        let dy = self.y as i128 - point.y as i128;
        assert(0 <= dx * dx <= 0x1_0000_0000_0000_0000) by (nonlinear_arith)
            requires
                -0x1_0000_0000 <= dx <= 0x1_0000_0000,
        ;
        assert(0 <= dy * dy <= 0x1_0000_0000_0000_0000) by (nonlinear_arith)
            requires
                -0x1_0000_0000 <= dy <= 0x1_0000_0000,
        ;
        (dx * dx + dy * dy) as u128
    }
}

proof fn lemma_squared_distance_symmetric(a: Point, b: Point)
    ensures
        squared_distance(a, b) == squared_distance(b, a),
        squared_distance(a, a) == 0,
{
    assert((a.x - b.x) * (a.x - b.x) == (b.x - a.x) * (b.x - a.x)) by (nonlinear_arith);
    assert((a.y - b.y) * (a.y - b.y) == (b.y - a.y) * (b.y - a.y)) by (nonlinear_arith);
}

/// The table of squared distances among `points`.
pub open spec fn point_table(points: Seq<Point>) -> Seq<Seq<u128>> {
    Seq::new(
        points.len(),
        |i: int| Seq::new(points.len(), |j: int| squared_distance(points[i], points[j]) as u128),
    )
}

/// The table of squared distances among `points`: entry `(i, j)` is the
/// squared distance from point `i` to point `j`.
pub fn distance_matrix(points: &[Point]) -> (r: Vec<Vec<u128>>)
    ensures
        table_view(r@) == point_table(points@),
        is_distance_table(point_table(points@), points@.len() as int),
{
    let n = points.len();
    let mut matrix: Vec<Vec<u128>> = Vec::with_capacity(n);
    let mut a: usize = 0;
    while a < n
        invariant
            n == points@.len(),
            a <= n,
            matrix@.len() == a,
            forall|i: int| 0 <= i < a ==> (#[trigger] matrix@[i])@.len() == n,
            forall|i: int, j: int|
                0 <= i < a && 0 <= j < n ==> #[trigger] matrix@[i]@[j] == squared_distance(
                    points@[i],
                    points@[j],
                ),
        decreases n - a,
    {
        let mut row: Vec<u128> = Vec::with_capacity(n);
        let mut b: usize = 0;
        while b < n
            invariant
                n == points@.len(),
                a < n,
                b <= n,
                row@.len() == b,
                forall|j: int|
                    0 <= j < b ==> #[trigger] row@[j] == squared_distance(points@[a as int], points@[j]),
            decreases n - b,
        {
            row.push(points[a].squared_distance(&points[b]));
            b += 1;
        }
        matrix.push(row);
        a += 1;
    }
    let ghost table = point_table(points@);
    assert forall|i: int, j: int| 0 <= i < n && 0 <= j < n implies #[trigger] dist(table, i, j)
        == dist(table, j, i) by {
        lemma_squared_distance_symmetric(points@[i], points@[j]);
    }
    assert forall|i: int| 0 <= i < n implies #[trigger] dist(table, i, i) == 0 by {
        lemma_squared_distance_symmetric(points@[i], points@[i]);
    }
    assert forall|i: int| 0 <= i < n implies #[trigger] table_view(matrix@)[i] == table[i] by {
        assert(table_view(matrix@)[i] =~= table[i]);
    }
    assert(table_view(matrix@) =~= table);
    matrix
}

} // verus!
