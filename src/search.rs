//! The feasibility search: can `p` points be chosen, no two of them close?

use crate::model::{dist, is_square, table_view};
use crate::point_vec::PointVec;
use vstd::prelude::*;
use vstd::set_lib::*;

verus! {

/// For one threshold, the row of each point: the points within that
/// threshold of it.
pub struct AdjacencyMatrix {
    data: Vec<PointVec>,
}

impl AdjacencyMatrix {
    /// The number of points.
    pub closed spec fn size(&self) -> nat {
        self.data@.len()
    }

    /// The points close to point `i`.
    pub closed spec fn close(&self, i: int) -> Set<int> {
        self.data@[i]@
    }

    /// Each row is a set over the points.
    pub closed spec fn wf(&self) -> bool {
        forall|i: int| 0 <= i < self.data@.len() ==> (#[trigger] self.data@[i]).wf(self.size())
    }

    /// Closeness goes both ways.
    pub open spec fn symmetric(&self) -> bool {
        forall|i: int, j: int|
            0 <= i < self.size() && 0 <= j < self.size() ==> (#[trigger] self.close(i).contains(j)
                <==> #[trigger] self.close(j).contains(i))
    }

    /// `t` is a choice of `p` points, no two close, that keeps every point
    /// of `sel` and takes the others from `rem`.
    pub open spec fn completes(&self, sel: Set<int>, rem: Set<int>, p: int, t: Set<int>) -> bool {
        &&& sel.subset_of(t)
        &&& t.subset_of(sel + rem)
        &&& t.finite()
        &&& t.len() == p
        &&& self.independent(t)
    }

    /// No member of `s` is close to another.
    pub open spec fn independent(&self, s: Set<int>) -> bool {
        forall|a: int, b: int|
            s.contains(a) && s.contains(b) && a != b ==> !(#[trigger] self.close(a).contains(b))
    }

    /// Row `i` holds the `j` whose distance key from `i` is at most
    /// `neighbour_distance`.
    pub fn new(location_count: usize, distances: &Vec<Vec<u128>>, neighbour_distance: u128) -> (r:
        Self)
        requires
            is_square(table_view(distances@), location_count as int),
            location_count <= usize::MAX - 63,
        ensures
            r.wf(),
            r.size() == location_count,
            forall|i: int, j: int|
                0 <= i < location_count ==> (#[trigger] r.close(i).contains(j) <==> (0 <= j
                    < location_count && dist(table_view(distances@), i, j) <= neighbour_distance)),
    {
        let n = location_count;
        let mut data: Vec<PointVec> = Vec::new();
        let mut index: usize = 0;
        while index < n
            invariant
                is_square(table_view(distances@), n as int),
                n <= usize::MAX - 63,
                index <= n,
                data@.len() == index,
                forall|i: int| 0 <= i < index ==> (#[trigger] data@[i]).wf(n as nat),
                forall|i: int, j: int|
                    0 <= i < index ==> (#[trigger] data@[i]@.contains(j) <==> (0 <= j < n && dist(
                        table_view(distances@),
                        i,
                        j,
                    ) <= neighbour_distance)),
            decreases n - index,
        {
            let mut row = PointVec::new(n, false);
            assert(table_view(distances@)[index as int] == distances@[index as int]@);
            let mut point: usize = 0;
            while point < n
                invariant
                    is_square(table_view(distances@), n as int),
                    index < n,
                    distances@[index as int]@.len() == n,
                    dist(table_view(distances@), index as int, point as int) == distances@[index as int]@[point as int],
                    point <= n,
                    row.wf(n as nat),
                    forall|j: int|
                        #[trigger] row@.contains(j) <==> (0 <= j < point && dist(
                            table_view(distances@),
                            index as int,
                            j,
                        ) <= neighbour_distance),
                decreases n - point,
            {
                if distances[index][point] <= neighbour_distance {
                    row.insert(point);
                }
                point += 1;
            }
            data.push(row);
            index += 1;
        }
        AdjacencyMatrix { data }
    }
}

/// One node of the search: the points chosen so far, and those still open.
pub struct SolveData {
    pub selected_points: PointVec,
    pub remaining_points: PointVec,
}

impl SolveData {
    /// Both sets are over the points `0..n`.
    pub open spec fn wf(&self, n: nat) -> bool {
        self.selected_points.wf(n) && self.remaining_points.wf(n)
    }

    /// The root of a search: nothing chosen, every point open.
    pub fn new(location_count: usize) -> (r: Self)
        requires
            location_count <= usize::MAX - 63,
        ensures
            r.wf(location_count as nat),
            r.selected_points@ == Set::<int>::empty(),
            r.remaining_points@ == set_int_range(0, location_count as int),
    {
        SolveData {
            selected_points: PointVec::new(location_count, false),
            remaining_points: PointVec::new(location_count, true),
        }
    }

    /// Makes this node equal to `copy_src`, reusing its storage.
    pub fn copy(&mut self, copy_src: &SolveData)
        requires
            old(self).selected_points.capacity() == copy_src.selected_points.capacity(),
            old(self).remaining_points.capacity() == copy_src.remaining_points.capacity(),
            copy_src.selected_points.inv(),
            copy_src.remaining_points.inv(),
        ensures
            final(self).selected_points@ == copy_src.selected_points@,
            final(self).remaining_points@ == copy_src.remaining_points@,
            final(self).selected_points.inv(),
            final(self).remaining_points.inv(),
            final(self).selected_points.capacity() == old(self).selected_points.capacity(),
            final(self).remaining_points.capacity() == old(self).remaining_points.capacity(),
    {
        self.selected_points.copy(&copy_src.selected_points);
        self.remaining_points.copy(&copy_src.remaining_points);
    }

    /// Makes this node the root of a new search over `0..location_count`.
    pub fn reset(&mut self, location_count: usize)
        requires
            old(self).wf(location_count as nat),
            location_count <= usize::MAX - 63,
        ensures
            final(self).wf(location_count as nat),
            final(self).selected_points@ == Set::<int>::empty(),
            final(self).remaining_points@ == set_int_range(0, location_count as int),
    {
        self.selected_points.reset(location_count, false);
        self.remaining_points.reset(location_count, true);
    }
}


/// A pool of search nodes, one per level of the search, taken and given back
/// in stack order.
pub struct SolveStack {
    data: Vec<SolveData>,
    idx: usize,
}

impl SolveStack {
    /// The nodes of the pool.
    pub closed spec fn slots(&self) -> Seq<SolveData> {
        self.data@
    }

    /// The number of nodes in use.
    pub closed spec fn top(&self) -> nat {
        self.idx as nat
    }

    /// The number of nodes in the pool.
    pub open spec fn depth(&self) -> nat {
        self.slots().len()
    }

    /// The points chosen in node `i`.
    pub open spec fn selected(&self, i: int) -> Set<int> {
        self.slots()[i].selected_points@
    }

    /// The points still open in node `i`.
    pub open spec fn remaining(&self, i: int) -> Set<int> {
        self.slots()[i].remaining_points@
    }

    /// Every node is over the points `0..n`.
    pub open spec fn wf(&self, n: nat) -> bool {
        &&& self.top() <= self.depth()
        &&& forall|i: int| 0 <= i < self.depth() ==> (#[trigger] self.slots()[i]).wf(n)
    }

    /// A pool of `max_search_depth` nodes over `0..location_count`, none in use.
    pub fn new(max_search_depth: usize, location_count: usize) -> (r: Self)
        requires
            location_count <= usize::MAX - 63,
        ensures
            r.wf(location_count as nat),
            r.depth() == max_search_depth,
            r.top() == 0,
    {
        let mut data: Vec<SolveData> = Vec::with_capacity(max_search_depth);
        let mut i: usize = 0;
        while i < max_search_depth
            invariant
                location_count <= usize::MAX - 63,
                i <= max_search_depth,
                data@.len() == i,
                forall|k: int| 0 <= k < i ==> (#[trigger] data@[k]).wf(location_count as nat),
            decreases max_search_depth - i,
        {
            data.push(SolveData::new(location_count));
            i += 1;
        }
        SolveStack { data, idx: 0 }
    }

    /// Node `i` of the pool.
    pub fn node(&self, i: usize) -> (r: &SolveData)
        requires
            i < self.depth(),
        ensures
            *r == self.slots()[i as int],
    {
        &self.data[i]
    }

    /// Takes the next free node.
    pub fn allocate(&mut self) -> (r: usize)
        requires
            old(self).top() < old(self).depth(),
        ensures
            r == old(self).top(),
            final(self).top() == old(self).top() + 1,
            final(self).slots() == old(self).slots(),
    {
        let ret = self.idx;
        assert(ret < self.data.len());
        self.idx += 1;
        ret
    }

    /// Gives back the node taken last.
    pub fn dealloc(&mut self)
        requires
            old(self).top() > 0,
        ensures
            final(self).top() == old(self).top() - 1,
            final(self).slots() == old(self).slots(),
    {
        self.idx -= 1;
    }

    /// Frees every node and makes the first one the root of a new search.
    pub fn reset(&mut self, location_count: usize)
        requires
            old(self).wf(location_count as nat),
            old(self).depth() > 0,
            location_count <= usize::MAX - 63,
        ensures
            final(self).wf(location_count as nat),
            final(self).top() == 0,
            final(self).depth() == old(self).depth(),
            final(self).selected(0) == Set::<int>::empty(),
            final(self).remaining(0) == set_int_range(0, location_count as int),
            forall|i: int| 0 < i < old(self).depth() ==> final(self).slots()[i] == old(self).slots()[i],
    {
        self.idx = 0;
        self.data[0].reset(location_count);
    }

    /// Fills node `child` with node `parent` where `point` is chosen and the
    /// points of `row` are no longer open.
    fn branch(&mut self, parent: usize, child: usize, point: usize, row: &PointVec, Ghost(n): Ghost<nat>)
        requires
            old(self).wf(n),
            row.wf(n),
            parent < child < old(self).depth(),
            point < n,
        ensures
            final(self).wf(n),
            final(self).top() == old(self).top(),
            final(self).depth() == old(self).depth(),
            final(self).selected(child as int) == old(self).selected(parent as int).insert(point as int),
            final(self).remaining(child as int) == old(self).remaining(parent as int).difference(row@),
            forall|i: int| 0 <= i < child ==> final(self).slots()[i] == old(self).slots()[i],
    {
        let mut scratch = SolveData::new(0);
        std::mem::swap(&mut self.data[child], &mut scratch);
        scratch.selected_points.insert_and_copy(&self.data[parent].selected_points, point);
        scratch.remaining_points.subtract_and_copy(&self.data[parent].remaining_points, row);
        std::mem::swap(&mut self.data[child], &mut scratch);
    }
}


/// Grows the choice of node `slot` to `select_size` points, no two close,
/// taking points from its open ones lowest first. On success it gives the
/// node that holds the choice; on failure, no such choice exists.
pub fn search(
    slot: usize,
    stack: &mut SolveStack,
    adjacency_matrix: &AdjacencyMatrix,
    select_size: usize,
) -> (r: Option<usize>)
    requires
        adjacency_matrix.wf(),
        adjacency_matrix.symmetric(),
        old(stack).wf(adjacency_matrix.size()),
        slot + 1 == old(stack).top(),
        old(stack).selected(slot as int).disjoint(old(stack).remaining(slot as int)),
        adjacency_matrix.independent(old(stack).selected(slot as int)),
        forall|a: int, b: int|
            #![trigger old(stack).selected(slot as int).contains(a), adjacency_matrix.close(a).contains(b)]
            old(stack).selected(slot as int).contains(a) && old(stack).remaining(
                slot as int,
            ).contains(b) ==> !adjacency_matrix.close(a).contains(b),
        old(stack).selected(slot as int).len() + old(stack).depth() - old(stack).top()
            >= select_size,
    ensures
        final(stack).wf(adjacency_matrix.size()),
        final(stack).depth() == old(stack).depth(),
        forall|i: int| 0 <= i < slot ==> final(stack).slots()[i] == old(stack).slots()[i],
        match r {
            Some(w) => {
                &&& slot <= w < final(stack).depth()
                &&& old(stack).selected(slot as int).subset_of(final(stack).selected(w as int))
                &&& final(stack).selected(w as int).subset_of(
                    old(stack).selected(slot as int) + old(stack).remaining(slot as int),
                )
                &&& adjacency_matrix.independent(final(stack).selected(w as int))
                &&& final(stack).selected(w as int).len() >= select_size
                &&& old(stack).selected(slot as int).len() <= select_size ==> final(stack).selected(
                    w as int,
                ).len() == select_size
            },
            None => {
                &&& final(stack).top() == old(stack).top()
                &&& forall|t: Set<int>|
                    !#[trigger] adjacency_matrix.completes(
                        old(stack).selected(slot as int),
                        old(stack).remaining(slot as int),
                        select_size as int,
                        t,
                    )
            },
        },
    decreases old(stack).remaining(slot as int).len(),
{
    let ghost n = adjacency_matrix.size();
    let ghost sel = stack.selected(slot as int);
    let ghost rem = stack.remaining(slot as int);
    proof {
        let node = stack.slots()[slot as int];
        node.selected_points.lemma_view_bounded();
        node.remaining_points.lemma_view_bounded();
        vstd::set_lib::lemma_set_union_finite_iff(sel, rem);
    }
    let sel_len = stack.data[slot].selected_points.len();
    if sel_len >= select_size {
        return Some(slot);
    }
    let rem_len = stack.data[slot].remaining_points.len();
    if rem_len < select_size - sel_len {
        assert forall|t: Set<int>|
            !#[trigger] adjacency_matrix.completes(sel, rem, select_size as int, t) by {
            if adjacency_matrix.completes(sel, rem, select_size as int, t) {
                lemma_set_disjoint_lens(sel, rem);
                lemma_len_subset(t, sel + rem);
            }
        }
        return None;
    }
    // A node with too few open points was cut off above, so one is left. The
    // lowest is decided here: chosen in the first branch, dropped in the second.
    let point = stack.data[slot].remaining_points.next().unwrap();
    stack.data[slot].remaining_points.remove(point);
    let ghost rem1 = rem.remove(point as int);
    assert(stack.remaining(slot as int) == rem1);
    // Choose it: a new node without its close points.
    let child = stack.allocate();
    stack.branch(slot, child, point, &adjacency_matrix.data[point], Ghost(n));
    let ghost sel2 = sel.insert(point as int);
    let ghost rem2 = rem1.difference(adjacency_matrix.close(point as int));
    proof {
        lemma_len_subset(rem2, rem1);
        assert(sel2.disjoint(rem2));
        assert forall|a: int, b: int|
            sel2.contains(a) && sel2.contains(b) && a != b implies !(#[trigger]
            adjacency_matrix.close(a).contains(b)) by {
            if a == point {
                assert(!adjacency_matrix.close(b).contains(a));
            }
        }
    }
    if let Some(result) = search(child, stack, adjacency_matrix, select_size) {
        return Some(result);
    }
    // Drop it: the same node, without the point.
    stack.dealloc();
    let r = search(slot, stack, adjacency_matrix, select_size);
    proof {
        if r is None {
            assert forall|t: Set<int>|
                !#[trigger] adjacency_matrix.completes(sel, rem, select_size as int, t) by {
                if adjacency_matrix.completes(sel, rem, select_size as int, t) {
                    if t.contains(point as int) {
                        assert(adjacency_matrix.completes(sel2, rem2, select_size as int, t));
                    } else {
                        assert(adjacency_matrix.completes(sel, rem1, select_size as int, t));
                    }
                }
            }
        }
    }
    r
}

} // verus!
