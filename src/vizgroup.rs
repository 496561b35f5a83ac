//! Visibility groups: which regions of a grid can be seen from which others.
//!
//! Two regions see each other when a chain of adjacent regions joins them,
//! so a group is a transitive closure of "adjacent". Regions arrive ordered
//! by (x, y); each new region is compared with the live blocks, the earlier
//! regions whose right edge still reaches the current column, and touching
//! groups are merged. Groups live in an arena indexed by group number, and
//! every region records the number of its group.
use vstd::prelude::*;
use crate::region::RegionData;
use crate::geometry::loc_before;

verus! {

/// Overlap of the closed intervals [a0, a1] and [b0, b1]: negative when
/// they are apart, zero when they only touch.
pub open spec fn span_overlap(a0: int, a1: int, b0: int, b1: int) -> int {
    (if a1 < b1 { a1 } else { b1 }) - (if a0 > b0 { a0 } else { b0 })
}

/// Two rectangles are adjacent when they touch or overlap. When only a
/// single corner is shared they are adjacent only if `corners_touch`.
pub open spec fn adjacent(a: RegionData, b: RegionData, corners_touch: bool) -> bool {
    let ox = span_overlap(a.region_coords_x as int, a.region_coords_x + a.size_x, b.region_coords_x as int, b.region_coords_x + b.size_x);
    let oy = span_overlap(a.region_coords_y as int, a.region_coords_y + a.size_y, b.region_coords_y as int, b.region_coords_y + b.size_y);
    ox >= 0 && oy >= 0 && (corners_touch || ox > 0 || oy > 0)
}

/// Right edge of a region.
pub open spec fn x_end(r: RegionData) -> int {
    r.region_coords_x + r.size_x
}

/// Test whether two regions are adjacent.
pub fn regions_touch(a: &RegionData, b: &RegionData, corners_touch: bool) -> (r: bool)
    requires
        a.wf(),
        b.wf(),
    ensures
        r == adjacent(*a, *b, corners_touch),
{
    let ax1 = a.region_coords_x + a.size_x;
    let bx1 = b.region_coords_x + b.size_x;
    let ay1 = a.region_coords_y + a.size_y;
    let by1 = b.region_coords_y + b.size_y;
    let lo_x = if a.region_coords_x > b.region_coords_x { a.region_coords_x } else { b.region_coords_x };
    let hi_x = if ax1 < bx1 { ax1 } else { bx1 };
    let lo_y = if a.region_coords_y > b.region_coords_y { a.region_coords_y } else { b.region_coords_y };
    let hi_y = if ay1 < by1 { ay1 } else { by1 };
    if hi_x < lo_x || hi_y < lo_y {
        false
    } else {
        corners_touch || hi_x > lo_x || hi_y > lo_y
    }
}

/// A set of regions which all have the same viz group, as indices into the
/// regions of the grid being processed.
#[derive(Debug)]
pub struct VizGroup {
    /// Region indices of the members
    pub members: Vec<usize>,
}

impl VizGroup {
    /// New, with the first region.
    pub fn new(first: usize) -> (r: VizGroup)
        ensures
            r.members@ == seq![first],
    {
        VizGroup { members: vec![first] }
    }

    /// Merge another VizGroup into this one. The other group is drained.
    pub fn merge(&mut self, other: &mut VizGroup)
        ensures
            final(self).members@ == old(self).members@ + old(other).members@,
            final(other).members@.len() == 0,
    {
        self.members.append(&mut other.members);
    }
}

/// Array of completed groups for one grid.
pub type CompletedGroups = Vec<Vec<RegionData>>;

/// Completed groups as sequences of regions.
pub open spec fn groups_view(c: CompletedGroups) -> Seq<Seq<RegionData>> {
    c@.map_values(|g: Vec<RegionData>| g@)
}

/// `x` is a member of some group.
pub open spec fn in_some_group(groups: Seq<Seq<RegionData>>, x: RegionData) -> bool {
    exists|g: int| 0 <= g < groups.len() && #[trigger] groups[g].contains(x)
}

/// `groups` partitions `items`: every group is non-empty, every member is an
/// item, every item is in some group, and no value is in two groups.
pub open spec fn is_partition(groups: Seq<Seq<RegionData>>, items: Seq<RegionData>) -> bool {
    &&& forall|g: int| 0 <= g < groups.len() ==> #[trigger] groups[g].len() > 0
    &&& forall|g: int, k: int| 0 <= g < groups.len() && 0 <= k < groups[g].len() ==> items.contains(#[trigger] groups[g][k])
    &&& forall|i: int| 0 <= i < items.len() ==> #[trigger] in_some_group(groups, items[i])
    &&& forall|g1: int, g2: int, x: RegionData| 0 <= g1 < groups.len() && 0 <= g2 < groups.len()
        && #[trigger] groups[g1].contains(x) && #[trigger] groups[g2].contains(x) ==> g1 == g2
}

/// Each group is strictly increasing in (x, y).
pub open spec fn groups_sorted(groups: Seq<Seq<RegionData>>) -> bool {
    forall|t: int, k1: int, k2: int| 0 <= t < groups.len() && 0 <= k1 < k2 < groups[t].len()
        ==> loc_before(#[trigger] groups[t][k1].loc(), #[trigger] groups[t][k2].loc())
}

/// `a` and `b` are in one group.
pub open spec fn same_group(groups: Seq<Seq<RegionData>>, a: RegionData, b: RegionData) -> bool {
    exists|g: int| 0 <= g < groups.len() && #[trigger] groups[g].contains(a) && groups[g].contains(b)
}

/// Adjacent items end in one group.
pub open spec fn closed_under_adjacency(groups: Seq<Seq<RegionData>>, items: Seq<RegionData>, corners_touch: bool) -> bool {
    forall|i: int, j: int| 0 <= i < items.len() && 0 <= j < items.len()
        && #[trigger] adjacent(items[i], items[j], corners_touch) ==> same_group(groups, items[i], items[j])
}

/// `path` is a chain of items, each adjacent to the next.
pub open spec fn is_adjacency_path(path: Seq<RegionData>, items: Seq<RegionData>, corners_touch: bool) -> bool {
    &&& path.len() >= 1
    &&& forall|k: int| 0 <= k < path.len() ==> items.contains(#[trigger] path[k])
    &&& forall|k: int| 0 <= k < path.len() - 1 ==> #[trigger] adjacent(path[k], path[k + 1], corners_touch)
}

/// Regions joined by a chain of adjacent regions end in one completed group.
pub proof fn lemma_path_in_one_group(groups: Seq<Seq<RegionData>>, items: Seq<RegionData>, corners_touch: bool, path: Seq<RegionData>)
    requires
        is_partition(groups, items),
        closed_under_adjacency(groups, items, corners_touch),
        is_adjacency_path(path, items, corners_touch),
    ensures
        same_group(groups, path[0], path.last()),
    decreases path.len(),
{
    if path.len() == 1 {
        let i = choose|i: int| 0 <= i < items.len() && items[i] == path[0];
        assert(in_some_group(groups, items[i]));
        let g = choose|g: int| 0 <= g < groups.len() && #[trigger] groups[g].contains(items[i]);
        assert(groups[g].contains(path[0]));
    } else {
        let front = path.drop_last();
        assert(items.contains(front[0]) && front[0] == path[0]);
        assert forall|k: int| 0 <= k < front.len() implies items.contains(#[trigger] front[k]) by {
            assert(front[k] == path[k]);
        }
        assert forall|k: int| 0 <= k < front.len() - 1 implies #[trigger] adjacent(front[k], front[k + 1], corners_touch) by {
            assert(front[k] == path[k] && front[k + 1] == path[k + 1]);
            assert(adjacent(path[k], path[k + 1], corners_touch));
        }
        lemma_path_in_one_group(groups, items, corners_touch, front);
        let b = path[path.len() - 2];
        let c = path.last();
        assert(front.last() == b);
        assert(adjacent(path[path.len() - 2], path[path.len() - 2 + 1], corners_touch));
        assert(items.contains(b) && items.contains(c)) by {
            assert(items.contains(path[path.len() - 2]));
            assert(items.contains(path[path.len() - 1]));
        }
        let i = choose|i: int| 0 <= i < items.len() && items[i] == b;
        let j = choose|j: int| 0 <= j < items.len() && items[j] == c;
        assert(adjacent(items[i], items[j], corners_touch));
        assert(same_group(groups, items[i], items[j]));
        let g1 = choose|g: int| 0 <= g < groups.len() && #[trigger] groups[g].contains(path[0]) && groups[g].contains(b);
        let g2 = choose|g: int| 0 <= g < groups.len() && #[trigger] groups[g].contains(b) && groups[g].contains(c);
        assert(g1 == g2);
        assert(groups[g1].contains(path[0]) && groups[g1].contains(c));
    }
}

/// `p` is a chain of item indices from a to b, each item adjacent to the next.
pub open spec fn is_index_path(items: Seq<RegionData>, p: Seq<int>, a: int, b: int, corners_touch: bool) -> bool {
    &&& p.len() >= 1
    &&& p[0] == a
    &&& p[p.len() - 1] == b
    &&& forall|k: int| 0 <= k < p.len() ==> 0 <= #[trigger] p[k] < items.len()
    &&& forall|k: int| 0 <= k < p.len() - 1 ==> #[trigger] adjacent(items[p[k]], items[p[k + 1]], corners_touch)
}

/// Items a and b are joined by a chain of adjacent items.
pub open spec fn joined(items: Seq<RegionData>, a: int, b: int, corners_touch: bool) -> bool {
    exists|p: Seq<int>| #[trigger] is_index_path(items, p, a, b, corners_touch)
}

/// Items in one group are joined by a chain of adjacent items.
pub open spec fn groups_connected(groups: Seq<Seq<RegionData>>, items: Seq<RegionData>, corners_touch: bool) -> bool {
    forall|i: int, j: int| 0 <= i < items.len() && 0 <= j < items.len() && #[trigger] same_group(groups, items[i], items[j])
        ==> joined(items, i, j, corners_touch)
}

proof fn lemma_joined_refl(items: Seq<RegionData>, a: int, c: bool)
    requires
        0 <= a < items.len(),
    ensures
        joined(items, a, a, c),
{
    assert(is_index_path(items, seq![a], a, a, c));
}

proof fn lemma_joined_edge(items: Seq<RegionData>, a: int, b: int, c: bool)
    requires
        0 <= a < items.len(),
        0 <= b < items.len(),
        adjacent(items[a], items[b], c),
    ensures
        joined(items, a, b, c),
{
    let p = seq![a, b];
    assert(adjacent(items[p[0]], items[p[1]], c));
    assert(is_index_path(items, p, a, b, c));
}

proof fn lemma_joined_trans(items: Seq<RegionData>, a: int, b: int, d: int, c: bool)
    requires
        joined(items, a, b, c),
        joined(items, b, d, c),
    ensures
        joined(items, a, d, c),
{
    let pa = choose|p: Seq<int>| #[trigger] is_index_path(items, p, a, b, c);
    let pb = choose|p: Seq<int>| #[trigger] is_index_path(items, p, b, d, c);
    let q = pa + pb.drop_first();
    assert forall|k: int| 0 <= k < q.len() implies 0 <= #[trigger] q[k] < items.len() by {
        if k >= pa.len() { assert(q[k] == pb[k - pa.len() + 1]); }
    }
    assert forall|k: int| 0 <= k < q.len() - 1 implies #[trigger] adjacent(items[q[k]], items[q[k + 1]], c) by {
        if k < pa.len() - 1 {
            assert(q[k] == pa[k] && q[k + 1] == pa[k + 1]);
        } else if k == pa.len() - 1 {
            assert(q[k] == pb[0]);
            assert(q[k + 1] == pb[1]);
            let z: int = 0;
            assert(adjacent(items[pb[z]], items[pb[z + 1]], c));
        } else {
            let m = k - pa.len() + 1;
            assert(q[k] == pb[m] && q[k + 1] == pb[m + 1]);
            assert(adjacent(items[pb[m]], items[pb[m + 1]], c));
        }
    }
    if pb.len() == 1 {
        assert(q[q.len() - 1] == pa[pa.len() - 1]);
    } else {
        assert(q[q.len() - 1] == pb[pb.len() - 1]);
    }
    assert(is_index_path(items, q, a, d, c));
}

proof fn lemma_joined_sym(items: Seq<RegionData>, a: int, b: int, c: bool)
    requires
        joined(items, a, b, c),
    ensures
        joined(items, b, a, c),
{
    let p = choose|p: Seq<int>| #[trigger] is_index_path(items, p, a, b, c);
    let q = p.reverse();
    assert forall|k: int| 0 <= k < q.len() implies 0 <= #[trigger] q[k] < items.len() by {
        assert(q[k] == p[p.len() - 1 - k]);
    }
    assert forall|k: int| 0 <= k < q.len() - 1 implies #[trigger] adjacent(items[q[k]], items[q[k + 1]], c) by {
        let m = p.len() - 2 - k;
        assert(q[k] == p[m + 1] && q[k + 1] == p[m]);
        assert(adjacent(items[p[m]], items[p[m + 1]], c));
    }
    assert(is_index_path(items, q, b, a, c));
}

proof fn lemma_joined_extend(items: Seq<RegionData>, items2: Seq<RegionData>, a: int, b: int, c: bool)
    requires
        joined(items, a, b, c),
        items.len() <= items2.len(),
        items2.subrange(0, items.len() as int) == items,
    ensures
        joined(items2, a, b, c),
{
    let p = choose|p: Seq<int>| #[trigger] is_index_path(items, p, a, b, c);
    assert forall|k: int| 0 <= k < p.len() - 1 implies #[trigger] adjacent(items2[p[k]], items2[p[k + 1]], c) by {
        assert(items2[p[k]] == items[p[k]]);
        assert(items2[p[k + 1]] == items[p[k + 1]]);
        assert(adjacent(items[p[k]], items[p[k + 1]], c));
    }
    assert(is_index_path(items2, p, a, b, c));
}

/// Two items are in one completed group exactly when a chain of adjacent
/// items joins them.
pub proof fn lemma_same_group_iff_joined(groups: Seq<Seq<RegionData>>, items: Seq<RegionData>, corners_touch: bool, i: int, j: int)
    requires
        is_partition(groups, items),
        closed_under_adjacency(groups, items, corners_touch),
        groups_connected(groups, items, corners_touch),
        0 <= i < items.len(),
        0 <= j < items.len(),
    ensures
        same_group(groups, items[i], items[j]) <==> joined(items, i, j, corners_touch),
{
    if joined(items, i, j, corners_touch) {
        let p = choose|p: Seq<int>| #[trigger] is_index_path(items, p, i, j, corners_touch);
        let path = p.map_values(|k: int| items[k]);
        assert forall|k: int| 0 <= k < path.len() implies items.contains(#[trigger] path[k]) by {
            assert(path[k] == items[p[k]]);
        }
        assert forall|k: int| 0 <= k < path.len() - 1 implies #[trigger] adjacent(path[k], path[k + 1], corners_touch) by {
            assert(path[k] == items[p[k]] && path[k + 1] == items[p[k + 1]]);
        }
        lemma_path_in_one_group(groups, items, corners_touch, path);
        assert(path[0] == items[i]);
        assert(path.last() == items[j]);
    }
}

/// Items with equal labels are joined.
pub open spec fn labels_connected(items: Seq<RegionData>, labels: Seq<usize>, corners_touch: bool) -> bool {
    forall|i: int, j: int| #![trigger labels[i], labels[j]] 0 <= i < items.len() && 0 <= j < items.len() && labels[i] == labels[j]
        ==> joined(items, i, j, corners_touch)
}

/// Relabelling one of two groups whose members `a` and `b` are adjacent
/// as the other keeps equal labels joined.
proof fn lemma_connect_merge(items: Seq<RegionData>, g0: Seq<usize>, g1: Seq<usize>, c: bool, a: int, b: int, from: usize, to: usize)
    requires
        labels_connected(items, g0, c),
        g0.len() == items.len(),
        g1.len() == items.len(),
        0 <= a < items.len(),
        0 <= b < items.len(),
        adjacent(items[a], items[b], c),
        (from == g0[a] && to == g0[b]) || (from == g0[b] && to == g0[a]),
        forall|x: int| 0 <= x < items.len() ==> #[trigger] g1[x] == if g0[x] == from { to } else { g0[x] },
    ensures
        labels_connected(items, g1, c),
{
    assert forall|i: int, j: int| #![trigger g1[i], g1[j]] 0 <= i < items.len() && 0 <= j < items.len() && g1[i] == g1[j]
        implies joined(items, i, j, c) by {
        if g0[i] == g0[j] {
            assert(joined(items, i, j, c));
        } else {
            lemma_joined_edge(items, a, b, c);
            lemma_joined_sym(items, a, b, c);
            if g0[i] == g0[a] {
                assert(g0[j] == g0[b]);
                assert(joined(items, i, a, c));
                assert(joined(items, b, j, c));
                lemma_joined_trans(items, i, a, b, c);
                lemma_joined_trans(items, i, b, j, c);
            } else {
                assert(g0[i] == g0[b] && g0[j] == g0[a]);
                assert(joined(items, i, b, c));
                assert(joined(items, a, j, c));
                lemma_joined_trans(items, i, b, a, c);
                lemma_joined_trans(items, i, a, j, c);
            }
        }
    }
}

/// Lengths never increase along the list.
pub open spec fn largest_first(groups: Seq<Vec<RegionData>>) -> bool {
    forall|i: int, j: int| 0 <= i < j < groups.len() ==> (#[trigger] groups[i])@.len() >= (#[trigger] groups[j])@.len()
}

/// Order completed groups largest first. A group's viz group number is its
/// index in the result, so larger groups get smaller numbers.
pub fn order_groups_by_size(groups: CompletedGroups) -> (r: CompletedGroups)
    ensures
        r@.to_multiset() == groups@.to_multiset(),
        largest_first(r@),
{
    broadcast use vstd::seq_lib::group_to_multiset_ensures, vstd::multiset::group_multiset_properties;
    let mut rest = groups;
    let mut out: Vec<Vec<RegionData>> = Vec::new();
    while rest.len() > 0
        invariant
            rest@.to_multiset().add(out@.to_multiset()) == groups@.to_multiset(),
            largest_first(out@),
            forall|i: int, j: int| 0 <= i < out@.len() && 0 <= j < rest@.len() ==> (#[trigger] out@[i])@.len() >= (#[trigger] rest@[j])@.len(),
        decreases rest@.len(),
    {
        let mut m: usize = 0;
        let mut i: usize = 1;
        while i < rest.len()
            invariant
                rest@.len() > 0,
                m < rest@.len(),
                1 <= i <= rest@.len(),
                m < i,
                forall|j: int| 0 <= j < i ==> (#[trigger] rest@[j])@.len() <= rest@[m as int]@.len(),
            decreases rest@.len() - i,
        {
            if rest[i].len() > rest[m].len() {
                m = i;
            }
            i += 1;
        }
        let ghost r0 = rest@;
        let ghost o0 = out@;
        let g = rest.remove(m);
        out.push(g);
        proof {
            assert(rest@ == r0.remove(m as int));
            vstd::seq_lib::to_multiset_remove(r0, m as int);
            assert(rest@.to_multiset() == r0.to_multiset().remove(r0[m as int]));
            assert(out@ == o0.push(g));
            vstd::seq_lib::to_multiset_build(o0, g);
            assert(out@.to_multiset() == o0.to_multiset().insert(g));
            vstd::seq_lib::to_multiset_contains(r0, g);
            assert(r0.to_multiset().count(g) > 0);
            assert(rest@.to_multiset().add(out@.to_multiset()) =~= r0.to_multiset().add(o0.to_multiset()));
            assert forall|a: int, b: int| 0 <= a < b < out@.len() implies (#[trigger] out@[a])@.len() >= (#[trigger] out@[b])@.len() by {
                if b == out@.len() - 1 {
                    assert(out@[a] == o0[a]);
                    assert(r0[m as int] == g);
                }
            }
            assert forall|a: int, b: int| 0 <= a < out@.len() && 0 <= b < rest@.len() implies (#[trigger] out@[a])@.len() >= (#[trigger] rest@[b])@.len() by {
                let ob = if b < m { b } else { b + 1 };
                assert(rest@[b] == r0[ob]);
                if a < o0.len() {
                    assert(out@[a] == o0[a]);
                } else {
                    assert(out@[a] == g);
                }
            }
        }
    }
    proof {
        assert(rest@.to_multiset() =~= vstd::multiset::Multiset::<Vec<RegionData>>::empty());
    }
    out
}

/// Errors from the group builder.
#[derive(Debug, Clone, Copy, PartialEq, Eq, Structural)]
pub enum VizError {
    /// A region came before its predecessor in (x, y) order.
    UnorderedInput,
}

/// Vizgroups - find all the visibility groups
pub struct VizGroups {
    /// Regions of the grid being processed, in arrival order.
    regions: Vec<RegionData>,
    /// Group number of each region.
    group_of: Vec<usize>,
    /// Group arena. Merged-away groups stay, empty.
    groups: Vec<VizGroup>,
    /// Live blocks: regions that may still touch a region yet to come.
    live_blocks: Vec<usize>,
    /// Regions whose only contact is a corner are adjacent.
    corners_touch: bool,
}

impl VizGroups {
    /// Regions accepted so far for the current grid.
    pub closed spec fn pending(&self) -> Seq<RegionData> {
        self.regions@
    }

    /// The corner rule this builder was made with.
    pub closed spec fn corner_rule(&self) -> bool {
        self.corners_touch
    }

    /// Group bookkeeping is consistent: each region is a member of exactly
    /// the group it records, and each group lists its members once.
    pub closed spec fn structure_ok(&self) -> bool {
        let n = self.regions@.len();
        &&& self.group_of@.len() == n
        &&& forall|i: int| 0 <= i < n ==> {
            &&& (#[trigger] self.group_of@[i]) < self.groups@.len()
            &&& self.groups@[self.group_of@[i] as int].members@.contains(i as usize)
        }
        &&& forall|g: int, k: int| 0 <= g < self.groups@.len() && 0 <= k < self.groups@[g].members@.len() ==> {
            &&& (#[trigger] self.groups@[g].members@[k]) < n
            &&& self.group_of@[self.groups@[g].members@[k] as int] == g
        }
        &&& forall|g: int| 0 <= g < self.groups@.len() ==> (#[trigger] self.groups@[g]).members@.no_duplicates()
    }

    /// Regions are well formed, in one grid, and strictly increasing in (x, y).
    pub closed spec fn regions_ok(&self) -> bool {
        let n = self.regions@.len();
        &&& forall|i: int| 0 <= i < n ==> (#[trigger] self.regions@[i]).wf()
        &&& forall|i: int| 0 <= i < n ==> (#[trigger] self.regions@[i]).grid@ == self.regions@[0].grid@
        &&& forall|i: int, j: int| 0 <= i < j < n ==> loc_before(#[trigger] self.regions@[i].loc(), #[trigger] self.regions@[j].loc())
    }

    /// Every region not live ends before the last region's column.
    pub closed spec fn live_ok(&self) -> bool {
        let n = self.regions@.len();
        &&& forall|k: int| 0 <= k < self.live_blocks@.len() ==> (#[trigger] self.live_blocks@[k]) < n
        &&& forall|i: int| 0 <= i < n ==> self.live_blocks@.contains(i as usize)
            || x_end(#[trigger] self.regions@[i]) < self.regions@[n - 1].region_coords_x
    }

    /// Adjacent regions share a group.
    pub closed spec fn closure_ok(&self) -> bool {
        let n = self.regions@.len();
        forall|i: int, j: int| 0 <= i < n && 0 <= j < n && #[trigger] adjacent(self.regions@[i], self.regions@[j], self.corners_touch)
            ==> self.group_of@[i] == self.group_of@[j]
    }

    /// The builder's invariant.
    pub closed spec fn inv(&self) -> bool {
        &&& self.groups@.len() == self.regions@.len()
        &&& self.structure_ok()
        &&& self.regions_ok()
        &&& self.live_ok()
        &&& self.closure_ok()
        &&& labels_connected(self.regions@, self.group_of@, self.corners_touch)
    }

    /// Usual new
    pub fn new(detect_corners_touching: bool) -> (r: VizGroups)
        ensures
            r.inv(),
            r.pending().len() == 0,
            r.corner_rule() == detect_corners_touching,
    {
        VizGroups {
            regions: Vec::new(),
            group_of: Vec::new(),
            groups: Vec::new(),
            live_blocks: Vec::new(),
            corners_touch: detect_corners_touching,
        }
    }

    /// Merge group `gb` into group `ga`: every member of `gb` is relabelled `ga`.
    fn merge_groups(&mut self, ga: usize, gb: usize)
        requires
            old(self).structure_ok(),
            ga < old(self).groups@.len(),
            gb < old(self).groups@.len(),
            ga != gb,
        ensures
            final(self).structure_ok(),
            final(self).regions == old(self).regions,
            final(self).live_blocks == old(self).live_blocks,
            final(self).corners_touch == old(self).corners_touch,
            final(self).groups@.len() == old(self).groups@.len(),
            forall|i: int| 0 <= i < old(self).group_of@.len() ==> #[trigger] final(self).group_of@[i]
                == if old(self).group_of@[i] == gb { ga } else { old(self).group_of@[i] },
    {
        let ghost g0 = self.group_of@;
        let gl = self.group_of.len();
        let ghost old_groups = self.groups@;
        let mut taken = VizGroup { members: Vec::new() };
        std::mem::swap(&mut self.groups[gb], &mut taken);
        let ghost moved = taken.members@;
        assert(moved == old_groups[gb as int].members@);
        let mut k: usize = 0;
        while k < taken.members.len()
            invariant
                0 <= k <= taken.members@.len(),
                taken.members@ == moved,
                self.group_of@.len() == g0.len(),
                self.regions == old(self).regions,
                self.live_blocks == old(self).live_blocks,
                self.corners_touch == old(self).corners_touch,
                g0.len() == gl as int,
                self.groups@.len() == old_groups.len(),
                forall|g: int| 0 <= g < old_groups.len() && g != gb ==> #[trigger] self.groups@[g] == old_groups[g],
                self.groups@[gb as int].members@.len() == 0,
                forall|j: int| 0 <= j < moved.len() ==> (#[trigger] moved[j]) < g0.len() && g0[moved[j] as int] == gb,
                forall|i: int| 0 <= i < g0.len() ==> #[trigger] self.group_of@[i]
                    == if moved.subrange(0, k as int).contains(i as usize) { ga } else { g0[i] },
            decreases taken.members@.len() - k,
        {
            let m = taken.members[k];
            self.group_of.set(m, ga);
            proof {
                assert forall|i: int| 0 <= i < g0.len() implies #[trigger] self.group_of@[i]
                    == if moved.subrange(0, k + 1).contains(i as usize) { ga } else { g0[i] } by {
                    if i == m as int {
                        assert(moved.subrange(0, k + 1)[k as int] == m);
                    } else {
                        if moved.subrange(0, k + 1).contains(i as usize) {
                            let t = choose|t: int| 0 <= t < k + 1 && #[trigger] moved.subrange(0, k + 1)[t] == i as usize;
                            assert(moved.subrange(0, k + 1)[t] == moved[t]);
                            assert(moved.subrange(0, k + 1)[k as int] == m);
                            assert(t != k);
                            assert(moved.subrange(0, k as int)[t] == moved[t]);
                        }
                        if moved.subrange(0, k as int).contains(i as usize) {
                            let t = choose|t: int| 0 <= t < k && #[trigger] moved.subrange(0, k as int)[t] == i as usize;
                            assert(moved.subrange(0, k + 1)[t] == moved[t]);
                            assert(moved.subrange(0, k + 1)[t] == i as usize);
                        }
                    }
                }
            }
            k += 1;
        }
        assert(moved.subrange(0, moved.len() as int) == moved);
        self.groups[ga].merge(&mut taken);
        proof {
            let n = self.regions@.len();
            let ma = old_groups[ga as int].members@;
            assert(self.groups@[ga as int].members@ == ma + moved);
            assert forall|i: int| 0 <= i < n implies {
                &&& (#[trigger] self.group_of@[i]) < self.groups@.len()
                &&& self.groups@[self.group_of@[i] as int].members@.contains(i as usize)
            } by {
                if moved.contains(i as usize) {
                    let t = choose|t: int| 0 <= t < moved.len() && #[trigger] moved[t] == i as usize;
                    assert((ma + moved)[ma.len() + t] == i as usize);
                } else {
                    assert(old_groups[g0[i] as int].members@.contains(i as usize));
                    if g0[i] == gb {
                        assert(false);
                    }
                    if g0[i] == ga {
                        let t = choose|t: int| 0 <= t < ma.len() && #[trigger] ma[t] == i as usize;
                        assert((ma + moved)[t] == i as usize);
                    }
                }
            }
            assert forall|g: int, k: int| 0 <= g < self.groups@.len() && 0 <= k < self.groups@[g].members@.len() implies {
                &&& (#[trigger] self.groups@[g].members@[k]) < n
                &&& self.group_of@[self.groups@[g].members@[k] as int] == g
            } by {
                let m = self.groups@[g].members@[k];
                if g == ga as int {
                    if k < ma.len() {
                        assert(m == ma[k]);
                        assert(g0[m as int] == ga);
                        if moved.contains(m) {
                            let t = choose|t: int| 0 <= t < moved.len() && #[trigger] moved[t] == m;
                            assert(g0[moved[t] as int] == gb);
                        }
                    } else {
                        assert(m == moved[k - ma.len()]);
                        assert(moved.contains(m));
                    }
                } else {
                    assert(self.groups@[g] == old_groups[g]);
                    assert(g0[m as int] == g);
                    if moved.contains(m) {
                        let t = choose|t: int| 0 <= t < moved.len() && #[trigger] moved[t] == m;
                        assert(g0[moved[t] as int] == gb);
                    }
                }
            }
            assert forall|g: int| 0 <= g < self.groups@.len() implies (#[trigger] self.groups@[g]).members@.no_duplicates() by {
                if g == ga as int {
                    assert forall|a: int, b: int| 0 <= a < b < (ma + moved).len() implies (ma + moved)[a] != (ma + moved)[b] by {
                        if a < ma.len() && b >= ma.len() {
                            assert(g0[ma[a] as int] == ga);
                            assert(g0[moved[b - ma.len()] as int] == gb);
                        } else if a >= ma.len() {
                            assert(old_groups[gb as int].members@.no_duplicates());
                        } else {
                            assert(old_groups[ga as int].members@.no_duplicates());
                        }
                    }
                }
            }
        }
    }

    /// Purge all live blocks whose right edge is left of the limit: they can
    /// touch no region at or beyond it.
    fn purge_below_x_limit(&mut self, x_limit: u32)
        requires
            old(self).live_ok(),
            old(self).regions_ok(),
        ensures
            final(self).regions == old(self).regions,
            final(self).group_of == old(self).group_of,
            final(self).groups == old(self).groups,
            final(self).corners_touch == old(self).corners_touch,
            forall|k: int| 0 <= k < final(self).live_blocks@.len() ==> old(self).live_blocks@.contains(#[trigger] final(self).live_blocks@[k]),
            forall|i: usize| old(self).live_blocks@.contains(i) && x_end(old(self).regions@[i as int]) >= x_limit
                ==> #[trigger] final(self).live_blocks@.contains(i),
    {
        let mut kept: Vec<usize> = Vec::new();
        let mut k: usize = 0;
        while k < self.live_blocks.len()
            invariant
                0 <= k <= self.live_blocks@.len(),
                self.live_ok(),
                self.regions_ok(),
                forall|t: int| 0 <= t < kept@.len() ==> self.live_blocks@.contains(#[trigger] kept@[t]),
                forall|t: int| 0 <= t < k && x_end(self.regions@[self.live_blocks@[t] as int]) >= x_limit
                    ==> kept@.contains(#[trigger] self.live_blocks@[t]),
            decreases self.live_blocks@.len() - k,
        {
            let li = self.live_blocks[k];
            let r = &self.regions[li];
            assert(self.regions@[li as int].wf());
            let ghost kept0 = kept@;
            if r.region_coords_x + r.size_x >= x_limit {
                kept.push(li);
                assert(kept@[kept@.len() - 1] == li);
            }
            proof {
                assert forall|t: int| 0 <= t < k + 1 && x_end(self.regions@[self.live_blocks@[t] as int]) >= x_limit
                    implies kept@.contains(#[trigger] self.live_blocks@[t]) by {
                    if t < k {
                        let u = choose|u: int| 0 <= u < kept0.len() && #[trigger] kept0[u] == self.live_blocks@[t];
                        assert(kept@[u] == kept0[u]);
                    } else {
                        assert(kept@[kept@.len() - 1] == li);
                    }
                }
                assert forall|t: int| 0 <= t < kept@.len() implies self.live_blocks@.contains(#[trigger] kept@[t]) by {
                    if t == kept@.len() - 1 && x_end(self.regions@[li as int]) >= x_limit {
                        assert(self.live_blocks@[k as int] == li);
                    }
                }
            }
            k += 1;
        }
        proof {
            assert forall|i: usize| self.live_blocks@.contains(i) && x_end(self.regions@[i as int]) >= x_limit
                implies #[trigger] kept@.contains(i) by {
                let t = choose|t: int| 0 <= t < self.live_blocks@.len() && #[trigger] self.live_blocks@[t] == i;
            }
        }
        self.live_blocks = kept;
    }

    /// Add a region of the current grid that comes strictly after every
    /// region accepted so far, and merge its group with every group it touches.
    fn add_to_grid(&mut self, r: RegionData)
        requires
            old(self).inv(),
            r.wf(),
            old(self).regions@.len() > 0 ==> r.grid@ == old(self).regions@[0].grid@,
            old(self).regions@.len() > 0 ==> loc_before(old(self).regions@.last().loc(), r.loc()),
            old(self).regions@.len() < usize::MAX - 1,
        ensures
            final(self).inv(),
            final(self).regions@ == old(self).regions@.push(r),
            final(self).corners_touch == old(self).corners_touch,
    {
        let n = self.regions.len();
        if n > 0 {
            let last_x = self.regions[n - 1].region_coords_x;
            if r.region_coords_x > last_x {
                self.purge_below_x_limit(r.region_coords_x);
            }
        }
        let ghost purged = self.live_blocks@;
        let ghost before = self.regions@;
        let gnew = self.groups.len();
        self.regions.push(r);
        self.group_of.push(gnew);
        self.groups.push(VizGroup::new(n));
        proof {
            let ns = self.regions@.len();
            assert(self.regions@[n as int] == r);
            assert forall|i: int| 0 <= i < ns implies {
                &&& (#[trigger] self.group_of@[i]) < self.groups@.len()
                &&& self.groups@[self.group_of@[i] as int].members@.contains(i as usize)
            } by {
                if i == n as int {
                    assert(self.groups@[gnew as int].members@[0] == n);
                }
            }
            assert forall|g: int| 0 <= g < self.groups@.len() implies (#[trigger] self.groups@[g]).members@.no_duplicates() by {
                if g == gnew as int {
                    assert(self.groups@[g].members@ == seq![n]);
                }
            }
            assert forall|i: int, j: int| 0 <= i < j < ns implies loc_before(#[trigger] self.regions@[i].loc(), #[trigger] self.regions@[j].loc()) by {
                if j == n as int && i < n as int {
                    assert(before[i] == self.regions@[i]);
                    if i < n - 1 {
                        assert(loc_before(before[i].loc(), before[n - 1].loc()));
                    }
                }
            }
            assert(self.structure_ok());
            assert(self.regions_ok());
            let items = self.regions@;
            assert(items.subrange(0, before.len() as int) =~= before);
            assert forall|i: int, j: int| #![trigger self.group_of@[i], self.group_of@[j]]
                0 <= i < items.len() && 0 <= j < items.len() && self.group_of@[i] == self.group_of@[j]
                implies joined(items, i, j, self.corners_touch) by {
                if i < n && j < n {
                    assert(old(self).group_of@[i] == self.group_of@[i] && old(self).group_of@[j] == self.group_of@[j]);
                    assert(joined(before, i, j, self.corners_touch));
                    lemma_joined_extend(before, items, i, j, self.corners_touch);
                } else if i == n as int && j == n as int {
                    lemma_joined_refl(items, i, self.corners_touch);
                } else if i == n as int {
                    assert(self.group_of@[j] < gnew);
                } else {
                    assert(self.group_of@[i] < gnew);
                }
            }
        }
        let mut k: usize = 0;
        while k < self.live_blocks.len()
            invariant
                0 <= k <= self.live_blocks@.len(),
                self.live_blocks@ == purged,
                self.regions@ == before.push(r),
                self.regions@.len() == n + 1,
                self.structure_ok(),
                self.regions_ok(),
                self.groups@.len() == gnew + 1,
                gnew == n,
                self.corners_touch == old(self).corners_touch,
                labels_connected(self.regions@, self.group_of@, self.corners_touch),
                forall|t: int| 0 <= t < purged.len() ==> (#[trigger] purged[t]) < n,
                forall|i: int, j: int| 0 <= i < n && 0 <= j < n && #[trigger] adjacent(self.regions@[i], self.regions@[j], self.corners_touch)
                    ==> self.group_of@[i] == self.group_of@[j],
                forall|t: int| 0 <= t < k && #[trigger] adjacent(self.regions@[purged[t] as int], r, self.corners_touch)
                    ==> self.group_of@[purged[t] as int] == self.group_of@[n as int],
            decreases self.live_blocks@.len() - k,
        {
            let li = self.live_blocks[k];
            let touch = regions_touch(&self.regions[li], &self.regions[n], self.corners_touch);
            let ga = self.group_of[li];
            let gb = self.group_of[n];
            if touch && ga != gb {
                let ghost g0 = self.group_of@;
                if self.groups[ga].members.len() >= self.groups[gb].members.len() {
                    self.merge_groups(ga, gb);
                } else {
                    self.merge_groups(gb, ga);
                }
                proof {
                    if self.group_of@[li as int] == ga {
                        lemma_connect_merge(self.regions@, g0, self.group_of@, self.corners_touch, li as int, n as int, gb, ga);
                    } else {
                        lemma_connect_merge(self.regions@, g0, self.group_of@, self.corners_touch, li as int, n as int, ga, gb);
                    }
                    assert(self.group_of@[li as int] == self.group_of@[n as int]);
                    assert forall|t: int| 0 <= t < k + 1 && #[trigger] adjacent(self.regions@[purged[t] as int], r, self.corners_touch)
                        implies self.group_of@[purged[t] as int] == self.group_of@[n as int] by {
                        if t < k {
                            assert(g0[purged[t] as int] == g0[n as int]);
                        }
                    }
                    assert forall|i: int, j: int| 0 <= i < n && 0 <= j < n && #[trigger] adjacent(self.regions@[i], self.regions@[j], self.corners_touch)
                        implies self.group_of@[i] == self.group_of@[j] by {
                        assert(g0[i] == g0[j]);
                    }
                }
            }
            k += 1;
        }
        self.live_blocks.push(n);
        proof {
            let ns = n + 1;
            assert forall|i: int, j: int| 0 <= i < ns && 0 <= j < ns && #[trigger] adjacent(self.regions@[i], self.regions@[j], self.corners_touch)
                implies self.group_of@[i] == self.group_of@[j] by {
                if i == n as int && j < n as int {
                    assert(adjacent(self.regions@[j], r, self.corners_touch));
                    if !purged.contains(j as usize) {
                        assert(x_end(self.regions@[j]) < r.region_coords_x);
                    }
                    let t = choose|t: int| 0 <= t < purged.len() && #[trigger] purged[t] == j as usize;
                } else if j == n as int && i < n as int {
                    if !purged.contains(i as usize) {
                        assert(x_end(self.regions@[i]) < r.region_coords_x);
                    }
                    let t = choose|t: int| 0 <= t < purged.len() && #[trigger] purged[t] == i as usize;
                }
            }
            assert forall|i: int| 0 <= i < ns implies self.live_blocks@.contains(i as usize)
                || x_end(#[trigger] self.regions@[i]) < self.regions@[ns - 1].region_coords_x by {
                if i == n as int {
                    assert(self.live_blocks@[purged.len() as int] == n);
                } else if purged.contains(i as usize) {
                    let t = choose|t: int| 0 <= t < purged.len() && #[trigger] purged[t] == i as usize;
                    assert(self.live_blocks@[t] == i as usize);
                }
            }
        }
    }

    /// Indices below `i` of the regions in group `g`, ascending.
    closed spec fn idx_upto(&self, g: int, i: int) -> Seq<int>
        decreases i,
    {
        if i <= 0 {
            Seq::empty()
        } else if self.group_of@[i - 1] == g {
            self.idx_upto(g, i - 1).push(i - 1)
        } else {
            self.idx_upto(g, i - 1)
        }
    }

    /// The regions below index `i` in group `g`, in input order.
    closed spec fn members_upto(&self, g: int, i: int) -> Seq<RegionData> {
        self.idx_upto(g, i).map_values(|j: int| self.regions@[j])
    }

    proof fn lemma_idx_upto(&self, g: int, i: int)
        requires
            0 <= i <= self.group_of@.len(),
        ensures
            forall|k: int| 0 <= k < self.idx_upto(g, i).len() ==> 0 <= #[trigger] self.idx_upto(g, i)[k] < i
                && self.group_of@[self.idx_upto(g, i)[k]] == g,
            forall|k1: int, k2: int| 0 <= k1 < k2 < self.idx_upto(g, i).len() ==> #[trigger] self.idx_upto(g, i)[k1] < #[trigger] self.idx_upto(g, i)[k2],
            forall|j: int| 0 <= j < i && self.group_of@[j] == g ==> #[trigger] self.idx_upto(g, i).contains(j),
        decreases i,
    {
        if i > 0 {
            self.lemma_idx_upto(g, i - 1);
            let p = self.idx_upto(g, i - 1);
            if self.group_of@[i - 1] == g {
                let q = p.push(i - 1);
                assert(self.idx_upto(g, i) == q);
                assert forall|j: int| 0 <= j < i && self.group_of@[j] == g implies #[trigger] q.contains(j) by {
                    if j == i - 1 {
                        assert(q[q.len() - 1] == j);
                    } else {
                        assert(p.contains(j));
                        let k = choose|k: int| 0 <= k < p.len() && p[k] == j;
                        assert(q[k] == j);
                    }
                }
            } else {
                assert(self.idx_upto(g, i) == p);
                assert forall|j: int| 0 <= j < i && self.group_of@[j] == g implies #[trigger] p.contains(j) by {
                    assert(j != i - 1);
                }
            }
        }
    }

    /// Distinct region indices hold distinct regions.
    proof fn lemma_regions_distinct(&self, a: int, b: int)
        requires
            self.regions_ok(),
            0 <= a < self.regions@.len(),
            0 <= b < self.regions@.len(),
            self.regions@[a] == self.regions@[b],
        ensures
            a == b,
    {
        if a < b {
            assert(loc_before(self.regions@[a].loc(), self.regions@[b].loc()));
        } else if b < a {
            assert(loc_before(self.regions@[b].loc(), self.regions@[a].loc()));
        }
    }

    /// Gather the groups as lists of regions, each in input order, the
    /// groups ordered by their first member.
    fn collect_groups(&self) -> (r: CompletedGroups)
        requires
            self.inv(),
        ensures
            is_partition(groups_view(r), self.regions@),
            closed_under_adjacency(groups_view(r), self.regions@, self.corners_touch),
            groups_sorted(groups_view(r)),
            groups_connected(groups_view(r), self.regions@, self.corners_touch),
    {
        let n = self.regions.len();
        let n_groups = self.groups.len();
        let mut slot: Vec<usize> = Vec::new();
        let mut g: usize = 0;
        while g < n_groups
            invariant
                0 <= g <= n_groups,
                slot@.len() == g,
                forall|h: int| 0 <= h < g ==> #[trigger] slot@[h] == usize::MAX,
            decreases n_groups - g,
        {
            slot.push(usize::MAX);
            g += 1;
        }
        let mut out: Vec<Vec<RegionData>> = Vec::new();
        let ghost mut gid: Seq<int> = seq![];
        let mut i: usize = 0;
        while i < n
            invariant
                self.inv(),
                n == self.regions@.len(),
                n_groups == self.groups@.len(),
                0 <= i <= n,
                slot@.len() == n_groups,
                out@.len() == gid.len(),
                out@.len() <= i,
                forall|h: int| 0 <= h < n_groups && #[trigger] slot@[h] == usize::MAX ==> forall|j: int| 0 <= j < i ==> self.group_of@[j] != h,
                forall|h: int| 0 <= h < n_groups && #[trigger] slot@[h] != usize::MAX ==> slot@[h] < out@.len() && gid[slot@[h] as int] == h,
                forall|t: int| 0 <= t < gid.len() ==> 0 <= #[trigger] gid[t] < n_groups && slot@[gid[t]] == t,
                forall|t: int| 0 <= t < gid.len() ==> (#[trigger] out@[t])@ == self.members_upto(gid[t], i as int),
                forall|t: int| 0 <= t < gid.len() ==> (#[trigger] out@[t])@.len() > 0,
            decreases n - i,
        {
            let gi = self.group_of[i];
            let copy = self.regions[i].duplicate();
            let ghost out0 = out@;
            proof {
                assert forall|h: int| #![auto] 0 <= h < gid.len() implies self.idx_upto(h, i + 1) == self.idx_upto(h, i as int) || h == gi by {}
            }
            if slot[gi] == usize::MAX {
                let t = out.len();
                let mut v: Vec<RegionData> = Vec::new();
                v.push(copy);
                out.push(v);
                slot.set(gi, t);
                proof {
                    gid = gid.push(gi as int);
                    assert(self.idx_upto(gi as int, i as int) =~= Seq::<int>::empty()) by {
                        self.lemma_idx_upto(gi as int, i as int);
                        if self.idx_upto(gi as int, i as int).len() > 0 {
                            let j = self.idx_upto(gi as int, i as int)[0];
                            assert(self.group_of@[j] == gi);
                        }
                    }
                    assert(out@[t as int]@ =~= self.members_upto(gi as int, i + 1));
                    assert forall|u: int| 0 <= u < gid.len() implies (#[trigger] out@[u])@ == self.members_upto(gid[u], i + 1) by {
                        if u < t {
                            assert(out@[u] == out0[u]);
                            assert(gid[u] != gi);
                            assert(self.idx_upto(gid[u], i + 1) == self.idx_upto(gid[u], i as int));
                        }
                    }
                    assert forall|u: int| 0 <= u < gid.len() implies (#[trigger] out@[u])@.len() > 0 by {
                        if u < t { assert(out@[u] == out0[u]); }
                    }
                }
            } else {
                let t = slot[gi];
                out[t].push(copy);
                proof {
                    assert(out@[t as int]@ =~= self.members_upto(gi as int, i + 1));
                    assert forall|u: int| 0 <= u < gid.len() implies (#[trigger] out@[u])@ == self.members_upto(gid[u], i + 1) by {
                        if u != t {
                            assert(out@[u] == out0[u]);
                            assert(gid[u] != gi);
                            assert(self.idx_upto(gid[u], i + 1) == self.idx_upto(gid[u], i as int));
                        }
                    }
                    assert forall|u: int| 0 <= u < gid.len() implies (#[trigger] out@[u])@.len() > 0 by {
                        if u != t { assert(out@[u] == out0[u]); }
                    }
                }
            }
            i += 1;
        }
        proof {
            let gv = groups_view(out);
            assert forall|t: int| 0 <= t < gv.len() implies #[trigger] gv[t] == self.members_upto(gid[t], n as int) by {
                assert(gv[t] == out@[t]@);
            }
            assert forall|t: int| 0 <= t < gv.len() implies #[trigger] gv[t].len() > 0 by {
                assert(gv[t] == out@[t]@);
            }
            assert forall|t: int, k: int| 0 <= t < gv.len() && 0 <= k < gv[t].len() implies self.regions@.contains(#[trigger] gv[t][k]) by {
                self.lemma_idx_upto(gid[t], n as int);
                let j = self.idx_upto(gid[t], n as int)[k];
                assert(gv[t][k] == self.regions@[j]);
            }
            assert forall|i: int| 0 <= i < n implies #[trigger] in_some_group(gv, self.regions@[i]) by {
                let gi = self.group_of@[i] as int;
                self.lemma_idx_upto(gi, n as int);
                assert(slot@[gi] != usize::MAX);
                let t = slot@[gi] as int;
                let ix = self.idx_upto(gi, n as int);
                assert(ix.contains(i));
                let k = choose|k: int| 0 <= k < ix.len() && ix[k] == i;
                assert(gv[t][k] == self.regions@[i]);
                assert(gv[t].contains(self.regions@[i]));
            }
            assert forall|t1: int, t2: int, x: RegionData| 0 <= t1 < gv.len() && 0 <= t2 < gv.len()
                && #[trigger] gv[t1].contains(x) && #[trigger] gv[t2].contains(x) implies t1 == t2 by {
                self.lemma_idx_upto(gid[t1], n as int);
                self.lemma_idx_upto(gid[t2], n as int);
                let k1 = choose|k: int| 0 <= k < gv[t1].len() && #[trigger] gv[t1][k] == x;
                let k2 = choose|k: int| 0 <= k < gv[t2].len() && #[trigger] gv[t2][k] == x;
                let j1 = self.idx_upto(gid[t1], n as int)[k1];
                let j2 = self.idx_upto(gid[t2], n as int)[k2];
                assert(self.regions@[j1] == x);
                assert(self.regions@[j2] == x);
                self.lemma_regions_distinct(j1, j2);
            }
            assert forall|i: int, j: int| 0 <= i < n && 0 <= j < n
                && #[trigger] adjacent(self.regions@[i], self.regions@[j], self.corners_touch)
                implies same_group(gv, self.regions@[i], self.regions@[j]) by {
                let gi = self.group_of@[i] as int;
                self.lemma_idx_upto(gi, n as int);
                let t = slot@[gi] as int;
                let ix = self.idx_upto(gi, n as int);
                assert(ix.contains(i));
                assert(ix.contains(j));
                let ki = choose|k: int| 0 <= k < ix.len() && ix[k] == i;
                let kj = choose|k: int| 0 <= k < ix.len() && ix[k] == j;
                assert(gv[t][ki] == self.regions@[i]);
                assert(gv[t][kj] == self.regions@[j]);
                assert(gv[t].contains(self.regions@[i]));
                assert(gv[t].contains(self.regions@[j]));
            }
            assert forall|i: int, j: int| 0 <= i < n && 0 <= j < n && #[trigger] same_group(gv, self.regions@[i], self.regions@[j])
                implies joined(self.regions@, i, j, self.corners_touch) by {
                let t = choose|t: int| 0 <= t < gv.len() && #[trigger] gv[t].contains(self.regions@[i]) && gv[t].contains(self.regions@[j]);
                self.lemma_idx_upto(gid[t], n as int);
                let ix = self.idx_upto(gid[t], n as int);
                let k1 = choose|k: int| 0 <= k < gv[t].len() && #[trigger] gv[t][k] == self.regions@[i];
                let k2 = choose|k: int| 0 <= k < gv[t].len() && #[trigger] gv[t][k] == self.regions@[j];
                assert(gv[t][k1] == self.regions@[ix[k1]]);
                assert(gv[t][k2] == self.regions@[ix[k2]]);
                self.lemma_regions_distinct(ix[k1], i);
                self.lemma_regions_distinct(ix[k2], j);
                assert(self.group_of@[i] == self.group_of@[j]);
            }
            assert forall|t: int, k1: int, k2: int| 0 <= t < gv.len() && 0 <= k1 < k2 < gv[t].len()
                implies loc_before(#[trigger] gv[t][k1].loc(), #[trigger] gv[t][k2].loc()) by {
                self.lemma_idx_upto(gid[t], n as int);
                let ix = self.idx_upto(gid[t], n as int);
                assert(ix[k1] < ix[k2]);
                assert(gv[t][k1] == self.regions@[ix[k1]]);
                assert(gv[t][k2] == self.regions@[ix[k2]]);
            }
        }
        out
    }

    /// End of input for one grid. Returns the completed groups, which
    /// partition the grid's regions, and resets to ground state.
    pub fn end_grid(&mut self) -> (r: CompletedGroups)
        requires
            old(self).inv(),
        ensures
            final(self).inv(),
            final(self).pending().len() == 0,
            final(self).corner_rule() == old(self).corner_rule(),
            is_partition(groups_view(r), old(self).pending()),
            closed_under_adjacency(groups_view(r), old(self).pending(), old(self).corner_rule()),
            groups_sorted(groups_view(r)),
            groups_connected(groups_view(r), old(self).pending(), old(self).corner_rule()),
    {
        let result = self.collect_groups();
        self.clear();
        result
    }

    /// Add one region. Regions must come sorted by (grid, x, y).
    /// A region at the same place as the previous one is a duplicate and is
    /// dropped. When the grid changes, the previous grid's completed groups
    /// are returned. A region before its predecessor is refused.
    pub fn add_region_data(&mut self, region_data: RegionData) -> (r: Result<Option<CompletedGroups>, VizError>)
        requires
            old(self).inv(),
            region_data.wf(),
            old(self).pending().len() < usize::MAX - 1,
        ensures
            final(self).inv(),
            final(self).corner_rule() == old(self).corner_rule(),
            ({
                let p = old(self).pending();
                if p.len() == 0 {
                    r == Ok::<Option<CompletedGroups>, VizError>(None) && final(self).pending() == seq![region_data]
                } else if region_data.grid@ != p[0].grid@ {
                    &&& r matches Ok(Some(g))
                    &&& is_partition(groups_view(r->Ok_0->Some_0), p)
                    &&& closed_under_adjacency(groups_view(r->Ok_0->Some_0), p, old(self).corner_rule())
                    &&& groups_sorted(groups_view(r->Ok_0->Some_0))
                    &&& groups_connected(groups_view(r->Ok_0->Some_0), p, old(self).corner_rule())
                    &&& final(self).pending() == seq![region_data]
                } else if loc_before(region_data.loc(), p.last().loc()) {
                    r == Err::<Option<CompletedGroups>, VizError>(VizError::UnorderedInput) && final(self).pending() == p
                } else if region_data.loc() == p.last().loc() {
                    r == Ok::<Option<CompletedGroups>, VizError>(None) && final(self).pending() == p
                } else {
                    r == Ok::<Option<CompletedGroups>, VizError>(None) && final(self).pending() == p.push(region_data)
                }
            }),
    {
        let n = self.regions.len();
        if n == 0 {
            self.add_to_grid(region_data);
            return Ok(None);
        }
        if !(region_data.grid == self.regions[0].grid) {
            let done = self.end_grid();
            self.add_to_grid(region_data);
            return Ok(Some(done));
        }
        let last = &self.regions[n - 1];
        if region_data.region_coords_x < last.region_coords_x
            || (region_data.region_coords_x == last.region_coords_x && region_data.region_coords_y < last.region_coords_y) {
            return Err(VizError::UnorderedInput);
        }
        if region_data.region_coords_x == last.region_coords_x && region_data.region_coords_y == last.region_coords_y {
            return Ok(None);
        }
        proof {
            assert(self.regions@[0].grid@ == region_data.grid@);
        }
        self.add_to_grid(region_data);
        Ok(None)
    }

    /// Reset to ground state. Done after each grid.
    pub fn clear(&mut self)
        ensures
            final(self).inv(),
            final(self).pending().len() == 0,
            final(self).corner_rule() == old(self).corner_rule(),
    {
        self.regions = Vec::new();
        self.group_of = Vec::new();
        self.groups = Vec::new();
        self.live_blocks = Vec::new();
    }
}

} // verus!
