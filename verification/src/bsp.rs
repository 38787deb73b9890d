use vstd::prelude::*;
use vstd::math::abs;
use vstd::arithmetic::div_mod::lemma_div_is_ordered_by_denominator;
use crate::records::Thing;
use crate::records::LineDef;
use crate::records::SideDef;
use crate::records::Vertex;
use crate::records::Seg;
use crate::records::SubSector;
use crate::records::Sector;
use crate::records::Node;
use crate::records::ChildRef;
use crate::encode::node_encodable;
use crate::bytes::le16s;
use crate::error::FormatError;
use crate::records::things_match;
use crate::records::linedef_matches;
use crate::records::sidedef_matches;
use crate::records::seg_matches;
use crate::records::subsector_matches;
use crate::records::node_matches;
use crate::records::linedefs_match;
use crate::records::sidedefs_match;
use crate::records::vertices_match;
use crate::records::segs_match;
use crate::records::subsectors_match;
use crate::records::nodes_match;
use crate::records::sectors_match;
use crate::records::sidedefs_text_ok;
use crate::records::sectors_text_ok;
use crate::name::Name8;

verus! {

/// Division that truncates toward zero: the quotient of the magnitudes,
/// negated when exactly one operand is negative. This is the semantics of
/// machine integer division.
pub open spec fn trunc_div(a: int, b: int) -> int
    recommends
        b != 0,
{
    if (a < 0) != (b < 0) {
        -((abs(a) as int) / (abs(b) as int))
    } else {
        (abs(a) as int) / (abs(b) as int)
    }
}

/// The magnitude of a truncating quotient never exceeds the dividend's.
proof fn lemma_trunc_div_bound(a: int, b: int)
    requires
        b != 0,
    ensures
        abs(trunc_div(a, b)) <= abs(a),
{
    broadcast use vstd::arithmetic::div_mod::group_div_basics;
    lemma_div_is_ordered_by_denominator(abs(a) as int, 1, abs(b) as int);
}

/// Truncating division on 64-bit values.
fn div_trunc_i64(a: i64, b: i64) -> (q: i64)
    requires
        b != 0,
        a != i64::MIN,
        b != i64::MIN,
    ensures
        q as int == trunc_div(a as int, b as int),
{
    let ua: u64 = if a < 0 { (-a) as u64 } else { a as u64 };
    let ub: u64 = if b < 0 { (-b) as u64 } else { b as u64 };
    let uq: u64 = ua / ub;
    proof {
        broadcast use vstd::arithmetic::div_mod::group_div_basics;
        lemma_div_is_ordered_by_denominator(ua as int, 1, ub as int);
    }
    if (a < 0) != (b < 0) {
        -(uq as i64)
    } else {
        uq as i64
    }
}

/// Which side of a partition line a query point lies on: true for the
/// right half-space, false for the left. A vertical line compares the x
/// coordinates; a line of zero truncated slope compares the y coordinates;
/// any other line compares the point's x against the line's x at the
/// point's y, computed with truncating integer division throughout.
pub open spec fn check_line_spec(sx: int, sy: int, dx: int, dy: int, px: int, py: int) -> bool {
    if dx == 0 {
        (px > sx) != (dy < 0)
    } else {
        let slope = trunc_div(dy, dx);
        if slope == 0 {
            (py < sy) != (dx < 0)
        } else {
            let y_intercept = sy - slope * sx;
            let line_x = trunc_div(py - y_intercept, slope);
            (px > line_x) != (dy < 0)
        }
    }
}

/// Classify a query point against the partition line that starts at
/// `start` and runs along `change`: false means left of the line, true
/// means right.
pub fn check_line(start: &Vec<i16>, change: &Vec<i16>, loc: &Vertex) -> (r: bool)
    requires
        start@.len() == 2,
        change@.len() == 2,
    ensures
        r == check_line_spec(
            start@[0] as int, start@[1] as int,
            change@[0] as int, change@[1] as int,
            loc.x as int, loc.y as int,
        ),
{
    let sx: i64 = start[0] as i64;
    let sy: i64 = start[1] as i64;
    let dx: i64 = change[0] as i64;
    let dy: i64 = change[1] as i64;
    let px: i64 = loc.x as i64;
    let py: i64 = loc.y as i64;
    if dx == 0 {
        (px > sx) != (dy < 0)
    } else {
        let slope: i64 = div_trunc_i64(dy, dx);
        proof {
            lemma_trunc_div_bound(dy as int, dx as int);
        }
        if slope == 0 {
            (py < sy) != (dx < 0)
        } else {
            proof {
                assert(-0x4000_0000 <= (slope as int) * (sx as int) <= 0x4000_0000)
                    by (nonlinear_arith)
                    requires -0x8000 <= slope <= 0x8000, -0x8000 <= sx <= 0x8000;
            }
            let y_intercept: i64 = sy - slope * sx;
            let line_x: i64 = div_trunc_i64(py - y_intercept, slope);
            (px > line_x) != (dy < 0)
        }
    }
}

/// Whether a vertex lies strictly inside a bounding box given as top,
/// bottom, left, right.
pub fn check_box(loc: &Vertex, bounding_box: &Vec<i16>) -> (r: bool)
    requires
        bounding_box@.len() == 4,
    ensures
        r == (loc.y < bounding_box@[0] && loc.y > bounding_box@[1]
            && loc.x > bounding_box@[2] && loc.x < bounding_box@[3]),
{
    loc.y < bounding_box[0] && loc.y > bounding_box[1]
        && loc.x > bounding_box[2] && loc.x < bounding_box[3]
}

/// The side test applied to a node's partition line.
pub open spec fn side_of(n: Node, p: Vertex) -> bool {
    check_line_spec(
        n.start@[0] as int, n.start@[1] as int,
        n.change@[0] as int, n.change@[1] as int,
        p.x as int, p.y as int,
    )
}

/// A child reference that can only lead downward: a subtree child names a
/// node with a strictly smaller index than its parent's. The container
/// writes child nodes before their parents, so a valid tree satisfies
/// this, and every descent terminates.
pub open spec fn child_points_down(c: ChildRef, i: int) -> bool {
    match c {
        ChildRef::Region(_) => true,
        ChildRef::Subtree(j) => 0 <= j < i,
    }
}

/// Both of a node's children point downward.
pub open spec fn node_points_down(n: Node, i: int) -> bool {
    child_points_down(n.right_child, i) && child_points_down(n.left_child, i)
}

/// Every node's children point downward: the node sequence forms a forest
/// whose edges strictly decrease the index.
pub open spec fn nodes_descending(nodes: Seq<Node>) -> bool {
    forall|i: int| 0 <= i < nodes.len() ==> node_points_down(#[trigger] nodes[i], i)
}

/// The ordered emission of the traversal from node `idx`: the child on the
/// query point's side of the partition line first, then the other child; a
/// leaf child emits its region index, a subtree child emits its own whole
/// traversal.
pub open spec fn traverse_spec(nodes: Seq<Node>, idx: int, p: Vertex) -> Seq<i16>
    decreases idx,
        when 0 <= idx < nodes.len() && nodes_descending(nodes)
{
    let n = nodes[idx];
    let near = if side_of(n, p) {
        n.right_child
    } else {
        n.left_child
    };
    let far = if side_of(n, p) {
        n.left_child
    } else {
        n.right_child
    };
    (match near {
        ChildRef::Region(r) => seq![r],
        ChildRef::Subtree(j) => traverse_spec(nodes, j as int, p),
    }) + (match far {
        ChildRef::Region(r) => seq![r],
        ChildRef::Subtree(j) => traverse_spec(nodes, j as int, p),
    })
}

/// What one child contributes to the traversal.
pub open spec fn child_seq(nodes: Seq<Node>, c: ChildRef, p: Vertex) -> Seq<i16> {
    match c {
        ChildRef::Region(r) => seq![r],
        ChildRef::Subtree(j) => traverse_spec(nodes, j as int, p),
    }
}

/// All leaf region indices under node `idx`, right side first, with no
/// regard to any query point.
pub open spec fn leaves_spec(nodes: Seq<Node>, idx: int) -> Seq<i16>
    decreases idx,
        when 0 <= idx < nodes.len() && nodes_descending(nodes)
{
    let n = nodes[idx];
    (match n.right_child {
        ChildRef::Region(r) => seq![r],
        ChildRef::Subtree(j) => leaves_spec(nodes, j as int),
    }) + (match n.left_child {
        ChildRef::Region(r) => seq![r],
        ChildRef::Subtree(j) => leaves_spec(nodes, j as int),
    })
}

/// A child reference that resolves inside the level: a region child names
/// one of the `nsubs` regions, a subtree child a node strictly below `i`.
pub open spec fn child_in_bounds(c: ChildRef, i: int, nsubs: int) -> bool {
    match c {
        ChildRef::Region(r) => 0 <= r < nsubs,
        ChildRef::Subtree(j) => 0 <= j < i,
    }
}

/// An edge whose endpoints and surface references resolve; a surface
/// reference of `-1` means "absent" and is the only negative one allowed.
pub open spec fn linedef_refs_ok(l: LineDef, nverts: int, nsides: int) -> bool {
    &&& 0 <= l.start < nverts
    &&& 0 <= l.end < nverts
    &&& l.front_sidedef == -1 || (0 <= l.front_sidedef < nsides)
    &&& l.back_sidedef == -1 || (0 <= l.back_sidedef < nsides)
}

/// A surface whose area reference resolves.
pub open spec fn sidedef_refs_ok(s: SideDef, nsectors: int) -> bool {
    0 <= s.facing_sector < nsectors
}

/// A segment whose endpoint and edge references resolve.
pub open spec fn seg_refs_ok(s: Seg, nverts: int, nlines: int) -> bool {
    &&& 0 <= s.start < nverts
    &&& 0 <= s.end < nverts
    &&& 0 <= s.linedef_num < nlines
}

/// A region whose whole run of segments resolves.
pub open spec fn subsector_refs_ok(s: SubSector, nsegs: int) -> bool {
    &&& 0 <= s.ssec_size
    &&& 0 <= s.first_seg
    &&& s.first_seg + s.ssec_size <= nsegs
}

/// A node whose shape is fixed and whose children resolve downward.
pub open spec fn node_refs_ok(n: Node, i: int, nsubs: int) -> bool {
    &&& node_encodable(n)
    &&& child_in_bounds(n.right_child, i, nsubs)
    &&& child_in_bounds(n.left_child, i, nsubs)
}

/// One decoded level: every record collection of one level marker, plus
/// the spawn point and facing angle of each of the four player slots.
pub struct BspMap {
    /// The level's eight-byte marker name.
    pub name: Name8,
    pub things: Vec<Thing>,
    pub p1_spawn: Vertex,
    pub p1_rot: i16,
    pub p2_spawn: Vertex,
    pub p2_rot: i16,
    pub p3_spawn: Vertex,
    pub p3_rot: i16,
    pub p4_spawn: Vertex,
    pub p4_rot: i16,
    pub linedefs: Vec<LineDef>,
    pub sidedefs: Vec<SideDef>,
    pub vertices: Vec<Vertex>,
    pub segs: Vec<Seg>,
    pub subsectors: Vec<SubSector>,
    pub nodes: Vec<Node>,
    pub sectors: Vec<Sector>,
}

impl BspMap {
    /// Every cross-reference in the level resolves within the collection
    /// it points into; construction establishes this once, and traversal
    /// relies on it.
    pub open spec fn wf(&self) -> bool {
        &&& forall|i: int| 0 <= i < self.linedefs@.len() ==> linedef_refs_ok(
            #[trigger] self.linedefs@[i], self.vertices@.len() as int, self.sidedefs@.len() as int)
        &&& forall|i: int| 0 <= i < self.sidedefs@.len() ==> sidedef_refs_ok(
            #[trigger] self.sidedefs@[i], self.sectors@.len() as int)
        &&& forall|i: int| 0 <= i < self.segs@.len() ==> seg_refs_ok(
            #[trigger] self.segs@[i], self.vertices@.len() as int, self.linedefs@.len() as int)
        &&& forall|i: int| 0 <= i < self.subsectors@.len() ==> subsector_refs_ok(
            #[trigger] self.subsectors@[i], self.segs@.len() as int)
        &&& forall|i: int| 0 <= i < self.nodes@.len() ==> node_refs_ok(
            #[trigger] self.nodes@[i], i, self.subsectors@.len() as int)
    }

    /// A well-formed level's nodes descend.
    pub proof fn lemma_wf_descending(&self)
        requires
            self.wf(),
        ensures
            nodes_descending(self.nodes@),
    {
        assert forall|i: int| 0 <= i < self.nodes@.len() implies node_points_down(
            #[trigger] self.nodes@[i], i) by {
            assert(node_refs_ok(self.nodes@[i], i, self.subsectors@.len() as int));
        }
    }

    /// The spawn point and facing angle for a player slot (1 through 4);
    /// a level with no spawn object for the slot reports the origin and a
    /// zero angle.
    pub fn spawn_point(&self, slot: u8) -> (r: (Vertex, i16))
        requires
            1 <= slot <= 4,
        ensures
            slot == 1 ==> r == (self.p1_spawn, self.p1_rot),
            slot == 2 ==> r == (self.p2_spawn, self.p2_rot),
            slot == 3 ==> r == (self.p3_spawn, self.p3_rot),
            slot == 4 ==> r == (self.p4_spawn, self.p4_rot),
    {
        if slot == 1 {
            (self.p1_spawn, self.p1_rot)
        } else if slot == 2 {
            (self.p2_spawn, self.p2_rot)
        } else if slot == 3 {
            (self.p3_spawn, self.p3_rot)
        } else {
            (self.p4_spawn, self.p4_rot)
        }
    }

    /// Walk the partition tree from node `node` and emit the level's
    /// regions in side-correct, depth-first order for the query point:
    /// the half-space holding the point is emitted before the other.
    pub fn traverse_bsp(&self, node: usize, loc: &Vertex) -> (r: Vec<i16>)
        requires
            self.wf(),
            node < self.nodes@.len(),
        ensures
            r@ == traverse_spec(self.nodes@, node as int, *loc),
            forall|i: int| 0 <= i < r@.len()
                ==> 0 <= #[trigger] r@[i] < self.subsectors@.len(),
        decreases node,
    {
        proof {
            self.lemma_wf_descending();
            lemma_traverse_in_bounds(self.nodes@, node as int, *loc,
                self.subsectors@.len() as int);
            assert(node_refs_ok(self.nodes@[node as int], node as int,
                self.subsectors@.len() as int));
        }
        let n = &self.nodes[node];
        let side = check_line(&n.start, &n.change, loc);
        let mut out: Vec<i16> = Vec::new();
        if side {
            match n.right_child {
                ChildRef::Region(r) => { out.push(r); },
                ChildRef::Subtree(j) => {
                    let mut sub = self.traverse_bsp(j as usize, loc);
                    out.append(&mut sub);
                },
            }
            match n.left_child {
                ChildRef::Region(r) => { out.push(r); },
                ChildRef::Subtree(j) => {
                    let mut sub = self.traverse_bsp(j as usize, loc);
                    out.append(&mut sub);
                },
            }
        } else {
            match n.left_child {
                ChildRef::Region(r) => { out.push(r); },
                ChildRef::Subtree(j) => {
                    let mut sub = self.traverse_bsp(j as usize, loc);
                    out.append(&mut sub);
                },
            }
            match n.right_child {
                ChildRef::Region(r) => { out.push(r); },
                ChildRef::Subtree(j) => {
                    let mut sub = self.traverse_bsp(j as usize, loc);
                    out.append(&mut sub);
                },
            }
        }
        proof {
            assert(out@ =~= traverse_spec(self.nodes@, node as int, *loc));
        }
        out
    }
}

/// The traversal's ordering policy, stated once: the child on the query
/// point's side of the node's partition line is emitted first, the other
/// child second.
pub proof fn lemma_traverse_order(nodes: Seq<Node>, idx: int, p: Vertex)
    requires
        nodes_descending(nodes),
        0 <= idx < nodes.len(),
    ensures
        traverse_spec(nodes, idx, p) == (
            if side_of(nodes[idx], p) {
                child_seq(nodes, nodes[idx].right_child, p)
                    + child_seq(nodes, nodes[idx].left_child, p)
            } else {
                child_seq(nodes, nodes[idx].left_child, p)
                    + child_seq(nodes, nodes[idx].right_child, p)
            }
        ),
{
}

/// Traversal reads the tree and the query point and nothing else: any two
/// sequences that satisfy the traversal's contract for the same tree and
/// point are equal.
pub proof fn lemma_traverse_deterministic(
    nodes: Seq<Node>, idx: int, p: Vertex, r1: Seq<i16>, r2: Seq<i16>)
    requires
        r1 == traverse_spec(nodes, idx, p),
        r2 == traverse_spec(nodes, idx, p),
    ensures
        r1 == r2,
{
}

/// Whatever the query point, the traversal emits exactly the tree's
/// leaves: the multiset of emitted region indices equals the multiset of
/// leaf references under the root. Each leaf is emitted exactly once;
/// only the order depends on the point.
pub proof fn lemma_traverse_complete(nodes: Seq<Node>, idx: int, p: Vertex)
    requires
        nodes_descending(nodes),
        0 <= idx < nodes.len(),
    ensures
        traverse_spec(nodes, idx, p).to_multiset() == leaves_spec(nodes, idx).to_multiset(),
    decreases idx,
{
    broadcast use vstd::seq_lib::lemma_multiset_commutative;
    broadcast use vstd::multiset::group_multiset_axioms;
    let n = nodes[idx];
    assert(node_points_down(n, idx));
    match n.right_child {
        ChildRef::Subtree(j) => lemma_traverse_complete(nodes, j as int, p),
        ChildRef::Region(_) => (),
    }
    match n.left_child {
        ChildRef::Subtree(j) => lemma_traverse_complete(nodes, j as int, p),
        ChildRef::Region(_) => (),
    }
    let rs = child_seq(nodes, n.right_child, p);
    let ls = child_seq(nodes, n.left_child, p);
    let rl = match n.right_child {
        ChildRef::Region(r) => seq![r],
        ChildRef::Subtree(j) => leaves_spec(nodes, j as int),
    };
    let ll = match n.left_child {
        ChildRef::Region(r) => seq![r],
        ChildRef::Subtree(j) => leaves_spec(nodes, j as int),
    };
    assert(rs.to_multiset() == rl.to_multiset());
    assert(ls.to_multiset() == ll.to_multiset());
    assert(leaves_spec(nodes, idx) == rl + ll);
    if side_of(n, p) {
        assert(traverse_spec(nodes, idx, p) == rs + ls);
        assert((rs + ls).to_multiset() =~= (rl + ll).to_multiset());
    } else {
        assert(traverse_spec(nodes, idx, p) == ls + rs);
        assert((ls + rs).to_multiset() =~= (rl + ll).to_multiset());
    }
}


/// The position of the last object with the given type code, or the
/// origin when there is none: the spawn point for one player slot.
pub open spec fn spawn_pos(things: Seq<Thing>, code: i16) -> Vertex
    decreases things.len(),
{
    if things.len() == 0 {
        Vertex { x: 0, y: 0 }
    } else if things.last().thing_type == code {
        Vertex { x: things.last().x, y: things.last().y }
    } else {
        spawn_pos(things.drop_last(), code)
    }
}

/// The facing angle of the last object with the given type code, or zero
/// when there is none.
pub open spec fn spawn_rot(things: Seq<Thing>, code: i16) -> i16
    decreases things.len(),
{
    if things.len() == 0 {
        0
    } else if things.last().thing_type == code {
        things.last().angle
    } else {
        spawn_rot(things.drop_last(), code)
    }
}

/// The edge references of an edge block, judged on the raw bytes.
pub open spec fn linedefs_refs_ok_b(b: Seq<u8>, nverts: int, nsides: int) -> bool {
    forall|i: int| 0 <= i < b.len() / 14 ==> {
        &&& 0 <= le16s(b, #[trigger] (14 * i)) < nverts
        &&& 0 <= le16s(b, 14 * i + 2) < nverts
        &&& le16s(b, 14 * i + 10) == -1 || (0 <= le16s(b, 14 * i + 10) < nsides)
        &&& le16s(b, 14 * i + 12) == -1 || (0 <= le16s(b, 14 * i + 12) < nsides)
    }
}

/// The area references of a surface block, judged on the raw bytes.
pub open spec fn sidedefs_refs_ok_b(b: Seq<u8>, nsectors: int) -> bool {
    forall|i: int| 0 <= i < b.len() / 30 ==> 0 <= le16s(b, #[trigger] (30 * i) + 28) < nsectors
}

/// The endpoint and edge references of a segment block, judged on the raw
/// bytes.
pub open spec fn segs_refs_ok_b(b: Seq<u8>, nverts: int, nlines: int) -> bool {
    forall|i: int| 0 <= i < b.len() / 12 ==> {
        &&& 0 <= le16s(b, #[trigger] (12 * i)) < nverts
        &&& 0 <= le16s(b, 12 * i + 2) < nverts
        &&& 0 <= le16s(b, 12 * i + 6) < nlines
    }
}

/// The segment runs of a region block, judged on the raw bytes.
pub open spec fn subsectors_refs_ok_b(b: Seq<u8>, nsegs: int) -> bool {
    forall|i: int| 0 <= i < b.len() / 4 ==> {
        &&& 0 <= le16s(b, #[trigger] (4 * i))
        &&& 0 <= le16s(b, 4 * i + 2)
        &&& le16s(b, 4 * i + 2) + le16s(b, 4 * i) <= nsegs
    }
}

/// A raw child value that resolves: a negative value names one of the
/// `nsubs` regions after the bias is added back, any other names a node
/// strictly below `i`.
pub open spec fn child_raw_ok(v: int, i: int, nsubs: int) -> bool {
    if v < 0 {
        v + 0x8000 < nsubs
    } else {
        v < i
    }
}

/// The child references of a node block, judged on the raw bytes.
pub open spec fn nodes_refs_ok_b(b: Seq<u8>, nsubs: int) -> bool {
    forall|i: int| 0 <= i < b.len() / 28 ==> {
        &&& child_raw_ok(le16s(b, #[trigger] (28 * i) + 24), i, nsubs)
        &&& child_raw_ok(le16s(b, 28 * i + 26), i, nsubs)
    }
}

/// Every cross-reference of one level's raw blocks resolves, with each
/// collection's size read off its block's length.
pub open spec fn level_refs_ok(
    lb: Seq<u8>, sb: Seq<u8>, vb: Seq<u8>, gb: Seq<u8>, ub: Seq<u8>, nb: Seq<u8>, cb: Seq<u8>,
) -> bool {
    &&& linedefs_refs_ok_b(lb, vb.len() as int / 4, sb.len() as int / 30)
    &&& sidedefs_refs_ok_b(sb, cb.len() as int / 26)
    &&& segs_refs_ok_b(gb, vb.len() as int / 4, lb.len() as int / 14)
    &&& subsectors_refs_ok_b(ub, gb.len() as int / 12)
    &&& nodes_refs_ok_b(nb, ub.len() as int / 4)
}


/// Edge references judged on decoded records agree with the raw bytes.
proof fn lemma_linedefs_refs_bridge(s: Seq<LineDef>, b: Seq<u8>, nverts: int, nsides: int)
    requires
        linedefs_match(s, b),
    ensures
        linedefs_refs_ok_b(b, nverts, nsides) <==> (forall|i: int|
            0 <= i < s.len() ==> linedef_refs_ok(#[trigger] s[i], nverts, nsides)),
{
    if linedefs_refs_ok_b(b, nverts, nsides) {
        assert forall|i: int| 0 <= i < s.len() implies linedef_refs_ok(
            #[trigger] s[i], nverts, nsides) by {
            assert(linedef_matches(s[i], b, 14 * i));
            assert(0 <= le16s(b, 14 * i) < nverts);
        }
    }
    if forall|i: int| 0 <= i < s.len() ==> linedef_refs_ok(#[trigger] s[i], nverts, nsides) {
        assert forall|i: int| 0 <= i < b.len() / 14 implies {
            &&& 0 <= le16s(b, #[trigger] (14 * i)) < nverts
            &&& 0 <= le16s(b, 14 * i + 2) < nverts
            &&& le16s(b, 14 * i + 10) == -1 || (0 <= le16s(b, 14 * i + 10) < nsides)
            &&& le16s(b, 14 * i + 12) == -1 || (0 <= le16s(b, 14 * i + 12) < nsides)
        } by {
            assert(linedef_refs_ok(s[i], nverts, nsides));
            assert(linedef_matches(s[i], b, 14 * i));
        }
    }
}

/// Surface references judged on decoded records agree with the raw bytes.
proof fn lemma_sidedefs_refs_bridge(s: Seq<SideDef>, b: Seq<u8>, nsectors: int)
    requires
        sidedefs_match(s, b),
    ensures
        sidedefs_refs_ok_b(b, nsectors) <==> (forall|i: int|
            0 <= i < s.len() ==> sidedef_refs_ok(#[trigger] s[i], nsectors)),
{
    if sidedefs_refs_ok_b(b, nsectors) {
        assert forall|i: int| 0 <= i < s.len() implies sidedef_refs_ok(
            #[trigger] s[i], nsectors) by {
            assert(sidedef_matches(s[i], b, 30 * i));
            assert(0 <= le16s(b, (30 * i) + 28) < nsectors);
        }
    }
    if forall|i: int| 0 <= i < s.len() ==> sidedef_refs_ok(#[trigger] s[i], nsectors) {
        assert forall|i: int| 0 <= i < b.len() / 30 implies
            0 <= le16s(b, #[trigger] (30 * i) + 28) < nsectors by {
            assert(sidedef_refs_ok(s[i], nsectors));
            assert(sidedef_matches(s[i], b, 30 * i));
        }
    }
}

/// Segment references judged on decoded records agree with the raw bytes.
proof fn lemma_segs_refs_bridge(s: Seq<Seg>, b: Seq<u8>, nverts: int, nlines: int)
    requires
        segs_match(s, b),
    ensures
        segs_refs_ok_b(b, nverts, nlines) <==> (forall|i: int|
            0 <= i < s.len() ==> seg_refs_ok(#[trigger] s[i], nverts, nlines)),
{
    if segs_refs_ok_b(b, nverts, nlines) {
        assert forall|i: int| 0 <= i < s.len() implies seg_refs_ok(
            #[trigger] s[i], nverts, nlines) by {
            assert(seg_matches(s[i], b, 12 * i));
            assert(0 <= le16s(b, 12 * i) < nverts);
        }
    }
    if forall|i: int| 0 <= i < s.len() ==> seg_refs_ok(#[trigger] s[i], nverts, nlines) {
        assert forall|i: int| 0 <= i < b.len() / 12 implies {
            &&& 0 <= le16s(b, #[trigger] (12 * i)) < nverts
            &&& 0 <= le16s(b, 12 * i + 2) < nverts
            &&& 0 <= le16s(b, 12 * i + 6) < nlines
        } by {
            assert(seg_refs_ok(s[i], nverts, nlines));
            assert(seg_matches(s[i], b, 12 * i));
        }
    }
}

/// Region references judged on decoded records agree with the raw bytes.
proof fn lemma_subsectors_refs_bridge(s: Seq<SubSector>, b: Seq<u8>, nsegs: int)
    requires
        subsectors_match(s, b),
    ensures
        subsectors_refs_ok_b(b, nsegs) <==> (forall|i: int|
            0 <= i < s.len() ==> subsector_refs_ok(#[trigger] s[i], nsegs)),
{
    if subsectors_refs_ok_b(b, nsegs) {
        assert forall|i: int| 0 <= i < s.len() implies subsector_refs_ok(
            #[trigger] s[i], nsegs) by {
            assert(subsector_matches(s[i], b, 4 * i));
            assert(0 <= le16s(b, 4 * i));
        }
    }
    if forall|i: int| 0 <= i < s.len() ==> subsector_refs_ok(#[trigger] s[i], nsegs) {
        assert forall|i: int| 0 <= i < b.len() / 4 implies {
            &&& 0 <= le16s(b, #[trigger] (4 * i))
            &&& 0 <= le16s(b, 4 * i + 2)
            &&& le16s(b, 4 * i + 2) + le16s(b, 4 * i) <= nsegs
        } by {
            assert(subsector_refs_ok(s[i], nsegs));
            assert(subsector_matches(s[i], b, 4 * i));
        }
    }
}

/// Child references judged on decoded records agree with the raw bytes.
proof fn lemma_nodes_refs_bridge(s: Seq<Node>, b: Seq<u8>, nsubs: int)
    requires
        nodes_match(s, b),
    ensures
        nodes_refs_ok_b(b, nsubs) <==> (forall|i: int| 0 <= i < s.len() ==> {
            &&& child_in_bounds((#[trigger] s[i]).right_child, i, nsubs)
            &&& child_in_bounds(s[i].left_child, i, nsubs)
        }),
{
    if nodes_refs_ok_b(b, nsubs) {
        assert forall|i: int| 0 <= i < s.len() implies {
            &&& child_in_bounds((#[trigger] s[i]).right_child, i, nsubs)
            &&& child_in_bounds(s[i].left_child, i, nsubs)
        } by {
            assert(node_matches(s[i], b, 28 * i));
            assert(child_raw_ok(le16s(b, (28 * i) + 24), i, nsubs));
        }
    }
    if forall|i: int| 0 <= i < s.len() ==> {
        &&& child_in_bounds((#[trigger] s[i]).right_child, i, nsubs)
        &&& child_in_bounds(s[i].left_child, i, nsubs)
    } {
        assert forall|i: int| 0 <= i < b.len() / 28 implies {
            &&& child_raw_ok(le16s(b, #[trigger] (28 * i) + 24), i, nsubs)
            &&& child_raw_ok(le16s(b, 28 * i + 26), i, nsubs)
        } by {
            assert(child_in_bounds(s[i].right_child, i, nsubs));
            assert(node_matches(s[i], b, 28 * i));
        }
    }
}


impl BspMap {
    /// Build one level from its ten raw blocks: decode every record kind,
    /// extract the four player spawn points (the last matching object
    /// wins), and validate every cross-reference once. A block whose text
    /// is not ASCII or whose references do not resolve rejects the level.
    #[verifier::loop_isolation(false)]
    pub fn assemble(name: Name8, blocks: &Vec<Vec<u8>>) -> (r: Result<BspMap, FormatError>)
        requires
            blocks@.len() == 10,
        ensures
            (match r {
                Ok(m) => {
                    &&& sidedefs_text_ok(blocks@[2]@)
                    &&& sectors_text_ok(blocks@[7]@)
                    &&& level_refs_ok(blocks@[1]@, blocks@[2]@, blocks@[3]@, blocks@[4]@,
                        blocks@[5]@, blocks@[6]@, blocks@[7]@)
                    &&& m.name == name
                    &&& things_match(m.things@, blocks@[0]@)
                    &&& linedefs_match(m.linedefs@, blocks@[1]@)
                    &&& sidedefs_match(m.sidedefs@, blocks@[2]@)
                    &&& vertices_match(m.vertices@, blocks@[3]@)
                    &&& segs_match(m.segs@, blocks@[4]@)
                    &&& subsectors_match(m.subsectors@, blocks@[5]@)
                    &&& nodes_match(m.nodes@, blocks@[6]@)
                    &&& sectors_match(m.sectors@, blocks@[7]@)
                    &&& m.wf()
                    &&& m.p1_spawn == spawn_pos(m.things@, 1) && m.p1_rot == spawn_rot(m.things@, 1)
                    &&& m.p2_spawn == spawn_pos(m.things@, 2) && m.p2_rot == spawn_rot(m.things@, 2)
                    &&& m.p3_spawn == spawn_pos(m.things@, 3) && m.p3_rot == spawn_rot(m.things@, 3)
                    &&& m.p4_spawn == spawn_pos(m.things@, 4) && m.p4_rot == spawn_rot(m.things@, 4)
                },
                Err(e) => {
                    ||| (e == FormatError::InvalidText
                        && (!sidedefs_text_ok(blocks@[2]@) || !sectors_text_ok(blocks@[7]@)))
                    ||| (e == FormatError::BadReference
                        && sidedefs_text_ok(blocks@[2]@) && sectors_text_ok(blocks@[7]@)
                        && !level_refs_ok(blocks@[1]@, blocks@[2]@, blocks@[3]@, blocks@[4]@,
                            blocks@[5]@, blocks@[6]@, blocks@[7]@))
                },
            }),
    {
        let things = Thing::from_bytes(&blocks[0]);
        let linedefs = LineDef::from_bytes(&blocks[1]);
        let sidedefs = match SideDef::from_bytes(&blocks[2]) {
            Ok(v) => v,
            Err(e) => {
                return Err(e);
            },
        };
        let vertices = Vertex::from_bytes(&blocks[3]);
        let segs = Seg::from_bytes(&blocks[4]);
        let subsectors = SubSector::from_bytes(&blocks[5]);
        let nodes = Node::from_bytes(&blocks[6]);
        let sectors = match Sector::from_bytes(&blocks[7]) {
            Ok(v) => v,
            Err(e) => {
                return Err(e);
            },
        };
        let nverts: usize = vertices.len();
        let nsides: usize = sidedefs.len();
        let nlines: usize = linedefs.len();
        let nsegs: usize = segs.len();
        let nsubs: usize = subsectors.len();
        let nsectors: usize = sectors.len();

        let mut i: usize = 0;
        while i < linedefs.len()
            invariant
                i <= linedefs@.len(),
                forall|j: int| 0 <= j < i ==> linedef_refs_ok(
                    #[trigger] linedefs@[j], nverts as int, nsides as int),
            decreases linedefs@.len() - i,
        {
            let l = &linedefs[i];
            let front_ok = l.front_sidedef == -1
                || (l.front_sidedef >= 0 && (l.front_sidedef as usize) < nsides);
            let back_ok = l.back_sidedef == -1
                || (l.back_sidedef >= 0 && (l.back_sidedef as usize) < nsides);
            if !(l.start >= 0 && (l.start as usize) < nverts
                && l.end >= 0 && (l.end as usize) < nverts && front_ok && back_ok) {
                proof {
                    lemma_linedefs_refs_bridge(
                        linedefs@, blocks@[1]@, nverts as int, nsides as int);
                }
                return Err(FormatError::BadReference);
            }
            i = i + 1;
        }
        let mut i: usize = 0;
        while i < sidedefs.len()
            invariant
                i <= sidedefs@.len(),
                forall|j: int| 0 <= j < i ==> sidedef_refs_ok(
                    #[trigger] sidedefs@[j], nsectors as int),
            decreases sidedefs@.len() - i,
        {
            let d = &sidedefs[i];
            if !(d.facing_sector >= 0 && (d.facing_sector as usize) < nsectors) {
                proof {
                    lemma_linedefs_refs_bridge(
                        linedefs@, blocks@[1]@, nverts as int, nsides as int);
                    lemma_sidedefs_refs_bridge(sidedefs@, blocks@[2]@, nsectors as int);
                }
                return Err(FormatError::BadReference);
            }
            i = i + 1;
        }
        let mut i: usize = 0;
        while i < segs.len()
            invariant
                i <= segs@.len(),
                forall|j: int| 0 <= j < i ==> seg_refs_ok(
                    #[trigger] segs@[j], nverts as int, nlines as int),
            decreases segs@.len() - i,
        {
            let g = &segs[i];
            if !(g.start >= 0 && (g.start as usize) < nverts
                && g.end >= 0 && (g.end as usize) < nverts
                && g.linedef_num >= 0 && (g.linedef_num as usize) < nlines) {
                proof {
                    lemma_segs_refs_bridge(segs@, blocks@[4]@, nverts as int, nlines as int);
                }
                return Err(FormatError::BadReference);
            }
            i = i + 1;
        }
        let mut i: usize = 0;
        while i < subsectors.len()
            invariant
                i <= subsectors@.len(),
                forall|j: int| 0 <= j < i ==> subsector_refs_ok(
                    #[trigger] subsectors@[j], nsegs as int),
            decreases subsectors@.len() - i,
        {
            let u = &subsectors[i];
            if !(u.ssec_size >= 0 && u.first_seg >= 0
                && (u.first_seg as usize) + (u.ssec_size as usize) <= nsegs) {
                proof {
                    lemma_subsectors_refs_bridge(subsectors@, blocks@[5]@, nsegs as int);
                }
                return Err(FormatError::BadReference);
            }
            i = i + 1;
        }
        let mut i: usize = 0;
        while i < nodes.len()
            invariant
                i <= nodes@.len(),
                forall|j: int| 0 <= j < i ==> {
                    &&& child_in_bounds((#[trigger] nodes@[j]).right_child, j, nsubs as int)
                    &&& child_in_bounds(nodes@[j].left_child, j, nsubs as int)
                },
            decreases nodes@.len() - i,
        {
            let right_ok = match nodes[i].right_child {
                ChildRef::Region(r) => r >= 0 && (r as usize) < nsubs,
                ChildRef::Subtree(j) => j >= 0 && (j as usize) < i,
            };
            let left_ok = match nodes[i].left_child {
                ChildRef::Region(r) => r >= 0 && (r as usize) < nsubs,
                ChildRef::Subtree(j) => j >= 0 && (j as usize) < i,
            };
            if !(right_ok && left_ok) {
                proof {
                    lemma_nodes_refs_bridge(nodes@, blocks@[6]@, nsubs as int);
                }
                return Err(FormatError::BadReference);
            }
            i = i + 1;
        }

        let mut p1_spawn = Vertex { x: 0, y: 0 };
        let mut p1_rot: i16 = 0;
        let mut p2_spawn = Vertex { x: 0, y: 0 };
        let mut p2_rot: i16 = 0;
        let mut p3_spawn = Vertex { x: 0, y: 0 };
        let mut p3_rot: i16 = 0;
        let mut p4_spawn = Vertex { x: 0, y: 0 };
        let mut p4_rot: i16 = 0;
        let mut i: usize = 0;
        proof {
            assert(things@.take(0) =~= Seq::<Thing>::empty());
        }
        while i < things.len()
            invariant
                i <= things@.len(),
                p1_spawn == spawn_pos(things@.take(i as int), 1),
                p1_rot == spawn_rot(things@.take(i as int), 1),
                p2_spawn == spawn_pos(things@.take(i as int), 2),
                p2_rot == spawn_rot(things@.take(i as int), 2),
                p3_spawn == spawn_pos(things@.take(i as int), 3),
                p3_rot == spawn_rot(things@.take(i as int), 3),
                p4_spawn == spawn_pos(things@.take(i as int), 4),
                p4_rot == spawn_rot(things@.take(i as int), 4),
            decreases things@.len() - i,
        {
            let t = things[i];
            if t.thing_type == 1 {
                p1_spawn = Vertex { x: t.x, y: t.y };
                p1_rot = t.angle;
            }
            if t.thing_type == 2 {
                p2_spawn = Vertex { x: t.x, y: t.y };
                p2_rot = t.angle;
            }
            if t.thing_type == 3 {
                p3_spawn = Vertex { x: t.x, y: t.y };
                p3_rot = t.angle;
            }
            if t.thing_type == 4 {
                p4_spawn = Vertex { x: t.x, y: t.y };
                p4_rot = t.angle;
            }
            proof {
                assert(things@.take(i + 1).drop_last() =~= things@.take(i as int));
                assert(things@.take(i + 1).last() == things@[i as int]);
            }
            i = i + 1;
        }
        proof {
            assert(things@.take(things@.len() as int) =~= things@);
        }

        let m = BspMap {
            name,
            things,
            p1_spawn, p1_rot, p2_spawn, p2_rot, p3_spawn, p3_rot, p4_spawn, p4_rot,
            linedefs,
            sidedefs,
            vertices,
            segs,
            subsectors,
            nodes,
            sectors,
        };
        proof {
            assert forall|j: int| 0 <= j < m.nodes@.len() implies node_refs_ok(
                #[trigger] m.nodes@[j], j, m.subsectors@.len() as int) by {
                assert(node_matches(m.nodes@[j], blocks@[6]@, 28 * j));
            }
            lemma_linedefs_refs_bridge(m.linedefs@, blocks@[1]@, nverts as int, nsides as int);
            lemma_sidedefs_refs_bridge(m.sidedefs@, blocks@[2]@, nsectors as int);
            lemma_segs_refs_bridge(m.segs@, blocks@[4]@, nverts as int, nlines as int);
            lemma_subsectors_refs_bridge(m.subsectors@, blocks@[5]@, nsegs as int);
            lemma_nodes_refs_bridge(m.nodes@, blocks@[6]@, nsubs as int);
        }
        Ok(m)
    }
}



/// Every region index the traversal emits resolves: on a level whose
/// nodes are all well-formed, the emitted indices all name one of the
/// `nsubs` regions.
pub proof fn lemma_traverse_in_bounds(nodes: Seq<Node>, idx: int, p: Vertex, nsubs: int)
    requires
        0 <= idx < nodes.len(),
        forall|i: int| 0 <= i < nodes.len() ==> node_refs_ok(#[trigger] nodes[i], i, nsubs),
    ensures
        forall|i: int| 0 <= i < traverse_spec(nodes, idx, p).len()
            ==> 0 <= #[trigger] traverse_spec(nodes, idx, p)[i] < nsubs,
    decreases idx,
{
    assert forall|i: int| 0 <= i < nodes.len() implies node_points_down(
        #[trigger] nodes[i], i) by {
        assert(node_refs_ok(nodes[i], i, nsubs));
    }
    let n = nodes[idx];
    assert(node_refs_ok(n, idx, nsubs));
    let near = if side_of(n, p) { n.right_child } else { n.left_child };
    let far = if side_of(n, p) { n.left_child } else { n.right_child };
    let a = child_seq(nodes, near, p);
    let b = child_seq(nodes, far, p);
    match near {
        ChildRef::Subtree(j) => lemma_traverse_in_bounds(nodes, j as int, p, nsubs),
        ChildRef::Region(_) => (),
    }
    match far {
        ChildRef::Subtree(j) => lemma_traverse_in_bounds(nodes, j as int, p, nsubs),
        ChildRef::Region(_) => (),
    }
    let s = traverse_spec(nodes, idx, p);
    assert(s == a + b);
    assert forall|i: int| 0 <= i < s.len() implies 0 <= #[trigger] s[i] < nsubs by {
        if i < a.len() {
            assert(s[i] == a[i]);
        } else {
            assert(s[i] == b[i - a.len()]);
        }
    }
}

/// When the tree's leaves are exactly the regions 0 through `l - 1`, one
/// each, the traversal emits exactly those regions, once each, for every
/// query point.
pub proof fn lemma_traverse_covers_regions(nodes: Seq<Node>, idx: int, p: Vertex, l: int)
    requires
        nodes_descending(nodes),
        0 <= idx < nodes.len(),
        0 <= l,
        leaves_spec(nodes, idx).to_multiset()
            == Seq::new(l as nat, |i: int| i as i16).to_multiset(),
    ensures
        traverse_spec(nodes, idx, p).to_multiset()
            == Seq::new(l as nat, |i: int| i as i16).to_multiset(),
{
    lemma_traverse_complete(nodes, idx, p);
}


} // verus!
