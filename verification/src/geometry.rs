//! Points, and the part of the plane geometry that is not arithmetic: which
//! edges of a polygon a ray can cross, and how the crossings are counted.
use crate::bytes::{le32, read_u32, row_count};
use crate::cells::FACES_END;
use crate::ieee::{is_single_less, single_at_least, single_less};
use vstd::prelude::*;

verus! {

/// A point of a way or of a polygon: the patterns of two single-precision
/// numbers, in degrees.
#[derive(Clone, Copy, Debug, PartialEq, Eq, Structural)]
pub struct NodeCoord {
    pub lat: u32,
    pub lng: u32,
}

/// A point to look up. Whoever makes one sees to it that all its fields tell of
/// the same point.
#[derive(Clone, Copy, Debug, PartialEq, Eq, Structural)]
pub struct Position {
    /// The double-precision pattern of the latitude, in degrees.
    pub lat: u64,
    /// The double-precision pattern of the longitude, in degrees.
    pub lng: u64,
    /// The latitude rounded to single precision.
    pub lat_single: u32,
    /// The longitude rounded to single precision.
    pub lng_single: u32,
    /// The id of the leaf cell that holds the point.
    pub leaf: u64,
}

impl Position {
    /// Whether the point lies on the sphere.
    pub open spec fn is_valid(self) -> bool {
        self.leaf < FACES_END
    }
}

// --- Tables of points ---

/// The point in row `i`, of eight bytes.
pub open spec fn node_at(table: Seq<u8>, i: int) -> NodeCoord {
    NodeCoord {
        lat: le32(table, 8 * i) as u32,
        lng: le32(table, 8 * i + 4) as u32,
    }
}

/// All points of a table.
pub open spec fn nodes_of(table: Seq<u8>) -> Seq<NodeCoord> {
    Seq::new(row_count(table, 8) as nat, |i: int| node_at(table, i))
}

/// The `count` points from `offset` on, where the table has them all.
pub open spec fn stretch(nodes: Seq<NodeCoord>, offset: int, count: int) -> Option<Seq<NodeCoord>> {
    if offset + count <= nodes.len() {
        Some(nodes.subrange(offset, offset + count))
    } else {
        None
    }
}

/// Reads the `count` points from `offset` on, where the table has them all.
pub fn read_stretch(table: &[u8], offset: usize, count: usize) -> (r: Option<Vec<NodeCoord>>)
    ensures
        match r {
            Some(v) => stretch(nodes_of(table@), offset as int, count as int) == Some(v@),
            None => stretch(nodes_of(table@), offset as int, count as int) is None,
        },
{
    let total: usize = table.len() / 8;
    if count > total || offset > total - count {
        return None;
    }
    let mut nodes: Vec<NodeCoord> = Vec::new();
    let mut i: usize = 0;
    while i < count
        invariant
            total == row_count(table@, 8),
            table@.len() <= usize::MAX,
            offset + count <= total,
            i <= count,
            nodes@.len() == i,
            forall|j: int| 0 <= j < i ==> #[trigger] nodes@[j] == node_at(table@, offset + j),
        decreases count - i,
    {
        let at: usize = 8 * (offset + i);
        nodes.push(NodeCoord { lat: read_u32(table, at), lng: read_u32(table, at + 4) });
        i = i + 1;
    }
    assert(nodes@ =~= nodes_of(table@).subrange(offset as int, offset + count));
    Some(nodes)
}

/// Reads all points of a table.
pub fn read_nodes(table: &[u8]) -> (r: Vec<NodeCoord>)
    ensures
        r@ == nodes_of(table@),
{
    let total: usize = table.len() / 8;
    match read_stretch(table, 0, total) {
        Some(v) => {
            assert(nodes_of(table@).subrange(0, total as int) =~= nodes_of(table@));
            v
        },
        None => Vec::new(),
    }
}

/// A table has a point for each eight whole bytes, the latitude before the longitude.
pub proof fn law_points_are_read_in_turn(table: Seq<u8>, i: int)
    requires
        0 <= i < table.len() / 8,
    ensures
        nodes_of(table).len() == table.len() / 8,
        nodes_of(table)[i].lat == le32(table, 8 * i) as u32,
        nodes_of(table)[i].lng == le32(table, 8 * i + 4) as u32,
{
}

/// A stretch has all the points that are asked for, in order, where the table has
/// them; else there is none.
pub proof fn law_stretches_are_whole(nodes: Seq<NodeCoord>, offset: int, count: int)
    requires
        0 <= offset,
        0 <= count,
    ensures
        stretch(nodes, offset, count) is Some <==> offset + count <= nodes.len(),
        stretch(nodes, offset, count) is Some ==> stretch(nodes, offset, count)->0.len() == count,
        stretch(nodes, offset, count) is Some ==> forall|i: int|
            0 <= i < count ==> #[trigger] stretch(nodes, offset, count)->0[i] == nodes[offset + i],
{
}

// --- Ray casting ---

/// The coordinate across which a ray is cast.
#[derive(Clone, Copy, Debug, PartialEq, Eq, Structural)]
pub enum Axis {
    Lat,
    Lng,
}

impl Axis {
    pub open spec fn of_node(self, n: NodeCoord) -> u32 {
        match self {
            Axis::Lat => n.lat,
            Axis::Lng => n.lng,
        }
    }

    pub open spec fn of_position(self, p: Position) -> u32 {
        match self {
            Axis::Lat => p.lat_single,
            Axis::Lng => p.lng_single,
        }
    }

    /// The other coordinate.
    pub open spec fn other(self) -> Axis {
        match self {
            Axis::Lat => Axis::Lng,
            Axis::Lng => Axis::Lat,
        }
    }

    fn node(self, n: NodeCoord) -> (r: u32)
        ensures
            r == self.of_node(n),
    {
        match self {
            Axis::Lat => n.lat,
            Axis::Lng => n.lng,
        }
    }

    fn position(self, p: Position) -> (r: u32)
        ensures
            r == self.of_position(p),
    {
        match self {
            Axis::Lat => p.lat_single,
            Axis::Lng => p.lng_single,
        }
    }
}

/// The corner before corner `i` of `n`, round the polygon.
pub open spec fn corner_before(i: int, n: int) -> int {
    if i == 0 {
        n - 1
    } else {
        i - 1
    }
}

/// Whether the two ends of an edge lie on different sides of the point.
pub open spec fn straddles(axis: Axis, p: Position, a: NodeCoord, b: NodeCoord) -> bool {
    single_less(axis.of_position(p), axis.of_node(a)) != single_less(
        axis.of_position(p),
        axis.of_node(b),
    )
}

/// Whether the edge that ends in corner `i` straddles the point.
pub open spec fn edge_straddles(axis: Axis, p: Position, corners: Seq<NodeCoord>, i: int) -> bool {
    straddles(axis, p, corners[i], corners[corner_before(i, corners.len() as int)])
}

/// Whether the ray crosses an odd number of the edges that end in the first
/// `k` corners; `before[i]` tells on which side of edge `i` the point lies.
pub open spec fn odd_crossings(
    axis: Axis,
    p: Position,
    corners: Seq<NodeCoord>,
    before: Seq<bool>,
    k: int,
) -> bool
    decreases k,
{
    if k <= 0 {
        false
    } else {
        odd_crossings(axis, p, corners, before, k - 1) != (edge_straddles(axis, p, corners, k - 1)
            && before[k - 1])
    }
}

/// `before` holds what `crosses` answered for each edge that straddles.
pub open spec fn edges_answered<F: Fn(Position, NodeCoord, NodeCoord) -> bool>(
    crosses: F,
    axis: Axis,
    p: Position,
    corners: Seq<NodeCoord>,
    before: Seq<bool>,
) -> bool {
    &&& before.len() == corners.len()
    &&& forall|i: int|
        0 <= i < corners.len() && edge_straddles(axis, p, corners, i) ==> call_ensures(
            crosses,
            (p, corners[i], corners[corner_before(i, corners.len() as int)]),
            #[trigger] before[i],
        )
}

/// `r` is the parity of the crossings that `crosses` reports.
pub open spec fn casts_to<F: Fn(Position, NodeCoord, NodeCoord) -> bool>(
    crosses: F,
    axis: Axis,
    p: Position,
    corners: Seq<NodeCoord>,
    r: bool,
) -> bool {
    exists|before: Seq<bool>| #[trigger]
        edges_answered(crosses, axis, p, corners, before) && r == odd_crossings(
            axis,
            p,
            corners,
            before,
            corners.len() as int,
        )
}

/// Casts a ray from `p` across `axis` and tells whether it crosses the
/// polygon an odd number of times. For an edge whose ends lie on different
/// sides, `crosses` decides whether the ray meets it: it is given the point
/// and the edge's two ends.
pub fn cast_ray<F: Fn(Position, NodeCoord, NodeCoord) -> bool>(
    crosses: &F,
    axis: Axis,
    p: Position,
    corners: &Vec<NodeCoord>,
) -> (r: bool)
    requires
        forall|q: Position, a: NodeCoord, b: NodeCoord| call_requires(*crosses, (q, a, b)),
    ensures
        casts_to(*crosses, axis, p, corners@, r),
{
    let n: usize = corners.len();
    let h: u32 = axis.position(p);
    let mut inside: bool = false;
    let ghost mut before: Seq<bool> = seq![];
    let mut i: usize = 0;
    while i < n
        invariant
            forall|q: Position, a: NodeCoord, b: NodeCoord| call_requires(*crosses, (q, a, b)),
            n == corners@.len(),
            h == axis.of_position(p),
            i <= n,
            before.len() == i,
            forall|k: int|
                0 <= k < i && edge_straddles(axis, p, corners@, k) ==> call_ensures(
                    *crosses,
                    (p, corners@[k], corners@[corner_before(k, n as int)]),
                    #[trigger] before[k],
                ),
            inside == odd_crossings(axis, p, corners@, before, i as int),
        decreases n - i,
    {
        let j: usize = if i == 0 { n - 1 } else { i - 1 };
        let a = corners[i];
        let b = corners[j];
        let ghost was = before;
        if is_single_less(h, axis.node(a)) != is_single_less(h, axis.node(b)) {
            let hit: bool = crosses(p, a, b);
            proof {
                before = before.push(hit);
            }
            if hit {
                inside = !inside;
            }
        } else {
            proof {
                before = before.push(false);
            }
        }
        proof {
            lemma_odd_crossings_prefix(axis, p, corners@, was, before, i as int);
        }
        i = i + 1;
    }
    assert(edges_answered(*crosses, axis, p, corners@, before));
    inside
}

proof fn lemma_odd_crossings_prefix(
    axis: Axis,
    p: Position,
    corners: Seq<NodeCoord>,
    x: Seq<bool>,
    y: Seq<bool>,
    k: int,
)
    requires
        k <= x.len(),
        k <= y.len(),
        forall|i: int| 0 <= i < k ==> x[i] == y[i],
    ensures
        odd_crossings(axis, p, corners, x, k) == odd_crossings(axis, p, corners, y, k),
    decreases k,
{
    if k > 0 {
        lemma_odd_crossings_prefix(axis, p, corners, x, y, k - 1);
    }
}

/// Whether a function of a point and an edge answers a question always the
/// same way.
pub open spec fn answers_edges_once<R, F: Fn(Position, NodeCoord, NodeCoord) -> R>(f: F) -> bool {
    forall|p: Position, a: NodeCoord, b: NodeCoord, x: R, y: R| #[trigger]
        call_ensures(f, (p, a, b), x) && #[trigger] call_ensures(f, (p, a, b), y) ==> x == y
}

proof fn lemma_odd_crossings_same(
    axis: Axis,
    p: Position,
    corners: Seq<NodeCoord>,
    x: Seq<bool>,
    y: Seq<bool>,
    k: int,
)
    requires
        forall|i: int|
            0 <= i < k && #[trigger] edge_straddles(axis, p, corners, i) ==> x[i] == y[i],
    ensures
        odd_crossings(axis, p, corners, x, k) == odd_crossings(axis, p, corners, y, k),
    decreases k,
{
    if k > 0 {
        lemma_odd_crossings_same(axis, p, corners, x, y, k - 1);
    }
}

/// Ray casting has one outcome, as long as `crosses` answers always the same
/// way.
pub proof fn law_ray_casting_is_determined<F: Fn(Position, NodeCoord, NodeCoord) -> bool>(
    crosses: F,
    axis: Axis,
    p: Position,
    corners: Seq<NodeCoord>,
    r: bool,
    s: bool,
)
    requires
        answers_edges_once(crosses),
        casts_to(crosses, axis, p, corners, r),
        casts_to(crosses, axis, p, corners, s),
    ensures
        r == s,
{
    let n = corners.len() as int;
    let x = choose|x: Seq<bool>| #[trigger]
        edges_answered(crosses, axis, p, corners, x) && r == odd_crossings(axis, p, corners, x, n);
    let y = choose|y: Seq<bool>| #[trigger]
        edges_answered(crosses, axis, p, corners, y) && s == odd_crossings(axis, p, corners, y, n);
    assert forall|i: int| 0 <= i < n && #[trigger] edge_straddles(axis, p, corners, i) implies x[i]
        == y[i] by {
        let edge = (p, corners[i], corners[corner_before(i, n)]);
        assert(call_ensures(crosses, edge, x[i]));
        assert(call_ensures(crosses, edge, y[i]));
    }
    lemma_odd_crossings_same(axis, p, corners, x, y, n);
}

/// A polygon that lies wholly on one side of the point, across the ray, does
/// not hold it.
pub proof fn law_polygon_beside_holds_nothing(
    axis: Axis,
    p: Position,
    corners: Seq<NodeCoord>,
    before: Seq<bool>,
    k: int,
)
    requires
        0 <= k <= corners.len(),
        forall|i: int, j: int|
            0 <= i < corners.len() && 0 <= j < corners.len() ==> !straddles(
                axis,
                p,
                #[trigger] corners[i],
                #[trigger] corners[j],
            ),
    ensures
        !odd_crossings(axis, p, corners, before, k),
    decreases k,
{
    if k > 0 {
        law_polygon_beside_holds_nothing(axis, p, corners, before, k - 1);
        let j = corner_before(k - 1, corners.len() as int);
        assert(!straddles(axis, p, corners[k - 1], corners[j]));
    }
}

/// The polygon with its first corner put last.
pub open spec fn turned<T>(s: Seq<T>) -> Seq<T> {
    s.skip(1).push(s[0])
}

proof fn lemma_turned(
    axis: Axis,
    p: Position,
    corners: Seq<NodeCoord>,
    before: Seq<bool>,
    k: int,
)
    requires
        0 <= k < corners.len(),
        before.len() == corners.len(),
    ensures
        odd_crossings(axis, p, turned(corners), turned(before), k) == (odd_crossings(
            axis,
            p,
            corners,
            before,
            k + 1,
        ) != (edge_straddles(axis, p, corners, 0) && before[0])),
    decreases k,
{
    let n = corners.len() as int;
    if k == 0 {
        assert(!odd_crossings(axis, p, corners, before, 0));
        assert(odd_crossings(axis, p, corners, before, 1) == (edge_straddles(axis, p, corners, 0)
            && before[0]));
    } else {
        lemma_turned(axis, p, corners, before, k - 1);
        assert(turned(corners)[k - 1] == corners[k]);
        assert(turned(before)[k - 1] == before[k]);
        if k == 1 {
            assert(turned(corners)[n - 1] == corners[0]);
        } else {
            assert(turned(corners)[k - 2] == corners[k - 1]);
        }
    }
}

proof fn lemma_turned_crossings(
    axis: Axis,
    p: Position,
    corners: Seq<NodeCoord>,
    before: Seq<bool>,
)
    requires
        corners.len() > 0,
        before.len() == corners.len(),
    ensures
        odd_crossings(axis, p, turned(corners), turned(before), corners.len() as int)
            == odd_crossings(axis, p, corners, before, corners.len() as int),
{
    let n = corners.len() as int;
    lemma_turned(axis, p, corners, before, n - 1);
    assert(turned(corners)[n - 1] == corners[0]);
    assert(turned(before)[n - 1] == before[0]);
    if n > 1 {
        assert(turned(corners)[n - 2] == corners[n - 1]);
    }
}

proof fn lemma_turned_casts<F: Fn(Position, NodeCoord, NodeCoord) -> bool>(
    crosses: F,
    axis: Axis,
    p: Position,
    corners: Seq<NodeCoord>,
    r: bool,
)
    requires
        corners.len() > 0,
        casts_to(crosses, axis, p, corners, r),
    ensures
        casts_to(crosses, axis, p, turned(corners), r),
{
    let n = corners.len() as int;
    let before = choose|x: Seq<bool>| #[trigger]
        edges_answered(crosses, axis, p, corners, x) && r == odd_crossings(axis, p, corners, x, n);
    lemma_turned_crossings(axis, p, corners, before);
    let now = turned(corners);
    assert forall|i: int| 0 <= i < n && edge_straddles(axis, p, now, i) implies call_ensures(
        crosses,
        (p, now[i], now[corner_before(i, n)]),
        #[trigger] turned(before)[i],
    ) by {
        let from = if i == n - 1 {
            0
        } else {
            i + 1
        };
        assert(now[i] == corners[from]);
        assert(now[corner_before(i, n)] == corners[corner_before(from, n)]);
        assert(turned(before)[i] == before[from]);
    }
    assert(edges_answered(crosses, axis, p, now, turned(before)));
}

/// The polygon with its first `k` corners put last.
pub open spec fn turned_by<T>(s: Seq<T>, k: int) -> Seq<T> {
    s.skip(k) + s.take(k)
}

proof fn lemma_turned_by_casts<F: Fn(Position, NodeCoord, NodeCoord) -> bool>(
    crosses: F,
    axis: Axis,
    p: Position,
    corners: Seq<NodeCoord>,
    k: int,
    r: bool,
)
    requires
        0 <= k <= corners.len(),
        casts_to(crosses, axis, p, corners, r),
    ensures
        casts_to(crosses, axis, p, turned_by(corners, k), r),
    decreases k,
{
    if k == 0 {
        assert(turned_by(corners, 0) =~= corners);
    } else {
        lemma_turned_by_casts(crosses, axis, p, corners, k - 1, r);
        lemma_turned_casts(crosses, axis, p, turned_by(corners, k - 1), r);
        assert(turned(turned_by(corners, k - 1)) =~= turned_by(corners, k));
    }
}

/// It does not matter at which corner a polygon starts.
pub proof fn law_first_corner_does_not_matter<F: Fn(Position, NodeCoord, NodeCoord) -> bool>(
    crosses: F,
    axis: Axis,
    p: Position,
    corners: Seq<NodeCoord>,
    k: int,
    r: bool,
)
    requires
        0 <= k <= corners.len(),
    ensures
        casts_to(crosses, axis, p, turned_by(corners, k), r) <==> casts_to(
            crosses,
            axis,
            p,
            corners,
            r,
        ),
{
    let now = turned_by(corners, k);
    if casts_to(crosses, axis, p, corners, r) {
        lemma_turned_by_casts(crosses, axis, p, corners, k, r);
    }
    if casts_to(crosses, axis, p, now, r) {
        lemma_turned_by_casts(crosses, axis, p, now, corners.len() - k, r);
        assert(turned_by(now, corners.len() - k) =~= corners);
    }
}

/// The polygon with its first corner once more at the end.
pub open spec fn closed_ring<T>(s: Seq<T>) -> Seq<T> {
    s.push(s[0])
}

proof fn lemma_closed_crossings(
    axis: Axis,
    p: Position,
    corners: Seq<NodeCoord>,
    open: Seq<bool>,
    closed: Seq<bool>,
    k: int,
)
    requires
        1 <= k <= corners.len(),
        forall|i: int| 1 <= i < corners.len() ==> open[i] == closed[i],
    ensures
        odd_crossings(axis, p, closed_ring(corners), closed, k) == (odd_crossings(
            axis,
            p,
            corners,
            open,
            k,
        ) != (edge_straddles(axis, p, corners, 0) && open[0])),
    decreases k,
{
    let ring = closed_ring(corners);
    if k == 1 {
        assert(ring[ring.len() - 1] == ring[0]);
        assert(!odd_crossings(axis, p, ring, closed, 0));
        assert(!odd_crossings(axis, p, corners, open, 0));
    } else {
        lemma_closed_crossings(axis, p, corners, open, closed, k - 1);
        assert(ring[k - 1] == corners[k - 1]);
        assert(ring[k - 2] == corners[k - 2]);
    }
}

/// It does not matter whether a polygon ends in its first corner.
pub proof fn law_closing_the_ring_does_not_matter<F: Fn(Position, NodeCoord, NodeCoord) -> bool>(
    crosses: F,
    axis: Axis,
    p: Position,
    corners: Seq<NodeCoord>,
    r: bool,
)
    requires
        corners.len() > 0,
    ensures
        casts_to(crosses, axis, p, closed_ring(corners), r) <==> casts_to(
            crosses,
            axis,
            p,
            corners,
            r,
        ),
{
    let n = corners.len() as int;
    let ring = closed_ring(corners);
    if casts_to(crosses, axis, p, corners, r) {
        let open = choose|x: Seq<bool>| #[trigger]
            edges_answered(crosses, axis, p, corners, x) && r == odd_crossings(
                axis,
                p,
                corners,
                x,
                n,
            );
        let closed = open.push(open[0]);
        lemma_closed_crossings(axis, p, corners, open, closed, n);
        assert forall|i: int| 0 <= i < n + 1 && edge_straddles(axis, p, ring, i) implies
            call_ensures(
            crosses,
            (p, ring[i], ring[corner_before(i, n + 1)]),
            #[trigger] closed[i],
        ) by {
            if 0 < i < n {
                assert(edge_straddles(axis, p, corners, i));
                assert(closed[i] == open[i]);
            } else if i == n {
                assert(edge_straddles(axis, p, corners, 0));
                assert(closed[i] == open[0]);
            }
        }
        assert(edges_answered(crosses, axis, p, ring, closed));
        assert(r == odd_crossings(axis, p, ring, closed, n + 1));
    }
    if casts_to(crosses, axis, p, ring, r) {
        let closed = choose|x: Seq<bool>| #[trigger]
            edges_answered(crosses, axis, p, ring, x) && r == odd_crossings(
                axis,
                p,
                ring,
                x,
                n + 1,
            );
        let open = closed.take(n).update(0, closed[n]);
        lemma_closed_crossings(axis, p, corners, open, closed, n);
        assert forall|i: int| 0 <= i < n && edge_straddles(axis, p, corners, i) implies
            call_ensures(
            crosses,
            (p, corners[i], corners[corner_before(i, n)]),
            #[trigger] open[i],
        ) by {
            if i > 0 {
                assert(edge_straddles(axis, p, ring, i));
                assert(open[i] == closed[i]);
            } else {
                assert(edge_straddles(axis, p, ring, n));
                assert(open[i] == closed[n]);
            }
        }
        assert(edges_answered(crosses, axis, p, corners, open));
        assert(r == odd_crossings(axis, p, corners, open, n));
    }
}

// --- Rectangles ---

/// The corners of a rectangle with edges along the coordinates, from its least
/// corner and its greatest.
pub open spec fn rectangle(low: NodeCoord, high: NodeCoord) -> Seq<NodeCoord> {
    seq![
        low,
        NodeCoord { lat: low.lat, lng: high.lng },
        high,
        NodeCoord { lat: high.lat, lng: low.lng },
    ]
}

/// Whether the point lies from the lower and left edges of a rectangle on and short
/// of its upper and right ones.
pub open spec fn is_within(p: Position, low: NodeCoord, high: NodeCoord) -> bool {
    &&& single_at_least(p.lat_single, low.lat)
    &&& single_less(p.lat_single, high.lat)
    &&& single_at_least(p.lng_single, low.lng)
    &&& single_less(p.lng_single, high.lng)
}

/// Whether `crosses` answers for every edge that straddles the point by the side of
/// the edge's end that the point lies on.
pub open spec fn goes_by_side<F: Fn(Position, NodeCoord, NodeCoord) -> bool>(
    crosses: F,
    axis: Axis,
    p: Position,
    corners: Seq<NodeCoord>,
) -> bool {
    forall|i: int, r: bool|
        0 <= i < corners.len() && edge_straddles(axis, p, corners, i) && #[trigger] call_ensures(
            crosses,
            (p, corners[i], corners[corner_before(i, corners.len() as int)]),
            r,
        ) ==> r == single_less(axis.other().of_position(p), axis.other().of_node(corners[i]))
}

/// A ray tells of a rectangle exactly whether the point lies within it, the lower
/// and left edges taken in and the upper and right ones left out, where `crosses`
/// goes by the side on the edges that it is asked about.
pub proof fn law_ray_casting_on_rectangles<F: Fn(Position, NodeCoord, NodeCoord) -> bool>(
    crosses: F,
    axis: Axis,
    p: Position,
    low: NodeCoord,
    high: NodeCoord,
    r: bool,
)
    requires
        single_less(low.lat, high.lat),
        single_less(low.lng, high.lng),
        goes_by_side(crosses, axis, p, rectangle(low, high)),
        casts_to(crosses, axis, p, rectangle(low, high), r),
    ensures
        r == is_within(p, low, high),
{
    let corners = rectangle(low, high);
    let before = choose|x: Seq<bool>| #[trigger]
        edges_answered(crosses, axis, p, corners, x) && r == odd_crossings(axis, p, corners, x, 4);
    assert forall|i: int| 0 <= i < 4 && edge_straddles(axis, p, corners, i) implies
        #[trigger] before[i] == single_less(
        axis.other().of_position(p),
        axis.other().of_node(corners[i]),
    ) by {
        assert(call_ensures(crosses, (p, corners[i], corners[corner_before(i, 4)]), before[i]));
    }
    reveal_with_fuel(odd_crossings, 5);
}

// --- Crossings ---

/// Whether of the two ends of edge `i`, the corner `i` and the one before it round the
/// polygon, exactly one has a greater latitude, or longitude, than the point.
pub open spec fn is_either_side(axis: Axis, p: Position, corners: Seq<NodeCoord>, i: int) -> bool {
    let a = corners[i];
    let b = corners[(i + corners.len() - 1) % (corners.len() as int)];
    match axis {
        Axis::Lat => single_less(p.lat_single, a.lat) != single_less(p.lat_single, b.lat),
        Axis::Lng => single_less(p.lng_single, a.lng) != single_less(p.lng_single, b.lng),
    }
}

proof fn lemma_crossings_counted(
    axis: Axis,
    p: Position,
    corners: Seq<NodeCoord>,
    before: Seq<bool>,
    k: int,
) -> (crossed: Set<int>)
    requires
        0 <= k <= corners.len(),
    ensures
        crossed.finite(),
        forall|i: int| #[trigger]
            crossed.contains(i) <==> 0 <= i < k && edge_straddles(axis, p, corners, i)
                && before[i],
        odd_crossings(axis, p, corners, before, k) == (crossed.len() % 2 == 1),
    decreases k,
{
    if k == 0 {
        Set::empty()
    } else {
        let was = lemma_crossings_counted(axis, p, corners, before, k - 1);
        if edge_straddles(axis, p, corners, k - 1) && before[k - 1] {
            assert(!was.contains(k - 1));
            was.insert(k - 1)
        } else {
            was
        }
    }
}

/// A ray from the point tells by the number of edges that it crosses: every edge with
/// exactly one end beyond the point is asked about, and no other, and the answer is
/// whether an odd number of them is crossed.
pub proof fn law_odd_crossings_decide<F: Fn(Position, NodeCoord, NodeCoord) -> bool>(
    crosses: F,
    axis: Axis,
    p: Position,
    corners: Seq<NodeCoord>,
    r: bool,
)
    requires
        casts_to(crosses, axis, p, corners, r),
    ensures
        exists|crossed: Set<int>|
            {
                let n = corners.len() as int;
                &&& #[trigger] crossed.finite()
                &&& forall|i: int| #[trigger]
                    crossed.contains(i) ==> 0 <= i < n && is_either_side(axis, p, corners, i)
                &&& forall|i: int|
                    0 <= i < n && #[trigger] is_either_side(axis, p, corners, i) ==> call_ensures(
                        crosses,
                        (p, corners[i], corners[(i + n - 1) % n]),
                        crossed.contains(i),
                    )
                &&& r == (crossed.len() % 2 == 1)
            },
{
    let n = corners.len() as int;
    let before = choose|before: Seq<bool>| #[trigger]
        edges_answered(crosses, axis, p, corners, before) && r == odd_crossings(
            axis,
            p,
            corners,
            before,
            n,
        );
    let crossed = lemma_crossings_counted(axis, p, corners, before, n);
    assert forall|i: int| 0 <= i < n implies (i + n - 1) % n == corner_before(i, n)
        && #[trigger] is_either_side(axis, p, corners, i) == edge_straddles(
        axis,
        p,
        corners,
        i,
    ) by {
        if i == 0 {
            assert((n - 1) % n == n - 1) by (nonlinear_arith)
                requires
                    n > 0,
            ;
        } else {
            assert((i + n - 1) % n == i - 1) by (nonlinear_arith)
                requires
                    0 < i < n,
            ;
        }
    }
    assert forall|i: int| #[trigger] crossed.contains(i) implies 0 <= i < n && is_either_side(
        axis,
        p,
        corners,
        i,
    ) by {
        assert(is_either_side(axis, p, corners, i) == edge_straddles(axis, p, corners, i));
    }
    assert forall|i: int| 0 <= i < n && #[trigger] is_either_side(
        axis,
        p,
        corners,
        i,
    ) implies call_ensures(
        crosses,
        (p, corners[i], corners[(i + n - 1) % n]),
        crossed.contains(i),
    ) by {
        assert(crossed.contains(i) == before[i]);
        assert(call_ensures(crosses, (p, corners[i], corners[corner_before(i, n)]), before[i]));
    }
    assert(crossed.finite());
}

} // verus!
