//! The nearest address, street and line of house numbers.
use crate::bytes::{entry_ids, IndexError};
use crate::cells::{ancestor, cells_around, touching_cells};
use crate::geometry::{
    answers_edges_once, nodes_of, read_stretch, stretch, NodeCoord, Position,
};
use crate::ieee::{double_is_nan, double_less, is_double_less};
use crate::server::index::{
    geo_offsets, interps_of, law_entries_are_those_of_the_cells, points_of, ways_of, AddrPoint,
    GeoIndex, InterpWay, WayHeader,
};
use vstd::prelude::*;

verus! {

/// The cell level that streets, addresses and lines of house numbers are
/// listed by.
pub const STREET_CELL_LEVEL: u64 = 17;

/// The double-precision pattern of the greatest finite number.
pub const FARTHEST: u64 = 0x7FEF_FFFF_FFFF_FFFF;

// --- The nearest of many ---

/// What came of looking at an entry.
pub enum Visit {
    /// The entry does not count.
    Skipped,
    /// The entry points outside its table, or has no points.
    Broken,
    /// The double-precision patterns of the distances to its parts.
    Measured(Vec<u64>),
}

/// The nearest part of the nearest entry.
#[derive(Clone, Copy, Debug, PartialEq, Eq, Structural)]
pub struct Nearest {
    pub dist: u64,
    pub entry: usize,
    pub part: usize,
}

/// The first of the least among the first `n` distances, and its place.
/// Nothing when none is below the greatest finite number.
pub open spec fn least(dists: Seq<u64>, n: int) -> Option<(u64, usize)>
    decreases n,
{
    if n <= 0 {
        None
    } else {
        let before = least(dists, n - 1);
        if double_less(
            dists[n - 1],
            match before {
                Some(b) => b.0,
                None => FARTHEST,
            },
        ) {
            Some((dists[n - 1], (n - 1) as usize))
        } else {
            before
        }
    }
}

/// How near something has to be to count beside the nearest so far.
pub open spec fn bound(best: Option<Nearest>) -> u64 {
    match best {
        Some(b) => b.dist,
        None => FARTHEST,
    }
}

/// The nearest among the first `k` entries; of equally near ones the first.
pub open spec fn nearest_after(visits: Seq<Visit>, k: int) -> Option<Nearest>
    decreases k,
{
    if k <= 0 {
        None
    } else {
        let before = nearest_after(visits, k - 1);
        match visits[k - 1] {
            Visit::Measured(dists) => match least(dists@, dists@.len() as int) {
                Some((dist, part)) => if double_less(dist, bound(before)) {
                    Some(Nearest { dist, entry: (k - 1) as usize, part })
                } else {
                    before
                },
                None => before,
            },
            _ => before,
        }
    }
}

/// Whether no entry points outside its table.
pub open spec fn is_whole(visits: Seq<Visit>) -> bool {
    forall|k: int| 0 <= k < visits.len() ==> !(#[trigger] visits[k] is Broken)
}

/// The nearest of all entries. Nothing where one points outside its table.
pub open spec fn nearest_of(visits: Seq<Visit>) -> Option<Option<Nearest>> {
    if is_whole(visits) {
        Some(nearest_after(visits, visits.len() as int))
    } else {
        None
    }
}

/// Finds the least distance.
pub fn find_least(dists: &Vec<u64>) -> (r: Option<(u64, usize)>)
    ensures
        r == least(dists@, dists@.len() as int),
{
    let mut best: Option<(u64, usize)> = None;
    let mut i: usize = 0;
    while i < dists.len()
        invariant
            i <= dists@.len(),
            best == least(dists@, i as int),
        decreases dists@.len() - i,
    {
        let limit: u64 = match best {
            Some(b) => b.0,
            None => FARTHEST,
        };
        if is_double_less(dists[i], limit) {
            best = Some((dists[i], i));
        }
        i = i + 1;
    }
    best
}

/// Finds the nearest of all entries.
pub fn find_nearest(visits: &Vec<Visit>) -> (r: Result<Option<Nearest>, IndexError>)
    ensures
        match r {
            Ok(best) => nearest_of(visits@) == Some(best),
            Err(e) => nearest_of(visits@) is None && e == IndexError::OutOfRange,
        },
        r is Ok && r->Ok_0 is Some ==> r->Ok_0->0.entry < visits@.len()
            && visits@[r->Ok_0->0.entry as int] is Measured,
{
    let mut best: Option<Nearest> = None;
    let mut k: usize = 0;
    while k < visits.len()
        invariant
            k <= visits@.len(),
            best == nearest_after(visits@, k as int),
            forall|i: int| 0 <= i < k ==> !(#[trigger] visits@[i] is Broken),
            best is Some ==> best->0.entry < k && visits@[best->0.entry as int] is Measured,
        decreases visits@.len() - k,
    {
        match &visits[k] {
            Visit::Measured(dists) => {
                if let Some((dist, part)) = find_least(dists) {
                    let limit: u64 = match best {
                        Some(b) => b.dist,
                        None => FARTHEST,
                    };
                    if is_double_less(dist, limit) {
                        best = Some(Nearest { dist, entry: k, part });
                    }
                }
            },
            Visit::Broken => {
                assert(visits@[k as int] is Broken);
                return Err(IndexError::OutOfRange);
            },
            Visit::Skipped => {},
        }
        k = k + 1;
    }
    Ok(best)
}

proof fn lemma_least(dists: Seq<u64>, n: int)
    requires
        0 <= n <= dists.len(),
        dists.len() <= usize::MAX,
    ensures
        forall|i: int|
            0 <= i < n ==> !double_less(
                #[trigger] dists[i],
                match least(dists, n) {
                    Some(b) => b.0,
                    None => FARTHEST,
                },
            ),
        least(dists, n) is Some ==> {
            let (dist, at) = least(dists, n)->0;
            &&& at < n
            &&& dists[at as int] == dist
            &&& double_less(dist, FARTHEST)
            &&& forall|i: int|
                0 <= i < at ==> double_less(dist, #[trigger] dists[i]) || double_is_nan(dists[i])
        },
    decreases n,
{
    if n > 0 {
        lemma_least(dists, n - 1);
    }
}

/// The nearest is nearest: no part of any entry is nearer, and no part of an
/// earlier entry, nor an earlier part of the same one, is as near.
pub proof fn law_nearest_is_nearest(visits: Seq<Visit>, k: int)
    requires
        0 <= k <= visits.len() <= usize::MAX,
    ensures
        forall|j: int, i: int|
            0 <= j < k && visits[j] is Measured && 0 <= i < visits[j]->Measured_0@.len()
                ==> !double_less(
                #[trigger] visits[j]->Measured_0@[i],
                bound(nearest_after(visits, k)),
            ),
        nearest_after(visits, k) is Some ==> {
            let best = nearest_after(visits, k)->0;
            &&& best.entry < k
            &&& visits[best.entry as int] is Measured
            &&& best.part < visits[best.entry as int]->Measured_0@.len()
            &&& visits[best.entry as int]->Measured_0@[best.part as int] == best.dist
            &&& double_less(best.dist, FARTHEST)
            &&& forall|i: int|
                0 <= i < best.part ==> double_less(
                    best.dist,
                    #[trigger] visits[best.entry as int]->Measured_0@[i],
                ) || double_is_nan(visits[best.entry as int]->Measured_0@[i])
            &&& forall|j: int, i: int|
                0 <= j < best.entry && visits[j] is Measured && 0 <= i
                    < visits[j]->Measured_0@.len() ==> double_less(
                    best.dist,
                    #[trigger] visits[j]->Measured_0@[i],
                ) || double_is_nan(visits[j]->Measured_0@[i])
        },
    decreases k,
{
    if k > 0 {
        law_nearest_is_nearest(visits, k - 1);
        if visits[k - 1] is Measured {
            let dists = visits[k - 1]->Measured_0;
            assert(dists@.len() == dists.len());
            lemma_least(dists@, dists@.len() as int);
            let before = nearest_after(visits, k - 1);
            let after = nearest_after(visits, k);
            assert(after == before || double_less(after->0.dist, bound(before)));
            assert forall|j: int, i: int|
                0 <= j < k && visits[j] is Measured && 0 <= i
                    < visits[j]->Measured_0@.len() implies !double_less(
                #[trigger] visits[j]->Measured_0@[i],
                bound(after),
            ) by {
                if j < k - 1 {
                    assert(!double_less(visits[j]->Measured_0@[i], bound(before)));
                } else {
                    assert(visits[j]->Measured_0@[i] == dists@[i]);
                }
            }
        }
    }
}

// --- Addresses ---

/// `v` is what came of looking at the address `id`.
pub open spec fn addr_visited<P: Fn(Position, NodeCoord) -> u64>(
    idx: GeoIndex,
    p: Position,
    to_point: P,
    id: u32,
    v: Visit,
) -> bool {
    let points = points_of(idx.addr_points@);
    if id >= points.len() {
        v is Broken
    } else {
        &&& v matches Visit::Measured(dists)
        &&& dists@.len() == 1
        &&& call_ensures(to_point, (p, points[id as int].as_node()), dists@[0])
    }
}

/// `visits` is what came of looking at each of the addresses.
pub open spec fn addrs_visited<P: Fn(Position, NodeCoord) -> u64>(
    idx: GeoIndex,
    p: Position,
    to_point: P,
    ids: Seq<u32>,
    visits: Seq<Visit>,
) -> bool {
    &&& visits.len() == ids.len()
    &&& forall|k: int|
        0 <= k < ids.len() ==> addr_visited(idx, p, to_point, ids[k], #[trigger] visits[k])
}

/// `r` is the nearest address of those listed round the point, with its
/// distance as `to_point` measures it. Nothing where an entry points outside
/// its table.
pub open spec fn nearest_address<P: Fn(Position, NodeCoord) -> u64>(
    idx: GeoIndex,
    p: Position,
    to_point: P,
    r: Option<Option<(u64, AddrPoint)>>,
) -> bool {
    let ids = idx.addr_entries_in(cells_around(p.leaf, STREET_CELL_LEVEL));
    exists|visits: Seq<Visit>| #[trigger]
        addrs_visited(idx, p, to_point, ids, visits) && r == match nearest_of(visits) {
            None => None,
            Some(None) => Some(None),
            Some(Some(n)) => Some(
                Some((n.dist, points_of(idx.addr_points@)[ids[n.entry as int] as int])),
            ),
        }
}

fn visit_addrs<P: Fn(Position, NodeCoord) -> u64>(
    idx: &GeoIndex,
    p: Position,
    to_point: &P,
    ids: &Vec<u32>,
) -> (r: Vec<Visit>)
    requires
        forall|q: Position, a: NodeCoord| call_requires(*to_point, (q, a)),
    ensures
        addrs_visited(*idx, p, *to_point, ids@, r@),
{
    let mut visits: Vec<Visit> = Vec::new();
    let mut k: usize = 0;
    while k < ids.len()
        invariant
            forall|q: Position, a: NodeCoord| call_requires(*to_point, (q, a)),
            k <= ids@.len(),
            visits@.len() == k,
            forall|i: int|
                0 <= i < k ==> addr_visited(*idx, p, *to_point, ids@[i], #[trigger] visits@[i]),
        decreases ids@.len() - k,
    {
        match idx.addr_point(ids[k] as usize) {
            Some(point) => {
                let dist: u64 = to_point(p, point.node());
                visits.push(Visit::Measured(vec![dist]));
            },
            None => {
                visits.push(Visit::Broken);
            },
        }
        k = k + 1;
    }
    visits
}

pub(crate) fn find_address<P: Fn(Position, NodeCoord) -> u64>(
    idx: &GeoIndex,
    p: Position,
    to_point: &P,
    ids: &Vec<u32>,
) -> (r: Result<Option<(u64, AddrPoint)>, IndexError>)
    requires
        forall|q: Position, a: NodeCoord| call_requires(*to_point, (q, a)),
        ids@ == idx.addr_entries_in(cells_around(p.leaf, STREET_CELL_LEVEL)),
    ensures
        nearest_address(*idx, p, *to_point, r.ok()),
        r is Err ==> r->Err_0 == IndexError::OutOfRange,
{
    let visits = visit_addrs(idx, p, to_point, ids);
    let best = match find_nearest(&visits) {
        Ok(best) => best,
        Err(e) => return Err(e),
    };
    match best {
        None => Ok(None),
        Some(n) => {
            match idx.addr_point(ids[n.entry] as usize) {
                Some(point) => Ok(Some((n.dist, point))),
                None => {
                    assert(addr_visited(
                        *idx,
                        p,
                        *to_point,
                        ids@[n.entry as int],
                        visits@[n.entry as int],
                    ));
                    Err(IndexError::OutOfRange)
                },
            }
        },
    }
}

// --- Segments ---

/// `dists` holds what `to_segment` answered for each segment of a line.
pub open spec fn segments_measured<S: Fn(Position, NodeCoord, NodeCoord) -> u64>(
    p: Position,
    to_segment: S,
    line: Seq<NodeCoord>,
    dists: Seq<u64>,
) -> bool {
    &&& dists.len() == line.len() - 1
    &&& forall|i: int|
        0 <= i < dists.len() ==> call_ensures(
            to_segment,
            (p, line[i], line[i + 1]),
            #[trigger] dists[i],
        )
}

fn measure_segments<S: Fn(Position, NodeCoord, NodeCoord) -> u64>(
    p: Position,
    to_segment: &S,
    line: &Vec<NodeCoord>,
) -> (r: Vec<u64>)
    requires
        forall|q: Position, a: NodeCoord, b: NodeCoord| call_requires(*to_segment, (q, a, b)),
        line@.len() > 0,
    ensures
        segments_measured(p, *to_segment, line@, r@),
{
    let mut dists: Vec<u64> = Vec::new();
    let mut i: usize = 0;
    while i < line.len() - 1
        invariant
            forall|q: Position, a: NodeCoord, b: NodeCoord| call_requires(*to_segment, (q, a, b)),
            line@.len() > 0,
            i <= line@.len() - 1,
            dists@.len() == i,
            forall|j: int|
                0 <= j < i ==> call_ensures(
                    *to_segment,
                    (p, line@[j], line@[j + 1]),
                    #[trigger] dists@[j],
                ),
        decreases line@.len() - i,
    {
        let dist: u64 = to_segment(p, line[i], line[i + 1]);
        dists.push(dist);
        i = i + 1;
    }
    dists
}

// --- Streets ---

/// The street last seen in each of the 64 slots, after the first `k` entries.
/// A street goes to the slot of its lowest six bits.
pub open spec fn seen_slots(ids: Seq<u32>, k: int) -> Seq<u32>
    decreases k,
{
    if k <= 0 {
        Seq::new(64, |i: int| u32::MAX)
    } else {
        seen_slots(ids, k - 1).update(ids[k - 1] as int % 64, ids[k - 1])
    }
}

/// Whether entry `k` is passed over: its slot holds the same street.
pub open spec fn is_repeat(ids: Seq<u32>, k: int) -> bool {
    seen_slots(ids, k)[ids[k] as int % 64] == ids[k]
}

/// The points of a street, where the tables have it; it has at least one.
pub open spec fn street_line(idx: GeoIndex, id: u32) -> Option<Seq<NodeCoord>> {
    let ways = ways_of(idx.street_ways@);
    if id >= ways.len() || ways[id as int].node_count == 0 {
        None
    } else {
        stretch(
            nodes_of(idx.street_nodes@),
            ways[id as int].node_offset as int,
            ways[id as int].node_count as int,
        )
    }
}

/// `v` is what came of looking at the street `id`.
pub open spec fn street_visited<S: Fn(Position, NodeCoord, NodeCoord) -> u64>(
    idx: GeoIndex,
    p: Position,
    to_segment: S,
    id: u32,
    v: Visit,
) -> bool {
    match street_line(idx, id) {
        None => v is Broken,
        Some(line) => {
            &&& v matches Visit::Measured(dists)
            &&& segments_measured(p, to_segment, line, dists@)
        },
    }
}

/// `visits` is what came of looking at each of the streets, those passed over
/// left out.
pub open spec fn streets_visited<S: Fn(Position, NodeCoord, NodeCoord) -> u64>(
    idx: GeoIndex,
    p: Position,
    to_segment: S,
    ids: Seq<u32>,
    visits: Seq<Visit>,
) -> bool {
    &&& visits.len() == ids.len()
    &&& forall|k: int|
        0 <= k < ids.len() ==> {
            if is_repeat(ids, k) {
                #[trigger] visits[k] is Skipped
            } else {
                street_visited(idx, p, to_segment, ids[k], visits[k])
            }
        }
}

/// `r` is the nearest street of those listed round the point, with its
/// distance as `to_segment` measures it. Nothing where an entry points outside
/// its table.
pub open spec fn nearest_street<S: Fn(Position, NodeCoord, NodeCoord) -> u64>(
    idx: GeoIndex,
    p: Position,
    to_segment: S,
    r: Option<Option<(u64, WayHeader)>>,
) -> bool {
    let ids = idx.street_entries_in(cells_around(p.leaf, STREET_CELL_LEVEL));
    exists|visits: Seq<Visit>| #[trigger]
        streets_visited(idx, p, to_segment, ids, visits) && r == match nearest_of(visits) {
            None => None,
            Some(None) => Some(None),
            Some(Some(n)) => Some(
                Some((n.dist, ways_of(idx.street_ways@)[ids[n.entry as int] as int])),
            ),
        }
}

fn visit_street<S: Fn(Position, NodeCoord, NodeCoord) -> u64>(
    idx: &GeoIndex,
    p: Position,
    to_segment: &S,
    id: u32,
) -> (r: Visit)
    requires
        forall|q: Position, a: NodeCoord, b: NodeCoord| call_requires(*to_segment, (q, a, b)),
    ensures
        street_visited(*idx, p, *to_segment, id, r),
{
    let way = match idx.way(id as usize) {
        Some(way) => way,
        None => return Visit::Broken,
    };
    if way.node_count == 0 {
        return Visit::Broken;
    }
    match read_stretch(idx.street_nodes, way.node_offset as usize, way.node_count as usize) {
        Some(line) => Visit::Measured(measure_segments(p, to_segment, &line)),
        None => Visit::Broken,
    }
}

fn visit_streets<S: Fn(Position, NodeCoord, NodeCoord) -> u64>(
    idx: &GeoIndex,
    p: Position,
    to_segment: &S,
    ids: &Vec<u32>,
) -> (r: Vec<Visit>)
    requires
        forall|q: Position, a: NodeCoord, b: NodeCoord| call_requires(*to_segment, (q, a, b)),
    ensures
        streets_visited(*idx, p, *to_segment, ids@, r@),
{
    let mut seen: Vec<u32> = Vec::new();
    while seen.len() < 64
        invariant
            seen@.len() <= 64,
            forall|i: int| 0 <= i < seen@.len() ==> #[trigger] seen@[i] == u32::MAX,
        decreases 64 - seen@.len(),
    {
        seen.push(u32::MAX);
    }
    assert(seen@ =~= seen_slots(ids@, 0));
    let mut visits: Vec<Visit> = Vec::new();
    let mut k: usize = 0;
    while k < ids.len()
        invariant
            forall|q: Position, a: NodeCoord, b: NodeCoord| call_requires(*to_segment, (q, a, b)),
            k <= ids@.len(),
            seen@.len() == 64,
            seen@ == seen_slots(ids@, k as int),
            visits@.len() == k,
            forall|i: int|
                0 <= i < k ==> {
                    if is_repeat(ids@, i) {
                        #[trigger] visits@[i] is Skipped
                    } else {
                        street_visited(*idx, p, *to_segment, ids@[i], visits@[i])
                    }
                },
        decreases ids@.len() - k,
    {
        let id: u32 = ids[k];
        assert(id & 0x3F == id % 64) by (bit_vector);
        let slot: usize = (id & 0x3F) as usize;
        if seen[slot] == id {
            visits.push(Visit::Skipped);
        } else {
            visits.push(visit_street(idx, p, to_segment, id));
        }
        seen.set(slot, id);
        k = k + 1;
    }
    visits
}

pub(crate) fn find_street<S: Fn(Position, NodeCoord, NodeCoord) -> u64>(
    idx: &GeoIndex,
    p: Position,
    to_segment: &S,
    ids: &Vec<u32>,
) -> (r: Result<Option<(u64, WayHeader)>, IndexError>)
    requires
        forall|q: Position, a: NodeCoord, b: NodeCoord| call_requires(*to_segment, (q, a, b)),
        ids@ == idx.street_entries_in(cells_around(p.leaf, STREET_CELL_LEVEL)),
    ensures
        nearest_street(*idx, p, *to_segment, r.ok()),
        r is Err ==> r->Err_0 == IndexError::OutOfRange,
{
    let visits = visit_streets(idx, p, to_segment, ids);
    let best = match find_nearest(&visits) {
        Ok(best) => best,
        Err(e) => return Err(e),
    };
    match best {
        None => Ok(None),
        Some(n) => {
            match idx.way(ids[n.entry] as usize) {
                Some(way) => Ok(Some((n.dist, way))),
                None => {
                    assert(visits@[n.entry as int] is Measured);
                    Err(IndexError::OutOfRange)
                },
            }
        },
    }
}

proof fn lemma_slot_was_seen(ids: Seq<u32>, k: int, slot: int)
    requires
        0 <= k <= ids.len(),
        0 <= slot < 64,
    ensures
        seen_slots(ids, k).len() == 64,
        seen_slots(ids, k)[slot] == u32::MAX || exists|j: int|
            0 <= j < k && #[trigger] ids[j] == seen_slots(ids, k)[slot],
    decreases k,
{
    if k > 0 {
        lemma_slot_was_seen(ids, k - 1, slot);
        if seen_slots(ids, k)[slot] != seen_slots(ids, k - 1)[slot] {
            assert(ids[k - 1] == seen_slots(ids, k)[slot]);
        } else if seen_slots(ids, k)[slot] != u32::MAX {
            let j = choose|j: int|
                0 <= j < k - 1 && #[trigger] ids[j] == seen_slots(ids, k - 1)[slot];
            assert(ids[j] == seen_slots(ids, k)[slot]);
        }
    }
}

/// A street that is passed over was looked at before.
proof fn lemma_repeat_was_visited(ids: Seq<u32>, k: int)
    requires
        0 <= k < ids.len(),
        is_repeat(ids, k),
        ids[k] != u32::MAX,
    ensures
        exists|j: int| 0 <= j < k && #[trigger] ids[j] == ids[k] && !is_repeat(ids, j),
    decreases k,
{
    lemma_slot_was_seen(ids, k, ids[k] as int % 64);
    let j = choose|j: int| 0 <= j < k && #[trigger] ids[j] == ids[k];
    if is_repeat(ids, j) {
        lemma_repeat_was_visited(ids, j);
        let i = choose|i: int| 0 <= i < j && #[trigger] ids[i] == ids[j] && !is_repeat(ids, i);
        assert(ids[i] == ids[k]);
    } else {
        assert(ids[j] == ids[k]);
    }
}

/// Whether `full` is what `visits` is, with the entries that were passed over
/// looked at too, and looking at a street again gives the same.
pub open spec fn fills_in(ids: Seq<u32>, visits: Seq<Visit>, full: Seq<Visit>) -> bool {
    &&& full.len() == ids.len()
    &&& forall|i: int|
        0 <= i < ids.len() && !is_repeat(ids, i) ==> #[trigger] full[i] == visits[i]
    &&& forall|i: int, j: int|
        0 <= i < ids.len() && 0 <= j < ids.len() && ids[i] == ids[j] ==> #[trigger] full[i]
            == #[trigger] full[j]
}

/// The visit that entry `i` has when nothing is passed over.
proof fn lemma_filled_in(ids: Seq<u32>, visits: Seq<Visit>, full: Seq<Visit>, i: int) -> (j: int)
    requires
        0 <= i < ids.len(),
        ids[i] != u32::MAX,
        fills_in(ids, visits, full),
    ensures
        0 <= j <= i,
        !is_repeat(ids, j),
        ids[j] == ids[i],
        full[j] == full[i],
        full[j] == visits[j],
{
    if is_repeat(ids, i) {
        lemma_repeat_was_visited(ids, i);
        let j = choose|j: int| 0 <= j < i && #[trigger] ids[j] == ids[i] && !is_repeat(ids, j);
        assert(full[j] == full[i]);
        j
    } else {
        assert(full[i] == visits[i]);
        i
    }
}

proof fn lemma_repeats(ids: Seq<u32>, visits: Seq<Visit>, full: Seq<Visit>, k: int)
    requires
        0 <= k <= ids.len() <= usize::MAX,
        visits.len() == ids.len(),
        fills_in(ids, visits, full),
        forall|i: int| 0 <= i < ids.len() ==> #[trigger] ids[i] != u32::MAX,
        forall|i: int|
            0 <= i < ids.len() && is_repeat(ids, i) ==> #[trigger] visits[i] is Skipped,
    ensures
        nearest_after(full, k) == nearest_after(visits, k),
    decreases k,
{
    if k > 0 {
        lemma_repeats(ids, visits, full, k - 1);
        assert(ids[k - 1] != u32::MAX);
        let j = lemma_filled_in(ids, visits, full, k - 1);
        if is_repeat(ids, k - 1) {
            assert(visits[k - 1] is Skipped);
            law_nearest_is_nearest(full, k - 1);
            if full[k - 1] is Measured {
                let dists = full[j]->Measured_0;
                assert(dists@.len() == dists.len());
                lemma_least(dists@, dists@.len() as int);
                if let Some((_, at)) = least(dists@, dists@.len() as int) {
                    assert(!double_less(
                        full[j]->Measured_0@[at as int],
                        bound(nearest_after(full, k - 1)),
                    ));
                }
            }
        } else {
            assert(full[k - 1] == visits[k - 1]);
        }
    }
}

/// Passing over streets that were seen changes nothing: as long as looking at
/// a street again gives the same, the outcome is the one of looking at every
/// entry. The id that marks an empty slot is no street.
pub proof fn law_passing_over_changes_nothing<S: Fn(Position, NodeCoord, NodeCoord) -> u64>(
    idx: GeoIndex,
    p: Position,
    to_segment: S,
    ids: Seq<u32>,
    visits: Seq<Visit>,
    full: Seq<Visit>,
)
    requires
        ids.len() <= usize::MAX,
        forall|i: int| 0 <= i < ids.len() ==> #[trigger] ids[i] != u32::MAX,
        streets_visited(idx, p, to_segment, ids, visits),
        fills_in(ids, visits, full),
    ensures
        nearest_of(full) == nearest_of(visits),
        forall|i: int|
            0 <= i < ids.len() ==> street_visited(idx, p, to_segment, ids[i], #[trigger] full[i]),
{
    lemma_repeats(ids, visits, full, ids.len() as int);
    assert forall|i: int| 0 <= i < ids.len() implies street_visited(
        idx,
        p,
        to_segment,
        ids[i],
        #[trigger] full[i],
    ) && (is_whole(visits) ==> !(full[i] is Broken)) by {
        assert(ids[i] != u32::MAX);
        let j = lemma_filled_in(ids, visits, full, i);
        assert(full[i] == visits[j]);
    }
    if !is_whole(visits) {
        let j = choose|j: int| 0 <= j < visits.len() && #[trigger] visits[j] is Broken;
        assert(full[j] is Broken);
    }
}

// --- Lines of house numbers ---

/// The points of a line, where the tables have it; it has at least one.
pub open spec fn interp_line(idx: GeoIndex, iw: InterpWay) -> Option<Seq<NodeCoord>> {
    if iw.node_count == 0 {
        None
    } else {
        stretch(nodes_of(idx.interp_nodes@), iw.node_offset as int, iw.node_count as int)
    }
}

/// `has` is what `has_length` answered for a line.
pub open spec fn length_told<L: Fn(Position, &Vec<NodeCoord>) -> bool>(
    p: Position,
    has_length: L,
    line: Seq<NodeCoord>,
    has: bool,
) -> bool {
    exists|v: Vec<NodeCoord>| v@ == line && #[trigger] call_ensures(has_length, (p, &v), has)
}

/// `v` is what came of looking at the line `id`: one without a number at
/// either end does not count, nor does one without length.
pub open spec fn interp_visited<
    L: Fn(Position, &Vec<NodeCoord>) -> bool,
    S: Fn(Position, NodeCoord, NodeCoord) -> u64,
>(idx: GeoIndex, p: Position, has_length: L, to_segment: S, id: u32, v: Visit) -> bool {
    let interps = interps_of(idx.interp_ways@);
    let iw = interps[id as int];
    if id >= interps.len() {
        v is Broken
    } else if iw.start_number == 0 || iw.end_number == 0 {
        v is Skipped
    } else {
        match interp_line(idx, iw) {
            None => v is Broken,
            Some(line) => match v {
                Visit::Broken => false,
                Visit::Skipped => length_told(p, has_length, line, false),
                Visit::Measured(dists) => length_told(p, has_length, line, true)
                    && segments_measured(p, to_segment, line, dists@),
            },
        }
    }
}

/// `visits` is what came of looking at each of the lines.
pub open spec fn interps_visited<
    L: Fn(Position, &Vec<NodeCoord>) -> bool,
    S: Fn(Position, NodeCoord, NodeCoord) -> u64,
>(
    idx: GeoIndex,
    p: Position,
    has_length: L,
    to_segment: S,
    ids: Seq<u32>,
    visits: Seq<Visit>,
) -> bool {
    &&& visits.len() == ids.len()
    &&& forall|k: int|
        0 <= k < ids.len() ==> interp_visited(
            idx,
            p,
            has_length,
            to_segment,
            ids[k],
            #[trigger] visits[k],
        )
}

/// How far apart neighbouring house numbers are: even and odd sides go by
/// twos.
pub open spec fn number_step(iw: InterpWay) -> u32 {
    if iw.interpolation == 1 || iw.interpolation == 2 {
        2
    } else {
        1
    }
}

/// The house number, where it fits: `count` steps from the start when the
/// numbers go by twos, and `count` itself otherwise.
pub open spec fn house_number(iw: InterpWay, count: u32) -> Option<u32> {
    if number_step(iw) == 1 {
        Some(count)
    } else if iw.start_number + 2 * count <= u32::MAX {
        Some((iw.start_number + 2 * count) as u32)
    } else {
        None
    }
}

/// A house number found along a line.
pub struct Interpolated<'a> {
    pub dist: u64,
    pub street: &'a str,
    pub number: u32,
}

/// A house number found along a line.
pub struct InterpolatedModel {
    pub dist: u64,
    pub street: Seq<char>,
    pub number: u32,
}

impl<'a> View for Interpolated<'a> {
    type V = InterpolatedModel;

    open spec fn view(&self) -> InterpolatedModel {
        InterpolatedModel { dist: self.dist, street: self.street@, number: self.number }
    }
}

/// `t` is what `along` answered for a place on a line.
pub open spec fn place_told<A: Fn(Position, &Vec<NodeCoord>, usize) -> u64>(
    p: Position,
    along: A,
    line: Seq<NodeCoord>,
    segment: usize,
    t: u64,
) -> bool {
    exists|v: Vec<NodeCoord>| v@ == line && #[trigger] call_ensures(along, (p, &v, segment), t)
}

/// The number and street of a place on a line that is `count` steps along.
pub open spec fn interpolated(idx: GeoIndex, iw: InterpWay, dist: u64, count: u32) -> Result<
    InterpolatedModel,
    IndexError,
> {
    match house_number(iw, count) {
        None => Err(IndexError::Overflow),
        Some(number) => if idx.has_text(iw.street_id) {
            Ok(InterpolatedModel { dist, street: idx.text(iw.street_id), number })
        } else {
            Err(IndexError::OutOfRange)
        },
    }
}

/// `r` is the house number at the nearest place of the nearest line: `along`
/// tells how far along the line it is, and `count_steps` how many numbers that
/// is.
pub open spec fn number_told<
    A: Fn(Position, &Vec<NodeCoord>, usize) -> u64,
    N: Fn(u32, u32, u64, u32) -> u32,
>(
    idx: GeoIndex,
    p: Position,
    along: A,
    count_steps: N,
    iw: InterpWay,
    n: Nearest,
    r: Result<InterpolatedModel, IndexError>,
) -> bool {
    exists|t: u64, count: u32|
        place_told(p, along, interp_line(idx, iw)->0, n.part, t) && #[trigger] call_ensures(
            count_steps,
            (iw.start_number, iw.end_number, t, number_step(iw)),
            count,
        ) && r == interpolated(idx, iw, n.dist, count)
}

/// The outcome of a search that came to a line.
pub open spec fn some_number(m: Result<InterpolatedModel, IndexError>) -> Result<
    Option<InterpolatedModel>,
    IndexError,
> {
    match m {
        Ok(m) => Ok(Some(m)),
        Err(e) => Err(e),
    }
}

/// `r` is the house number on the nearest of the lines `ids`.
pub open spec fn number_at<
    A: Fn(Position, &Vec<NodeCoord>, usize) -> u64,
    N: Fn(u32, u32, u64, u32) -> u32,
>(
    idx: GeoIndex,
    p: Position,
    along: A,
    count_steps: N,
    ids: Seq<u32>,
    nearest: Option<Option<Nearest>>,
    r: Result<Option<InterpolatedModel>, IndexError>,
) -> bool {
    match nearest {
        None => r == Err::<Option<InterpolatedModel>, _>(IndexError::OutOfRange),
        Some(None) => r == Ok::<_, IndexError>(None::<InterpolatedModel>),
        Some(Some(n)) => exists|m: Result<InterpolatedModel, IndexError>| #[trigger]
            number_told(
                idx,
                p,
                along,
                count_steps,
                interps_of(idx.interp_ways@)[ids[n.entry as int] as int],
                n,
                m,
            ) && r == some_number(m),
    }
}

/// `r` is the house number on the nearest line of those listed round the
/// point. An error where an entry points outside its table, or the number does
/// not fit.
pub open spec fn nearest_interpolation<
    L: Fn(Position, &Vec<NodeCoord>) -> bool,
    S: Fn(Position, NodeCoord, NodeCoord) -> u64,
    A: Fn(Position, &Vec<NodeCoord>, usize) -> u64,
    N: Fn(u32, u32, u64, u32) -> u32,
>(
    idx: GeoIndex,
    p: Position,
    has_length: L,
    to_segment: S,
    along: A,
    count_steps: N,
    r: Result<Option<InterpolatedModel>, IndexError>,
) -> bool {
    let ids = idx.interp_entries_in(cells_around(p.leaf, STREET_CELL_LEVEL));
    exists|visits: Seq<Visit>| #[trigger]
        interps_visited(idx, p, has_length, to_segment, ids, visits) && number_at(
            idx,
            p,
            along,
            count_steps,
            ids,
            nearest_of(visits),
            r,
        )
}

/// The outcome of a search for a house number.
pub open spec fn interpolated_result(r: Result<Option<Interpolated>, IndexError>) -> Result<
    Option<InterpolatedModel>,
    IndexError,
> {
    match r {
        Ok(Some(m)) => Ok(Some(m@)),
        Ok(None) => Ok(None),
        Err(e) => Err(e),
    }
}

fn visit_interp<
    L: Fn(Position, &Vec<NodeCoord>) -> bool,
    S: Fn(Position, NodeCoord, NodeCoord) -> u64,
>(idx: &GeoIndex, p: Position, has_length: &L, to_segment: &S, id: u32) -> (r: Visit)
    requires
        forall|q: Position, v: Vec<NodeCoord>| #[trigger] call_requires(*has_length, (q, &v)),
        forall|q: Position, a: NodeCoord, b: NodeCoord| call_requires(*to_segment, (q, a, b)),
    ensures
        interp_visited(*idx, p, *has_length, *to_segment, id, r),
{
    let iw = match idx.interp_way(id as usize) {
        Some(iw) => iw,
        None => return Visit::Broken,
    };
    if iw.start_number == 0 || iw.end_number == 0 {
        return Visit::Skipped;
    }
    if iw.node_count == 0 {
        return Visit::Broken;
    }
    match read_stretch(idx.interp_nodes, iw.node_offset as usize, iw.node_count as usize) {
        Some(line) => {
            let has: bool = has_length(p, &line);
            assert(length_told(p, *has_length, line@, has));
            if has {
                Visit::Measured(measure_segments(p, to_segment, &line))
            } else {
                Visit::Skipped
            }
        },
        None => Visit::Broken,
    }
}

fn visit_interps<
    L: Fn(Position, &Vec<NodeCoord>) -> bool,
    S: Fn(Position, NodeCoord, NodeCoord) -> u64,
>(idx: &GeoIndex, p: Position, has_length: &L, to_segment: &S, ids: &Vec<u32>) -> (r: Vec<Visit>)
    requires
        forall|q: Position, v: Vec<NodeCoord>| #[trigger] call_requires(*has_length, (q, &v)),
        forall|q: Position, a: NodeCoord, b: NodeCoord| call_requires(*to_segment, (q, a, b)),
    ensures
        interps_visited(*idx, p, *has_length, *to_segment, ids@, r@),
{
    let mut visits: Vec<Visit> = Vec::new();
    let mut k: usize = 0;
    while k < ids.len()
        invariant
            forall|q: Position, v: Vec<NodeCoord>| #[trigger] call_requires(*has_length, (q, &v)),
            forall|q: Position, a: NodeCoord, b: NodeCoord| call_requires(*to_segment, (q, a, b)),
            k <= ids@.len(),
            visits@.len() == k,
            forall|i: int|
                0 <= i < k ==> interp_visited(
                    *idx,
                    p,
                    *has_length,
                    *to_segment,
                    ids@[i],
                    #[trigger] visits@[i],
                ),
        decreases ids@.len() - k,
    {
        visits.push(visit_interp(idx, p, has_length, to_segment, ids[k]));
        k = k + 1;
    }
    visits
}

/// The house number that is `count` steps along a line.
pub fn interpolate<'a>(idx: &GeoIndex<'a>, iw: InterpWay, dist: u64, count: u32) -> (r: Result<
    Interpolated<'a>,
    IndexError,
>)
    ensures
        match r {
            Ok(m) => interpolated(*idx, iw, dist, count) == Ok::<_, IndexError>(m@),
            Err(e) => interpolated(*idx, iw, dist, count) == Err::<InterpolatedModel, _>(e),
        },
{
    let number: u32 = if iw.interpolation == 1 || iw.interpolation == 2 {
        if count > (u32::MAX - iw.start_number) / 2 {
            return Err(IndexError::Overflow);
        }
        iw.start_number + 2 * count
    } else {
        count
    };
    match idx.string_at(iw.street_id) {
        Some(street) => Ok(Interpolated { dist, street, number }),
        None => Err(IndexError::OutOfRange),
    }
}

pub(crate) fn find_interpolation<
    'a,
    L: Fn(Position, &Vec<NodeCoord>) -> bool,
    S: Fn(Position, NodeCoord, NodeCoord) -> u64,
    A: Fn(Position, &Vec<NodeCoord>, usize) -> u64,
    N: Fn(u32, u32, u64, u32) -> u32,
>(
    idx: &GeoIndex<'a>,
    p: Position,
    has_length: &L,
    to_segment: &S,
    along: &A,
    count_steps: &N,
    ids: &Vec<u32>,
) -> (r: Result<Option<Interpolated<'a>>, IndexError>)
    requires
        forall|q: Position, v: Vec<NodeCoord>| #[trigger] call_requires(*has_length, (q, &v)),
        forall|q: Position, a: NodeCoord, b: NodeCoord| call_requires(*to_segment, (q, a, b)),
        forall|q: Position, v: Vec<NodeCoord>, i: usize| #[trigger]
            call_requires(*along, (q, &v, i)),
        forall|a: u32, b: u32, t: u64, step: u32| call_requires(*count_steps, (a, b, t, step)),
        ids@ == idx.interp_entries_in(cells_around(p.leaf, STREET_CELL_LEVEL)),
    ensures
        nearest_interpolation(
            *idx,
            p,
            *has_length,
            *to_segment,
            *along,
            *count_steps,
            interpolated_result(r),
        ),
{
    let visits = visit_interps(idx, p, has_length, to_segment, ids);
    let best = match find_nearest(&visits) {
        Ok(best) => best,
        Err(e) => return Err(e),
    };
    let n = match best {
        Some(n) => n,
        None => return Ok(None),
    };
    assert(interp_visited(
        *idx,
        p,
        *has_length,
        *to_segment,
        ids@[n.entry as int],
        visits@[n.entry as int],
    ));
    let iw = match idx.interp_way(ids[n.entry] as usize) {
        Some(iw) => iw,
        None => return Err(IndexError::OutOfRange),
    };
    let line = match read_stretch(
        idx.interp_nodes,
        iw.node_offset as usize,
        iw.node_count as usize,
    ) {
        Some(line) => line,
        None => return Err(IndexError::OutOfRange),
    };
    let t: u64 = along(p, &line, n.part);
    assert(place_told(p, *along, line@, n.part, t));
    let step: u32 = if iw.interpolation == 1 || iw.interpolation == 2 {
        2
    } else {
        1
    };
    let count: u32 = count_steps(iw.start_number, iw.end_number, t, step);
    match interpolate(idx, iw, n.dist, count) {
        Ok(m) => {
            assert(number_told(*idx, p, *along, *count_steps, iw, n, Ok(m@)));
            Ok(Some(m))
        },
        Err(e) => {
            assert(number_told(*idx, p, *along, *count_steps, iw, n, Err(e)));
            Err(e)
        },
    }
}

// --- One outcome ---

/// Whether two visits came to the same.
pub open spec fn same_visit(a: Visit, b: Visit) -> bool {
    match (a, b) {
        (Visit::Skipped, Visit::Skipped) => true,
        (Visit::Broken, Visit::Broken) => true,
        (Visit::Measured(x), Visit::Measured(y)) => x@ == y@,
        _ => false,
    }
}

proof fn lemma_nearest_same(x: Seq<Visit>, y: Seq<Visit>, k: int)
    requires
        x.len() == y.len(),
        0 <= k <= x.len(),
        forall|i: int| 0 <= i < x.len() ==> same_visit(#[trigger] x[i], y[i]),
    ensures
        nearest_after(x, k) == nearest_after(y, k),
    decreases k,
{
    if k > 0 {
        lemma_nearest_same(x, y, k - 1);
        assert(same_visit(x[k - 1], y[k - 1]));
    }
}

/// The nearest depends on nothing but what the visits came to.
proof fn lemma_nearest_of_same(x: Seq<Visit>, y: Seq<Visit>)
    requires
        x.len() == y.len(),
        forall|i: int| 0 <= i < x.len() ==> same_visit(#[trigger] x[i], y[i]),
    ensures
        nearest_of(x) == nearest_of(y),
{
    lemma_nearest_same(x, y, x.len() as int);
    if is_whole(x) {
        assert forall|k: int| 0 <= k < y.len() implies !(#[trigger] y[k] is Broken) by {
            assert(same_visit(x[k], y[k]));
        }
    } else {
        let k = choose|k: int| 0 <= k < x.len() && #[trigger] x[k] is Broken;
        assert(same_visit(x[k], y[k]));
        assert(y[k] is Broken);
    }
}

/// Whether a function of two points answers always the same way.
pub open spec fn answers_points_once<P: Fn(Position, NodeCoord) -> u64>(f: P) -> bool {
    forall|p: Position, a: NodeCoord, x: u64, y: u64| #[trigger]
        call_ensures(f, (p, a), x) && #[trigger] call_ensures(f, (p, a), y) ==> x == y
}

/// Whether a function of a point and a line answers always the same way.
pub open spec fn answers_lines_once<L: Fn(Position, &Vec<NodeCoord>) -> bool>(f: L) -> bool {
    forall|p: Position, v: Vec<NodeCoord>, w: Vec<NodeCoord>, x: bool, y: bool|
        v@ == w@ && #[trigger] call_ensures(f, (p, &v), x) && #[trigger] call_ensures(f, (p, &w), y)
            ==> x == y
}

/// Whether a function of a point and a segment of a line answers always the
/// same way.
pub open spec fn answers_along_once<A: Fn(Position, &Vec<NodeCoord>, usize) -> u64>(f: A) -> bool {
    forall|p: Position, v: Vec<NodeCoord>, w: Vec<NodeCoord>, i: usize, x: u64, y: u64|
        v@ == w@ && #[trigger] call_ensures(f, (p, &v, i), x) && #[trigger] call_ensures(
            f,
            (p, &w, i),
            y,
        ) ==> x == y
}

/// Whether a function that counts house numbers answers always the same way.
pub open spec fn answers_counts_once<N: Fn(u32, u32, u64, u32) -> u32>(f: N) -> bool {
    forall|a: u32, b: u32, t: u64, step: u32, x: u32, y: u32| #[trigger]
        call_ensures(f, (a, b, t, step), x) && #[trigger] call_ensures(f, (a, b, t, step), y) ==> x
            == y
}

/// There is one nearest address, as long as `to_point` answers always the same
/// way.
pub proof fn law_nearest_address_is_determined<P: Fn(Position, NodeCoord) -> u64>(
    idx: GeoIndex,
    p: Position,
    to_point: P,
    r: Option<Option<(u64, AddrPoint)>>,
    s: Option<Option<(u64, AddrPoint)>>,
)
    requires
        answers_points_once(to_point),
        nearest_address(idx, p, to_point, r),
        nearest_address(idx, p, to_point, s),
    ensures
        r == s,
{
    let ids = idx.addr_entries_in(cells_around(p.leaf, STREET_CELL_LEVEL));
    let points = points_of(idx.addr_points@);
    let x = choose|x: Seq<Visit>| #[trigger]
        addrs_visited(idx, p, to_point, ids, x) && r == match nearest_of(x) {
            None => None,
            Some(None) => Some(None),
            Some(Some(n)) => Some(Some((n.dist, points[ids[n.entry as int] as int]))),
        };
    let y = choose|y: Seq<Visit>| #[trigger]
        addrs_visited(idx, p, to_point, ids, y) && s == match nearest_of(y) {
            None => None,
            Some(None) => Some(None),
            Some(Some(n)) => Some(Some((n.dist, points[ids[n.entry as int] as int]))),
        };
    assert forall|i: int| 0 <= i < x.len() implies same_visit(#[trigger] x[i], y[i]) by {
        assert(addr_visited(idx, p, to_point, ids[i], x[i]));
        assert(addr_visited(idx, p, to_point, ids[i], y[i]));
        if ids[i] < points.len() {
            assert(x[i]->Measured_0@ =~= y[i]->Measured_0@);
        }
    }
    lemma_nearest_of_same(x, y);
}

proof fn lemma_segments_once<S: Fn(Position, NodeCoord, NodeCoord) -> u64>(
    p: Position,
    to_segment: S,
    line: Seq<NodeCoord>,
    x: Seq<u64>,
    y: Seq<u64>,
)
    requires
        answers_edges_once(to_segment),
        segments_measured(p, to_segment, line, x),
        segments_measured(p, to_segment, line, y),
    ensures
        x == y,
{
    assert forall|i: int| 0 <= i < x.len() implies x[i] == y[i] by {
        assert(call_ensures(to_segment, (p, line[i], line[i + 1]), x[i]));
        assert(call_ensures(to_segment, (p, line[i], line[i + 1]), y[i]));
    }
    assert(x =~= y);
}

/// There is one nearest street, as long as `to_segment` answers always the same
/// way.
pub proof fn law_nearest_street_is_determined<S: Fn(Position, NodeCoord, NodeCoord) -> u64>(
    idx: GeoIndex,
    p: Position,
    to_segment: S,
    r: Option<Option<(u64, WayHeader)>>,
    s: Option<Option<(u64, WayHeader)>>,
)
    requires
        answers_edges_once(to_segment),
        nearest_street(idx, p, to_segment, r),
        nearest_street(idx, p, to_segment, s),
    ensures
        r == s,
{
    let ids = idx.street_entries_in(cells_around(p.leaf, STREET_CELL_LEVEL));
    let ways = ways_of(idx.street_ways@);
    let x = choose|x: Seq<Visit>| #[trigger]
        streets_visited(idx, p, to_segment, ids, x) && r == match nearest_of(x) {
            None => None,
            Some(None) => Some(None),
            Some(Some(n)) => Some(Some((n.dist, ways[ids[n.entry as int] as int]))),
        };
    let y = choose|y: Seq<Visit>| #[trigger]
        streets_visited(idx, p, to_segment, ids, y) && s == match nearest_of(y) {
            None => None,
            Some(None) => Some(None),
            Some(Some(n)) => Some(Some((n.dist, ways[ids[n.entry as int] as int]))),
        };
    assert forall|i: int| 0 <= i < x.len() implies same_visit(#[trigger] x[i], y[i]) by {
        assert(is_repeat(ids, i) ==> y[i] is Skipped);
        if !is_repeat(ids, i) {
            assert(street_visited(idx, p, to_segment, ids[i], x[i]));
            assert(street_visited(idx, p, to_segment, ids[i], y[i]));
            if let Some(line) = street_line(idx, ids[i]) {
                lemma_segments_once(
                    p,
                    to_segment,
                    line,
                    x[i]->Measured_0@,
                    y[i]->Measured_0@,
                );
            }
        }
    }
    lemma_nearest_of_same(x, y);
}

proof fn lemma_interp_visit_once<
    L: Fn(Position, &Vec<NodeCoord>) -> bool,
    S: Fn(Position, NodeCoord, NodeCoord) -> u64,
>(idx: GeoIndex, p: Position, has_length: L, to_segment: S, id: u32, x: Visit, y: Visit)
    requires
        answers_lines_once(has_length),
        answers_edges_once(to_segment),
        interp_visited(idx, p, has_length, to_segment, id, x),
        interp_visited(idx, p, has_length, to_segment, id, y),
    ensures
        same_visit(x, y),
{
    let interps = interps_of(idx.interp_ways@);
    let iw = interps[id as int];
    if id < interps.len() && iw.start_number != 0 && iw.end_number != 0 {
        if let Some(line) = interp_line(idx, iw) {
            let has_x = x is Measured;
            let has_y = y is Measured;
            assert(length_told(p, has_length, line, has_x));
            assert(length_told(p, has_length, line, has_y));
            let v = choose|v: Vec<NodeCoord>|
                v@ == line && #[trigger] call_ensures(has_length, (p, &v), has_x);
            let w = choose|w: Vec<NodeCoord>|
                w@ == line && #[trigger] call_ensures(has_length, (p, &w), has_y);
            assert(has_x == has_y);
            if has_x {
                lemma_segments_once(p, to_segment, line, x->Measured_0@, y->Measured_0@);
            }
        }
    }
}

proof fn lemma_number_once<
    A: Fn(Position, &Vec<NodeCoord>, usize) -> u64,
    N: Fn(u32, u32, u64, u32) -> u32,
>(
    idx: GeoIndex,
    p: Position,
    along: A,
    count_steps: N,
    iw: InterpWay,
    n: Nearest,
    r: Result<InterpolatedModel, IndexError>,
    s: Result<InterpolatedModel, IndexError>,
)
    requires
        answers_along_once(along),
        answers_counts_once(count_steps),
        number_told(idx, p, along, count_steps, iw, n, r),
        number_told(idx, p, along, count_steps, iw, n, s),
    ensures
        r == s,
{
    let line = interp_line(idx, iw)->0;
    let (t, a) = choose|t: u64, a: u32|
        place_told(p, along, line, n.part, t) && #[trigger] call_ensures(
            count_steps,
            (iw.start_number, iw.end_number, t, number_step(iw)),
            a,
        ) && r == interpolated(idx, iw, n.dist, a);
    let (u, b) = choose|u: u64, b: u32|
        place_told(p, along, line, n.part, u) && #[trigger] call_ensures(
            count_steps,
            (iw.start_number, iw.end_number, u, number_step(iw)),
            b,
        ) && s == interpolated(idx, iw, n.dist, b);
    let v = choose|v: Vec<NodeCoord>|
        v@ == line && #[trigger] call_ensures(along, (p, &v, n.part), t);
    let w = choose|w: Vec<NodeCoord>|
        w@ == line && #[trigger] call_ensures(along, (p, &w, n.part), u);
    assert(t == u);
    assert(a == b);
}

/// There is one house number along a line, as long as the functions passed in
/// answer always the same way.
pub proof fn law_interpolation_is_determined<
    L: Fn(Position, &Vec<NodeCoord>) -> bool,
    S: Fn(Position, NodeCoord, NodeCoord) -> u64,
    A: Fn(Position, &Vec<NodeCoord>, usize) -> u64,
    N: Fn(u32, u32, u64, u32) -> u32,
>(
    idx: GeoIndex,
    p: Position,
    has_length: L,
    to_segment: S,
    along: A,
    count_steps: N,
    r: Result<Option<InterpolatedModel>, IndexError>,
    s: Result<Option<InterpolatedModel>, IndexError>,
)
    requires
        answers_lines_once(has_length),
        answers_edges_once(to_segment),
        answers_along_once(along),
        answers_counts_once(count_steps),
        nearest_interpolation(idx, p, has_length, to_segment, along, count_steps, r),
        nearest_interpolation(idx, p, has_length, to_segment, along, count_steps, s),
    ensures
        r == s,
{
    let ids = idx.interp_entries_in(cells_around(p.leaf, STREET_CELL_LEVEL));
    let interps = interps_of(idx.interp_ways@);
    let x = choose|x: Seq<Visit>| #[trigger]
        interps_visited(idx, p, has_length, to_segment, ids, x) && number_at(
            idx,
            p,
            along,
            count_steps,
            ids,
            nearest_of(x),
            r,
        );
    let y = choose|y: Seq<Visit>| #[trigger]
        interps_visited(idx, p, has_length, to_segment, ids, y) && number_at(
            idx,
            p,
            along,
            count_steps,
            ids,
            nearest_of(y),
            s,
        );
    assert forall|i: int| 0 <= i < x.len() implies same_visit(#[trigger] x[i], y[i]) by {
        lemma_interp_visit_once(idx, p, has_length, to_segment, ids[i], x[i], y[i]);
    }
    lemma_nearest_of_same(x, y);
    if let Some(Some(n)) = nearest_of(x) {
        let iw = interps[ids[n.entry as int] as int];
        let a = choose|a: Result<InterpolatedModel, IndexError>| #[trigger]
            number_told(idx, p, along, count_steps, iw, n, a) && r == some_number(a);
        let b = choose|b: Result<InterpolatedModel, IndexError>| #[trigger]
            number_told(idx, p, along, count_steps, iw, n, b) && s == some_number(b);
        lemma_number_once(idx, p, along, count_steps, iw, n, a, b);
    }
}

// --- Streets that are listed again ---

/// The streets of a list, in the order in which each is listed first.
pub open spec fn firsts(ids: Seq<u32>) -> Seq<u32>
    decreases ids.len(),
{
    if ids.len() == 0 {
        ids
    } else if ids.drop_last().contains(ids.last()) {
        firsts(ids.drop_last())
    } else {
        firsts(ids.drop_last()).push(ids.last())
    }
}

proof fn lemma_firsts_hold_the_same(ids: Seq<u32>, id: u32)
    ensures
        firsts(ids).contains(id) <==> ids.contains(id),
    decreases ids.len(),
{
    if ids.len() > 0 {
        let init = ids.drop_last();
        lemma_firsts_hold_the_same(init, id);
        assert(ids =~= init.push(ids.last()));
        assert(init.push(ids.last()).contains(id) <==> init.contains(id) || ids.last() == id) by {
            lemma_push_contains(init, ids.last(), id);
        }
        if !init.contains(ids.last()) {
            lemma_push_contains(firsts(init), ids.last(), id);
        }
    }
}

proof fn lemma_push_contains(s: Seq<u32>, last: u32, id: u32)
    ensures
        s.push(last).contains(id) <==> s.contains(id) || last == id,
{
    if s.contains(id) {
        let i = choose|i: int| 0 <= i < s.len() && s[i] == id;
        assert(s.push(last)[i] == id);
    }
    if last == id {
        assert(s.push(last)[s.len() as int] == id);
    }
    if s.push(last).contains(id) && last != id {
        let i = choose|i: int| 0 <= i < s.len() + 1 && s.push(last)[i] == id;
        assert(s[i] == id);
    }
}

/// Listing a street again, later than it is listed already, leaves the order in
/// which the streets are listed first.
pub proof fn law_listing_again_keeps_the_firsts(ids: Seq<u32>, at: int, id: u32)
    requires
        0 <= at <= ids.len(),
        ids.take(at).contains(id),
    ensures
        firsts(ids.insert(at, id)) == firsts(ids),
    decreases ids.len() - at,
{
    let more = ids.insert(at, id);
    if at == ids.len() {
        assert(ids.take(at) =~= ids);
        assert(more.drop_last() =~= ids);
    } else {
        let init = ids.drop_last();
        assert(init.take(at) =~= ids.take(at));
        law_listing_again_keeps_the_firsts(init, at, id);
        assert(more.drop_last() =~= init.insert(at, id));
        assert(more.last() == ids.last());
        let k = choose|k: int| 0 <= k < at && ids.take(at)[k] == id;
        assert(init[k] == id);
        if init.contains(ids.last()) {
            let j = choose|j: int| 0 <= j < init.len() && init[j] == ids.last();
            assert(init.insert(at, id)[if j < at {
                j
            } else {
                j + 1
            }] == ids.last());
        }
        if init.insert(at, id).contains(ids.last()) {
            let j = choose|j: int|
                0 <= j < init.len() + 1 && init.insert(at, id)[j] == ids.last();
            assert(init[if j < at {
                j
            } else if j == at {
                k
            } else {
                j - 1
            }] == ids.last());
        }
    }
}

/// How near a street has to be to count beside the nearest so far.
spec fn street_bound(best: Option<(u64, u32)>) -> u64 {
    match best {
        Some((dist, _)) => dist,
        None => FARTHEST,
    }
}

/// The nearest of the streets, given how near each is; of equally near ones the
/// first.
spec fn first_nearest(ids: Seq<u32>, near: spec_fn(u32) -> Option<u64>) -> Option<(u64, u32)>
    decreases ids.len(),
{
    if ids.len() == 0 {
        None
    } else {
        let before = first_nearest(ids.drop_last(), near);
        match near(ids.last()) {
            Some(dist) => if double_less(dist, street_bound(before)) {
                Some((dist, ids.last()))
            } else {
                before
            },
            None => before,
        }
    }
}

proof fn lemma_none_is_nearer(ids: Seq<u32>, near: spec_fn(u32) -> Option<u64>, id: u32)
    requires
        ids.contains(id),
        near(id) is Some,
    ensures
        !double_less(near(id)->0, street_bound(first_nearest(ids, near))),
    decreases ids.len(),
{
    let init = ids.drop_last();
    if ids.last() != id {
        let i = choose|i: int| 0 <= i < ids.len() && ids[i] == id;
        assert(init[i] == id);
        lemma_none_is_nearer(init, near, id);
    }
}

proof fn lemma_firsts_are_enough(ids: Seq<u32>, near: spec_fn(u32) -> Option<u64>)
    ensures
        first_nearest(firsts(ids), near) == first_nearest(ids, near),
    decreases ids.len(),
{
    if ids.len() > 0 {
        let init = ids.drop_last();
        lemma_firsts_are_enough(init, near);
        if init.contains(ids.last()) {
            if near(ids.last()) is Some {
                lemma_none_is_nearer(init, near, ids.last());
            }
        } else {
            assert(firsts(ids).drop_last() =~= firsts(init));
        }
    }
}

/// How near a street is, as `to_segment` measures.
spec fn street_nearness<S: Fn(Position, NodeCoord, NodeCoord) -> u64>(
    idx: GeoIndex,
    p: Position,
    to_segment: S,
    id: u32,
) -> Option<u64> {
    match street_line(idx, id) {
        None => None,
        Some(line) => {
            let dists = choose|dists: Seq<u64>| segments_measured(p, to_segment, line, dists);
            match least(dists, dists.len() as int) {
                Some((dist, _)) => Some(dist),
                None => None,
            }
        },
    }
}

/// How near each street is, as `to_segment` measures.
spec fn all_nearness<S: Fn(Position, NodeCoord, NodeCoord) -> u64>(
    idx: GeoIndex,
    p: Position,
    to_segment: S,
) -> spec_fn(u32) -> Option<u64> {
    |id: u32| street_nearness(idx, p, to_segment, id)
}

proof fn lemma_nearness_of_visit<S: Fn(Position, NodeCoord, NodeCoord) -> u64>(
    idx: GeoIndex,
    p: Position,
    to_segment: S,
    id: u32,
    v: Visit,
)
    requires
        answers_edges_once(to_segment),
        street_visited(idx, p, to_segment, id, v),
        v is Measured,
    ensures
        street_nearness(idx, p, to_segment, id) == match least(
            v->Measured_0@,
            v->Measured_0@.len() as int,
        ) {
            Some((dist, _)) => Some(dist),
            None => None,
        },
{
    let line = street_line(idx, id)->0;
    let dists = choose|dists: Seq<u64>| segments_measured(p, to_segment, line, dists);
    lemma_segments_once(p, to_segment, line, dists, v->Measured_0@);
}

/// The nearest of the first `k` entries is the nearest of the streets that they
/// list.
proof fn lemma_nearest_by_street<S: Fn(Position, NodeCoord, NodeCoord) -> u64>(
    idx: GeoIndex,
    p: Position,
    to_segment: S,
    ids: Seq<u32>,
    visits: Seq<Visit>,
    k: int,
)
    requires
        0 <= k <= ids.len() <= usize::MAX,
        !ids.contains(u32::MAX),
        answers_edges_once(to_segment),
        streets_visited(idx, p, to_segment, ids, visits),
        is_whole(visits),
    ensures
        first_nearest(ids.take(k), all_nearness(idx, p, to_segment)) == match nearest_after(
            visits,
            k,
        ) {
            Some(n) => Some((n.dist, ids[n.entry as int])),
            None => None,
        },
    decreases k,
{
    let near = all_nearness(idx, p, to_segment);
    if k > 0 {
        lemma_nearest_by_street(idx, p, to_segment, ids, visits, k - 1);
        let id = ids[k - 1];
        assert(ids.take(k).drop_last() =~= ids.take(k - 1));
        assert(ids.take(k).last() == id);
        assert(!(visits[k - 1] is Broken));
        if is_repeat(ids, k - 1) {
            assert(visits[k - 1] is Skipped);
            assert(ids.contains(id));
            lemma_repeat_was_visited(ids, k - 1);
            let j = choose|j: int| 0 <= j < k - 1 && #[trigger] ids[j] == id && !is_repeat(ids, j);
            assert(ids.take(k - 1)[j] == id);
            if near(id) is Some {
                lemma_none_is_nearer(ids.take(k - 1), near, id);
            }
        } else {
            assert(street_visited(idx, p, to_segment, id, visits[k - 1]));
            lemma_nearness_of_visit(idx, p, to_segment, id, visits[k - 1]);
        }
    }
}

/// All entries lead to a street where all streets are there.
proof fn lemma_whole_by_street<S: Fn(Position, NodeCoord, NodeCoord) -> u64>(
    idx: GeoIndex,
    p: Position,
    to_segment: S,
    ids: Seq<u32>,
    visits: Seq<Visit>,
)
    requires
        !ids.contains(u32::MAX),
        streets_visited(idx, p, to_segment, ids, visits),
    ensures
        is_whole(visits) <==> forall|id: u32| #[trigger]
            ids.contains(id) ==> street_line(idx, id) is Some,
{
    if is_whole(visits) {
        assert forall|id: u32| #[trigger] ids.contains(id) implies street_line(idx, id) is Some by {
            let i = choose|i: int| 0 <= i < ids.len() && ids[i] == id;
            let j = if is_repeat(ids, i) {
                lemma_repeat_was_visited(ids, i);
                choose|j: int| 0 <= j < i && #[trigger] ids[j] == ids[i] && !is_repeat(ids, j)
            } else {
                i
            };
            assert(street_visited(idx, p, to_segment, ids[j], visits[j]));
            assert(!(visits[j] is Broken));
        }
    } else {
        let i = choose|i: int| 0 <= i < visits.len() && #[trigger] visits[i] is Broken;
        assert(street_visited(idx, p, to_segment, ids[i], visits[i]));
        assert(ids.contains(ids[i]));
    }
}

/// Streets that are listed again do not change which one is nearest: two indexes
/// with the same streets, whose lists name the same ones first in the same order,
/// have the same nearest street, as long as `to_segment` answers always the same
/// way. The id that marks an empty slot is no street.
pub proof fn law_repeated_streets_change_nothing<S: Fn(Position, NodeCoord, NodeCoord) -> u64>(
    idx: GeoIndex,
    other: GeoIndex,
    p: Position,
    to_segment: S,
    r: Option<Option<(u64, WayHeader)>>,
    s: Option<Option<(u64, WayHeader)>>,
)
    requires
        answers_edges_once(to_segment),
        other.street_ways@ == idx.street_ways@,
        other.street_nodes@ == idx.street_nodes@,
        ({
            let cells = cells_around(p.leaf, STREET_CELL_LEVEL);
            let ids = idx.street_entries_in(cells);
            let more = other.street_entries_in(cells);
            &&& firsts(more) == firsts(ids)
            &&& !ids.contains(u32::MAX)
            &&& ids.len() <= usize::MAX
            &&& more.len() <= usize::MAX
        }),
        nearest_street(idx, p, to_segment, r),
        nearest_street(other, p, to_segment, s),
    ensures
        r == s,
{
    let cells = cells_around(p.leaf, STREET_CELL_LEVEL);
    let ids = idx.street_entries_in(cells);
    let more = other.street_entries_in(cells);
    let ways = ways_of(idx.street_ways@);
    let x = choose|x: Seq<Visit>| #[trigger]
        streets_visited(idx, p, to_segment, ids, x) && r == match nearest_of(x) {
            None => None,
            Some(None) => Some(None),
            Some(Some(n)) => Some(Some((n.dist, ways[ids[n.entry as int] as int]))),
        };
    let y = choose|y: Seq<Visit>| #[trigger]
        streets_visited(other, p, to_segment, more, y) && s == match nearest_of(y) {
            None => None,
            Some(None) => Some(None),
            Some(Some(n)) => Some(Some((n.dist, ways[more[n.entry as int] as int]))),
        };
    assert(streets_visited(idx, p, to_segment, more, y)) by {
        assert forall|k: int| 0 <= k < more.len() implies {
            if is_repeat(more, k) {
                #[trigger] y[k] is Skipped
            } else {
                street_visited(idx, p, to_segment, more[k], y[k])
            }
        } by {
            assert(street_line(other, more[k]) == street_line(idx, more[k]));
        }
    }
    assert forall|id: u32|
        #![trigger more.contains(id)]
        #![trigger ids.contains(id)]
        more.contains(id) <==> ids.contains(id) by {
        lemma_firsts_hold_the_same(ids, id);
        lemma_firsts_hold_the_same(more, id);
    }
    assert(!more.contains(u32::MAX));
    lemma_whole_by_street(idx, p, to_segment, ids, x);
    lemma_whole_by_street(idx, p, to_segment, more, y);
    if is_whole(x) {
        let near = all_nearness(idx, p, to_segment);
        lemma_nearest_by_street(idx, p, to_segment, ids, x, ids.len() as int);
        lemma_nearest_by_street(idx, p, to_segment, more, y, more.len() as int);
        lemma_firsts_are_enough(ids, near);
        lemma_firsts_are_enough(more, near);
        assert(ids.take(ids.len() as int) =~= ids);
        assert(more.take(more.len() as int) =~= more);
    }
}

/// The nearest address depends on nothing but the addresses.
pub(crate) proof fn lemma_address_by_tables<P: Fn(Position, NodeCoord) -> u64>(
    idx: GeoIndex,
    other: GeoIndex,
    p: Position,
    to_point: P,
    r: Option<Option<(u64, AddrPoint)>>,
)
    requires
        other.addr_points@ == idx.addr_points@,
        other.addr_entries_in(cells_around(p.leaf, STREET_CELL_LEVEL)) == idx.addr_entries_in(
            cells_around(p.leaf, STREET_CELL_LEVEL),
        ),
        nearest_address(other, p, to_point, r),
    ensures
        nearest_address(idx, p, to_point, r),
{
    let ids = idx.addr_entries_in(cells_around(p.leaf, STREET_CELL_LEVEL));
    let x = choose|x: Seq<Visit>| #[trigger]
        addrs_visited(other, p, to_point, ids, x) && r == match nearest_of(x) {
            None => None,
            Some(None) => Some(None),
            Some(Some(n)) => Some(
                Some((n.dist, points_of(other.addr_points@)[ids[n.entry as int] as int])),
            ),
        };
    assert(addrs_visited(idx, p, to_point, ids, x)) by {
        assert forall|k: int| 0 <= k < ids.len() implies addr_visited(
            idx,
            p,
            to_point,
            ids[k],
            #[trigger] x[k],
        ) by {
            assert(addr_visited(other, p, to_point, ids[k], x[k]));
        }
    }
}

/// The nearest house number depends on nothing but the lines and the texts.
pub(crate) proof fn lemma_interpolation_by_tables<
    L: Fn(Position, &Vec<NodeCoord>) -> bool,
    S: Fn(Position, NodeCoord, NodeCoord) -> u64,
    A: Fn(Position, &Vec<NodeCoord>, usize) -> u64,
    N: Fn(u32, u32, u64, u32) -> u32,
>(
    idx: GeoIndex,
    other: GeoIndex,
    p: Position,
    has_length: L,
    to_segment: S,
    along: A,
    count_steps: N,
    r: Result<Option<InterpolatedModel>, IndexError>,
)
    requires
        other.interp_ways@ == idx.interp_ways@,
        other.interp_nodes@ == idx.interp_nodes@,
        other.strings@ == idx.strings@,
        other.interp_entries_in(cells_around(p.leaf, STREET_CELL_LEVEL)) == idx.interp_entries_in(
            cells_around(p.leaf, STREET_CELL_LEVEL),
        ),
        nearest_interpolation(other, p, has_length, to_segment, along, count_steps, r),
    ensures
        nearest_interpolation(idx, p, has_length, to_segment, along, count_steps, r),
{
    let ids = idx.interp_entries_in(cells_around(p.leaf, STREET_CELL_LEVEL));
    let x = choose|x: Seq<Visit>| #[trigger]
        interps_visited(other, p, has_length, to_segment, ids, x) && number_at(
            other,
            p,
            along,
            count_steps,
            ids,
            nearest_of(x),
            r,
        );
    assert(interps_visited(idx, p, has_length, to_segment, ids, x)) by {
        assert forall|k: int| 0 <= k < ids.len() implies interp_visited(
            idx,
            p,
            has_length,
            to_segment,
            ids[k],
            #[trigger] x[k],
        ) by {
            assert(interp_visited(other, p, has_length, to_segment, ids[k], x[k]));
        }
    }
    if let Some(Some(n)) = nearest_of(x) {
        let iw = interps_of(idx.interp_ways@)[ids[n.entry as int] as int];
        let m = choose|m: Result<InterpolatedModel, IndexError>| #[trigger]
            number_told(other, p, along, count_steps, iw, n, m) && r == some_number(m);
        let (t, count) = choose|t: u64, count: u32|
            place_told(p, along, interp_line(other, iw)->0, n.part, t) && #[trigger] call_ensures(
                count_steps,
                (iw.start_number, iw.end_number, t, number_step(iw)),
                count,
            ) && m == interpolated(other, iw, n.dist, count);
        assert(m == interpolated(idx, iw, n.dist, count));
        assert(number_told(idx, p, along, count_steps, iw, n, m));
    }
    assert(number_at(idx, p, along, count_steps, ids, nearest_of(x), r));
}

/// Where numbers go by twos, a house number is on the side of the first one,
/// and not below it.
pub proof fn law_house_numbers_keep_their_side(iw: InterpWay, count: u32)
    requires
        number_step(iw) == 2,
        house_number(iw, count) is Some,
    ensures
        house_number(iw, count)->0 % 2 == iw.start_number % 2,
        house_number(iw, count)->0 >= iw.start_number,
{
}

/// A house number as it is told: of a line of the first or second kind, which
/// numbers one side of the street, it is twice the count from the first number on,
/// and the count was asked for with a step of two; of any other line it is the
/// count, and that was asked for with a step of one. The street is the line's.
pub proof fn law_sides_are_numbered_by_twos<
    A: Fn(Position, &Vec<NodeCoord>, usize) -> u64,
    N: Fn(u32, u32, u64, u32) -> u32,
>(
    idx: GeoIndex,
    p: Position,
    along: A,
    count_steps: N,
    iw: InterpWay,
    n: Nearest,
    r: Result<InterpolatedModel, IndexError>,
)
    requires
        iw.node_count > 0,
        iw.node_offset + iw.node_count <= nodes_of(idx.interp_nodes@).len(),
        number_told(idx, p, along, count_steps, iw, n, r),
    ensures
        exists|line: Vec<NodeCoord>, t: u64, step: u32, count: u32|
            line@ == nodes_of(idx.interp_nodes@).subrange(
                iw.node_offset as int,
                iw.node_offset + iw.node_count,
            ) && #[trigger] call_ensures(along, (p, &line, n.part), t) && #[trigger] call_ensures(
                count_steps,
                (iw.start_number, iw.end_number, t, step),
                count,
            ) && step == (if iw.interpolation == 1 || iw.interpolation == 2 {
                2u32
            } else {
                1u32
            }) && match r {
                Ok(m) => {
                    &&& m.dist == n.dist
                    &&& iw.street_id <= idx.strings@.len()
                    &&& m.street == idx.text(iw.street_id)
                    &&& iw.interpolation == 1 || iw.interpolation == 2 ==> m.number
                        == iw.start_number + 2 * count && m.number % 2 == iw.start_number % 2
                    &&& iw.interpolation != 1 && iw.interpolation != 2 ==> m.number == count
                },
                Err(IndexError::Overflow) => (iw.interpolation == 1 || iw.interpolation == 2)
                    && iw.start_number + 2 * count > u32::MAX,
                Err(IndexError::OutOfRange) => iw.street_id > idx.strings@.len(),
            },
{
    let (t, count) = choose|t: u64, count: u32|
        place_told(p, along, interp_line(idx, iw)->0, n.part, t) && #[trigger] call_ensures(
            count_steps,
            (iw.start_number, iw.end_number, t, number_step(iw)),
            count,
        ) && r == interpolated(idx, iw, n.dist, count);
    let line = choose|v: Vec<NodeCoord>|
        v@ == interp_line(idx, iw)->0 && #[trigger] call_ensures(along, (p, &v, n.part), t);
    assert(call_ensures(along, (p, &line, n.part), t));
    assert(call_ensures(
        count_steps,
        (iw.start_number, iw.end_number, t, number_step(iw)),
        count,
    ));
}

// --- What is listed round a point ---

/// Whether a cell is that of a point among the street cells, or touches it.
pub open spec fn is_close_cell(p: Position, cell: u64) -> bool {
    cell == ancestor(p.leaf, 17) || touching_cells(ancestor(p.leaf, 17), 17).contains(cell)
}

/// Whether an address is listed by a cell close to the point.
pub open spec fn lists_address(idx: GeoIndex, p: Position, id: u32) -> bool {
    exists|cell: u64| #[trigger]
        is_close_cell(p, cell) && entry_ids(
            idx.addr_entries@,
            geo_offsets(idx.geo_cells@, cell).addr,
        ).contains(id)
}

/// Whether a street is listed by a cell close to the point.
pub open spec fn lists_street(idx: GeoIndex, p: Position, id: u32) -> bool {
    exists|cell: u64| #[trigger]
        is_close_cell(p, cell) && entry_ids(
            idx.street_entries@,
            geo_offsets(idx.geo_cells@, cell).street,
        ).contains(id)
}

/// Whether a line of house numbers is listed by a cell close to the point.
pub open spec fn lists_line(idx: GeoIndex, p: Position, id: u32) -> bool {
    exists|cell: u64| #[trigger]
        is_close_cell(p, cell) && entry_ids(
            idx.interp_entries@,
            geo_offsets(idx.geo_cells@, cell).interp,
        ).contains(id)
}

proof fn lemma_listed(idx: GeoIndex, p: Position, id: u32)
    ensures
        ({
            let cells = cells_around(p.leaf, STREET_CELL_LEVEL);
            &&& lists_address(idx, p, id) == idx.addr_entries_in(cells).contains(id)
            &&& lists_street(idx, p, id) == idx.street_entries_in(cells).contains(id)
            &&& lists_line(idx, p, id) == idx.interp_entries_in(cells).contains(id)
        }),
{
    let cells = cells_around(p.leaf, STREET_CELL_LEVEL);
    let touching = touching_cells(ancestor(p.leaf, 17), 17);
    law_entries_are_those_of_the_cells(idx, cells, id);
    assert forall|c: u64| #[trigger] is_close_cell(p, c) == cells.contains(c) by {
        if c == ancestor(p.leaf, 17) {
            assert(cells[0] == c);
        } else if touching.contains(c) {
            let j = choose|j: int| 0 <= j < touching.len() && touching[j] == c;
            assert(cells[j + 1] == c);
        }
        if cells.contains(c) {
            let j = choose|j: int| 0 <= j < cells.len() && cells[j] == c;
            assert(j == 0 || touching[j - 1] == c);
        }
    }
    if idx.addr_entries_in(cells).contains(id) {
        let c = choose|c: u64| #[trigger]
            cells.contains(c) && entry_ids(
                idx.addr_entries@,
                geo_offsets(idx.geo_cells@, c).addr,
            ).contains(id);
        assert(is_close_cell(p, c));
    }
    if idx.street_entries_in(cells).contains(id) {
        let c = choose|c: u64| #[trigger]
            cells.contains(c) && entry_ids(
                idx.street_entries@,
                geo_offsets(idx.geo_cells@, c).street,
            ).contains(id);
        assert(is_close_cell(p, c));
    }
    if idx.interp_entries_in(cells).contains(id) {
        let c = choose|c: u64| #[trigger]
            cells.contains(c) && entry_ids(
                idx.interp_entries@,
                geo_offsets(idx.geo_cells@, c).interp,
            ).contains(id);
        assert(is_close_cell(p, c));
    }
}

/// The nearest address is one that is listed close to the point, at its distance,
/// and none that is listed is nearer; there is none only where none is listed at a
/// distance below the greatest finite number. The search fails if and only if an
/// entry points outside the table.
pub proof fn law_no_listed_address_is_nearer<P: Fn(Position, NodeCoord) -> u64>(
    idx: GeoIndex,
    p: Position,
    to_point: P,
    r: Option<Option<(u64, AddrPoint)>>,
)
    requires
        answers_points_once(to_point),
        nearest_address(idx, p, to_point, r),
        idx.addr_entries_in(cells_around(p.leaf, 17)).len() <= usize::MAX,
    ensures
        r is None <==> exists|id: u32| #[trigger]
            lists_address(idx, p, id) && id >= points_of(idx.addr_points@).len(),
        r is Some ==> {
            let best = match r->0 {
                Some((dist, _)) => dist,
                None => 0x7FEF_FFFF_FFFF_FFFFu64,
            };
            forall|id: u32, d: u64|
                lists_address(idx, p, id) && #[trigger] call_ensures(
                    to_point,
                    (p, points_of(idx.addr_points@)[id as int].as_node()),
                    d,
                ) ==> !double_less(d, best)
        },
        r is Some && r->0 is Some ==> {
            let (dist, point) = r->0->0;
            &&& double_less(dist, 0x7FEF_FFFF_FFFF_FFFF)
            &&& call_ensures(to_point, (p, NodeCoord { lat: point.lat, lng: point.lng }), dist)
            &&& exists|id: u32| #[trigger]
                lists_address(idx, p, id) && id < points_of(idx.addr_points@).len() && point
                    == points_of(idx.addr_points@)[id as int]
        },
{
    let ids = idx.addr_entries_in(cells_around(p.leaf, STREET_CELL_LEVEL));
    let points = points_of(idx.addr_points@);
    let x = choose|x: Seq<Visit>| #[trigger]
        addrs_visited(idx, p, to_point, ids, x) && r == match nearest_of(x) {
            None => None,
            Some(None) => Some(None),
            Some(Some(n)) => Some(Some((n.dist, points[ids[n.entry as int] as int]))),
        };
    law_nearest_is_nearest(x, x.len() as int);
    assert forall|id: u32| #[trigger] lists_address(idx, p, id) == ids.contains(id) by {
        lemma_listed(idx, p, id);
    }
    if r is None {
        let k = choose|k: int| 0 <= k < x.len() && #[trigger] x[k] is Broken;
        assert(ids.contains(ids[k]));
        assert(lists_address(idx, p, ids[k]));
    } else {
        assert forall|id: u32| #[trigger] lists_address(idx, p, id) implies id < points.len() by {
            let k = choose|k: int| 0 <= k < ids.len() && ids[k] == id;
            assert(!(x[k] is Broken));
        }
        let best = match r->0 {
            Some((dist, _)) => dist,
            None => 0x7FEF_FFFF_FFFF_FFFFu64,
        };
        assert forall|id: u32, d: u64|
            lists_address(idx, p, id) && #[trigger] call_ensures(
                to_point,
                (p, points[id as int].as_node()),
                d,
            ) implies !double_less(d, best) by {
            let k = choose|k: int| 0 <= k < ids.len() && ids[k] == id;
            assert(addr_visited(idx, p, to_point, ids[k], x[k]));
            assert(!double_less(
                x[k]->Measured_0@[0],
                bound(nearest_after(x, x.len() as int)),
            ));
        }
        if let Some(Some(n)) = nearest_of(x) {
            assert(ids.contains(ids[n.entry as int]));
            assert(addr_visited(idx, p, to_point, ids[n.entry as int], x[n.entry as int]));
            assert(lists_address(idx, p, ids[n.entry as int]));
        }
    }
}

/// Whether no segment of a street that is listed close to the point is nearer than
/// `best`.
pub open spec fn no_street_is_below<S: Fn(Position, NodeCoord, NodeCoord) -> u64>(
    idx: GeoIndex,
    p: Position,
    to_segment: S,
    best: u64,
) -> bool {
    let nodes = nodes_of(idx.street_nodes@);
    forall|id: u32, i: int, d: u64|
        #![trigger lists_street(idx, p, id), nodes[i], double_less(d, best)]
        lists_street(idx, p, id) && id != u32::MAX && {
            let way = ways_of(idx.street_ways@)[id as int];
            way.node_offset <= i < way.node_offset + way.node_count - 1 && call_ensures(
                to_segment,
                (p, nodes[i], nodes[i + 1]),
                d,
            )
        } ==> !double_less(d, best)
}

proof fn lemma_no_street_is_below<S: Fn(Position, NodeCoord, NodeCoord) -> u64>(
    idx: GeoIndex,
    p: Position,
    to_segment: S,
    visits: Seq<Visit>,
)
    requires
        answers_edges_once(to_segment),
        ({
            let ids = idx.street_entries_in(cells_around(p.leaf, STREET_CELL_LEVEL));
            ids.len() <= usize::MAX && streets_visited(idx, p, to_segment, ids, visits)
        }),
        is_whole(visits),
    ensures
        no_street_is_below(idx, p, to_segment, bound(nearest_after(visits, visits.len() as int))),
        forall|id: u32| #[trigger]
            lists_street(idx, p, id) && id != u32::MAX ==> street_line(idx, id) is Some,
{
    let ids = idx.street_entries_in(cells_around(p.leaf, STREET_CELL_LEVEL));
    let ways = ways_of(idx.street_ways@);
    let nodes = nodes_of(idx.street_nodes@);
    let best = bound(nearest_after(visits, visits.len() as int));
    law_nearest_is_nearest(visits, visits.len() as int);
    assert forall|id: u32| #[trigger]
        lists_street(idx, p, id) && id != u32::MAX implies street_line(idx, id) is Some by {
        let k = lemma_listed_street_visited(idx, p, to_segment, visits, id);
        assert(!(visits[k] is Broken));
    }
    assert forall|id: u32, i: int, d: u64|
        #![trigger lists_street(idx, p, id), nodes[i], double_less(d, best)]
        lists_street(idx, p, id) && id != u32::MAX && {
            let way = ways[id as int];
            way.node_offset <= i < way.node_offset + way.node_count - 1 && call_ensures(
                to_segment,
                (p, nodes[i], nodes[i + 1]),
                d,
            )
        } implies !double_less(d, best) by {
        let k = lemma_listed_street_visited(idx, p, to_segment, visits, id);
        assert(!(visits[k] is Broken));
        let line = street_line(idx, id)->0;
        let at = i - ways[id as int].node_offset;
        let dists = visits[k]->Measured_0@;
        assert(line[at] == nodes[i] && line[at + 1] == nodes[i + 1]);
        assert(call_ensures(to_segment, (p, line[at], line[at + 1]), dists[at]));
        assert(!double_less(visits[k]->Measured_0@[at], best));
    }
}

proof fn lemma_listed_street_visited<S: Fn(Position, NodeCoord, NodeCoord) -> u64>(
    idx: GeoIndex,
    p: Position,
    to_segment: S,
    visits: Seq<Visit>,
    id: u32,
) -> (k: int)
    requires
        streets_visited(
            idx,
            p,
            to_segment,
            idx.street_entries_in(cells_around(p.leaf, STREET_CELL_LEVEL)),
            visits,
        ),
        lists_street(idx, p, id),
        id != u32::MAX,
    ensures
        0 <= k < visits.len(),
        street_visited(idx, p, to_segment, id, visits[k]),
{
    let ids = idx.street_entries_in(cells_around(p.leaf, STREET_CELL_LEVEL));
    lemma_listed(idx, p, id);
    let k = choose|k: int| 0 <= k < ids.len() && ids[k] == id;
    if is_repeat(ids, k) {
        lemma_repeat_was_visited(ids, k);
        let j = choose|j: int| 0 <= j < k && #[trigger] ids[j] == ids[k] && !is_repeat(ids, j);
        assert(street_visited(idx, p, to_segment, id, visits[j]));
        j
    } else {
        assert(street_visited(idx, p, to_segment, id, visits[k]));
        k
    }
}

/// The nearest street is one that is listed close to the point, at the distance of
/// one of its segments, and no segment of one that is listed is nearer; there is
/// none only where none is listed with a segment at a distance below the greatest
/// finite number. The search fails if and only if an entry points outside its table
/// or to a street without points. The id that marks an empty slot is no street, and
/// need not be noticed.
pub proof fn law_no_listed_street_is_nearer<S: Fn(Position, NodeCoord, NodeCoord) -> u64>(
    idx: GeoIndex,
    p: Position,
    to_segment: S,
    r: Option<Option<(u64, WayHeader)>>,
)
    requires
        answers_edges_once(to_segment),
        nearest_street(idx, p, to_segment, r),
        idx.street_entries_in(cells_around(p.leaf, 17)).len() <= usize::MAX,
    ensures
        r is None ==> exists|id: u32| #[trigger]
            lists_street(idx, p, id) && (id >= ways_of(idx.street_ways@).len() || {
                let way = ways_of(idx.street_ways@)[id as int];
                way.node_count == 0 || way.node_offset + way.node_count > nodes_of(
                    idx.street_nodes@,
                ).len()
            }),
        r is Some ==> forall|id: u32| #[trigger]
            lists_street(idx, p, id) && id != u32::MAX ==> id < ways_of(idx.street_ways@).len() && {
                let way = ways_of(idx.street_ways@)[id as int];
                way.node_count > 0 && way.node_offset + way.node_count <= nodes_of(
                    idx.street_nodes@,
                ).len()
            },
        r == Some(None::<(u64, WayHeader)>) ==> no_street_is_below(
            idx,
            p,
            to_segment,
            0x7FEF_FFFF_FFFF_FFFF,
        ),
        r is Some && r->0 is Some ==> {
            let (dist, way) = r->0->0;
            &&& no_street_is_below(idx, p, to_segment, dist)
            &&& double_less(dist, 0x7FEF_FFFF_FFFF_FFFF)
            &&& exists|i: int|
                way.node_offset <= i < way.node_offset + way.node_count - 1 && call_ensures(
                    to_segment,
                    (
                        p,
                        #[trigger] nodes_of(idx.street_nodes@)[i],
                        nodes_of(idx.street_nodes@)[i + 1],
                    ),
                    dist,
                )
            &&& exists|id: u32| #[trigger]
                lists_street(idx, p, id) && id < ways_of(idx.street_ways@).len() && way == ways_of(
                    idx.street_ways@,
                )[id as int]
        },
{
    let ids = idx.street_entries_in(cells_around(p.leaf, STREET_CELL_LEVEL));
    let ways = ways_of(idx.street_ways@);
    let nodes = nodes_of(idx.street_nodes@);
    let x = choose|x: Seq<Visit>| #[trigger]
        streets_visited(idx, p, to_segment, ids, x) && r == match nearest_of(x) {
            None => None,
            Some(None) => Some(None),
            Some(Some(n)) => Some(Some((n.dist, ways[ids[n.entry as int] as int]))),
        };
    if is_whole(x) {
        lemma_no_street_is_below(idx, p, to_segment, x);
        law_nearest_is_nearest(x, x.len() as int);
        if let Some(n) = nearest_after(x, x.len() as int) {
            let id = ids[n.entry as int];
            assert(ids.contains(id));
            lemma_listed(idx, p, id);
            assert(x[n.entry as int] is Measured);
            assert(street_visited(idx, p, to_segment, id, x[n.entry as int]));
            let line = street_line(idx, id)->0;
            let i = ways[id as int].node_offset + n.part;
            assert(line[n.part as int] == nodes[i] && line[n.part + 1] == nodes[i + 1]);
            assert(call_ensures(to_segment, (p, nodes[i], nodes[i + 1]), n.dist));
        }
    } else {
        let k = choose|k: int| 0 <= k < x.len() && #[trigger] x[k] is Broken;
        assert(ids.contains(ids[k]));
        lemma_listed(idx, p, ids[k]);
    }
}

/// Whether a listed line of house numbers counts, and `line` holds its points: it
/// has a number at either end, and a length.
pub open spec fn counts_as_line<L: Fn(Position, &Vec<NodeCoord>) -> bool>(
    idx: GeoIndex,
    p: Position,
    has_length: L,
    id: u32,
    line: Vec<NodeCoord>,
) -> bool {
    let iw = interps_of(idx.interp_ways@)[id as int];
    let nodes = nodes_of(idx.interp_nodes@);
    &&& lists_line(idx, p, id)
    &&& id < interps_of(idx.interp_ways@).len()
    &&& iw.start_number != 0 && iw.end_number != 0
    &&& iw.node_count > 0
    &&& iw.node_offset + iw.node_count <= nodes.len()
    &&& line@ == nodes.subrange(iw.node_offset as int, iw.node_offset + iw.node_count)
    &&& call_ensures(has_length, (p, &line), true)
}

/// Whether no segment of a line that counts is nearer than `best`.
pub open spec fn no_line_is_below<
    L: Fn(Position, &Vec<NodeCoord>) -> bool,
    S: Fn(Position, NodeCoord, NodeCoord) -> u64,
>(idx: GeoIndex, p: Position, has_length: L, to_segment: S, best: u64) -> bool {
    forall|id: u32, line: Vec<NodeCoord>, i: int, d: u64|
        #![trigger counts_as_line(idx, p, has_length, id, line), line@[i], double_less(d, best)]
        counts_as_line(idx, p, has_length, id, line) && 0 <= i < line@.len() - 1 && call_ensures(
            to_segment,
            (p, line@[i], line@[i + 1]),
            d,
        ) ==> !double_less(d, best)
}

/// Whether `m` tells the house number at the place of segment `part` of a line.
pub open spec fn tells_number<
    S: Fn(Position, NodeCoord, NodeCoord) -> u64,
    A: Fn(Position, &Vec<NodeCoord>, usize) -> u64,
    N: Fn(u32, u32, u64, u32) -> u32,
>(
    idx: GeoIndex,
    p: Position,
    to_segment: S,
    along: A,
    count_steps: N,
    iw: InterpWay,
    line: Seq<NodeCoord>,
    part: usize,
    m: InterpolatedModel,
) -> bool {
    &&& part + 1 < line.len()
    &&& call_ensures(to_segment, (p, line[part as int], line[part + 1]), m.dist)
    &&& m.street == idx.text(iw.street_id)
    &&& exists|v: Vec<NodeCoord>, t: u64, step: u32, count: u32|
        v@ == line && #[trigger] call_ensures(along, (p, &v, part), t) && #[trigger] call_ensures(
            count_steps,
            (iw.start_number, iw.end_number, t, step),
            count,
        ) && (if iw.interpolation == 1 || iw.interpolation == 2 {
            step == 2 && m.number == iw.start_number + 2 * count && m.number % 2 == iw.start_number
                % 2
        } else {
            step == 1 && m.number == count
        })
}

proof fn lemma_line_visited<
    L: Fn(Position, &Vec<NodeCoord>) -> bool,
    S: Fn(Position, NodeCoord, NodeCoord) -> u64,
>(
    idx: GeoIndex,
    p: Position,
    has_length: L,
    to_segment: S,
    id: u32,
    line: Vec<NodeCoord>,
    v: Visit,
)
    requires
        answers_lines_once(has_length),
        counts_as_line(idx, p, has_length, id, line),
        interp_visited(idx, p, has_length, to_segment, id, v),
    ensures
        v is Measured,
        segments_measured(p, to_segment, line@, v->Measured_0@),
{
    if v is Skipped {
        let w = choose|w: Vec<NodeCoord>|
            w@ == line@ && #[trigger] call_ensures(has_length, (p, &w), false);
        assert(call_ensures(has_length, (p, &line), true));
        assert(call_ensures(has_length, (p, &w), false));
        assert(false);
    }
}

/// The house number that is found is on a line that is listed close to the point,
/// at one of its segments, and no segment of a line that counts is nearer; there is
/// none only where none that counts has a segment at a distance below the greatest
/// finite number. The search fails only where an entry points outside its table or
/// to a line without points, where the number does not fit, or where the street has
/// no text.
pub proof fn law_no_listed_line_is_nearer<
    L: Fn(Position, &Vec<NodeCoord>) -> bool,
    S: Fn(Position, NodeCoord, NodeCoord) -> u64,
    A: Fn(Position, &Vec<NodeCoord>, usize) -> u64,
    N: Fn(u32, u32, u64, u32) -> u32,
>(
    idx: GeoIndex,
    p: Position,
    has_length: L,
    to_segment: S,
    along: A,
    count_steps: N,
    r: Result<Option<InterpolatedModel>, IndexError>,
)
    requires
        answers_lines_once(has_length),
        answers_edges_once(to_segment),
        nearest_interpolation(idx, p, has_length, to_segment, along, count_steps, r),
        idx.interp_entries_in(cells_around(p.leaf, 17)).len() <= usize::MAX,
    ensures
        r is Ok ==> forall|id: u32| #[trigger]
            lists_line(idx, p, id) ==> id < interps_of(idx.interp_ways@).len() && {
                let iw = interps_of(idx.interp_ways@)[id as int];
                iw.start_number == 0 || iw.end_number == 0 || (iw.node_count > 0 && iw.node_offset
                    + iw.node_count <= nodes_of(idx.interp_nodes@).len())
            },
        r == Ok::<_, IndexError>(None::<InterpolatedModel>) ==> no_line_is_below(
            idx,
            p,
            has_length,
            to_segment,
            0x7FEF_FFFF_FFFF_FFFF,
        ),
        r is Ok && r->Ok_0 is Some ==> {
            let m = r->Ok_0->0;
            &&& no_line_is_below(idx, p, has_length, to_segment, m.dist)
            &&& double_less(m.dist, 0x7FEF_FFFF_FFFF_FFFF)
            &&& exists|id: u32, line: Vec<NodeCoord>, part: usize| #[trigger]
                counts_as_line(idx, p, has_length, id, line) && #[trigger] tells_number(
                    idx,
                    p,
                    to_segment,
                    along,
                    count_steps,
                    interps_of(idx.interp_ways@)[id as int],
                    line@,
                    part,
                    m,
                ) && interps_of(idx.interp_ways@)[id as int].street_id <= idx.strings@.len()
        },
        r is Err ==> exists|id: u32| #[trigger]
            lists_line(idx, p, id) && (id >= interps_of(idx.interp_ways@).len() || {
                let iw = interps_of(idx.interp_ways@)[id as int];
                iw.start_number != 0 && iw.end_number != 0 && (iw.node_count == 0 || iw.node_offset
                    + iw.node_count > nodes_of(idx.interp_nodes@).len() || iw.street_id
                    > idx.strings@.len() || iw.interpolation == 1 || iw.interpolation == 2)
            }),
{
    let ids = idx.interp_entries_in(cells_around(p.leaf, STREET_CELL_LEVEL));
    let interps = interps_of(idx.interp_ways@);
    let nodes = nodes_of(idx.interp_nodes@);
    let x = choose|x: Seq<Visit>| #[trigger]
        interps_visited(idx, p, has_length, to_segment, ids, x) && number_at(
            idx,
            p,
            along,
            count_steps,
            ids,
            nearest_of(x),
            r,
        );
    law_nearest_is_nearest(x, x.len() as int);
    assert forall|id: u32| #[trigger] lists_line(idx, p, id) == ids.contains(id) by {
        lemma_listed(idx, p, id);
    }
    match nearest_of(x) {
        None => {
            let k = choose|k: int| 0 <= k < x.len() && #[trigger] x[k] is Broken;
            assert(ids.contains(ids[k]));
            assert(lists_line(idx, p, ids[k]));
        },
        Some(best) => {
            assert forall|id: u32| #[trigger] lists_line(idx, p, id) implies id < interps.len() && {
                let iw = interps[id as int];
                iw.start_number == 0 || iw.end_number == 0 || interp_line(idx, iw) is Some
            } by {
                let k = choose|k: int| 0 <= k < ids.len() && ids[k] == id;
                assert(!(x[k] is Broken));
            }
            let limit = bound(best);
            assert forall|id: u32, line: Vec<NodeCoord>, i: int, d: u64|
                #![trigger counts_as_line(idx, p, has_length, id, line), line@[i], double_less(
                    d,
                    limit,
                )]
                counts_as_line(idx, p, has_length, id, line) && 0 <= i < line@.len() - 1
                    && call_ensures(
                    to_segment,
                    (p, line@[i], line@[i + 1]),
                    d,
                ) implies !double_less(d, limit) by {
                let k = choose|k: int| 0 <= k < ids.len() && ids[k] == id;
                assert(interp_visited(idx, p, has_length, to_segment, ids[k], x[k]));
                lemma_line_visited(idx, p, has_length, to_segment, id, line, x[k]);
                let dists = x[k]->Measured_0@;
                assert(call_ensures(to_segment, (p, line@[i], line@[i + 1]), dists[i]));
                assert(!double_less(x[k]->Measured_0@[i], limit));
            }
            if let Some(n) = best {
                let id = ids[n.entry as int];
                let iw = interps[id as int];
                assert(ids.contains(id));
                assert(lists_line(idx, p, id));
                let told = choose|m: Result<InterpolatedModel, IndexError>| #[trigger]
                    number_told(idx, p, along, count_steps, iw, n, m) && r == some_number(m);
                assert(interp_visited(idx, p, has_length, to_segment, id, x[n.entry as int]));
                law_sides_are_numbered_by_twos(idx, p, along, count_steps, iw, n, told);
                if let Ok(m) = told {
                    let line = choose|v: Vec<NodeCoord>|
                        v@ == interp_line(idx, iw)->0 && #[trigger] call_ensures(
                            has_length,
                            (p, &v),
                            true,
                        );
                    assert(counts_as_line(idx, p, has_length, id, line));
                    let dists = x[n.entry as int]->Measured_0@;
                    assert(call_ensures(
                        to_segment,
                        (p, line@[n.part as int], line@[n.part + 1]),
                        dists[n.part as int],
                    ));
                    assert(tells_number(
                        idx,
                        p,
                        to_segment,
                        along,
                        count_steps,
                        interps_of(idx.interp_ways@)[id as int],
                        line@,
                        n.part,
                        m,
                    ));
                }
            }
        },
    }
}

} // verus!
