//! Administrative boundaries: of the polygons that may hold a point, the
//! smallest at each level that does.
use crate::bytes::IndexError;
use crate::geometry::{
    answers_edges_once, cast_ray, casts_to, closed_ring, goes_by_side, is_within,
    law_closing_the_ring_does_not_matter, law_first_corner_does_not_matter,
    law_ray_casting_is_determined, law_ray_casting_on_rectangles, nodes_of, read_stretch,
    rectangle, stretch, turned_by, Axis, NodeCoord, Position,
};
use crate::ieee::{is_single_at_least, single_at_least, single_is_nan, single_less, single_rank};
use vstd::prelude::*;

verus! {

/// The number of administrative levels.
pub const LEVELS: usize = 12;

/// A boundary polygon.
#[derive(Clone, Copy, Debug, PartialEq, Eq, Structural)]
pub struct Boundary {
    pub vertex_offset: u32,
    pub vertex_count: u16,
    pub name_id: u32,
    pub admin_level: u8,
    /// The single-precision pattern of the area.
    pub area: u32,
}

/// An entry of a cell: a polygon that reaches into it, or covers it wholly.
#[derive(Clone, Copy, Debug, PartialEq, Eq, Structural)]
pub struct Claim {
    /// The polygon is taken to hold the point without a test, because the cell
    /// lies inside it.
    pub interior: bool,
    /// The polygon, or nothing where the entry points outside the table.
    pub boundary: Option<Boundary>,
}

/// Set in an entry of a cell that lies wholly inside the polygon.
pub const INTERIOR_FLAG: u32 = 0x8000_0000;

/// The part of an entry that is the polygon's id.
pub const ID_MASK: u32 = 0x7FFF_FFFF;

/// What an entry of a cell claims: the polygon that its id names, where the
/// table has it. `trusted` tells whether the point needs no test where the cell
/// lies inside the polygon.
pub open spec fn claim_of(table: Seq<Boundary>, entry: u32, trusted: bool) -> Claim {
    let id = entry as int % 0x8000_0000;
    Claim {
        interior: trusted && entry >= 0x8000_0000,
        boundary: if id < table.len() {
            Some(table[id])
        } else {
            None
        },
    }
}

/// What the entries of some cells claim.
pub open spec fn claims_of(table: Seq<Boundary>, entries: Seq<u32>, trusted: bool) -> Seq<Claim> {
    Seq::new(entries.len(), |i: int| claim_of(table, entries[i], trusted))
}

/// What is claimed of a point, by the entries of its own cell and then by those
/// of the cells beside it. That a cell beside it lies inside a polygon says
/// nothing of the point, which is tested.
pub open spec fn claims_round(
    table: Seq<Boundary>,
    own: Seq<u32>,
    beside: Seq<u32>,
) -> Seq<Claim> {
    claims_of(table, own, true) + claims_of(table, beside, false)
}

/// Among these claims only an entry of the point's own cell spares the test of its
/// polygon.
pub proof fn law_only_the_own_cell_spares_the_test(
    table: Seq<Boundary>,
    own: Seq<u32>,
    beside: Seq<u32>,
    i: int,
)
    requires
        0 <= i < claims_round(table, own, beside).len(),
    ensures
        claims_round(table, own, beside)[i].interior <==> i < own.len() && own[i] >= INTERIOR_FLAG,
{
}

/// The polygon's id in an entry.
pub fn entry_id(entry: u32) -> (r: usize)
    ensures
        r == entry as int % 0x8000_0000,
{
    assert(entry & 0x7FFF_FFFF == entry % 0x8000_0000) by (bit_vector);
    (entry & ID_MASK) as usize
}

/// Whether an entry is that of a cell that lies wholly inside the polygon.
pub fn entry_is_interior(entry: u32) -> (r: bool)
    ensures
        r == (entry >= 0x8000_0000),
{
    assert((entry & 0x8000_0000 != 0) == (entry >= 0x8000_0000)) by (bit_vector);
    (entry & INTERIOR_FLAG) != 0
}

/// How a point is tested against a polygon.
#[derive(Clone, Copy, Debug, PartialEq, Eq, Structural)]
pub struct PointTest {
    pub axis: Axis,
    /// A polygon of fewer corners holds no point.
    pub least_corners: usize,
    /// A polygon without corners is an error, not one that holds no point.
    pub refuses_empty: bool,
}

/// `r` tells whether the polygon holds the point.
pub open spec fn test_gives<F: Fn(Position, NodeCoord, NodeCoord) -> bool>(
    crosses: F,
    test: PointTest,
    p: Position,
    corners: Seq<NodeCoord>,
    r: bool,
) -> bool {
    if corners.len() < test.least_corners {
        !r
    } else {
        casts_to(crosses, test.axis, p, corners, r)
    }
}

/// Tells whether the polygon holds the point.
pub fn point_in_polygon<F: Fn(Position, NodeCoord, NodeCoord) -> bool>(
    crosses: &F,
    test: PointTest,
    p: Position,
    corners: &Vec<NodeCoord>,
) -> (r: bool)
    requires
        forall|q: Position, a: NodeCoord, b: NodeCoord| call_requires(*crosses, (q, a, b)),
    ensures
        test_gives(*crosses, test, p, corners@, r),
{
    if corners.len() < test.least_corners {
        false
    } else {
        cast_ray(crosses, test.axis, p, corners)
    }
}

/// A polygon holds the same points whichever corner it starts at, and whether or
/// not its first corner stands once more at its end, as long as it has corners
/// enough to hold any.
pub proof fn law_rings_of_one_polygon_agree<F: Fn(Position, NodeCoord, NodeCoord) -> bool>(
    crosses: F,
    test: PointTest,
    p: Position,
    corners: Seq<NodeCoord>,
    k: int,
    r: bool,
)
    requires
        0 <= k <= corners.len(),
    ensures
        test_gives(crosses, test, p, turned_by(corners, k), r) <==> test_gives(
            crosses,
            test,
            p,
            corners,
            r,
        ),
        corners.len() > 0 && corners.len() >= test.least_corners ==> (test_gives(
            crosses,
            test,
            p,
            closed_ring(corners),
            r,
        ) <==> test_gives(crosses, test, p, corners, r)),
{
    law_first_corner_does_not_matter(crosses, test.axis, p, corners, k, r);
    if corners.len() > 0 {
        law_closing_the_ring_does_not_matter(crosses, test.axis, p, corners, r);
    }
}

/// A rectangle holds the points from its lower and left edges on and short of its
/// upper and right ones, where `crosses` goes by the side on the edges that it is
/// asked about, and four corners are enough.
pub proof fn law_rectangle_is_half_open<F: Fn(Position, NodeCoord, NodeCoord) -> bool>(
    crosses: F,
    test: PointTest,
    p: Position,
    low: NodeCoord,
    high: NodeCoord,
    r: bool,
)
    requires
        single_less(low.lat, high.lat),
        single_less(low.lng, high.lng),
        goes_by_side(crosses, test.axis, p, rectangle(low, high)),
        test.least_corners <= 4,
        test_gives(crosses, test, p, rectangle(low, high), r),
    ensures
        r == is_within(p, low, high),
{
    law_ray_casting_on_rectangles(crosses, test.axis, p, low, high, r);
}

// --- The choice ---

/// The corners of a boundary, where the table has them all and the test can
/// use them.
pub open spec fn corners_of(
    test: PointTest,
    nodes: Seq<NodeCoord>,
    b: Boundary,
) -> Option<Seq<NodeCoord>> {
    if test.refuses_empty && b.vertex_count == 0 {
        None
    } else {
        stretch(nodes, b.vertex_offset as int, b.vertex_count as int)
    }
}

/// Whether `b` may take its level: the level counts, and nothing that is
/// already there is as small.
pub open spec fn may_take(best: Seq<Option<Boundary>>, b: Boundary) -> bool {
    &&& b.admin_level < LEVELS
    &&& match best[b.admin_level as int] {
        Some(c) => !single_at_least(b.area, c.area),
        None => true,
    }
}

/// What is best at each level after one more claim, given whether its polygon
/// holds the point. Nothing once a claim has pointed outside its table.
pub open spec fn after_claim(
    test: PointTest,
    best: Option<Seq<Option<Boundary>>>,
    nodes: Seq<NodeCoord>,
    claim: Claim,
    inside: bool,
) -> Option<Seq<Option<Boundary>>> {
    match (best, claim.boundary) {
        (Some(best), Some(b)) => {
            if !may_take(best, b) {
                Some(best)
            } else if claim.interior {
                Some(best.update(b.admin_level as int, Some(b)))
            } else if corners_of(test, nodes, b) is None {
                None
            } else if inside {
                Some(best.update(b.admin_level as int, Some(b)))
            } else {
                Some(best)
            }
        },
        _ => None,
    }
}

/// No boundary at any level.
pub open spec fn no_boundaries() -> Seq<Option<Boundary>> {
    Seq::new(LEVELS as nat, |i: int| None)
}

/// What is best at each level after the first `k` claims.
pub open spec fn best_after(
    test: PointTest,
    nodes: Seq<NodeCoord>,
    claims: Seq<Claim>,
    inside: Seq<bool>,
    k: int,
) -> Option<Seq<Option<Boundary>>>
    decreases k,
{
    if k <= 0 {
        Some(no_boundaries())
    } else {
        after_claim(
            test,
            best_after(test, nodes, claims, inside, k - 1),
            nodes,
            claims[k - 1],
            inside[k - 1],
        )
    }
}

/// Whether the point has to be tested against the polygon of claim `k`.
pub open spec fn is_tested(
    test: PointTest,
    nodes: Seq<NodeCoord>,
    claims: Seq<Claim>,
    inside: Seq<bool>,
    k: int,
) -> bool {
    match (best_after(test, nodes, claims, inside, k), claims[k].boundary) {
        (Some(best), Some(b)) => may_take(best, b) && !claims[k].interior && corners_of(
            test,
            nodes,
            b,
        ) is Some,
        _ => false,
    }
}

/// `inside` holds the outcome of each test that is made.
pub open spec fn tests_answered<F: Fn(Position, NodeCoord, NodeCoord) -> bool>(
    crosses: F,
    test: PointTest,
    p: Position,
    nodes: Seq<NodeCoord>,
    claims: Seq<Claim>,
    inside: Seq<bool>,
) -> bool {
    &&& inside.len() == claims.len()
    &&& forall|k: int|
        0 <= k < claims.len() && is_tested(test, nodes, claims, inside, k) ==> test_gives(
            crosses,
            test,
            p,
            corners_of(test, nodes, claims[k].boundary->0)->0,
            #[trigger] inside[k],
        )
}

/// `r` is the best at each level among the claims, tested with `crosses`.
pub open spec fn chosen<F: Fn(Position, NodeCoord, NodeCoord) -> bool>(
    crosses: F,
    test: PointTest,
    p: Position,
    nodes: Seq<NodeCoord>,
    claims: Seq<Claim>,
    r: Option<Seq<Option<Boundary>>>,
) -> bool {
    exists|inside: Seq<bool>| #[trigger]
        tests_answered(crosses, test, p, nodes, claims, inside) && r == best_after(
            test,
            nodes,
            claims,
            inside,
            claims.len() as int,
        )
}

/// The best boundary of each level, as the outcome of a choice.
pub open spec fn choice_view(r: Result<Vec<Option<Boundary>>, IndexError>) -> Option<
    Seq<Option<Boundary>>,
> {
    match r {
        Ok(v) => Some(v@),
        Err(_) => None,
    }
}

proof fn lemma_best_after_prefix(
    test: PointTest,
    nodes: Seq<NodeCoord>,
    claims: Seq<Claim>,
    x: Seq<bool>,
    y: Seq<bool>,
    k: int,
)
    requires
        k <= x.len(),
        k <= y.len(),
        forall|i: int| 0 <= i < k ==> x[i] == y[i],
    ensures
        forall|i: int|
            i <= k ==> #[trigger] best_after(test, nodes, claims, x, i) == best_after(
                test,
                nodes,
                claims,
                y,
                i,
            ),
    decreases k,
{
    if k > 0 {
        lemma_best_after_prefix(test, nodes, claims, x, y, k - 1);
        assert(best_after(test, nodes, claims, x, k - 1) == best_after(
            test,
            nodes,
            claims,
            y,
            k - 1,
        ));
        assert(x[k - 1] == y[k - 1]);
        assert(best_after(test, nodes, claims, x, k) == best_after(test, nodes, claims, y, k));
    }
}

proof fn lemma_none_stays(
    test: PointTest,
    nodes: Seq<NodeCoord>,
    claims: Seq<Claim>,
    inside: Seq<bool>,
    k: int,
    n: int,
)
    requires
        0 <= k <= n,
        best_after(test, nodes, claims, inside, k) is None,
    ensures
        forall|i: int|
            k <= i <= n ==> #[trigger] best_after(test, nodes, claims, inside, i) is None,
    decreases n - k,
{
    if k < n {
        assert(best_after(test, nodes, claims, inside, k + 1) is None);
        lemma_none_stays(test, nodes, claims, inside, k + 1, n);
    }
}

/// Extends the outcomes of the first tests to all claims, when claim `k`
/// points outside its table.
proof fn lemma_failed_at<F: Fn(Position, NodeCoord, NodeCoord) -> bool>(
    crosses: F,
    test: PointTest,
    p: Position,
    nodes: Seq<NodeCoord>,
    claims: Seq<Claim>,
    inside: Seq<bool>,
    k: int,
)
    requires
        0 <= k < claims.len(),
        inside.len() == k,
        forall|i: int|
            0 <= i < k && is_tested(test, nodes, claims, inside, i) ==> test_gives(
                crosses,
                test,
                p,
                corners_of(test, nodes, claims[i].boundary->0)->0,
                #[trigger] inside[i],
            ),
        after_claim(
            test,
            best_after(test, nodes, claims, inside, k),
            nodes,
            claims[k],
            false,
        ) is None,
    ensures
        chosen(crosses, test, p, nodes, claims, None),
{
    let n = claims.len() as int;
    let full = inside + Seq::new((n - k) as nat, |i: int| false);
    lemma_best_after_prefix(test, nodes, claims, inside, full, k);
    assert(best_after(test, nodes, claims, full, k) == best_after(test, nodes, claims, inside, k));
    assert(best_after(test, nodes, claims, full, k + 1) is None);
    lemma_none_stays(test, nodes, claims, full, k + 1, n);
    assert forall|i: int| 0 <= i < n && is_tested(test, nodes, claims, full, i) implies test_gives(
        crosses,
        test,
        p,
        corners_of(test, nodes, claims[i].boundary->0)->0,
        #[trigger] full[i],
    ) by {
        if i < k {
            assert(best_after(test, nodes, claims, full, i) == best_after(
                test,
                nodes,
                claims,
                inside,
                i,
            ));
            assert(full[i] == inside[i]);
        } else if i > k {
            assert(best_after(test, nodes, claims, full, i) is None);
        }
    }
    assert(tests_answered(crosses, test, p, nodes, claims, full));
}

/// Chooses the smallest polygon at each level that holds the point, by its claim
/// or by a test. Of two that are as small, the earlier one stays.
pub fn choose_boundaries<F: Fn(Position, NodeCoord, NodeCoord) -> bool>(
    crosses: &F,
    test: PointTest,
    p: Position,
    vertices: &[u8],
    claims: &Vec<Claim>,
) -> (r: Result<Vec<Option<Boundary>>, IndexError>)
    requires
        forall|q: Position, a: NodeCoord, b: NodeCoord| call_requires(*crosses, (q, a, b)),
    ensures
        chosen(*crosses, test, p, nodes_of(vertices@), claims@, choice_view(r)),
        r is Err ==> r->Err_0 == IndexError::OutOfRange,
        r is Ok ==> r->Ok_0@.len() == LEVELS,
{
    let ghost nodes = nodes_of(vertices@);
    let mut best: Vec<Option<Boundary>> = Vec::new();
    while best.len() < LEVELS
        invariant
            best@.len() <= LEVELS,
            forall|i: int| 0 <= i < best@.len() ==> #[trigger] best@[i] is None,
        decreases LEVELS - best@.len(),
    {
        best.push(None);
    }
    assert(best@ =~= no_boundaries());
    let ghost mut inside: Seq<bool> = seq![];
    let mut k: usize = 0;
    while k < claims.len()
        invariant
            forall|q: Position, a: NodeCoord, b: NodeCoord| call_requires(*crosses, (q, a, b)),
            nodes == nodes_of(vertices@),
            k <= claims@.len(),
            best@.len() == LEVELS,
            inside.len() == k,
            best_after(test, nodes, claims@, inside, k as int) == Some(best@),
            forall|i: int|
                0 <= i < k && is_tested(test, nodes, claims@, inside, i) ==> test_gives(
                    *crosses,
                    test,
                    p,
                    corners_of(test, nodes, claims@[i].boundary->0)->0,
                    #[trigger] inside[i],
                ),
        decreases claims@.len() - k,
    {
        let claim = claims[k];
        let b = match claim.boundary {
            Some(b) => b,
            None => {
                proof {
                    lemma_failed_at(*crosses, test, p, nodes, claims@, inside, k as int);
                }
                return Err(IndexError::OutOfRange);
            },
        };
        let ghost was = inside;
        let ghost best_was = best@;
        let level: usize = b.admin_level as usize;
        let open: bool = level < LEVELS && match best[level] {
            Some(c) => !is_single_at_least(b.area, c.area),
            None => true,
        };
        assert(open == may_take(best@, b));
        if open {
            if claim.interior {
                best.set(level, Some(b));
                proof {
                    inside = inside.push(false);
                }
            } else {
                let corners = if test.refuses_empty && b.vertex_count == 0 {
                    None
                } else {
                    read_stretch(vertices, b.vertex_offset as usize, b.vertex_count as usize)
                };
                match corners {
                    Some(corners) => {
                        let hit: bool = point_in_polygon(crosses, test, p, &corners);
                        proof {
                            inside = inside.push(hit);
                        }
                        if hit {
                            best.set(level, Some(b));
                        }
                    },
                    None => {
                        proof {
                            lemma_failed_at(*crosses, test, p, nodes, claims@, inside, k as int);
                        }
                        return Err(IndexError::OutOfRange);
                    },
                }
            }
        } else {
            proof {
                inside = inside.push(false);
            }
        }
        proof {
            lemma_best_after_prefix(test, nodes, claims@, was, inside, k as int);
            assert forall|i: int|
                0 <= i < k + 1 && is_tested(test, nodes, claims@, inside, i) implies test_gives(
                *crosses,
                test,
                p,
                corners_of(test, nodes, claims@[i].boundary->0)->0,
                #[trigger] inside[i],
            ) by {
                assert(best_after(test, nodes, claims@, was, i) == best_after(
                    test,
                    nodes,
                    claims@,
                    inside,
                    i,
                ));
                if i < k {
                    assert(inside[i] == was[i]);
                }
            }
        }
        k = k + 1;
    }
    assert(tests_answered(*crosses, test, p, nodes, claims@, inside));
    Ok(best)
}

// --- What the choice is ---

/// At every level the chosen polygon is one that holds the point, by its
/// claim or by a test, and no claim of that level that was not tested and
/// found to miss the point has a smaller one. This needs areas that are
/// numbers.
pub proof fn law_smallest_polygon_wins(
    test: PointTest,
    nodes: Seq<NodeCoord>,
    claims: Seq<Claim>,
    inside: Seq<bool>,
    k: int,
)
    requires
        0 <= k <= claims.len(),
        best_after(test, nodes, claims, inside, k) is Some,
        forall|i: int|
            0 <= i < k && (#[trigger] claims[i]).boundary is Some ==> !single_is_nan(
                claims[i].boundary->0.area,
            ),
    ensures
        best_after(test, nodes, claims, inside, k)->0.len() == LEVELS,
        forall|level: int|
            0 <= level < LEVELS ==> match #[trigger] best_after(
                test,
                nodes,
                claims,
                inside,
                k,
            )->0[level] {
                Some(b) => b.admin_level == level && !single_is_nan(b.area) && exists|i: int|
                    0 <= i < k && (#[trigger] claims[i]).boundary == Some(b) && (claims[i].interior
                        || is_tested(test, nodes, claims, inside, i) && inside[i]),
                None => true,
            },
        forall|i: int|
            0 <= i < k && (#[trigger] claims[i]).boundary is Some
                && claims[i].boundary->0.admin_level < LEVELS && !(is_tested(
                test,
                nodes,
                claims,
                inside,
                i,
            ) && !inside[i]) ==> match best_after(
                test,
                nodes,
                claims,
                inside,
                k,
            )->0[claims[i].boundary->0.admin_level as int] {
                Some(b) => single_rank(b.area) <= single_rank(claims[i].boundary->0.area),
                None => false,
            },
    decreases k,
{
    if k > 0 {
        assert(best_after(test, nodes, claims, inside, k - 1) is Some);
        law_smallest_polygon_wins(test, nodes, claims, inside, k - 1);
        let prev = best_after(test, nodes, claims, inside, k - 1)->0;
        let now = best_after(test, nodes, claims, inside, k)->0;
        let b = claims[k - 1].boundary->0;
        assert forall|level: int| 0 <= level < LEVELS implies match #[trigger] now[level] {
            Some(c) => c.admin_level == level && !single_is_nan(c.area) && exists|i: int|
                0 <= i < k && (#[trigger] claims[i]).boundary == Some(c) && (claims[i].interior
                    || is_tested(test, nodes, claims, inside, i) && inside[i]),
            None => true,
        } by {
            if now[level] != prev[level] {
                assert(claims[k - 1].boundary == now[level]);
            } else if now[level] is Some {
                let c = prev[level]->0;
                let i = choose|i: int|
                    0 <= i < k - 1 && (#[trigger] claims[i]).boundary == Some(c) && (
                    claims[i].interior || is_tested(test, nodes, claims, inside, i) && inside[i]);
                assert(claims[i].boundary == Some(c));
            }
        }
    }
}

proof fn lemma_best_has_all_levels(
    test: PointTest,
    nodes: Seq<NodeCoord>,
    claims: Seq<Claim>,
    inside: Seq<bool>,
    k: int,
)
    ensures
        best_after(test, nodes, claims, inside, k) is Some ==> best_after(
            test,
            nodes,
            claims,
            inside,
            k,
        )->0.len() == LEVELS,
    decreases k,
{
    if k > 0 {
        lemma_best_has_all_levels(test, nodes, claims, inside, k - 1);
    }
}

proof fn lemma_best_was_claimed(
    test: PointTest,
    nodes: Seq<NodeCoord>,
    claims: Seq<Claim>,
    inside: Seq<bool>,
    k: int,
    level: int,
) -> (i: int)
    requires
        0 <= k <= claims.len(),
        0 <= level < LEVELS,
        best_after(test, nodes, claims, inside, k) is Some,
        best_after(test, nodes, claims, inside, k)->0[level] is Some,
    ensures
        0 <= i < k,
        claims[i].boundary == best_after(test, nodes, claims, inside, k)->0[level],
        claims[i].interior || is_tested(test, nodes, claims, inside, i) && inside[i],
        best_after(test, nodes, claims, inside, i) is Some,
        may_take(best_after(test, nodes, claims, inside, i)->0, claims[i].boundary->0),
    decreases k,
{
    let now = best_after(test, nodes, claims, inside, k)->0;
    let before = best_after(test, nodes, claims, inside, k - 1);
    lemma_best_has_all_levels(test, nodes, claims, inside, k - 1);
    if k > 0 && before is Some && before->0[level] == now[level] {
        lemma_best_was_claimed(test, nodes, claims, inside, k - 1, level)
    } else {
        k - 1
    }
}

/// A choice is of one polygon for each of the twelve levels, or of none.
pub proof fn law_choice_is_by_level<F: Fn(Position, NodeCoord, NodeCoord) -> bool>(
    crosses: F,
    test: PointTest,
    p: Position,
    nodes: Seq<NodeCoord>,
    claims: Seq<Claim>,
    best: Seq<Option<Boundary>>,
)
    requires
        chosen(crosses, test, p, nodes, claims, Some(best)),
    ensures
        best.len() == 12,
        forall|level: int|
            0 <= level < 12 && (#[trigger] best[level]) is Some ==> best[level]->0.admin_level
                == level,
{
    let n = claims.len() as int;
    let inside = choose|inside: Seq<bool>| #[trigger]
        tests_answered(crosses, test, p, nodes, claims, inside) && Some(best) == best_after(
            test,
            nodes,
            claims,
            inside,
            n,
        );
    lemma_best_has_all_levels(test, nodes, claims, inside, n);
    lemma_best_keeps_levels(test, nodes, claims, inside, n);
}

proof fn lemma_best_keeps_levels(
    test: PointTest,
    nodes: Seq<NodeCoord>,
    claims: Seq<Claim>,
    inside: Seq<bool>,
    k: int,
)
    requires
        0 <= k <= claims.len(),
        best_after(test, nodes, claims, inside, k) is Some,
    ensures
        forall|level: int|
            0 <= level < 12 && (#[trigger] best_after(test, nodes, claims, inside, k)->0[level])
                is Some ==> best_after(test, nodes, claims, inside, k)->0[level]->0.admin_level
                == level,
    decreases k,
{
    if k > 0 {
        lemma_best_keeps_levels(test, nodes, claims, inside, k - 1);
        lemma_best_has_all_levels(test, nodes, claims, inside, k - 1);
    }
}

/// Every polygon that is chosen is claimed, by a cell that lies inside it and
/// spares the test, or the point was tested and found in it.
pub proof fn law_chosen_polygons_are_claimed<F: Fn(Position, NodeCoord, NodeCoord) -> bool>(
    crosses: F,
    test: PointTest,
    p: Position,
    nodes: Seq<NodeCoord>,
    claims: Seq<Claim>,
    best: Seq<Option<Boundary>>,
    level: int,
) -> (i: int)
    requires
        chosen(crosses, test, p, nodes, claims, Some(best)),
        0 <= level < LEVELS,
        best[level] is Some,
    ensures
        0 <= i < claims.len(),
        claims[i].boundary == best[level],
        claims[i].interior || corners_of(test, nodes, best[level]->0) is Some && test_gives(
            crosses,
            test,
            p,
            corners_of(test, nodes, best[level]->0)->0,
            true,
        ),
{
    let n = claims.len() as int;
    let inside = choose|inside: Seq<bool>| #[trigger]
        tests_answered(crosses, test, p, nodes, claims, inside) && Some(best) == best_after(
            test,
            nodes,
            claims,
            inside,
            n,
        );
    let i = lemma_best_was_claimed(test, nodes, claims, inside, n, level);
    if !claims[i].interior {
        assert(test_gives(
            crosses,
            test,
            p,
            corners_of(test, nodes, claims[i].boundary->0)->0,
            inside[i],
        ));
    }
    i
}

/// Where the cells beside the point's own one do not spare the test, every polygon
/// that is chosen holds the point: the point's own cell is listed as lying inside
/// it, or the point was tested and found in it.
pub proof fn law_chosen_polygons_hold_the_point<F: Fn(Position, NodeCoord, NodeCoord) -> bool>(
    crosses: F,
    test: PointTest,
    p: Position,
    nodes: Seq<NodeCoord>,
    table: Seq<Boundary>,
    own: Seq<u32>,
    beside: Seq<u32>,
    best: Seq<Option<Boundary>>,
    level: int,
)
    requires
        chosen(crosses, test, p, nodes, claims_round(table, own, beside), Some(best)),
        0 <= level < LEVELS,
        best[level] is Some,
    ensures
        (exists|i: int|
            0 <= i < own.len() && #[trigger] own[i] >= INTERIOR_FLAG && claim_of(
                table,
                own[i],
                true,
            ).boundary == best[level]) || (corners_of(test, nodes, best[level]->0) is Some
            && test_gives(
            crosses,
            test,
            p,
            corners_of(test, nodes, best[level]->0)->0,
            true,
        )),
{
    let claims = claims_round(table, own, beside);
    let i = law_chosen_polygons_are_claimed(crosses, test, p, nodes, claims, best, level);
    law_only_the_own_cell_spares_the_test(table, own, beside, i);
    if claims[i].interior {
        assert(own[i] >= INTERIOR_FLAG);
    }
}

/// Whether claim `i` is of a polygon that holds the point: it needs no test, or the
/// ray from the point crosses all its corners' edges an odd number of times, of
/// which there are enough and the table has them all.
pub open spec fn claim_holds<F: Fn(Position, NodeCoord, NodeCoord) -> bool>(
    crosses: F,
    test: PointTest,
    p: Position,
    nodes: Seq<NodeCoord>,
    claim: Claim,
) -> bool {
    &&& claim.boundary is Some
    &&& claim.interior || {
        let b = claim.boundary->0;
        &&& b.vertex_offset + b.vertex_count <= nodes.len()
        &&& b.vertex_count > 0
        &&& b.vertex_count >= test.least_corners
        &&& casts_to(
            crosses,
            test.axis,
            p,
            nodes.subrange(b.vertex_offset as int, b.vertex_offset + b.vertex_count),
            true,
        )
    }
}

/// At every level below twelve the choice is a smallest polygon that is claimed and
/// holds the point: where one is claimed and holds it, one that is not larger is
/// chosen, and what is chosen is claimed and holds it, and of those that are as small
/// it is the first. This needs areas that are numbers, and a `crosses` that answers
/// always the same way.
pub proof fn law_choice_is_a_smallest_that_holds<F: Fn(Position, NodeCoord, NodeCoord) -> bool>(
    crosses: F,
    test: PointTest,
    p: Position,
    nodes: Seq<NodeCoord>,
    claims: Seq<Claim>,
    best: Seq<Option<Boundary>>,
)
    requires
        answers_edges_once(crosses),
        chosen(crosses, test, p, nodes, claims, Some(best)),
        forall|i: int|
            0 <= i < claims.len() && (#[trigger] claims[i]).boundary is Some ==> !single_is_nan(
                claims[i].boundary->0.area,
            ),
    ensures
        best.len() == 12,
        forall|i: int|
            0 <= i < claims.len() && claim_holds(crosses, test, p, nodes, #[trigger] claims[i])
                && claims[i].boundary->0.admin_level < 12 ==> {
                let b = claims[i].boundary->0;
                &&& best[b.admin_level as int] is Some
                &&& single_rank(best[b.admin_level as int]->0.area) <= single_rank(b.area)
            },
        forall|level: int|
            0 <= level < 12 && (#[trigger] best[level]) is Some ==> best[level]->0.admin_level
                == level && exists|i: int|
                0 <= i < claims.len() && (#[trigger] claims[i]).boundary == best[level] && (
                test.refuses_empty || test.least_corners > 0 ==> claim_holds(
                    crosses,
                    test,
                    p,
                    nodes,
                    claims[i],
                )) && forall|j: int|
                    0 <= j < i && claim_holds(crosses, test, p, nodes, #[trigger] claims[j])
                        && claims[j].boundary->0.admin_level == level ==> single_rank(
                        best[level]->0.area,
                    ) < single_rank(claims[j].boundary->0.area),
{
    let n = claims.len() as int;
    let inside = choose|inside: Seq<bool>| #[trigger]
        tests_answered(crosses, test, p, nodes, claims, inside) && Some(best) == best_after(
            test,
            nodes,
            claims,
            inside,
            n,
        );
    law_smallest_polygon_wins(test, nodes, claims, inside, n);
    assert forall|i: int|
        0 <= i < n && claim_holds(crosses, test, p, nodes, #[trigger] claims[i])
            && claims[i].boundary->0.admin_level < 12 implies {
        let b = claims[i].boundary->0;
        &&& best[b.admin_level as int] is Some
        &&& single_rank(best[b.admin_level as int]->0.area) <= single_rank(b.area)
    } by {
        let b = claims[i].boundary->0;
        if is_tested(test, nodes, claims, inside, i) {
            let corners = corners_of(test, nodes, b)->0;
            assert(test_gives(crosses, test, p, corners, inside[i]));
            assert(test_gives(crosses, test, p, corners, true));
            lemma_test_once(crosses, test, p, corners, inside[i], true);
        }
    }
    assert forall|level: int|
        0 <= level < 12 && (#[trigger] best[level]) is Some implies best[level]->0.admin_level
        == level && exists|i: int|
        0 <= i < claims.len() && (#[trigger] claims[i]).boundary == best[level] && (
        test.refuses_empty || test.least_corners > 0 ==> claim_holds(
            crosses,
            test,
            p,
            nodes,
            claims[i],
        )) && forall|j: int|
            0 <= j < i && claim_holds(crosses, test, p, nodes, #[trigger] claims[j])
                && claims[j].boundary->0.admin_level == level ==> single_rank(best[level]->0.area)
                < single_rank(claims[j].boundary->0.area) by {
        let i = lemma_best_was_claimed(test, nodes, claims, inside, n, level);
        law_smallest_polygon_wins(test, nodes, claims, inside, i);
        assert forall|j: int|
            0 <= j < i && claim_holds(crosses, test, p, nodes, #[trigger] claims[j])
                && claims[j].boundary->0.admin_level == level implies single_rank(
            best[level]->0.area,
        ) < single_rank(claims[j].boundary->0.area) by {
            if is_tested(test, nodes, claims, inside, j) {
                let corners = corners_of(test, nodes, claims[j].boundary->0)->0;
                assert(test_gives(crosses, test, p, corners, inside[j]));
                assert(test_gives(crosses, test, p, corners, true));
                lemma_test_once(crosses, test, p, corners, inside[j], true);
            }
            assert(claims[i].boundary is Some && claims[j].boundary is Some);
        }
        if !claims[i].interior {
            assert(test_gives(
                crosses,
                test,
                p,
                corners_of(test, nodes, claims[i].boundary->0)->0,
                inside[i],
            ));
        }
        assert(claims[i].boundary == best[level]);
    }
}

proof fn lemma_best_is_there(
    test: PointTest,
    nodes: Seq<NodeCoord>,
    claims: Seq<Claim>,
    inside: Seq<bool>,
    k: int,
)
    requires
        0 <= k <= claims.len(),
        forall|i: int|
            0 <= i < claims.len() ==> (#[trigger] claims[i]).boundary is Some && (
            claims[i].interior || corners_of(test, nodes, claims[i].boundary->0) is Some),
    ensures
        best_after(test, nodes, claims, inside, k) is Some,
    decreases k,
{
    if k > 0 {
        lemma_best_is_there(test, nodes, claims, inside, k - 1);
        assert(claims[k - 1].boundary is Some);
    }
}

/// The choice fails only where a claim points outside a table, or is of a polygon
/// without corners that has to have some; and where a claim names no polygon, it
/// does fail.
pub proof fn law_choice_fails_only_on_malformed_claims<
    F: Fn(Position, NodeCoord, NodeCoord) -> bool,
>(
    crosses: F,
    test: PointTest,
    p: Position,
    nodes: Seq<NodeCoord>,
    claims: Seq<Claim>,
    r: Option<Seq<Option<Boundary>>>,
)
    requires
        chosen(crosses, test, p, nodes, claims, r),
    ensures
        (forall|i: int|
            0 <= i < claims.len() ==> {
                let b = (#[trigger] claims[i]).boundary;
                &&& b is Some
                &&& claims[i].interior || (b->0.vertex_offset + b->0.vertex_count <= nodes.len()
                    && (test.refuses_empty ==> b->0.vertex_count > 0))
            }) ==> r is Some,
        (exists|i: int| 0 <= i < claims.len() && (#[trigger] claims[i]).boundary is None)
            ==> r is None,
{
    let n = claims.len() as int;
    let inside = choose|inside: Seq<bool>| #[trigger]
        tests_answered(crosses, test, p, nodes, claims, inside) && r == best_after(
            test,
            nodes,
            claims,
            inside,
            n,
        );
    if forall|i: int|
        0 <= i < claims.len() ==> {
            let b = (#[trigger] claims[i]).boundary;
            &&& b is Some
            &&& claims[i].interior || (b->0.vertex_offset + b->0.vertex_count <= nodes.len() && (
            test.refuses_empty ==> b->0.vertex_count > 0))
        } {
        lemma_best_is_there(test, nodes, claims, inside, n);
    }
    if exists|i: int| 0 <= i < claims.len() && (#[trigger] claims[i]).boundary is None {
        let i = choose|i: int| 0 <= i < claims.len() && (#[trigger] claims[i]).boundary is None;
        assert(best_after(test, nodes, claims, inside, i + 1) is None);
        lemma_none_stays(test, nodes, claims, inside, i + 1, n);
        assert(best_after(test, nodes, claims, inside, n) is None);
    }
}

proof fn lemma_test_once<F: Fn(Position, NodeCoord, NodeCoord) -> bool>(
    crosses: F,
    test: PointTest,
    p: Position,
    corners: Seq<NodeCoord>,
    r: bool,
    s: bool,
)
    requires
        answers_edges_once(crosses),
        test_gives(crosses, test, p, corners, r),
        test_gives(crosses, test, p, corners, s),
    ensures
        r == s,
{
    if corners.len() >= test.least_corners {
        law_ray_casting_is_determined(crosses, test.axis, p, corners, r, s);
    }
}

proof fn lemma_best_same<F: Fn(Position, NodeCoord, NodeCoord) -> bool>(
    crosses: F,
    test: PointTest,
    p: Position,
    nodes: Seq<NodeCoord>,
    claims: Seq<Claim>,
    x: Seq<bool>,
    y: Seq<bool>,
    k: int,
)
    requires
        0 <= k <= claims.len(),
        answers_edges_once(crosses),
        tests_answered(crosses, test, p, nodes, claims, x),
        tests_answered(crosses, test, p, nodes, claims, y),
    ensures
        best_after(test, nodes, claims, x, k) == best_after(test, nodes, claims, y, k),
    decreases k,
{
    if k > 0 {
        lemma_best_same(crosses, test, p, nodes, claims, x, y, k - 1);
        if is_tested(test, nodes, claims, x, k - 1) {
            assert(is_tested(test, nodes, claims, y, k - 1));
            let corners = corners_of(test, nodes, claims[k - 1].boundary->0)->0;
            assert(test_gives(crosses, test, p, corners, x[k - 1]));
            assert(test_gives(crosses, test, p, corners, y[k - 1]));
            lemma_test_once(crosses, test, p, corners, x[k - 1], y[k - 1]);
        }
    }
}

/// The choice has one outcome, as long as `crosses` answers always the same
/// way.
pub proof fn law_choice_is_determined<F: Fn(Position, NodeCoord, NodeCoord) -> bool>(
    crosses: F,
    test: PointTest,
    p: Position,
    nodes: Seq<NodeCoord>,
    claims: Seq<Claim>,
    r: Option<Seq<Option<Boundary>>>,
    s: Option<Seq<Option<Boundary>>>,
)
    requires
        answers_edges_once(crosses),
        chosen(crosses, test, p, nodes, claims, r),
        chosen(crosses, test, p, nodes, claims, s),
    ensures
        r == s,
{
    let n = claims.len() as int;
    let x = choose|x: Seq<bool>| #[trigger]
        tests_answered(crosses, test, p, nodes, claims, x) && r == best_after(
            test,
            nodes,
            claims,
            x,
            n,
        );
    let y = choose|y: Seq<bool>| #[trigger]
        tests_answered(crosses, test, p, nodes, claims, y) && s == best_after(
            test,
            nodes,
            claims,
            y,
            n,
        );
    lemma_best_same(crosses, test, p, nodes, claims, x, y, n);
}

} // verus!
