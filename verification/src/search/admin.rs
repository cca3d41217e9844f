//! The administrative context of a point: suburb, city, county, state and
//! country.
use crate::boundary::{
    choice_view, choose_boundaries, chosen, claim_holds, law_choice_fails_only_on_malformed_claims,
    law_choice_is_a_smallest_that_holds, law_choice_is_by_level, law_choice_is_determined,
    law_chosen_polygons_are_claimed, Boundary, PointTest,
};
use crate::bytes::{
    all_entry_ids, cell_offset, cell_offsets, entry_ids, lemma_entry_is_listed, IndexError, NO_DATA,
};
use crate::cells::{ancestor, cells_around, list_cells_around, touching_cells};
use crate::geometry::{answers_edges_once, casts_to, nodes_of, Axis, NodeCoord, Position};
use crate::ieee::{double_is_nan, double_less, is_double_less, single_is_nan, single_rank};
use crate::search::binary::{
    boundaries_of, features_of, polygons_of, AdminPolygon, BinaryIndex, PlaceFeature,
};
use crate::text::{
    join, joined, law_replacing_the_separator_rejoins, law_splitting_undoes_joining, none_holds,
    option_view, pieces, present, push_present, replaced,
};
use std::collections::HashMap;
use vstd::prelude::*;

pub use crate::cells::cell_id_at_level;

verus! {

/// The cell level that boundaries are listed by.
pub const ADMIN_CELL_LEVEL: u64 = 10;

/// The cell level whose cells share one context.
pub const ADMIN_CACHE_LEVEL: u64 = 14;

/// The cell level that places are listed by.
pub const PLACE_CELL_LEVEL: u64 = 12;

/// How near a place has to be to lend a point its name as the suburb, as a
/// squared distance in radians, in double precision: the square of 500 / 111320
/// degrees, about 500 m.
pub const SUBURB_SNAP_DIST_SQ: u64 = 0x3E3A_64E9_1F5B_913F;

/// The names of the areas that a point lies in.
pub struct AdminContext {
    pub suburb: Option<String>,
    pub city: Option<String>,
    pub county: Option<String>,
    pub state: Option<String>,
    pub country: Option<String>,
}

/// The names of the areas that a point lies in, as characters.
#[verifier::ext_equal]
pub struct ContextModel {
    pub suburb: Option<Seq<char>>,
    pub city: Option<Seq<char>>,
    pub county: Option<Seq<char>>,
    pub state: Option<Seq<char>>,
    pub country: Option<Seq<char>>,
}

impl ContextModel {
    /// The names that are known, from the smallest area to the largest.
    pub open spec fn names(self) -> Seq<Seq<char>> {
        present(self.suburb) + present(self.city) + present(self.county) + present(self.state)
            + present(self.country)
    }
}

impl View for AdminContext {
    type V = ContextModel;

    open spec fn view(&self) -> ContextModel {
        ContextModel {
            suburb: option_view(self.suburb),
            city: option_view(self.city),
            county: option_view(self.county),
            state: option_view(self.state),
            country: option_view(self.country),
        }
    }
}

fn clone_name(name: &Option<String>) -> (r: Option<String>)
    ensures
        r == *name,
{
    match name {
        Some(s) => Some(s.clone()),
        None => None,
    }
}

impl Clone for AdminContext {
    fn clone(&self) -> (r: Self)
        ensures
            r == *self,
    {
        AdminContext {
            suburb: clone_name(&self.suburb),
            city: clone_name(&self.city),
            county: clone_name(&self.county),
            state: clone_name(&self.state),
            country: clone_name(&self.country),
        }
    }
}

impl Default for AdminContext {
    fn default() -> (r: Self)
        ensures
            r@.names() == Seq::<Seq<char>>::empty(),
            r@ == (ContextModel {
                suburb: None,
                city: None,
                county: None,
                state: None,
                country: None,
            }),
    {
        let r = AdminContext { suburb: None, city: None, county: None, state: None, country: None };
        assert(r@.names() =~= Seq::<Seq<char>>::empty());
        r
    }
}

impl AdminContext {
    fn join_names(&self, sep: &str) -> (r: String)
        ensures
            r@ == joined(self@.names(), sep@),
    {
        let mut parts: Vec<&str> = Vec::new();
        assert(crate::text::views(parts@) =~= seq![]);
        push_present(&mut parts, &self.suburb);
        push_present(&mut parts, &self.city);
        push_present(&mut parts, &self.county);
        push_present(&mut parts, &self.state);
        push_present(&mut parts, &self.country);
        assert(crate::text::views(parts@) =~= self@.names());
        join(&parts, sep)
    }

    /// The names that are known, to search in.
    pub fn context_tokens(&self) -> (r: String)
        ensures
            r@ == joined(self@.names(), " "@),
    {
        self.join_names(" ")
    }

    /// The names that are known, to show behind a place's own name.
    pub fn display_suffix(&self) -> (r: String)
        ensures
            r@ == joined(self@.names(), ", "@),
    {
        self.join_names(", ")
    }
}

/// What is shown of a context, with a blank for each comma and blank, is what is
/// searched in, where no name holds a comma.
pub proof fn law_suffix_turns_into_tokens(c: ContextModel)
    requires
        none_holds(c.names(), ','),
    ensures
        replaced(joined(c.names(), ", "@), ", "@, " "@) == joined(c.names(), " "@),
{
    reveal_strlit(", ");
    law_replacing_the_separator_rejoins(c.names(), ", "@, " "@);
}

/// Splitting what is shown of a context at each comma and blank gives its names
/// back, where it has any and none holds a comma. Of a context without names
/// nothing is shown.
pub proof fn law_suffix_gives_the_names_back(c: ContextModel)
    requires
        none_holds(c.names(), ','),
    ensures
        c.names().len() > 0 ==> pieces(joined(c.names(), ", "@), ", "@) == c.names(),
        c.names().len() == 0 ==> joined(c.names(), ", "@) == Seq::<char>::empty(),
{
    reveal_strlit(", ");
    if c.names().len() > 0 {
        law_splitting_undoes_joining(c.names(), ", "@);
    }
}

// --- The nearest place ---

/// Whether a feature can lend its name as the suburb.
pub open spec fn is_suburb_node(f: PlaceFeature) -> bool {
    f.feature_type == 1 && f.name_id != NO_DATA
}

/// The smallest distance so far and the name that goes with it, after the
/// first `k` entries. Nothing once an entry has pointed outside its table.
pub open spec fn place_after(
    idx: BinaryIndex,
    entries: Seq<u32>,
    distances: Seq<u64>,
    k: int,
) -> Option<(u64, Option<Seq<char>>)>
    decreases k,
{
    if k <= 0 {
        Some((SUBURB_SNAP_DIST_SQ, None))
    } else {
        match place_after(idx, entries, distances, k - 1) {
            None => None,
            Some(best) => {
                let features = features_of(idx.place_features@);
                let f = features[entries[k - 1] as int];
                if entries[k - 1] >= features.len() {
                    None
                } else if !is_suburb_node(f) || !double_less(distances[k - 1], best.0) {
                    Some(best)
                } else if !idx.has_text(f.name_id) {
                    None
                } else {
                    Some((distances[k - 1], Some(idx.text(f.name_id))))
                }
            },
        }
    }
}

/// Whether the distance to entry `k` has to be measured.
pub open spec fn place_is_measured(
    idx: BinaryIndex,
    entries: Seq<u32>,
    distances: Seq<u64>,
    k: int,
) -> bool {
    let features = features_of(idx.place_features@);
    place_after(idx, entries, distances, k) is Some && entries[k] < features.len()
        && is_suburb_node(features[entries[k] as int])
}

/// `distances` holds what `distance` answered for each entry that is measured.
pub open spec fn places_measured<D: Fn(Position, PlaceFeature) -> u64>(
    idx: BinaryIndex,
    p: Position,
    distance: D,
    entries: Seq<u32>,
    distances: Seq<u64>,
) -> bool {
    &&& distances.len() == entries.len()
    &&& forall|k: int|
        0 <= k < entries.len() && place_is_measured(idx, entries, distances, k) ==> call_ensures(
            distance,
            (p, features_of(idx.place_features@)[entries[k] as int]),
            #[trigger] distances[k],
        )
}

/// `r` is the name of the nearest place among those listed round the point,
/// as `distance` measures: of those nearer than the limit the nearest, and of
/// equally near ones the first. Nothing where an entry points outside its
/// table.
pub open spec fn nearest_place<D: Fn(Position, PlaceFeature) -> u64>(
    idx: BinaryIndex,
    p: Position,
    distance: D,
    r: Option<Option<Seq<char>>>,
) -> bool {
    let entries = idx.place_entries_in(cells_around(p.leaf, PLACE_CELL_LEVEL));
    exists|distances: Seq<u64>| #[trigger]
        places_measured(idx, p, distance, entries, distances) && r == match place_after(
            idx,
            entries,
            distances,
            entries.len() as int,
        ) {
            Some(best) => Some(best.1),
            None => None,
        }
}

/// The outcome of a search for a name.
pub open spec fn name_result(r: Result<Option<String>, IndexError>) -> Option<Option<Seq<char>>> {
    match r {
        Ok(n) => Some(option_view(n)),
        Err(_) => None,
    }
}

proof fn lemma_place_after_prefix(
    idx: BinaryIndex,
    entries: Seq<u32>,
    x: Seq<u64>,
    y: Seq<u64>,
    k: int,
)
    requires
        k <= x.len(),
        k <= y.len(),
        forall|i: int| 0 <= i < k ==> x[i] == y[i],
    ensures
        forall|i: int|
            i <= k ==> #[trigger] place_after(idx, entries, x, i) == place_after(
                idx,
                entries,
                y,
                i,
            ),
    decreases k,
{
    if k > 0 {
        lemma_place_after_prefix(idx, entries, x, y, k - 1);
        assert(place_after(idx, entries, x, k - 1) == place_after(idx, entries, y, k - 1));
        assert(x[k - 1] == y[k - 1]);
        assert(place_after(idx, entries, x, k) == place_after(idx, entries, y, k));
    }
}

proof fn lemma_place_none_stays(
    idx: BinaryIndex,
    entries: Seq<u32>,
    distances: Seq<u64>,
    k: int,
    n: int,
)
    requires
        0 <= k <= n,
        place_after(idx, entries, distances, k) is None,
    ensures
        forall|i: int| k <= i <= n ==> #[trigger] place_after(idx, entries, distances, i) is None,
    decreases n - k,
{
    if k < n {
        assert(place_after(idx, entries, distances, k + 1) is None);
        lemma_place_none_stays(idx, entries, distances, k + 1, n);
    }
}

/// Extends the first distances to all entries, when entry `k` points outside
/// its table.
proof fn lemma_place_failed_at<D: Fn(Position, PlaceFeature) -> u64>(
    idx: BinaryIndex,
    p: Position,
    distance: D,
    entries: Seq<u32>,
    distances: Seq<u64>,
    k: int,
)
    requires
        0 < k <= entries.len(),
        distances.len() == k,
        forall|i: int|
            0 <= i < k && place_is_measured(idx, entries, distances, i) ==> call_ensures(
                distance,
                (p, features_of(idx.place_features@)[entries[i] as int]),
                #[trigger] distances[i],
            ),
        place_after(idx, entries, distances, k) is None,
        entries == idx.place_entries_in(cells_around(p.leaf, PLACE_CELL_LEVEL)),
    ensures
        nearest_place(idx, p, distance, None),
{
    let n = entries.len() as int;
    let full = distances + Seq::new((n - k) as nat, |i: int| 0u64);
    lemma_place_after_prefix(idx, entries, distances, full, k);
    assert(place_after(idx, entries, full, k) == place_after(idx, entries, distances, k));
    lemma_place_none_stays(idx, entries, full, k, n);
    assert forall|i: int|
        0 <= i < n && place_is_measured(idx, entries, full, i) implies call_ensures(
        distance,
        (p, features_of(idx.place_features@)[entries[i] as int]),
        #[trigger] full[i],
    ) by {
        if i < k {
            assert(place_after(idx, entries, full, i) == place_after(idx, entries, distances, i));
            assert(full[i] == distances[i]);
        } else {
            assert(place_after(idx, entries, full, i) is None);
        }
    }
    assert(places_measured(idx, p, distance, entries, full));
}

/// The name of the nearest place that can be the point's suburb. `distance`
/// measures from the point to a feature, as a squared distance in radians.
pub fn nearest_place_node<D: Fn(Position, PlaceFeature) -> u64>(
    p: Position,
    idx: &BinaryIndex,
    distance: &D,
) -> (r: Result<Option<String>, IndexError>)
    requires
        p.is_valid(),
        forall|q: Position, f: PlaceFeature| call_requires(*distance, (q, f)),
    ensures
        nearest_place(*idx, p, *distance, name_result(r)),
        r is Err ==> r->Err_0 == IndexError::OutOfRange,
{
    let cells = list_cells_around(p.leaf, PLACE_CELL_LEVEL);
    let entries = idx.read_place_entries(&cells);
    let mut best_dist: u64 = SUBURB_SNAP_DIST_SQ;
    let mut best_name: Option<String> = None;
    let ghost mut distances: Seq<u64> = seq![];
    let ghost features = features_of(idx.place_features@);
    let mut k: usize = 0;
    while k < entries.len()
        invariant
            forall|q: Position, f: PlaceFeature| call_requires(*distance, (q, f)),
            features == features_of(idx.place_features@),
            entries@ == idx.place_entries_in(cells_around(p.leaf, PLACE_CELL_LEVEL)),
            k <= entries@.len(),
            distances.len() == k,
            place_after(*idx, entries@, distances, k as int) == Some(
                (best_dist, option_view(best_name)),
            ),
            forall|i: int|
                0 <= i < k && place_is_measured(*idx, entries@, distances, i) ==> call_ensures(
                    *distance,
                    (p, features[entries@[i] as int]),
                    #[trigger] distances[i],
                ),
        decreases entries@.len() - k,
    {
        let found = idx.place_feature(entries[k] as usize);
        let lends: bool = match found {
            Some(f) => f.feature_type == 1 && f.name_id != NO_DATA,
            None => false,
        };
        let dist: u64 = match found {
            Some(f) => if lends {
                distance(p, f)
            } else {
                0
            },
            None => 0,
        };
        proof {
            let was = distances;
            distances = distances.push(dist);
            lemma_place_after_prefix(*idx, entries@, was, distances, k as int);
            lemma_measured_prefix(*idx, p, *distance, entries@, was, distances, k as int);
            assert(place_after(*idx, entries@, was, k as int) == place_after(
                *idx,
                entries@,
                distances,
                k as int,
            ));
        }
        match found {
            Some(f) => {
                if lends && is_double_less(dist, best_dist) {
                    match idx.string_at(f.name_id) {
                        Some(name) => {
                            best_dist = dist;
                            best_name = Some(name.to_string());
                        },
                        None => {
                            proof {
                                lemma_place_failed_at(
                                    *idx,
                                    p,
                                    *distance,
                                    entries@,
                                    distances,
                                    k + 1,
                                );
                            }
                            return Err(IndexError::OutOfRange);
                        },
                    }
                }
            },
            None => {
                proof {
                    lemma_place_failed_at(*idx, p, *distance, entries@, distances, k + 1);
                }
                return Err(IndexError::OutOfRange);
            },
        }
        k = k + 1;
    }
    assert(places_measured(*idx, p, *distance, entries@, distances));
    Ok(best_name)
}

proof fn lemma_measured_prefix<D: Fn(Position, PlaceFeature) -> u64>(
    idx: BinaryIndex,
    p: Position,
    distance: D,
    entries: Seq<u32>,
    x: Seq<u64>,
    y: Seq<u64>,
    k: int,
)
    requires
        0 <= k <= entries.len(),
        k <= x.len(),
        k <= y.len(),
        forall|i: int| 0 <= i < k ==> x[i] == y[i],
        forall|i: int|
            0 <= i < k && place_is_measured(idx, entries, x, i) ==> call_ensures(
                distance,
                (p, features_of(idx.place_features@)[entries[i] as int]),
                #[trigger] x[i],
            ),
    ensures
        forall|i: int|
            0 <= i < k && place_is_measured(idx, entries, y, i) ==> call_ensures(
                distance,
                (p, features_of(idx.place_features@)[entries[i] as int]),
                #[trigger] y[i],
            ),
{
    lemma_place_after_prefix(idx, entries, x, y, k);
    assert forall|i: int| 0 <= i < k && place_is_measured(idx, entries, y, i) implies call_ensures(
        distance,
        (p, features_of(idx.place_features@)[entries[i] as int]),
        #[trigger] y[i],
    ) by {
        assert(place_after(idx, entries, x, i) == place_after(idx, entries, y, i));
        assert(x[i] == y[i]);
    }
}

/// The place that a point takes its suburb from is nearer than the limit, no
/// other place is nearer, and no earlier one is as near. Without such a name no
/// place is nearer than the limit.
pub proof fn law_nearest_place_is_nearest(
    idx: BinaryIndex,
    entries: Seq<u32>,
    distances: Seq<u64>,
    k: int,
)
    requires
        0 <= k <= entries.len(),
        place_after(idx, entries, distances, k) is Some,
    ensures
        ({
            let (least, name) = place_after(idx, entries, distances, k)->0;
            &&& forall|i: int|
                0 <= i < k && #[trigger] place_is_measured(idx, entries, distances, i)
                    ==> !double_less(distances[i], least)
            &&& match name {
                None => least == SUBURB_SNAP_DIST_SQ,
                Some(text) => double_less(least, SUBURB_SNAP_DIST_SQ) && exists|i: int|
                    0 <= i < k && #[trigger] place_is_measured(idx, entries, distances, i)
                        && distances[i] == least && text == idx.text(
                        features_of(idx.place_features@)[entries[i] as int].name_id,
                    ) && forall|j: int|
                        0 <= j < i && #[trigger] place_is_measured(idx, entries, distances, j)
                            ==> double_less(least, distances[j]) || double_is_nan(distances[j]),
            }
        }),
    decreases k,
{
    if k > 0 {
        law_nearest_place_is_nearest(idx, entries, distances, k - 1);
        let (was, old_name) = place_after(idx, entries, distances, k - 1)->0;
        let (least, name) = place_after(idx, entries, distances, k)->0;
        if place_is_measured(idx, entries, distances, k - 1) && double_less(
            distances[k - 1],
            was,
        ) {
            assert(place_is_measured(idx, entries, distances, k - 1));
        } else if old_name is Some {
            let i = choose|i: int|
                0 <= i < k - 1 && #[trigger] place_is_measured(idx, entries, distances, i)
                    && distances[i] == was && old_name->0 == idx.text(
                    features_of(idx.place_features@)[entries[i] as int].name_id,
                ) && forall|j: int|
                    0 <= j < i && #[trigger] place_is_measured(idx, entries, distances, j)
                        ==> double_less(was, distances[j]) || double_is_nan(distances[j]);
            assert(place_is_measured(idx, entries, distances, i));
        }
    }
}

// --- The areas round a point ---

/// How a point is tested against a polygon here: a ray across the latitude,
/// and at least three corners.
pub open spec fn area_test() -> PointTest {
    PointTest { axis: Axis::Lat, least_corners: 3, refuses_empty: false }
}

/// Whether the name of every boundary can be read.
pub open spec fn names_are_there(idx: BinaryIndex, best: Seq<Option<Boundary>>) -> bool {
    forall|i: int|
        0 <= i < best.len() && (#[trigger] best[i]) is Some ==> idx.has_text(best[i]->0.name_id)
}

/// The name of the boundary at a level.
pub open spec fn level_name(
    idx: BinaryIndex,
    best: Seq<Option<Boundary>>,
    level: int,
) -> Option<Seq<char>> {
    match best[level] {
        Some(b) => Some(idx.text(b.name_id)),
        None => None,
    }
}

/// The context that the boundaries give: the country is level 2, the state 4,
/// the county 6, the city 8, and the suburb 10 or else 9.
pub open spec fn area_context(idx: BinaryIndex, best: Seq<Option<Boundary>>) -> ContextModel {
    ContextModel {
        suburb: if best[10] is Some {
            level_name(idx, best, 10)
        } else {
            level_name(idx, best, 9)
        },
        city: level_name(idx, best, 8),
        county: level_name(idx, best, 6),
        state: level_name(idx, best, 4),
        country: level_name(idx, best, 2),
    }
}

/// `r` is the context of the point, once the boundaries are chosen: that of
/// the boundaries, with the nearest place as the suburb where they give none.
/// Nothing where an entry points outside its table.
pub open spec fn context_of<D: Fn(Position, PlaceFeature) -> u64>(
    idx: BinaryIndex,
    p: Position,
    distance: D,
    best: Option<Seq<Option<Boundary>>>,
    r: Option<ContextModel>,
) -> bool {
    match best {
        None => r is None,
        Some(best) => if !names_are_there(idx, best) {
            r is None
        } else if area_context(idx, best).suburb is Some {
            r == Some(area_context(idx, best))
        } else {
            exists|place: Option<Option<Seq<char>>>| #[trigger]
                nearest_place(idx, p, distance, place) && r == match place {
                    Some(name) => Some(ContextModel { suburb: name, ..area_context(idx, best) }),
                    None => None,
                }
        },
    }
}

/// `r` is the context of the point: `crosses` decides the ray casting and
/// `distance` measures to the places.
pub open spec fn finds_admin<
    F: Fn(Position, NodeCoord, NodeCoord) -> bool,
    D: Fn(Position, PlaceFeature) -> u64,
>(idx: BinaryIndex, p: Position, crosses: F, distance: D, r: Option<ContextModel>) -> bool {
    exists|best: Option<Seq<Option<Boundary>>>| #[trigger]
        chosen(
            crosses,
            area_test(),
            p,
            nodes_of(idx.admin_vertices@),
            idx.admin_claims(cells_around(p.leaf, ADMIN_CELL_LEVEL)),
            best,
        ) && context_of(idx, p, distance, best, r)
}

/// The outcome of a search for a context.
pub open spec fn context_result(r: Result<AdminContext, IndexError>) -> Option<ContextModel> {
    match r {
        Ok(c) => Some(c@),
        Err(_) => None,
    }
}

fn read_level_name(
    idx: &BinaryIndex,
    best: &Vec<Option<Boundary>>,
    level: usize,
) -> (r: Option<String>)
    requires
        level < best@.len(),
        names_are_there(*idx, best@),
    ensures
        option_view(r) == level_name(*idx, best@, level as int),
{
    match best[level] {
        Some(b) => Some(idx.get_string(b.name_id).to_string()),
        None => None,
    }
}

fn check_names(idx: &BinaryIndex, best: &Vec<Option<Boundary>>) -> (r: bool)
    ensures
        r == names_are_there(*idx, best@),
{
    let mut i: usize = 0;
    while i < best.len()
        invariant
            i <= best@.len(),
            forall|j: int|
                0 <= j < i && (#[trigger] best@[j]) is Some ==> idx.has_text(best@[j]->0.name_id),
        decreases best@.len() - i,
    {
        if let Some(b) = best[i] {
            if idx.string_at(b.name_id).is_none() {
                assert(best@[i as int] is Some);
                return false;
            }
        }
        i = i + 1;
    }
    true
}

/// Finds the areas that a point lies in. `crosses` decides whether a ray from
/// the point meets an edge, and `distance` measures from the point to a place,
/// as a squared distance in radians.
pub fn find_admin<
    F: Fn(Position, NodeCoord, NodeCoord) -> bool,
    D: Fn(Position, PlaceFeature) -> u64,
>(p: Position, idx: &BinaryIndex, crosses: &F, distance: &D) -> (r: Result<
    AdminContext,
    IndexError,
>)
    requires
        p.is_valid(),
        forall|q: Position, a: NodeCoord, b: NodeCoord| call_requires(*crosses, (q, a, b)),
        forall|q: Position, f: PlaceFeature| call_requires(*distance, (q, f)),
    ensures
        finds_admin(*idx, p, *crosses, *distance, context_result(r)),
        r is Err ==> r->Err_0 == IndexError::OutOfRange,
{
    let cells = list_cells_around(p.leaf, ADMIN_CELL_LEVEL);
    let claims = idx.read_admin_claims(&cells);
    let test = PointTest { axis: Axis::Lat, least_corners: 3, refuses_empty: false };
    let choice = choose_boundaries(crosses, test, p, idx.admin_vertices, &claims);
    let ghost best_view = choice_view(choice);
    let best = match choice {
        Ok(best) => best,
        Err(e) => {
            assert(context_of(*idx, p, *distance, best_view, None));
            return Err(e);
        },
    };
    if !check_names(idx, &best) {
        assert(context_of(*idx, p, *distance, best_view, None));
        return Err(IndexError::OutOfRange);
    }
    let mut ctx = AdminContext {
        suburb: if best[10].is_some() {
            read_level_name(idx, &best, 10)
        } else {
            read_level_name(idx, &best, 9)
        },
        city: read_level_name(idx, &best, 8),
        county: read_level_name(idx, &best, 6),
        state: read_level_name(idx, &best, 4),
        country: read_level_name(idx, &best, 2),
    };
    assert(ctx@ == area_context(*idx, best@));
    if ctx.suburb.is_none() {
        match nearest_place_node(p, idx, distance) {
            Ok(name) => {
                ctx.suburb = name;
            },
            Err(e) => {
                assert(context_of(*idx, p, *distance, best_view, None));
                return Err(e);
            },
        }
    }
    assert(context_of(*idx, p, *distance, best_view, Some(ctx@)));
    Ok(ctx)
}

// --- The cache ---

/// The contexts found so far, by cell. All points of a cell share the context
/// of the first one that was looked up.
pub struct AdminCache {
    cache: HashMap<u64, AdminContext>,
}

impl View for AdminCache {
    type V = Map<u64, ContextModel>;

    closed spec fn view(&self) -> Map<u64, ContextModel> {
        self.cache@.map_values(|c: AdminContext| c@)
    }
}

/// A lookup of the point turns the cache from `before` into `after` and gives
/// `r`: what the cache has for the point's cell, or else the context of the
/// point, which the cache then has for the cell.
pub open spec fn cache_gives<
    F: Fn(Position, NodeCoord, NodeCoord) -> bool,
    D: Fn(Position, PlaceFeature) -> u64,
>(
    idx: BinaryIndex,
    p: Position,
    crosses: F,
    distance: D,
    before: Map<u64, ContextModel>,
    after: Map<u64, ContextModel>,
    r: Option<ContextModel>,
) -> bool {
    let cell = ancestor(p.leaf, ADMIN_CACHE_LEVEL);
    if before.contains_key(cell) {
        after == before && r == Some(before[cell])
    } else {
        &&& finds_admin(idx, p, crosses, distance, r)
        &&& after == match r {
            Some(c) => before.insert(cell, c),
            None => before,
        }
    }
}

impl AdminCache {
    /// A cache that knows nothing yet.
    pub fn new() -> (r: Self)
        ensures
            r@ == Map::<u64, ContextModel>::empty(),
    {
        let r = AdminCache { cache: HashMap::new() };
        assert(r@ =~= Map::<u64, ContextModel>::empty());
        r
    }

    /// The context of a point, from the cache where the point's cell is known.
    pub fn get<
        F: Fn(Position, NodeCoord, NodeCoord) -> bool,
        D: Fn(Position, PlaceFeature) -> u64,
    >(&mut self, p: Position, idx: &BinaryIndex, crosses: &F, distance: &D) -> (r: Result<
        AdminContext,
        IndexError,
    >)
        requires
            p.is_valid(),
            forall|q: Position, a: NodeCoord, b: NodeCoord| call_requires(*crosses, (q, a, b)),
            forall|q: Position, f: PlaceFeature| call_requires(*distance, (q, f)),
        ensures
            cache_gives(*idx, p, *crosses, *distance, old(self)@, final(self)@, context_result(r)),
            r is Err ==> r->Err_0 == IndexError::OutOfRange,
    {
        let cell: u64 = cell_id_at_level(p.leaf, ADMIN_CACHE_LEVEL);
        if let Some(ctx) = self.cache.get(&cell) {
            return Ok(ctx.clone());
        }
        let ctx = match find_admin(p, idx, crosses, distance) {
            Ok(ctx) => ctx,
            Err(e) => return Err(e),
        };
        self.cache.insert(cell, ctx.clone());
        assert(self@ =~= old(self)@.insert(cell, ctx@));
        Ok(ctx)
    }
}

/// What a lookup gave for a point, every later lookup in the same cell gives
/// too, and leaves the cache as it is.
pub proof fn law_cache_remembers<
    F: Fn(Position, NodeCoord, NodeCoord) -> bool,
    D: Fn(Position, PlaceFeature) -> u64,
>(
    idx: BinaryIndex,
    crosses: F,
    distance: D,
    p: Position,
    q: Position,
    start: Map<u64, ContextModel>,
    between: Map<u64, ContextModel>,
    end: Map<u64, ContextModel>,
    first: ContextModel,
    second: Option<ContextModel>,
)
    requires
        cache_gives(idx, p, crosses, distance, start, between, Some(first)),
        cache_gives(idx, q, crosses, distance, between, end, second),
        ancestor(p.leaf, 14) == ancestor(q.leaf, 14),
    ensures
        second == Some(first),
        end == between,
{
}

/// Whether every context in the cache is that of some point of its cell.
pub open spec fn cache_is_sound<
    F: Fn(Position, NodeCoord, NodeCoord) -> bool,
    D: Fn(Position, PlaceFeature) -> u64,
>(idx: BinaryIndex, crosses: F, distance: D, cache: Map<u64, ContextModel>) -> bool {
    forall|cell: u64| #[trigger]
        cache.contains_key(cell) ==> exists|p: Position| #[trigger]
            finds_admin(idx, p, crosses, distance, Some(cache[cell])) && ancestor(
                p.leaf,
                14,
            ) == cell
}

/// A new cache is sound, a lookup keeps a cache sound, and what it gives is the
/// context of some point of the same cell.
pub proof fn law_cache_stays_sound<
    F: Fn(Position, NodeCoord, NodeCoord) -> bool,
    D: Fn(Position, PlaceFeature) -> u64,
>(
    idx: BinaryIndex,
    crosses: F,
    distance: D,
    p: Position,
    before: Map<u64, ContextModel>,
    after: Map<u64, ContextModel>,
    r: Option<ContextModel>,
)
    requires
        cache_is_sound(idx, crosses, distance, before),
        cache_gives(idx, p, crosses, distance, before, after, r),
    ensures
        cache_is_sound(idx, crosses, distance, Map::empty()),
        cache_is_sound(idx, crosses, distance, after),
        r is Some ==> exists|q: Position| #[trigger]
            finds_admin(idx, q, crosses, distance, r) && ancestor(q.leaf, 14)
                == ancestor(p.leaf, 14),
{
    let at = ancestor(p.leaf, 14);
    assert forall|cell: u64| #[trigger] after.contains_key(cell) implies exists|q: Position|
        #[trigger]
        finds_admin(idx, q, crosses, distance, Some(after[cell])) && ancestor(
            q.leaf,
            14,
        ) == cell by {
        if before.contains_key(cell) {
            assert(after[cell] == before[cell]);
        } else {
            assert(cell == at);
            assert(finds_admin(idx, p, crosses, distance, Some(after[cell])));
        }
    }
    if before.contains_key(at) {
        assert(r == Some(before[at]));
    }
}

// --- One outcome ---

/// Whether a function of a point and a place answers always the same way.
pub open spec fn answers_places_once<D: Fn(Position, PlaceFeature) -> u64>(f: D) -> bool {
    forall|p: Position, a: PlaceFeature, x: u64, y: u64| #[trigger]
        call_ensures(f, (p, a), x) && #[trigger] call_ensures(f, (p, a), y) ==> x == y
}

proof fn lemma_place_same<D: Fn(Position, PlaceFeature) -> u64>(
    idx: BinaryIndex,
    p: Position,
    distance: D,
    entries: Seq<u32>,
    x: Seq<u64>,
    y: Seq<u64>,
    k: int,
)
    requires
        0 <= k <= entries.len(),
        answers_places_once(distance),
        places_measured(idx, p, distance, entries, x),
        places_measured(idx, p, distance, entries, y),
    ensures
        place_after(idx, entries, x, k) == place_after(idx, entries, y, k),
    decreases k,
{
    if k > 0 {
        lemma_place_same(idx, p, distance, entries, x, y, k - 1);
        if place_is_measured(idx, entries, x, k - 1) {
            assert(place_is_measured(idx, entries, y, k - 1));
            let f = features_of(idx.place_features@)[entries[k - 1] as int];
            assert(call_ensures(distance, (p, f), x[k - 1]));
            assert(call_ensures(distance, (p, f), y[k - 1]));
        }
    }
}

proof fn lemma_nearest_place_once<D: Fn(Position, PlaceFeature) -> u64>(
    idx: BinaryIndex,
    p: Position,
    distance: D,
    r: Option<Option<Seq<char>>>,
    s: Option<Option<Seq<char>>>,
)
    requires
        answers_places_once(distance),
        nearest_place(idx, p, distance, r),
        nearest_place(idx, p, distance, s),
    ensures
        r == s,
{
    let entries = idx.place_entries_in(cells_around(p.leaf, PLACE_CELL_LEVEL));
    let n = entries.len() as int;
    let x = choose|x: Seq<u64>| #[trigger]
        places_measured(idx, p, distance, entries, x) && r == match place_after(
            idx,
            entries,
            x,
            n,
        ) {
            Some(best) => Some(best.1),
            None => None,
        };
    let y = choose|y: Seq<u64>| #[trigger]
        places_measured(idx, p, distance, entries, y) && s == match place_after(
            idx,
            entries,
            y,
            n,
        ) {
            Some(best) => Some(best.1),
            None => None,
        };
    lemma_place_same(idx, p, distance, entries, x, y, n);
}

/// A point has one context, as long as `crosses` and `distance` answer always
/// the same way.
pub proof fn law_context_is_determined<
    F: Fn(Position, NodeCoord, NodeCoord) -> bool,
    D: Fn(Position, PlaceFeature) -> u64,
>(
    idx: BinaryIndex,
    p: Position,
    crosses: F,
    distance: D,
    r: Option<ContextModel>,
    s: Option<ContextModel>,
)
    requires
        answers_edges_once(crosses),
        answers_places_once(distance),
        finds_admin(idx, p, crosses, distance, r),
        finds_admin(idx, p, crosses, distance, s),
    ensures
        r == s,
{
    let nodes = nodes_of(idx.admin_vertices@);
    let claims = idx.admin_claims(cells_around(p.leaf, ADMIN_CELL_LEVEL));
    let x = choose|x: Option<Seq<Option<Boundary>>>| #[trigger]
        chosen(crosses, area_test(), p, nodes, claims, x) && context_of(idx, p, distance, x, r);
    let y = choose|y: Option<Seq<Option<Boundary>>>| #[trigger]
        chosen(crosses, area_test(), p, nodes, claims, y) && context_of(idx, p, distance, y, s);
    law_choice_is_determined(crosses, area_test(), p, nodes, claims, x, y);
    if x is Some && names_are_there(idx, x->0) && area_context(idx, x->0).suburb is None {
        let a = choose|a: Option<Option<Seq<char>>>| #[trigger]
            nearest_place(idx, p, distance, a) && r == match a {
                Some(name) => Some(ContextModel { suburb: name, ..area_context(idx, x->0) }),
                None => None,
            };
        let b = choose|b: Option<Option<Seq<char>>>| #[trigger]
            nearest_place(idx, p, distance, b) && s == match b {
                Some(name) => Some(ContextModel { suburb: name, ..area_context(idx, x->0) }),
                None => None,
            };
        lemma_nearest_place_once(idx, p, distance, a, b);
    }
}

/// A lookup in the cache has one outcome, as long as `crosses` and `distance`
/// answer always the same way.
pub proof fn law_lookup_is_determined<
    F: Fn(Position, NodeCoord, NodeCoord) -> bool,
    D: Fn(Position, PlaceFeature) -> u64,
>(
    idx: BinaryIndex,
    p: Position,
    crosses: F,
    distance: D,
    before: Map<u64, ContextModel>,
    after_r: Map<u64, ContextModel>,
    r: Option<ContextModel>,
    after_s: Map<u64, ContextModel>,
    s: Option<ContextModel>,
)
    requires
        answers_edges_once(crosses),
        answers_places_once(distance),
        cache_gives(idx, p, crosses, distance, before, after_r, r),
        cache_gives(idx, p, crosses, distance, before, after_s, s),
    ensures
        r == s,
        after_r == after_s,
{
    if !before.contains_key(ancestor(p.leaf, ADMIN_CACHE_LEVEL)) {
        law_context_is_determined(idx, p, crosses, distance, r, s);
    }
}

// --- What is listed round a point ---

/// The known names of a context go from the smallest area to the largest: suburb,
/// city, county, state, country.
pub proof fn law_names_go_from_small_to_large(c: ContextModel)
    ensures
        ({
            let n1 = if c.suburb is Some { seq![c.suburb->0] } else { seq![] };
            let n2 = if c.city is Some { n1.push(c.city->0) } else { n1 };
            let n3 = if c.county is Some { n2.push(c.county->0) } else { n2 };
            let n4 = if c.state is Some { n3.push(c.state->0) } else { n3 };
            let n5 = if c.country is Some { n4.push(c.country->0) } else { n4 };
            c.names() == n5
        }),
{
    let n1 = if c.suburb is Some { seq![c.suburb->0] } else { seq![] };
    let n2 = if c.city is Some { n1.push(c.city->0) } else { n1 };
    let n3 = if c.county is Some { n2.push(c.county->0) } else { n2 };
    let n4 = if c.state is Some { n3.push(c.state->0) } else { n3 };
    let n5 = if c.country is Some { n4.push(c.country->0) } else { n4 };
    assert(c.names() =~= n5);
}

/// Whether a feature is listed by the point's cell of the twelfth level, or by one
/// that touches it.
pub open spec fn lists_place(idx: BinaryIndex, p: Position, id: u32) -> bool {
    let own = ancestor(p.leaf, 12);
    exists|cell: u64|
        (cell == own || touching_cells(own, 12).contains(cell)) && #[trigger] entry_ids(
            idx.place_entries@,
            cell_offset(idx.place_cells@, cell),
        ).contains(id)
}

/// Whether a listed feature can lend a point its name as the suburb, and is at the
/// distance `d` from it.
pub open spec fn may_lend<D: Fn(Position, PlaceFeature) -> u64>(
    idx: BinaryIndex,
    p: Position,
    distance: D,
    id: u32,
    d: u64,
) -> bool {
    let features = features_of(idx.place_features@);
    &&& lists_place(idx, p, id)
    &&& id < features.len()
    &&& features[id as int].feature_type == 1
    &&& features[id as int].name_id != 0xFFFF_FFFF
    &&& call_ensures(distance, (p, features[id as int]), d)
}

proof fn lemma_cell_is_around(
    table: Seq<u8>,
    entries: Seq<u8>,
    leaf: u64,
    level: u64,
    id: u32,
)
    ensures
        all_entry_ids(entries, cell_offsets(table, cells_around(leaf, level))).contains(id) <==> {
            let own = ancestor(leaf, level);
            exists|cell: u64|
                (cell == own || touching_cells(own, level).contains(cell)) && #[trigger] entry_ids(
                    entries,
                    cell_offset(table, cell),
                ).contains(id)
        },
{
    let own = ancestor(leaf, level);
    let touching = touching_cells(own, level);
    let cells = cells_around(leaf, level);
    let offsets = cell_offsets(table, cells);
    lemma_entry_is_listed(entries, offsets, id);
    if all_entry_ids(entries, offsets).contains(id) {
        let j = choose|j: int|
            0 <= j < offsets.len() && entry_ids(entries, #[trigger] offsets[j]).contains(id);
        let cell = cells[j];
        assert(offsets[j] == cell_offset(table, cell));
        assert(cell == own || touching[j - 1] == cell);
        assert(entry_ids(entries, cell_offset(table, cell)).contains(id));
    }
    if exists|cell: u64|
        (cell == own || touching.contains(cell)) && #[trigger] entry_ids(
            entries,
            cell_offset(table, cell),
        ).contains(id) {
        let cell = choose|cell: u64|
            (cell == own || touching.contains(cell)) && #[trigger] entry_ids(
                entries,
                cell_offset(table, cell),
            ).contains(id);
        let j = if cell == own {
            0
        } else {
            1 + choose|j: int| 0 <= j < touching.len() && touching[j] == cell
        };
        assert(cells[j] == cell);
        assert(offsets[j] == cell_offset(table, cell));
    }
}

/// The name that a point takes from a place is that of a listed suburb within the
/// limit, the square of 500 / 111320, and no listed suburb is nearer; without such a
/// name none is within the limit. The search fails only where an entry, or the name
/// of a suburb, is outside its table.
pub proof fn law_no_listed_suburb_is_nearer<D: Fn(Position, PlaceFeature) -> u64>(
    idx: BinaryIndex,
    p: Position,
    distance: D,
    r: Option<Option<Seq<char>>>,
)
    requires
        answers_places_once(distance),
        nearest_place(idx, p, distance, r),
    ensures
        match r {
            Some(Some(name)) => exists|id: u32, d: u64| #[trigger]
                may_lend(idx, p, distance, id, d) && double_less(d, 0x3E3A_64E9_1F5B_913F) && name
                    == idx.text(features_of(idx.place_features@)[id as int].name_id) && forall|
                    other: u32,
                    e: u64,
                | #[trigger]
                    may_lend(idx, p, distance, other, e) ==> !double_less(e, d),
            Some(None) => forall|other: u32, e: u64| #[trigger]
                may_lend(idx, p, distance, other, e) ==> !double_less(e, 0x3E3A_64E9_1F5B_913F),
            None => exists|id: u32| #[trigger]
                lists_place(idx, p, id) && (id >= features_of(idx.place_features@).len() || {
                    let f = features_of(idx.place_features@)[id as int];
                    f.feature_type == 1 && f.name_id != 0xFFFF_FFFF && f.name_id
                        > idx.strings@.len()
                }),
        },
        r is Some ==> forall|id: u32| #[trigger]
            lists_place(idx, p, id) ==> id < features_of(idx.place_features@).len(),
{
    let entries = idx.place_entries_in(cells_around(p.leaf, PLACE_CELL_LEVEL));
    let features = features_of(idx.place_features@);
    let n = entries.len() as int;
    let x = choose|x: Seq<u64>| #[trigger]
        places_measured(idx, p, distance, entries, x) && r == match place_after(
            idx,
            entries,
            x,
            n,
        ) {
            Some(best) => Some(best.1),
            None => None,
        };
    assert forall|id: u32| #[trigger] lists_place(idx, p, id) == entries.contains(id) by {
        lemma_cell_is_around(idx.place_cells@, idx.place_entries@, p.leaf, 12, id);
    }
    if r is None {
        let i = lemma_place_stop(idx, entries, x, n);
        assert(entries.contains(entries[i]));
        assert(lists_place(idx, p, entries[i]));
    } else {
        law_nearest_place_is_nearest(idx, entries, x, n);
        let (least, name) = place_after(idx, entries, x, n)->0;
        assert forall|i: int| 0 <= i < n implies #[trigger] place_after(idx, entries, x, i) is Some
            && entries[i] < features.len() by {
            if place_after(idx, entries, x, i) is None {
                lemma_place_none_stays(idx, entries, x, i, n);
                assert(place_after(idx, entries, x, n) is None);
            }
            if place_after(idx, entries, x, i + 1) is None {
                lemma_place_none_stays(idx, entries, x, i + 1, n);
                assert(place_after(idx, entries, x, n) is None);
            }
        }
        assert forall|id: u32| #[trigger] lists_place(idx, p, id) implies id < features.len() by {
            let k = choose|k: int| 0 <= k < n && entries[k] == id;
            assert(place_after(idx, entries, x, k) is Some);
        }
        assert forall|other: u32, e: u64| #[trigger]
            may_lend(idx, p, distance, other, e) implies !double_less(e, least) by {
            let k = choose|k: int| 0 <= k < n && entries[k] == other;
            assert(place_after(idx, entries, x, k) is Some);
            assert(place_is_measured(idx, entries, x, k));
            assert(call_ensures(distance, (p, features[entries[k] as int]), x[k]));
        }
        if let Some(text) = name {
            let i = choose|i: int|
                0 <= i < n && #[trigger] place_is_measured(idx, entries, x, i) && x[i] == least
                    && text == idx.text(features[entries[i] as int].name_id);
            assert(entries.contains(entries[i]));
            assert(lists_place(idx, p, entries[i]));
            assert(call_ensures(distance, (p, features[entries[i] as int]), x[i]));
            assert(may_lend(idx, p, distance, entries[i], least));
        }
    }
}

proof fn lemma_place_stop(
    idx: BinaryIndex,
    entries: Seq<u32>,
    distances: Seq<u64>,
    k: int,
) -> (i: int)
    requires
        0 <= k <= entries.len(),
        place_after(idx, entries, distances, k) is None,
    ensures
        0 <= i < k,
        entries[i] >= features_of(idx.place_features@).len() || {
            let f = features_of(idx.place_features@)[entries[i] as int];
            is_suburb_node(f) && !idx.has_text(f.name_id)
        },
    decreases k,
{
    if place_after(idx, entries, distances, k - 1) is None {
        lemma_place_stop(idx, entries, distances, k - 1)
    } else {
        k - 1
    }
}

/// Whether an area is listed for a point, by its own cell of the tenth level or by
/// one that touches it, and counts as holding the point: the cell is listed as lying
/// inside, or the area has three corners or more and a ray from the point across the
/// latitude meets the whole polygon an odd number of times.
pub open spec fn is_listed_round<F: Fn(Position, NodeCoord, NodeCoord) -> bool>(
    idx: BinaryIndex,
    p: Position,
    crosses: F,
    a: AdminPolygon,
) -> bool {
    let own = ancestor(p.leaf, 10);
    let polygons = polygons_of(idx.admin_polygons@);
    let nodes = nodes_of(idx.admin_vertices@);
    exists|cell: u64, entry: u32|
        (cell == own || touching_cells(own, 10).contains(cell)) && #[trigger] entry_ids(
            idx.admin_entries@,
            cell_offset(idx.admin_cells@, cell),
        ).contains(entry) && entry as int % 0x8000_0000 < polygons.len() && a == polygons[entry
            as int % 0x8000_0000] && (entry >= 0x8000_0000 || (a.vertex_count >= 3
            && a.vertex_offset + a.vertex_count <= nodes.len() && casts_to(
            crosses,
            Axis::Lat,
            p,
            nodes.subrange(a.vertex_offset as int, a.vertex_offset + a.vertex_count),
            true,
        )))
}

/// Whether a name is that of a smallest area of a level that is listed for a point
/// and holds it, or there is no name and no such area.
pub open spec fn names_the_smallest<F: Fn(Position, NodeCoord, NodeCoord) -> bool>(
    idx: BinaryIndex,
    p: Position,
    crosses: F,
    level: u8,
    name: Option<Seq<char>>,
) -> bool {
    match name {
        Some(text) => exists|a: AdminPolygon| #[trigger]
            is_listed_round(idx, p, crosses, a) && a.admin_level == level && text == idx.text(
                a.name_id,
            ) && forall|c: AdminPolygon| #[trigger]
                is_listed_round(idx, p, crosses, c) && c.admin_level == level ==> single_rank(a.area)
                    <= single_rank(c.area),
        None => forall|c: AdminPolygon| #[trigger]
            is_listed_round(idx, p, crosses, c) ==> c.admin_level != level,
    }
}

proof fn lemma_listed_claim<F: Fn(Position, NodeCoord, NodeCoord) -> bool>(
    idx: BinaryIndex,
    p: Position,
    crosses: F,
    a: AdminPolygon,
) -> (i: int)
    requires
        is_listed_round(idx, p, crosses, a),
    ensures
        ({
            let claims = idx.admin_claims(cells_around(p.leaf, ADMIN_CELL_LEVEL));
            &&& 0 <= i < claims.len()
            &&& claims[i].boundary == Some(a.as_boundary())
            &&& claim_holds(crosses, area_test(), p, nodes_of(idx.admin_vertices@), claims[i])
        }),
{
    let own = ancestor(p.leaf, 10);
    let polygons = polygons_of(idx.admin_polygons@);
    let nodes = nodes_of(idx.admin_vertices@);
    let (cell, entry) = choose|cell: u64, entry: u32|
        (cell == own || touching_cells(own, 10).contains(cell)) && #[trigger] entry_ids(
            idx.admin_entries@,
            cell_offset(idx.admin_cells@, cell),
        ).contains(entry) && entry as int % 0x8000_0000 < polygons.len() && a == polygons[entry
            as int % 0x8000_0000] && (entry >= 0x8000_0000 || (a.vertex_count >= 3
            && a.vertex_offset + a.vertex_count <= nodes.len() && casts_to(
            crosses,
            Axis::Lat,
            p,
            nodes.subrange(a.vertex_offset as int, a.vertex_offset + a.vertex_count),
            true,
        )));
    lemma_cell_is_around(idx.admin_cells@, idx.admin_entries@, p.leaf, 10, entry);
    let entries = all_entry_ids(
        idx.admin_entries@,
        cell_offsets(idx.admin_cells@, cells_around(p.leaf, 10)),
    );
    assert(entry_ids(idx.admin_entries@, cell_offset(idx.admin_cells@, cell)).contains(entry));
    assert(entries.contains(entry));
    let i = choose|i: int| 0 <= i < entries.len() && entries[i] == entry;
    assert(boundaries_of(idx.admin_polygons@)[entry as int % 0x8000_0000] == a.as_boundary());
    i
}

proof fn lemma_claim_is_listed<F: Fn(Position, NodeCoord, NodeCoord) -> bool>(
    idx: BinaryIndex,
    p: Position,
    crosses: F,
    i: int,
) -> (a: AdminPolygon)
    requires
        ({
            let claims = idx.admin_claims(cells_around(p.leaf, ADMIN_CELL_LEVEL));
            &&& 0 <= i < claims.len()
            &&& claim_holds(crosses, area_test(), p, nodes_of(idx.admin_vertices@), claims[i])
        }),
    ensures
        is_listed_round(idx, p, crosses, a),
        idx.admin_claims(cells_around(p.leaf, ADMIN_CELL_LEVEL))[i].boundary == Some(
            a.as_boundary(),
        ),
{
    let own = ancestor(p.leaf, 10);
    let entries = all_entry_ids(
        idx.admin_entries@,
        cell_offsets(idx.admin_cells@, cells_around(p.leaf, 10)),
    );
    let entry = entries[i];
    assert(entries.contains(entry));
    lemma_cell_is_around(idx.admin_cells@, idx.admin_entries@, p.leaf, 10, entry);
    let cell = choose|cell: u64|
        (cell == own || touching_cells(own, 10).contains(cell)) && #[trigger] entry_ids(
            idx.admin_entries@,
            cell_offset(idx.admin_cells@, cell),
        ).contains(entry);
    assert(entry_ids(idx.admin_entries@, cell_offset(idx.admin_cells@, cell)).contains(entry));
    let a = polygons_of(idx.admin_polygons@)[entry as int % 0x8000_0000];
    assert(boundaries_of(idx.admin_polygons@)[entry as int % 0x8000_0000] == a.as_boundary());
    a
}

/// The context of a point is named by the smallest areas that are listed for it and
/// hold it: the country by level 2, the state by level 4, the county by level 6 and
/// the city by level 8, each where there is one; and the suburb by level 10, else by
/// level 9, else by the nearest listed suburb. This needs areas that are numbers, and
/// a `crosses` that answers always the same way.
pub proof fn law_context_names_the_smallest_areas<
    F: Fn(Position, NodeCoord, NodeCoord) -> bool,
    D: Fn(Position, PlaceFeature) -> u64,
>(idx: BinaryIndex, p: Position, crosses: F, distance: D, c: ContextModel)
    requires
        answers_edges_once(crosses),
        forall|i: int|
            0 <= i < polygons_of(idx.admin_polygons@).len() ==> !single_is_nan(
                (#[trigger] polygons_of(idx.admin_polygons@)[i]).area,
            ),
        finds_admin(idx, p, crosses, distance, Some(c)),
    ensures
        names_the_smallest(idx, p, crosses, 2, c.country),
        names_the_smallest(idx, p, crosses, 4, c.state),
        names_the_smallest(idx, p, crosses, 6, c.county),
        names_the_smallest(idx, p, crosses, 8, c.city),
        if exists|a: AdminPolygon| #[trigger]
            is_listed_round(idx, p, crosses, a) && a.admin_level == 10 {
            c.suburb is Some && names_the_smallest(idx, p, crosses, 10, c.suburb)
        } else if exists|a: AdminPolygon| #[trigger]
            is_listed_round(idx, p, crosses, a) && a.admin_level == 9 {
            c.suburb is Some && names_the_smallest(idx, p, crosses, 9, c.suburb)
        } else {
            nearest_place(idx, p, distance, Some(c.suburb))
        },
{
    let claims = idx.admin_claims(cells_around(p.leaf, ADMIN_CELL_LEVEL));
    let nodes = nodes_of(idx.admin_vertices@);
    let polygons = polygons_of(idx.admin_polygons@);
    let choice = choose|best: Option<Seq<Option<Boundary>>>| #[trigger]
        chosen(crosses, area_test(), p, nodes, claims, best) && context_of(
            idx,
            p,
            distance,
            best,
            Some(c),
        );
    let best = choice->0;
    let entries = all_entry_ids(
        idx.admin_entries@,
        cell_offsets(idx.admin_cells@, cells_around(p.leaf, ADMIN_CELL_LEVEL)),
    );
    assert forall|i: int| 0 <= i < claims.len() && (#[trigger] claims[i]).boundary is Some implies
        !single_is_nan(claims[i].boundary->0.area) by {
        let a = polygons[entries[i] as int % 0x8000_0000];
        assert(!single_is_nan(a.area));
    }
    law_choice_is_a_smallest_that_holds(crosses, area_test(), p, nodes, claims, best);
    assert forall|a: AdminPolygon| #[trigger] is_listed_round(idx, p, crosses, a) && a.admin_level
        < 12 implies best[a.admin_level as int] is Some && single_rank(
        best[a.admin_level as int]->0.area,
    ) <= single_rank(a.area) by {
        let i = lemma_listed_claim(idx, p, crosses, a);
        assert(claims[i].boundary == Some(a.as_boundary()));
    }
    assert forall|level: u8| level < 12 implies #[trigger] names_the_smallest(
        idx,
        p,
        crosses,
        level,
        level_name(idx, best, level as int),
    ) by {
        if best[level as int] is Some {
            let i = choose|i: int|
                0 <= i < claims.len() && (#[trigger] claims[i]).boundary == best[level as int]
                    && claim_holds(crosses, area_test(), p, nodes, claims[i]);
            let a = lemma_claim_is_listed(idx, p, crosses, i);
            assert(is_listed_round(idx, p, crosses, a));
        }
    }
    assert(names_the_smallest(idx, p, crosses, 2, level_name(idx, best, 2)));
    assert(names_the_smallest(idx, p, crosses, 4, level_name(idx, best, 4)));
    assert(names_the_smallest(idx, p, crosses, 6, level_name(idx, best, 6)));
    assert(names_the_smallest(idx, p, crosses, 8, level_name(idx, best, 8)));
    assert(names_the_smallest(idx, p, crosses, 9, level_name(idx, best, 9)));
    assert(names_the_smallest(idx, p, crosses, 10, level_name(idx, best, 10)));
    if area_context(idx, best).suburb is None {
        let place = choose|place: Option<Option<Seq<char>>>| #[trigger]
            nearest_place(idx, p, distance, place) && Some(c) == match place {
                Some(name) => Some(ContextModel { suburb: name, ..area_context(idx, best) }),
                None => None,
            };
        assert(place == Some(c.suburb));
    }
}

/// The context of a point is had wherever every listed entry leads into its table,
/// every area has its corners in the table, and every area and every suburb has its
/// name there.
pub proof fn law_contexts_are_had_from_a_sound_index<
    F: Fn(Position, NodeCoord, NodeCoord) -> bool,
    D: Fn(Position, PlaceFeature) -> u64,
>(idx: BinaryIndex, p: Position, crosses: F, distance: D, r: Option<ContextModel>)
    requires
        answers_places_once(distance),
        finds_admin(idx, p, crosses, distance, r),
        forall|cell: u64, entry: u32| #[trigger]
            entry_ids(idx.admin_entries@, cell_offset(idx.admin_cells@, cell)).contains(entry)
                ==> entry as int % 0x8000_0000 < polygons_of(idx.admin_polygons@).len(),
        forall|i: int|
            0 <= i < polygons_of(idx.admin_polygons@).len() ==> {
                let a = #[trigger] polygons_of(idx.admin_polygons@)[i];
                &&& a.vertex_offset + a.vertex_count <= nodes_of(idx.admin_vertices@).len()
                &&& a.name_id <= idx.strings@.len()
            },
        forall|id: u32| #[trigger]
            lists_place(idx, p, id) ==> id < features_of(idx.place_features@).len(),
        forall|i: int|
            0 <= i < features_of(idx.place_features@).len() ==> {
                let f = #[trigger] features_of(idx.place_features@)[i];
                f.feature_type == 1 && f.name_id != 0xFFFF_FFFF ==> f.name_id <= idx.strings@.len()
            },
    ensures
        r is Some,
{
    let cells = cells_around(p.leaf, ADMIN_CELL_LEVEL);
    let claims = idx.admin_claims(cells);
    let nodes = nodes_of(idx.admin_vertices@);
    let polygons = polygons_of(idx.admin_polygons@);
    let table = boundaries_of(idx.admin_polygons@);
    let choice = choose|best: Option<Seq<Option<Boundary>>>| #[trigger]
        chosen(crosses, area_test(), p, nodes, claims, best) && context_of(
            idx,
            p,
            distance,
            best,
            r,
        );
    let entries = all_entry_ids(idx.admin_entries@, cell_offsets(idx.admin_cells@, cells));
    assert forall|i: int| 0 <= i < claims.len() implies (#[trigger] claims[i]).boundary is Some && {
        let b = claims[i].boundary->0;
        &&& b.vertex_offset + b.vertex_count <= nodes.len()
        &&& b.name_id <= idx.strings@.len()
    } by {
        let entry = entries[i];
        assert(entries.contains(entry));
        lemma_cell_is_around(idx.admin_cells@, idx.admin_entries@, p.leaf, 10, entry);
        let a = polygons[entry as int % 0x8000_0000];
        assert(table[entry as int % 0x8000_0000] == a.as_boundary());
    }
    law_choice_fails_only_on_malformed_claims(crosses, area_test(), p, nodes, claims, choice);
    let best = choice->0;
    law_choice_is_by_level(crosses, area_test(), p, nodes, claims, best);
    assert forall|level: int|
        0 <= level < best.len() && (#[trigger] best[level]) is Some implies idx.has_text(
        best[level]->0.name_id,
    ) by {
        let i = law_chosen_polygons_are_claimed(
            crosses,
            area_test(),
            p,
            nodes,
            claims,
            best,
            level,
        );
        assert(claims[i].boundary is Some);
    }
    if area_context(idx, best).suburb is None {
        let place = choose|place: Option<Option<Seq<char>>>| #[trigger]
            nearest_place(idx, p, distance, place) && r == match place {
                Some(name) => Some(ContextModel { suburb: name, ..area_context(idx, best) }),
                None => None,
            };
        law_no_listed_suburb_is_nearer(idx, p, distance, place);
        if place is None {
            let id = choose|id: u32| #[trigger]
                lists_place(idx, p, id) && (id >= features_of(idx.place_features@).len() || {
                    let f = features_of(idx.place_features@)[id as int];
                    f.feature_type == 1 && f.name_id != 0xFFFF_FFFF && f.name_id
                        > idx.strings@.len()
                });
            assert(id < features_of(idx.place_features@).len());
            assert(false);
        }
    }
}

} // verus!
