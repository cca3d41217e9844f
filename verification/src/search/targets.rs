//! The places that the full-text index lists: areas, named places and points
//! of interest, and streets.
use crate::bytes::{IndexError, NO_DATA};
use crate::cells::{ancestor, cell_id_at_level};
use crate::geometry::{nodes_of, read_stretch, stretch, NodeCoord, Position};
use crate::ieee::{is_single_at_least, single_at_least, single_is_nan, single_rank};
use crate::search::binary::{
    features_of, polygons_of, ways_of, AdminPolygon, BinaryIndex, PlaceFeature, WayHeader,
};
use std::collections::HashMap;
use vstd::prelude::*;

verus! {

/// A place to list.
pub struct Target<'a> {
    pub name: &'a str,
    pub at: Position,
    pub kind: &'static str,
    /// The double-precision pattern of the weight.
    pub importance: u64,
    /// The administrative level, of an area.
    pub level: Option<u8>,
}

/// A place to list, as characters.
#[verifier::ext_equal]
pub struct TargetModel {
    pub name: Seq<char>,
    pub at: Position,
    pub kind: Seq<char>,
    pub importance: u64,
    pub level: Option<u8>,
}

impl<'a> View for Target<'a> {
    type V = TargetModel;

    open spec fn view(&self) -> TargetModel {
        TargetModel {
            name: self.name@,
            at: self.at,
            kind: self.kind@,
            importance: self.importance,
            level: self.level,
        }
    }
}

/// The places of a list, as characters.
pub open spec fn target_views(targets: Seq<Target>) -> Seq<TargetModel> {
    targets.map_values(|t: Target| t@)
}

/// Whether every place lies on the sphere.
pub open spec fn all_valid(targets: Seq<TargetModel>) -> bool {
    forall|i: int| 0 <= i < targets.len() ==> (#[trigger] targets[i]).at.is_valid()
}

/// The outcome of a listing.
pub open spec fn target_result(r: Result<Vec<Target>, IndexError>) -> Option<Seq<TargetModel>> {
    match r {
        Ok(v) => Some(target_views(v@)),
        Err(_) => None,
    }
}

// --- Areas ---

/// Whether areas of a level are listed.
pub open spec fn is_listed_level(level: u8) -> bool {
    level == 4 || level == 6 || level == 8 || level == 9 || level == 10
}

/// What an area of a level is.
pub open spec fn level_kind(level: u8) -> Seq<char> {
    if level == 4 {
        "state"@
    } else if level == 6 {
        "county"@
    } else if level == 8 {
        "city"@
    } else {
        "suburb"@
    }
}

/// The weight of an area of a level, as a double-precision pattern: 4 for a
/// city, 3 for a county, 2.5 for a state and 1.5 for a suburb.
pub open spec fn level_importance(level: u8) -> u64 {
    if level == 8 {
        0x4010_0000_0000_0000
    } else if level == 6 {
        0x4008_0000_0000_0000
    } else if level == 4 {
        0x4004_0000_0000_0000
    } else {
        0x3FF8_0000_0000_0000
    }
}

/// Where an area is: a point, and the degrees that it lies in.
#[derive(Clone, Copy, Debug)]
pub struct Spot {
    pub at: Position,
    pub degrees: (i16, i16),
}

/// What came of looking for the place of an area.
#[derive(Clone, Copy, Debug)]
pub enum Sighting {
    /// The area is not listed.
    Skipped,
    /// The area points outside its table.
    Broken,
    Seen(Spot),
}

/// Whether an area is of a level that is listed, and has a name.
pub open spec fn is_listed(poly: AdminPolygon) -> bool {
    is_listed_level(poly.admin_level) && poly.name_id != NO_DATA
}

/// The corners that an area is placed by: its first ones, at most 64.
pub open spec fn placing_corners(idx: BinaryIndex, poly: AdminPolygon) -> Option<Seq<NodeCoord>> {
    stretch(
        nodes_of(idx.admin_vertices@),
        poly.vertex_offset as int,
        if poly.vertex_count < 64 {
            poly.vertex_count as int
        } else {
            64
        },
    )
}

/// `at` is what `centroid` answered for some points.
pub open spec fn centroid_told<C: Fn(&Vec<NodeCoord>) -> Position>(
    centroid: C,
    points: Seq<NodeCoord>,
    at: Position,
) -> bool {
    exists|v: Vec<NodeCoord>| v@ == points && #[trigger] call_ensures(centroid, (&v,), at)
}

/// `s` is what came of looking for the place of an area.
pub open spec fn area_sighted<
    C: Fn(&Vec<NodeCoord>) -> Position,
    W: Fn(Position) -> (i16, i16),
>(idx: BinaryIndex, centroid: C, whole_degrees: W, poly: AdminPolygon, s: Sighting) -> bool {
    if !is_listed(poly) {
        s is Skipped
    } else {
        match placing_corners(idx, poly) {
            None => s is Broken,
            Some(corners) => match s {
                Sighting::Seen(spot) => centroid_told(centroid, corners, spot.at) && call_ensures(
                    whole_degrees,
                    (spot.at,),
                    spot.degrees,
                ),
                _ => false,
            },
        }
    }
}

/// `sightings` is what came of looking for the place of each area.
pub open spec fn areas_sighted<
    C: Fn(&Vec<NodeCoord>) -> Position,
    W: Fn(Position) -> (i16, i16),
>(idx: BinaryIndex, centroid: C, whole_degrees: W, sightings: Seq<Sighting>) -> bool {
    let polygons = polygons_of(idx.admin_polygons@);
    &&& sightings.len() == polygons.len()
    &&& forall|k: int|
        0 <= k < polygons.len() ==> area_sighted(
            idx,
            centroid,
            whole_degrees,
            polygons[k],
            #[trigger] sightings[k],
        )
}

/// What areas are told apart by: name, level, and the degrees that they lie in.
pub open spec fn area_key(poly: AdminPolygon, degrees: (i16, i16)) -> u128 {
    (poly.name_id * 0x100_0000_0000 + poly.admin_level * 0x1_0000_0000 + (degrees.0 + 0x8000)
        * 0x1_0000 + (degrees.1 + 0x8000)) as u128
}

/// Two areas have the same key only if they have the same name, level and
/// degrees.
pub proof fn law_area_keys_tell_apart(
    a: AdminPolygon,
    a_degrees: (i16, i16),
    b: AdminPolygon,
    b_degrees: (i16, i16),
)
    requires
        area_key(a, a_degrees) == area_key(b, b_degrees),
    ensures
        a.name_id == b.name_id,
        a.admin_level == b.admin_level,
        a_degrees == b_degrees,
{
}

/// The state of a listing of areas: the least area so far for each key, and the
/// places listed.
#[verifier::ext_equal]
pub struct AreaScan {
    pub least: Map<u128, u32>,
    pub listed: Seq<TargetModel>,
}

/// The place to list for an area.
pub open spec fn area_target(idx: BinaryIndex, poly: AdminPolygon, spot: Spot) -> TargetModel {
    TargetModel {
        name: idx.text(poly.name_id),
        at: spot.at,
        kind: level_kind(poly.admin_level),
        importance: level_importance(poly.admin_level),
        level: Some(poly.admin_level),
    }
}

/// The listing after one more area: one that is not smaller than an earlier one
/// of the same key is passed over, as is one without a name. Nothing where the
/// name cannot be read.
pub open spec fn scan_area(
    idx: BinaryIndex,
    scan: AreaScan,
    poly: AdminPolygon,
    spot: Spot,
) -> Option<AreaScan> {
    let key = area_key(poly, spot.degrees);
    if scan.least.contains_key(key) && single_at_least(poly.area, scan.least[key]) {
        Some(scan)
    } else if !idx.has_text(poly.name_id) {
        None
    } else {
        Some(
            AreaScan {
                least: scan.least.insert(key, poly.area),
                listed: if idx.text(poly.name_id).len() == 0 {
                    scan.listed
                } else {
                    scan.listed.push(area_target(idx, poly, spot))
                },
            },
        )
    }
}

/// The listing after the first `k` areas. Nothing once one has pointed outside
/// its table.
pub open spec fn areas_after(
    idx: BinaryIndex,
    polygons: Seq<AdminPolygon>,
    sightings: Seq<Sighting>,
    k: int,
) -> Option<AreaScan>
    decreases k,
{
    if k <= 0 {
        Some(AreaScan { least: Map::empty(), listed: seq![] })
    } else {
        match (areas_after(idx, polygons, sightings, k - 1), sightings[k - 1]) {
            (None, _) => None,
            (_, Sighting::Broken) => None,
            (Some(scan), Sighting::Skipped) => Some(scan),
            (Some(scan), Sighting::Seen(spot)) => scan_area(idx, scan, polygons[k - 1], spot),
        }
    }
}

/// `r` is the areas to list. Nothing where one points outside its table.
pub open spec fn areas_listed<
    C: Fn(&Vec<NodeCoord>) -> Position,
    W: Fn(Position) -> (i16, i16),
>(idx: BinaryIndex, centroid: C, whole_degrees: W, r: Option<Seq<TargetModel>>) -> bool {
    let polygons = polygons_of(idx.admin_polygons@);
    exists|sightings: Seq<Sighting>| #[trigger]
        areas_sighted(idx, centroid, whole_degrees, sightings) && r == match areas_after(
            idx,
            polygons,
            sightings,
            polygons.len() as int,
        ) {
            Some(scan) => Some(scan.listed),
            None => None,
        }
}

fn sight_areas<C: Fn(&Vec<NodeCoord>) -> Position, W: Fn(Position) -> (i16, i16)>(
    idx: &BinaryIndex,
    centroid: &C,
    whole_degrees: &W,
    polygons: &Vec<AdminPolygon>,
) -> (r: Vec<Sighting>)
    requires
        polygons@ == polygons_of(idx.admin_polygons@),
        forall|v: Vec<NodeCoord>| #[trigger] call_requires(*centroid, (&v,)),
        forall|p: Position| call_requires(*whole_degrees, (p,)),
    ensures
        areas_sighted(*idx, *centroid, *whole_degrees, r@),
{
    let mut sightings: Vec<Sighting> = Vec::new();
    let mut k: usize = 0;
    while k < polygons.len()
        invariant
            forall|v: Vec<NodeCoord>| #[trigger] call_requires(*centroid, (&v,)),
            forall|p: Position| call_requires(*whole_degrees, (p,)),
            k <= polygons@.len(),
            sightings@.len() == k,
            forall|i: int|
                0 <= i < k ==> area_sighted(
                    *idx,
                    *centroid,
                    *whole_degrees,
                    polygons@[i],
                    #[trigger] sightings@[i],
                ),
        decreases polygons@.len() - k,
    {
        let poly = polygons[k];
        let level: u8 = poly.admin_level;
        let listed: bool = (level == 4 || level == 6 || level == 8 || level == 9 || level == 10)
            && poly.name_id != NO_DATA;
        let sighting = if !listed {
            Sighting::Skipped
        } else {
            let count: usize = if poly.vertex_count < 64 {
                poly.vertex_count as usize
            } else {
                64
            };
            match read_stretch(idx.admin_vertices, poly.vertex_offset as usize, count) {
                Some(corners) => {
                    let at = centroid(&corners);
                    assert(centroid_told(*centroid, corners@, at));
                    Sighting::Seen(Spot { at, degrees: whole_degrees(at) })
                },
                None => Sighting::Broken,
            }
        };
        sightings.push(sighting);
        k = k + 1;
    }
    sightings
}

fn key_of_area(poly: &AdminPolygon, degrees: (i16, i16)) -> (r: u128)
    ensures
        r == area_key(*poly, degrees),
{
    let high: u32 = (degrees.0 as i32 + 0x8000) as u32;
    let low: u32 = (degrees.1 as i32 + 0x8000) as u32;
    poly.name_id as u128 * 0x100_0000_0000 + poly.admin_level as u128 * 0x1_0000_0000 + high as u128
        * 0x1_0000 + low as u128
}

fn kind_of_level(level: u8) -> (r: &'static str)
    ensures
        r@ == level_kind(level),
{
    if level == 4 {
        "state"
    } else if level == 6 {
        "county"
    } else if level == 8 {
        "city"
    } else {
        "suburb"
    }
}

fn importance_of_level(level: u8) -> (r: u64)
    ensures
        r == level_importance(level),
{
    if level == 8 {
        0x4010_0000_0000_0000
    } else if level == 6 {
        0x4008_0000_0000_0000
    } else if level == 4 {
        0x4004_0000_0000_0000
    } else {
        0x3FF8_0000_0000_0000
    }
}

/// Whether `other` has the same areas as `idx`, but for corners that none of them
/// is placed by.
pub open spec fn same_but_for_later_corners(idx: BinaryIndex, other: BinaryIndex) -> bool {
    let polygons = polygons_of(idx.admin_polygons@);
    &&& other.admin_polygons@ == idx.admin_polygons@
    &&& other.strings@ == idx.strings@
    &&& forall|i: int|
        0 <= i < polygons.len() ==> placing_corners(other, #[trigger] polygons[i])
            == placing_corners(idx, polygons[i])
}

proof fn lemma_areas_after_by_tables(
    idx: BinaryIndex,
    other: BinaryIndex,
    polygons: Seq<AdminPolygon>,
    sightings: Seq<Sighting>,
    k: int,
)
    requires
        other.strings@ == idx.strings@,
    ensures
        areas_after(other, polygons, sightings, k) == areas_after(idx, polygons, sightings, k),
    decreases k,
{
    if k > 0 {
        lemma_areas_after_by_tables(idx, other, polygons, sightings, k - 1);
    }
}

proof fn lemma_areas_listed_by_tables<
    C: Fn(&Vec<NodeCoord>) -> Position,
    W: Fn(Position) -> (i16, i16),
>(
    idx: BinaryIndex,
    other: BinaryIndex,
    centroid: C,
    whole_degrees: W,
    r: Option<Seq<TargetModel>>,
)
    requires
        same_but_for_later_corners(idx, other),
        areas_listed(idx, centroid, whole_degrees, r),
    ensures
        areas_listed(other, centroid, whole_degrees, r),
{
    let polygons = polygons_of(idx.admin_polygons@);
    let n = polygons.len() as int;
    let x = choose|x: Seq<Sighting>| #[trigger]
        areas_sighted(idx, centroid, whole_degrees, x) && r == match areas_after(
            idx,
            polygons,
            x,
            n,
        ) {
            Some(scan) => Some(scan.listed),
            None => None,
        };
    assert(areas_sighted(other, centroid, whole_degrees, x)) by {
        assert forall|k: int| 0 <= k < n implies area_sighted(
            other,
            centroid,
            whole_degrees,
            polygons[k],
            #[trigger] x[k],
        ) by {
            assert(area_sighted(idx, centroid, whole_degrees, polygons[k], x[k]));
            assert(placing_corners(other, polygons[k]) == placing_corners(idx, polygons[k]));
        }
    }
    lemma_areas_after_by_tables(idx, other, polygons, x, n);
}

/// An area is listed the same, whatever its corners behind the first 64 are.
pub proof fn law_later_corners_do_not_place_areas<
    C: Fn(&Vec<NodeCoord>) -> Position,
    W: Fn(Position) -> (i16, i16),
>(
    idx: BinaryIndex,
    other: BinaryIndex,
    centroid: C,
    whole_degrees: W,
    r: Option<Seq<TargetModel>>,
)
    requires
        same_but_for_later_corners(idx, other),
    ensures
        areas_listed(other, centroid, whole_degrees, r) <==> areas_listed(
            idx,
            centroid,
            whole_degrees,
            r,
        ),
{
    if areas_listed(idx, centroid, whole_degrees, r) {
        lemma_areas_listed_by_tables(idx, other, centroid, whole_degrees, r);
    }
    if areas_listed(other, centroid, whole_degrees, r) {
        lemma_areas_listed_by_tables(other, idx, centroid, whole_degrees, r);
    }
}

proof fn lemma_areas_none_stays(
    idx: BinaryIndex,
    polygons: Seq<AdminPolygon>,
    sightings: Seq<Sighting>,
    k: int,
    n: int,
)
    requires
        0 <= k <= n,
        areas_after(idx, polygons, sightings, k) is None,
    ensures
        areas_after(idx, polygons, sightings, n) is None,
    decreases n - k,
{
    if k < n {
        assert(areas_after(idx, polygons, sightings, k + 1) is None);
        lemma_areas_none_stays(idx, polygons, sightings, k + 1, n);
    }
}

/// Lists the areas. `centroid` gives the middle of some points, and
/// `whole_degrees` the degrees that a point lies in.
pub fn list_areas<'a, C: Fn(&Vec<NodeCoord>) -> Position, W: Fn(Position) -> (i16, i16)>(
    idx: &BinaryIndex<'a>,
    centroid: &C,
    whole_degrees: &W,
) -> (r: Result<Vec<Target<'a>>, IndexError>)
    requires
        forall|v: Vec<NodeCoord>| #[trigger] call_requires(*centroid, (&v,)),
        forall|v: Vec<NodeCoord>, p: Position| #[trigger]
            call_ensures(*centroid, (&v,), p) ==> p.is_valid(),
        forall|p: Position| call_requires(*whole_degrees, (p,)),
    ensures
        areas_listed(*idx, *centroid, *whole_degrees, target_result(r)),
        r is Ok ==> all_valid(target_views(r->Ok_0@)),
        r is Err ==> r->Err_0 == IndexError::OutOfRange,
{
    let polygons = idx.polygons();
    let sightings = sight_areas(idx, centroid, whole_degrees, &polygons);
    let mut least: HashMap<u128, u32> = HashMap::new();
    let mut listed: Vec<Target> = Vec::new();
    let ghost n = polygons@.len() as int;
    assert(target_views(listed@) =~= seq![]);
    assert(least@ =~= Map::empty());
    let mut k: usize = 0;
    while k < polygons.len()
        invariant
            n == polygons@.len(),
            sightings@.len() == n,
            polygons@ == polygons_of(idx.admin_polygons@),
            areas_sighted(*idx, *centroid, *whole_degrees, sightings@),
            forall|v: Vec<NodeCoord>, p: Position| #[trigger]
                call_ensures(*centroid, (&v,), p) ==> p.is_valid(),
            all_valid(target_views(listed@)),
            k <= n,
            areas_after(*idx, polygons@, sightings@, k as int) == Some(
                AreaScan { least: least@, listed: target_views(listed@) },
            ),
        decreases n - k,
    {
        match sightings[k] {
            Sighting::Skipped => {},
            Sighting::Broken => {
                proof {
                    lemma_areas_none_stays(*idx, polygons@, sightings@, k + 1, n);
                }
                return Err(IndexError::OutOfRange);
            },
            Sighting::Seen(spot) => {
                let poly = polygons[k];
                let key: u128 = key_of_area(&poly, spot.degrees);
                let passed: bool = match least.get(&key) {
                    Some(area) => is_single_at_least(poly.area, *area),
                    None => false,
                };
                if !passed {
                    match idx.string_at(poly.name_id) {
                        Some(name) => {
                            least.insert(key, poly.area);
                            if !name.is_empty() {
                                let ghost was = listed@;
                                let target = Target {
                                    name,
                                    at: spot.at,
                                    kind: kind_of_level(poly.admin_level),
                                    importance: importance_of_level(poly.admin_level),
                                    level: Some(poly.admin_level),
                                };
                                listed.push(target);
                                assert(target_views(listed@) =~= target_views(was).push(target@));
                            }
                        },
                        None => {
                            proof {
                                lemma_areas_none_stays(*idx, polygons@, sightings@, k + 1, n);
                            }
                            return Err(IndexError::OutOfRange);
                        },
                    }
                }
            },
        }
        k = k + 1;
    }
    Ok(listed)
}

/// Whether area `i` was seen, and has the key.
pub open spec fn has_key(
    polygons: Seq<AdminPolygon>,
    sightings: Seq<Sighting>,
    i: int,
    key: u128,
) -> bool {
    match sightings[i] {
        Sighting::Seen(spot) => area_key(polygons[i], spot.degrees) == key,
        _ => false,
    }
}

/// Of the areas with one key the smallest is listed, if it has a name: its size
/// is the one that is kept for the key, and no other is smaller. This needs
/// sizes that are numbers.
pub proof fn law_smallest_area_is_listed(
    idx: BinaryIndex,
    polygons: Seq<AdminPolygon>,
    sightings: Seq<Sighting>,
    k: int,
)
    requires
        0 <= k <= polygons.len(),
        areas_after(idx, polygons, sightings, k) is Some,
        forall|i: int| 0 <= i < k ==> !single_is_nan((#[trigger] polygons[i]).area),
    ensures
        ({
            let scan = areas_after(idx, polygons, sightings, k)->0;
            &&& forall|i: int, key: u128|
                0 <= i < k && #[trigger] has_key(polygons, sightings, i, key)
                    ==> scan.least.contains_key(key) && single_rank(scan.least[key])
                    <= single_rank(polygons[i].area)
            &&& forall|key: u128| #[trigger]
                scan.least.contains_key(key) ==> exists|i: int|
                    0 <= i < k && #[trigger] has_key(polygons, sightings, i, key)
                        && polygons[i].area == scan.least[key] && (idx.text(
                        polygons[i].name_id,
                    ).len() == 0 || scan.listed.contains(
                        area_target(idx, polygons[i], sightings[i]->Seen_0),
                    ))
        }),
    decreases k,
{
    if k > 0 {
        law_smallest_area_is_listed(idx, polygons, sightings, k - 1);
        let before = areas_after(idx, polygons, sightings, k - 1)->0;
        let after = areas_after(idx, polygons, sightings, k)->0;
        let poly = polygons[k - 1];
        assert(!single_is_nan(poly.area));
        assert(forall|t: TargetModel| #[trigger]
            before.listed.contains(t) ==> after.listed.contains(t)) by {
            assert forall|t: TargetModel| #[trigger] before.listed.contains(t) implies
                after.listed.contains(t) by {
                let j = choose|j: int| 0 <= j < before.listed.len() && before.listed[j] == t;
                assert(after.listed[j] == t);
            }
        }
        assert(forall|key: u128| #[trigger]
            before.least.contains_key(key) ==> !single_is_nan(before.least[key])) by {
            assert forall|key: u128| #[trigger] before.least.contains_key(key) implies
                !single_is_nan(before.least[key]) by {
                let i = choose|i: int|
                    0 <= i < k - 1 && #[trigger] has_key(polygons, sightings, i, key)
                        && polygons[i].area == before.least[key];
                assert(!single_is_nan(polygons[i].area));
            }
        }
        assert forall|key: u128| #[trigger] after.least.contains_key(key) implies exists|i: int|
            0 <= i < k && #[trigger] has_key(polygons, sightings, i, key) && polygons[i].area
                == after.least[key] && (idx.text(polygons[i].name_id).len() == 0
                || after.listed.contains(area_target(idx, polygons[i], sightings[i]->Seen_0))) by {
            if after.least == before.least || !has_key(polygons, sightings, k - 1, key) {
                assert(before.least.contains_key(key) && before.least[key] == after.least[key]);
                let i = choose|i: int|
                    0 <= i < k - 1 && #[trigger] has_key(polygons, sightings, i, key)
                        && polygons[i].area == before.least[key] && (idx.text(
                        polygons[i].name_id,
                    ).len() == 0 || before.listed.contains(
                        area_target(idx, polygons[i], sightings[i]->Seen_0),
                    ));
                assert(has_key(polygons, sightings, i, key));
            } else {
                assert(has_key(polygons, sightings, k - 1, key));
                if idx.text(poly.name_id).len() > 0 {
                    assert(after.listed.last() == area_target(
                        idx,
                        poly,
                        sightings[k - 1]->Seen_0,
                    ));
                }
            }
        }
    }
}

// --- Places ---

/// Whether a feature is listed.
pub open spec fn is_listed_feature(f: PlaceFeature) -> bool {
    f.feature_type != 0 && f.name_id != NO_DATA
}

/// The place to list for a feature: a suburb of weight 1.2, or a point of
/// interest of weight 1.
pub open spec fn feature_target(idx: BinaryIndex, f: PlaceFeature, at: Position) -> TargetModel {
    TargetModel {
        name: idx.text(f.name_id),
        at,
        kind: if f.feature_type == 1 {
            "suburb"@
        } else {
            "poi"@
        },
        importance: if f.feature_type == 1 {
            0x3FF3_3333_3333_3333
        } else {
            0x3FF0_0000_0000_0000
        },
        level: None,
    }
}

/// The places listed after the first `k` features; `spots[i]` is where feature
/// `i` is. Nothing once a name cannot be read.
pub open spec fn features_after(
    idx: BinaryIndex,
    features: Seq<PlaceFeature>,
    spots: Seq<Position>,
    k: int,
) -> Option<Seq<TargetModel>>
    decreases k,
{
    if k <= 0 {
        Some(seq![])
    } else {
        match features_after(idx, features, spots, k - 1) {
            None => None,
            Some(listed) => {
                let f = features[k - 1];
                if !is_listed_feature(f) {
                    Some(listed)
                } else if !idx.has_text(f.name_id) {
                    None
                } else if idx.text(f.name_id).len() == 0 {
                    Some(listed)
                } else {
                    Some(listed.push(feature_target(idx, f, spots[k - 1])))
                }
            },
        }
    }
}

/// `spots` holds what `place_at` answered for each feature.
pub open spec fn features_sighted<A: Fn(PlaceFeature) -> Position>(
    place_at: A,
    features: Seq<PlaceFeature>,
    spots: Seq<Position>,
) -> bool {
    &&& spots.len() == features.len()
    &&& forall|k: int|
        0 <= k < features.len() ==> call_ensures(place_at, (features[k],), #[trigger] spots[k])
}

/// `r` is the named places to list. Nothing where a name cannot be read.
pub open spec fn features_listed<A: Fn(PlaceFeature) -> Position>(
    idx: BinaryIndex,
    place_at: A,
    r: Option<Seq<TargetModel>>,
) -> bool {
    let features = features_of(idx.place_features@);
    exists|spots: Seq<Position>| #[trigger]
        features_sighted(place_at, features, spots) && r == features_after(
            idx,
            features,
            spots,
            features.len() as int,
        )
}

proof fn lemma_features_none_stays(
    idx: BinaryIndex,
    features: Seq<PlaceFeature>,
    spots: Seq<Position>,
    k: int,
    n: int,
)
    requires
        0 <= k <= n,
        features_after(idx, features, spots, k) is None,
    ensures
        features_after(idx, features, spots, n) is None,
    decreases n - k,
{
    if k < n {
        assert(features_after(idx, features, spots, k + 1) is None);
        lemma_features_none_stays(idx, features, spots, k + 1, n);
    }
}

fn sight_features<A: Fn(PlaceFeature) -> Position>(
    place_at: &A,
    features: &Vec<PlaceFeature>,
) -> (r: Vec<Position>)
    requires
        forall|f: PlaceFeature| call_requires(*place_at, (f,)),
    ensures
        features_sighted(*place_at, features@, r@),
{
    let mut spots: Vec<Position> = Vec::new();
    let mut k: usize = 0;
    while k < features.len()
        invariant
            forall|f: PlaceFeature| call_requires(*place_at, (f,)),
            k <= features@.len(),
            spots@.len() == k,
            forall|i: int|
                0 <= i < k ==> call_ensures(*place_at, (features@[i],), #[trigger] spots@[i]),
        decreases features@.len() - k,
    {
        let at = place_at(features[k]);
        spots.push(at);
        k = k + 1;
    }
    spots
}

/// Lists the named places and points of interest. `place_at` tells where one
/// is.
pub fn list_features<'a, A: Fn(PlaceFeature) -> Position>(
    idx: &BinaryIndex<'a>,
    place_at: &A,
) -> (r: Result<Vec<Target<'a>>, IndexError>)
    requires
        forall|f: PlaceFeature| call_requires(*place_at, (f,)),
        forall|f: PlaceFeature, p: Position| #[trigger]
            call_ensures(*place_at, (f,), p) ==> p.is_valid(),
    ensures
        features_listed(*idx, *place_at, target_result(r)),
        r is Ok ==> all_valid(target_views(r->Ok_0@)),
        r is Err ==> r->Err_0 == IndexError::OutOfRange,
{
    let features = idx.place_features();
    let spots = sight_features(place_at, &features);
    let mut listed: Vec<Target> = Vec::new();
    let ghost n = features@.len() as int;
    assert(target_views(listed@) =~= seq![]);
    let mut k: usize = 0;
    while k < features.len()
        invariant
            n == features@.len(),
            spots@.len() == n,
            features@ == features_of(idx.place_features@),
            features_sighted(*place_at, features@, spots@),
            forall|f: PlaceFeature, p: Position| #[trigger]
                call_ensures(*place_at, (f,), p) ==> p.is_valid(),
            all_valid(target_views(listed@)),
            k <= n,
            features_after(*idx, features@, spots@, k as int) == Some(target_views(listed@)),
        decreases n - k,
    {
        let f = features[k];
        if f.feature_type != 0 && f.name_id != NO_DATA {
            match idx.string_at(f.name_id) {
                Some(name) => {
                    if !name.is_empty() {
                        let ghost was = listed@;
                        let target = if f.feature_type == 1 {
                            Target {
                                name,
                                at: spots[k],
                                kind: "suburb",
                                importance: 0x3FF3_3333_3333_3333,
                                level: None,
                            }
                        } else {
                            Target {
                                name,
                                at: spots[k],
                                kind: "poi",
                                importance: 0x3FF0_0000_0000_0000,
                                level: None,
                            }
                        };
                        listed.push(target);
                        assert(target_views(listed@) =~= target_views(was).push(target@));
                    }
                },
                None => {
                    proof {
                        lemma_features_none_stays(*idx, features@, spots@, k + 1, n);
                    }
                    return Err(IndexError::OutOfRange);
                },
            }
        }
        k = k + 1;
    }
    Ok(listed)
}

// --- Streets ---

/// The cell level within which the ways of one name are one street.
pub const STREET_MERGE_LEVEL: u64 = 10;

/// The ways of one name in one cell: where each is, and how many points it has.
pub struct Bucket {
    pub name_id: u32,
    pub cell: u64,
    pub parts: Vec<(Position, u8)>,
}

/// The ways of one name in one cell: where each is, and how many points it has.
#[verifier::ext_equal]
pub struct BucketModel {
    pub name_id: u32,
    pub cell: u64,
    pub parts: Seq<(Position, u8)>,
}

impl View for Bucket {
    type V = BucketModel;

    open spec fn view(&self) -> BucketModel {
        BucketModel { name_id: self.name_id, cell: self.cell, parts: self.parts@ }
    }
}

/// The buckets of a list.
pub open spec fn bucket_views(buckets: Seq<Bucket>) -> Seq<BucketModel> {
    buckets.map_values(|b: Bucket| b@)
}

/// `spot` tells where a way is, if it is listed: it has a name, and the table
/// has all its points.
pub open spec fn way_sighted<C: Fn(&Vec<NodeCoord>) -> Position>(
    idx: BinaryIndex,
    centroid: C,
    way: WayHeader,
    spot: Option<Position>,
) -> bool {
    let line = stretch(
        nodes_of(idx.street_nodes@),
        way.node_offset as int,
        way.node_count as int,
    );
    if way.name_id == NO_DATA || line is None {
        spot is None
    } else {
        spot is Some && centroid_told(centroid, line->0, spot->0)
    }
}

/// `spots` tells where each way is.
pub open spec fn ways_sighted<C: Fn(&Vec<NodeCoord>) -> Position>(
    idx: BinaryIndex,
    centroid: C,
    spots: Seq<Option<Position>>,
) -> bool {
    let ways = ways_of(idx.street_ways@);
    &&& spots.len() == ways.len()
    &&& forall|k: int|
        0 <= k < ways.len() ==> way_sighted(idx, centroid, ways[k], #[trigger] spots[k])
}

/// The bucket for a name and a cell, if there is one.
pub open spec fn bucket_of(buckets: Seq<BucketModel>, name_id: u32, cell: u64) -> Option<int>
    decreases buckets.len(),
{
    if buckets.len() == 0 {
        None
    } else if buckets.last().name_id == name_id && buckets.last().cell == cell {
        Some(buckets.len() - 1)
    } else {
        bucket_of(buckets.drop_last(), name_id, cell)
    }
}

/// The buckets with one more way: it goes to the bucket for its name and cell,
/// or to a new one at the end.
pub open spec fn with_way(
    buckets: Seq<BucketModel>,
    way: WayHeader,
    at: Position,
) -> Seq<BucketModel> {
    let cell = ancestor(at.leaf, STREET_MERGE_LEVEL);
    match bucket_of(buckets, way.name_id, cell) {
        Some(i) => buckets.update(
            i,
            BucketModel { parts: buckets[i].parts.push((at, way.node_count)), ..buckets[i] },
        ),
        None => buckets.push(
            BucketModel { name_id: way.name_id, cell, parts: seq![(at, way.node_count)] },
        ),
    }
}

/// The buckets after the first `k` ways.
pub open spec fn buckets_after(
    ways: Seq<WayHeader>,
    spots: Seq<Option<Position>>,
    k: int,
) -> Seq<BucketModel>
    decreases k,
{
    if k <= 0 {
        seq![]
    } else {
        match spots[k - 1] {
            Some(at) => with_way(buckets_after(ways, spots, k - 1), ways[k - 1], at),
            None => buckets_after(ways, spots, k - 1),
        }
    }
}

/// Whether no two buckets are for the same name and cell.
pub open spec fn buckets_differ(buckets: Seq<BucketModel>) -> bool {
    forall|i: int, j: int|
        0 <= i < j < buckets.len() ==> (#[trigger] buckets[i]).name_id != (
        #[trigger] buckets[j]).name_id || buckets[i].cell != buckets[j].cell
}

proof fn lemma_bucket_of(buckets: Seq<BucketModel>, name_id: u32, cell: u64)
    ensures
        match bucket_of(buckets, name_id, cell) {
            Some(i) => 0 <= i < buckets.len() && buckets[i].name_id == name_id && buckets[i].cell
                == cell,
            None => forall|i: int|
                0 <= i < buckets.len() ==> (#[trigger] buckets[i]).name_id != name_id
                    || buckets[i].cell != cell,
        },
    decreases buckets.len(),
{
    if buckets.len() > 0 {
        lemma_bucket_of(buckets.drop_last(), name_id, cell);
        if bucket_of(buckets, name_id, cell) is None {
            assert forall|i: int| 0 <= i < buckets.len() implies (#[trigger] buckets[i]).name_id
                != name_id || buckets[i].cell != cell by {
                if i < buckets.len() - 1 {
                    assert(buckets[i] == buckets.drop_last()[i]);
                }
            }
        }
    }
}

/// The number of ways in the buckets.
pub open spec fn ways_in(buckets: Seq<BucketModel>) -> nat
    decreases buckets.len(),
{
    if buckets.len() == 0 {
        0
    } else {
        ways_in(buckets.drop_last()) + buckets.last().parts.len()
    }
}

/// The number of the first `k` ways that are listed.
pub open spec fn listed_ways(spots: Seq<Option<Position>>, k: int) -> nat
    decreases k,
{
    if k <= 0 {
        0
    } else {
        listed_ways(spots, k - 1) + if spots[k - 1] is Some {
            1nat
        } else {
            0nat
        }
    }
}

proof fn lemma_ways_in_update(buckets: Seq<BucketModel>, i: int, b: BucketModel)
    requires
        0 <= i < buckets.len(),
    ensures
        ways_in(buckets.update(i, b)) + buckets[i].parts.len() == ways_in(buckets) + b.parts.len(),
    decreases buckets.len(),
{
    let after = buckets.update(i, b);
    if i == buckets.len() - 1 {
        assert(after.drop_last() =~= buckets.drop_last());
    } else {
        assert(after.drop_last() =~= buckets.drop_last().update(i, b));
        lemma_ways_in_update(buckets.drop_last(), i, b);
    }
}

/// Streets are merged by name and cell: no two buckets have both the same,
/// every way that is listed is in a bucket with its name and its cell, and
/// there are as many ways in the buckets as are listed.
pub proof fn law_streets_are_merged(
    ways: Seq<WayHeader>,
    spots: Seq<Option<Position>>,
    k: int,
)
    requires
        0 <= k <= ways.len(),
    ensures
        buckets_differ(buckets_after(ways, spots, k)),
        ways_in(buckets_after(ways, spots, k)) == listed_ways(spots, k),
        forall|i: int|
            0 <= i < k && (#[trigger] spots[i]) is Some ==> exists|b: int|
                0 <= b < buckets_after(ways, spots, k).len() && {
                    let bucket = #[trigger] buckets_after(ways, spots, k)[b];
                    &&& bucket.name_id == ways[i].name_id
                    &&& bucket.cell == ancestor(spots[i]->0.leaf, STREET_MERGE_LEVEL)
                    &&& bucket.parts.contains((spots[i]->0, ways[i].node_count))
                },
    decreases k,
{
    if k > 0 {
        law_streets_are_merged(ways, spots, k - 1);
        let before = buckets_after(ways, spots, k - 1);
        let after = buckets_after(ways, spots, k);
        if spots[k - 1] is Some {
            let at = spots[k - 1]->0;
            let cell = ancestor(at.leaf, STREET_MERGE_LEVEL);
            lemma_bucket_of(before, ways[k - 1].name_id, cell);
            let own = match bucket_of(before, ways[k - 1].name_id, cell) {
                Some(i) => i,
                None => before.len() as int,
            };
            assert(after[own].parts.last() == (at, ways[k - 1].node_count));
            if own < before.len() {
                lemma_ways_in_update(before, own, after[own]);
            } else {
                assert(after.drop_last() =~= before);
            }
            assert forall|i: int| 0 <= i < k && (#[trigger] spots[i]) is Some implies exists|b: int|
                0 <= b < after.len() && {
                    let bucket = #[trigger] after[b];
                    &&& bucket.name_id == ways[i].name_id
                    &&& bucket.cell == ancestor(spots[i]->0.leaf, STREET_MERGE_LEVEL)
                    &&& bucket.parts.contains((spots[i]->0, ways[i].node_count))
                } by {
                if i == k - 1 {
                    assert(after[own].parts.contains((at, ways[i].node_count)));
                } else {
                    let part = (spots[i]->0, ways[i].node_count);
                    let b = choose|b: int|
                        0 <= b < before.len() && {
                            let bucket = #[trigger] before[b];
                            &&& bucket.name_id == ways[i].name_id
                            &&& bucket.cell == ancestor(spots[i]->0.leaf, STREET_MERGE_LEVEL)
                            &&& bucket.parts.contains(part)
                        };
                    let at_part = choose|j: int|
                        0 <= j < before[b].parts.len() && before[b].parts[j] == part;
                    assert(after[b].parts[at_part] == part);
                    assert(after[b].parts.contains(part));
                }
            }
        }
    }
}

/// `at` is what `merge` answered for the parts of a street.
pub open spec fn merge_told<M: Fn(&Vec<(Position, u8)>) -> Position>(
    merge: M,
    parts: Seq<(Position, u8)>,
    at: Position,
) -> bool {
    exists|v: Vec<(Position, u8)>| v@ == parts && #[trigger] call_ensures(merge, (&v,), at)
}

/// `spots` holds what `merge` answered for each street.
pub open spec fn streets_merged<M: Fn(&Vec<(Position, u8)>) -> Position>(
    merge: M,
    buckets: Seq<BucketModel>,
    spots: Seq<Position>,
) -> bool {
    &&& spots.len() == buckets.len()
    &&& forall|k: int|
        0 <= k < buckets.len() ==> merge_told(merge, buckets[k].parts, #[trigger] spots[k])
}

/// The streets listed after the first `k` buckets; `spots[i]` is where street
/// `i` is. Nothing once a name cannot be read.
pub open spec fn streets_after(
    idx: BinaryIndex,
    buckets: Seq<BucketModel>,
    spots: Seq<Position>,
    k: int,
) -> Option<Seq<TargetModel>>
    decreases k,
{
    if k <= 0 {
        Some(seq![])
    } else {
        match streets_after(idx, buckets, spots, k - 1) {
            None => None,
            Some(listed) => {
                let name_id = buckets[k - 1].name_id;
                if !idx.has_text(name_id) {
                    None
                } else if idx.text(name_id).len() == 0 {
                    Some(listed)
                } else {
                    Some(
                        listed.push(
                            TargetModel {
                                name: idx.text(name_id),
                                at: spots[k - 1],
                                kind: "street"@,
                                importance: 0x3FF0_0000_0000_0000,
                                level: None,
                            },
                        ),
                    )
                }
            },
        }
    }
}

/// `r` is the streets to list, one for each bucket.
pub open spec fn bucket_streets<M: Fn(&Vec<(Position, u8)>) -> Position>(
    idx: BinaryIndex,
    merge: M,
    buckets: Seq<BucketModel>,
    r: Option<Seq<TargetModel>>,
) -> bool {
    exists|merged: Seq<Position>| #[trigger]
        streets_merged(merge, buckets, merged) && r == streets_after(
            idx,
            buckets,
            merged,
            buckets.len() as int,
        )
}

/// `r` is the streets to list. Nothing where a name cannot be read.
pub open spec fn streets_listed<
    C: Fn(&Vec<NodeCoord>) -> Position,
    M: Fn(&Vec<(Position, u8)>) -> Position,
>(idx: BinaryIndex, centroid: C, merge: M, r: Option<Seq<TargetModel>>) -> bool {
    let ways = ways_of(idx.street_ways@);
    exists|spots: Seq<Option<Position>>| #[trigger]
        ways_sighted(idx, centroid, spots) && bucket_streets(
            idx,
            merge,
            buckets_after(ways, spots, ways.len() as int),
            r,
        )
}

fn sight_ways<C: Fn(&Vec<NodeCoord>) -> Position>(
    idx: &BinaryIndex,
    centroid: &C,
    ways: &Vec<WayHeader>,
) -> (r: Vec<Option<Position>>)
    requires
        ways@ == ways_of(idx.street_ways@),
        forall|v: Vec<NodeCoord>| #[trigger] call_requires(*centroid, (&v,)),
    ensures
        ways_sighted(*idx, *centroid, r@),
{
    let mut spots: Vec<Option<Position>> = Vec::new();
    let mut k: usize = 0;
    while k < ways.len()
        invariant
            forall|v: Vec<NodeCoord>| #[trigger] call_requires(*centroid, (&v,)),
            k <= ways@.len(),
            spots@.len() == k,
            forall|i: int|
                0 <= i < k ==> way_sighted(*idx, *centroid, ways@[i], #[trigger] spots@[i]),
        decreases ways@.len() - k,
    {
        let way = ways[k];
        let spot = if way.name_id == NO_DATA {
            None
        } else {
            match read_stretch(
                idx.street_nodes,
                way.node_offset as usize,
                way.node_count as usize,
            ) {
                Some(line) => {
                    let at = centroid(&line);
                    assert(centroid_told(*centroid, line@, at));
                    Some(at)
                },
                None => None,
            }
        };
        spots.push(spot);
        k = k + 1;
    }
    spots
}

/// What streets are told apart by.
pub open spec fn street_key(name_id: u32, cell: u64) -> u128 {
    (name_id * 0x1_0000_0000_0000_0000 + cell) as u128
}

/// Whether `places` tells for every bucket, and for nothing else, where it is
/// in the list.
spec fn places_buckets(places: Map<u128, usize>, buckets: Seq<BucketModel>) -> bool {
    &&& forall|key: u128| #[trigger]
        places.contains_key(key) ==> places[key] < buckets.len() && street_key(
            buckets[places[key] as int].name_id,
            buckets[places[key] as int].cell,
        ) == key
    &&& forall|i: int|
        0 <= i < buckets.len() ==> {
            let key = street_key((#[trigger] buckets[i]).name_id, buckets[i].cell);
            places.contains_key(key) && places[key] == i
        }
}

fn fill_buckets(ways: &Vec<WayHeader>, spots: &Vec<Option<Position>>) -> (r: Vec<Bucket>)
    requires
        spots@.len() == ways@.len(),
    ensures
        bucket_views(r@) == buckets_after(ways@, spots@, ways@.len() as int),
{
    let mut buckets: Vec<Bucket> = Vec::new();
    let mut places: HashMap<u128, usize> = HashMap::new();
    assert(bucket_views(buckets@) =~= seq![]);
    let mut k: usize = 0;
    while k < ways.len()
        invariant
            spots@.len() == ways@.len(),
            k <= ways@.len(),
            bucket_views(buckets@) == buckets_after(ways@, spots@, k as int),
            places_buckets(places@, bucket_views(buckets@)),
        decreases ways@.len() - k,
    {
        if let Some(at) = spots[k] {
            let way = ways[k];
            let cell: u64 = cell_id_at_level(at.leaf, STREET_MERGE_LEVEL);
            let key: u128 = way.name_id as u128 * 0x1_0000_0000_0000_0000 + cell as u128;
            let ghost before = bucket_views(buckets@);
            let ghost places_were = places@;
            let ghost list_was = buckets@;
            assert(key == street_key(way.name_id, cell));
            proof {
                lemma_bucket_of(before, way.name_id, cell);
            }
            let found: Option<usize> = match places.get(&key) {
                Some(i) => Some(*i),
                None => None,
            };
            match found {
                Some(i) => {
                    assert(bucket_of(before, way.name_id, cell) == Some(i as int));
                    buckets[i].parts.push((at, way.node_count));
                    assert(bucket_views(buckets@) =~= with_way(before, way, at));
                },
                None => {
                    assert(bucket_of(before, way.name_id, cell) is None);
                    places.insert(key, buckets.len());
                    let bucket = Bucket {
                        name_id: way.name_id,
                        cell,
                        parts: vec![(at, way.node_count)],
                    };
                    assert(bucket@.parts =~= seq![(at, way.node_count)]);
                    buckets.push(bucket);
                    assert(bucket_views(buckets@) =~= with_way(before, way, at));
                },
            }
            assert(places_buckets(places@, bucket_views(buckets@)));
        }
        k = k + 1;
    }
    buckets
}

fn merge_buckets<M: Fn(&Vec<(Position, u8)>) -> Position>(merge: &M, buckets: &Vec<Bucket>) -> (r:
    Vec<Position>)
    requires
        forall|v: Vec<(Position, u8)>| #[trigger] call_requires(*merge, (&v,)),
    ensures
        streets_merged(*merge, bucket_views(buckets@), r@),
{
    let mut spots: Vec<Position> = Vec::new();
    let mut k: usize = 0;
    while k < buckets.len()
        invariant
            forall|v: Vec<(Position, u8)>| #[trigger] call_requires(*merge, (&v,)),
            k <= buckets@.len(),
            spots@.len() == k,
            forall|i: int|
                0 <= i < k ==> merge_told(*merge, buckets@[i].parts@, #[trigger] spots@[i]),
        decreases buckets@.len() - k,
    {
        let at = merge(&buckets[k].parts);
        assert(merge_told(*merge, buckets@[k as int].parts@, at));
        spots.push(at);
        k = k + 1;
    }
    spots
}

proof fn lemma_streets_none_stays(
    idx: BinaryIndex,
    buckets: Seq<BucketModel>,
    spots: Seq<Position>,
    k: int,
    n: int,
)
    requires
        0 <= k <= n,
        streets_after(idx, buckets, spots, k) is None,
    ensures
        streets_after(idx, buckets, spots, n) is None,
    decreases n - k,
{
    if k < n {
        assert(streets_after(idx, buckets, spots, k + 1) is None);
        lemma_streets_none_stays(idx, buckets, spots, k + 1, n);
    }
}

/// Lists the streets, in the order in which the first way of each comes.
/// `centroid` gives the middle of some points, and `merge` the middle of some
/// ways, given the middle of each and its number of points.
pub fn list_streets<
    'a,
    C: Fn(&Vec<NodeCoord>) -> Position,
    M: Fn(&Vec<(Position, u8)>) -> Position,
>(idx: &BinaryIndex<'a>, centroid: &C, merge: &M) -> (r: Result<Vec<Target<'a>>, IndexError>)
    requires
        forall|v: Vec<NodeCoord>| #[trigger] call_requires(*centroid, (&v,)),
        forall|v: Vec<(Position, u8)>| #[trigger] call_requires(*merge, (&v,)),
        forall|v: Vec<(Position, u8)>, p: Position| #[trigger]
            call_ensures(*merge, (&v,), p) ==> p.is_valid(),
    ensures
        streets_listed(*idx, *centroid, *merge, target_result(r)),
        r is Ok ==> all_valid(target_views(r->Ok_0@)),
        r is Err ==> r->Err_0 == IndexError::OutOfRange,
{
    let ways = idx.ways();
    let spots = sight_ways(idx, centroid, &ways);
    let buckets = fill_buckets(&ways, &spots);
    let merged = merge_buckets(merge, &buckets);
    let ghost views = bucket_views(buckets@);
    let ghost n = views.len() as int;
    let mut listed: Vec<Target> = Vec::new();
    assert(target_views(listed@) =~= seq![]);
    let mut k: usize = 0;
    while k < buckets.len()
        invariant
            views == bucket_views(buckets@),
            n == buckets@.len(),
            merged@.len() == n,
            ways@ == ways_of(idx.street_ways@),
            ways_sighted(*idx, *centroid, spots@),
            views == buckets_after(ways@, spots@, ways@.len() as int),
            streets_merged(*merge, views, merged@),
            forall|v: Vec<(Position, u8)>, p: Position| #[trigger]
                call_ensures(*merge, (&v,), p) ==> p.is_valid(),
            all_valid(target_views(listed@)),
            k <= n,
            streets_after(*idx, views, merged@, k as int) == Some(target_views(listed@)),
        decreases n - k,
    {
        assert(views[k as int].name_id == buckets@[k as int].name_id);
        match idx.string_at(buckets[k].name_id) {
            Some(name) => {
                if !name.is_empty() {
                    let ghost was = listed@;
                    let target = Target {
                        name,
                        at: merged[k],
                        kind: "street",
                        importance: 0x3FF0_0000_0000_0000,
                        level: None,
                    };
                    listed.push(target);
                    assert(target_views(listed@) =~= target_views(was).push(target@));
                }
            },
            None => {
                proof {
                    lemma_streets_none_stays(*idx, views, merged@, k + 1, n);
                    assert(bucket_streets(*idx, *merge, views, None));
                }
                return Err(IndexError::OutOfRange);
            },
        }
        k = k + 1;
    }
    assert(bucket_streets(*idx, *merge, views, Some(target_views(listed@))));
    Ok(listed)
}

// --- One outcome ---

/// Whether a function of some points answers always the same way.
pub open spec fn answers_middles_once<C: Fn(&Vec<NodeCoord>) -> Position>(f: C) -> bool {
    forall|v: Vec<NodeCoord>, w: Vec<NodeCoord>, x: Position, y: Position|
        v@ == w@ && #[trigger] call_ensures(f, (&v,), x) && #[trigger] call_ensures(f, (&w,), y)
            ==> x == y
}

/// Whether a function of some ways answers always the same way.
pub open spec fn answers_merges_once<M: Fn(&Vec<(Position, u8)>) -> Position>(f: M) -> bool {
    forall|v: Vec<(Position, u8)>, w: Vec<(Position, u8)>, x: Position, y: Position|
        v@ == w@ && #[trigger] call_ensures(f, (&v,), x) && #[trigger] call_ensures(f, (&w,), y)
            ==> x == y
}

/// Whether a function of a point answers always the same way.
pub open spec fn answers_degrees_once<W: Fn(Position) -> (i16, i16)>(f: W) -> bool {
    forall|p: Position, x: (i16, i16), y: (i16, i16)| #[trigger]
        call_ensures(f, (p,), x) && #[trigger] call_ensures(f, (p,), y) ==> x == y
}

/// Whether a function of a feature answers always the same way.
pub open spec fn answers_features_once<A: Fn(PlaceFeature) -> Position>(f: A) -> bool {
    forall|a: PlaceFeature, x: Position, y: Position| #[trigger]
        call_ensures(f, (a,), x) && #[trigger] call_ensures(f, (a,), y) ==> x == y
}

proof fn lemma_centroid_once<C: Fn(&Vec<NodeCoord>) -> Position>(
    centroid: C,
    points: Seq<NodeCoord>,
    x: Position,
    y: Position,
)
    requires
        answers_middles_once(centroid),
        centroid_told(centroid, points, x),
        centroid_told(centroid, points, y),
    ensures
        x == y,
{
    let v = choose|v: Vec<NodeCoord>| v@ == points && #[trigger] call_ensures(centroid, (&v,), x);
    let w = choose|w: Vec<NodeCoord>| w@ == points && #[trigger] call_ensures(centroid, (&w,), y);
    assert(v@ == w@);
}

/// There is one list of areas, as long as the functions passed in answer always
/// the same way.
pub proof fn law_area_list_is_determined<
    C: Fn(&Vec<NodeCoord>) -> Position,
    W: Fn(Position) -> (i16, i16),
>(
    idx: BinaryIndex,
    centroid: C,
    whole_degrees: W,
    r: Option<Seq<TargetModel>>,
    s: Option<Seq<TargetModel>>,
)
    requires
        answers_middles_once(centroid),
        answers_degrees_once(whole_degrees),
        areas_listed(idx, centroid, whole_degrees, r),
        areas_listed(idx, centroid, whole_degrees, s),
    ensures
        r == s,
{
    let polygons = polygons_of(idx.admin_polygons@);
    let n = polygons.len() as int;
    let x = choose|x: Seq<Sighting>| #[trigger]
        areas_sighted(idx, centroid, whole_degrees, x) && r == match areas_after(
            idx,
            polygons,
            x,
            n,
        ) {
            Some(scan) => Some(scan.listed),
            None => None,
        };
    let y = choose|y: Seq<Sighting>| #[trigger]
        areas_sighted(idx, centroid, whole_degrees, y) && s == match areas_after(
            idx,
            polygons,
            y,
            n,
        ) {
            Some(scan) => Some(scan.listed),
            None => None,
        };
    assert forall|k: int| 0 <= k < n implies x[k] == y[k] by {
        assert(area_sighted(idx, centroid, whole_degrees, polygons[k], x[k]));
        assert(area_sighted(idx, centroid, whole_degrees, polygons[k], y[k]));
        if is_listed(polygons[k]) {
            if let Some(corners) = placing_corners(idx, polygons[k]) {
                let a = x[k]->Seen_0;
                let b = y[k]->Seen_0;
                lemma_centroid_once(centroid, corners, a.at, b.at);
                assert(call_ensures(whole_degrees, (a.at,), a.degrees));
                assert(call_ensures(whole_degrees, (a.at,), b.degrees));
            }
        }
    }
    assert(x =~= y);
}

/// There is one list of named places, as long as `place_at` answers always the
/// same way.
pub proof fn law_feature_list_is_determined<A: Fn(PlaceFeature) -> Position>(
    idx: BinaryIndex,
    place_at: A,
    r: Option<Seq<TargetModel>>,
    s: Option<Seq<TargetModel>>,
)
    requires
        answers_features_once(place_at),
        features_listed(idx, place_at, r),
        features_listed(idx, place_at, s),
    ensures
        r == s,
{
    let features = features_of(idx.place_features@);
    let n = features.len() as int;
    let x = choose|x: Seq<Position>| #[trigger]
        features_sighted(place_at, features, x) && r == features_after(idx, features, x, n);
    let y = choose|y: Seq<Position>| #[trigger]
        features_sighted(place_at, features, y) && s == features_after(idx, features, y, n);
    assert forall|k: int| 0 <= k < n implies x[k] == y[k] by {
        assert(call_ensures(place_at, (features[k],), x[k]));
        assert(call_ensures(place_at, (features[k],), y[k]));
    }
    assert(x =~= y);
}

/// There is one list of streets, as long as the functions passed in answer
/// always the same way.
pub proof fn law_street_list_is_determined<
    C: Fn(&Vec<NodeCoord>) -> Position,
    M: Fn(&Vec<(Position, u8)>) -> Position,
>(
    idx: BinaryIndex,
    centroid: C,
    merge: M,
    r: Option<Seq<TargetModel>>,
    s: Option<Seq<TargetModel>>,
)
    requires
        answers_middles_once(centroid),
        answers_merges_once(merge),
        streets_listed(idx, centroid, merge, r),
        streets_listed(idx, centroid, merge, s),
    ensures
        r == s,
{
    let ways = ways_of(idx.street_ways@);
    let n = ways.len() as int;
    let x = choose|x: Seq<Option<Position>>| #[trigger]
        ways_sighted(idx, centroid, x) && bucket_streets(
            idx,
            merge,
            buckets_after(ways, x, n),
            r,
        );
    let y = choose|y: Seq<Option<Position>>| #[trigger]
        ways_sighted(idx, centroid, y) && bucket_streets(
            idx,
            merge,
            buckets_after(ways, y, n),
            s,
        );
    assert forall|k: int| 0 <= k < n implies x[k] == y[k] by {
        assert(way_sighted(idx, centroid, ways[k], x[k]));
        assert(way_sighted(idx, centroid, ways[k], y[k]));
        if x[k] is Some {
            let line = stretch(
                nodes_of(idx.street_nodes@),
                ways[k].node_offset as int,
                ways[k].node_count as int,
            )->0;
            lemma_centroid_once(centroid, line, x[k]->0, y[k]->0);
        }
    }
    assert(x =~= y);
    let buckets = buckets_after(ways, x, n);
    let a = choose|a: Seq<Position>| #[trigger]
        streets_merged(merge, buckets, a) && r == streets_after(
            idx,
            buckets,
            a,
            buckets.len() as int,
        );
    let b = choose|b: Seq<Position>| #[trigger]
        streets_merged(merge, buckets, b) && s == streets_after(
            idx,
            buckets,
            b,
            buckets.len() as int,
        );
    assert forall|k: int| 0 <= k < buckets.len() implies a[k] == b[k] by {
        assert(merge_told(merge, buckets[k].parts, a[k]));
        assert(merge_told(merge, buckets[k].parts, b[k]));
        let v = choose|v: Vec<(Position, u8)>|
            v@ == buckets[k].parts && #[trigger] call_ensures(merge, (&v,), a[k]);
        let w = choose|w: Vec<(Position, u8)>|
            w@ == buckets[k].parts && #[trigger] call_ensures(merge, (&w,), b[k]);
        assert(v@ == w@);
    }
    assert(a =~= b);
}

// --- What is listed ---

/// Whether an area counts: it is a state, a county, a city or a suburb, and has a
/// name.
pub open spec fn counts_as_area(poly: AdminPolygon) -> bool {
    (poly.admin_level == 4 || poly.admin_level == 6 || poly.admin_level == 8 || poly.admin_level
        == 9 || poly.admin_level == 10) && poly.name_id != 0xFFFF_FFFF
}

/// Whether an area of n corners is at `at`: that is what `centroid` answered for its
/// first n corners, or its first 64 if it has more.
pub open spec fn is_placed_at<C: Fn(&Vec<NodeCoord>) -> Position>(
    idx: BinaryIndex,
    centroid: C,
    poly: AdminPolygon,
    at: Position,
) -> bool {
    let nodes = nodes_of(idx.admin_vertices@);
    let off = poly.vertex_offset as int;
    exists|v: Vec<NodeCoord>|
        off + v@.len() <= nodes.len() && v@ == nodes.subrange(off, off + v@.len())
            && v@.len() == vstd::math::min(poly.vertex_count as int, 64) && #[trigger] call_ensures(
            centroid,
            (&v,),
            at,
        )
}

/// An area is placed by its first 64 corners, or by all if it has no more: where
/// the table has these, it is seen where `centroid` puts them, and where the table
/// has not, it is not seen.
pub proof fn law_areas_are_placed_by_their_corners<
    C: Fn(&Vec<NodeCoord>) -> Position,
    W: Fn(Position) -> (i16, i16),
>(idx: BinaryIndex, centroid: C, whole_degrees: W, sightings: Seq<Sighting>, i: int)
    requires
        areas_sighted(idx, centroid, whole_degrees, sightings),
        0 <= i < polygons_of(idx.admin_polygons@).len(),
    ensures
        ({
            let poly = polygons_of(idx.admin_polygons@)[i];
            let nodes = nodes_of(idx.admin_vertices@);
            let off = poly.vertex_offset as int;
            let n = poly.vertex_count as int;
            match sightings[i] {
                Sighting::Skipped => !counts_as_area(poly),
                Sighting::Broken => counts_as_area(poly) && off + vstd::math::min(n, 64)
                    > nodes.len(),
                Sighting::Seen(spot) => {
                    &&& counts_as_area(poly)
                    &&& is_placed_at(idx, centroid, poly, spot.at)
                    &&& call_ensures(whole_degrees, (spot.at,), spot.degrees)
                    &&& n <= 64 ==> exists|v: Vec<NodeCoord>|
                        v@ == nodes.subrange(off, off + n) && #[trigger] call_ensures(
                            centroid,
                            (&v,),
                            spot.at,
                        )
                    &&& n > 64 ==> exists|v: Vec<NodeCoord>|
                        v@ == nodes.subrange(off, off + 64) && #[trigger] call_ensures(
                            centroid,
                            (&v,),
                            spot.at,
                        )
                },
            }
        }),
{
    let poly = polygons_of(idx.admin_polygons@)[i];
    assert(area_sighted(idx, centroid, whole_degrees, poly, sightings[i]));
    if let Sighting::Seen(spot) = sightings[i] {
        let corners = placing_corners(idx, poly)->0;
        let v = choose|v: Vec<NodeCoord>|
            v@ == corners && #[trigger] call_ensures(centroid, (&v,), spot.at);
        assert(call_ensures(centroid, (&v,), spot.at));
    }
}

/// Whether two areas are taken for the same: they have the same name and level, and
/// lie in the same degrees.
pub open spec fn is_same_area(
    polygons: Seq<AdminPolygon>,
    spots: Seq<Spot>,
    i: int,
    j: int,
) -> bool {
    counts_as_area(polygons[i]) && counts_as_area(polygons[j]) && polygons[i].name_id
        == polygons[j].name_id && polygons[i].admin_level == polygons[j].admin_level
        && spots[i].degrees == spots[j].degrees
}

/// Whether area `i` is to be listed: it counts, its name has a character, and it is
/// smaller than every earlier one that is taken for the same.
pub open spec fn is_area_to_list(
    idx: BinaryIndex,
    polygons: Seq<AdminPolygon>,
    spots: Seq<Spot>,
    i: int,
) -> bool {
    &&& 0 <= i < polygons.len()
    &&& counts_as_area(polygons[i])
    &&& idx.text(polygons[i].name_id).len() > 0
    &&& forall|j: int|
        0 <= j < i && #[trigger] is_same_area(polygons, spots, i, j) ==> single_rank(
            polygons[i].area,
        ) < single_rank(polygons[j].area)
}

/// Whether a place stands for an area: its name, its level, and by the level what it
/// is and what weight it has (4 for a city, 3 for a county, 2.5 for a state, 1.5 for
/// a suburb).
pub open spec fn stands_for_area(
    idx: BinaryIndex,
    poly: AdminPolygon,
    at: Position,
    t: TargetModel,
) -> bool {
    &&& t.name == idx.text(poly.name_id)
    &&& t.at == at
    &&& t.level == Some(poly.admin_level)
    &&& poly.admin_level == 4 ==> t.kind == "state"@ && t.importance == 0x4004_0000_0000_0000
    &&& poly.admin_level == 6 ==> t.kind == "county"@ && t.importance == 0x4008_0000_0000_0000
    &&& poly.admin_level == 8 ==> t.kind == "city"@ && t.importance == 0x4010_0000_0000_0000
    &&& poly.admin_level == 9 || poly.admin_level == 10 ==> t.kind == "suburb"@ && t.importance
        == 0x3FF8_0000_0000_0000
}

/// Whether `from` tells which of the first `k` rows the listed places stand for:
/// they come in the order of the rows.
pub open spec fn ascends_below(from: Seq<int>, k: int) -> bool {
    &&& forall|j: int| 0 <= j < from.len() ==> 0 <= #[trigger] from[j] < k
    &&& forall|i: int, j: int| 0 <= i < j < from.len() ==> #[trigger] from[i] < #[trigger] from[j]
}

spec fn spots_of(sightings: Seq<Sighting>) -> Seq<Spot> {
    Seq::new(sightings.len(), |i: int| sightings[i]->Seen_0)
}

proof fn lemma_push_source(from: Seq<int>, k: int, i: int)
    ensures
        from.push(k).contains(i) <==> from.contains(i) || i == k,
{
    let after = from.push(k);
    if from.contains(i) {
        let j = choose|j: int| 0 <= j < from.len() && from[j] == i;
        assert(after[j] == i);
    }
    assert(after[from.len() as int] == k);
    if after.contains(i) && i != k {
        let j = choose|j: int| 0 <= j < after.len() && after[j] == i;
        assert(from[j] == i);
    }
}

proof fn lemma_area_sources<C: Fn(&Vec<NodeCoord>) -> Position, W: Fn(Position) -> (i16, i16)>(
    idx: BinaryIndex,
    centroid: C,
    whole_degrees: W,
    sightings: Seq<Sighting>,
    k: int,
) -> (from: Seq<int>)
    requires
        areas_sighted(idx, centroid, whole_degrees, sightings),
        0 <= k <= sightings.len(),
        forall|i: int|
            0 <= i < sightings.len() ==> !single_is_nan(
                (#[trigger] polygons_of(idx.admin_polygons@)[i]).area,
            ),
        areas_after(idx, polygons_of(idx.admin_polygons@), sightings, k) is Some,
    ensures
        ({
            let polygons = polygons_of(idx.admin_polygons@);
            let listed = areas_after(idx, polygons, sightings, k)->0.listed;
            let spots = spots_of(sightings);
            &&& from.len() == listed.len()
            &&& ascends_below(from, k)
            &&& forall|j: int|
                0 <= j < from.len() ==> stands_for_area(
                    idx,
                    polygons[from[j]],
                    spots[from[j]].at,
                    #[trigger] listed[j],
                )
            &&& forall|i: int| #[trigger]
                from.contains(i) <==> i < k && is_area_to_list(idx, polygons, spots, i)
            &&& forall|i: int|
                0 <= i < k && counts_as_area(#[trigger] polygons[i]) ==> idx.has_text(
                    polygons[i].name_id,
                ) && sightings[i] is Seen
        }),
    decreases k,
{
    let polygons = polygons_of(idx.admin_polygons@);
    let spots = spots_of(sightings);
    if k == 0 {
        Seq::empty()
    } else {
        let before = lemma_area_sources(idx, centroid, whole_degrees, sightings, k - 1);
        let scan = areas_after(idx, polygons, sightings, k - 1)->0;
        let after = areas_after(idx, polygons, sightings, k)->0;
        let poly = polygons[k - 1];
        law_areas_are_placed_by_their_corners(idx, centroid, whole_degrees, sightings, k - 1);
        law_smallest_area_is_listed(idx, polygons, sightings, k - 1);
        if let Sighting::Seen(spot) = sightings[k - 1] {
            let key = area_key(poly, spot.degrees);
            assert forall|j: int| 0 <= j < k - 1 implies #[trigger] has_key(
                polygons,
                sightings,
                j,
                key,
            ) == is_same_area(polygons, spots, k - 1, j) by {
                law_areas_are_placed_by_their_corners(
                    idx,
                    centroid,
                    whole_degrees,
                    sightings,
                    j,
                );
                if has_key(polygons, sightings, j, key) {
                    law_area_keys_tell_apart(
                        poly,
                        spot.degrees,
                        polygons[j],
                        sightings[j]->Seen_0.degrees,
                    );
                }
            }
            let passed = scan.least.contains_key(key) && single_at_least(
                poly.area,
                scan.least[key],
            );
            if passed {
                let j = choose|j: int|
                    0 <= j < k - 1 && #[trigger] has_key(polygons, sightings, j, key)
                        && polygons[j].area == scan.least[key];
                assert(is_same_area(polygons, spots, k - 1, j));
                assert(!single_is_nan(polygons[j].area));
                assert(!is_area_to_list(idx, polygons, spots, k - 1));
                assert(polygons[j].name_id == poly.name_id);
                assert(counts_as_area(polygons[j]));
                before
            } else {
                assert forall|j: int|
                    0 <= j < k - 1 && #[trigger] is_same_area(
                        polygons,
                        spots,
                        k - 1,
                        j,
                    ) implies single_rank(poly.area) < single_rank(polygons[j].area) by {
                    assert(has_key(polygons, sightings, j, key));
                    let w = choose|w: int|
                        0 <= w < k - 1 && #[trigger] has_key(polygons, sightings, w, key)
                            && polygons[w].area == scan.least[key];
                    assert(!single_is_nan(polygons[w].area));
                    assert(!single_is_nan(poly.area));
                }
                if idx.text(poly.name_id).len() == 0 {
                    before
                } else {
                    assert(is_area_to_list(idx, polygons, spots, k - 1));
                    assert forall|i: int| #[trigger]
                        before.push(k - 1).contains(i) == (i < k && is_area_to_list(
                            idx,
                            polygons,
                            spots,
                            i,
                        )) by {
                        lemma_push_source(before, k - 1, i);
                    }
                    before.push(k - 1)
                }
            }
        } else {
            before
        }
    }
}

/// The areas that are listed are, in their order, those that count, are named, and
/// are smaller than every earlier one of the same name and level in the same
/// degrees. Each is placed by its first 64 corners, or by all if it has no more.
/// This needs sizes that are numbers.
pub proof fn law_listed_areas_are_the_smallest_so_far<
    C: Fn(&Vec<NodeCoord>) -> Position,
    W: Fn(Position) -> (i16, i16),
>(idx: BinaryIndex, centroid: C, whole_degrees: W, listed: Seq<TargetModel>)
    requires
        areas_listed(idx, centroid, whole_degrees, Some(listed)),
        forall|i: int|
            0 <= i < polygons_of(idx.admin_polygons@).len() ==> !single_is_nan(
                (#[trigger] polygons_of(idx.admin_polygons@)[i]).area,
            ),
    ensures
        exists|spots: Seq<Spot>, from: Seq<int>|
            {
                let polygons = polygons_of(idx.admin_polygons@);
                &&& #[trigger] spots.len() == polygons.len()
                &&& #[trigger] from.len() == listed.len()
                &&& ascends_below(from, polygons.len() as int)
                &&& forall|i: int|
                    0 <= i < polygons.len() && counts_as_area(#[trigger] polygons[i])
                        ==> is_placed_at(idx, centroid, polygons[i], spots[i].at) && call_ensures(
                        whole_degrees,
                        (spots[i].at,),
                        spots[i].degrees,
                    )
                &&& forall|j: int|
                    0 <= j < from.len() ==> stands_for_area(
                        idx,
                        polygons[from[j]],
                        spots[from[j]].at,
                        #[trigger] listed[j],
                    )
                &&& forall|i: int| #[trigger]
                    from.contains(i) <==> is_area_to_list(idx, polygons, spots, i)
            },
{
    let polygons = polygons_of(idx.admin_polygons@);
    let n = polygons.len() as int;
    let x = choose|x: Seq<Sighting>| #[trigger]
        areas_sighted(idx, centroid, whole_degrees, x) && Some(listed) == match areas_after(
            idx,
            polygons,
            x,
            n,
        ) {
            Some(scan) => Some(scan.listed),
            None => None,
        };
    let spots = spots_of(x);
    let from = lemma_area_sources(idx, centroid, whole_degrees, x, n);
    assert forall|i: int| 0 <= i < n && counts_as_area(#[trigger] polygons[i]) implies is_placed_at(
        idx,
        centroid,
        polygons[i],
        spots[i].at,
    ) && call_ensures(whole_degrees, (spots[i].at,), spots[i].degrees) by {
        law_areas_are_placed_by_their_corners(idx, centroid, whole_degrees, x, i);
    }
    assert(spots.len() == polygons.len());
    assert(from.len() == listed.len());
}

proof fn lemma_areas_stop(
    idx: BinaryIndex,
    polygons: Seq<AdminPolygon>,
    sightings: Seq<Sighting>,
    k: int,
) -> (i: int)
    requires
        0 <= k <= polygons.len(),
        areas_after(idx, polygons, sightings, k) is None,
    ensures
        0 <= i < k,
        sightings[i] is Broken || sightings[i] is Seen && !idx.has_text(polygons[i].name_id),
    decreases k,
{
    if areas_after(idx, polygons, sightings, k - 1) is None {
        lemma_areas_stop(idx, polygons, sightings, k - 1)
    } else {
        k - 1
    }
}

/// The areas cannot be listed if and only if the corners or the name of one that
/// counts are outside their table. This needs sizes that are numbers.
pub proof fn law_areas_are_listed_from_a_sound_index<
    C: Fn(&Vec<NodeCoord>) -> Position,
    W: Fn(Position) -> (i16, i16),
>(idx: BinaryIndex, centroid: C, whole_degrees: W, r: Option<Seq<TargetModel>>)
    requires
        areas_listed(idx, centroid, whole_degrees, r),
        forall|i: int|
            0 <= i < polygons_of(idx.admin_polygons@).len() ==> !single_is_nan(
                (#[trigger] polygons_of(idx.admin_polygons@)[i]).area,
            ),
    ensures
        r is None <==> exists|i: int|
            0 <= i < polygons_of(idx.admin_polygons@).len() && {
                let poly = #[trigger] polygons_of(idx.admin_polygons@)[i];
                counts_as_area(poly) && (poly.name_id > idx.strings@.len() || poly.vertex_offset
                    + vstd::math::min(poly.vertex_count as int, 64) > nodes_of(
                    idx.admin_vertices@,
                ).len())
            },
{
    let polygons = polygons_of(idx.admin_polygons@);
    let n = polygons.len() as int;
    let x = choose|x: Seq<Sighting>| #[trigger]
        areas_sighted(idx, centroid, whole_degrees, x) && r == match areas_after(
            idx,
            polygons,
            x,
            n,
        ) {
            Some(scan) => Some(scan.listed),
            None => None,
        };
    if r is None {
        let i = lemma_areas_stop(idx, polygons, x, n);
        law_areas_are_placed_by_their_corners(idx, centroid, whole_degrees, x, i);
        assert(counts_as_area(polygons[i]));
    } else {
        let _ = lemma_area_sources(idx, centroid, whole_degrees, x, n);
        assert forall|i: int| 0 <= i < n && counts_as_area(#[trigger] polygons[i]) implies idx.has_text(
            polygons[i].name_id,
        ) && polygons[i].vertex_offset + vstd::math::min(polygons[i].vertex_count as int, 64)
            <= nodes_of(idx.admin_vertices@).len() by {
            law_areas_are_placed_by_their_corners(idx, centroid, whole_degrees, x, i);
        }
    }
}

/// Whether a place stands for a feature: a suburb of weight 1.2 if it is of the
/// first sort, and a point of interest of weight 1 otherwise.
pub open spec fn stands_for_feature(
    idx: BinaryIndex,
    f: PlaceFeature,
    at: Position,
    t: TargetModel,
) -> bool {
    &&& t.name == idx.text(f.name_id)
    &&& t.at == at
    &&& t.level is None
    &&& f.feature_type == 1 ==> t.kind == "suburb"@ && t.importance == 0x3FF3_3333_3333_3333
    &&& f.feature_type != 1 ==> t.kind == "poi"@ && t.importance == 0x3FF0_0000_0000_0000
}

proof fn lemma_feature_sources(
    idx: BinaryIndex,
    features: Seq<PlaceFeature>,
    spots: Seq<Position>,
    k: int,
) -> (from: Seq<int>)
    requires
        0 <= k <= features.len(),
        features_after(idx, features, spots, k) is Some,
    ensures
        ({
            let listed = features_after(idx, features, spots, k)->0;
            &&& from.len() == listed.len()
            &&& ascends_below(from, k)
            &&& forall|j: int|
                0 <= j < from.len() ==> stands_for_feature(
                    idx,
                    features[from[j]],
                    spots[from[j]],
                    #[trigger] listed[j],
                )
            &&& forall|i: int| #[trigger]
                from.contains(i) <==> 0 <= i < k && features[i].feature_type != 0
                    && features[i].name_id != 0xFFFF_FFFF && idx.text(features[i].name_id).len() > 0
            &&& forall|i: int|
                0 <= i < k && (#[trigger] features[i]).feature_type != 0 && features[i].name_id
                    != 0xFFFF_FFFF ==> idx.has_text(features[i].name_id)
        }),
    decreases k,
{
    if k == 0 {
        Seq::empty()
    } else {
        let before = lemma_feature_sources(idx, features, spots, k - 1);
        let f = features[k - 1];
        if is_listed_feature(f) && idx.text(f.name_id).len() > 0 {
            assert forall|i: int| #[trigger]
                before.push(k - 1).contains(i) == (before.contains(i) || i == k - 1) by {
                lemma_push_source(before, k - 1, i);
            }
            before.push(k - 1)
        } else {
            before
        }
    }
}

/// The features that are listed are, in their order, those of any sort but zero that
/// have a name, each where `place_at` puts it.
pub proof fn law_listed_features_are_the_named_ones<A: Fn(PlaceFeature) -> Position>(
    idx: BinaryIndex,
    place_at: A,
    listed: Seq<TargetModel>,
)
    requires
        features_listed(idx, place_at, Some(listed)),
    ensures
        exists|spots: Seq<Position>, from: Seq<int>|
            {
                let features = features_of(idx.place_features@);
                &&& #[trigger] spots.len() == features.len()
                &&& #[trigger] from.len() == listed.len()
                &&& ascends_below(from, features.len() as int)
                &&& forall|i: int|
                    0 <= i < features.len() ==> call_ensures(
                        place_at,
                        (features[i],),
                        #[trigger] spots[i],
                    )
                &&& forall|j: int|
                    0 <= j < from.len() ==> stands_for_feature(
                        idx,
                        features[from[j]],
                        spots[from[j]],
                        #[trigger] listed[j],
                    )
                &&& forall|i: int| #[trigger]
                    from.contains(i) <==> 0 <= i < features.len() && features[i].feature_type != 0
                        && features[i].name_id != 0xFFFF_FFFF && idx.text(
                        features[i].name_id,
                    ).len() > 0
            },
{
    let features = features_of(idx.place_features@);
    let n = features.len() as int;
    let spots = choose|x: Seq<Position>| #[trigger]
        features_sighted(place_at, features, x) && Some(listed) == features_after(
            idx,
            features,
            x,
            n,
        );
    let from = lemma_feature_sources(idx, features, spots, n);
    assert(spots.len() == features.len());
    assert(from.len() == listed.len());
}

proof fn lemma_features_stop(
    idx: BinaryIndex,
    features: Seq<PlaceFeature>,
    spots: Seq<Position>,
    k: int,
) -> (i: int)
    requires
        0 <= k <= features.len(),
        features_after(idx, features, spots, k) is None,
    ensures
        0 <= i < k,
        is_listed_feature(features[i]),
        !idx.has_text(features[i].name_id),
    decreases k,
{
    if features_after(idx, features, spots, k - 1) is None {
        lemma_features_stop(idx, features, spots, k - 1)
    } else {
        k - 1
    }
}

/// The features cannot be listed if and only if the name of one, of any sort but
/// zero, is outside its table.
pub proof fn law_features_are_listed_from_a_sound_index<A: Fn(PlaceFeature) -> Position>(
    idx: BinaryIndex,
    place_at: A,
    r: Option<Seq<TargetModel>>,
)
    requires
        features_listed(idx, place_at, r),
    ensures
        r is None <==> exists|i: int|
            0 <= i < features_of(idx.place_features@).len() && {
                let f = #[trigger] features_of(idx.place_features@)[i];
                f.feature_type != 0 && f.name_id != 0xFFFF_FFFF && f.name_id > idx.strings@.len()
            },
{
    let features = features_of(idx.place_features@);
    let n = features.len() as int;
    let spots = choose|x: Seq<Position>| #[trigger]
        features_sighted(place_at, features, x) && r == features_after(idx, features, x, n);
    if r is None {
        let i = lemma_features_stop(idx, features, spots, n);
        assert(!idx.has_text(features[i].name_id));
    } else {
        let _ = lemma_feature_sources(idx, features, spots, n);
        assert forall|i: int|
            0 <= i < n && (#[trigger] features[i]).feature_type != 0 && features[i].name_id
                != 0xFFFF_FFFF implies features[i].name_id <= idx.strings@.len() by {
            assert(idx.has_text(features[i].name_id));
        }
    }
}

/// Whether a way is part of a street: it has a name, and the table has all its
/// points.
pub open spec fn counts_as_way(idx: BinaryIndex, way: WayHeader) -> bool {
    way.name_id != 0xFFFF_FFFF && way.node_offset + way.node_count <= nodes_of(
        idx.street_nodes@,
    ).len()
}

/// Where the first `k` ways of one name and one cell are, in their order, and how
/// many points each has.
pub open spec fn parts_of_street(
    idx: BinaryIndex,
    ways: Seq<WayHeader>,
    spots: Seq<Position>,
    name_id: u32,
    cell: u64,
    k: int,
) -> Seq<(Position, u8)>
    decreases k,
{
    if k <= 0 {
        seq![]
    } else {
        let before = parts_of_street(idx, ways, spots, name_id, cell, k - 1);
        if counts_as_way(idx, ways[k - 1]) && ways[k - 1].name_id == name_id && ancestor(
            spots[k - 1].leaf,
            10,
        ) == cell {
            before.push((spots[k - 1], ways[k - 1].node_count))
        } else {
            before
        }
    }
}

/// Whether a place stands for the street of a name in a cell: it is where `merge`
/// puts all ways of that name and cell.
pub open spec fn stands_for_street<M: Fn(&Vec<(Position, u8)>) -> Position>(
    idx: BinaryIndex,
    merge: M,
    ways: Seq<WayHeader>,
    spots: Seq<Position>,
    key: (u32, u64),
    t: TargetModel,
) -> bool {
    let (name_id, cell) = key;
    &&& t.name == idx.text(name_id)
    &&& t.name.len() > 0
    &&& t.kind == "street"@
    &&& t.importance == 0x3FF0_0000_0000_0000
    &&& t.level is None
    &&& exists|v: Vec<(Position, u8)>|
        v@ == parts_of_street(idx, ways, spots, name_id, cell, ways.len() as int) && v@.len() > 0
            && #[trigger] call_ensures(merge, (&v,), t.at)
}

spec fn way_spots(spots: Seq<Option<Position>>) -> Seq<Position> {
    Seq::new(spots.len(), |i: int| spots[i]->0)
}

proof fn lemma_way_spot<C: Fn(&Vec<NodeCoord>) -> Position>(
    idx: BinaryIndex,
    centroid: C,
    spots: Seq<Option<Position>>,
    i: int,
)
    requires
        ways_sighted(idx, centroid, spots),
        0 <= i < spots.len(),
    ensures
        spots[i] is Some <==> counts_as_way(idx, ways_of(idx.street_ways@)[i]),
{
    assert(way_sighted(idx, centroid, ways_of(idx.street_ways@)[i], spots[i]));
}

proof fn lemma_bucket_parts<C: Fn(&Vec<NodeCoord>) -> Position>(
    idx: BinaryIndex,
    centroid: C,
    spots: Seq<Option<Position>>,
    k: int,
)
    requires
        ways_sighted(idx, centroid, spots),
        0 <= k <= spots.len(),
    ensures
        ({
            let ways = ways_of(idx.street_ways@);
            let buckets = buckets_after(ways, spots, k);
            &&& buckets_differ(buckets)
            &&& forall|b: int|
                0 <= b < buckets.len() ==> (#[trigger] buckets[b]).parts == parts_of_street(
                    idx,
                    ways,
                    way_spots(spots),
                    buckets[b].name_id,
                    buckets[b].cell,
                    k,
                ) && buckets[b].parts.len() > 0
            &&& forall|name_id: u32, cell: u64|
                (forall|b: int|
                    0 <= b < buckets.len() ==> (#[trigger] buckets[b]).name_id != name_id
                        || buckets[b].cell != cell) ==> (#[trigger] parts_of_street(
                    idx,
                    ways,
                    way_spots(spots),
                    name_id,
                    cell,
                    k,
                )).len() == 0
        }),
    decreases k,
{
    let ways = ways_of(idx.street_ways@);
    let at_spots = way_spots(spots);
    law_streets_are_merged(ways, spots, k);
    if k > 0 {
        lemma_bucket_parts(idx, centroid, spots, k - 1);
        lemma_way_spot(idx, centroid, spots, k - 1);
        let before = buckets_after(ways, spots, k - 1);
        let after = buckets_after(ways, spots, k);
        if spots[k - 1] is Some {
            let at = spots[k - 1]->0;
            let name = ways[k - 1].name_id;
            let own_cell = ancestor(at.leaf, STREET_MERGE_LEVEL);
            lemma_bucket_of(before, name, own_cell);
            let own = match bucket_of(before, name, own_cell) {
                Some(i) => i,
                None => before.len() as int,
            };
            if own == before.len() {
                assert(parts_of_street(idx, ways, at_spots, name, own_cell, k - 1) =~= seq![]);
            }
            assert forall|b: int| 0 <= b < after.len() implies (#[trigger] after[b]).parts
                == parts_of_street(
                idx,
                ways,
                at_spots,
                after[b].name_id,
                after[b].cell,
                k,
            ) && after[b].parts.len() > 0 by {
                if b != own {
                    assert(after[b] == before[b]);
                    if own < before.len() {
                        assert(before[own].name_id == name && before[own].cell == own_cell);
                    }
                } else if own == before.len() {
                    assert(seq![(at, ways[k - 1].node_count)] =~= Seq::<(Position, u8)>::empty().push(
                        (at, ways[k - 1].node_count),
                    ));
                }
            }
            assert forall|name_id: u32, cell: u64|
                (forall|b: int|
                    0 <= b < after.len() ==> (#[trigger] after[b]).name_id != name_id
                        || after[b].cell != cell) implies (#[trigger] parts_of_street(
                idx,
                ways,
                at_spots,
                name_id,
                cell,
                k,
            )).len() == 0 by {
                assert(after[own].name_id == name && after[own].cell == own_cell);
                assert forall|b: int| 0 <= b < before.len() implies (#[trigger] before[b]).name_id
                    != name_id || before[b].cell != cell by {
                    assert(after[b].name_id == before[b].name_id && after[b].cell
                        == before[b].cell);
                }
                assert(parts_of_street(idx, ways, at_spots, name_id, cell, k - 1).len() == 0);
            }
        } else {
            assert forall|name_id: u32, cell: u64| #[trigger]
                parts_of_street(idx, ways, at_spots, name_id, cell, k) == parts_of_street(
                    idx,
                    ways,
                    at_spots,
                    name_id,
                    cell,
                    k - 1,
                ) by {}
        }
    }
}

proof fn lemma_street_sources(
    idx: BinaryIndex,
    buckets: Seq<BucketModel>,
    spots: Seq<Position>,
    k: int,
) -> (from: Seq<int>)
    requires
        0 <= k <= buckets.len(),
        streets_after(idx, buckets, spots, k) is Some,
    ensures
        ({
            let listed = streets_after(idx, buckets, spots, k)->0;
            &&& from.len() == listed.len()
            &&& ascends_below(from, k)
            &&& forall|j: int|
                0 <= j < from.len() ==> {
                    let t = #[trigger] listed[j];
                    &&& t.name == idx.text(buckets[from[j]].name_id)
                    &&& t.name.len() > 0
                    &&& t.at == spots[from[j]]
                    &&& t.kind == "street"@
                    &&& t.importance == 0x3FF0_0000_0000_0000
                    &&& t.level is None
                }
            &&& forall|i: int| #[trigger]
                from.contains(i) <==> 0 <= i < k && idx.text(buckets[i].name_id).len() > 0
            &&& forall|i: int| 0 <= i < k ==> idx.has_text((#[trigger] buckets[i]).name_id)
        }),
    decreases k,
{
    if k == 0 {
        Seq::empty()
    } else {
        let before = lemma_street_sources(idx, buckets, spots, k - 1);
        if idx.text(buckets[k - 1].name_id).len() > 0 {
            assert forall|i: int| #[trigger]
                before.push(k - 1).contains(i) == (before.contains(i) || i == k - 1) by {
                lemma_push_source(before, k - 1, i);
            }
            before.push(k - 1)
        } else {
            before
        }
    }
}

/// The streets that are listed are one for each name and each cell of the tenth
/// level that a way of that name is in, where the name has a character. Each is
/// where `merge` puts all the ways of that name and cell, and a way is where
/// `centroid` puts all its points.
pub proof fn law_listed_streets_are_one_for_each_name_and_cell<
    C: Fn(&Vec<NodeCoord>) -> Position,
    M: Fn(&Vec<(Position, u8)>) -> Position,
>(idx: BinaryIndex, centroid: C, merge: M, listed: Seq<TargetModel>)
    requires
        streets_listed(idx, centroid, merge, Some(listed)),
    ensures
        exists|spots: Seq<Position>, keys: Seq<(u32, u64)>|
            {
                let ways = ways_of(idx.street_ways@);
                let nodes = nodes_of(idx.street_nodes@);
                &&& #[trigger] spots.len() == ways.len()
                &&& #[trigger] keys.len() == listed.len()
                &&& keys.no_duplicates()
                &&& forall|i: int|
                    0 <= i < ways.len() && counts_as_way(idx, #[trigger] ways[i]) ==> exists|
                        v: Vec<NodeCoord>,
                    |
                        v@ == nodes.subrange(
                            ways[i].node_offset as int,
                            ways[i].node_offset + ways[i].node_count,
                        ) && #[trigger] call_ensures(centroid, (&v,), spots[i])
                &&& forall|i: int|
                    0 <= i < ways.len() && counts_as_way(idx, #[trigger] ways[i]) && idx.text(
                        ways[i].name_id,
                    ).len() > 0 ==> keys.contains(
                        (ways[i].name_id, ancestor(spots[i].leaf, 10)),
                    )
                &&& forall|j: int|
                    0 <= j < listed.len() ==> stands_for_street(
                        idx,
                        merge,
                        ways,
                        spots,
                        keys[j],
                        #[trigger] listed[j],
                    )
            },
{
    let ways = ways_of(idx.street_ways@);
    let nodes = nodes_of(idx.street_nodes@);
    let n = ways.len() as int;
    let x = choose|x: Seq<Option<Position>>| #[trigger]
        ways_sighted(idx, centroid, x) && bucket_streets(
            idx,
            merge,
            buckets_after(ways, x, n),
            Some(listed),
        );
    let buckets = buckets_after(ways, x, n);
    let merged = choose|merged: Seq<Position>| #[trigger]
        streets_merged(merge, buckets, merged) && Some(listed) == streets_after(
            idx,
            buckets,
            merged,
            buckets.len() as int,
        );
    let from = lemma_street_sources(idx, buckets, merged, buckets.len() as int);
    let spots = way_spots(x);
    let keys = Seq::new(from.len(), |j: int| (buckets[from[j]].name_id, buckets[from[j]].cell));
    lemma_bucket_parts(idx, centroid, x, n);
    law_streets_are_merged(ways, x, n);
    assert forall|i: int, j: int| 0 <= i < keys.len() && 0 <= j < keys.len() && i != j implies keys[i]
        != keys[j] by {
        if i < j {
            assert(from[i] < from[j]);
        } else {
            assert(from[j] < from[i]);
        }
        assert(from[i] != from[j]);
        assert(0 <= from[i] < buckets.len() && 0 <= from[j] < buckets.len());
        let a = buckets[from[i]];
        let b = buckets[from[j]];
        assert(a.name_id != b.name_id || a.cell != b.cell);
    }
    assert forall|i: int| 0 <= i < n && counts_as_way(idx, #[trigger] ways[i]) implies exists|
        v: Vec<NodeCoord>,
    |
        v@ == nodes.subrange(
            ways[i].node_offset as int,
            ways[i].node_offset + ways[i].node_count,
        ) && #[trigger] call_ensures(centroid, (&v,), spots[i]) by {
        assert(way_sighted(idx, centroid, ways[i], x[i]));
        let line = nodes.subrange(
            ways[i].node_offset as int,
            ways[i].node_offset + ways[i].node_count,
        );
        assert(centroid_told(centroid, line, x[i]->0));
        let v = choose|v: Vec<NodeCoord>|
            v@ == line && #[trigger] call_ensures(centroid, (&v,), x[i]->0);
        assert(spots[i] == x[i]->0);
        assert(call_ensures(centroid, (&v,), spots[i]));
    }
    assert forall|i: int|
        0 <= i < n && counts_as_way(idx, #[trigger] ways[i]) && idx.text(ways[i].name_id).len()
            > 0 implies keys.contains((ways[i].name_id, ancestor(spots[i].leaf, 10))) by {
        lemma_way_spot(idx, centroid, x, i);
        assert(x[i] is Some);
        let b = choose|b: int|
            0 <= b < buckets.len() && {
                let bucket = #[trigger] buckets[b];
                &&& bucket.name_id == ways[i].name_id
                &&& bucket.cell == ancestor(x[i]->0.leaf, STREET_MERGE_LEVEL)
                &&& bucket.parts.contains((x[i]->0, ways[i].node_count))
            };
        assert(from.contains(b));
        let j = choose|j: int| 0 <= j < from.len() && from[j] == b;
        assert(keys[j] == (ways[i].name_id, ancestor(spots[i].leaf, 10)));
    }
    assert forall|j: int| 0 <= j < listed.len() implies stands_for_street(
        idx,
        merge,
        ways,
        spots,
        keys[j],
        #[trigger] listed[j],
    ) by {
        let b = from[j];
        assert(0 <= b < buckets.len());
        assert(merge_told(merge, buckets[b].parts, merged[b]));
        let v = choose|v: Vec<(Position, u8)>|
            v@ == buckets[b].parts && #[trigger] call_ensures(merge, (&v,), merged[b]);
        assert(call_ensures(merge, (&v,), listed[j].at));
    }
    assert(spots.len() == ways.len());
    assert(keys.len() == listed.len());
}

proof fn lemma_streets_stop(
    idx: BinaryIndex,
    buckets: Seq<BucketModel>,
    spots: Seq<Position>,
    k: int,
) -> (i: int)
    requires
        0 <= k <= buckets.len(),
        streets_after(idx, buckets, spots, k) is None,
    ensures
        0 <= i < k,
        !idx.has_text(buckets[i].name_id),
    decreases k,
{
    if streets_after(idx, buckets, spots, k - 1) is None {
        lemma_streets_stop(idx, buckets, spots, k - 1)
    } else {
        k - 1
    }
}

proof fn lemma_bucket_names(ways: Seq<WayHeader>, spots: Seq<Option<Position>>, k: int, b: int) -> (i:
    int)
    requires
        0 <= k <= ways.len(),
        0 <= b < buckets_after(ways, spots, k).len(),
    ensures
        0 <= i < k,
        spots[i] is Some,
        ways[i].name_id == buckets_after(ways, spots, k)[b].name_id,
    decreases k,
{
    let before = buckets_after(ways, spots, k - 1);
    if spots[k - 1] is Some {
        let cell = ancestor(spots[k - 1]->0.leaf, STREET_MERGE_LEVEL);
        lemma_bucket_of(before, ways[k - 1].name_id, cell);
    }
    if b < before.len() {
        lemma_bucket_names(ways, spots, k - 1, b)
    } else {
        k - 1
    }
}

/// The streets cannot be listed if and only if the name of a way that counts is
/// outside its table.
pub proof fn law_streets_are_listed_from_a_sound_index<
    C: Fn(&Vec<NodeCoord>) -> Position,
    M: Fn(&Vec<(Position, u8)>) -> Position,
>(idx: BinaryIndex, centroid: C, merge: M, r: Option<Seq<TargetModel>>)
    requires
        streets_listed(idx, centroid, merge, r),
    ensures
        r is None <==> exists|i: int|
            0 <= i < ways_of(idx.street_ways@).len() && {
                let way = #[trigger] ways_of(idx.street_ways@)[i];
                counts_as_way(idx, way) && way.name_id > idx.strings@.len()
            },
{
    let ways = ways_of(idx.street_ways@);
    let n = ways.len() as int;
    let x = choose|x: Seq<Option<Position>>| #[trigger]
        ways_sighted(idx, centroid, x) && bucket_streets(
            idx,
            merge,
            buckets_after(ways, x, n),
            r,
        );
    let buckets = buckets_after(ways, x, n);
    let merged = choose|merged: Seq<Position>| #[trigger]
        streets_merged(merge, buckets, merged) && r == streets_after(
            idx,
            buckets,
            merged,
            buckets.len() as int,
        );
    law_streets_are_merged(ways, x, n);
    if r is None {
        let b = lemma_streets_stop(idx, buckets, merged, buckets.len() as int);
        let i = lemma_bucket_names(ways, x, n, b);
        lemma_way_spot(idx, centroid, x, i);
        assert(counts_as_way(idx, ways[i]));
    } else {
        let _ = lemma_street_sources(idx, buckets, merged, buckets.len() as int);
        assert forall|i: int| 0 <= i < n && counts_as_way(idx, #[trigger] ways[i]) implies
            ways[i].name_id <= idx.strings@.len() by {
            lemma_way_spot(idx, centroid, x, i);
            assert(x[i] is Some);
            let b = choose|b: int|
                0 <= b < buckets.len() && {
                    let bucket = #[trigger] buckets[b];
                    &&& bucket.name_id == ways[i].name_id
                    &&& bucket.cell == ancestor(x[i]->0.leaf, STREET_MERGE_LEVEL)
                    &&& bucket.parts.contains((x[i]->0, ways[i].node_count))
                };
            assert(idx.has_text(buckets[b].name_id));
        }
    }
}

} // verus!
