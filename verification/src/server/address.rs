//! The address of a point, put together from what lies near it and the areas
//! that it lies in.
use crate::boundary::{
    choice_view, choose_boundaries, chosen, claim_holds, law_choice_fails_only_on_malformed_claims,
    law_choice_is_a_smallest_that_holds, law_choice_is_by_level, law_choice_is_determined,
    law_chosen_polygons_are_claimed, Boundary, PointTest,
};
use crate::bytes::{
    all_entry_ids, cell_offset, cell_offsets, entry_ids, lemma_entry_is_listed, IndexError,
};
use crate::cells::{ancestor, cells_around, list_cells_around, touching_cells};
use crate::geometry::{answers_edges_once, casts_to, nodes_of, Axis, NodeCoord, Position};
use crate::ieee::{double_less, is_double_less, single_is_nan, single_rank};
use crate::server::geo::{
    answers_along_once, answers_counts_once, answers_lines_once, answers_points_once,
    find_address, find_interpolation, find_street, firsts, interpolated_result,
    law_interpolation_is_determined, law_nearest_address_is_determined,
    law_nearest_street_is_determined, law_repeated_streets_change_nothing, lemma_address_by_tables,
    lemma_interpolation_by_tables, nearest_address, nearest_interpolation, nearest_street,
    Interpolated, InterpolatedModel, STREET_CELL_LEVEL,
};
use crate::server::index::{boundaries_of, AddrPoint, GeoIndex, WayHeader};
use crate::text::{decimal, option_view, str_option_view, to_decimal};
use vstd::prelude::*;

verus! {

/// The cell level that boundaries are listed by.
pub const ADMIN_CELL_LEVEL: u64 = 10;

/// How near an address has to be, as a squared distance in radians, in double
/// precision: the square of 0.0005 degrees, about 50 m.
pub const MAX_ADDR_DIST: u64 = 0x3DD4_EEE2_E5F3_2FC4;

/// How near a street has to be, as a squared distance in radians, in double
/// precision: the square of 0.0007 degrees, about 75 m.
pub const MAX_STREET_DIST: u64 = 0x3DE4_83B5_6678_9016;

// --- What lies near ---

/// What lies nearest to a point, of each sort, with its squared distance in
/// radians.
pub struct GeoResult<'a> {
    pub addr: Option<(u64, AddrPoint)>,
    pub interp: Option<Interpolated<'a>>,
    pub street: Option<(u64, WayHeader)>,
}

/// What lies nearest to a point, of each sort, with its squared distance in
/// radians.
pub struct GeoModel {
    pub addr: Option<(u64, AddrPoint)>,
    pub interp: Option<InterpolatedModel>,
    pub street: Option<(u64, WayHeader)>,
}

impl<'a> View for GeoResult<'a> {
    type V = GeoModel;

    open spec fn view(&self) -> GeoModel {
        GeoModel {
            addr: self.addr,
            interp: match self.interp {
                Some(m) => Some(m@),
                None => None,
            },
            street: self.street,
        }
    }
}

/// What lies nearest, of each sort, or the first error of the three searches.
pub open spec fn geo_of(
    addr: Option<Option<(u64, AddrPoint)>>,
    street: Option<Option<(u64, WayHeader)>>,
    interp: Result<Option<InterpolatedModel>, IndexError>,
) -> Result<GeoModel, IndexError> {
    match (addr, street, interp) {
        (Some(addr), Some(street), Ok(interp)) => Ok(GeoModel { addr, interp, street }),
        (Some(_), Some(_), Err(e)) => Err(e),
        _ => Err(IndexError::OutOfRange),
    }
}

/// `r` is what lies nearest to the point, as the functions passed in measure.
pub open spec fn geo_found<
    P: Fn(Position, NodeCoord) -> u64,
    S: Fn(Position, NodeCoord, NodeCoord) -> u64,
    L: Fn(Position, &Vec<NodeCoord>) -> bool,
    A: Fn(Position, &Vec<NodeCoord>, usize) -> u64,
    N: Fn(u32, u32, u64, u32) -> u32,
>(
    idx: GeoIndex,
    p: Position,
    to_point: P,
    to_segment: S,
    has_length: L,
    along: A,
    count_steps: N,
    r: Result<GeoModel, IndexError>,
) -> bool {
    exists|
        addr: Option<Option<(u64, AddrPoint)>>,
        street: Option<Option<(u64, WayHeader)>>,
        interp: Result<Option<InterpolatedModel>, IndexError>,
    |
        #![trigger geo_of(addr, street, interp)]
        {
            &&& nearest_address(idx, p, to_point, addr)
            &&& nearest_street(idx, p, to_segment, street)
            &&& nearest_interpolation(
                idx,
                p,
                has_length,
                to_segment,
                along,
                count_steps,
                interp,
            )
            &&& r == geo_of(addr, street, interp)
        }
}

/// The outcome of a search for what lies nearest.
pub open spec fn geo_result(r: Result<GeoResult, IndexError>) -> Result<GeoModel, IndexError> {
    match r {
        Ok(g) => Ok(g@),
        Err(e) => Err(e),
    }
}

impl GeoModel {
    /// Whether an address point is near enough.
    pub open spec fn addr_is_near(self) -> bool {
        match self.addr {
            Some((dist, _)) => double_less(dist, MAX_ADDR_DIST),
            None => false,
        }
    }

    /// Whether a line of house numbers is near enough.
    pub open spec fn interp_is_near(self) -> bool {
        match self.interp {
            Some(m) => double_less(m.dist, MAX_ADDR_DIST),
            None => false,
        }
    }

    /// Whether a street is near enough.
    pub open spec fn street_is_near(self) -> bool {
        match self.street {
            Some((dist, _)) => double_less(dist, MAX_STREET_DIST),
            None => false,
        }
    }
}

// --- The areas ---

/// The names of the areas that a point lies in.
pub struct AdminResult<'a> {
    pub country: Option<&'a str>,
    pub state: Option<&'a str>,
    pub county: Option<&'a str>,
    pub city: Option<&'a str>,
    pub postcode: Option<&'a str>,
}

/// The names of the areas that a point lies in, as characters.
#[verifier::ext_equal]
pub struct AreaModel {
    pub country: Option<Seq<char>>,
    pub state: Option<Seq<char>>,
    pub county: Option<Seq<char>>,
    pub city: Option<Seq<char>>,
    pub postcode: Option<Seq<char>>,
}

impl<'a> View for AdminResult<'a> {
    type V = AreaModel;

    open spec fn view(&self) -> AreaModel {
        AreaModel {
            country: str_option_view(self.country),
            state: str_option_view(self.state),
            county: str_option_view(self.county),
            city: str_option_view(self.city),
            postcode: str_option_view(self.postcode),
        }
    }
}

/// How a point is tested against a polygon here: a ray across the longitude,
/// and at least one corner.
pub open spec fn area_test() -> PointTest {
    PointTest { axis: Axis::Lng, least_corners: 0, refuses_empty: true }
}

/// Whether the name of every boundary can be read.
pub open spec fn names_are_there(idx: GeoIndex, best: Seq<Option<Boundary>>) -> bool {
    forall|i: int|
        0 <= i < best.len() && (#[trigger] best[i]) is Some ==> idx.has_text(best[i]->0.name_id)
}

/// The name of the boundary at a level.
pub open spec fn level_name(idx: GeoIndex, best: Seq<Option<Boundary>>, level: int) -> Option<
    Seq<char>,
> {
    match best[level] {
        Some(b) => Some(idx.text(b.name_id)),
        None => None,
    }
}

/// The areas that the boundaries give: the country is level 2, the state 4,
/// the county 6, the city 8 and the postcode 11. Nothing where a name cannot be
/// read.
pub open spec fn areas_of(idx: GeoIndex, best: Option<Seq<Option<Boundary>>>) -> Option<AreaModel> {
    match best {
        Some(best) => if names_are_there(idx, best) {
            Some(
                AreaModel {
                    country: level_name(idx, best, 2),
                    state: level_name(idx, best, 4),
                    county: level_name(idx, best, 6),
                    city: level_name(idx, best, 8),
                    postcode: level_name(idx, best, 11),
                },
            )
        } else {
            None
        },
        None => None,
    }
}

/// `r` is the areas that the point lies in. Nothing where an entry points
/// outside its table.
pub open spec fn areas_found<F: Fn(Position, NodeCoord, NodeCoord) -> bool>(
    idx: GeoIndex,
    p: Position,
    crosses: F,
    r: Option<AreaModel>,
) -> bool {
    exists|best: Option<Seq<Option<Boundary>>>| #[trigger]
        chosen(
            crosses,
            area_test(),
            p,
            nodes_of(idx.admin_vertices@),
            idx.admin_claims(cells_around(p.leaf, ADMIN_CELL_LEVEL)),
            best,
        ) && r == areas_of(idx, best)
}

/// The outcome of a search for areas.
pub open spec fn area_result(r: Result<AdminResult, IndexError>) -> Option<AreaModel> {
    match r {
        Ok(a) => Some(a@),
        Err(_) => None,
    }
}

fn check_names(idx: &GeoIndex, best: &Vec<Option<Boundary>>) -> (r: bool)
    ensures
        r == names_are_there(*idx, best@),
{
    let mut i: usize = 0;
    while i < best.len()
        invariant
            i <= best@.len(),
            forall|j: int|
                0 <= j < i && (#[trigger] best@[j]) is Some ==> idx.has_text(best@[j]->0.name_id),
        decreases best@.len() - i,
    {
        if let Some(b) = best[i] {
            if idx.string_at(b.name_id).is_none() {
                assert(best@[i as int] is Some);
                return false;
            }
        }
        i = i + 1;
    }
    true
}

fn read_level_name<'a>(
    idx: &GeoIndex<'a>,
    best: &Vec<Option<Boundary>>,
    level: usize,
) -> (r: Option<&'a str>)
    requires
        level < best@.len(),
        names_are_there(*idx, best@),
    ensures
        str_option_view(r) == level_name(*idx, best@, level as int),
{
    match best[level] {
        Some(b) => Some(idx.get_string(b.name_id)),
        None => None,
    }
}

// --- The address ---

/// An address.
pub struct Address<'a> {
    pub housenumber: Option<String>,
    pub street: Option<&'a str>,
    pub city: Option<&'a str>,
    pub state: Option<&'a str>,
    pub postcode: Option<&'a str>,
    pub country: Option<&'a str>,
}

/// An address, as characters.
#[verifier::ext_equal]
pub struct AddressModel {
    pub housenumber: Option<Seq<char>>,
    pub street: Option<Seq<char>>,
    pub city: Option<Seq<char>>,
    pub state: Option<Seq<char>>,
    pub postcode: Option<Seq<char>>,
    pub country: Option<Seq<char>>,
}

impl<'a> View for Address<'a> {
    type V = AddressModel;

    open spec fn view(&self) -> AddressModel {
        AddressModel {
            housenumber: option_view(self.housenumber),
            street: str_option_view(self.street),
            city: str_option_view(self.city),
            state: str_option_view(self.state),
            postcode: str_option_view(self.postcode),
            country: str_option_view(self.country),
        }
    }
}

/// The address of nothing.
pub open spec fn no_address() -> AddressModel {
    AddressModel {
        housenumber: None,
        street: None,
        city: None,
        state: None,
        postcode: None,
        country: None,
    }
}

/// An address within the areas.
pub open spec fn address_in(
    areas: AreaModel,
    housenumber: Option<Seq<char>>,
    street: Option<Seq<char>>,
) -> AddressModel {
    AddressModel {
        housenumber,
        street,
        city: areas.city,
        state: areas.state,
        postcode: areas.postcode,
        country: areas.country,
    }
}

/// The address that the areas and what lies nearest give: that of an address
/// point if one is near enough, else that of a house number along a line, else
/// that of a street, else the areas alone, if they name a country or a city.
/// An error where a name cannot be read.
pub open spec fn address_of(idx: GeoIndex, areas: AreaModel, geo: GeoModel) -> Result<
    AddressModel,
    IndexError,
> {
    if geo.addr_is_near() {
        let (_, point) = geo.addr->0;
        if idx.has_text(point.housenumber_id) && idx.has_text(point.street_id) {
            Ok(
                address_in(
                    areas,
                    Some(idx.text(point.housenumber_id)),
                    Some(idx.text(point.street_id)),
                ),
            )
        } else {
            Err(IndexError::OutOfRange)
        }
    } else if geo.interp_is_near() {
        Ok(
            address_in(
                areas,
                Some(decimal(geo.interp->0.number as int)),
                Some(geo.interp->0.street),
            ),
        )
    } else if geo.street_is_near() {
        let (_, way) = geo.street->0;
        if idx.has_text(way.name_id) {
            Ok(address_in(areas, None, Some(idx.text(way.name_id))))
        } else {
            Err(IndexError::OutOfRange)
        }
    } else if areas.country is Some || areas.city is Some {
        Ok(address_in(areas, None, None))
    } else {
        Ok(no_address())
    }
}

/// The address from the areas and the outcome of the search for what lies
/// nearest.
pub open spec fn address_from(
    idx: GeoIndex,
    areas: AreaModel,
    geo: Result<GeoModel, IndexError>,
) -> Result<AddressModel, IndexError> {
    match geo {
        Ok(geo) => address_of(idx, areas, geo),
        Err(e) => Err(e),
    }
}

/// `r` is the address of the point, once the areas are known.
pub open spec fn address_in_areas<
    P: Fn(Position, NodeCoord) -> u64,
    S: Fn(Position, NodeCoord, NodeCoord) -> u64,
    L: Fn(Position, &Vec<NodeCoord>) -> bool,
    A: Fn(Position, &Vec<NodeCoord>, usize) -> u64,
    N: Fn(u32, u32, u64, u32) -> u32,
>(
    idx: GeoIndex,
    p: Position,
    to_point: P,
    to_segment: S,
    has_length: L,
    along: A,
    count_steps: N,
    areas: Option<AreaModel>,
    r: Result<AddressModel, IndexError>,
) -> bool {
    match areas {
        None => r == Err::<AddressModel, _>(IndexError::OutOfRange),
        Some(areas) => exists|geo: Result<GeoModel, IndexError>| #[trigger]
            geo_found(idx, p, to_point, to_segment, has_length, along, count_steps, geo) && r
                == address_from(idx, areas, geo),
    }
}

/// `r` is the address of the point, as the functions passed in measure.
pub open spec fn address_found<
    F: Fn(Position, NodeCoord, NodeCoord) -> bool,
    P: Fn(Position, NodeCoord) -> u64,
    S: Fn(Position, NodeCoord, NodeCoord) -> u64,
    L: Fn(Position, &Vec<NodeCoord>) -> bool,
    A: Fn(Position, &Vec<NodeCoord>, usize) -> u64,
    N: Fn(u32, u32, u64, u32) -> u32,
>(
    idx: GeoIndex,
    p: Position,
    crosses: F,
    to_point: P,
    to_segment: S,
    has_length: L,
    along: A,
    count_steps: N,
    r: Result<AddressModel, IndexError>,
) -> bool {
    exists|areas: Option<AreaModel>| #[trigger]
        areas_found(idx, p, crosses, areas) && address_in_areas(
            idx,
            p,
            to_point,
            to_segment,
            has_length,
            along,
            count_steps,
            areas,
            r,
        )
}

/// The outcome of a search for an address.
pub open spec fn address_result(r: Result<Address, IndexError>) -> Result<
    AddressModel,
    IndexError,
> {
    match r {
        Ok(a) => Ok(a@),
        Err(e) => Err(e),
    }
}

impl<'a> Address<'a> {
    fn within(
        areas: AdminResult<'a>,
        housenumber: Option<String>,
        street: Option<&'a str>,
    ) -> (r: Self)
        ensures
            r@ == address_in(areas@, option_view(housenumber), str_option_view(street)),
    {
        Address {
            housenumber,
            street,
            city: areas.city,
            state: areas.state,
            postcode: areas.postcode,
            country: areas.country,
        }
    }
}

impl<'a> Default for Address<'a> {
    fn default() -> (r: Self)
        ensures
            r@ == no_address(),
    {
        Address {
            housenumber: None,
            street: None,
            city: None,
            state: None,
            postcode: None,
            country: None,
        }
    }
}

impl<'a> GeoIndex<'a> {
    /// Finds what lies nearest to a point. `to_point` and `to_segment` measure
    /// from the point, as squared distances in radians; `has_length` tells
    /// whether a line has any length, `along` how far along a line the place
    /// nearest to the point is, given the nearest segment, and `count_steps` how
    /// many house numbers that is, given the first number, the last one, the
    /// place, and the step.
    pub fn query_geo<
        P: Fn(Position, NodeCoord) -> u64,
        S: Fn(Position, NodeCoord, NodeCoord) -> u64,
        L: Fn(Position, &Vec<NodeCoord>) -> bool,
        A: Fn(Position, &Vec<NodeCoord>, usize) -> u64,
        N: Fn(u32, u32, u64, u32) -> u32,
    >(
        &self,
        p: Position,
        to_point: &P,
        to_segment: &S,
        has_length: &L,
        along: &A,
        count_steps: &N,
    ) -> (r: Result<GeoResult<'a>, IndexError>)
        requires
            p.is_valid(),
            forall|q: Position, a: NodeCoord| call_requires(*to_point, (q, a)),
            forall|q: Position, a: NodeCoord, b: NodeCoord| call_requires(*to_segment, (q, a, b)),
            forall|q: Position, v: Vec<NodeCoord>| #[trigger] call_requires(*has_length, (q, &v)),
            forall|q: Position, v: Vec<NodeCoord>, i: usize| #[trigger]
                call_requires(*along, (q, &v, i)),
            forall|a: u32, b: u32, t: u64, step: u32| call_requires(*count_steps, (a, b, t, step)),
        ensures
            geo_found(
                *self,
                p,
                *to_point,
                *to_segment,
                *has_length,
                *along,
                *count_steps,
                geo_result(r),
            ),
    {
        let cells = list_cells_around(p.leaf, STREET_CELL_LEVEL);
        let entries = self.read_geo_entries(&cells);
        let addr = find_address(self, p, to_point, &entries.addr);
        let street = find_street(self, p, to_segment, &entries.street);
        let interp = find_interpolation(
            self,
            p,
            has_length,
            to_segment,
            along,
            count_steps,
            &entries.interp,
        );
        let ghost told = geo_of(addr.ok(), street.ok(), interpolated_result(interp));
        let addr = match addr {
            Ok(addr) => addr,
            Err(e) => {
                assert(told == Err::<GeoModel, _>(e));
                return Err(e);
            },
        };
        let street = match street {
            Ok(street) => street,
            Err(e) => {
                assert(told == Err::<GeoModel, _>(e));
                return Err(e);
            },
        };
        let interp = match interp {
            Ok(interp) => interp,
            Err(e) => {
                assert(told == Err::<GeoModel, _>(e));
                return Err(e);
            },
        };
        let geo = GeoResult { addr, interp, street };
        assert(told == Ok::<_, IndexError>(geo@));
        Ok(geo)
    }

    /// Finds the areas that a point lies in. `crosses` decides whether a ray
    /// from the point meets an edge.
    pub fn find_admin<F: Fn(Position, NodeCoord, NodeCoord) -> bool>(
        &self,
        p: Position,
        crosses: &F,
    ) -> (r: Result<AdminResult<'a>, IndexError>)
        requires
            p.is_valid(),
            forall|q: Position, a: NodeCoord, b: NodeCoord| call_requires(*crosses, (q, a, b)),
        ensures
            areas_found(*self, p, *crosses, area_result(r)),
            r is Err ==> r->Err_0 == IndexError::OutOfRange,
    {
        let cells = list_cells_around(p.leaf, ADMIN_CELL_LEVEL);
        let claims = self.read_admin_claims(&cells);
        let test = PointTest { axis: Axis::Lng, least_corners: 0, refuses_empty: true };
        let choice = choose_boundaries(crosses, test, p, self.admin_vertices, &claims);
        let ghost told = areas_of(*self, choice_view(choice));
        let best = match choice {
            Ok(best) => best,
            Err(e) => {
                assert(told is None);
                return Err(e);
            },
        };
        if !check_names(self, &best) {
            assert(told is None);
            return Err(IndexError::OutOfRange);
        }
        let areas = AdminResult {
            country: read_level_name(self, &best, 2),
            state: read_level_name(self, &best, 4),
            county: read_level_name(self, &best, 6),
            city: read_level_name(self, &best, 8),
            postcode: read_level_name(self, &best, 11),
        };
        assert(told == Some(areas@));
        Ok(areas)
    }

    /// Puts an address together from the areas and what lies nearest.
    pub fn choose_address(&self, areas: AdminResult<'a>, geo: GeoResult<'a>) -> (r: Result<
        Address<'a>,
        IndexError,
    >)
        ensures
            address_result(r) == address_of(*self, areas@, geo@),
    {
        if let Some((dist, point)) = geo.addr {
            if is_double_less(dist, MAX_ADDR_DIST) {
                return match (
                    self.string_at(point.housenumber_id),
                    self.string_at(point.street_id),
                ) {
                    (Some(number), Some(street)) => Ok(
                        Address::within(areas, Some(number.to_string()), Some(street)),
                    ),
                    _ => Err(IndexError::OutOfRange),
                };
            }
        }
        if let Some(m) = geo.interp {
            if is_double_less(m.dist, MAX_ADDR_DIST) {
                return Ok(Address::within(areas, Some(to_decimal(m.number)), Some(m.street)));
            }
        }
        if let Some((dist, way)) = geo.street {
            if is_double_less(dist, MAX_STREET_DIST) {
                return match self.string_at(way.name_id) {
                    Some(street) => Ok(Address::within(areas, None, Some(street))),
                    None => Err(IndexError::OutOfRange),
                };
            }
        }
        if areas.country.is_some() || areas.city.is_some() {
            return Ok(Address::within(areas, None, None));
        }
        Ok(Address::default())
    }

    /// Finds the address of a point. `crosses` is that of `find_admin`, and the
    /// other functions are those of `query_geo`; the limits hold for squared
    /// distances in radians.
    pub fn query<
        F: Fn(Position, NodeCoord, NodeCoord) -> bool,
        P: Fn(Position, NodeCoord) -> u64,
        S: Fn(Position, NodeCoord, NodeCoord) -> u64,
        L: Fn(Position, &Vec<NodeCoord>) -> bool,
        A: Fn(Position, &Vec<NodeCoord>, usize) -> u64,
        N: Fn(u32, u32, u64, u32) -> u32,
    >(
        &self,
        p: Position,
        crosses: &F,
        to_point: &P,
        to_segment: &S,
        has_length: &L,
        along: &A,
        count_steps: &N,
    ) -> (r: Result<Address<'a>, IndexError>)
        requires
            p.is_valid(),
            forall|q: Position, a: NodeCoord, b: NodeCoord| call_requires(*crosses, (q, a, b)),
            forall|q: Position, a: NodeCoord| call_requires(*to_point, (q, a)),
            forall|q: Position, a: NodeCoord, b: NodeCoord| call_requires(*to_segment, (q, a, b)),
            forall|q: Position, v: Vec<NodeCoord>| #[trigger] call_requires(*has_length, (q, &v)),
            forall|q: Position, v: Vec<NodeCoord>, i: usize| #[trigger]
                call_requires(*along, (q, &v, i)),
            forall|a: u32, b: u32, t: u64, step: u32| call_requires(*count_steps, (a, b, t, step)),
        ensures
            address_found(
                *self,
                p,
                *crosses,
                *to_point,
                *to_segment,
                *has_length,
                *along,
                *count_steps,
                address_result(r),
            ),
    {
        let areas = match self.find_admin(p, crosses) {
            Ok(areas) => areas,
            Err(e) => return Err(e),
        };
        let geo = match self.query_geo(
            p,
            to_point,
            to_segment,
            has_length,
            along,
            count_steps,
        ) {
            Ok(geo) => geo,
            Err(e) => {
                assert(areas_found(*self, p, *crosses, Some(areas@)));
                assert(geo_found(
                    *self,
                    p,
                    *to_point,
                    *to_segment,
                    *has_length,
                    *along,
                    *count_steps,
                    Err(e),
                ));
                return Err(e);
            },
        };
        assert(areas_found(*self, p, *crosses, Some(areas@)));
        assert(geo_found(
            *self,
            p,
            *to_point,
            *to_segment,
            *has_length,
            *along,
            *count_steps,
            Ok(geo@),
        ));
        self.choose_address(areas, geo)
    }
}

/// An address with a house number has a street. An address either is empty or
/// names the areas that the point lies in; it is empty only where nothing is
/// near enough and the areas name neither a country nor a city.
pub proof fn law_address_names_the_areas(idx: GeoIndex, areas: AreaModel, geo: GeoModel)
    requires
        address_of(idx, areas, geo) is Ok,
    ensures
        ({
            let a = address_of(idx, areas, geo)->Ok_0;
            &&& a.housenumber is Some ==> a.street is Some
            &&& a == no_address() || a == address_in(areas, a.housenumber, a.street)
            &&& a == no_address() ==> areas.country is None && areas.city is None
                && !geo.addr_is_near() && !geo.interp_is_near() && !geo.street_is_near()
        }),
{
}

/// The address is that of the nearest address point, if it is within the limit for
/// addresses; else the number in decimal and the street of the nearest line of
/// house numbers, if it is within that limit, whatever the nearest street is; else
/// the nearest street, if it is within the limit for streets; else the areas alone,
/// if they name a country or a city; else nothing. The limits are the squares of
/// 0.0005 and of 0.0007 degrees, in radians.
pub proof fn law_address_is_taken_in_turn(idx: GeoIndex, areas: AreaModel, geo: GeoModel)
    ensures
        ({
            let by_point = match geo.addr {
                Some((dist, _)) => double_less(dist, 0x3DD4_EEE2_E5F3_2FC4),
                None => false,
            };
            let by_line = !by_point && match geo.interp {
                Some(m) => double_less(m.dist, 0x3DD4_EEE2_E5F3_2FC4),
                None => false,
            };
            let by_street = !by_point && !by_line && match geo.street {
                Some((dist, _)) => double_less(dist, 0x3DE4_83B5_6678_9016),
                None => false,
            };
            let by_areas = !by_point && !by_line && !by_street && (areas.country is Some
                || areas.city is Some);
            match address_of(idx, areas, geo) {
                Ok(a) => {
                    &&& by_point ==> match geo.addr {
                        Some((_, point)) => point.housenumber_id <= idx.strings@.len()
                            && point.street_id <= idx.strings@.len() && a.housenumber == Some(
                            idx.text(point.housenumber_id),
                        ) && a.street == Some(idx.text(point.street_id)),
                        None => false,
                    }
                    &&& by_line ==> match geo.interp {
                        Some(m) => a.housenumber == Some(decimal(m.number as int)) && a.street
                            == Some(m.street),
                        None => false,
                    }
                    &&& by_street ==> match geo.street {
                        Some((_, way)) => way.name_id <= idx.strings@.len() && a.housenumber is None
                            && a.street == Some(idx.text(way.name_id)),
                        None => false,
                    }
                    &&& !by_point && !by_line && !by_street ==> a.housenumber is None && a.street
                        is None
                    &&& by_point || by_line || by_street || by_areas ==> a.city == areas.city
                        && a.state == areas.state && a.postcode == areas.postcode && a.country
                        == areas.country
                    &&& !by_point && !by_line && !by_street && !by_areas ==> a.city is None
                        && a.state is None && a.postcode is None && a.country is None
                },
                Err(e) => e == IndexError::OutOfRange && ((by_point && match geo.addr {
                    Some((_, point)) => point.housenumber_id > idx.strings@.len() || point.street_id
                        > idx.strings@.len(),
                    None => false,
                }) || (by_street && match geo.street {
                    Some((_, way)) => way.name_id > idx.strings@.len(),
                    None => false,
                })),
            }
        }),
{
}

/// What lies nearest is all three sorts, each as it was found; it is had if and only
/// if each search came to an end.
pub proof fn law_all_three_sorts_are_told(
    addr: Option<Option<(u64, AddrPoint)>>,
    street: Option<Option<(u64, WayHeader)>>,
    interp: Result<Option<InterpolatedModel>, IndexError>,
)
    ensures
        geo_of(addr, street, interp) is Ok <==> addr is Some && street is Some && interp is Ok,
        geo_of(addr, street, interp) is Ok ==> {
            let geo = geo_of(addr, street, interp)->Ok_0;
            &&& Some(geo.addr) == addr
            &&& Some(geo.street) == street
            &&& Ok::<_, IndexError>(geo.interp) == interp
        },
        addr is None || street is None ==> geo_of(addr, street, interp) == Err::<GeoModel, _>(
            IndexError::OutOfRange,
        ),
        addr is Some && street is Some && interp is Err ==> geo_of(addr, street, interp) == Err::<
            GeoModel,
            _,
        >(interp->Err_0),
{
}

/// Whether a boundary is listed for a point, by its own cell or by one that touches
/// it, and holds the point: its own cell is listed as lying inside, or a ray from
/// the point across the longitude meets the whole polygon an odd number of times.
pub open spec fn is_listed_round<F: Fn(Position, NodeCoord, NodeCoord) -> bool>(
    idx: GeoIndex,
    p: Position,
    crosses: F,
    b: Boundary,
) -> bool {
    let own = ancestor(p.leaf, 10);
    let table = boundaries_of(idx.admin_polygons@);
    let nodes = nodes_of(idx.admin_vertices@);
    exists|cell: u64, entry: u32|
        (cell == own || touching_cells(own, 10).contains(cell)) && #[trigger] entry_ids(
            idx.admin_entries@,
            cell_offset(idx.admin_cells@, cell),
        ).contains(entry) && entry as int % 0x8000_0000 < table.len() && b == table[entry as int
            % 0x8000_0000] && ((cell == own && entry >= 0x8000_0000) || (b.vertex_count > 0
            && b.vertex_offset + b.vertex_count <= nodes.len() && casts_to(
            crosses,
            Axis::Lng,
            p,
            nodes.subrange(b.vertex_offset as int, b.vertex_offset + b.vertex_count),
            true,
        )))
}

/// Whether a name is that of a smallest boundary of a level that is listed for a
/// point and holds it, or there is no name and no such boundary.
pub open spec fn names_the_smallest<F: Fn(Position, NodeCoord, NodeCoord) -> bool>(
    idx: GeoIndex,
    p: Position,
    crosses: F,
    level: u8,
    name: Option<Seq<char>>,
) -> bool {
    match name {
        Some(text) => exists|b: Boundary| #[trigger]
            is_listed_round(idx, p, crosses, b) && b.admin_level == level && text == idx.text(
                b.name_id,
            ) && forall|c: Boundary| #[trigger]
                is_listed_round(idx, p, crosses, c) && c.admin_level == level ==> single_rank(b.area)
                    <= single_rank(c.area),
        None => forall|c: Boundary| #[trigger]
            is_listed_round(idx, p, crosses, c) ==> c.admin_level != level,
    }
}

proof fn lemma_listed_claim<F: Fn(Position, NodeCoord, NodeCoord) -> bool>(
    idx: GeoIndex,
    p: Position,
    crosses: F,
    b: Boundary,
) -> (i: int)
    requires
        is_listed_round(idx, p, crosses, b),
    ensures
        ({
            let claims = idx.admin_claims(cells_around(p.leaf, ADMIN_CELL_LEVEL));
            &&& 0 <= i < claims.len()
            &&& claims[i].boundary == Some(b)
            &&& claim_holds(crosses, area_test(), p, nodes_of(idx.admin_vertices@), claims[i])
        }),
{
    let own = ancestor(p.leaf, 10);
    let cells = cells_around(p.leaf, 10);
    let table = boundaries_of(idx.admin_polygons@);
    let nodes = nodes_of(idx.admin_vertices@);
    let (cell, entry) = choose|cell: u64, entry: u32|
        (cell == own || touching_cells(own, 10).contains(cell)) && #[trigger] entry_ids(
            idx.admin_entries@,
            cell_offset(idx.admin_cells@, cell),
        ).contains(entry) && entry as int % 0x8000_0000 < table.len() && b == table[entry as int
            % 0x8000_0000] && ((cell == own && entry >= 0x8000_0000) || (b.vertex_count > 0
            && b.vertex_offset + b.vertex_count <= nodes.len() && casts_to(
            crosses,
            Axis::Lng,
            p,
            nodes.subrange(b.vertex_offset as int, b.vertex_offset + b.vertex_count),
            true,
        )));
    let listed = entry_ids(idx.admin_entries@, cell_offset(idx.admin_cells@, own));
    let offsets = cell_offsets(idx.admin_cells@, cells.skip(1));
    let beside = all_entry_ids(idx.admin_entries@, offsets);
    assert(cells[0] == own);
    assert(cells.skip(1) =~= touching_cells(own, 10));
    if cell == own {
        let k = choose|k: int| 0 <= k < listed.len() && listed[k] == entry;
        k
    } else {
        let j = choose|j: int|
            0 <= j < touching_cells(own, 10).len() && touching_cells(own, 10)[j] == cell;
        assert(offsets[j] == cell_offset(idx.admin_cells@, cell));
        lemma_entry_is_listed(idx.admin_entries@, offsets, entry);
        let k = choose|k: int| 0 <= k < beside.len() && beside[k] == entry;
        listed.len() + k
    }
}

proof fn lemma_claim_is_listed<F: Fn(Position, NodeCoord, NodeCoord) -> bool>(
    idx: GeoIndex,
    p: Position,
    crosses: F,
    i: int,
)
    requires
        ({
            let claims = idx.admin_claims(cells_around(p.leaf, ADMIN_CELL_LEVEL));
            &&& 0 <= i < claims.len()
            &&& claim_holds(crosses, area_test(), p, nodes_of(idx.admin_vertices@), claims[i])
        }),
    ensures
        is_listed_round(
            idx,
            p,
            crosses,
            idx.admin_claims(cells_around(p.leaf, ADMIN_CELL_LEVEL))[i].boundary->0,
        ),
{
    let own = ancestor(p.leaf, 10);
    let cells = cells_around(p.leaf, 10);
    let listed = entry_ids(idx.admin_entries@, cell_offset(idx.admin_cells@, own));
    let offsets = cell_offsets(idx.admin_cells@, cells.skip(1));
    let beside = all_entry_ids(idx.admin_entries@, offsets);
    assert(cells[0] == own);
    assert(cells.skip(1) =~= touching_cells(own, 10));
    if i < listed.len() {
        assert(entry_ids(idx.admin_entries@, cell_offset(idx.admin_cells@, own)).contains(
            listed[i],
        ));
    } else {
        let entry = beside[i - listed.len()];
        assert(beside.contains(entry));
        lemma_entry_is_listed(idx.admin_entries@, offsets, entry);
        let j = choose|j: int|
            0 <= j < offsets.len() && entry_ids(
                idx.admin_entries@,
                #[trigger] offsets[j],
            ).contains(entry);
        let cell = touching_cells(own, 10)[j];
        assert(touching_cells(own, 10).contains(cell));
        assert(entry_ids(idx.admin_entries@, cell_offset(idx.admin_cells@, cell)).contains(entry));
    }
}

/// The areas of a point are named by the smallest boundaries that are listed for it
/// and hold it: the country by level 2, the state by level 4, the county by level 6,
/// the city by level 8 and the postcode by level 11, each where there is one. This
/// needs areas that are numbers, and a `crosses` that answers always the same way.
pub proof fn law_areas_are_the_smallest_that_hold<F: Fn(Position, NodeCoord, NodeCoord) -> bool>(
    idx: GeoIndex,
    p: Position,
    crosses: F,
    areas: AreaModel,
)
    requires
        answers_edges_once(crosses),
        forall|i: int|
            0 <= i < boundaries_of(idx.admin_polygons@).len() ==> !single_is_nan(
                (#[trigger] boundaries_of(idx.admin_polygons@)[i]).area,
            ),
        areas_found(idx, p, crosses, Some(areas)),
    ensures
        names_the_smallest(idx, p, crosses, 2, areas.country),
        names_the_smallest(idx, p, crosses, 4, areas.state),
        names_the_smallest(idx, p, crosses, 6, areas.county),
        names_the_smallest(idx, p, crosses, 8, areas.city),
        names_the_smallest(idx, p, crosses, 11, areas.postcode),
{
    let claims = idx.admin_claims(cells_around(p.leaf, ADMIN_CELL_LEVEL));
    let nodes = nodes_of(idx.admin_vertices@);
    let choice = choose|best: Option<Seq<Option<Boundary>>>| #[trigger]
        chosen(crosses, area_test(), p, nodes, claims, best) && Some(areas) == areas_of(idx, best);
    let best = choice->0;
    law_choice_is_a_smallest_that_holds(crosses, area_test(), p, nodes, claims, best);
    assert forall|c: Boundary| #[trigger] is_listed_round(idx, p, crosses, c) && c.admin_level
        < 12 implies best[c.admin_level as int] is Some && single_rank(
        best[c.admin_level as int]->0.area,
    ) <= single_rank(c.area) by {
        let i = lemma_listed_claim(idx, p, crosses, c);
        assert(claims[i].boundary == Some(c));
    }
    assert forall|level: u8| level < 12 implies #[trigger] names_the_smallest(
        idx,
        p,
        crosses,
        level,
        level_name(idx, best, level as int),
    ) by {
        if let Some(b) = best[level as int] {
            let i = choose|i: int|
                0 <= i < claims.len() && (#[trigger] claims[i]).boundary == best[level as int]
                    && claim_holds(crosses, area_test(), p, nodes, claims[i]);
            lemma_claim_is_listed(idx, p, crosses, i);
            assert(is_listed_round(idx, p, crosses, b));
        }
    }
}

/// The areas of a point are had wherever every listed entry leads to a boundary,
/// and every boundary has corners that are in the table and a name that is.
pub proof fn law_areas_are_had_from_a_sound_index<
    F: Fn(Position, NodeCoord, NodeCoord) -> bool,
>(idx: GeoIndex, p: Position, crosses: F, r: Option<AreaModel>)
    requires
        areas_found(idx, p, crosses, r),
        forall|cell: u64, entry: u32| #[trigger]
            entry_ids(idx.admin_entries@, cell_offset(idx.admin_cells@, cell)).contains(entry)
                ==> entry as int % 0x8000_0000 < boundaries_of(idx.admin_polygons@).len(),
        forall|i: int|
            0 <= i < boundaries_of(idx.admin_polygons@).len() ==> {
                let b = #[trigger] boundaries_of(idx.admin_polygons@)[i];
                &&& b.vertex_count > 0
                &&& b.vertex_offset + b.vertex_count <= nodes_of(idx.admin_vertices@).len()
                &&& b.name_id <= idx.strings@.len()
            },
    ensures
        r is Some,
{
    let cells = cells_around(p.leaf, ADMIN_CELL_LEVEL);
    let claims = idx.admin_claims(cells);
    let nodes = nodes_of(idx.admin_vertices@);
    let table = boundaries_of(idx.admin_polygons@);
    let choice = choose|best: Option<Seq<Option<Boundary>>>| #[trigger]
        chosen(crosses, area_test(), p, nodes, claims, best) && r == areas_of(idx, best);
    let listed = entry_ids(idx.admin_entries@, cell_offset(idx.admin_cells@, cells[0]));
    let offsets = cell_offsets(idx.admin_cells@, cells.skip(1));
    let beside = all_entry_ids(idx.admin_entries@, offsets);
    assert forall|i: int| 0 <= i < claims.len() implies (#[trigger] claims[i]).boundary is Some
        && table.contains(claims[i].boundary->0) by {
        if i < listed.len() {
            assert(listed.contains(listed[i]));
            assert(claims[i].boundary == Some(table[listed[i] as int % 0x8000_0000]));
        } else {
            let entry = beside[i - listed.len()];
            assert(beside.contains(entry));
            lemma_entry_is_listed(idx.admin_entries@, offsets, entry);
            let j = choose|j: int|
                0 <= j < offsets.len() && entry_ids(
                    idx.admin_entries@,
                    #[trigger] offsets[j],
                ).contains(entry);
            assert(offsets[j] == cell_offset(idx.admin_cells@, cells.skip(1)[j]));
            assert(claims[i].boundary == Some(table[entry as int % 0x8000_0000]));
        }
    }
    law_choice_fails_only_on_malformed_claims(crosses, area_test(), p, nodes, claims, choice);
    let best = choice->0;
    law_choice_is_by_level(crosses, area_test(), p, nodes, claims, best);
    assert forall|level: int|
        0 <= level < best.len() && (#[trigger] best[level]) is Some implies idx.has_text(
        best[level]->0.name_id,
    ) by {
        let i = law_chosen_polygons_are_claimed(
            crosses,
            area_test(),
            p,
            nodes,
            claims,
            best,
            level,
        );
        assert(table.contains(claims[i].boundary->0));
    }
}

/// An address is made of the areas of the point, and of the nearest address, street
/// and house number, all looked for from that same point.
pub proof fn law_address_is_that_of_the_point<
    F: Fn(Position, NodeCoord, NodeCoord) -> bool,
    P: Fn(Position, NodeCoord) -> u64,
    S: Fn(Position, NodeCoord, NodeCoord) -> u64,
    L: Fn(Position, &Vec<NodeCoord>) -> bool,
    A: Fn(Position, &Vec<NodeCoord>, usize) -> u64,
    N: Fn(u32, u32, u64, u32) -> u32,
>(
    idx: GeoIndex,
    p: Position,
    crosses: F,
    to_point: P,
    to_segment: S,
    has_length: L,
    along: A,
    count_steps: N,
    r: Result<AddressModel, IndexError>,
)
    requires
        address_found(
            idx,
            p,
            crosses,
            to_point,
            to_segment,
            has_length,
            along,
            count_steps,
            r,
        ),
    ensures
        match r {
            Ok(a) => exists|areas: AreaModel, geo: GeoModel|
                {
                    &&& areas_found(idx, p, crosses, Some(areas))
                    &&& nearest_address(idx, p, to_point, Some(geo.addr))
                    &&& nearest_street(idx, p, to_segment, Some(geo.street))
                    &&& nearest_interpolation(
                        idx,
                        p,
                        has_length,
                        to_segment,
                        along,
                        count_steps,
                        Ok(geo.interp),
                    )
                    &&& #[trigger] address_of(idx, areas, geo) == Ok::<_, IndexError>(a)
                },
            Err(e) => {
                ||| areas_found(idx, p, crosses, None)
                ||| nearest_address(idx, p, to_point, None)
                ||| nearest_street(idx, p, to_segment, None)
                ||| nearest_interpolation(
                    idx,
                    p,
                    has_length,
                    to_segment,
                    along,
                    count_steps,
                    Err(e),
                )
                ||| exists|areas: AreaModel, geo: GeoModel|
                    {
                        &&& areas_found(idx, p, crosses, Some(areas))
                        &&& nearest_address(idx, p, to_point, Some(geo.addr))
                        &&& nearest_street(idx, p, to_segment, Some(geo.street))
                        &&& #[trigger] address_of(idx, areas, geo) == Err::<AddressModel, _>(e)
                    }
            },
        },
{
    let found = choose|areas: Option<AreaModel>| #[trigger]
        areas_found(idx, p, crosses, areas) && address_in_areas(
            idx,
            p,
            to_point,
            to_segment,
            has_length,
            along,
            count_steps,
            areas,
            r,
        );
    if let Some(areas) = found {
        let geo = choose|geo: Result<GeoModel, IndexError>| #[trigger]
            geo_found(idx, p, to_point, to_segment, has_length, along, count_steps, geo) && r
                == address_from(idx, areas, geo);
        if let Ok(geo) = geo {
            assert(r == address_of(idx, areas, geo));
        }
    }
}

/// A nearer sort does not hide behind a farther one: where an address point is
/// near enough, neither the lines nor the streets matter; and where no address
/// point and no line is near enough, the address has no house number.
pub proof fn law_address_prefers_the_exact(
    idx: GeoIndex,
    areas: AreaModel,
    geo: GeoModel,
    other: GeoModel,
)
    requires
        other.addr == geo.addr,
    ensures
        geo.addr_is_near() ==> address_of(idx, areas, geo) == address_of(idx, areas, other),
        !geo.addr_is_near() && !geo.interp_is_near() ==> match address_of(idx, areas, geo) {
            Ok(a) => a.housenumber is None,
            Err(_) => true,
        },
{
}

/// A point lies in one set of areas, as long as `crosses` answers always the
/// same way.
pub proof fn law_areas_are_determined<F: Fn(Position, NodeCoord, NodeCoord) -> bool>(
    idx: GeoIndex,
    p: Position,
    crosses: F,
    r: Option<AreaModel>,
    s: Option<AreaModel>,
)
    requires
        answers_edges_once(crosses),
        areas_found(idx, p, crosses, r),
        areas_found(idx, p, crosses, s),
    ensures
        r == s,
{
    let nodes = nodes_of(idx.admin_vertices@);
    let claims = idx.admin_claims(cells_around(p.leaf, ADMIN_CELL_LEVEL));
    let x = choose|x: Option<Seq<Option<Boundary>>>| #[trigger]
        chosen(crosses, area_test(), p, nodes, claims, x) && r == areas_of(idx, x);
    let y = choose|y: Option<Seq<Option<Boundary>>>| #[trigger]
        chosen(crosses, area_test(), p, nodes, claims, y) && s == areas_of(idx, y);
    law_choice_is_determined(crosses, area_test(), p, nodes, claims, x, y);
}

proof fn lemma_geo_once<
    P: Fn(Position, NodeCoord) -> u64,
    S: Fn(Position, NodeCoord, NodeCoord) -> u64,
    L: Fn(Position, &Vec<NodeCoord>) -> bool,
    A: Fn(Position, &Vec<NodeCoord>, usize) -> u64,
    N: Fn(u32, u32, u64, u32) -> u32,
>(
    idx: GeoIndex,
    p: Position,
    to_point: P,
    to_segment: S,
    has_length: L,
    along: A,
    count_steps: N,
    r: Result<GeoModel, IndexError>,
    s: Result<GeoModel, IndexError>,
)
    requires
        answers_points_once(to_point),
        answers_edges_once(to_segment),
        answers_lines_once(has_length),
        answers_along_once(along),
        answers_counts_once(count_steps),
        geo_found(idx, p, to_point, to_segment, has_length, along, count_steps, r),
        geo_found(idx, p, to_point, to_segment, has_length, along, count_steps, s),
    ensures
        r == s,
{
    let (a, b, c) = choose|
        a: Option<Option<(u64, AddrPoint)>>,
        b: Option<Option<(u64, WayHeader)>>,
        c: Result<Option<InterpolatedModel>, IndexError>,
    |
        #![trigger geo_of(a, b, c)]
        {
            &&& nearest_address(idx, p, to_point, a)
            &&& nearest_street(idx, p, to_segment, b)
            &&& nearest_interpolation(idx, p, has_length, to_segment, along, count_steps, c)
            &&& r == geo_of(a, b, c)
        };
    let (d, e, f) = choose|
        d: Option<Option<(u64, AddrPoint)>>,
        e: Option<Option<(u64, WayHeader)>>,
        f: Result<Option<InterpolatedModel>, IndexError>,
    |
        #![trigger geo_of(d, e, f)]
        {
            &&& nearest_address(idx, p, to_point, d)
            &&& nearest_street(idx, p, to_segment, e)
            &&& nearest_interpolation(idx, p, has_length, to_segment, along, count_steps, f)
            &&& s == geo_of(d, e, f)
        };
    law_nearest_address_is_determined(idx, p, to_point, a, d);
    law_nearest_street_is_determined(idx, p, to_segment, b, e);
    law_interpolation_is_determined(idx, p, has_length, to_segment, along, count_steps, c, f);
}

/// Whether `other` is an index with the same contents round the point, but for
/// streets that are listed again: the streets that are listed come first in the
/// same order. The id that marks an empty slot is no street.
pub open spec fn lists_streets_again(idx: GeoIndex, other: GeoIndex, p: Position) -> bool {
    let cells = cells_around(p.leaf, STREET_CELL_LEVEL);
    &&& other.street_ways@ == idx.street_ways@
    &&& other.street_nodes@ == idx.street_nodes@
    &&& other.addr_points@ == idx.addr_points@
    &&& other.interp_ways@ == idx.interp_ways@
    &&& other.interp_nodes@ == idx.interp_nodes@
    &&& other.strings@ == idx.strings@
    &&& other.addr_entries_in(cells) == idx.addr_entries_in(cells)
    &&& other.interp_entries_in(cells) == idx.interp_entries_in(cells)
    &&& firsts(other.street_entries_in(cells)) == firsts(idx.street_entries_in(cells))
    &&& !idx.street_entries_in(cells).contains(u32::MAX)
    &&& idx.street_entries_in(cells).len() <= usize::MAX
    &&& other.street_entries_in(cells).len() <= usize::MAX
}

/// Listing streets again, any number of times and later than they are listed
/// already, leaves what lies nearest, as long as the functions passed in answer
/// always the same way.
pub proof fn law_listing_streets_again_changes_nothing<
    P: Fn(Position, NodeCoord) -> u64,
    S: Fn(Position, NodeCoord, NodeCoord) -> u64,
    L: Fn(Position, &Vec<NodeCoord>) -> bool,
    A: Fn(Position, &Vec<NodeCoord>, usize) -> u64,
    N: Fn(u32, u32, u64, u32) -> u32,
>(
    idx: GeoIndex,
    other: GeoIndex,
    p: Position,
    to_point: P,
    to_segment: S,
    has_length: L,
    along: A,
    count_steps: N,
    r: Result<GeoModel, IndexError>,
    s: Result<GeoModel, IndexError>,
)
    requires
        answers_points_once(to_point),
        answers_edges_once(to_segment),
        answers_lines_once(has_length),
        answers_along_once(along),
        answers_counts_once(count_steps),
        lists_streets_again(idx, other, p),
        geo_found(idx, p, to_point, to_segment, has_length, along, count_steps, r),
        geo_found(other, p, to_point, to_segment, has_length, along, count_steps, s),
    ensures
        r == s,
{
    let (a, b, c) = choose|
        a: Option<Option<(u64, AddrPoint)>>,
        b: Option<Option<(u64, WayHeader)>>,
        c: Result<Option<InterpolatedModel>, IndexError>,
    |
        #![trigger geo_of(a, b, c)]
        {
            &&& nearest_address(idx, p, to_point, a)
            &&& nearest_street(idx, p, to_segment, b)
            &&& nearest_interpolation(idx, p, has_length, to_segment, along, count_steps, c)
            &&& r == geo_of(a, b, c)
        };
    let (d, e, f) = choose|
        d: Option<Option<(u64, AddrPoint)>>,
        e: Option<Option<(u64, WayHeader)>>,
        f: Result<Option<InterpolatedModel>, IndexError>,
    |
        #![trigger geo_of(d, e, f)]
        {
            &&& nearest_address(other, p, to_point, d)
            &&& nearest_street(other, p, to_segment, e)
            &&& nearest_interpolation(other, p, has_length, to_segment, along, count_steps, f)
            &&& s == geo_of(d, e, f)
        };
    lemma_address_by_tables(idx, other, p, to_point, d);
    lemma_interpolation_by_tables(
        idx,
        other,
        p,
        has_length,
        to_segment,
        along,
        count_steps,
        f,
    );
    law_nearest_address_is_determined(idx, p, to_point, a, d);
    law_repeated_streets_change_nothing(idx, other, p, to_segment, b, e);
    law_interpolation_is_determined(idx, p, has_length, to_segment, along, count_steps, c, f);
}

/// A point has one address, as long as the functions passed in answer always
/// the same way.
pub proof fn law_address_is_determined<
    F: Fn(Position, NodeCoord, NodeCoord) -> bool,
    P: Fn(Position, NodeCoord) -> u64,
    S: Fn(Position, NodeCoord, NodeCoord) -> u64,
    L: Fn(Position, &Vec<NodeCoord>) -> bool,
    A: Fn(Position, &Vec<NodeCoord>, usize) -> u64,
    N: Fn(u32, u32, u64, u32) -> u32,
>(
    idx: GeoIndex,
    p: Position,
    crosses: F,
    to_point: P,
    to_segment: S,
    has_length: L,
    along: A,
    count_steps: N,
    r: Result<AddressModel, IndexError>,
    s: Result<AddressModel, IndexError>,
)
    requires
        answers_edges_once(crosses),
        answers_points_once(to_point),
        answers_edges_once(to_segment),
        answers_lines_once(has_length),
        answers_along_once(along),
        answers_counts_once(count_steps),
        address_found(
            idx,
            p,
            crosses,
            to_point,
            to_segment,
            has_length,
            along,
            count_steps,
            r,
        ),
        address_found(
            idx,
            p,
            crosses,
            to_point,
            to_segment,
            has_length,
            along,
            count_steps,
            s,
        ),
    ensures
        r == s,
{
    let x = choose|x: Option<AreaModel>| #[trigger]
        areas_found(idx, p, crosses, x) && address_in_areas(
            idx,
            p,
            to_point,
            to_segment,
            has_length,
            along,
            count_steps,
            x,
            r,
        );
    let y = choose|y: Option<AreaModel>| #[trigger]
        areas_found(idx, p, crosses, y) && address_in_areas(
            idx,
            p,
            to_point,
            to_segment,
            has_length,
            along,
            count_steps,
            y,
            s,
        );
    law_areas_are_determined(idx, p, crosses, x, y);
    if let Some(areas) = x {
        let a = choose|a: Result<GeoModel, IndexError>| #[trigger]
            geo_found(idx, p, to_point, to_segment, has_length, along, count_steps, a) && r
                == address_from(idx, areas, a);
        let b = choose|b: Result<GeoModel, IndexError>| #[trigger]
            geo_found(idx, p, to_point, to_segment, has_length, along, count_steps, b) && s
                == address_from(idx, areas, b);
        lemma_geo_once(
            idx,
            p,
            to_point,
            to_segment,
            has_length,
            along,
            count_steps,
            a,
            b,
        );
    }
}

} // verus!
