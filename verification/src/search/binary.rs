//! The binary index of the place search.
use crate::boundary::{claim_of, claims_of, entry_id, entry_is_interior, Boundary, Claim};
use crate::bytes::{
    all_entry_ids, cell_offset, cell_offsets, entry_ids, le16, le32, lookup_cell, lookup_cells,
    read_all_entry_ids, read_entry_ids, read_text, read_u16, read_u32, row_count, text_at,
};
use crate::geometry::{nodes_of, read_nodes};
use vstd::prelude::*;

pub use crate::boundary::{ID_MASK, INTERIOR_FLAG};
pub use crate::bytes::NO_DATA;
pub use crate::geometry::NodeCoord;

verus! {

/// A stretch of a street.
#[derive(Clone, Copy, Debug, PartialEq, Eq, Structural)]
pub struct WayHeader {
    pub node_offset: u32,
    pub node_count: u8,
    pub name_id: u32,
    pub postcode_id: u32,
}

/// An administrative area.
#[derive(Clone, Copy, Debug, PartialEq, Eq, Structural)]
pub struct AdminPolygon {
    pub vertex_offset: u32,
    pub vertex_count: u16,
    pub name_id: u32,
    pub admin_level: u8,
    /// The single-precision pattern of the area.
    pub area: u32,
    pub country_code: u16,
}

/// A named place or point of interest.
#[derive(Clone, Copy, Debug, PartialEq, Eq, Structural)]
pub struct PlaceFeature {
    /// The single-precision pattern of the latitude.
    pub lat: u32,
    /// The single-precision pattern of the longitude.
    pub lng: u32,
    pub name_id: u32,
    pub feature_type: u8,
}

impl AdminPolygon {
    /// What the choice between polygons looks at.
    pub open spec fn as_boundary(self) -> Boundary {
        Boundary {
            vertex_offset: self.vertex_offset,
            vertex_count: self.vertex_count,
            name_id: self.name_id,
            admin_level: self.admin_level,
            area: self.area,
        }
    }

    pub fn boundary(&self) -> (r: Boundary)
        ensures
            r == self.as_boundary(),
    {
        Boundary {
            vertex_offset: self.vertex_offset,
            vertex_count: self.vertex_count,
            name_id: self.name_id,
            admin_level: self.admin_level,
            area: self.area,
        }
    }
}

/// The contents of the index files.
#[derive(Clone, Copy)]
pub struct BinaryIndex<'a> {
    pub admin_cells: &'a [u8],
    pub admin_entries: &'a [u8],
    pub admin_polygons: &'a [u8],
    pub admin_vertices: &'a [u8],
    pub place_cells: &'a [u8],
    pub place_entries: &'a [u8],
    pub street_ways: &'a [u8],
    pub street_nodes: &'a [u8],
    pub place_features: &'a [u8],
    pub strings: &'a [u8],
}

// --- Records ---

/// The way in row `i`, of sixteen bytes.
pub open spec fn way_at(table: Seq<u8>, i: int) -> WayHeader {
    WayHeader {
        node_offset: le32(table, 16 * i) as u32,
        node_count: table[16 * i + 4],
        name_id: le32(table, 16 * i + 8) as u32,
        postcode_id: le32(table, 16 * i + 12) as u32,
    }
}

/// All ways of a table.
pub open spec fn ways_of(table: Seq<u8>) -> Seq<WayHeader> {
    Seq::new(row_count(table, 16) as nat, |i: int| way_at(table, i))
}

/// The polygon in row `i`, of twenty-four bytes.
pub open spec fn polygon_at(table: Seq<u8>, i: int) -> AdminPolygon {
    AdminPolygon {
        vertex_offset: le32(table, 24 * i) as u32,
        vertex_count: le16(table, 24 * i + 4) as u16,
        name_id: le32(table, 24 * i + 8) as u32,
        admin_level: table[24 * i + 12],
        area: le32(table, 24 * i + 16) as u32,
        country_code: le16(table, 24 * i + 20) as u16,
    }
}

/// All polygons of a table.
pub open spec fn polygons_of(table: Seq<u8>) -> Seq<AdminPolygon> {
    Seq::new(row_count(table, 24) as nat, |i: int| polygon_at(table, i))
}

/// The feature in row `i`, of sixteen bytes.
pub open spec fn feature_at(table: Seq<u8>, i: int) -> PlaceFeature {
    PlaceFeature {
        lat: le32(table, 16 * i) as u32,
        lng: le32(table, 16 * i + 4) as u32,
        name_id: le32(table, 16 * i + 8) as u32,
        feature_type: table[16 * i + 12],
    }
}

/// All features of a table.
pub open spec fn features_of(table: Seq<u8>) -> Seq<PlaceFeature> {
    Seq::new(row_count(table, 16) as nat, |i: int| feature_at(table, i))
}

/// The boundaries of a table.
pub open spec fn boundaries_of(table: Seq<u8>) -> Seq<Boundary> {
    polygons_of(table).map_values(|p: AdminPolygon| p.as_boundary())
}

/// The first rows with the next one behind them are the first rows still.
proof fn lemma_next_row<T>(all: Seq<T>, rows: Seq<T>)
    requires
        rows.is_prefix_of(all),
    ensures
        rows.len() < all.len() ==> rows.push(all[rows.len() as int]).is_prefix_of(all),
        rows.len() == all.len() ==> rows == all,
{
    assert(all.take(all.len() as int) =~= all);
    if rows.len() < all.len() {
        assert(all.take(rows.len() as int + 1) =~= rows.push(all[rows.len() as int]));
    }
}

impl<'a> BinaryIndex<'a> {
    /// Whether `offset` names a text: the place of one, or nothing.
    pub open spec fn has_text(&self, offset: u32) -> bool {
        offset == NO_DATA || offset <= self.strings@.len()
    }

    /// The text at `offset`; empty where there is none.
    pub open spec fn text(&self, offset: u32) -> Seq<char> {
        if offset == NO_DATA {
            seq![]
        } else {
            text_at(self.strings@, offset as int)
        }
    }

    /// The text at `offset`.
    pub fn get_string(&self, offset: u32) -> (r: &'a str)
        requires
            self.has_text(offset),
        ensures
            r@ == self.text(offset),
    {
        if offset == NO_DATA {
            proof {
                reveal_strlit("");
            }
            assert(""@ =~= seq![]);
            ""
        } else {
            read_text(self.strings, offset as usize)
        }
    }

    /// The text at `offset`, where it names one.
    pub fn string_at(&self, offset: u32) -> (r: Option<&'a str>)
        ensures
            match r {
                Some(s) => self.has_text(offset) && s@ == self.text(offset),
                None => !self.has_text(offset),
            },
    {
        if offset == NO_DATA || offset as usize <= self.strings.len() {
            Some(self.get_string(offset))
        } else {
            None
        }
    }

    /// The way in row `i`, where the table has it.
    pub fn way(&self, i: usize) -> (r: Option<WayHeader>)
        ensures
            r == (if i < ways_of(self.street_ways@).len() {
                Some(ways_of(self.street_ways@)[i as int])
            } else {
                None
            }),
    {
        let t = self.street_ways;
        if i < t.len() / 16 {
            let at: usize = 16 * i;
            Some(
                WayHeader {
                    node_offset: read_u32(t, at),
                    node_count: t[at + 4],
                    name_id: read_u32(t, at + 8),
                    postcode_id: read_u32(t, at + 12),
                },
            )
        } else {
            None
        }
    }

    /// The polygon in row `i`, where the table has it.
    pub fn polygon(&self, i: usize) -> (r: Option<AdminPolygon>)
        ensures
            r == (if i < polygons_of(self.admin_polygons@).len() {
                Some(polygons_of(self.admin_polygons@)[i as int])
            } else {
                None
            }),
    {
        let t = self.admin_polygons;
        if i < t.len() / 24 {
            let at: usize = 24 * i;
            Some(
                AdminPolygon {
                    vertex_offset: read_u32(t, at),
                    vertex_count: read_u16(t, at + 4),
                    name_id: read_u32(t, at + 8),
                    admin_level: t[at + 12],
                    area: read_u32(t, at + 16),
                    country_code: read_u16(t, at + 20),
                },
            )
        } else {
            None
        }
    }

    /// The feature in row `i`, where the table has it.
    pub fn place_feature(&self, i: usize) -> (r: Option<PlaceFeature>)
        ensures
            r == (if i < features_of(self.place_features@).len() {
                Some(features_of(self.place_features@)[i as int])
            } else {
                None
            }),
    {
        let t = self.place_features;
        if i < t.len() / 16 {
            let at: usize = 16 * i;
            Some(
                PlaceFeature {
                    lat: read_u32(t, at),
                    lng: read_u32(t, at + 4),
                    name_id: read_u32(t, at + 8),
                    feature_type: t[at + 12],
                },
            )
        } else {
            None
        }
    }

    /// All ways.
    pub fn ways(&self) -> (r: Vec<WayHeader>)
        ensures
            r@ == ways_of(self.street_ways@),
    {
        let mut rows: Vec<WayHeader> = Vec::new();
        let ghost all = ways_of(self.street_ways@);
        loop
            invariant
                all == ways_of(self.street_ways@),
                rows@.is_prefix_of(all),
            decreases all.len() - rows@.len(),
        {
            proof {
                lemma_next_row(all, rows@);
            }
            match self.way(rows.len()) {
                Some(row) => rows.push(row),
                None => return rows,
            }
        }
    }

    /// All points of the ways.
    pub fn nodes(&self) -> (r: Vec<NodeCoord>)
        ensures
            r@ == nodes_of(self.street_nodes@),
    {
        read_nodes(self.street_nodes)
    }

    /// All polygons.
    pub fn polygons(&self) -> (r: Vec<AdminPolygon>)
        ensures
            r@ == polygons_of(self.admin_polygons@),
    {
        let mut rows: Vec<AdminPolygon> = Vec::new();
        let ghost all = polygons_of(self.admin_polygons@);
        loop
            invariant
                all == polygons_of(self.admin_polygons@),
                rows@.is_prefix_of(all),
            decreases all.len() - rows@.len(),
        {
            proof {
                lemma_next_row(all, rows@);
            }
            match self.polygon(rows.len()) {
                Some(row) => rows.push(row),
                None => return rows,
            }
        }
    }

    /// All corners of the polygons.
    pub fn vertices(&self) -> (r: Vec<NodeCoord>)
        ensures
            r@ == nodes_of(self.admin_vertices@),
    {
        read_nodes(self.admin_vertices)
    }

    /// All places and points of interest.
    pub fn place_features(&self) -> (r: Vec<PlaceFeature>)
        ensures
            r@ == features_of(self.place_features@),
    {
        let mut rows: Vec<PlaceFeature> = Vec::new();
        let ghost all = features_of(self.place_features@);
        loop
            invariant
                all == features_of(self.place_features@),
                rows@.is_prefix_of(all),
            decreases all.len() - rows@.len(),
        {
            proof {
                lemma_next_row(all, rows@);
            }
            match self.place_feature(rows.len()) {
                Some(row) => rows.push(row),
                None => return rows,
            }
        }
    }

    /// Where the polygons of a cell are listed.
    pub fn lookup_admin_cell(&self, cell_id: u64) -> (r: u32)
        ensures
            r == cell_offset(self.admin_cells@, cell_id),
    {
        lookup_cell(self.admin_cells, cell_id)
    }

    /// The entries of the list of polygons at `offset`, in the order in which
    /// they are visited.
    pub fn for_each_admin_entry(&self, offset: u32) -> (r: Vec<u32>)
        ensures
            r@ == entry_ids(self.admin_entries@, offset),
    {
        read_entry_ids(self.admin_entries, offset)
    }

    /// Where the features of a cell are listed.
    pub fn lookup_place_cell(&self, cell_id: u64) -> (r: u32)
        ensures
            r == cell_offset(self.place_cells@, cell_id),
    {
        lookup_cell(self.place_cells, cell_id)
    }

    /// The entries of the list of features at `offset`, in the order in which
    /// they are visited.
    pub fn for_each_place_entry(&self, offset: u32) -> (r: Vec<u32>)
        ensures
            r@ == entry_ids(self.place_entries@, offset),
    {
        read_entry_ids(self.place_entries, offset)
    }

    /// What the polygon lists of some cells claim, cell by cell. Whichever of the
    /// cells lies inside a polygon, the point needs no test.
    pub open spec fn admin_claims(&self, cells: Seq<u64>) -> Seq<Claim> {
        claims_of(
            boundaries_of(self.admin_polygons@),
            all_entry_ids(self.admin_entries@, cell_offsets(self.admin_cells@, cells)),
            true,
        )
    }

    /// The features listed for some cells, cell by cell.
    pub open spec fn place_entries_in(&self, cells: Seq<u64>) -> Seq<u32> {
        all_entry_ids(self.place_entries@, cell_offsets(self.place_cells@, cells))
    }

    /// Reads what the polygon lists of some cells claim.
    pub fn read_admin_claims(&self, cells: &Vec<u64>) -> (r: Vec<Claim>)
        ensures
            r@ == self.admin_claims(cells@),
    {
        let offsets = lookup_cells(self.admin_cells, cells);
        let entries = read_all_entry_ids(self.admin_entries, &offsets);
        let mut claims: Vec<Claim> = Vec::new();
        let mut i: usize = 0;
        while i < entries.len()
            invariant
                i <= entries@.len(),
                claims@.len() == i,
                forall|j: int|
                    0 <= j < i ==> #[trigger] claims@[j] == claim_of(
                        boundaries_of(self.admin_polygons@),
                        entries@[j],
                        true,
                    ),
            decreases entries@.len() - i,
        {
            let boundary = match self.polygon(entry_id(entries[i])) {
                Some(poly) => Some(poly.boundary()),
                None => None,
            };
            claims.push(Claim { interior: entry_is_interior(entries[i]), boundary });
            i = i + 1;
        }
        assert(claims@ =~= self.admin_claims(cells@));
        claims
    }

    /// Reads the features listed for some cells.
    pub fn read_place_entries(&self, cells: &Vec<u64>) -> (r: Vec<u32>)
        ensures
            r@ == self.place_entries_in(cells@),
    {
        let offsets = lookup_cells(self.place_cells, cells);
        read_all_entry_ids(self.place_entries, &offsets)
    }
}

/// Every whole row of a table counts, and its fields lie side by side: four-byte
/// numbers, with the point counts, the levels, the countries and the sorts padded to
/// four bytes.
pub proof fn law_rows_are_read_whole(ways: Seq<u8>, polygons: Seq<u8>, features: Seq<u8>)
    ensures
        ways_of(ways).len() == ways.len() / 16,
        forall|i: int|
            0 <= i < ways.len() / 16 ==> {
                let row = #[trigger] ways_of(ways)[i];
                &&& row.node_offset == le32(ways, 16 * i)
                &&& row.node_count == ways[16 * i + 4]
                &&& row.name_id == le32(ways, 16 * i + 8)
                &&& row.postcode_id == le32(ways, 16 * i + 12)
            },
        polygons_of(polygons).len() == polygons.len() / 24,
        forall|i: int|
            0 <= i < polygons.len() / 24 ==> {
                let row = #[trigger] polygons_of(polygons)[i];
                &&& row.vertex_offset == le32(polygons, 24 * i)
                &&& row.vertex_count == le16(polygons, 24 * i + 4)
                &&& row.name_id == le32(polygons, 24 * i + 8)
                &&& row.admin_level == polygons[24 * i + 12]
                &&& row.area == le32(polygons, 24 * i + 16)
                &&& row.country_code == le16(polygons, 24 * i + 20)
            },
        features_of(features).len() == features.len() / 16,
        forall|i: int|
            0 <= i < features.len() / 16 ==> {
                let row = #[trigger] features_of(features)[i];
                &&& row.lat == le32(features, 16 * i)
                &&& row.lng == le32(features, 16 * i + 4)
                &&& row.name_id == le32(features, 16 * i + 8)
                &&& row.feature_type == features[16 * i + 12]
            },
{
}

/// What is compared of an area is what its row holds.
pub proof fn law_boundaries_are_the_areas(table: Seq<u8>, i: int)
    requires
        0 <= i < table.len() / 24,
    ensures
        boundaries_of(table).len() == table.len() / 24,
        boundaries_of(table)[i] == (Boundary {
            vertex_offset: polygons_of(table)[i].vertex_offset,
            vertex_count: polygons_of(table)[i].vertex_count,
            name_id: polygons_of(table)[i].name_id,
            admin_level: polygons_of(table)[i].admin_level,
            area: polygons_of(table)[i].area,
        }),
{
}

} // verus!
