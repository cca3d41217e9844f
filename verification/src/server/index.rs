//! The binary index of the reverse geocoder.
use crate::boundary::{
    claim_of, claims_of, claims_round, entry_id, entry_is_interior, Boundary, Claim,
};
use crate::bytes::{
    all_entry_ids, ascending, cell_offset, cell_offsets, entry_ids, find_row, found_row,
    law_lookup_finds_the_key, le16, le32, le64, lemma_entry_is_listed, lookup_cells,
    read_all_entry_ids, read_entry_ids, read_text, read_u16, read_u32, row_count, row_keys,
    text_at, NO_DATA,
};
use crate::geometry::NodeCoord;
use vstd::prelude::*;

verus! {

/// A stretch of a street.
#[derive(Clone, Copy, Debug, PartialEq, Eq, Structural)]
pub struct WayHeader {
    pub node_offset: u32,
    pub node_count: u8,
    pub name_id: u32,
}

/// A point with a house number.
#[derive(Clone, Copy, Debug, PartialEq, Eq, Structural)]
pub struct AddrPoint {
    /// The single-precision pattern of the latitude.
    pub lat: u32,
    /// The single-precision pattern of the longitude.
    pub lng: u32,
    pub housenumber_id: u32,
    pub street_id: u32,
}

/// A line along which house numbers run.
#[derive(Clone, Copy, Debug, PartialEq, Eq, Structural)]
pub struct InterpWay {
    pub node_offset: u32,
    pub node_count: u8,
    pub street_id: u32,
    pub start_number: u32,
    pub end_number: u32,
    pub interpolation: u8,
}

/// Where the entries of a cell are listed.
#[derive(Clone, Copy, Debug, PartialEq, Eq, Structural)]
pub struct GeoCellOffsets {
    pub street: u32,
    pub addr: u32,
    pub interp: u32,
}

/// The contents of the index files.
#[derive(Clone, Copy)]
pub struct GeoIndex<'a> {
    pub geo_cells: &'a [u8],
    pub street_entries: &'a [u8],
    pub street_ways: &'a [u8],
    pub street_nodes: &'a [u8],
    pub addr_entries: &'a [u8],
    pub addr_points: &'a [u8],
    pub interp_entries: &'a [u8],
    pub interp_ways: &'a [u8],
    pub interp_nodes: &'a [u8],
    pub admin_cells: &'a [u8],
    pub admin_entries: &'a [u8],
    pub admin_polygons: &'a [u8],
    pub admin_vertices: &'a [u8],
    pub strings: &'a [u8],
}

// --- Records ---

/// The way in row `i`, of twelve bytes.
pub open spec fn way_at(table: Seq<u8>, i: int) -> WayHeader {
    WayHeader {
        node_offset: le32(table, 12 * i) as u32,
        node_count: table[12 * i + 4],
        name_id: le32(table, 12 * i + 8) as u32,
    }
}

/// All ways of a table.
pub open spec fn ways_of(table: Seq<u8>) -> Seq<WayHeader> {
    Seq::new(row_count(table, 12) as nat, |i: int| way_at(table, i))
}

/// The address point in row `i`, of sixteen bytes.
pub open spec fn point_at(table: Seq<u8>, i: int) -> AddrPoint {
    AddrPoint {
        lat: le32(table, 16 * i) as u32,
        lng: le32(table, 16 * i + 4) as u32,
        housenumber_id: le32(table, 16 * i + 8) as u32,
        street_id: le32(table, 16 * i + 12) as u32,
    }
}

/// All address points of a table.
pub open spec fn points_of(table: Seq<u8>) -> Seq<AddrPoint> {
    Seq::new(row_count(table, 16) as nat, |i: int| point_at(table, i))
}

/// The line of house numbers in row `i`, of twenty-four bytes.
pub open spec fn interp_at(table: Seq<u8>, i: int) -> InterpWay {
    InterpWay {
        node_offset: le32(table, 24 * i) as u32,
        node_count: table[24 * i + 4],
        street_id: le32(table, 24 * i + 8) as u32,
        start_number: le32(table, 24 * i + 12) as u32,
        end_number: le32(table, 24 * i + 16) as u32,
        interpolation: table[24 * i + 20],
    }
}

/// All lines of house numbers of a table.
pub open spec fn interps_of(table: Seq<u8>) -> Seq<InterpWay> {
    Seq::new(row_count(table, 24) as nat, |i: int| interp_at(table, i))
}

/// The boundary in row `i`, of twenty bytes.
pub open spec fn boundary_at(table: Seq<u8>, i: int) -> Boundary {
    Boundary {
        vertex_offset: le32(table, 20 * i) as u32,
        vertex_count: le16(table, 20 * i + 4) as u16,
        name_id: le32(table, 20 * i + 8) as u32,
        admin_level: table[20 * i + 12],
        area: le32(table, 20 * i + 16) as u32,
    }
}

/// All boundaries of a table.
pub open spec fn boundaries_of(table: Seq<u8>) -> Seq<Boundary> {
    Seq::new(row_count(table, 20) as nat, |i: int| boundary_at(table, i))
}

impl AddrPoint {
    pub open spec fn as_node(self) -> NodeCoord {
        NodeCoord { lat: self.lat, lng: self.lng }
    }

    /// Where the point is.
    pub fn node(&self) -> (r: NodeCoord)
        ensures
            r == self.as_node(),
    {
        NodeCoord { lat: self.lat, lng: self.lng }
    }
}

// --- Cells ---

/// What a table of twenty-byte rows (cell id, then the offsets of the streets,
/// addresses and lines of house numbers) has for a cell.
pub open spec fn geo_offsets(cells: Seq<u8>, cell_id: u64) -> GeoCellOffsets {
    match found_row(cells, 20, cell_id) {
        Some(i) => GeoCellOffsets {
            street: le32(cells, 20 * i + 8) as u32,
            addr: le32(cells, 20 * i + 12) as u32,
            interp: le32(cells, 20 * i + 16) as u32,
        },
        None => GeoCellOffsets { street: NO_DATA, addr: NO_DATA, interp: NO_DATA },
    }
}

/// The entries listed round a point, of each sort.
pub struct GeoEntries {
    pub street: Vec<u32>,
    pub addr: Vec<u32>,
    pub interp: Vec<u32>,
}

impl<'a> GeoIndex<'a> {
    /// Whether `offset` is the place of a text.
    pub open spec fn has_text(&self, offset: u32) -> bool {
        offset <= self.strings@.len()
    }

    /// The text at `offset`.
    pub open spec fn text(&self, offset: u32) -> Seq<char> {
        text_at(self.strings@, offset as int)
    }

    /// The text at `offset`.
    pub fn get_string(&self, offset: u32) -> (r: &'a str)
        requires
            self.has_text(offset),
        ensures
            r@ == self.text(offset),
    {
        read_text(self.strings, offset as usize)
    }

    /// The text at `offset`, where there is one.
    pub fn string_at(&self, offset: u32) -> (r: Option<&'a str>)
        ensures
            match r {
                Some(s) => self.has_text(offset) && s@ == self.text(offset),
                None => !self.has_text(offset),
            },
    {
        if offset as usize <= self.strings.len() {
            Some(self.get_string(offset))
        } else {
            None
        }
    }

    /// The way in row `i`, where the table has it.
    pub fn way(&self, i: usize) -> (r: Option<WayHeader>)
        ensures
            r == (if i < ways_of(self.street_ways@).len() {
                Some(ways_of(self.street_ways@)[i as int])
            } else {
                None
            }),
    {
        let t = self.street_ways;
        if i < t.len() / 12 {
            let at: usize = 12 * i;
            Some(
                WayHeader {
                    node_offset: read_u32(t, at),
                    node_count: t[at + 4],
                    name_id: read_u32(t, at + 8),
                },
            )
        } else {
            None
        }
    }

    /// The address point in row `i`, where the table has it.
    pub fn addr_point(&self, i: usize) -> (r: Option<AddrPoint>)
        ensures
            r == (if i < points_of(self.addr_points@).len() {
                Some(points_of(self.addr_points@)[i as int])
            } else {
                None
            }),
    {
        let t = self.addr_points;
        if i < t.len() / 16 {
            let at: usize = 16 * i;
            Some(
                AddrPoint {
                    lat: read_u32(t, at),
                    lng: read_u32(t, at + 4),
                    housenumber_id: read_u32(t, at + 8),
                    street_id: read_u32(t, at + 12),
                },
            )
        } else {
            None
        }
    }

    /// The line of house numbers in row `i`, where the table has it.
    pub fn interp_way(&self, i: usize) -> (r: Option<InterpWay>)
        ensures
            r == (if i < interps_of(self.interp_ways@).len() {
                Some(interps_of(self.interp_ways@)[i as int])
            } else {
                None
            }),
    {
        let t = self.interp_ways;
        if i < t.len() / 24 {
            let at: usize = 24 * i;
            Some(
                InterpWay {
                    node_offset: read_u32(t, at),
                    node_count: t[at + 4],
                    street_id: read_u32(t, at + 8),
                    start_number: read_u32(t, at + 12),
                    end_number: read_u32(t, at + 16),
                    interpolation: t[at + 20],
                },
            )
        } else {
            None
        }
    }

    /// The boundary in row `i`, where the table has it.
    pub fn boundary(&self, i: usize) -> (r: Option<Boundary>)
        ensures
            r == (if i < boundaries_of(self.admin_polygons@).len() {
                Some(boundaries_of(self.admin_polygons@)[i as int])
            } else {
                None
            }),
    {
        let t = self.admin_polygons;
        if i < t.len() / 20 {
            let at: usize = 20 * i;
            Some(
                Boundary {
                    vertex_offset: read_u32(t, at),
                    vertex_count: read_u16(t, at + 4),
                    name_id: read_u32(t, at + 8),
                    admin_level: t[at + 12],
                    area: read_u32(t, at + 16),
                },
            )
        } else {
            None
        }
    }

    /// Looks a cell up in a table of twenty-byte rows.
    pub fn lookup_geo_cell(cells: &[u8], cell_id: u64) -> (r: GeoCellOffsets)
        ensures
            r == geo_offsets(cells@, cell_id),
    {
        assert(cells.len() == cells@.len());
        match find_row(cells, 20, cell_id) {
            Some(i) => {
                let at: usize = 20 * i;
                GeoCellOffsets {
                    street: read_u32(cells, at + 8),
                    addr: read_u32(cells, at + 12),
                    interp: read_u32(cells, at + 16),
                }
            },
            None => GeoCellOffsets { street: NO_DATA, addr: NO_DATA, interp: NO_DATA },
        }
    }

    /// The streets listed for some cells, cell by cell.
    pub open spec fn street_entries_in(&self, cells: Seq<u64>) -> Seq<u32> {
        all_entry_ids(
            self.street_entries@,
            cells.map_values(|c: u64| geo_offsets(self.geo_cells@, c).street),
        )
    }

    /// The addresses listed for some cells, cell by cell.
    pub open spec fn addr_entries_in(&self, cells: Seq<u64>) -> Seq<u32> {
        all_entry_ids(
            self.addr_entries@,
            cells.map_values(|c: u64| geo_offsets(self.geo_cells@, c).addr),
        )
    }

    /// The lines of house numbers listed for some cells, cell by cell.
    pub open spec fn interp_entries_in(&self, cells: Seq<u64>) -> Seq<u32> {
        all_entry_ids(
            self.interp_entries@,
            cells.map_values(|c: u64| geo_offsets(self.geo_cells@, c).interp),
        )
    }

    /// Reads what is listed for some cells.
    pub fn read_geo_entries(&self, cells: &Vec<u64>) -> (r: GeoEntries)
        ensures
            r.street@ == self.street_entries_in(cells@),
            r.addr@ == self.addr_entries_in(cells@),
            r.interp@ == self.interp_entries_in(cells@),
    {
        let mut street: Vec<u32> = Vec::new();
        let mut addr: Vec<u32> = Vec::new();
        let mut interp: Vec<u32> = Vec::new();
        let mut k: usize = 0;
        while k < cells.len()
            invariant
                k <= cells@.len(),
                street@.len() == k,
                addr@.len() == k,
                interp@.len() == k,
                forall|j: int|
                    0 <= j < k ==> #[trigger] street@[j] == geo_offsets(
                        self.geo_cells@,
                        cells@[j],
                    ).street,
                forall|j: int|
                    0 <= j < k ==> #[trigger] addr@[j] == geo_offsets(
                        self.geo_cells@,
                        cells@[j],
                    ).addr,
                forall|j: int|
                    0 <= j < k ==> #[trigger] interp@[j] == geo_offsets(
                        self.geo_cells@,
                        cells@[j],
                    ).interp,
            decreases cells@.len() - k,
        {
            let offsets = Self::lookup_geo_cell(self.geo_cells, cells[k]);
            street.push(offsets.street);
            addr.push(offsets.addr);
            interp.push(offsets.interp);
            k = k + 1;
        }
        assert(street@ =~= cells@.map_values(|c: u64| geo_offsets(self.geo_cells@, c).street));
        assert(addr@ =~= cells@.map_values(|c: u64| geo_offsets(self.geo_cells@, c).addr));
        assert(interp@ =~= cells@.map_values(|c: u64| geo_offsets(self.geo_cells@, c).interp));
        GeoEntries {
            street: read_all_entry_ids(self.street_entries, &street),
            addr: read_all_entry_ids(self.addr_entries, &addr),
            interp: read_all_entry_ids(self.interp_entries, &interp),
        }
    }

    /// What the boundary lists of some cells claim of a point in the first of them,
    /// cell by cell.
    pub open spec fn admin_claims(&self, cells: Seq<u64>) -> Seq<Claim> {
        claims_round(
            boundaries_of(self.admin_polygons@),
            entry_ids(self.admin_entries@, cell_offset(self.admin_cells@, cells[0])),
            all_entry_ids(self.admin_entries@, cell_offsets(self.admin_cells@, cells.skip(1))),
        )
    }

    fn read_claims(&self, entries: &Vec<u32>, trusted: bool) -> (r: Vec<Claim>)
        ensures
            r@ == claims_of(boundaries_of(self.admin_polygons@), entries@, trusted),
    {
        let mut claims: Vec<Claim> = Vec::new();
        let mut i: usize = 0;
        while i < entries.len()
            invariant
                i <= entries@.len(),
                claims@.len() == i,
                forall|j: int|
                    0 <= j < i ==> #[trigger] claims@[j] == claim_of(
                        boundaries_of(self.admin_polygons@),
                        entries@[j],
                        trusted,
                    ),
            decreases entries@.len() - i,
        {
            let boundary = self.boundary(entry_id(entries[i]));
            claims.push(Claim { interior: trusted && entry_is_interior(entries[i]), boundary });
            i = i + 1;
        }
        assert(claims@ =~= claims_of(boundaries_of(self.admin_polygons@), entries@, trusted));
        claims
    }

    /// Reads what the boundary lists of some cells claim of a point in the first of
    /// them.
    pub fn read_admin_claims(&self, cells: &Vec<u64>) -> (r: Vec<Claim>)
        requires
            cells@.len() > 0,
        ensures
            r@ == self.admin_claims(cells@),
    {
        let mut offsets = lookup_cells(self.admin_cells, cells);
        let own: u32 = offsets.remove(0);
        assert(offsets@ =~= cell_offsets(self.admin_cells@, cells@.skip(1)));
        let mut claims = self.read_claims(&read_entry_ids(self.admin_entries, own), true);
        let mut beside = self.read_claims(
            &read_all_entry_ids(self.admin_entries, &offsets),
            false,
        );
        claims.append(&mut beside);
        claims
    }
}

/// Every whole row of a table counts, and its fields lie side by side: four-byte
/// numbers, with the point counts, the levels and the kinds of numbering padded to
/// four bytes.
pub proof fn law_rows_are_read_whole(
    ways: Seq<u8>,
    points: Seq<u8>,
    interps: Seq<u8>,
    boundaries: Seq<u8>,
)
    ensures
        ways_of(ways).len() == ways.len() / 12,
        forall|i: int|
            0 <= i < ways.len() / 12 ==> {
                let row = #[trigger] ways_of(ways)[i];
                &&& row.node_offset == le32(ways, 12 * i)
                &&& row.node_count == ways[12 * i + 4]
                &&& row.name_id == le32(ways, 12 * i + 8)
            },
        points_of(points).len() == points.len() / 16,
        forall|i: int|
            0 <= i < points.len() / 16 ==> {
                let row = #[trigger] points_of(points)[i];
                &&& row.as_node().lat == le32(points, 16 * i)
                &&& row.as_node().lng == le32(points, 16 * i + 4)
                &&& row.housenumber_id == le32(points, 16 * i + 8)
                &&& row.street_id == le32(points, 16 * i + 12)
            },
        interps_of(interps).len() == interps.len() / 24,
        forall|i: int|
            0 <= i < interps.len() / 24 ==> {
                let row = #[trigger] interps_of(interps)[i];
                &&& row.node_offset == le32(interps, 24 * i)
                &&& row.node_count == interps[24 * i + 4]
                &&& row.street_id == le32(interps, 24 * i + 8)
                &&& row.start_number == le32(interps, 24 * i + 12)
                &&& row.end_number == le32(interps, 24 * i + 16)
                &&& row.interpolation == interps[24 * i + 20]
            },
        boundaries_of(boundaries).len() == boundaries.len() / 20,
        forall|i: int|
            0 <= i < boundaries.len() / 20 ==> {
                let row = #[trigger] boundaries_of(boundaries)[i];
                &&& row.vertex_offset == le32(boundaries, 20 * i)
                &&& row.vertex_count == le16(boundaries, 20 * i + 4)
                &&& row.name_id == le32(boundaries, 20 * i + 8)
                &&& row.admin_level == boundaries[20 * i + 12]
                &&& row.area == le32(boundaries, 20 * i + 16)
            },
{
}

/// In a table whose cells ascend, a cell leads to the three offsets in its row, and
/// a cell without a row to none.
pub proof fn law_cells_lead_to_their_entries(cells: Seq<u8>, cell_id: u64)
    requires
        ascending(row_keys(cells, 20)),
    ensures
        forall|i: int|
            0 <= i < cells.len() / 20 && #[trigger] le64(cells, i * 20) == cell_id ==> {
                let offsets = geo_offsets(cells, cell_id);
                &&& offsets.street == le32(cells, 20 * i + 8)
                &&& offsets.addr == le32(cells, 20 * i + 12)
                &&& offsets.interp == le32(cells, 20 * i + 16)
            },
        (forall|i: int| 0 <= i < cells.len() / 20 ==> #[trigger] le64(cells, i * 20) != cell_id)
            ==> {
            let offsets = geo_offsets(cells, cell_id);
            offsets.street == 0xFFFF_FFFF && offsets.addr == 0xFFFF_FFFF && offsets.interp
                == 0xFFFF_FFFF
        },
{
    law_lookup_finds_the_key(cells, 20, cell_id);
    assert forall|i: int| 0 <= i < cells.len() / 20 && #[trigger] le64(cells, i * 20)
        == cell_id implies found_row(cells, 20, cell_id) == Some(i) by {
        assert(row_keys(cells, 20)[i] == cell_id);
    }
    if forall|i: int| 0 <= i < cells.len() / 20 ==> #[trigger] le64(cells, i * 20) != cell_id {
        assert forall|i: int| 0 <= i < row_count(cells, 20) implies #[trigger] row_keys(cells, 20)[i]
            != cell_id by {
            assert(le64(cells, i * 20) != cell_id);
        }
    }
}

proof fn lemma_listed_in_cells(
    entries: Seq<u8>,
    cells: Seq<u64>,
    offset: spec_fn(u64) -> u32,
    id: u32,
)
    ensures
        all_entry_ids(entries, cells.map_values(offset)).contains(id) <==> exists|c: u64| #[trigger]
            cells.contains(c) && entry_ids(entries, offset(c)).contains(id),
{
    let offsets = cells.map_values(offset);
    lemma_entry_is_listed(entries, offsets, id);
    if all_entry_ids(entries, offsets).contains(id) {
        let j = choose|j: int|
            0 <= j < offsets.len() && entry_ids(entries, #[trigger] offsets[j]).contains(id);
        assert(cells.contains(cells[j]));
        assert(entry_ids(entries, offset(cells[j])).contains(id));
    }
    if exists|c: u64| #[trigger]
        cells.contains(c) && entry_ids(entries, offset(c)).contains(id) {
        let c = choose|c: u64| #[trigger]
            cells.contains(c) && entry_ids(entries, offset(c)).contains(id);
        let j = choose|j: int| 0 <= j < cells.len() && cells[j] == c;
        assert(offsets[j] == offset(c));
    }
}

/// What is looked at is all that some cell lists, each sort in its own table.
pub proof fn law_entries_are_those_of_the_cells(idx: GeoIndex, cells: Seq<u64>, id: u32)
    ensures
        idx.street_entries_in(cells).contains(id) <==> exists|c: u64| #[trigger]
            cells.contains(c) && entry_ids(
                idx.street_entries@,
                geo_offsets(idx.geo_cells@, c).street,
            ).contains(id),
        idx.addr_entries_in(cells).contains(id) <==> exists|c: u64| #[trigger]
            cells.contains(c) && entry_ids(
                idx.addr_entries@,
                geo_offsets(idx.geo_cells@, c).addr,
            ).contains(id),
        idx.interp_entries_in(cells).contains(id) <==> exists|c: u64| #[trigger]
            cells.contains(c) && entry_ids(
                idx.interp_entries@,
                geo_offsets(idx.geo_cells@, c).interp,
            ).contains(id),
{
    lemma_listed_in_cells(
        idx.street_entries@,
        cells,
        |c: u64| geo_offsets(idx.geo_cells@, c).street,
        id,
    );
    lemma_listed_in_cells(
        idx.addr_entries@,
        cells,
        |c: u64| geo_offsets(idx.geo_cells@, c).addr,
        id,
    );
    lemma_listed_in_cells(
        idx.interp_entries@,
        cells,
        |c: u64| geo_offsets(idx.geo_cells@, c).interp,
        id,
    );
}

} // verus!
