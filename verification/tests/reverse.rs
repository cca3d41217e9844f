use geocoder::bytes::{IndexError, NO_DATA};
use geocoder::cells::cell_id_at_level;
use geocoder::geometry::{NodeCoord, Position};
use geocoder::server::address::{Address, MAX_ADDR_DIST, MAX_STREET_DIST};
use geocoder::server::geo::{find_least, find_nearest, interpolate, Nearest, Visit, FARTHEST};
use geocoder::server::index::{GeoCellOffsets, GeoIndex, InterpWay};
use s2::cellid::CellID;
use s2::latlng::LatLng;

const LAT: f64 = 41.0;
const LNG: f64 = 29.0;

fn position(lat: f64, lng: f64) -> Position {
    Position {
        lat: lat.to_bits(),
        lng: lng.to_bits(),
        lat_single: (lat as f32).to_bits(),
        lng_single: (lng as f32).to_bits(),
        leaf: CellID::from(LatLng::from_degrees(lat, lng)).0,
    }
}

fn degrees(bits: u32) -> f64 {
    f32::from_bits(bits) as f64
}

fn crosses(p: Position, i: NodeCoord, j: NodeCoord) -> bool {
    let (lat, lng) = (f32::from_bits(p.lat_single), f32::from_bits(p.lng_single));
    let (lat_i, lng_i) = (f32::from_bits(i.lat), f32::from_bits(i.lng));
    let (lat_j, lng_j) = (f32::from_bits(j.lat), f32::from_bits(j.lng));
    lat < (lat_j - lat_i) * (lng - lng_i) / (lng_j - lng_i) + lat_i
}

fn dist_sq(dlat: f64, dlng: f64, p: Position) -> f64 {
    let cos_lat = f64::from_bits(p.lat).to_radians().cos();
    dlat * dlat + dlng * dlng * cos_lat * cos_lat
}

fn to_point(p: Position, n: NodeCoord) -> u64 {
    let dlat = (degrees(n.lat) - f64::from_bits(p.lat)).to_radians();
    let dlng = (degrees(n.lng) - f64::from_bits(p.lng)).to_radians();
    dist_sq(dlat, dlng, p).to_bits()
}

fn with_t(p: Position, a: NodeCoord, b: NodeCoord) -> (f64, f64) {
    let (px, py) = (f64::from_bits(p.lat), f64::from_bits(p.lng));
    let (ax, ay) = (degrees(a.lat), degrees(a.lng));
    let (dx, dy) = (degrees(b.lat) - ax, degrees(b.lng) - ay);
    let len = dx * dx + dy * dy;
    let t = if len == 0.0 { 0.0 } else { (((px - ax) * dx + (py - ay) * dy) / len).clamp(0.0, 1.0) };
    let dlat = (px - (ax + t * dx)).to_radians();
    let dlng = (py - (ay + t * dy)).to_radians();
    (dist_sq(dlat, dlng, p), t)
}

fn to_segment(p: Position, a: NodeCoord, b: NodeCoord) -> u64 {
    with_t(p, a, b).0.to_bits()
}

fn length(p: Position, line: &[NodeCoord]) -> f64 {
    line.windows(2)
        .map(|w| {
            let dlat = (degrees(w[1].lat) - degrees(w[0].lat)).to_radians();
            let dlng = (degrees(w[1].lng) - degrees(w[0].lng)).to_radians();
            dist_sq(dlat, dlng, p)
        })
        .sum()
}

fn has_length(p: Position, line: &Vec<NodeCoord>) -> bool {
    length(p, line) != 0.0
}

fn along(p: Position, line: &Vec<NodeCoord>, i: usize) -> u64 {
    let (_, t) = with_t(p, line[i], line[i + 1]);
    ((length(p, &line[..=i]) + t * length(p, &line[i..i + 2])) / length(p, line)).to_bits()
}

fn count_steps(start: u32, end: u32, t: u64, step: u32) -> u32 {
    let (start, end) = (start as f64, end as f64);
    let raw = start + f64::from_bits(t) * (end - start);
    if step == 2 { ((raw - start) / 2.0).round() as u32 } else { raw.round() as u32 }
}

/// The index files in the making.
#[derive(Default)]
struct Files {
    geo_cells: Vec<u8>,
    street_entries: Vec<u8>,
    street_ways: Vec<u8>,
    street_nodes: Vec<u8>,
    addr_entries: Vec<u8>,
    addr_points: Vec<u8>,
    interp_entries: Vec<u8>,
    interp_ways: Vec<u8>,
    interp_nodes: Vec<u8>,
    admin_cells: Vec<u8>,
    admin_entries: Vec<u8>,
    admin_polygons: Vec<u8>,
    admin_vertices: Vec<u8>,
    strings: Vec<u8>,
}

fn list(entries: &mut Vec<u8>, ids: &[u32]) -> u32 {
    let at = entries.len() as u32;
    entries.extend_from_slice(&(ids.len() as u16).to_le_bytes());
    for id in ids {
        entries.extend_from_slice(&id.to_le_bytes());
    }
    at
}

fn node(nodes: &mut Vec<u8>, lat: f64, lng: f64) {
    nodes.extend_from_slice(&(lat as f32).to_le_bytes());
    nodes.extend_from_slice(&(lng as f32).to_le_bytes());
}

fn line(nodes: &mut Vec<u8>, points: &[(f64, f64)]) -> u32 {
    let at = nodes.len() as u32 / 8;
    for (lat, lng) in points {
        node(nodes, *lat, *lng);
    }
    at
}

impl Files {
    fn text(&mut self, s: &str) -> u32 {
        let at = self.strings.len() as u32;
        self.strings.extend_from_slice(s.as_bytes());
        self.strings.push(0);
        at
    }

    fn way(&mut self, points: &[(f64, f64)], name_id: u32) -> u32 {
        let id = self.street_ways.len() as u32 / 12;
        let offset = line(&mut self.street_nodes, points);
        self.street_ways.extend_from_slice(&offset.to_le_bytes());
        self.street_ways.extend_from_slice(&[points.len() as u8, 0, 0, 0]);
        self.street_ways.extend_from_slice(&name_id.to_le_bytes());
        id
    }

    fn addr(&mut self, lat: f64, lng: f64, number_id: u32, street_id: u32) -> u32 {
        let id = self.addr_points.len() as u32 / 16;
        node(&mut self.addr_points, lat, lng);
        self.addr_points.extend_from_slice(&number_id.to_le_bytes());
        self.addr_points.extend_from_slice(&street_id.to_le_bytes());
        id
    }

    fn interp(&mut self, points: &[(f64, f64)], street: u32, start: u32, end: u32, kind: u8) -> u32 {
        let id = self.interp_ways.len() as u32 / 24;
        let offset = line(&mut self.interp_nodes, points);
        self.interp_ways.extend_from_slice(&offset.to_le_bytes());
        self.interp_ways.extend_from_slice(&[points.len() as u8, 0, 0, 0]);
        self.interp_ways.extend_from_slice(&street.to_le_bytes());
        self.interp_ways.extend_from_slice(&start.to_le_bytes());
        self.interp_ways.extend_from_slice(&end.to_le_bytes());
        self.interp_ways.extend_from_slice(&[kind, 0, 0, 0]);
        id
    }

    fn area(&mut self, corners: &[(f64, f64)], name_id: u32, level: u8, area: f32) -> u32 {
        let id = self.admin_polygons.len() as u32 / 20;
        let offset = line(&mut self.admin_vertices, corners);
        self.admin_polygons.extend_from_slice(&offset.to_le_bytes());
        self.admin_polygons.extend_from_slice(&(corners.len() as u16).to_le_bytes());
        self.admin_polygons.extend_from_slice(&[0, 0]);
        self.admin_polygons.extend_from_slice(&name_id.to_le_bytes());
        self.admin_polygons.extend_from_slice(&[level, 0, 0, 0]);
        self.admin_polygons.extend_from_slice(&area.to_le_bytes());
        id
    }

    /// Lists the entries for the street cell of the point.
    fn at_point(&mut self, lat: f64, lng: f64, streets: &[u32], addrs: &[u32], interps: &[u32]) {
        let cell = cell_id_at_level(position(lat, lng).leaf, 17);
        let street = list(&mut self.street_entries, streets);
        let addr = list(&mut self.addr_entries, addrs);
        let interp = list(&mut self.interp_entries, interps);
        self.geo_cells.extend_from_slice(&cell.to_le_bytes());
        self.geo_cells.extend_from_slice(&street.to_le_bytes());
        self.geo_cells.extend_from_slice(&addr.to_le_bytes());
        self.geo_cells.extend_from_slice(&interp.to_le_bytes());
    }

    /// Lists the areas for the admin cell of the point.
    fn areas_at(&mut self, lat: f64, lng: f64, areas: &[u32]) {
        let cell = cell_id_at_level(position(lat, lng).leaf, 10);
        let at = list(&mut self.admin_entries, areas);
        self.admin_cells.extend_from_slice(&cell.to_le_bytes());
        self.admin_cells.extend_from_slice(&at.to_le_bytes());
    }

    fn index(&self) -> GeoIndex<'_> {
        GeoIndex {
            geo_cells: &self.geo_cells,
            street_entries: &self.street_entries,
            street_ways: &self.street_ways,
            street_nodes: &self.street_nodes,
            addr_entries: &self.addr_entries,
            addr_points: &self.addr_points,
            interp_entries: &self.interp_entries,
            interp_ways: &self.interp_ways,
            interp_nodes: &self.interp_nodes,
            admin_cells: &self.admin_cells,
            admin_entries: &self.admin_entries,
            admin_polygons: &self.admin_polygons,
            admin_vertices: &self.admin_vertices,
            strings: &self.strings,
        }
    }

    fn query(&self, lat: f64, lng: f64) -> Result<Address<'_>, IndexError> {
        self.index().query(
            position(lat, lng),
            &crosses,
            &to_point,
            &to_segment,
            &has_length,
            &along,
            &count_steps,
        )
    }
}

fn square(lat: f64, lng: f64, half: f64) -> Vec<(f64, f64)> {
    vec![
        (lat - half, lng - half),
        (lat - half, lng + half),
        (lat + half, lng + half),
        (lat + half, lng - half),
    ]
}

#[test]
fn limits_are_the_squares_that_they_stand_for() {
    let (addr, street) = (0.0005f64.to_radians(), 0.0007f64.to_radians());
    assert_eq!(MAX_ADDR_DIST, (addr * addr).to_bits());
    assert_eq!(MAX_STREET_DIST, (street * street).to_bits());
    assert_eq!(FARTHEST, f64::MAX.to_bits());
}

#[test]
fn an_empty_index_has_no_address() {
    let files = Files::default();
    let a = files.query(LAT, LNG).unwrap();
    assert!(a.housenumber.is_none() && a.street.is_none() && a.city.is_none());
    assert!(a.state.is_none() && a.postcode.is_none() && a.country.is_none());
}

#[test]
fn a_near_address_point_wins() {
    let mut f = Files::default();
    let (far, near, street) = (f.text("1"), f.text("2A"), f.text("Ana Cadde"));
    let a = f.addr(LAT + 0.0003, LNG, far, street);
    let b = f.addr(LAT + 0.0001, LNG, near, street);
    let c = f.addr(LAT - 0.0002, LNG, far, street);
    let other = f.text("Yan Sokak");
    let w = f.way(&[(LAT, LNG - 0.001), (LAT, LNG + 0.001)], other);
    f.at_point(LAT, LNG, &[w], &[a, b, c], &[]);
    let found = f.query(LAT, LNG).unwrap();
    assert_eq!(found.housenumber.as_deref(), Some("2A"));
    assert_eq!(found.street, Some("Ana Cadde"));
}

#[test]
fn of_equally_near_addresses_the_first_wins() {
    let mut f = Files::default();
    let (one, two, street) = (f.text("1"), f.text("2"), f.text("S"));
    let a = f.addr(LAT + 0.0001, LNG, one, street);
    let b = f.addr(LAT + 0.0001, LNG, two, street);
    f.at_point(LAT, LNG, &[], &[b, a], &[]);
    assert_eq!(f.query(LAT, LNG).unwrap().housenumber.as_deref(), Some("2"));
}

#[test]
fn a_far_address_point_gives_way_to_the_street() {
    let mut f = Files::default();
    let (number, street) = (f.text("5"), f.text("Ana Cadde"));
    let other = f.text("Yan Sokak");
    // About 67 m off, beside streets 33 m and 11 m off.
    let a = f.addr(LAT + 0.0006, LNG, number, street);
    let near = f.way(&[(LAT + 0.0003, LNG - 0.01), (LAT + 0.0003, LNG + 0.01)], other);
    let nearer = f.way(&[(LAT + 0.0001, LNG + 0.01), (LAT + 0.0001, LNG - 0.01)], street);
    f.at_point(LAT, LNG, &[near, nearer, near], &[a], &[]);
    let found = f.query(LAT, LNG).unwrap();
    assert_eq!(found.housenumber, None);
    assert_eq!(found.street, Some("Ana Cadde"));
}

#[test]
fn a_far_street_leaves_the_areas() {
    let mut f = Files::default();
    let street = f.text("Uzak Yol");
    // About 90 m off.
    let w = f.way(&[(LAT + 0.0008, LNG - 0.01), (LAT + 0.0008, LNG + 0.01)], street);
    f.at_point(LAT, LNG, &[w], &[], &[]);
    let city = f.text("İstanbul");
    let c = f.area(&square(LAT, LNG, 1.0), city, 8, 4.0);
    f.areas_at(LAT, LNG, &[c]);
    let found = f.query(LAT, LNG).unwrap();
    assert_eq!(found.street, None);
    assert_eq!(found.city, Some("İstanbul"));
}

#[test]
fn nothing_two_hundred_metres_off_counts() {
    let off = 0.0018;
    let mut f = Files::default();
    let (number, street) = (f.text("5"), f.text("Ana Cadde"));
    let a = f.addr(LAT + off, LNG, number, street);
    let w = f.way(&[(LAT + off, LNG - 0.01), (LAT + off, LNG + 0.01)], street);
    let i = f.interp(&[(LAT + off, LNG - 0.01), (LAT + off, LNG + 0.01)], street, 1, 9, 0);
    f.at_point(LAT, LNG, &[w], &[a], &[i]);
    let found = f.query(LAT, LNG).unwrap();
    assert_eq!((found.housenumber, found.street), (None, None));
}

#[test]
fn a_neighbouring_cell_does_not_vouch_for_the_point() {
    let mut f = Files::default();
    let city = f.text("Öte");
    let c = f.area(&square(LAT + 5.0, LNG, 0.1), city, 8, 1.0);
    let own = cell_id_at_level(position(LAT, LNG).leaf, 10);
    // The next cell to the north.
    let mut lat = LAT;
    while cell_id_at_level(position(lat, LNG).leaf, 10) == own {
        lat += 0.001;
    }
    f.areas_at(lat, LNG, &[c | 0x8000_0000]);
    assert_eq!(f.query(LAT, LNG).unwrap().city, None);
    assert_eq!(f.query(lat, LNG).unwrap().city, Some("Öte"));
}

#[test]
fn areas_without_country_and_city_are_not_an_address() {
    let mut f = Files::default();
    let (state, code) = (f.text("Marmara"), f.text("34000"));
    let s = f.area(&square(LAT, LNG, 1.0), state, 4, 4.0);
    let p = f.area(&square(LAT, LNG, 1.0), code, 11, 4.0);
    f.areas_at(LAT, LNG, &[s, p]);
    let found = f.query(LAT, LNG).unwrap();
    assert_eq!((found.state, found.postcode), (None, None));

    let country = f.text("Türkiye");
    let c = f.area(&square(LAT, LNG, 5.0), country, 2, 100.0);
    f.admin_cells.clear();
    f.areas_at(LAT, LNG, &[s, p, c]);
    let found = f.query(LAT, LNG).unwrap();
    assert_eq!((found.state, found.postcode), (Some("Marmara"), Some("34000")));
    assert_eq!(found.country, Some("Türkiye"));
}

#[test]
fn the_smallest_area_of_a_level_wins() {
    let mut f = Files::default();
    let names: Vec<u32> = ["Büyük", "Küçük", "Orta", "Dışarı", "İç"].iter().map(|s| f.text(s)).collect();
    let big = f.area(&square(LAT, LNG, 1.0), names[0], 8, 9.0);
    let small = f.area(&square(LAT, LNG, 0.5), names[1], 8, 1.0);
    let middle = f.area(&square(LAT, LNG, 0.7), names[2], 8, 4.0);
    let outside = f.area(&square(LAT + 3.0, LNG, 0.5), names[3], 8, 0.5);
    f.areas_at(LAT, LNG, &[big, small, middle, outside]);
    assert_eq!(f.query(LAT, LNG).unwrap().city, Some("Küçük"));
    // A cell that lies inside an area needs no test, wherever its corners are.
    let inner = f.area(&square(LAT + 3.0, LNG, 0.1), names[4], 8, 0.25);
    f.admin_cells.clear();
    f.areas_at(LAT, LNG, &[big, small, inner | 0x8000_0000]);
    assert_eq!(f.query(LAT, LNG).unwrap().city, Some("İç"));
}

#[test]
fn levels_from_twelve_on_do_not_count() {
    let mut f = Files::default();
    let name = f.text("Mahalle");
    let a = f.area(&square(LAT, LNG, 1.0), name, 12, 1.0);
    f.areas_at(LAT, LNG, &[a]);
    assert!(f.query(LAT, LNG).unwrap().city.is_none());
}

fn on_line(kind: u8, start: u32, end: u32, lng: f64) -> String {
    let mut f = Files::default();
    let street = f.text("Uzun Sokak");
    let i = f.interp(&[(LAT, LNG), (LAT, LNG + 0.01)], street, start, end, kind);
    f.at_point(LAT, lng, &[], &[], &[i]);
    let found = f.query(LAT, lng).unwrap();
    assert_eq!(found.street, Some("Uzun Sokak"));
    found.housenumber.unwrap()
}

#[test]
fn house_numbers_run_along_a_line() {
    assert_eq!(on_line(0, 10, 20, LNG), "10");
    assert_eq!(on_line(0, 10, 20, LNG + 0.005), "15");
    assert_eq!(on_line(0, 10, 20, LNG + 0.01), "20");
    assert_eq!(on_line(3, 20, 10, LNG + 0.002), "18");
}

#[test]
fn even_and_odd_sides_keep_their_parity() {
    assert_eq!(on_line(1, 10, 20, LNG + 0.0056), "16");
    assert_eq!(on_line(2, 11, 21, LNG + 0.004), "15");
    assert_eq!(on_line(2, 1, 3, LNG + 0.001), "1");
    // A falling line stays at its first number.
    assert_eq!(on_line(1, 20, 10, LNG + 0.01), "20");
}

#[test]
fn lines_without_numbers_or_length_do_not_count() {
    let mut f = Files::default();
    let street = f.text("S");
    let a = f.interp(&[(LAT, LNG), (LAT, LNG + 0.01)], street, 0, 20, 0);
    let b = f.interp(&[(LAT, LNG), (LAT, LNG + 0.01)], street, 10, 0, 0);
    let c = f.interp(&[(LAT, LNG), (LAT, LNG)], street, 10, 20, 0);
    let d = f.interp(&[(LAT, LNG)], street, 10, 20, 0);
    f.at_point(LAT, LNG, &[], &[], &[a, b, c, d]);
    assert!(f.query(LAT, LNG).unwrap().housenumber.is_none());
}

#[test]
fn a_number_that_does_not_fit_is_an_error() {
    let f = Files::default();
    let mut way = InterpWay {
        node_offset: 0,
        node_count: 2,
        street_id: 0,
        start_number: u32::MAX - 3,
        end_number: u32::MAX,
        interpolation: 1,
    };
    let idx = f.index();
    assert_eq!(interpolate(&idx, way, 0, 1).map(|m| m.number), Ok(u32::MAX - 1));
    assert_eq!(interpolate(&idx, way, 0, 2).map(|m| m.number), Err(IndexError::Overflow));
    way.interpolation = 0;
    assert_eq!(interpolate(&idx, way, 0, u32::MAX).map(|m| m.number), Ok(u32::MAX));
    way.street_id = 1;
    assert_eq!(interpolate(&idx, way, 0, 7).map(|m| m.number), Err(IndexError::OutOfRange));
}

#[test]
fn entries_that_point_outside_are_errors() {
    let mut f = Files::default();
    let name = f.text("S");
    f.at_point(LAT, LNG, &[7], &[], &[]);
    assert_eq!(f.query(LAT, LNG).err(), Some(IndexError::OutOfRange));

    let mut f2 = Files::default();
    f2.at_point(LAT, LNG, &[], &[0], &[]);
    assert_eq!(f2.query(LAT, LNG).err(), Some(IndexError::OutOfRange));

    let mut f3 = Files::default();
    let w = f3.way(&[(LAT, LNG), (LAT, LNG + 1.0)], name);
    f3.street_nodes.truncate(8);
    f3.at_point(LAT, LNG, &[w], &[], &[]);
    assert_eq!(f3.query(LAT, LNG).err(), Some(IndexError::OutOfRange));

    let mut f4 = Files::default();
    let w = f4.way(&[], name);
    f4.at_point(LAT, LNG, &[w], &[], &[]);
    assert_eq!(f4.query(LAT, LNG).err(), Some(IndexError::OutOfRange));

    let mut f5 = Files::default();
    let a = f5.area(&square(LAT, LNG, 1.0), 99, 5, 1.0);
    f5.areas_at(LAT, LNG, &[a]);
    assert_eq!(f5.query(LAT, LNG).err(), Some(IndexError::OutOfRange));

    let mut f6 = Files::default();
    let a = f6.area(&[], 0, 5, 1.0);
    f6.areas_at(LAT, LNG, &[a]);
    assert_eq!(f6.query(LAT, LNG).err(), Some(IndexError::OutOfRange));

    let mut f7 = Files::default();
    let a = f7.addr(LAT, LNG, NO_DATA, 0);
    f7.at_point(LAT, LNG, &[], &[a], &[]);
    assert_eq!(f7.query(LAT, LNG).err(), Some(IndexError::OutOfRange));
}

#[test]
fn the_empty_slot_is_no_street() {
    let mut f = Files::default();
    f.at_point(LAT, LNG, &[u32::MAX], &[], &[]);
    assert!(f.query(LAT, LNG).unwrap().street.is_none());
}

#[test]
fn streets_in_one_slot_are_all_looked_at() {
    let mut f = Files::default();
    let (far, near) = (f.text("Uzak"), f.text("Yakın"));
    for _ in 0..64 {
        f.way(&[(LAT + 0.0004, LNG - 0.01), (LAT + 0.0004, LNG + 0.01)], far);
    }
    let last = f.way(&[(LAT + 0.0001, LNG - 0.01), (LAT + 0.0001, LNG + 0.01)], near);
    assert_eq!(last, 64);
    // Listing the streets again changes nothing.
    for ids in [&[0u32, 64][..], &[0, 64, 0, 64, 0], &[0, 0, 64, 64]] {
        f.geo_cells.clear();
        f.at_point(LAT, LNG, ids, &[], &[]);
        assert_eq!(f.query(LAT, LNG).unwrap().street, Some("Yakın"));
    }
}

#[test]
fn a_cell_lookup_gives_the_three_lists() {
    let mut cells = Vec::new();
    for id in [3u64, 8, 20] {
        cells.extend_from_slice(&id.to_le_bytes());
        for k in 1..=3u32 {
            cells.extend_from_slice(&(id as u32 * 10 + k).to_le_bytes());
        }
    }
    assert_eq!(
        GeoIndex::lookup_geo_cell(&cells, 8),
        GeoCellOffsets { street: 81, addr: 82, interp: 83 }
    );
    assert_eq!(
        GeoIndex::lookup_geo_cell(&cells, 9),
        GeoCellOffsets { street: NO_DATA, addr: NO_DATA, interp: NO_DATA }
    );
}

#[test]
fn neighbouring_cells_are_looked_at_too() {
    let mut f = Files::default();
    let street = f.text("Komşu");
    let w = f.way(&[(LAT, LNG - 0.01), (LAT, LNG + 0.01)], street);
    let own = cell_id_at_level(position(LAT, LNG).leaf, 17);
    // The next cell to the north.
    let mut lat = LAT;
    while cell_id_at_level(position(lat, LNG).leaf, 17) == own {
        lat += 0.0001;
    }
    f.at_point(lat, LNG, &[w], &[], &[]);
    assert_eq!(f.query(LAT, LNG).unwrap().street, Some("Komşu"));
}

#[test]
fn the_nearest_is_the_first_of_the_least() {
    let b = |x: f64| x.to_bits();
    assert_eq!(find_least(&vec![]), None);
    assert_eq!(find_least(&vec![b(f64::NAN), b(f64::INFINITY), b(f64::MAX)]), None);
    assert_eq!(find_least(&vec![b(3.0), b(1.0), b(f64::NAN), b(1.0), b(2.0)]), Some((b(1.0), 1)));
    let visits = vec![
        Visit::Measured(vec![b(5.0), b(2.0)]),
        Visit::Skipped,
        Visit::Measured(vec![b(2.0)]),
        Visit::Measured(vec![b(4.0), b(1.0), b(1.0)]),
    ];
    assert_eq!(find_nearest(&visits), Ok(Some(Nearest { dist: b(1.0), entry: 3, part: 1 })));
    assert_eq!(find_nearest(&vec![Visit::Skipped]), Ok(None));
    assert_eq!(find_nearest(&vec![Visit::Skipped, Visit::Broken]), Err(IndexError::OutOfRange));
}
