use geocoder::bytes::{IndexError, NO_DATA};
use geocoder::cells::cell_id_at_level;
use geocoder::geometry::{NodeCoord, Position};
use geocoder::search::admin::{
    find_admin, nearest_place_node, AdminCache, AdminContext, SUBURB_SNAP_DIST_SQ,
};
use geocoder::search::binary::{BinaryIndex, PlaceFeature};
use geocoder::search::handler::{
    answer_from, answer_outcome, build_query, find_boost, query_tokens, reply_to, run_search,
    search_handler, Reply, SearchError, SearchParams, SearchState,
};
use geocoder::search::indexer::{
    admin_display_suffix, build_index, build_schema, collect_docs, fill_index, make_doc, publish,
    BuildError, SearchDoc,
};
use geocoder::search::engine::Hit;
use geocoder::search::targets::{list_areas, list_features, list_streets};
use s2::cellid::CellID;
use s2::latlng::LatLng;
use std::sync::Arc;
use tantivy::schema::Value;

const LAT: f64 = 41.0;
const LNG: f64 = 29.0;

fn position(lat: f64, lng: f64) -> Position {
    Position {
        lat: lat.to_bits(),
        lng: lng.to_bits(),
        lat_single: (lat as f32).to_bits(),
        lng_single: (lng as f32).to_bits(),
        leaf: CellID::from(LatLng::from_degrees(lat, lng)).0,
    }
}

fn degrees(bits: u32) -> f64 {
    f32::from_bits(bits) as f64
}

fn crosses(p: Position, i: NodeCoord, j: NodeCoord) -> bool {
    let (lat, lng) = (f32::from_bits(p.lat_single), f32::from_bits(p.lng_single));
    let (xi, yi) = (f32::from_bits(i.lng), f32::from_bits(i.lat));
    let (xj, yj) = (f32::from_bits(j.lng), f32::from_bits(j.lat));
    lng < (xj - xi) * (lat - yi) / (yj - yi) + xi
}

fn to_place(p: Position, f: PlaceFeature) -> u64 {
    let cos_lat = f64::from_bits(p.lat).to_radians().cos();
    let dlat = (degrees(f.lat) - f64::from_bits(p.lat)).to_radians();
    let dlng = (degrees(f.lng) - f64::from_bits(p.lng)).to_radians();
    (dlat * dlat + (dlng * cos_lat) * (dlng * cos_lat)).to_bits()
}

fn centroid(points: &Vec<NodeCoord>) -> Position {
    let n = points.len() as f64;
    let lat: f64 = points.iter().map(|p| degrees(p.lat)).sum();
    let lng: f64 = points.iter().map(|p| degrees(p.lng)).sum();
    position(lat / n, lng / n)
}

fn whole_degrees(p: Position) -> (i16, i16) {
    (f64::from_bits(p.lat) as i16, f64::from_bits(p.lng) as i16)
}

fn place_at(f: PlaceFeature) -> Position {
    position(degrees(f.lat), degrees(f.lng))
}

fn merge(parts: &Vec<(Position, u8)>) -> Position {
    let n: f64 = parts.iter().map(|(_, n)| *n as f64).sum();
    let lat: f64 = parts.iter().map(|(p, n)| f64::from_bits(p.lat) * *n as f64).sum();
    let lng: f64 = parts.iter().map(|(p, n)| f64::from_bits(p.lng) * *n as f64).sum();
    position(lat / n, lng / n)
}

fn weigh(score: u32, importance: u64, boost: u128) -> u64 {
    (f32::from_bits(score) as f64 * f64::from_bits(importance) * boost as f64).to_bits()
}

/// The index files in the making.
#[derive(Default)]
struct Files {
    admin_cells: Vec<u8>,
    admin_entries: Vec<u8>,
    admin_polygons: Vec<u8>,
    admin_vertices: Vec<u8>,
    place_cells: Vec<u8>,
    place_entries: Vec<u8>,
    street_ways: Vec<u8>,
    street_nodes: Vec<u8>,
    place_features: Vec<u8>,
    strings: Vec<u8>,
}

fn list(entries: &mut Vec<u8>, ids: &[u32]) -> u32 {
    let at = entries.len() as u32;
    entries.extend_from_slice(&(ids.len() as u16).to_le_bytes());
    for id in ids {
        entries.extend_from_slice(&id.to_le_bytes());
    }
    at
}

fn line(nodes: &mut Vec<u8>, points: &[(f64, f64)]) -> u32 {
    let at = nodes.len() as u32 / 8;
    for (lat, lng) in points {
        nodes.extend_from_slice(&(*lat as f32).to_le_bytes());
        nodes.extend_from_slice(&(*lng as f32).to_le_bytes());
    }
    at
}

impl Files {
    fn text(&mut self, s: &str) -> u32 {
        let at = self.strings.len() as u32;
        self.strings.extend_from_slice(s.as_bytes());
        self.strings.push(0);
        at
    }

    fn way(&mut self, points: &[(f64, f64)], name_id: u32) -> u32 {
        let id = self.street_ways.len() as u32 / 16;
        let offset = line(&mut self.street_nodes, points);
        self.street_ways.extend_from_slice(&offset.to_le_bytes());
        self.street_ways.extend_from_slice(&[points.len() as u8, 0, 0, 0]);
        self.street_ways.extend_from_slice(&name_id.to_le_bytes());
        self.street_ways.extend_from_slice(&77u32.to_le_bytes());
        id
    }

    fn feature(&mut self, lat: f64, lng: f64, name_id: u32, kind: u8) -> u32 {
        let id = self.place_features.len() as u32 / 16;
        line(&mut self.place_features, &[(lat, lng)]);
        self.place_features.extend_from_slice(&name_id.to_le_bytes());
        self.place_features.extend_from_slice(&[kind, 0, 0, 0]);
        id
    }

    fn area(&mut self, corners: &[(f64, f64)], name_id: u32, level: u8, area: f32) -> u32 {
        let id = self.admin_polygons.len() as u32 / 24;
        let offset = line(&mut self.admin_vertices, corners);
        self.admin_polygons.extend_from_slice(&offset.to_le_bytes());
        self.admin_polygons.extend_from_slice(&(corners.len() as u16).to_le_bytes());
        self.admin_polygons.extend_from_slice(&[0, 0]);
        self.admin_polygons.extend_from_slice(&name_id.to_le_bytes());
        self.admin_polygons.extend_from_slice(&[level, 0, 0, 0]);
        self.admin_polygons.extend_from_slice(&area.to_le_bytes());
        self.admin_polygons.extend_from_slice(&[9, 0, 0, 0]);
        id
    }

    fn areas_at(&mut self, lat: f64, lng: f64, areas: &[u32]) {
        let cell = cell_id_at_level(position(lat, lng).leaf, 10);
        let at = list(&mut self.admin_entries, areas);
        self.admin_cells.extend_from_slice(&cell.to_le_bytes());
        self.admin_cells.extend_from_slice(&at.to_le_bytes());
    }

    fn features_at(&mut self, lat: f64, lng: f64, features: &[u32]) {
        let cell = cell_id_at_level(position(lat, lng).leaf, 12);
        let at = list(&mut self.place_entries, features);
        self.place_cells.extend_from_slice(&cell.to_le_bytes());
        self.place_cells.extend_from_slice(&at.to_le_bytes());
    }

    fn index(&self) -> BinaryIndex<'_> {
        BinaryIndex {
            admin_cells: &self.admin_cells,
            admin_entries: &self.admin_entries,
            admin_polygons: &self.admin_polygons,
            admin_vertices: &self.admin_vertices,
            place_cells: &self.place_cells,
            place_entries: &self.place_entries,
            street_ways: &self.street_ways,
            street_nodes: &self.street_nodes,
            place_features: &self.place_features,
            strings: &self.strings,
        }
    }

    fn admin(&self, lat: f64, lng: f64) -> Result<AdminContext, IndexError> {
        find_admin(position(lat, lng), &self.index(), &crosses, &to_place)
    }
}

fn square(lat: f64, lng: f64, half: f64) -> Vec<(f64, f64)> {
    vec![
        (lat - half, lng - half),
        (lat - half, lng + half),
        (lat + half, lng + half),
        (lat + half, lng - half),
    ]
}

fn context(suburb: Option<&str>, city: Option<&str>, country: Option<&str>) -> AdminContext {
    AdminContext {
        suburb: suburb.map(|s| s.to_string()),
        city: city.map(|s| s.to_string()),
        county: None,
        state: None,
        country: country.map(|s| s.to_string()),
    }
}

// --- Records ---

#[test]
fn records_are_read_by_their_layout() {
    let mut f = Files::default();
    f.way(&[(1.0, 2.0), (3.0, 4.0)], 6);
    f.way(&[(5.0, 6.0)], 8);
    f.area(&square(0.0, 0.0, 1.0), 10, 8, 2.5);
    f.feature(7.0, 8.0, 12, 2);
    let idx = f.index();
    let ways = idx.ways();
    assert_eq!(ways.len(), 2);
    assert_eq!((ways[1].node_offset, ways[1].node_count), (2, 1));
    assert_eq!((ways[0].name_id, ways[1].name_id, ways[1].postcode_id), (6, 8, 77));
    assert_eq!(idx.nodes().len(), 3);
    assert_eq!(f32::from_bits(idx.nodes()[2].lng), 6.0);
    let polygons = idx.polygons();
    assert_eq!(polygons.len(), 1);
    assert_eq!((polygons[0].vertex_count, polygons[0].name_id, polygons[0].admin_level), (4, 10, 8));
    assert_eq!((f32::from_bits(polygons[0].area), polygons[0].country_code), (2.5, 9));
    assert_eq!(idx.vertices().len(), 4);
    let features = idx.place_features();
    assert_eq!(features.len(), 1);
    assert_eq!((f32::from_bits(features[0].lat), features[0].name_id, features[0].feature_type), (7.0, 12, 2));
}

#[test]
fn an_absent_text_is_empty() {
    let mut f = Files::default();
    let at = f.text("Ad");
    let idx = f.index();
    assert_eq!(idx.get_string(at), "Ad");
    assert_eq!(idx.get_string(NO_DATA), "");
    assert_eq!(idx.string_at(4), None);
    assert_eq!(idx.string_at(3), Some(""));
}

#[test]
fn cells_lead_to_their_entries() {
    let mut f = Files::default();
    f.areas_at(LAT, LNG, &[3, 4]);
    f.features_at(LAT, LNG, &[5]);
    let idx = f.index();
    let leaf = position(LAT, LNG).leaf;
    let at = idx.lookup_admin_cell(cell_id_at_level(leaf, 10));
    assert_eq!(idx.for_each_admin_entry(at), vec![3, 4]);
    assert_eq!(idx.lookup_admin_cell(cell_id_at_level(leaf, 11)), NO_DATA);
    let at = idx.lookup_place_cell(cell_id_at_level(leaf, 12));
    assert_eq!(idx.for_each_place_entry(at), vec![5]);
    assert_eq!(idx.for_each_place_entry(NO_DATA), Vec::<u32>::new());
}

// --- Contexts ---

#[test]
fn names_are_joined_from_the_smallest_area_to_the_largest() {
    let all = AdminContext {
        suburb: Some("Moda".to_string()),
        city: Some("Kadıköy".to_string()),
        county: Some("Anadolu".to_string()),
        state: Some("İstanbul".to_string()),
        country: Some("Türkiye".to_string()),
    };
    assert_eq!(all.context_tokens(), "Moda Kadıköy Anadolu İstanbul Türkiye");
    assert_eq!(all.display_suffix(), "Moda, Kadıköy, Anadolu, İstanbul, Türkiye");
    assert_eq!(context(None, Some("Kadıköy"), Some("Türkiye")).display_suffix(), "Kadıköy, Türkiye");
    assert_eq!(AdminContext::default().display_suffix(), "");
    assert_eq!(AdminContext::default().context_tokens(), "");
    assert_eq!(all.clone().display_suffix(), all.display_suffix());
}

#[test]
fn the_suffix_and_the_tokens_are_the_same_names() {
    let mut c = context(Some("Moda"), Some("Kadıköy"), None);
    assert_eq!(c.display_suffix().replace(", ", " "), c.context_tokens());
    assert_eq!(c.display_suffix().split(", ").collect::<Vec<_>>(), vec!["Moda", "Kadıköy"]);
    c.suburb = None;
    c.city = None;
    assert_eq!((c.display_suffix(), c.context_tokens()), (String::new(), String::new()));
}

#[test]
fn levels_name_the_areas() {
    let mut f = Files::default();
    let mut ids = Vec::new();
    for (name, level) in
        [("Türkiye", 2), ("Marmara", 4), ("İstanbul", 6), ("Kadıköy", 8), ("Dokuz", 9), ("On", 10), ("Üç", 3)]
    {
        let text = f.text(name);
        ids.push(f.area(&square(LAT, LNG, 1.0), text, level, 1.0));
    }
    f.areas_at(LAT, LNG, &ids);
    let c = f.admin(LAT, LNG).unwrap();
    assert_eq!(c.display_suffix(), "On, Kadıköy, İstanbul, Marmara, Türkiye");
    // Without level 10 the suburb is the one of level 9.
    f.admin_cells.clear();
    f.areas_at(LAT, LNG, &[ids[4]]);
    assert_eq!(f.admin(LAT, LNG).unwrap().suburb.as_deref(), Some("Dokuz"));
}

#[test]
fn polygons_of_two_corners_hold_nothing() {
    let mut f = Files::default();
    let name = f.text("İnce");
    let thin = f.area(&[(LAT - 1.0, LNG - 1.0), (LAT + 1.0, LNG + 1.0)], name, 8, 1.0);
    let none = f.area(&[], name, 6, 1.0);
    f.areas_at(LAT, LNG, &[thin, none]);
    let c = f.admin(LAT, LNG).unwrap();
    assert!(c.city.is_none() && c.county.is_none());
    // Inside a cell that is known to be inside, the corners do not matter.
    f.admin_cells.clear();
    f.areas_at(LAT, LNG, &[thin | 0x8000_0000]);
    assert_eq!(f.admin(LAT, LNG).unwrap().city.as_deref(), Some("İnce"));
}

#[test]
fn the_smallest_area_holds_the_point() {
    let mut f = Files::default();
    let (a, b, c) = (f.text("Büyük"), f.text("Küçük"), f.text("Yanda"));
    let big = f.area(&square(LAT, LNG, 1.0), a, 8, 9.0);
    let small = f.area(&square(LAT, LNG, 0.5), b, 8, 1.0);
    let beside = f.area(&square(LAT, LNG + 2.0, 0.5), c, 8, 0.1);
    for order in [[big, small, beside], [beside, small, big]] {
        f.admin_cells.clear();
        f.areas_at(LAT, LNG, &order);
        assert_eq!(f.admin(LAT, LNG).unwrap().city.as_deref(), Some("Küçük"));
    }
}

#[test]
fn the_nearest_suburb_node_lends_its_name() {
    let limit = (500.0f64 / 111_320.0).to_radians();
    assert_eq!(SUBURB_SNAP_DIST_SQ, (limit * limit).to_bits());
    let mut f = Files::default();
    let (near, far, poi) = (f.text("Yakın"), f.text("Uzak"), f.text("Kafe"));
    let a = f.feature(LAT + 0.004, LNG, far, 1);
    let b = f.feature(LAT + 0.002, LNG, near, 1);
    let c = f.feature(LAT, LNG, poi, 2);
    let d = f.feature(LAT, LNG, NO_DATA, 1);
    f.features_at(LAT, LNG, &[a, b, c, d, a]);
    let name = nearest_place_node(position(LAT, LNG), &f.index(), &to_place);
    assert_eq!(name, Ok(Some("Yakın".to_string())));
    assert_eq!(f.admin(LAT, LNG).unwrap().suburb.as_deref(), Some("Yakın"));
    // Places 600 m and 2 km off are too far.
    for off in [0.0054, 0.018] {
        f.place_cells.clear();
        let far_off = f.feature(LAT + off, LNG, near, 1);
        f.features_at(LAT, LNG, &[far_off]);
        assert_eq!(nearest_place_node(position(LAT, LNG), &f.index(), &to_place), Ok(None));
    }
}

#[test]
fn a_cell_inside_a_polygon_vouches_for_the_point() {
    let mut f = Files::default();
    let (off, own, suburb) = (f.text("Öte"), f.text("Beri"), f.text("Semt"));
    let a = f.area(&square(LAT + 5.0, LNG, 0.1), off, 8, 1.0);
    let b = f.area(&square(LAT, LNG, 1.0), own, 8, 4.0);
    let c = f.area(&[], suburb, 10, 1.0);
    let here = cell_id_at_level(position(LAT, LNG).leaf, 10);
    // The next cell to the north counts as the point's own one does.
    let mut next = LAT;
    while cell_id_at_level(position(next, LNG).leaf, 10) == here {
        next += 0.001;
    }
    for lat in [next, LAT] {
        f.admin_cells.clear();
        f.areas_at(lat, LNG, &[a, b, c]);
        let found = f.admin(LAT, LNG).unwrap();
        assert_eq!((found.city.as_deref(), found.suburb), (Some("Beri"), None));
        f.admin_cells.clear();
        f.areas_at(lat, LNG, &[a | 0x8000_0000, b, c | 0x8000_0000]);
        let found = f.admin(LAT, LNG).unwrap();
        assert_eq!((found.city.as_deref(), found.suburb.as_deref()), (Some("Öte"), Some("Semt")));
    }
}

#[test]
fn malformed_areas_and_places_are_errors() {
    let mut f = Files::default();
    f.areas_at(LAT, LNG, &[3]);
    assert_eq!(f.admin(LAT, LNG).err(), Some(IndexError::OutOfRange));

    let mut f = Files::default();
    f.features_at(LAT, LNG, &[0]);
    assert_eq!(f.admin(LAT, LNG).err(), Some(IndexError::OutOfRange));

    let mut f = Files::default();
    let a = f.feature(LAT, LNG, 50, 1);
    f.features_at(LAT, LNG, &[a]);
    assert_eq!(f.admin(LAT, LNG).err(), Some(IndexError::OutOfRange));

    let mut f = Files::default();
    let a = f.area(&square(LAT, LNG, 1.0), 0, 8, 1.0);
    f.admin_vertices.truncate(16);
    f.areas_at(LAT, LNG, &[a]);
    assert_eq!(f.admin(LAT, LNG).err(), Some(IndexError::OutOfRange));
}

#[test]
fn the_cache_answers_for_the_whole_cell() {
    let mut f = Files::default();
    let name = f.text("Kadıköy");
    let a = f.area(&square(LAT, LNG, 1.0), name, 8, 1.0);
    f.areas_at(LAT, LNG, &[a]);
    let mut cache = AdminCache::new();
    let p = position(LAT, LNG);
    let first = cache.get(p, &f.index(), &crosses, &to_place).unwrap();
    assert_eq!(first.city.as_deref(), Some("Kadıköy"));
    // Another point of the same cell, and an index that says otherwise.
    let q = position(LAT + 0.0001, LNG);
    assert_eq!(cell_id_at_level(p.leaf, 14), cell_id_at_level(q.leaf, 14));
    let empty = Files::default();
    let second = cache.get(q, &empty.index(), &crosses, &to_place).unwrap();
    assert_eq!(second.city.as_deref(), Some("Kadıköy"));
    // Another cell is looked up anew, and a failure is not kept.
    let r = position(LAT + 0.1, LNG);
    let mut broken = Files::default();
    broken.areas_at(LAT + 0.1, LNG, &[9]);
    assert!(cache.get(r, &broken.index(), &crosses, &to_place).is_err());
    assert!(cache.get(r, &empty.index(), &crosses, &to_place).unwrap().city.is_none());
}

// --- Targets ---

#[test]
fn areas_are_listed_by_level() {
    let mut f = Files::default();
    let mut expected = Vec::new();
    for (name, level, kind, weight) in [
        ("Dört", 4, "state", 2.5),
        ("Altı", 6, "county", 3.0),
        ("Sekiz", 8, "city", 4.0),
        ("Dokuz", 9, "suburb", 1.5),
        ("On", 10, "suburb", 1.5),
    ] {
        let text = f.text(name);
        f.area(&square(LAT, LNG, 1.0), text, level, 1.0);
        expected.push((name, kind, f64::to_bits(weight), Some(level)));
    }
    let text = f.text("İki");
    f.area(&square(LAT, LNG, 1.0), text, 2, 1.0);
    f.area(&square(LAT, LNG, 1.0), NO_DATA, 8, 1.0);
    let empty = f.text("");
    f.area(&square(LAT, LNG, 1.0), empty, 8, 1.0);
    let idx = f.index();
    let listed = list_areas(&idx, &centroid, &whole_degrees).unwrap();
    let got: Vec<_> = listed.iter().map(|t| (t.name, t.kind, t.importance, t.level)).collect();
    assert_eq!(got, expected);
    assert_eq!(listed[0].at, position(LAT, LNG));
}

#[test]
fn of_areas_with_one_key_smaller_ones_follow_only() {
    let mut f = Files::default();
    let name = f.text("Aynı");
    f.area(&square(LAT + 0.1, LNG + 0.1, 0.01), name, 8, 5.0);
    f.area(&square(LAT + 0.2, LNG + 0.1, 0.01), name, 8, 5.0);
    f.area(&square(LAT + 0.3, LNG + 0.1, 0.01), name, 8, 2.0);
    f.area(&square(LAT + 0.4, LNG + 0.1, 0.01), name, 8, 3.0);
    f.area(&square(LAT + 0.5, LNG + 0.1, 0.01), name, 6, 9.0);
    f.area(&square(LAT + 1.5, LNG + 0.1, 0.01), name, 8, 9.0);
    let idx = f.index();
    let listed = list_areas(&idx, &centroid, &whole_degrees).unwrap();
    let got: Vec<_> = listed
        .iter()
        .map(|t| (t.level.unwrap(), (f64::from_bits(t.at.lat) * 10.0).round() as i32))
        .collect();
    assert_eq!(got, vec![(8, 411), (8, 413), (6, 415), (8, 425)]);
}

#[test]
fn an_area_is_placed_by_its_first_corners() {
    let mut f = Files::default();
    let name = f.text("Uzun");
    let mut corners = vec![(LAT, LNG); 64];
    corners.extend(vec![(LAT + 9.0, LNG + 9.0); 36]);
    f.area(&corners, name, 8, 1.0);
    let idx = f.index();
    let listed = list_areas(&idx, &centroid, &whole_degrees).unwrap();
    assert_eq!(listed[0].at, position(LAT, LNG));
    let mut g = Files::default();
    g.area(&square(LAT, LNG, 1.0), 0, 8, 1.0);
    g.admin_vertices.truncate(24);
    assert_eq!(list_areas(&g.index(), &centroid, &whole_degrees).err(), Some(IndexError::OutOfRange));
}

#[test]
fn named_places_are_listed_by_type() {
    let mut f = Files::default();
    let (a, b, c, d) = (f.text("Moda"), f.text("Kafe"), f.text(""), f.text("Sıfır"));
    f.feature(LAT, LNG, a, 1);
    f.feature(LAT, LNG + 1.0, b, 2);
    f.feature(LAT, LNG, c, 2);
    f.feature(LAT, LNG, d, 0);
    f.feature(LAT, LNG, NO_DATA, 1);
    let idx = f.index();
    let listed = list_features(&idx, &place_at).unwrap();
    let got: Vec<_> = listed.iter().map(|t| (t.name, t.kind, f64::from_bits(t.importance), t.level)).collect();
    assert_eq!(got, vec![("Moda", "suburb", 1.2, None), ("Kafe", "poi", 1.0, None)]);
    f.feature(LAT, LNG, 999, 2);
    assert_eq!(list_features(&f.index(), &place_at).err(), Some(IndexError::OutOfRange));
}

#[test]
fn ways_of_one_name_in_one_cell_are_one_street() {
    let mut f = Files::default();
    let (a, b) = (f.text("Ana Cadde"), f.text("Yan Sokak"));
    f.way(&[(LAT, LNG), (LAT, LNG + 0.002)], a);
    f.way(&[(LAT + 0.01, LNG), (LAT + 0.01, LNG)], b);
    f.way(&[(LAT, LNG + 0.004), (LAT, LNG + 0.004), (LAT, LNG + 0.004), (LAT, LNG + 0.004), (LAT, LNG + 0.004), (LAT, LNG + 0.004)], a);
    f.way(&[(LAT + 5.0, LNG), (LAT + 5.0, LNG)], a);
    f.way(&[(LAT, LNG)], NO_DATA);
    f.way(&[(LAT, LNG), (LAT, LNG)], a);
    let last = f.street_nodes.len();
    f.street_nodes.truncate(last - 8);
    let idx = f.index();
    let listed = list_streets(&idx, &centroid, &merge).unwrap();
    let got: Vec<_> = listed.iter().map(|t| (t.name, t.kind, f64::from_bits(t.importance))).collect();
    assert_eq!(got, vec![("Ana Cadde", "street", 1.0), ("Yan Sokak", "street", 1.0), ("Ana Cadde", "street", 1.0)]);
    // Two points at a mean of 0.001 and six at 0.004.
    assert!((f64::from_bits(listed[0].at.lng) - (LNG + 0.00325)).abs() < 1e-5);
    assert!((f64::from_bits(listed[2].at.lat) - (LAT + 5.0)).abs() < 1e-5);
}

// --- Documents ---

#[test]
fn the_areas_above_an_area_stand_behind_its_name() {
    let mut c = context(Some("Moda"), Some("Kadıköy"), Some("Türkiye"));
    c.county = Some("İlçe".to_string());
    c.state = Some("İstanbul".to_string());
    assert_eq!(admin_display_suffix(10, &c), "Kadıköy, İlçe, İstanbul, Türkiye");
    assert_eq!(admin_display_suffix(9, &c), "Kadıköy, İlçe, İstanbul, Türkiye");
    assert_eq!(admin_display_suffix(8, &c), "İlçe, İstanbul, Türkiye");
    assert_eq!(admin_display_suffix(6, &c), "İstanbul, Türkiye");
    assert_eq!(admin_display_suffix(4, &c), "Türkiye");
    assert_eq!(admin_display_suffix(2, &c), "");
    assert_eq!(admin_display_suffix(8, &context(Some("x"), Some("y"), None)), "");
}

#[test]
fn the_schema_has_its_eight_fields() {
    let ss = build_schema();
    let names: Vec<String> = ss.schema.fields().map(|(_, entry)| entry.name().to_string()).collect();
    assert_eq!(names, vec!["name", "name_norm", "context", "display", "lat", "lon", "kind", "importance"]);
    let stored: Vec<bool> = ss.schema.fields().map(|(_, entry)| entry.is_stored()).collect();
    assert_eq!(stored, vec![true, false, false, true, true, true, true, false]);
    let indexed: Vec<bool> = ss.schema.fields().map(|(_, entry)| entry.is_indexed()).collect();
    assert_eq!(indexed, vec![true, true, true, true, false, false, true, false]);
    let fast: Vec<bool> = ss.schema.fields().map(|(_, entry)| entry.is_fast()).collect();
    assert_eq!(fast, vec![false, false, false, false, true, true, false, true]);
    assert_eq!((ss.f_name, ss.f_name_norm, ss.f_context, ss.f_display), (0, 1, 2, 3));
    assert_eq!((ss.f_lat, ss.f_lon, ss.f_kind, ss.f_importance), (4, 5, 6, 7));
}

#[test]
fn a_document_holds_the_normalized_name() {
    let ss = build_schema();
    let doc = make_doc(
        &ss,
        &SearchDoc {
            name: "Çeşme Sokağı".to_string(),
            display: "Çeşme Sokağı, İzmir".to_string(),
            lat: 38.32f64.to_bits(),
            lon: (-26.3f64).to_bits(),
            kind: "street",
            context: "İzmir Türkiye".to_string(),
            importance: 1.0f64.to_bits(),
        },
    );
    let field = |id| tantivy::schema::Field::from_field_id(id);
    assert_eq!(doc.len(), 8);
    assert_eq!(doc.get_first(field(0)).and_then(|v| v.as_str()), Some("cesme sokagi"));
    assert_eq!(doc.get_first(field(1)).and_then(|v| v.as_str()), Some("cesme sokagi"));
    assert_eq!(doc.get_first(field(2)).and_then(|v| v.as_str()), Some("izmir turkiye"));
    assert_eq!(doc.get_first(field(3)).and_then(|v| v.as_str()), Some("Çeşme Sokağı, İzmir"));
    assert_eq!(doc.get_first(field(4)).and_then(|v| v.as_f64()), Some(38.32));
    assert_eq!(doc.get_first(field(5)).and_then(|v| v.as_f64()), Some(-26.3));
    assert_eq!(doc.get_first(field(6)).and_then(|v| v.as_str()), Some("street"));
    assert_eq!(doc.get_first(field(7)).and_then(|v| v.as_f64()), Some(1.0));
}

/// A city with a suburb, a café and two streets.
fn town() -> Files {
    let mut f = Files::default();
    let (country, city, moda, cafe) = (f.text("Türkiye"), f.text("Kadıköy"), f.text("Moda"), f.text("Şirin Kafe"));
    let (street, lane) = (f.text("Bağdat Caddesi"), f.text("Çiçek Sokak"));
    let a = f.area(&square(LAT, LNG, 3.0), country, 2, 50.0);
    let b = f.area(&square(LAT, LNG, 0.5), city, 8, 5.0);
    f.areas_at(LAT, LNG, &[a, b]);
    let p = f.feature(LAT, LNG + 0.001, moda, 1);
    let q = f.feature(LAT, LNG + 0.002, cafe, 2);
    f.features_at(LAT, LNG, &[p, q]);
    f.way(&[(LAT, LNG), (LAT, LNG + 0.001)], street);
    f.way(&[(LAT, LNG), (LAT + 0.001, LNG)], lane);
    f
}

#[test]
fn documents_carry_their_context() {
    let f = town();
    let docs = collect_docs(&f.index(), &centroid, &whole_degrees, &place_at, &merge, &crosses, &to_place).unwrap();
    let got: Vec<_> = docs.iter().map(|d| (d.display.as_str(), d.kind, d.context.as_str())).collect();
    assert_eq!(
        got,
        vec![
            ("Kadıköy, Türkiye", "city", "Kadıköy Moda Kadıköy Türkiye"),
            ("Moda, Moda, Kadıköy, Türkiye", "suburb", "Moda Kadıköy Türkiye"),
            ("Şirin Kafe, Moda, Kadıköy, Türkiye", "poi", "Moda Kadıköy Türkiye"),
            ("Bağdat Caddesi, Moda, Kadıköy, Türkiye", "street", "Moda Kadıköy Türkiye"),
            ("Çiçek Sokak, Moda, Kadıköy, Türkiye", "street", "Moda Kadıköy Türkiye"),
        ]
    );
    for d in &docs {
        assert!(d.display.starts_with(&d.name));
    }
}

#[test]
fn a_malformed_index_is_not_built() {
    let mut f = town();
    f.feature(LAT, LNG, 100_000, 2);
    let built = build_index(&f.index(), &centroid, &whole_degrees, &place_at, &merge, &crosses, &to_place);
    assert!(matches!(built, Err(BuildError::Index(IndexError::OutOfRange))));
}

#[test]
fn an_index_holds_one_document_for_each_place() {
    let held = |f: &Files| match build_index(
        &f.index(),
        &centroid,
        &whole_degrees,
        &place_at,
        &merge,
        &crosses,
        &to_place,
    ) {
        Ok(index) => {
            let searcher = index.reader().unwrap().searcher();
            let all = searcher
                .search(&tantivy::query::AllQuery, &tantivy::collector::TopDocs::with_limit(100))
                .unwrap();
            let display = build_schema().f_display;
            let mut shown: Vec<String> = all
                .into_iter()
                .map(|(_, at)| {
                    let doc: tantivy::TantivyDocument = searcher.doc(at).unwrap();
                    let field = tantivy::schema::Field::from_field_id(display);
                    doc.get_first(field).unwrap().as_str().unwrap().to_string()
                })
                .collect();
            shown.sort();
            shown
        }
        Err(_) => panic!("no index"),
    };
    assert_eq!(held(&Files::default()), Vec::<String>::new());
    let f = town();
    let docs = collect_docs(&f.index(), &centroid, &whole_degrees, &place_at, &merge, &crosses, &to_place).unwrap();
    let mut expected: Vec<String> = docs.into_iter().map(|d| d.display).collect();
    expected.sort();
    assert_eq!(held(&f), expected);
}

#[test]
fn an_engine_that_fails_is_told_of() {
    let why = || tantivy::TantivyError::InvalidArgument("why".to_string());
    for built in [fill_index(&build_schema(), Err(why()), &vec![]), publish(Err(why()))] {
        match built {
            Err(BuildError::Engine(tantivy::TantivyError::InvalidArgument(why))) => assert_eq!(why, "why"),
            _ => panic!("another outcome"),
        }
    }
    let index = tantivy::Index::create_in_ram(build_schema().schema);
    assert!(publish(Ok(index)).is_ok());
}

fn state_of(f: &Files) -> SearchState {
    let built = build_index(&f.index(), &centroid, &whole_degrees, &place_at, &merge, &crosses, &to_place);
    let index = match built {
        Ok(index) => index,
        Err(_) => panic!("no index"),
    };
    assert_eq!(index.reader().unwrap().searcher().num_docs(), 5);
    match SearchState::new(&index, Arc::new(build_schema())) {
        Ok(state) => state,
        Err(_) => panic!("no reader"),
    }
}

fn shown(state: &SearchState, q: &str, limit: usize) -> Vec<String> {
    match run_search(state, q, limit, &weigh) {
        Ok(results) => results.into_iter().map(|r| r.display_name).collect(),
        Err(_) => panic!("search failed"),
    }
}

// --- Searching ---

#[test]
fn places_are_found_by_name() {
    let f = town();
    let state = state_of(&f);
    assert_eq!(shown(&state, "bagdat", 5)[0], "Bağdat Caddesi, Moda, Kadıköy, Türkiye");
    assert_eq!(shown(&state, "BAĞDAT caddesi", 5)[0], "Bağdat Caddesi, Moda, Kadıköy, Türkiye");
    assert_eq!(shown(&state, "şirin", 5), vec!["Şirin Kafe, Moda, Kadıköy, Türkiye"]);
    assert_eq!(shown(&state, "ankara", 5), Vec::<String>::new());
    // One letter off, and two letters swapped.
    assert_eq!(shown(&state, "bagdet", 5)[0], "Bağdat Caddesi, Moda, Kadıköy, Türkiye");
    assert_eq!(shown(&state, "bgadat", 5)[0], "Bağdat Caddesi, Moda, Kadıköy, Türkiye");
    // Three letters are too few for that.
    assert_eq!(shown(&state, "kaf", 5), Vec::<String>::new());
}

#[test]
fn the_context_is_searched_too() {
    let f = town();
    let state = state_of(&f);
    let all = shown(&state, "türkiye", 10);
    assert_eq!(all.len(), 5);
    assert_eq!(shown(&state, "türkiye", 2).len(), 2);
    assert_eq!(shown(&state, "çiçek kadıköy", 5)[0], "Çiçek Sokak, Moda, Kadıköy, Türkiye");
}

#[test]
fn results_carry_coordinates_and_kind() {
    let f = town();
    let state = state_of(&f);
    let results = match run_search(&state, "şirin kafe", 5, &weigh) {
        Ok(results) => results,
        Err(_) => panic!("search failed"),
    };
    assert_eq!(results[0].kind, "poi");
    assert_eq!(f64::from_bits(results[0].lat), LAT);
    assert_eq!(f64::from_bits(results[0].lon), (LNG + 0.002) as f32 as f64);
}

#[test]
fn requests_without_a_query_are_refused() {
    let f = town();
    let state = state_of(&f);
    for q in [None, Some("".to_string()), Some(" \t\u{a0}".to_string())] {
        match search_handler(SearchParams { q }, &state, &weigh) {
            Reply::Refused { status, error, cause } => {
                assert_eq!((status, error), (400, "missing query parameter q"));
                assert!(cause.is_none());
            }
            Reply::Found(_) => panic!("not refused"),
        }
    }
    match search_handler(SearchParams { q: Some("  moda ".to_string()) }, &state, &weigh) {
        Reply::Found(results) => {
            assert!(results.len() <= 5);
            assert_eq!(results[0].display_name, "Moda, Moda, Kadıköy, Türkiye");
        }
        Reply::Refused { .. } => panic!("refused"),
    }
}

#[test]
fn a_failed_search_is_an_internal_error() {
    // A word query on a field of numbers is one that the engine refuses.
    let f = town();
    let mut state = state_of(&f);
    let mut ss = build_schema();
    ss.f_context = ss.f_lat;
    state.ss = Arc::new(ss);
    assert!(run_search(&state, "moda", 5, &weigh).is_err());
    match search_handler(SearchParams { q: Some("moda".to_string()) }, &state, &weigh) {
        Reply::Refused { status, error, cause } => {
            assert_eq!((status, error), (500, "search error"));
            assert!(cause.is_some());
        }
        Reply::Found(_) => panic!("not refused"),
    }
    assert!(matches!(reply_to(Ok(vec![])), Reply::Found(results) if results.is_empty()));
}

#[test]
fn every_word_is_searched_in_names_and_contexts() {
    let ss = build_schema();
    let query = build_query(&ss, " Moda  ev ");
    // Two clauses for a short word, and a third for a longer one.
    assert_eq!(query.clauses().len(), 5);
    for (occur, _) in query.clauses() {
        assert_eq!(*occur, tantivy::query::Occur::Should);
    }
    let mut terms = Vec::new();
    tantivy::query::Query::query_terms(&query, &mut |term, _| {
        terms.push((term.field().field_id(), term.value().as_str().unwrap().to_string()));
    });
    let text = |s: &str| s.to_string();
    assert_eq!(
        terms,
        vec![(1, text("moda")), (2, text("moda")), (1, text("ev")), (2, text("ev"))]
    );
    assert!(build_query(&ss, "").clauses().is_empty());
}

#[test]
fn an_empty_query_finds_nothing() {
    let f = town();
    let state = state_of(&f);
    assert_eq!(shown(&state, "", 5), Vec::<String>::new());
    assert_eq!(shown(&state, "moda", 5), shown(&state, " moda\n", 5));
}

#[test]
fn an_answer_is_had_if_and_only_if_the_engine_did_not_fail() {
    let ss = build_schema();
    let found = Ok(vec![hit(1.0, "a", Some(1.0), None), hit(2.0, "b", Some(1.0), None)]);
    let answer = match answer_outcome(&ss, "", found, &weigh, 5) {
        Ok(results) => results.into_iter().map(|r| r.display_name).collect::<Vec<String>>(),
        Err(_) => panic!("search failed"),
    };
    assert_eq!(answer, vec!["b", "a"]);
    let failed = Err(tantivy::TantivyError::InvalidArgument("why".to_string()));
    match answer_outcome(&ss, "", failed, &weigh, 5) {
        Err(SearchError::Engine(tantivy::TantivyError::InvalidArgument(why))) => assert_eq!(why, "why"),
        _ => panic!("another outcome"),
    }
}

#[test]
fn a_state_is_had_if_and_only_if_a_reader_was_opened() {
    let ss = Arc::new(build_schema());
    let index = tantivy::Index::create_in_ram(ss.schema.clone());
    assert!(SearchState::with_reader(index.reader(), ss.clone()).is_ok());
    let failed = Err(tantivy::TantivyError::InvalidArgument("why".to_string()));
    match SearchState::with_reader(failed, ss) {
        Err(SearchError::Engine(tantivy::TantivyError::InvalidArgument(why))) => assert_eq!(why, "why"),
        _ => panic!("another outcome"),
    }
}

#[test]
fn queries_are_split_lowered_and_normalized() {
    assert_eq!(query_tokens("  Bağdat CADDESİ "), vec!["bagdat", "caddesi\u{307}"]);
    assert_eq!(query_tokens(""), Vec::<String>::new());
}

#[test]
fn the_boost_counts_words_by_their_bytes() {
    let tokens = |q: &str| query_tokens(q);
    let display = "Bağdat Caddesi, Kadıköy, Türkiye";
    assert_eq!(find_boost(display, &tokens("")), 1);
    assert_eq!(find_boost(display, &tokens("izmir")), 1);
    // One long word that stands in the text, and so do all.
    assert_eq!(find_boost(display, &tokens("bağdat")), 5);
    assert_eq!(find_boost(display, &tokens("bagdat kadikoy")), 6);
    // One of two does not.
    assert_eq!(find_boost(display, &tokens("bagdat izmir")), 2);
    // Three letters count for all, not by themselves.
    assert_eq!(find_boost(display, &tokens("cad")), 4);
    // Two letters do not count at all.
    assert_eq!(find_boost(display, &tokens("ca")), 1);
    assert_eq!(find_boost(display, &tokens("bagdat zz")), 5);
}

fn hit(score: f32, display: &str, lat: Option<f64>, importance: Option<f64>) -> Hit {
    let mut doc = tantivy::TantivyDocument::new();
    let field = |id| tantivy::schema::Field::from_field_id(id);
    doc.add_text(field(3), display);
    if let Some(lat) = lat {
        doc.add_f64(field(4), lat);
    }
    doc.add_f64(field(5), 29.0);
    doc.add_text(field(6), "city");
    if let Some(importance) = importance {
        doc.add_f64(field(7), importance);
    }
    Hit { score: score.to_bits(), doc: Some(doc) }
}

fn answered(q: &str, hits: &Vec<Hit>, limit: usize) -> Vec<String> {
    answer_from(&build_schema(), q, hits, &weigh, limit).into_iter().map(|r| r.display_name).collect()
}

#[test]
fn answers_are_ranked_by_weight_and_stay_in_order() {
    let hits = vec![
        hit(1.0, "a", Some(1.0), None),
        hit(3.0, "b", Some(1.0), None),
        hit(1.0, "c", Some(1.0), None),
        hit(1.0, "d", Some(1.0), Some(2.5)),
        hit(3.0, "e", Some(1.0), None),
    ];
    assert_eq!(answered("", &hits, 10), vec!["b", "e", "d", "a", "c"]);
    assert_eq!(answered("", &hits, 3), vec!["b", "e", "d"]);
    // The fit counts five times.
    let hits = vec![hit(4.0, "a", Some(1.0), None), hit(1.0, "Moda", Some(1.0), None)];
    assert_eq!(answered("moda", &hits, 10), vec!["Moda", "a"]);
}

#[test]
fn doubles_and_incomplete_documents_are_left_out() {
    let hits = vec![
        hit(1.0, "Moda", Some(1.0), None),
        hit(2.0, "MODA", Some(2.0), None),
        hit(9.0, "x", None, None),
        Hit { score: 9.0f32.to_bits(), doc: None },
        hit(0.5, "y", Some(1.0), None),
    ];
    assert_eq!(answered("", &hits, 10), vec!["MODA", "y"]);
    assert_eq!(answered("", &hits, 1), vec!["MODA"]);
    assert_eq!(answered("", &vec![], 3), Vec::<String>::new());
}

#[test]
fn whitespace_round_a_query_changes_nothing() {
    assert_eq!(query_tokens(" a b\n"), query_tokens("a b"));
}
