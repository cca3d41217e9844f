use geocoder::boundary::{choose_boundaries, point_in_polygon, Boundary, Claim, PointTest};
use geocoder::bytes::IndexError;
use geocoder::geometry::{cast_ray, read_nodes, read_stretch, Axis, NodeCoord, Position};

fn at(lat: f32, lng: f32) -> Position {
    Position {
        lat: (lat as f64).to_bits(),
        lng: (lng as f64).to_bits(),
        lat_single: lat.to_bits(),
        lng_single: lng.to_bits(),
        leaf: 1,
    }
}

fn node(lat: f32, lng: f32) -> NodeCoord {
    NodeCoord { lat: lat.to_bits(), lng: lng.to_bits() }
}

fn crosses_lat(p: Position, i: NodeCoord, j: NodeCoord) -> bool {
    let (lat, lng) = (f32::from_bits(p.lat_single), f32::from_bits(p.lng_single));
    let (xi, yi) = (f32::from_bits(i.lng), f32::from_bits(i.lat));
    let (xj, yj) = (f32::from_bits(j.lng), f32::from_bits(j.lat));
    lng < (xj - xi) * (lat - yi) / (yj - yi) + xi
}

fn crosses_lng(p: Position, i: NodeCoord, j: NodeCoord) -> bool {
    let (lat, lng) = (f32::from_bits(p.lat_single), f32::from_bits(p.lng_single));
    let (yi, xi) = (f32::from_bits(i.lat), f32::from_bits(i.lng));
    let (yj, xj) = (f32::from_bits(j.lat), f32::from_bits(j.lng));
    lat < (yj - yi) * (lng - xi) / (xj - xi) + yi
}

/// The letter U, open to the north.
fn horseshoe() -> Vec<NodeCoord> {
    [(0.0, 0.0), (0.0, 6.0), (6.0, 6.0), (6.0, 4.0), (2.0, 4.0), (2.0, 2.0), (6.0, 2.0), (6.0, 0.0)]
        .iter()
        .map(|(lat, lng)| node(*lat, *lng))
        .collect()
}

fn expected() -> Vec<(Position, bool)> {
    vec![
        (at(1.0, 3.0), true),
        (at(4.0, 1.0), true),
        (at(4.0, 5.0), true),
        (at(4.0, 3.0), false),
        (at(-1.0, 3.0), false),
        (at(7.0, 1.0), false),
        (at(1.0, 7.0), false),
        (at(1.0, -1.0), false),
    ]
}

#[test]
fn a_ray_tells_inside_from_outside() {
    for (p, inside) in expected() {
        assert_eq!(cast_ray(&crosses_lat, Axis::Lat, p, &horseshoe()), inside);
        assert_eq!(cast_ray(&crosses_lng, Axis::Lng, p, &horseshoe()), inside);
    }
}

#[test]
fn the_first_corner_does_not_matter() {
    let mut corners = horseshoe();
    for _ in 0..corners.len() {
        corners.rotate_left(1);
        for (p, inside) in expected() {
            assert_eq!(cast_ray(&crosses_lat, Axis::Lat, p, &corners), inside);
        }
    }
}

#[test]
fn a_closed_ring_holds_what_the_open_one_does() {
    let test = PointTest { axis: Axis::Lat, least_corners: 3, refuses_empty: false };
    let mut corners = horseshoe();
    corners.push(corners[0]);
    for (p, inside) in expected() {
        assert_eq!(point_in_polygon(&crosses_lat, test, p, &corners), inside);
        assert_eq!(cast_ray(&crosses_lng, Axis::Lng, p, &corners), inside);
    }
}

#[test]
fn a_rectangle_holds_its_lower_edges_and_not_its_upper_ones() {
    let corners = vec![node(1.0, 2.0), node(1.0, 5.0), node(4.0, 5.0), node(4.0, 2.0)];
    let lat_test = PointTest { axis: Axis::Lat, least_corners: 3, refuses_empty: false };
    let lng_test = PointTest { axis: Axis::Lng, least_corners: 0, refuses_empty: true };
    for lat in [0.5f32, 1.0, 2.5, 3.9, 4.0, 4.5, f32::NAN] {
        for lng in [1.5f32, 2.0, 3.5, 4.9, 5.0, 5.5, f32::NAN] {
            let inside = 1.0 <= lat && lat < 4.0 && 2.0 <= lng && lng < 5.0;
            let p = at(lat, lng);
            assert_eq!(point_in_polygon(&crosses_lat, lat_test, p, &corners), inside, "{} {}", lat, lng);
            assert_eq!(point_in_polygon(&crosses_lng, lng_test, p, &corners), inside, "{} {}", lat, lng);
        }
    }
}

#[test]
fn edges_beside_the_point_are_not_asked_about() {
    let ask = |_: Position, _: NodeCoord, _: NodeCoord| -> bool { panic!("asked") };
    assert!(!cast_ray(&ask, Axis::Lat, at(7.0, 3.0), &horseshoe()));
    assert!(!cast_ray(&ask, Axis::Lng, at(3.0, -7.0), &horseshoe()));
    assert!(!cast_ray(&ask, Axis::Lat, at(1.0, 1.0), &vec![]));
}

#[test]
fn a_polygon_needs_its_corners() {
    let p = at(1.0, 1.0);
    let line = vec![node(0.0, 0.0), node(3.0, 3.0)];
    let yes = |_: Position, _: NodeCoord, i: NodeCoord| i == node(0.0, 0.0);
    let mut test = PointTest { axis: Axis::Lat, least_corners: 3, refuses_empty: false };
    assert!(!point_in_polygon(&yes, test, p, &line));
    test.least_corners = 0;
    assert!(point_in_polygon(&yes, test, p, &line));
}

fn table(nodes: &[NodeCoord]) -> Vec<u8> {
    let mut out = Vec::new();
    for n in nodes {
        out.extend_from_slice(&n.lat.to_le_bytes());
        out.extend_from_slice(&n.lng.to_le_bytes());
    }
    out
}

#[test]
fn stretches_of_points_are_read_where_the_table_has_them() {
    let nodes = horseshoe();
    let mut bytes = table(&nodes);
    assert_eq!(read_nodes(&bytes), nodes);
    assert_eq!(read_stretch(&bytes, 2, 3), Some(nodes[2..5].to_vec()));
    assert_eq!(read_stretch(&bytes, 8, 0), Some(vec![]));
    assert_eq!(read_stretch(&bytes, 6, 3), None);
    assert_eq!(read_stretch(&bytes, usize::MAX, 2), None);
    bytes.pop();
    assert_eq!(read_nodes(&bytes).len(), 7);
}

fn claim(level: u8, area: f32, interior: bool) -> Claim {
    Claim {
        interior,
        boundary: Some(Boundary {
            vertex_offset: 0,
            vertex_count: 8,
            name_id: 0,
            admin_level: level,
            area: area.to_bits(),
        }),
    }
}

fn sizes(claims: Vec<Claim>, p: Position) -> Result<Vec<Option<f32>>, IndexError> {
    let test = PointTest { axis: Axis::Lat, least_corners: 3, refuses_empty: false };
    choose_boundaries(&crosses_lat, test, p, &table(&horseshoe()), &claims)
        .map(|best| best.iter().map(|b| b.map(|b| f32::from_bits(b.area))).collect())
}

#[test]
fn every_level_takes_its_smallest_polygon() {
    let inside = at(1.0, 3.0);
    let claims = vec![
        claim(2, 5.0, false),
        claim(2, 7.0, true),
        claim(2, 3.0, false),
        claim(8, 9.0, true),
        claim(11, 1.0, false),
        claim(12, 1.0, true),
    ];
    let best = sizes(claims.clone(), inside).unwrap();
    assert_eq!(best.len(), 12);
    assert_eq!((best[2], best[8], best[11], best[4]), (Some(3.0), Some(9.0), Some(1.0), None));
    // Outside, only what holds the whole cell is left.
    let best = sizes(claims, at(4.0, 3.0)).unwrap();
    assert_eq!((best[2], best[8], best[11]), (Some(7.0), Some(9.0), None));
}

#[test]
fn a_claim_without_a_polygon_is_an_error() {
    let mut claims = vec![claim(2, 5.0, true), Claim { interior: true, boundary: None }];
    assert_eq!(sizes(claims.clone(), at(1.0, 3.0)), Err(IndexError::OutOfRange));
    claims[1] = claim(4, 5.0, false);
    claims[1].boundary = claims[1].boundary.map(|mut b| {
        b.vertex_count = 9;
        b
    });
    assert_eq!(sizes(claims.clone(), at(1.0, 3.0)), Err(IndexError::OutOfRange));
    // One that is not smaller is not looked at.
    claims[1].boundary = claims[1].boundary.map(|mut b| {
        b.admin_level = 2;
        b
    });
    assert!(sizes(claims, at(1.0, 3.0)).is_ok());
}
