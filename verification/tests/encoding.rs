use geocoder::bytes::{
    find_row, lookup_cell, lookup_cells, read_all_entry_ids, read_entry_ids, read_text, read_u16,
    read_u32, read_u64, NO_DATA,
};
use geocoder::cells::{cell_id_at_level, list_cells_around, FACES_END};
use geocoder::ieee::{is_double_less, is_single_at_least, is_single_less};
use s2::cellid::CellID;
use s2::latlng::LatLng;

fn cell_table(rows: &[(u64, u32)]) -> Vec<u8> {
    let mut out = Vec::new();
    for (id, offset) in rows {
        out.extend_from_slice(&id.to_le_bytes());
        out.extend_from_slice(&offset.to_le_bytes());
    }
    out
}

fn entry_list(ids: &[u32]) -> Vec<u8> {
    let mut out = (ids.len() as u16).to_le_bytes().to_vec();
    for id in ids {
        out.extend_from_slice(&id.to_le_bytes());
    }
    out
}

#[test]
fn integers_are_little_endian() {
    let data = [0x01, 0x02, 0x03, 0x04, 0x05, 0x06, 0x07, 0x08, 0xFF];
    assert_eq!(read_u16(&data, 0), 0x0201);
    assert_eq!(read_u16(&data, 7), 0xFF08);
    assert_eq!(read_u32(&data, 1), 0x05040302);
    assert_eq!(read_u64(&data, 0), 0x0807060504030201);
}

#[test]
fn a_lookup_finds_every_key_and_no_other() {
    let rows: Vec<(u64, u32)> = (0..11).map(|i| (10 + 3 * i as u64, 100 + i)).collect();
    let table = cell_table(&rows);
    for (i, (key, offset)) in rows.iter().enumerate() {
        assert_eq!(find_row(&table, 12, *key), Some(i));
        assert_eq!(lookup_cell(&table, *key), *offset);
        assert_eq!(lookup_cell(&table, key + 1), NO_DATA);
    }
    assert_eq!(lookup_cell(&table, 0), NO_DATA);
    assert_eq!(lookup_cell(&table, u64::MAX), NO_DATA);
    assert_eq!(lookup_cell(&[], 10), NO_DATA);
    assert_eq!(lookup_cells(&table, &vec![13, 14, 10]), vec![101, NO_DATA, 100]);
}

#[test]
fn a_partial_row_at_the_end_does_not_count() {
    let mut table = cell_table(&[(1, 7), (2, 8)]);
    table.truncate(23);
    assert_eq!(lookup_cell(&table, 1), 7);
    assert_eq!(lookup_cell(&table, 2), NO_DATA);
}

#[test]
fn entry_lists_are_read_whole_or_not_at_all() {
    let mut entries = entry_list(&[5, 0x8000_0001]);
    let second = entries.len() as u32;
    entries.extend(entry_list(&[9]));
    assert_eq!(read_entry_ids(&entries, 0), vec![5, 0x8000_0001]);
    assert_eq!(read_entry_ids(&entries, second), vec![9]);
    assert_eq!(read_entry_ids(&entries, NO_DATA), Vec::<u32>::new());
    assert_eq!(read_entry_ids(&entries, entries.len() as u32 - 1), Vec::<u32>::new());
    assert_eq!(read_entry_ids(&entries[..9], 0), Vec::<u32>::new());
    assert_eq!(
        read_all_entry_ids(&entries, &vec![second, NO_DATA, 0]),
        vec![9, 5, 0x8000_0001]
    );
}

#[test]
fn a_text_ends_at_the_first_zero_byte() {
    let data = "Ankara\0İzmir\0\u{1F30D}".as_bytes();
    assert_eq!(read_text(data, 0), "Ankara");
    assert_eq!(read_text(data, 2), "kara");
    assert_eq!(read_text(data, 6), "");
    assert_eq!(read_text(data, 7), "İzmir");
    assert_eq!(read_text(data, 14), "\u{1F30D}");
    assert_eq!(read_text(data, data.len()), "");
}

#[test]
fn bytes_that_are_no_utf8_are_an_empty_text() {
    assert_eq!(read_text(&[b'a', 0xFF, b'b', 0], 0), "");
    // The second byte of a letter of two.
    assert_eq!(read_text("İ".as_bytes(), 1), "");
}

#[test]
fn the_order_of_patterns_is_the_order_of_numbers() {
    let singles = [
        0.0f32, -0.0, 1.0, -1.0, 1.5, -1.5, f32::MIN_POSITIVE, -f32::MIN_POSITIVE, f32::MAX, f32::MIN,
        f32::INFINITY, f32::NEG_INFINITY, f32::NAN, -f32::NAN, 1e-45, -1e-45,
    ];
    for a in singles {
        for b in singles {
            assert_eq!(is_single_less(a.to_bits(), b.to_bits()), a < b, "{} < {}", a, b);
            assert_eq!(is_single_at_least(a.to_bits(), b.to_bits()), a >= b, "{} >= {}", a, b);
        }
    }
    let doubles = [
        0.0f64, -0.0, 1.0, -1.0, 1.5, -1.5, f64::MIN_POSITIVE, -f64::MIN_POSITIVE, f64::MAX, f64::MIN,
        f64::INFINITY, f64::NEG_INFINITY, f64::NAN, -f64::NAN, 5e-324, -5e-324,
    ];
    for a in doubles {
        for b in doubles {
            assert_eq!(is_double_less(a.to_bits(), b.to_bits()), a < b, "{} < {}", a, b);
        }
    }
}

fn leaf(lat: f64, lng: f64) -> u64 {
    CellID::from(LatLng::from_degrees(lat, lng)).0
}

#[test]
fn the_cell_at_a_level_keeps_the_bits_above_it() {
    let l = leaf(41.0082, 28.9784);
    for level in 0..=30u64 {
        let bit = 1u64 << (60 - 2 * level);
        assert_eq!(cell_id_at_level(l, level), l & !(bit - 1) & !bit | bit);
    }
    assert_eq!(cell_id_at_level(0x14ca_a3f7_1234_5671, 10), 0x14ca_a300_0000_0000 | 1 << 40);
}

#[test]
fn cells_nest() {
    let l = leaf(-33.86, 151.2);
    for fine in 0..=30u64 {
        assert_eq!(cell_id_at_level(l, fine).trailing_zeros() as u64, 2 * (30 - fine));
        for coarse in 0..=fine {
            assert_eq!(
                cell_id_at_level(cell_id_at_level(l, fine), coarse),
                cell_id_at_level(l, coarse)
            );
            let mark = 1u64 << (60 - 2 * coarse);
            assert_eq!(cell_id_at_level(l, coarse), cell_id_at_level(l, fine) & !(mark - 1) | mark);
        }
    }
}

#[test]
fn the_cells_around_a_point_are_its_own_and_those_that_touch_it() {
    let l = leaf(39.92, 32.85);
    assert!(l < FACES_END);
    let cells = list_cells_around(l, 14);
    assert_eq!(cells[0], cell_id_at_level(l, 14));
    assert_eq!(cells.len(), 9);
    let mut distinct = cells.clone();
    distinct.sort();
    distinct.dedup();
    assert_eq!(distinct.len(), 9);
    for edge in CellID(cells[0]).edge_neighbors() {
        assert!(cells.contains(&edge.0));
    }
    // A point a little off lies in one of them.
    assert!(cells.contains(&cell_id_at_level(leaf(39.925, 32.85), 14)));
}
