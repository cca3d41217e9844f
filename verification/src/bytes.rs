//! The byte layout that the index files share: little-endian integers, tables
//! sorted by cell id, lists of entry ids, and texts that end in a zero byte.
use vstd::prelude::*;
use vstd::slice::slice_subrange;
use vstd::utf8::{decode_utf8, valid_utf8};

verus! {

/// The offset that stands for "nothing here".
pub const NO_DATA: u32 = 0xFFFF_FFFF;

/// What can be wrong with an index.
#[derive(Clone, Copy, Debug, PartialEq, Eq, Structural)]
pub enum IndexError {
    /// A record points outside the table that it refers to, or has no points
    /// where it needs some.
    OutOfRange,
    /// A number computed from a record does not fit its type.
    Overflow,
}

// --- Integers ---

/// The 16-bit number at `at`, lowest byte first.
pub open spec fn le16(data: Seq<u8>, at: int) -> int {
    data[at] + 0x100 * data[at + 1]
}

/// The 32-bit number at `at`, lowest byte first.
pub open spec fn le32(data: Seq<u8>, at: int) -> int {
    le16(data, at) + 0x1_0000 * le16(data, at + 2)
}

/// The 64-bit number at `at`, lowest byte first.
pub open spec fn le64(data: Seq<u8>, at: int) -> int {
    le32(data, at) + 0x1_0000_0000 * le32(data, at + 4)
}

/// Reads the 16-bit number at `offset`.
pub fn read_u16(data: &[u8], offset: usize) -> (r: u16)
    requires
        offset + 2 <= data@.len(),
    ensures
        r == le16(data@, offset as int),
{
    data[offset] as u16 + 0x100 * (data[offset + 1] as u16)
}

/// Reads the 32-bit number at `offset`.
pub fn read_u32(data: &[u8], offset: usize) -> (r: u32)
    requires
        offset + 4 <= data@.len(),
    ensures
        r == le32(data@, offset as int),
{
    assert(data.len() == data@.len());
    read_u16(data, offset) as u32 + 0x1_0000 * (read_u16(data, offset + 2) as u32)
}

/// Reads the 64-bit number at `offset`.
pub fn read_u64(data: &[u8], offset: usize) -> (r: u64)
    requires
        offset + 8 <= data@.len(),
    ensures
        r == le64(data@, offset as int),
{
    assert(data.len() == data@.len());
    read_u32(data, offset) as u64 + 0x1_0000_0000 * (read_u32(data, offset + 4) as u64)
}

// --- Tables keyed by a cell id ---

/// The number of whole rows of `width` bytes.
pub open spec fn row_count(table: Seq<u8>, width: int) -> int {
    table.len() as int / width
}

/// The keys of a table, one per row: the first eight bytes.
pub open spec fn row_keys(table: Seq<u8>, width: int) -> Seq<u64> {
    Seq::new(row_count(table, width) as nat, |i: int| le64(table, i * width) as u64)
}

/// Whether the keys go up from row to row.
pub open spec fn ascending(keys: Seq<u64>) -> bool {
    forall|i: int, j: int| 0 <= i < j < keys.len() ==> keys[i] < keys[j]
}

/// The row that halving the range `lo..hi` ends on, if one has the key.
pub open spec fn bisect(keys: Seq<u64>, key: u64, lo: int, hi: int) -> Option<int>
    decreases hi - lo,
{
    if lo >= hi {
        None
    } else {
        let mid = lo + (hi - lo) / 2;
        if keys[mid] == key {
            Some(mid)
        } else if keys[mid] < key {
            bisect(keys, key, mid + 1, hi)
        } else {
            bisect(keys, key, lo, mid)
        }
    }
}

/// The row of a table that a lookup of `key` finds.
pub open spec fn found_row(table: Seq<u8>, width: int, key: u64) -> Option<int> {
    bisect(row_keys(table, width), key, 0, row_count(table, width))
}

/// A row that a lookup finds has the key, whatever the order of the rows.
pub proof fn lemma_bisect_sound(keys: Seq<u64>, key: u64, lo: int, hi: int)
    requires
        0 <= lo,
        hi <= keys.len(),
    ensures
        match bisect(keys, key, lo, hi) {
            Some(i) => lo <= i < hi && keys[i] == key,
            None => true,
        },
    decreases hi - lo,
{
    if lo < hi {
        let mid = lo + (hi - lo) / 2;
        lemma_bisect_sound(keys, key, mid + 1, hi);
        lemma_bisect_sound(keys, key, lo, mid);
    }
}

proof fn lemma_bisect_complete(keys: Seq<u64>, key: u64, lo: int, hi: int, at: int)
    requires
        0 <= lo <= at < hi <= keys.len(),
        ascending(keys),
        keys[at] == key,
    ensures
        bisect(keys, key, lo, hi) == Some(at),
    decreases hi - lo,
{
    let mid = lo + (hi - lo) / 2;
    if keys[mid] == key {
        assert(mid == at);
    } else if keys[mid] < key {
        assert(mid < at);
        lemma_bisect_complete(keys, key, mid + 1, hi, at);
    } else {
        assert(at < mid);
        lemma_bisect_complete(keys, key, lo, mid, at);
    }
}

/// In a table whose keys ascend, a lookup finds exactly the row with the key.
pub proof fn law_lookup_finds_the_key(table: Seq<u8>, width: int, key: u64)
    requires
        width >= 8,
        ascending(row_keys(table, width)),
    ensures
        forall|i: int|
            0 <= i < row_count(table, width) && #[trigger] row_keys(table, width)[i] == key
                ==> found_row(table, width, key) == Some(i),
        (forall|i: int|
            0 <= i < row_count(table, width) ==> #[trigger] row_keys(table, width)[i] != key)
            ==> found_row(table, width, key) is None,
{
    let keys = row_keys(table, width);
    let n = row_count(table, width);
    assert(n >= 0) by (nonlinear_arith)
        requires
            width >= 8,
            n == table.len() as int / width,
            table.len() >= 0,
    ;
    lemma_bisect_sound(keys, key, 0, n);
    assert forall|i: int| 0 <= i < n && #[trigger] keys[i] == key implies bisect(keys, key, 0, n)
        == Some(i) by {
        lemma_bisect_complete(keys, key, 0, n, i);
    }
}

proof fn lemma_row_fits(len: int, width: int, row: int)
    requires
        width > 0,
        0 <= row < len / width,
    ensures
        0 <= row * width,
        row * width + width <= len,
{
    assert(row * width + width <= len) by (nonlinear_arith)
        requires
            width > 0,
            0 <= row < len / width,
    ;
    assert(0 <= row * width) by (nonlinear_arith)
        requires
            width > 0,
            0 <= row,
    ;
}

/// Finds the row of `table`, of `width` bytes each, whose key is `key`.
pub fn find_row(table: &[u8], width: usize, key: u64) -> (r: Option<usize>)
    requires
        width >= 8,
    ensures
        match r {
            Some(i) => found_row(table@, width as int, key) == Some(i as int)
                && i < row_count(table@, width as int) && i * width + width <= table@.len(),
            None => found_row(table@, width as int, key) is None,
        },
{
    let count: usize = table.len() / width;
    let ghost keys = row_keys(table@, width as int);
    let mut lo: usize = 0;
    let mut hi: usize = count;
    while lo < hi
        invariant
            width >= 8,
            table@.len() <= usize::MAX,
            count == row_count(table@, width as int),
            keys == row_keys(table@, width as int),
            lo <= hi <= count,
            bisect(keys, key, lo as int, hi as int) == found_row(table@, width as int, key),
        decreases hi - lo,
    {
        let mid: usize = lo + (hi - lo) / 2;
        proof {
            lemma_row_fits(table@.len() as int, width as int, mid as int);
        }
        let mid_key: u64 = read_u64(table, mid * width);
        assert(mid_key == keys[mid as int]);
        if mid_key == key {
            return Some(mid);
        } else if mid_key < key {
            lo = mid + 1;
        } else {
            hi = mid;
        }
    }
    None
}

/// The offset that a table of twelve-byte rows (cell id, offset) has for a
/// cell.
pub open spec fn cell_offset(cells: Seq<u8>, cell_id: u64) -> u32 {
    match found_row(cells, 12, cell_id) {
        Some(i) => le32(cells, 12 * i + 8) as u32,
        None => NO_DATA,
    }
}

/// The offsets of several cells.
pub open spec fn cell_offsets(cells: Seq<u8>, ids: Seq<u64>) -> Seq<u32> {
    Seq::new(ids.len(), |i: int| cell_offset(cells, ids[i]))
}

/// Looks a cell up in a table of twelve-byte rows.
pub fn lookup_cell(cells: &[u8], cell_id: u64) -> (r: u32)
    ensures
        r == cell_offset(cells@, cell_id),
{
    assert(cells.len() == cells@.len());
    match find_row(cells, 12, cell_id) {
        Some(i) => read_u32(cells, 12 * i + 8),
        None => NO_DATA,
    }
}

/// Looks up several cells.
pub fn lookup_cells(cells: &[u8], ids: &Vec<u64>) -> (r: Vec<u32>)
    ensures
        r@ == cell_offsets(cells@, ids@),
{
    let mut offsets: Vec<u32> = Vec::new();
    let mut i: usize = 0;
    while i < ids.len()
        invariant
            i <= ids@.len(),
            offsets@.len() == i,
            forall|j: int| 0 <= j < i ==> #[trigger] offsets@[j] == cell_offset(cells@, ids@[j]),
        decreases ids@.len() - i,
    {
        offsets.push(lookup_cell(cells, ids[i]));
        i = i + 1;
    }
    assert(offsets@ =~= cell_offsets(cells@, ids@));
    offsets
}

// --- Entry lists ---

/// The entry ids listed at `offset`: a 16-bit count, then that many 32-bit
/// ids. Nothing when the list is absent or not whole.
pub open spec fn entry_ids(entries: Seq<u8>, offset: u32) -> Seq<u32> {
    if offset == NO_DATA || offset + 2 > entries.len() {
        seq![]
    } else {
        let count = le16(entries, offset as int);
        if offset + 2 + 4 * count > entries.len() {
            seq![]
        } else {
            Seq::new(count as nat, |i: int| le32(entries, offset + 2 + 4 * i) as u32)
        }
    }
}

/// The entry ids of several lists, one list after the other.
pub open spec fn all_entry_ids(entries: Seq<u8>, offsets: Seq<u32>) -> Seq<u32>
    decreases offsets.len(),
{
    if offsets.len() == 0 {
        seq![]
    } else {
        all_entry_ids(entries, offsets.drop_last()) + entry_ids(entries, offsets.last())
    }
}

/// Reads the entry ids listed at `offset`.
pub fn read_entry_ids(entries: &[u8], offset: u32) -> (r: Vec<u32>)
    ensures
        r@ == entry_ids(entries@, offset),
{
    let mut ids: Vec<u32> = Vec::new();
    if offset == NO_DATA {
        return ids;
    }
    let at: usize = offset as usize;
    let len: usize = entries.len();
    if len < 2 || at > len - 2 {
        return ids;
    }
    let count: usize = read_u16(entries, at) as usize;
    let start: usize = at + 2;
    if len - start < 4 * count {
        return ids;
    }
    let mut i: usize = 0;
    while i < count
        invariant
            offset != NO_DATA,
            at == offset,
            start == at + 2,
            len == entries@.len(),
            count == le16(entries@, offset as int),
            start + 4 * count <= len,
            i <= count,
            ids@.len() == i,
            forall|j: int|
                0 <= j < i ==> #[trigger] ids@[j] == le32(entries@, offset + 2 + 4 * j) as u32,
        decreases count - i,
    {
        ids.push(read_u32(entries, start + 4 * i));
        i = i + 1;
    }
    assert(ids@ =~= entry_ids(entries@, offset));
    ids
}

/// Reads the entry ids of several lists, one list after the other.
pub fn read_all_entry_ids(entries: &[u8], offsets: &Vec<u32>) -> (r: Vec<u32>)
    ensures
        r@ == all_entry_ids(entries@, offsets@),
{
    let mut ids: Vec<u32> = Vec::new();
    let mut k: usize = 0;
    while k < offsets.len()
        invariant
            k <= offsets@.len(),
            ids@ == all_entry_ids(entries@, offsets@.take(k as int)),
        decreases offsets@.len() - k,
    {
        let mut more: Vec<u32> = read_entry_ids(entries, offsets[k]);
        ids.append(&mut more);
        assert(offsets@.take(k + 1).drop_last() =~= offsets@.take(k as int));
        k = k + 1;
    }
    assert(offsets@.take(k as int) =~= offsets@);
    ids
}

// --- Texts ---

/// The first zero byte at or after `from`, or the end.
pub open spec fn text_end(data: Seq<u8>, from: int) -> int
    decreases data.len() - from,
{
    if from >= data.len() || data[from] == 0 {
        from
    } else {
        text_end(data, from + 1)
    }
}

/// The characters that some bytes encode; none when they are no valid UTF-8.
pub open spec fn chars_of(bytes: Seq<u8>) -> Seq<char> {
    if valid_utf8(bytes) {
        decode_utf8(bytes)
    } else {
        seq![]
    }
}

/// The text that starts at `offset`.
pub open spec fn text_at(data: Seq<u8>, offset: int) -> Seq<char> {
    chars_of(data.subrange(offset, text_end(data, offset)))
}

/// `std::str::from_utf8`: gives the text of bytes that are valid UTF-8, and
/// nothing for bytes that are not.
#[verifier::external_body]
fn str_from_utf8(bytes: &[u8]) -> (r: Option<&str>)
    ensures
        match r {
            Some(s) => valid_utf8(bytes@) && s@ == decode_utf8(bytes@),
            None => !valid_utf8(bytes@),
        },
{
    std::str::from_utf8(bytes).ok()
}

/// Reads the text that starts at `offset`.
pub fn read_text(data: &[u8], offset: usize) -> (r: &str)
    requires
        offset <= data@.len(),
    ensures
        r@ == text_at(data@, offset as int),
{
    let mut end: usize = offset;
    while end < data.len() && data[end] != 0
        invariant
            offset <= end <= data@.len(),
            text_end(data@, end as int) == text_end(data@, offset as int),
        decreases data@.len() - end,
    {
        end = end + 1;
    }
    match str_from_utf8(slice_subrange(data, offset, end)) {
        Some(s) => s,
        None => {
            proof {
                reveal_strlit("");
            }
            assert(""@ =~= seq![]);
            ""
        },
    }
}

// --- What is read ---

/// Integers are read from their bytes, the lowest first.
pub proof fn law_lowest_byte_comes_first(data: Seq<u8>, at: int)
    ensures
        le16(data, at) == data[at] + 256 * data[at + 1],
        le32(data, at) == data[at] + 256 * data[at + 1] + 65536 * data[at + 2] + 16777216 * data[at
            + 3],
        le64(data, at) == le32(data, at) + 4294967296 * le32(data, at + 4),
{
}

/// A list of entries has as many ids as its count says, each read in its turn, where
/// the table has them all; else it has none.
pub proof fn law_entries_are_listed_whole(entries: Seq<u8>, offset: u32)
    ensures
        ({
            let count = entries[offset as int] + 256 * entries[offset + 1];
            let whole = offset != 0xFFFF_FFFF && offset + 2 <= entries.len() && offset + 2 + 4 * count
                <= entries.len();
            &&& !whole ==> entry_ids(entries, offset).len() == 0
            &&& whole ==> entry_ids(entries, offset).len() == count
            &&& whole ==> forall|i: int|
                0 <= i < count ==> #[trigger] entry_ids(entries, offset)[i] == le32(
                    entries,
                    offset + 2 + 4 * i,
                )
        }),
{
}

/// The lists of several cells follow each other whole.
pub proof fn law_lists_follow_each_other(entries: Seq<u8>, xs: Seq<u32>, ys: Seq<u32>)
    ensures
        xs.len() == 0 ==> all_entry_ids(entries, xs).len() == 0,
        xs.len() == 1 ==> all_entry_ids(entries, xs) == entry_ids(entries, xs[0]),
        all_entry_ids(entries, xs + ys) == all_entry_ids(entries, xs) + all_entry_ids(entries, ys),
    decreases ys.len(),
{
    if xs.len() == 1 {
        assert(xs.drop_last() =~= seq![]);
        assert(all_entry_ids(entries, Seq::<u32>::empty()) =~= seq![]);
        assert(all_entry_ids(entries, xs) =~= entry_ids(entries, xs[0]));
    }
    if ys.len() == 0 {
        assert(xs + ys =~= xs);
        assert(all_entry_ids(entries, xs) + all_entry_ids(entries, ys) =~= all_entry_ids(
            entries,
            xs,
        ));
    } else {
        law_lists_follow_each_other(entries, xs, ys.drop_last());
        assert((xs + ys).drop_last() =~= xs + ys.drop_last());
        assert((xs + ys).last() == ys.last());
        assert(all_entry_ids(entries, xs + ys) =~= all_entry_ids(entries, xs) + all_entry_ids(
            entries,
            ys,
        ));
    }
}

/// An entry is among those of several lists where it is in one of them.
pub(crate) proof fn lemma_entry_is_listed(entries: Seq<u8>, offsets: Seq<u32>, id: u32)
    ensures
        all_entry_ids(entries, offsets).contains(id) <==> exists|j: int|
            0 <= j < offsets.len() && entry_ids(entries, #[trigger] offsets[j]).contains(id),
    decreases offsets.len(),
{
    if offsets.len() > 0 {
        let init = offsets.drop_last();
        lemma_entry_is_listed(entries, init, id);
        let front = all_entry_ids(entries, init);
        let back = entry_ids(entries, offsets.last());
        let all = all_entry_ids(entries, offsets);
        if all.contains(id) {
            let k = choose|k: int| 0 <= k < all.len() && all[k] == id;
            if k < front.len() {
                assert(front[k] == id);
                let j = choose|j: int|
                    0 <= j < init.len() && entry_ids(entries, #[trigger] init[j]).contains(id);
                assert(offsets[j] == init[j]);
            } else {
                assert(back[k - front.len()] == id);
                assert(entry_ids(entries, offsets[offsets.len() - 1]).contains(id));
            }
        }
        if exists|j: int|
            0 <= j < offsets.len() && entry_ids(entries, #[trigger] offsets[j]).contains(id) {
            let j = choose|j: int|
                0 <= j < offsets.len() && entry_ids(entries, #[trigger] offsets[j]).contains(id);
            if j < init.len() {
                assert(init[j] == offsets[j]);
                assert(front.contains(id));
                let k = choose|k: int| 0 <= k < front.len() && front[k] == id;
                assert(all[k] == id);
            } else {
                let k = choose|k: int| 0 <= k < back.len() && back[k] == id;
                assert(all[front.len() + k] == id);
            }
        }
    }
}

/// In a table whose cells ascend, a cell leads to the offset in its row, and a cell
/// without a row to none.
pub proof fn law_cells_lead_to_their_lists(cells: Seq<u8>, cell_id: u64)
    requires
        ascending(row_keys(cells, 12)),
    ensures
        forall|i: int|
            0 <= i < cells.len() / 12 && #[trigger] le64(cells, i * 12) == cell_id ==> cell_offset(
                cells,
                cell_id,
            ) == le32(cells, 12 * i + 8),
        (forall|i: int| 0 <= i < cells.len() / 12 ==> #[trigger] le64(cells, i * 12) != cell_id)
            ==> cell_offset(cells, cell_id) == 0xFFFF_FFFF,
{
    law_lookup_finds_the_key(cells, 12, cell_id);
    assert forall|i: int| 0 <= i < cells.len() / 12 && #[trigger] le64(cells, i * 12)
        == cell_id implies cell_offset(cells, cell_id) == le32(cells, 12 * i + 8) by {
        assert(row_keys(cells, 12)[i] == cell_id);
    }
    if forall|i: int| 0 <= i < cells.len() / 12 ==> #[trigger] le64(cells, i * 12) != cell_id {
        assert forall|i: int| 0 <= i < row_count(cells, 12) implies #[trigger] row_keys(cells, 12)[i]
            != cell_id by {
            assert(le64(cells, i * 12) != cell_id);
        }
    }
}

proof fn lemma_text_end(data: Seq<u8>, from: int, end: int)
    requires
        0 <= from <= end <= data.len(),
        forall|i: int| from <= i < end ==> #[trigger] data[i] != 0,
        end == data.len() || data[end] == 0,
    ensures
        text_end(data, from) == end,
    decreases end - from,
{
    if from < end {
        assert(data[from] != 0);
        lemma_text_end(data, from + 1, end);
    }
}

/// A text is read whole, up to the next zero byte or the end: what stands there in
/// UTF-8 comes back, and bytes that are no UTF-8 give nothing.
pub proof fn law_texts_are_read_whole(data: Seq<u8>, offset: int, end: int, text: Seq<char>)
    requires
        0 <= offset <= end <= data.len(),
        forall|i: int| offset <= i < end ==> #[trigger] data[i] != 0,
        end == data.len() || data[end] == 0,
    ensures
        data.subrange(offset, end) == vstd::utf8::encode_utf8(text) ==> text_at(data, offset)
            == text,
        !valid_utf8(data.subrange(offset, end)) ==> text_at(data, offset).len() == 0,
{
    lemma_text_end(data, offset, end);
    vstd::utf8::encode_utf8_valid_utf8(text);
    vstd::utf8::encode_utf8_decode_utf8(text);
}

} // verus!
