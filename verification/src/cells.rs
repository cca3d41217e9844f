//! The cells of the sphere that the index is keyed by.
use vstd::arithmetic::div_mod::{
    lemma_fundamental_div_mod, lemma_fundamental_div_mod_converse,
};
use vstd::arithmetic::power2::{lemma_pow2_adds, lemma_pow2_pos, pow2};
use vstd::prelude::*;

verus! {

/// The lowest bit that is set in the id of a cell at `level`.
pub open spec fn level_bit(level: u64) -> int {
    pow2((60 - 2 * level) as nat) as int
}

/// The ids of the six faces of the sphere, and of all cells on them, are below
/// this one.
pub const FACES_END: u64 = 0xC000_0000_0000_0000;

/// Whether `cell` is the id of a cell at `level`: the lowest bit that is set
/// is the one of the level.
pub open spec fn is_at_level(cell: u64, level: u64) -> bool {
    cell as int % (2 * level_bit(level)) == level_bit(level)
}

/// The cell at `level` that holds `cell`: the higher bits are kept, the bit of
/// the level is set, and those below it are cleared.
pub open spec fn ancestor(cell: u64, level: u64) -> u64 {
    (cell as int / (2 * level_bit(level)) * (2 * level_bit(level)) + level_bit(level)) as u64
}

/// The ids of the cells at `level` that touch `cell`, from
/// `s2::cellid::CellID::all_neighbors`, in its order.
pub uninterp spec fn touching_cells(cell: u64, level: u64) -> Seq<u64>;

/// `s2::cellid::CellID::parent`: clears the bits below the one of the level
/// and sets that one.
#[verifier::external_body]
fn s2_parent(cell: u64, level: u64) -> (r: u64)
    requires
        level <= 30,
    ensures
        r == ancestor(cell, level),
{
    s2::cellid::CellID(cell).parent(level).0
}

/// `s2::cellid::CellID::all_neighbors`: the ids that it returns, in its order.
/// The cell is one at the level asked for, on one of the six faces.
#[verifier::external_body]
fn s2_all_neighbors(cell: u64, level: u64) -> (r: Vec<u64>)
    requires
        level <= 30,
        is_at_level(cell, level),
        cell < FACES_END,
    ensures
        r@ == touching_cells(cell, level),
{
    s2::cellid::CellID(cell).all_neighbors(level).into_iter().map(|c| c.0).collect()
}

proof fn lemma_level_bit(level: u64)
    requires
        level <= 30,
    ensures
        0 < level_bit(level),
        exists|m: int| 0 < m && #[trigger] (m * (2 * level_bit(level))) == 0x2000_0000_0000_0000,
{
    let e = (60 - 2 * level) as nat;
    lemma_pow2_pos(e);
    lemma_pow2_pos((60 - e) as nat);
    lemma_pow2_adds((60 - e) as nat, e);
    assert(pow2(60) == 0x1000_0000_0000_0000) by {
        vstd::arithmetic::power2::lemma2_to64();
        vstd::arithmetic::power2::lemma2_to64_rest();
    }
    let m = pow2((60 - e) as nat) as int;
    assert(m * (2 * level_bit(level)) == 0x2000_0000_0000_0000) by (nonlinear_arith)
        requires
            m * level_bit(level) == 0x1000_0000_0000_0000,
    ;
}

/// The ancestor is computed without overflow, is a cell at its level, and lies
/// on the same face.
pub proof fn lemma_ancestor_at_level(cell: u64, level: u64)
    requires
        level <= 30,
    ensures
        ancestor(cell, level) as int == cell as int / (2 * level_bit(level)) * (2 * level_bit(
            level,
        )) + level_bit(level),
        is_at_level(ancestor(cell, level), level),
        ancestor(cell, level) / 0x2000_0000_0000_0000 == cell / 0x2000_0000_0000_0000,
{
    lemma_level_bit(level);
    let u = level_bit(level);
    let m = choose|m: int| 0 < m && #[trigger] (m * (2 * u)) == 0x2000_0000_0000_0000;
    let face = cell as int / 0x2000_0000_0000_0000;
    let q = cell as int / (2 * u);
    lemma_fundamental_div_mod(cell as int, 2 * u);
    assert(q * (2 * u) == (2 * u) * q) by (nonlinear_arith);
    assert(face * m <= q < (face + 1) * m) by (nonlinear_arith)
        requires
            q * (2 * u) <= (cell as int) < q * (2 * u) + 2 * u,
            face * 0x2000_0000_0000_0000 <= cell as int,
            cell as int <= face * 0x2000_0000_0000_0000 + 0x1FFF_FFFF_FFFF_FFFF,
            m * (2 * u) == 0x2000_0000_0000_0000,
            u > 0,
    ;
    assert(q * (2 * u) + 2 * u <= (face + 1) * 0x2000_0000_0000_0000) by (nonlinear_arith)
        requires
            q < (face + 1) * m,
            m * (2 * u) == 0x2000_0000_0000_0000,
            u > 0,
    ;
    assert(q * (2 * u) >= face * 0x2000_0000_0000_0000) by (nonlinear_arith)
        requires
            q >= face * m,
            m * (2 * u) == 0x2000_0000_0000_0000,
            u > 0,
    ;
    assert(0 <= q * (2 * u)) by (nonlinear_arith)
        requires
            q == cell as int / (2 * u),
            u > 0,
            0 <= cell as int,
    ;
    lemma_fundamental_div_mod_converse(q * (2 * u) + u, 2 * u, q, u);
}

/// Cells nest: the ancestor of an ancestor is the cell's own ancestor.
pub proof fn law_cells_nest(cell: u64, fine: u64, coarse: u64)
    requires
        coarse <= fine <= 30,
    ensures
        ancestor(ancestor(cell, fine), coarse) == ancestor(cell, coarse),
{
    lemma_ancestor_at_level(cell, fine);
    lemma_ancestor_at_level(cell, coarse);
    lemma_level_bit(fine);
    lemma_level_bit(coarse);
    let u = level_bit(fine);
    let v = level_bit(coarse);
    let m = pow2((2 * fine - 2 * coarse) as nat) as int;
    lemma_pow2_pos((2 * fine - 2 * coarse) as nat);
    lemma_pow2_adds((2 * fine - 2 * coarse) as nat, (60 - 2 * fine) as nat);
    assert(v == m * u);
    let c = cell as int;
    let q = c / (2 * u);
    let s = c % (2 * u);
    let t = q / m;
    let r = q % m;
    lemma_fundamental_div_mod(c, 2 * u);
    lemma_fundamental_div_mod(q, m);
    assert(c == t * (2 * v) + (r * (2 * u) + s)) by (nonlinear_arith)
        requires
            c == (2 * u) * q + s,
            q == m * t + r,
            v == m * u,
    ;
    assert(q * (2 * u) + u == t * (2 * v) + (r * (2 * u) + u)) by (nonlinear_arith)
        requires
            q == m * t + r,
            v == m * u,
    ;
    assert(0 <= r * (2 * u) && r * (2 * u) + 2 * u <= 2 * v) by (nonlinear_arith)
        requires
            0 <= r < m,
            u > 0,
            v == m * u,
    ;
    lemma_fundamental_div_mod_converse(c, 2 * v, t, r * (2 * u) + s);
    lemma_fundamental_div_mod_converse(q * (2 * u) + u, 2 * v, t, r * (2 * u) + u);
}

/// The bit that marks a level.
pub open spec fn level_mark(level: u64) -> u64 {
    1u64 << ((60 - 2 * level) as u64)
}

/// The ancestor keeps the bits of a cell from the one of the level on, has that
/// one set, and ends in as many zeros as are below it.
pub proof fn law_ancestor_by_masks(cell: u64, level: u64)
    requires
        level <= 30,
    ensures
        ancestor(cell, level) == (cell & !((level_mark(level) - 1) as u64)) | level_mark(level),
        ancestor(cell, level).trailing_zeros() == 2 * (30 - level),
{
    let e = (60 - 2 * level) as u64;
    let k = (e + 1) as u64;
    let mark = 1u64 << e;
    lemma_pow2_pos(e as nat);
    lemma_pow2_pos(k as nat);
    lemma_pow2_adds(e as nat, 1);
    assert(pow2(1) == 2) by {
        vstd::arithmetic::power2::lemma2_to64();
    }
    assert(pow2(k as nat) == 2 * level_bit(level)) by (nonlinear_arith)
        requires
            pow2(k as nat) == pow2(e as nat) * 2,
            level_bit(level) == pow2(e as nat),
    ;
    vstd::bits::lemma_u64_pow2_no_overflow(e as nat);
    vstd::bits::lemma_u64_shl_is_mul(1, e);
    assert(mark == level_bit(level));
    assert(mark > 0) by (bit_vector)
        requires
            mark == 1u64 << e,
            e <= 60,
    ;
    vstd::bits::lemma_u64_shr_is_div(cell, k);
    let q = cell >> k;
    lemma_fundamental_div_mod(cell as int, 2 * level_bit(level));
    assert(q * pow2(k as nat) == (2 * level_bit(level)) * (cell as int / (2 * level_bit(level))))
        by (nonlinear_arith)
        requires
            q == cell as int / (2 * level_bit(level)),
            pow2(k as nat) == 2 * level_bit(level),
    ;
    vstd::bits::lemma_u64_shl_is_mul(q, k);
    lemma_ancestor_at_level(cell, level);
    let a = ancestor(cell, level);
    assert(a == (q << k) + mark);
    assert(((cell >> k) << k) + (1u64 << e) == (cell & !(((1u64 << e) - 1) as u64)) | (1u64 << e))
        by (bit_vector)
        requires
            e <= 60,
            k == e + 1,
    ;
    let t = a.trailing_zeros() as u64;
    broadcast use vstd::std_specs::bits::group_bits_axioms;
    assert(a != 0 && (a >> e) & 1u64 == 1u64) by (bit_vector)
        requires
            a == (q << k) + mark,
            mark == 1u64 << e,
            e <= 60,
            k == e + 1,
    ;
    if t < e {
        assert((a >> t) & 1u64 == 0u64) by (bit_vector)
            requires
                a == (q << k) + mark,
                mark == 1u64 << e,
                t < e,
                e <= 60,
                k == e + 1,
        ;
    }
    if t > e {
        assert((a >> e) & 1u64 == 0u64);
    }
}

/// The cells of one point follow from each other: a coarser one keeps the higher
/// bits of a finer one, and marks its own level.
pub proof fn law_coarser_cell_by_masks(leaf: u64, fine: u64, coarse: u64)
    requires
        coarse <= fine <= 30,
    ensures
        ancestor(leaf, coarse) == (ancestor(leaf, fine) & !((level_mark(coarse) - 1) as u64))
            | level_mark(coarse),
{
    law_cells_nest(leaf, fine, coarse);
    law_ancestor_by_masks(ancestor(leaf, fine), coarse);
}

/// The id of the cell at `level` that holds the leaf cell `leaf`.
pub fn cell_id_at_level(leaf: u64, level: u64) -> (r: u64)
    requires
        level <= 30,
    ensures
        r == ancestor(leaf, level),
{
    s2_parent(leaf, level)
}

/// The cell at `level` that holds `leaf`, then those that touch it.
pub open spec fn cells_around(leaf: u64, level: u64) -> Seq<u64> {
    seq![ancestor(leaf, level)] + touching_cells(ancestor(leaf, level), level)
}

/// Lists the cell at `level` that holds `leaf`, then those that touch it.
pub fn list_cells_around(leaf: u64, level: u64) -> (r: Vec<u64>)
    requires
        level <= 30,
        leaf < FACES_END,
    ensures
        r@ == cells_around(leaf, level),
{
    let cell: u64 = cell_id_at_level(leaf, level);
    proof {
        lemma_ancestor_at_level(leaf, level);
    }
    let mut cells: Vec<u64> = vec![cell];
    let mut neighbors: Vec<u64> = s2_all_neighbors(cell, level);
    cells.append(&mut neighbors);
    assert(cells@ =~= cells_around(leaf, level));
    cells
}

/// The cells around a point are the one that holds it and every one that touches
/// that, the own one first.
pub proof fn law_all_touching_cells_are_around(leaf: u64, level: u64)
    ensures
        cells_around(leaf, level).len() == 1 + touching_cells(ancestor(leaf, level), level).len(),
        cells_around(leaf, level)[0] == ancestor(leaf, level),
        forall|i: int|
            0 <= i < touching_cells(ancestor(leaf, level), level).len() ==> cells_around(
                leaf,
                level,
            )[i + 1] == #[trigger] touching_cells(ancestor(leaf, level), level)[i],
{
}

} // verus!
