use vstd::prelude::*;

use crate::coordinates::Coordinates;

verus! {

/// The cell at position `i` of a row-by-row scan of a grid `w` columns wide.
pub open spec fn cell_of_index(w: int, i: int) -> Coordinates {
    Coordinates { x: (i % w) as u16, y: (i / w) as u16 }
}

/// The position of `c` in a row-by-row scan of a grid `w` columns wide.
pub open spec fn index_of_cell(w: int, c: Coordinates) -> int {
    c.y * w + c.x
}

/// Scan positions and in-bounds cells correspond one to one.
pub proof fn lemma_index_to_cell(w: int, h: int, i: int)
    requires
        0 < w <= u16::MAX + 1,
        0 < h <= u16::MAX + 1,
        0 <= i < w * h,
    ensures
        cell_of_index(w, i).x < w,
        cell_of_index(w, i).y < h,
        index_of_cell(w, cell_of_index(w, i)) == i,
{
    assert(0 <= i % w < w && i == (i / w) * w + i % w) by (nonlinear_arith)
        requires
            w > 0,
    ;
    assert(0 <= i / w < h) by (nonlinear_arith)
        requires
            w > 0,
            0 <= i < w * h,
    ;
}

/// Scan positions and in-bounds cells correspond one to one.
pub proof fn lemma_cell_to_index(w: int, h: int, c: Coordinates)
    requires
        0 < w,
        0 < h,
        c.x < w,
        c.y < h,
    ensures
        0 <= index_of_cell(w, c) < w * h,
        cell_of_index(w, index_of_cell(w, c)) == c,
{
    let i = index_of_cell(w, c);
    assert(0 <= i < w * h) by (nonlinear_arith)
        requires
            0 <= c.x < w,
            0 <= c.y < h,
            i == c.y * w + c.x,
    ;
    vstd::arithmetic::div_mod::lemma_fundamental_div_mod_converse(i, w, c.y as int, c.x as int);
}

} // verus!
