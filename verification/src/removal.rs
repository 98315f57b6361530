//! Removable fragments: pendant runs whose removal keeps the placed mass
//! connected and non-empty, and the bounding-box retightening that follows
//! a removal.

use vstd::prelude::*;
use crate::board::{in_grid, placed_has_cell, Board, BOARD_SIZE, EMPTY_VALUE};
use crate::connectivity::{cell_in_list, connected_ex, is_connected, occ_ex};
use crate::search::{bbox_wf, occ_within};

verus! {

/// Whether some cell of row `r` between `c_lo` and `c_hi` stays placed when
/// the listed cells are disregarded.
pub fn row_has_live(
    board: &Board,
    except_vec: &Vec<(usize, usize)>,
    r: usize,
    c_lo: usize,
    c_hi: usize,
) -> (res: bool)
    requires
        board.wf(),
        r < BOARD_SIZE,
        c_lo <= c_hi < BOARD_SIZE,
    ensures
        res == exists|c: int| c_lo <= c <= c_hi && #[trigger] occ_ex(*board, except_vec@, r as int, c),
{
    let mut c = c_lo;
    while c <= c_hi
        invariant
            board.wf(),
            r < BOARD_SIZE,
            c_lo <= c,
            c <= c_hi + 1,
            c_hi < BOARD_SIZE,
            forall|cc: int| c_lo <= cc < c ==> !(#[trigger] occ_ex(*board, except_vec@, r as int, cc)),
        decreases c_hi + 1 - c,
    {
        if board.get_val(r, c) != EMPTY_VALUE && !cell_in_list(except_vec, r, c) {
            proof {
                assert(occ_ex(*board, except_vec@, r as int, c as int));
            }
            return true;
        }
        c += 1;
    }
    false
}

/// Whether some cell of column `c` between `r_lo` and `r_hi` stays placed.
pub fn col_has_live(
    board: &Board,
    except_vec: &Vec<(usize, usize)>,
    c: usize,
    r_lo: usize,
    r_hi: usize,
) -> (res: bool)
    requires
        board.wf(),
        c < BOARD_SIZE,
        r_lo <= r_hi < BOARD_SIZE,
    ensures
        res == exists|r: int| r_lo <= r <= r_hi && #[trigger] occ_ex(*board, except_vec@, r, c as int),
{
    let mut r = r_lo;
    while r <= r_hi
        invariant
            board.wf(),
            c < BOARD_SIZE,
            r_lo <= r,
            r <= r_hi + 1,
            r_hi < BOARD_SIZE,
            forall|rr: int| r_lo <= rr < r ==> !(#[trigger] occ_ex(*board, except_vec@, rr, c as int)),
        decreases r_hi + 1 - r,
    {
        if board.get_val(r, c) != EMPTY_VALUE && !cell_in_list(except_vec, r, c) {
            proof {
                assert(occ_ex(*board, except_vec@, r as int, c as int));
            }
            return true;
        }
        r += 1;
    }
    false
}

/// Retightens the bounding box after the listed cells are disregarded,
/// scanning inward from each side of the old box.  The result is the tight
/// bounding box of the cells that remain.
pub fn get_new_min_max(
    board: &Board,
    old_min_col: usize,
    old_max_col: usize,
    old_min_row: usize,
    old_max_row: usize,
    except_vec: &Vec<(usize, usize)>,
) -> (res: (usize, usize, usize, usize))
    requires
        board.wf(),
        bbox_wf(old_min_col as int, old_max_col as int, old_min_row as int, old_max_row as int),
        occ_within(
            *board,
            old_min_col as int,
            old_max_col as int,
            old_min_row as int,
            old_max_row as int,
        ),
        exists|r: int, c: int| #[trigger] occ_ex(*board, except_vec@, r, c),
    ensures
        bbox_wf(res.0 as int, res.1 as int, res.2 as int, res.3 as int),
        old_min_col <= res.0,
        res.1 <= old_max_col,
        old_min_row <= res.2,
        res.3 <= old_max_row,
        forall|r: int, c: int|
            #[trigger] occ_ex(*board, except_vec@, r, c) ==> res.2 <= r <= res.3 && res.0 <= c
                <= res.1,
        exists|c: int| #[trigger] occ_ex(*board, except_vec@, res.2 as int, c),
        exists|c: int| #[trigger] occ_ex(*board, except_vec@, res.3 as int, c),
        exists|r: int| #[trigger] occ_ex(*board, except_vec@, r, res.0 as int),
        exists|r: int| #[trigger] occ_ex(*board, except_vec@, r, res.1 as int),
{
    let ghost wrc: (int, int) = choose|r: int, c: int| #[trigger] occ_ex(*board, except_vec@, r, c);
    proof {
        assert(occ_ex(*board, except_vec@, wrc.0, wrc.1));
        assert(board.occ(wrc.0, wrc.1));
    }
    let mut min_row = old_min_row;
    while !row_has_live(board, except_vec, min_row, old_min_col, old_max_col)
        invariant
            board.wf(),
            bbox_wf(
                old_min_col as int,
                old_max_col as int,
                old_min_row as int,
                old_max_row as int,
            ),
            occ_within(
                *board,
                old_min_col as int,
                old_max_col as int,
                old_min_row as int,
                old_max_row as int,
            ),
            occ_ex(*board, except_vec@, wrc.0, wrc.1),
            old_min_row <= min_row <= wrc.0,
            forall|rr: int, cc: int|
                rr < min_row ==> !(#[trigger] occ_ex(*board, except_vec@, rr, cc)),
        decreases old_max_row - min_row,
    {
        proof {
            assert forall|rr: int, cc: int|
                rr < min_row + 1 implies !(#[trigger] occ_ex(*board, except_vec@, rr, cc)) by {
                if occ_ex(*board, except_vec@, rr, cc) && rr == min_row {
                    assert(board.occ(rr, cc));
                    assert(old_min_col <= cc <= old_max_col);
                }
            }
            assert(min_row < wrc.0);
        }
        min_row += 1;
    }
    let mut max_row = old_max_row;
    while !row_has_live(board, except_vec, max_row, old_min_col, old_max_col)
        invariant
            board.wf(),
            bbox_wf(
                old_min_col as int,
                old_max_col as int,
                old_min_row as int,
                old_max_row as int,
            ),
            occ_within(
                *board,
                old_min_col as int,
                old_max_col as int,
                old_min_row as int,
                old_max_row as int,
            ),
            occ_ex(*board, except_vec@, wrc.0, wrc.1),
            wrc.0 <= max_row <= old_max_row,
            forall|rr: int, cc: int|
                rr > max_row ==> !(#[trigger] occ_ex(*board, except_vec@, rr, cc)),
        decreases max_row,
    {
        proof {
            assert forall|rr: int, cc: int|
                rr > max_row - 1 implies !(#[trigger] occ_ex(*board, except_vec@, rr, cc)) by {
                if occ_ex(*board, except_vec@, rr, cc) && rr == max_row {
                    assert(board.occ(rr, cc));
                    assert(old_min_col <= cc <= old_max_col);
                }
            }
            assert(max_row > wrc.0);
        }
        max_row -= 1;
    }
    proof {
        assert(min_row <= wrc.0 <= max_row);
    }
    let mut min_col = old_min_col;
    while !col_has_live(board, except_vec, min_col, min_row, max_row)
        invariant
            board.wf(),
            bbox_wf(old_min_col as int, old_max_col as int, min_row as int, max_row as int),
            occ_within(
                *board,
                old_min_col as int,
                old_max_col as int,
                old_min_row as int,
                old_max_row as int,
            ),
            occ_ex(*board, except_vec@, wrc.0, wrc.1),
            min_row <= wrc.0 <= max_row,
            forall|rr: int, cc: int|
                rr < min_row ==> !(#[trigger] occ_ex(*board, except_vec@, rr, cc)),
            forall|rr: int, cc: int|
                rr > max_row ==> !(#[trigger] occ_ex(*board, except_vec@, rr, cc)),
            old_min_col <= min_col <= wrc.1,
            forall|rr: int, cc: int|
                cc < min_col ==> !(#[trigger] occ_ex(*board, except_vec@, rr, cc)),
        decreases old_max_col - min_col,
    {
        proof {
            assert forall|rr: int, cc: int|
                cc < min_col + 1 implies !(#[trigger] occ_ex(*board, except_vec@, rr, cc)) by {
                if occ_ex(*board, except_vec@, rr, cc) && cc == min_col {
                    assert(board.occ(rr, cc));
                    assert(min_row <= rr <= max_row);
                }
            }
            assert(min_col < wrc.1);
        }
        min_col += 1;
    }
    let mut max_col = old_max_col;
    while !col_has_live(board, except_vec, max_col, min_row, max_row)
        invariant
            board.wf(),
            bbox_wf(old_min_col as int, old_max_col as int, min_row as int, max_row as int),
            occ_within(
                *board,
                old_min_col as int,
                old_max_col as int,
                old_min_row as int,
                old_max_row as int,
            ),
            occ_ex(*board, except_vec@, wrc.0, wrc.1),
            min_row <= wrc.0 <= max_row,
            forall|rr: int, cc: int|
                rr < min_row ==> !(#[trigger] occ_ex(*board, except_vec@, rr, cc)),
            forall|rr: int, cc: int|
                rr > max_row ==> !(#[trigger] occ_ex(*board, except_vec@, rr, cc)),
            wrc.1 <= max_col <= old_max_col,
            forall|rr: int, cc: int|
                cc > max_col ==> !(#[trigger] occ_ex(*board, except_vec@, rr, cc)),
        decreases max_col,
    {
        proof {
            assert forall|rr: int, cc: int|
                cc > max_col - 1 implies !(#[trigger] occ_ex(*board, except_vec@, rr, cc)) by {
                if occ_ex(*board, except_vec@, rr, cc) && cc == max_col {
                    assert(board.occ(rr, cc));
                    assert(min_row <= rr <= max_row);
                }
            }
            assert(max_col > wrc.1);
        }
        max_col -= 1;
    }
    proof {
        assert(min_col <= wrc.1 <= max_col);
    }
    (min_col, max_col, min_row, max_row)
}

} // verus!

verus! {

/// A set of cells that can be removed, with the tight bounding box of what
/// remains.
pub type Removable = (Vec<(usize, usize)>, usize, usize, usize, usize);

/// An occupied cell with no vertical neighbour: a pendant of its
/// horizontal word.
pub open spec fn row_pendant_occ(b: Board, r: int, c: int) -> bool {
    b.occ(r, c) && !b.occ(r - 1, c) && !b.occ(r + 1, c)
}

/// An occupied cell with no horizontal neighbour.
pub open spec fn col_pendant_occ(b: Board, r: int, c: int) -> bool {
    b.occ(r, c) && !b.occ(r, c - 1) && !b.occ(r, c + 1)
}

/// The cells are a maximal consecutive run of row pendants: none has a
/// vertical neighbour, and the cells just before and after the run are not
/// row pendants themselves.
pub open spec fn pendant_row_run(b: Board, cells: Seq<(usize, usize)>) -> bool {
    &&& forall|k: int|
        0 <= k < cells.len() ==> ((#[trigger] cells[k]).0 == cells[0].0 && cells[k].1 as int
            == cells[0].1 + k && !b.occ(cells[k].0 as int - 1, cells[k].1 as int) && !b.occ(
            cells[k].0 as int + 1,
            cells[k].1 as int,
        ))
    &&& cells.len() > 0 ==> !row_pendant_occ(b, cells[0].0 as int, cells[0].1 as int - 1)
    &&& cells.len() > 0 ==> !row_pendant_occ(b, cells[0].0 as int, cells[0].1 + cells.len())
}

/// The cells are a maximal consecutive run of column pendants.
pub open spec fn pendant_col_run(b: Board, cells: Seq<(usize, usize)>) -> bool {
    &&& forall|k: int|
        0 <= k < cells.len() ==> ((#[trigger] cells[k]).1 == cells[0].1 && cells[k].0 as int
            == cells[0].0 + k && !b.occ(cells[k].0 as int, cells[k].1 as int - 1) && !b.occ(
            cells[k].0 as int,
            cells[k].1 as int + 1,
        ))
    &&& cells.len() > 0 ==> !col_pendant_occ(b, cells[0].0 as int - 1, cells[0].1 as int)
    &&& cells.len() > 0 ==> !col_pendant_occ(b, cells[0].0 + cells.len(), cells[0].1 as int)
}

/// A sound removable fragment of `b`: a pendant run of occupied, distinct
/// cells whose removal leaves a non-empty, still connected placed mass,
/// together with the tight bounding box of that mass.
pub open spec fn removable_ok(b: Board, rm: Removable) -> bool {
    &&& rm.0@.len() >= 1
    &&& forall|k: int|
        0 <= k < rm.0@.len() ==> in_grid((#[trigger] rm.0@[k]).0 as int, rm.0@[k].1 as int)
            && b.occ(rm.0@[k].0 as int, rm.0@[k].1 as int)
    &&& forall|k1: int, k2: int| 0 <= k1 < k2 < rm.0@.len() ==> rm.0@[k1] != rm.0@[k2]
    &&& (pendant_row_run(b, rm.0@) || pendant_col_run(b, rm.0@))
    &&& connected_ex(b, rm.0@)
    &&& exists|r: int, c: int| #[trigger] occ_ex(b, rm.0@, r, c)
    &&& bbox_wf(rm.1 as int, rm.2 as int, rm.3 as int, rm.4 as int)
    &&& forall|r: int, c: int|
        #[trigger] occ_ex(b, rm.0@, r, c) ==> rm.3 <= r <= rm.4 && rm.1 <= c <= rm.2
    &&& (exists|c: int| #[trigger] occ_ex(b, rm.0@, rm.3 as int, c))
    &&& (exists|c: int| #[trigger] occ_ex(b, rm.0@, rm.4 as int, c))
    &&& (exists|r: int| #[trigger] occ_ex(b, rm.0@, r, rm.1 as int))
    &&& (exists|r: int| #[trigger] occ_ex(b, rm.0@, r, rm.2 as int))
}

/// Whether any placed cell survives when the listed cells are disregarded.
pub fn board_has_live(
    board: &Board,
    except_vec: &Vec<(usize, usize)>,
    min_col: usize,
    max_col: usize,
    min_row: usize,
    max_row: usize,
) -> (res: bool)
    requires
        board.wf(),
        bbox_wf(min_col as int, max_col as int, min_row as int, max_row as int),
        occ_within(*board, min_col as int, max_col as int, min_row as int, max_row as int),
    ensures
        res == exists|r: int, c: int| #[trigger] occ_ex(*board, except_vec@, r, c),
{
    let mut r = min_row;
    while r <= max_row
        invariant
            board.wf(),
            bbox_wf(min_col as int, max_col as int, min_row as int, max_row as int),
            occ_within(*board, min_col as int, max_col as int, min_row as int, max_row as int),
            min_row <= r,
            r <= max_row + 1,
            forall|rr: int, cc: int|
                rr < r ==> !(#[trigger] occ_ex(*board, except_vec@, rr, cc)),
        decreases max_row + 1 - r,
    {
        if row_has_live(board, except_vec, r, min_col, max_col) {
            return true;
        }
        proof {
            assert forall|rr: int, cc: int|
                rr < r + 1 implies !(#[trigger] occ_ex(*board, except_vec@, rr, cc)) by {
                if occ_ex(*board, except_vec@, rr, cc) && rr == r {
                    assert(board.occ(rr, cc));
                    assert(min_col <= cc <= max_col);
                }
            }
        }
        r += 1;
    }
    proof {
        assert forall|rr: int, cc: int|
            !(#[trigger] occ_ex(*board, except_vec@, rr, cc)) by {
            if occ_ex(*board, except_vec@, rr, cc) {
                assert(board.occ(rr, cc));
            }
        }
    }
    false
}

/// Finalizes a pending pendant run: records it when its removal leaves a
/// connected, non-empty mass.
fn flush_fragment(
    board: &Board,
    min_col: usize,
    max_col: usize,
    min_row: usize,
    max_row: usize,
    current: Vec<(usize, usize)>,
    removable: &mut Vec<Removable>,
)
    requires
        board.wf(),
        bbox_wf(min_col as int, max_col as int, min_row as int, max_row as int),
        occ_within(*board, min_col as int, max_col as int, min_row as int, max_row as int),
        forall|k: int|
            0 <= k < current@.len() ==> in_grid(
                (#[trigger] current@[k]).0 as int,
                current@[k].1 as int,
            ) && board.occ(current@[k].0 as int, current@[k].1 as int),
        pendant_row_run(*board, current@) || pendant_col_run(*board, current@),
        forall|k: int| 0 <= k < old(removable)@.len() ==> removable_ok(*board, #[trigger] old(removable)@[k]),
    ensures
        forall|k: int| 0 <= k < final(removable)@.len() ==> removable_ok(*board, #[trigger] final(removable)@[k]),
{
    let ghost before: Seq<Removable> = removable@;
    proof {
        assert forall|k1: int, k2: int|
            0 <= k1 < k2 < current@.len() implies current@[k1] != current@[k2] by {
            if pendant_row_run(*board, current@) {
                assert(current@[k1].1 as int == current@[0].1 + k1);
                assert(current@[k2].1 as int == current@[0].1 + k2);
            } else {
                assert(current@[k1].0 as int == current@[0].0 + k1);
                assert(current@[k2].0 as int == current@[0].0 + k2);
            }
        }
    }
    if current.len() == 0 {
        return ;
    }
    if !is_connected(board, min_col, max_col, min_row, max_row, &current) {
        return ;
    }
    if !board_has_live(board, &current, min_col, max_col, min_row, max_row) {
        return ;
    }
    let nmm = get_new_min_max(board, min_col, max_col, min_row, max_row, &current);
    let entry = (current, nmm.0, nmm.1, nmm.2, nmm.3);
    proof {
        assert(removable_ok(*board, entry));
    }
    removable.push(entry);
    proof {
        assert forall|k: int| 0 <= k < removable@.len() implies removable_ok(
            *board,
            #[trigger] removable@[k],
        ) by {
            if k < before.len() {
                assert(removable@[k] == before[k]);
            } else {
                assert(removable@[k] == entry);
            }
        }
    }
}

/// Enumerates the pendant runs of each row and of each column whose removal
/// leaves the remaining placed mass connected and non-empty, with the tight
/// bounding box of what remains.
pub fn get_removable_indices(
    board: &Board,
    min_col: usize,
    max_col: usize,
    min_row: usize,
    max_row: usize,
) -> (res: Vec<Removable>)
    requires
        board.wf(),
        bbox_wf(min_col as int, max_col as int, min_row as int, max_row as int),
        occ_within(*board, min_col as int, max_col as int, min_row as int, max_row as int),
    ensures
        forall|k: int| 0 <= k < res@.len() ==> removable_ok(*board, #[trigger] res@[k]),
        (connected_board(*board) && (forall|r1: int, c1: int, r2: int, c2: int|
            #![trigger board.occ(r1, c1), board.occ(r2, c2)]
            board.occ(r1, c1) && board.occ(r2, c2) ==> r1 == r2)) ==> res@.len() == 0,
        (connected_board(*board) && (forall|r1: int, c1: int, r2: int, c2: int|
            #![trigger board.occ(r1, c1), board.occ(r2, c2)]
            board.occ(r1, c1) && board.occ(r2, c2) ==> c1 == c2)) ==> res@.len() == 0,
{
    let mut removable: Vec<Removable> = Vec::new();
    // Pendant runs of each row: occupied cells with no vertical neighbour.
    let mut row = min_row;
    while row <= max_row
        invariant
            board.wf(),
            bbox_wf(min_col as int, max_col as int, min_row as int, max_row as int),
            occ_within(*board, min_col as int, max_col as int, min_row as int, max_row as int),
            min_row <= row,
            row <= max_row + 1,
            forall|k: int|
                0 <= k < removable@.len() ==> removable_ok(*board, #[trigger] removable@[k]),
        decreases max_row + 1 - row,
    {
        let mut current: Vec<(usize, usize)> = Vec::new();
        let mut col = min_col;
        while col <= max_col
            invariant
                board.wf(),
                bbox_wf(min_col as int, max_col as int, min_row as int, max_row as int),
                occ_within(
                    *board,
                    min_col as int,
                    max_col as int,
                    min_row as int,
                    max_row as int,
                ),
                row <= max_row,
                min_col <= col,
                col <= max_col + 1,
                forall|k: int|
                    0 <= k < removable@.len() ==> removable_ok(*board, #[trigger] removable@[k]),
                forall|k: int|
                    0 <= k < current@.len() ==> ((#[trigger] current@[k]).0 == row && min_col
                        <= current@[k].1 < col && current@[k].1 as int == current@[0].1 + k
                        && board.occ(current@[k].0 as int, current@[k].1 as int) && !board.occ(
                        row as int - 1,
                        current@[k].1 as int,
                    ) && !board.occ(row as int + 1, current@[k].1 as int)),
                current@.len() > 0 ==> current@[current@.len() - 1].1 + 1 == col,
                current@.len() > 0 ==> !row_pendant_occ(
                    *board,
                    row as int,
                    current@[0].1 as int - 1,
                ),
                current@.len() == 0 ==> (col == min_col || !row_pendant_occ(
                    *board,
                    row as int,
                    col as int - 1,
                )),
            decreases max_col + 1 - col,
        {
            let touching = (row > 0 && board.get_val(row - 1, col) != EMPTY_VALUE) || (row + 1
                < BOARD_SIZE && board.get_val(row + 1, col) != EMPTY_VALUE);
            if board.get_val(row, col) != EMPTY_VALUE && !touching {
                current.push((row, col));
            } else {
                flush_fragment(board, min_col, max_col, min_row, max_row, current, &mut removable);
                current = Vec::new();
            }
            col += 1;
        }
        flush_fragment(board, min_col, max_col, min_row, max_row, current, &mut removable);
        row += 1;
    }
    // Pendant runs of each column: occupied cells with no horizontal
    // neighbour.
    let mut col = min_col;
    while col <= max_col
        invariant
            board.wf(),
            bbox_wf(min_col as int, max_col as int, min_row as int, max_row as int),
            occ_within(*board, min_col as int, max_col as int, min_row as int, max_row as int),
            min_col <= col,
            col <= max_col + 1,
            forall|k: int|
                0 <= k < removable@.len() ==> removable_ok(*board, #[trigger] removable@[k]),
        decreases max_col + 1 - col,
    {
        let mut current: Vec<(usize, usize)> = Vec::new();
        let mut row = min_row;
        while row <= max_row
            invariant
                board.wf(),
                bbox_wf(min_col as int, max_col as int, min_row as int, max_row as int),
                occ_within(
                    *board,
                    min_col as int,
                    max_col as int,
                    min_row as int,
                    max_row as int,
                ),
                col <= max_col,
                min_row <= row,
                row <= max_row + 1,
                forall|k: int|
                    0 <= k < removable@.len() ==> removable_ok(*board, #[trigger] removable@[k]),
                forall|k: int|
                    0 <= k < current@.len() ==> ((#[trigger] current@[k]).1 == col && min_row
                        <= current@[k].0 < row && current@[k].0 as int == current@[0].0 + k
                        && board.occ(current@[k].0 as int, current@[k].1 as int) && !board.occ(
                        current@[k].0 as int,
                        col as int - 1,
                    ) && !board.occ(current@[k].0 as int, col as int + 1)),
                current@.len() > 0 ==> current@[current@.len() - 1].0 + 1 == row,
                current@.len() > 0 ==> !col_pendant_occ(
                    *board,
                    current@[0].0 as int - 1,
                    col as int,
                ),
                current@.len() == 0 ==> (row == min_row || !col_pendant_occ(
                    *board,
                    row as int - 1,
                    col as int,
                )),
            decreases max_row + 1 - row,
        {
            let touching = (col > 0 && board.get_val(row, col - 1) != EMPTY_VALUE) || (col + 1
                < BOARD_SIZE && board.get_val(row, col + 1) != EMPTY_VALUE);
            if board.get_val(row, col) != EMPTY_VALUE && !touching {
                current.push((row, col));
            } else {
                flush_fragment(board, min_col, max_col, min_row, max_row, current, &mut removable);
                current = Vec::new();
            }
            row += 1;
        }
        flush_fragment(board, min_col, max_col, min_row, max_row, current, &mut removable);
        col += 1;
    }
    proof {
        // A connected mass lying in a single line admits no fragment.
        if removable@.len() > 0 && connected_board(*board) {
            if forall|r1: int, c1: int, r2: int, c2: int|
                #![trigger board.occ(r1, c1), board.occ(r2, c2)]
                board.occ(r1, c1) && board.occ(r2, c2) ==> r1 == r2 {
                lemma_one_row_no_fragment(*board, removable@[0]);
            }
            if forall|r1: int, c1: int, r2: int, c2: int|
                #![trigger board.occ(r1, c1), board.occ(r2, c2)]
                board.occ(r1, c1) && board.occ(r2, c2) ==> c1 == c2 {
                lemma_one_col_no_fragment(*board, removable@[0]);
            }
        }
    }
    removable
}

/// Sorts fragments by ascending size, so that small peels are tried first.
pub fn sort_removable_asc(v: Vec<Removable>) -> (res: Vec<Removable>)
    ensures
        res@.len() == v@.len(),
        forall|i: int, j: int|
            0 <= i < j < res@.len() ==> (#[trigger] res@[i]).0@.len() <= (#[trigger] res@[j]).0@.len(),
        forall|k: int| 0 <= k < res@.len() ==> v@.contains(#[trigger] res@[k]),
{
    let ghost orig: Seq<Removable> = v@;
    let mut work = v;
    let mut out: Vec<Removable> = Vec::new();
    proof {
        assert forall|k: int| 0 <= k < work@.len() implies orig.contains(#[trigger] work@[k]) by {}
    }
    while work.len() > 0
        invariant
            out@.len() + work@.len() == orig.len(),
            forall|i: int, j: int|
                0 <= i < j < out@.len() ==> (#[trigger] out@[i]).0@.len() <= (#[trigger] out@[j]).0@.len(),
            forall|k: int| 0 <= k < out@.len() ==> orig.contains(#[trigger] out@[k]),
            forall|k: int| 0 <= k < work@.len() ==> orig.contains(#[trigger] work@[k]),
            forall|i: int, j: int|
                0 <= i < out@.len() && 0 <= j < work@.len() ==> (#[trigger] out@[i]).0@.len()
                    <= (#[trigger] work@[j]).0@.len(),
        decreases work@.len(),
    {
        let mut m: usize = 0;
        let n = work.len();
        let mut j: usize = 1;
        while j < n
            invariant
                n == work@.len(),
                m < j <= n,
                forall|p: int|
                    0 <= p < j ==> work@[m as int].0@.len() <= (#[trigger] work@[p]).0@.len(),
            decreases n - j,
        {
            if work[j].0.len() < work[m].0.len() {
                m = j;
            }
            j += 1;
        }
        let ghost work0: Seq<Removable> = work@;
        let x = work.swap_remove(m);
        proof {
            assert(x == work0[m as int]);
            assert forall|k: int| 0 <= k < work@.len() implies orig.contains(
                #[trigger] work@[k],
            ) by {
                if k == m {
                    assert(work@[k] == work0[work0.len() - 1]);
                } else {
                    assert(work@[k] == work0[k]);
                }
            }
            assert forall|k: int| 0 <= k < work@.len() implies x.0@.len()
                <= (#[trigger] work@[k]).0@.len() by {
                if k == m {
                    assert(work@[k] == work0[work0.len() - 1]);
                } else {
                    assert(work@[k] == work0[k]);
                }
            }
        }
        let ghost out0: Seq<Removable> = out@;
        out.push(x);
        proof {
            assert forall|i: int, j2: int|
                0 <= i < j2 < out@.len() implies (#[trigger] out@[i]).0@.len()
                <= (#[trigger] out@[j2]).0@.len() by {
                if j2 < out0.len() {
                    assert(out@[i] == out0[i] && out@[j2] == out0[j2]);
                } else {
                    if i < out0.len() {
                        assert(out@[i] == out0[i]);
                        assert(out@[j2] == x);
                        assert(out0[i].0@.len() <= work0[m as int].0@.len());
                    }
                }
            }
            assert forall|k: int| 0 <= k < out@.len() implies orig.contains(#[trigger] out@[k]) by {
                if k < out0.len() {
                    assert(out@[k] == out0[k]);
                } else {
                    assert(out@[k] == x);
                    assert(orig.contains(work0[m as int]));
                }
            }
            assert forall|i: int, j2: int|
                0 <= i < out@.len() && 0 <= j2 < work@.len() implies (#[trigger] out@[i]).0@.len()
                <= (#[trigger] work@[j2]).0@.len() by {
                if i < out0.len() {
                    assert(out@[i] == out0[i]);
                } else {
                    assert(out@[i] == x);
                }
            }
        }
    }
    out
}

} // verus!

verus! {

use crate::connectivity::{adjacent, conn, connected_board, occ_path};

/// A walk through a mass that lies in one row visits every column between
/// its two ends.
pub proof fn lemma_row_walk_covers(b: Board, p: Seq<(int, int)>, r0: int, cmid: int)
    requires
        occ_path(b, Seq::empty(), p),
        forall|r: int, c: int| #[trigger] b.occ(r, c) ==> r == r0,
        (p[0].1 <= cmid <= p[p.len() - 1].1) || (p[p.len() - 1].1 <= cmid <= p[0].1),
    ensures
        exists|i: int| 0 <= i < p.len() && (#[trigger] p[i]).1 == cmid,
    decreases p.len(),
{
    let n = p.len() as int;
    if n == 1 {
        assert(p[0].1 == cmid);
    } else {
        assert(occ_ex(b, Seq::empty(), p[n - 1].0, p[n - 1].1));
        assert(occ_ex(b, Seq::empty(), p[n - 2].0, p[n - 2].1));
        assert(p[n - 1].0 == r0 && p[n - 2].0 == r0);
        assert(adjacent(p[n - 2].0, p[n - 2].1, p[n - 1].0, p[n - 1].1));
        assert(p[n - 1].1 == p[n - 2].1 + 1 || p[n - 1].1 == p[n - 2].1 - 1);
        let q = p.drop_last();
        assert forall|i: int| 0 <= i < q.len() implies occ_ex(
            b,
            Seq::empty(),
            (#[trigger] q[i]).0,
            q[i].1,
        ) by {
            assert(q[i] == p[i]);
        }
        assert forall|i: int|
            0 < i < q.len() implies adjacent(q[i - 1].0, q[i - 1].1, (#[trigger] q[i]).0, q[i].1) by {
            assert(q[i] == p[i] && q[i - 1] == p[i - 1]);
        }
        assert(occ_path(b, Seq::empty(), q));
        if (q[0].1 <= cmid <= q[q.len() - 1].1) || (q[q.len() - 1].1 <= cmid <= q[0].1) {
            lemma_row_walk_covers(b, q, r0, cmid);
            let i = choose|i: int| 0 <= i < q.len() && (#[trigger] q[i]).1 == cmid;
            assert(p[i].1 == cmid);
        } else {
            assert(cmid == p[n - 1].1 || cmid == p[n - 2].1);
        }
    }
}

/// A walk through a mass that lies in one column visits every row between
/// its two ends.
pub proof fn lemma_col_walk_covers(b: Board, p: Seq<(int, int)>, c0: int, rmid: int)
    requires
        occ_path(b, Seq::empty(), p),
        forall|r: int, c: int| #[trigger] b.occ(r, c) ==> c == c0,
        (p[0].0 <= rmid <= p[p.len() - 1].0) || (p[p.len() - 1].0 <= rmid <= p[0].0),
    ensures
        exists|i: int| 0 <= i < p.len() && (#[trigger] p[i]).0 == rmid,
    decreases p.len(),
{
    let n = p.len() as int;
    if n == 1 {
        assert(p[0].0 == rmid);
    } else {
        assert(occ_ex(b, Seq::empty(), p[n - 1].0, p[n - 1].1));
        assert(occ_ex(b, Seq::empty(), p[n - 2].0, p[n - 2].1));
        assert(p[n - 1].1 == c0 && p[n - 2].1 == c0);
        assert(adjacent(p[n - 2].0, p[n - 2].1, p[n - 1].0, p[n - 1].1));
        assert(p[n - 1].0 == p[n - 2].0 + 1 || p[n - 1].0 == p[n - 2].0 - 1);
        let q = p.drop_last();
        assert forall|i: int| 0 <= i < q.len() implies occ_ex(
            b,
            Seq::empty(),
            (#[trigger] q[i]).0,
            q[i].1,
        ) by {
            assert(q[i] == p[i]);
        }
        assert forall|i: int|
            0 < i < q.len() implies adjacent(q[i - 1].0, q[i - 1].1, (#[trigger] q[i]).0, q[i].1) by {
            assert(q[i] == p[i] && q[i - 1] == p[i - 1]);
        }
        assert(occ_path(b, Seq::empty(), q));
        if (q[0].0 <= rmid <= q[q.len() - 1].0) || (q[q.len() - 1].0 <= rmid <= q[0].0) {
            lemma_col_walk_covers(b, q, c0, rmid);
            let i = choose|i: int| 0 <= i < q.len() && (#[trigger] q[i]).0 == rmid;
            assert(p[i].0 == rmid);
        } else {
            assert(rmid == p[n - 1].0 || rmid == p[n - 2].0);
        }
    }
}

/// A connected mass that lies in one row admits no removable fragment: a
/// maximal pendant run there is the whole word, whose removal empties the
/// board, and a column pendant would need empty cells both sides through
/// which no walk can pass.
pub proof fn lemma_one_row_no_fragment(b: Board, rm: Removable)
    requires
        b.wf(),
        connected_board(b),
        forall|r1: int, c1: int, r2: int, c2: int|
            #![trigger b.occ(r1, c1), b.occ(r2, c2)]
            b.occ(r1, c1) && b.occ(r2, c2) ==> r1 == r2,
    ensures
        !removable_ok(b, rm),
{
    if removable_ok(b, rm) {
    let empty = Seq::<(usize, usize)>::empty();
    let cells = rm.0@;
    let f0 = cells[0];
    assert(b.occ(f0.0 as int, f0.1 as int));
    let r0 = f0.0 as int;
    assert forall|r: int, c: int| #[trigger] b.occ(r, c) implies r == r0 by {
        assert(b.occ(f0.0 as int, f0.1 as int));
    }
    let (sr, sc) = choose|r: int, c: int| #[trigger] occ_ex(b, cells, r, c);
    assert(b.occ(sr, sc));
    assert(sr == r0);
    assert(!placed_has_cell(cells, sr, sc));
    if pendant_row_run(b, cells) {
        let e1 = f0.1 + cells.len();
        assert(!b.occ(r0, f0.1 as int - 1)) by {
            assert(!row_pendant_occ(b, r0, f0.1 as int - 1));
        }
        assert(!b.occ(r0, e1)) by {
            assert(!row_pendant_occ(b, r0, e1));
        }
        assert(!(f0.1 <= sc < e1)) by {
            if f0.1 <= sc < e1 {
                let k = sc - f0.1;
                assert(cells[k].1 as int == f0.1 + k && cells[k].0 == f0.0);
                assert(placed_has_cell(cells, sr, sc));
            }
        }
        assert(conn(b, empty, sr, sc, r0, f0.1 as int)) by {
            assert(occ_ex(b, empty, sr, sc) && occ_ex(b, empty, r0, f0.1 as int));
        }
        reveal(crate::connectivity::conn);
        let p = choose|p: Seq<(int, int)>|
            #[trigger] occ_path(b, empty, p) && p[0] == (sr, sc) && p.last() == (r0, f0.1 as int);
        let cmid = if sc < f0.1 {
            f0.1 as int - 1
        } else {
            e1
        };
        lemma_row_walk_covers(b, p, r0, cmid);
        let i = choose|i: int| 0 <= i < p.len() && (#[trigger] p[i]).1 == cmid;
        assert(occ_ex(b, empty, p[i].0, p[i].1));
        assert(b.occ(r0, cmid));
    } else {
        assert(pendant_col_run(b, cells));
        assert(cells.len() == 1) by {
            if cells.len() >= 2 {
                assert(b.occ(cells[1].0 as int, cells[1].1 as int));
                assert(cells[1].0 as int == f0.0 + 1);
            }
        }
        assert(!b.occ(r0, f0.1 as int - 1));
        assert(!b.occ(r0, f0.1 as int + 1));
        assert(sc != f0.1 as int) by {
            if sc == f0.1 as int {
                assert(cells[0] == (f0.0, f0.1));
                assert(placed_has_cell(cells, sr, sc));
            }
        }
        assert(conn(b, empty, sr, sc, r0, f0.1 as int)) by {
            assert(occ_ex(b, empty, sr, sc) && occ_ex(b, empty, r0, f0.1 as int));
        }
        reveal(crate::connectivity::conn);
        let p = choose|p: Seq<(int, int)>|
            #[trigger] occ_path(b, empty, p) && p[0] == (sr, sc) && p.last() == (r0, f0.1 as int);
        let cmid = if sc < f0.1 {
            f0.1 as int - 1
        } else {
            f0.1 as int + 1
        };
        lemma_row_walk_covers(b, p, r0, cmid);
        let i = choose|i: int| 0 <= i < p.len() && (#[trigger] p[i]).1 == cmid;
        assert(occ_ex(b, empty, p[i].0, p[i].1));
        assert(b.occ(r0, cmid));
    }
    }
}

/// A connected mass that lies in one column admits no removable fragment.
pub proof fn lemma_one_col_no_fragment(b: Board, rm: Removable)
    requires
        b.wf(),
        connected_board(b),
        forall|r1: int, c1: int, r2: int, c2: int|
            #![trigger b.occ(r1, c1), b.occ(r2, c2)]
            b.occ(r1, c1) && b.occ(r2, c2) ==> c1 == c2,
    ensures
        !removable_ok(b, rm),
{
    if removable_ok(b, rm) {
    let empty = Seq::<(usize, usize)>::empty();
    let cells = rm.0@;
    let f0 = cells[0];
    assert(b.occ(f0.0 as int, f0.1 as int));
    let c0 = f0.1 as int;
    assert forall|r: int, c: int| #[trigger] b.occ(r, c) implies c == c0 by {
        assert(b.occ(f0.0 as int, f0.1 as int));
    }
    let (sr, sc) = choose|r: int, c: int| #[trigger] occ_ex(b, cells, r, c);
    assert(b.occ(sr, sc));
    assert(sc == c0);
    assert(!placed_has_cell(cells, sr, sc));
    if pendant_col_run(b, cells) {
        let e1 = f0.0 + cells.len();
        assert(!b.occ(f0.0 as int - 1, c0)) by {
            assert(!col_pendant_occ(b, f0.0 as int - 1, c0));
        }
        assert(!b.occ(e1, c0)) by {
            assert(!col_pendant_occ(b, e1, c0));
        }
        assert(!(f0.0 <= sr < e1)) by {
            if f0.0 <= sr < e1 {
                let k = sr - f0.0;
                assert(cells[k].0 as int == f0.0 + k && cells[k].1 == f0.1);
                assert(placed_has_cell(cells, sr, sc));
            }
        }
        assert(conn(b, empty, sr, sc, f0.0 as int, c0)) by {
            assert(occ_ex(b, empty, sr, sc) && occ_ex(b, empty, f0.0 as int, c0));
        }
        reveal(crate::connectivity::conn);
        let p = choose|p: Seq<(int, int)>|
            #[trigger] occ_path(b, empty, p) && p[0] == (sr, sc) && p.last() == (f0.0 as int, c0);
        let rmid = if sr < f0.0 {
            f0.0 as int - 1
        } else {
            e1
        };
        lemma_col_walk_covers(b, p, c0, rmid);
        let i = choose|i: int| 0 <= i < p.len() && (#[trigger] p[i]).0 == rmid;
        assert(occ_ex(b, empty, p[i].0, p[i].1));
        assert(b.occ(rmid, c0));
    } else {
        assert(pendant_row_run(b, cells));
        assert(cells.len() == 1) by {
            if cells.len() >= 2 {
                assert(b.occ(cells[1].0 as int, cells[1].1 as int));
                assert(cells[1].1 as int == f0.1 + 1);
            }
        }
        assert(!b.occ(f0.0 as int - 1, c0));
        assert(!b.occ(f0.0 as int + 1, c0));
        assert(sr != f0.0 as int) by {
            if sr == f0.0 as int {
                assert(cells[0] == (f0.0, f0.1));
                assert(placed_has_cell(cells, sr, sc));
            }
        }
        assert(conn(b, empty, sr, sc, f0.0 as int, c0)) by {
            assert(occ_ex(b, empty, sr, sc) && occ_ex(b, empty, f0.0 as int, c0));
        }
        reveal(crate::connectivity::conn);
        let p = choose|p: Seq<(int, int)>|
            #[trigger] occ_path(b, empty, p) && p[0] == (sr, sc) && p.last() == (f0.0 as int, c0);
        let rmid = if sr < f0.0 {
            f0.0 as int - 1
        } else {
            f0.0 as int + 1
        };
        lemma_col_walk_covers(b, p, c0, rmid);
        let i = choose|i: int| 0 <= i < p.len() && (#[trigger] p[i]).0 == rmid;
        assert(occ_ex(b, empty, p[i].0, p[i].1));
        assert(b.occ(rmid, c0));
    }
    }
}

} // verus!
