//! The placement search: window computation, the two placement routines,
//! the recursive driver with its iteration budget, and single-letter play.

use vstd::prelude::*;
use crate::board::{
    copy_vec, counts_match, count_val, hand_sum, in_grid, letters_wf, on_span, placed_has_cell,
    span_col, span_fits, span_row, touches, word_wf, Board, Direction, LetterUsage,
    lemma_play_then_undo_restores, lemma_counts_match_unique, lemma_hand_sum_up_to_nonneg,
    BOARD_AREA, BOARD_SIZE, EMPTY_VALUE, LETTER_COUNT,
};
use crate::words::{check_filter_after_play_later, words_view, words_list_wf};
use crate::validity::{h_validation, v_validation, is_board_valid_horizontal,
    is_board_valid_vertical, valid_board, lemma_h_play_preserves_valid,
    lemma_v_play_preserves_valid};
use crate::connectivity::{connected_board, lemma_play_preserves_connected};

verus! {

/// Every placed cell lies inside the bounding box.
pub open spec fn occ_within(b: Board, min_col: int, max_col: int, min_row: int, max_row: int) -> bool {
    forall|r: int, c: int|
        #[trigger] b.occ(r, c) ==> min_row <= r <= max_row && min_col <= c <= max_col
}

/// The bounding box is ordered and on the grid.
pub open spec fn bbox_wf(min_col: int, max_col: int, min_row: int, max_row: int) -> bool {
    0 <= min_col <= max_col < BOARD_SIZE && 0 <= min_row <= max_row < BOARD_SIZE
}

/// The running state of the search: a sound board, letter counts that match
/// it, and a bounding box containing every placed cell.
pub open spec fn search_inv(
    b: Board,
    lob: Seq<usize>,
    min_col: int,
    max_col: int,
    min_row: int,
    max_row: int,
) -> bool {
    &&& b.wf()
    &&& counts_match(b, lob)
    &&& bbox_wf(min_col, max_col, min_row, max_row)
    &&& occ_within(b, min_col, max_col, min_row, max_row)
}

/// Each side of the bounding box is achieved by a placed cell.
pub open spec fn bbox_tight(
    b: Board,
    min_col: int,
    max_col: int,
    min_row: int,
    max_row: int,
) -> bool {
    &&& exists|c: int| #[trigger] b.occ(min_row, c)
    &&& exists|c: int| #[trigger] b.occ(max_row, c)
    &&& exists|r: int| #[trigger] b.occ(r, min_col)
    &&& exists|r: int| #[trigger] b.occ(r, max_col)
}

/// Largest row index of a placement span.
pub open spec fn span_end_row(direction: Direction, row: int, len: int) -> int {
    match direction {
        Direction::Horizontal => row,
        Direction::Vertical => row + len - 1,
    }
}

/// Largest column index of a placement span.
pub open spec fn span_end_col(direction: Direction, col: int, len: int) -> int {
    match direction {
        Direction::Horizontal => col + len - 1,
        Direction::Vertical => col,
    }
}

/// After filling a span, the bounding box grown to the span stays a sound,
/// and if it was tight a tight, bounding box.
pub proof fn lemma_play_bbox(
    b0: Board,
    b1: Board,
    direction: Direction,
    row: int,
    col: int,
    len: int,
    min_col: int,
    max_col: int,
    min_row: int,
    max_row: int,
)
    requires
        b0.wf(),
        b1.wf(),
        bbox_wf(min_col, max_col, min_row, max_row),
        occ_within(b0, min_col, max_col, min_row, max_row),
        len >= 1,
        in_grid(row, col),
        span_fits(direction, row, col, len),
        forall|r: int, c: int| b0.occ(r, c) ==> #[trigger] b1.occ(r, c),
        forall|k: int|
            0 <= k < len ==> b1.occ(span_row(direction, row, k), #[trigger] span_col(direction, col, k)),
        forall|r: int, c: int|
            in_grid(r, c) && !on_span(direction, row, col, len, r, c) ==> #[trigger] b1.cell(r, c)
                == b0.cell(r, c),
    ensures
        occ_within(
            b1,
            if col < min_col {
                col
            } else {
                min_col
            },
            if span_end_col(direction, col, len) > max_col {
                span_end_col(direction, col, len)
            } else {
                max_col
            },
            if row < min_row {
                row
            } else {
                min_row
            },
            if span_end_row(direction, row, len) > max_row {
                span_end_row(direction, row, len)
            } else {
                max_row
            },
        ),
        bbox_tight(b0, min_col, max_col, min_row, max_row) ==> bbox_tight(
            b1,
            if col < min_col {
                col
            } else {
                min_col
            },
            if span_end_col(direction, col, len) > max_col {
                span_end_col(direction, col, len)
            } else {
                max_col
            },
            if row < min_row {
                row
            } else {
                min_row
            },
            if span_end_row(direction, row, len) > max_row {
                span_end_row(direction, row, len)
            } else {
                max_row
            },
        ),
    {
    let nmin_col: int = if col < min_col { col } else { min_col };
    let nmax_col: int = if span_end_col(direction, col, len) > max_col {
        span_end_col(direction, col, len)
    } else {
        max_col
    };
    let nmin_row: int = if row < min_row { row } else { min_row };
    let nmax_row: int = if span_end_row(direction, row, len) > max_row {
        span_end_row(direction, row, len)
    } else {
        max_row
    };
    assert forall|r: int, c: int| #[trigger] b1.occ(r, c) implies nmin_row <= r <= nmax_row
        && nmin_col <= c <= nmax_col by {
        if !on_span(direction, row, col, len, r, c) {
            assert(b1.cell(r, c) == b0.cell(r, c));
            assert(b0.occ(r, c));
        }
    }
    if bbox_tight(b0, min_col, max_col, min_row, max_row) {
        if nmin_row == row {
            assert(b1.occ(span_row(direction, row, 0), span_col(direction, col, 0)));
            assert(b1.occ(nmin_row, span_col(direction, col, 0)));
        } else {
            let c = choose|c: int| #[trigger] b0.occ(min_row, c);
            assert(b1.occ(nmin_row, c));
        }
        if nmax_row == span_end_row(direction, row, len) {
            assert(b1.occ(span_row(direction, row, len - 1), span_col(direction, col, len - 1)));
            assert(b1.occ(nmax_row, span_col(direction, col, len - 1)));
        } else {
            let c = choose|c: int| #[trigger] b0.occ(max_row, c);
            assert(b1.occ(nmax_row, c));
        }
        if nmin_col == col {
            assert(b1.occ(span_row(direction, row, 0), span_col(direction, col, 0)));
            assert(b1.occ(span_row(direction, row, 0), nmin_col));
        } else {
            let r = choose|r: int| #[trigger] b0.occ(r, min_col);
            assert(b1.occ(r, nmin_col));
        }
        if nmax_col == span_end_col(direction, col, len) {
            assert(b1.occ(span_row(direction, row, len - 1), span_col(direction, col, len - 1)));
            assert(b1.occ(span_row(direction, row, len - 1), nmax_col));
        } else {
            let r = choose|r: int| #[trigger] b0.occ(r, max_col);
            assert(b1.occ(r, nmax_col));
        }
    }
}

/// Something placed sits in row `row - 1`, `row`, or `row + 1` at column
/// `c`: a word through `(row, c)` could touch the placed mass.
pub open spec fn col_touch(b: Board, row: int, c: int) -> bool {
    b.occ(row - 1, c) || b.occ(row, c) || b.occ(row + 1, c)
}

/// Something placed sits in column `col - 1`, `col`, or `col + 1` at row
/// `r`.
pub open spec fn row_touch(b: Board, col: int, r: int) -> bool {
    b.occ(r, col - 1) || b.occ(r, col) || b.occ(r, col + 1)
}

/// The window of columns of `row` where a word could touch the placed mass:
/// the least and greatest touching column within the occupied column range,
/// or the reversed-window defaults when none touches.
pub fn get_col_limits(board: &Board, row: usize, min_col: usize, max_col: usize) -> (res: (
    usize,
    usize,
))
    requires
        board.wf(),
        row < BOARD_SIZE,
        min_col <= max_col < BOARD_SIZE,
    ensures
        min_col <= res.0 <= max_col,
        min_col <= res.1 <= max_col,
        (exists|c: int| min_col <= c <= max_col && #[trigger] col_touch(*board, row as int, c))
            ==> (col_touch(*board, row as int, res.0 as int) && col_touch(
            *board,
            row as int,
            res.1 as int,
        ) && (forall|c: int|
            min_col <= c < res.0 ==> !(#[trigger] col_touch(*board, row as int, c))) && (forall|
            c: int,
        |
            res.1 < c <= max_col ==> !(#[trigger] col_touch(*board, row as int, c)))),
        (!exists|c: int| min_col <= c <= max_col && #[trigger] col_touch(*board, row as int, c))
            ==> res.0 == max_col && res.1 == min_col,
{
    let mut leftmost = max_col;
    let mut found_left = false;
    let mut c = min_col;
    while c <= max_col
        invariant
            board.wf(),
            row < BOARD_SIZE,
            min_col <= c,
            c <= max_col + 1,
            max_col < BOARD_SIZE,
            min_col <= leftmost <= max_col,
            !found_left ==> leftmost == max_col && forall|cc: int|
                min_col <= cc < c ==> !(#[trigger] col_touch(*board, row as int, cc)),
            found_left ==> col_touch(*board, row as int, leftmost as int) && leftmost < c && forall|
                cc: int,
            | min_col <= cc < leftmost ==> !(#[trigger] col_touch(*board, row as int, cc)),
        decreases max_col + 1 - c,
    {
        if !found_left {
            let touch = (row > 0 && board.get_val(row - 1, c) != EMPTY_VALUE) || board.get_val(
                row,
                c,
            ) != EMPTY_VALUE || (row + 1 < BOARD_SIZE && board.get_val(row + 1, c) != EMPTY_VALUE);
            proof {
                assert(touch == col_touch(*board, row as int, c as int));
            }
            if touch {
                found_left = true;
                leftmost = c;
            }
        }
        c += 1;
    }
    let mut rightmost = min_col;
    let mut found_right = false;
    let mut c = max_col;
    loop
        invariant
            board.wf(),
            row < BOARD_SIZE,
            min_col <= c <= max_col < BOARD_SIZE,
            min_col <= rightmost <= max_col,
            !found_right ==> rightmost == min_col && forall|cc: int|
                c < cc <= max_col ==> !(#[trigger] col_touch(*board, row as int, cc)),
            found_right ==> col_touch(*board, row as int, rightmost as int) && rightmost >= c
                && forall|cc: int|
                rightmost < cc <= max_col ==> !(#[trigger] col_touch(*board, row as int, cc)),
        ensures
            (found_right ==> col_touch(*board, row as int, rightmost as int) && forall|cc: int|
                rightmost < cc <= max_col ==> !(#[trigger] col_touch(*board, row as int, cc))),
            (!found_right ==> rightmost == min_col && forall|cc: int|
                min_col <= cc <= max_col ==> !(#[trigger] col_touch(*board, row as int, cc))),
            min_col <= rightmost <= max_col,
        decreases c,
    {
        if !found_right {
            let touch = (row > 0 && board.get_val(row - 1, c) != EMPTY_VALUE) || board.get_val(
                row,
                c,
            ) != EMPTY_VALUE || (row + 1 < BOARD_SIZE && board.get_val(row + 1, c) != EMPTY_VALUE);
            proof {
                assert(touch == col_touch(*board, row as int, c as int));
            }
            if touch {
                found_right = true;
                rightmost = c;
            }
        }
        if c == min_col {
            break ;
        }
        c -= 1;
    }
    proof {
        if exists|cc: int| min_col <= cc <= max_col && #[trigger] col_touch(*board, row as int, cc) {
            let w = choose|cc: int|
                min_col <= cc <= max_col && #[trigger] col_touch(*board, row as int, cc);
            assert(found_left);
            assert(found_right);
        }
    }
    (leftmost, rightmost)
}

/// The window of rows of `col` where a word could touch the placed mass.
pub fn get_row_limits(board: &Board, col: usize, min_row: usize, max_row: usize) -> (res: (
    usize,
    usize,
))
    requires
        board.wf(),
        col < BOARD_SIZE,
        min_row <= max_row < BOARD_SIZE,
    ensures
        min_row <= res.0 <= max_row,
        min_row <= res.1 <= max_row,
        (exists|r: int| min_row <= r <= max_row && #[trigger] row_touch(*board, col as int, r))
            ==> (row_touch(*board, col as int, res.0 as int) && row_touch(
            *board,
            col as int,
            res.1 as int,
        ) && (forall|r: int|
            min_row <= r < res.0 ==> !(#[trigger] row_touch(*board, col as int, r))) && (forall|
            r: int,
        |
            res.1 < r <= max_row ==> !(#[trigger] row_touch(*board, col as int, r)))),
        (!exists|r: int| min_row <= r <= max_row && #[trigger] row_touch(*board, col as int, r))
            ==> res.0 == max_row && res.1 == min_row,
{
    let mut uppermost = max_row;
    let mut found_up = false;
    let mut r = min_row;
    while r <= max_row
        invariant
            board.wf(),
            col < BOARD_SIZE,
            min_row <= r,
            r <= max_row + 1,
            max_row < BOARD_SIZE,
            min_row <= uppermost <= max_row,
            !found_up ==> uppermost == max_row && forall|rr: int|
                min_row <= rr < r ==> !(#[trigger] row_touch(*board, col as int, rr)),
            found_up ==> row_touch(*board, col as int, uppermost as int) && uppermost < r && forall|
                rr: int,
            | min_row <= rr < uppermost ==> !(#[trigger] row_touch(*board, col as int, rr)),
        decreases max_row + 1 - r,
    {
        if !found_up {
            let touch = (col > 0 && board.get_val(r, col - 1) != EMPTY_VALUE) || board.get_val(
                r,
                col,
            ) != EMPTY_VALUE || (col + 1 < BOARD_SIZE && board.get_val(r, col + 1) != EMPTY_VALUE);
            proof {
                assert(touch == row_touch(*board, col as int, r as int));
            }
            if touch {
                found_up = true;
                uppermost = r;
            }
        }
        r += 1;
    }
    let mut lowermost = min_row;
    let mut found_down = false;
    let mut r = max_row;
    loop
        invariant
            board.wf(),
            col < BOARD_SIZE,
            min_row <= r <= max_row < BOARD_SIZE,
            min_row <= lowermost <= max_row,
            !found_down ==> lowermost == min_row && forall|rr: int|
                r < rr <= max_row ==> !(#[trigger] row_touch(*board, col as int, rr)),
            found_down ==> row_touch(*board, col as int, lowermost as int) && lowermost >= r
                && forall|rr: int|
                lowermost < rr <= max_row ==> !(#[trigger] row_touch(*board, col as int, rr)),
        ensures
            (found_down ==> row_touch(*board, col as int, lowermost as int) && forall|rr: int|
                lowermost < rr <= max_row ==> !(#[trigger] row_touch(*board, col as int, rr))),
            (!found_down ==> lowermost == min_row && forall|rr: int|
                min_row <= rr <= max_row ==> !(#[trigger] row_touch(*board, col as int, rr))),
            min_row <= lowermost <= max_row,
        decreases r,
    {
        if !found_down {
            let touch = (col > 0 && board.get_val(r, col - 1) != EMPTY_VALUE) || board.get_val(
                r,
                col,
            ) != EMPTY_VALUE || (col + 1 < BOARD_SIZE && board.get_val(r, col + 1) != EMPTY_VALUE);
            proof {
                assert(touch == row_touch(*board, col as int, r as int));
            }
            if touch {
                found_down = true;
                lowermost = r;
            }
        }
        if r == min_row {
            break ;
        }
        r -= 1;
    }
    proof {
        if exists|rr: int| min_row <= rr <= max_row && #[trigger] row_touch(*board, col as int, rr) {
            let w = choose|rr: int|
                min_row <= rr <= max_row && #[trigger] row_touch(*board, col as int, rr);
            assert(found_up);
            assert(found_down);
        }
    }
    (uppermost, lowermost)
}

} // verus!

verus! {

/// Newly filled cells only add to the placed mass.
pub proof fn lemma_play_occ_monotone(b0: Board, b1: Board, played: Seq<(usize, usize)>)
    requires
        b0.wf(),
        b1.wf(),
        forall|k: int|
            0 <= k < played.len() ==> in_grid((#[trigger] played[k]).0 as int, played[k].1 as int)
                && !b0.occ(played[k].0 as int, played[k].1 as int) && b1.occ(
                played[k].0 as int,
                played[k].1 as int,
            ),
        forall|r: int, c: int|
            in_grid(r, c) && !placed_has_cell(played, r, c) ==> #[trigger] b1.cell(r, c) == b0.cell(
                r,
                c,
            ),
    ensures
        forall|r: int, c: int| b0.occ(r, c) ==> #[trigger] b1.occ(r, c),
{
    assert forall|r: int, c: int| b0.occ(r, c) implies #[trigger] b1.occ(r, c) by {
        if placed_has_cell(played, r, c) {
            let k = choose|k: int|
                0 <= k < played.len() && (#[trigger] played[k]).0 == r && played[k].1 == c;
            assert(!b0.occ(r, c));
        } else {
            assert(b1.cell(r, c) == b0.cell(r, c));
        }
    }
}

/// What a successful search step guarantees, relative to the board and
/// counts at its start and the word list used for validation.
pub open spec fn search_success(
    b0: Board,
    b1: Board,
    lob1: Seq<usize>,
    letters: Seq<usize>,
    oracle: Seq<Seq<usize>>,
    min_col: int,
    max_col: int,
    min_row: int,
    max_row: int,
    bb: (usize, usize, usize, usize),
) -> bool {
    &&& search_inv(b1, lob1, bb.0 as int, bb.1 as int, bb.2 as int, bb.3 as int)
    &&& bb.0 <= min_col && max_col <= bb.1 && bb.2 <= min_row && max_row <= bb.3
    &&& forall|l: int|
        0 <= l < LETTER_COUNT ==> count_val(b1@, (l as usize)) == count_val(
            b0@,
            #[trigger] (l as usize),
        ) + letters[l]
    &&& forall|r: int, c: int| b0.occ(r, c) ==> #[trigger] b1.occ(r, c)
    &&& (valid_board(b0, oracle) ==> valid_board(b1, oracle))
    &&& (connected_board(b0) ==> connected_board(b1))
    &&& (bbox_tight(b0, min_col, max_col, min_row, max_row) ==> bbox_tight(
        b1,
        bb.0 as int,
        bb.1 as int,
        bb.2 as int,
        bb.3 as int,
    ))
}

/// Tries `word` at every window position in the given orientation; on
/// success the board holds a grown, still sound arrangement that consumed
/// the whole remaining hand; otherwise the board and counts are exactly as
/// before the call.
#[verifier::rlimit(100)]
pub fn try_play_word(
    board: &mut Board,
    word: &Vec<usize>,
    direction: Direction,
    min_col: usize,
    max_col: usize,
    min_row: usize,
    max_row: usize,
    valid_words_vec: &Vec<Vec<usize>>,
    valid_words_set: &Vec<Vec<usize>>,
    letters: &Vec<usize>,
    depth: usize,
    words_checked: &mut usize,
    letters_on_board: &mut Vec<usize>,
    filter_letters_on_board: usize,
    max_words_to_check: usize,
) -> (res: Result<Option<(usize, usize, usize, usize)>, ()>)
    requires
        search_inv(
            *old(board),
            old(letters_on_board)@,
            min_col as int,
            max_col as int,
            min_row as int,
            max_row as int,
        ),
        word_wf(word@),
        letters_wf(letters@),
        words_list_wf(words_view(valid_words_vec@)),
        words_list_wf(words_view(valid_words_set@)),
    ensures
        *final(words_checked) >= *old(words_checked),
        !(res matches Ok(Some(_))) ==> final(board)@ == old(board)@ && final(letters_on_board)@
            == old(letters_on_board)@,
        res matches Ok(Some(bb)) ==> search_success(
            *old(board),
            *final(board),
            final(letters_on_board)@,
            letters@,
            words_view(valid_words_set@),
            min_col as int,
            max_col as int,
            min_row as int,
            max_row as int,
            bb,
        ),
    decreases hand_sum(letters@), 0int,
{
    proof {
        lemma_hand_sum_up_to_nonneg(letters@, LETTER_COUNT as int);
    }
    let ghost b0: Board = *board;
    let ghost lob0: Seq<usize> = letters_on_board@;
    let ghost oracle: Seq<Seq<usize>> = words_view(valid_words_set@);
    let word_len = word.len();
    let lo_line = match direction {
        Direction::Horizontal => if min_row > 0 {
            min_row - 1
        } else {
            0
        },
        Direction::Vertical => if min_col > 0 {
            min_col - 1
        } else {
            0
        },
    };
    let hi_line = match direction {
        Direction::Horizontal => if max_row + 1 < BOARD_SIZE {
            max_row + 1
        } else {
            BOARD_SIZE - 1
        },
        Direction::Vertical => if max_col + 1 < BOARD_SIZE {
            max_col + 1
        } else {
            BOARD_SIZE - 1
        },
    };
    let mut line = lo_line;
    while line <= hi_line
        invariant
            search_inv(
                b0,
                lob0,
                min_col as int,
                max_col as int,
                min_row as int,
                max_row as int,
            ),
            b0 == *old(board),
            lob0 == old(letters_on_board)@,
            oracle == words_view(valid_words_set@),
            board@ == b0@,
            letters_on_board@ == lob0,
            *words_checked >= *old(words_checked),
            word_wf(word@),
            letters_wf(letters@),
            words_list_wf(words_view(valid_words_vec@)),
            words_list_wf(words_view(valid_words_set@)),
            word_len == word@.len(),
            hi_line < BOARD_SIZE,
            hand_sum(letters@) >= 0,
        decreases hi_line + 1 - line,
    {
        let (w_lo, w_hi) = match direction {
            Direction::Horizontal => get_col_limits(board, line, min_col, max_col),
            Direction::Vertical => get_row_limits(board, line, min_row, max_row),
        };
        let start_lo = if w_lo > word_len {
            w_lo - word_len
        } else {
            0
        };
        let start_hi = if w_hi + 1 < BOARD_SIZE {
            w_hi + 1
        } else {
            BOARD_SIZE - 1
        };
        let mut pos = start_lo;
        while pos <= start_hi
            invariant
                search_inv(
                    b0,
                    lob0,
                    min_col as int,
                    max_col as int,
                    min_row as int,
                    max_row as int,
                ),
                b0 == *old(board),
                lob0 == old(letters_on_board)@,
                oracle == words_view(valid_words_set@),
                board@ == b0@,
                letters_on_board@ == lob0,
                *words_checked >= *old(words_checked),
                word_wf(word@),
                letters_wf(letters@),
                words_list_wf(words_view(valid_words_vec@)),
                words_list_wf(words_view(valid_words_set@)),
                word_len == word@.len(),
                line < BOARD_SIZE,
                start_hi < BOARD_SIZE,
                hand_sum(letters@) >= 0,
            decreases start_hi + 1 - pos,
        {
            let (row_idx, col_idx) = match direction {
                Direction::Horizontal => (line, pos),
                Direction::Vertical => (pos, line),
            };
            let ghost b_pre: Board = *board;
            let (ok, played, remaining, usage) = board.play_word(
                word,
                row_idx,
                col_idx,
                direction,
                letters,
                letters_on_board,
            );
            if ok {
                let span_er = match direction {
                    Direction::Horizontal => row_idx,
                    Direction::Vertical => row_idx + word_len - 1,
                };
                let span_ec = match direction {
                    Direction::Horizontal => col_idx + word_len - 1,
                    Direction::Vertical => col_idx,
                };
                let nmin_col = if col_idx < min_col {
                    col_idx
                } else {
                    min_col
                };
                let nmax_col = if span_ec > max_col {
                    span_ec
                } else {
                    max_col
                };
                let nmin_row = if row_idx < min_row {
                    row_idx
                } else {
                    min_row
                };
                let nmax_row = if span_er > max_row {
                    span_er
                } else {
                    max_row
                };
                let ghost b1: Board = *board;
                let ghost lob1: Seq<usize> = letters_on_board@;
                proof {
                    assert forall|k: int| 0 <= k < word_len implies b1.occ(
                        span_row(direction, row_idx as int, k),
                        #[trigger] span_col(direction, col_idx as int, k),
                    ) by {
                        assert(b1.cell(
                            span_row(direction, row_idx as int, k),
                            span_col(direction, col_idx as int, k),
                        ) == word@[k]);
                    }
                    lemma_play_occ_monotone(b0, b1, played@);
                    assert forall|r: int, c: int|
                        in_grid(r, c) && !on_span(
                            direction,
                            row_idx as int,
                            col_idx as int,
                            word_len as int,
                            r,
                            c,
                        ) implies #[trigger] b1.cell(r, c) == b0.cell(r, c) by {
                        if placed_has_cell(played@, r, c) {
                            let k = choose|k: int|
                                0 <= k < played@.len() && (#[trigger] played@[k]).0 == r
                                    && played@[k].1 == c;
                        }
                    }
                    lemma_play_bbox(
                        b0,
                        b1,
                        direction,
                        row_idx as int,
                        col_idx as int,
                        word_len as int,
                        min_col as int,
                        max_col as int,
                        min_row as int,
                        max_row as int,
                    );
                }
                proof {
                    match direction {
                        Direction::Horizontal => {
                            assert forall|c: int| col_idx <= c <= span_ec implies #[trigger] b1.occ(
                                row_idx as int,
                                c,
                            ) by {
                                assert(b1.occ(
                                    span_row(direction, row_idx as int, c - col_idx),
                                    span_col(direction, col_idx as int, c - col_idx),
                                ));
                            }
                        },
                        Direction::Vertical => {
                            assert forall|r: int| row_idx <= r <= span_er implies #[trigger] b1.occ(
                                r,
                                col_idx as int,
                            ) by {
                                assert(b1.occ(
                                    span_row(direction, row_idx as int, r - row_idx),
                                    span_col(direction, col_idx as int, r - row_idx),
                                ));
                            }
                        },
                    }
                }
                let valid = match direction {
                    Direction::Horizontal => is_board_valid_horizontal(
                        board,
                        valid_words_set,
                        row_idx,
                        col_idx,
                        span_ec,
                    ),
                    Direction::Vertical => is_board_valid_vertical(
                        board,
                        valid_words_set,
                        row_idx,
                        span_er,
                        col_idx,
                    ),
                };
                if valid {
                    proof {
                        if valid_board(b0, oracle) {
                            match direction {
                                Direction::Horizontal => {
                                    lemma_h_play_preserves_valid(
                                        b0,
                                        b1,
                                        oracle,
                                        row_idx as int,
                                        col_idx as int,
                                        span_ec as int,
                                    );
                                },
                                Direction::Vertical => {
                                    lemma_v_play_preserves_valid(
                                        b0,
                                        b1,
                                        oracle,
                                        col_idx as int,
                                        row_idx as int,
                                        span_er as int,
                                    );
                                },
                            }
                        }
                        if connected_board(b0) {
                            lemma_touches_congruence(
                                b_pre,
                                b0,
                                direction,
                                row_idx as int,
                                col_idx as int,
                                word_len as int,
                            );
                            lemma_play_preserves_connected(
                                b0,
                                b1,
                                direction,
                                row_idx as int,
                                col_idx as int,
                                word_len as int,
                            );
                        }
                    }
                    match usage {
                        LetterUsage::Finished => {
                            return Ok(Some((nmin_col, nmax_col, nmin_row, nmax_row)));
                        },
                        LetterUsage::Remaining => {
                            let mut new_valid_words_vec: Vec<Vec<usize>> = Vec::new();
                            let vw_len = valid_words_vec.len();
                            let mut i: usize = 0;
                            while i < vw_len
                                invariant
                                    vw_len == valid_words_vec@.len(),
                                    i <= vw_len,
                                    letters_wf(letters@),
                                    letters_wf(letters_on_board@),
                                    words_list_wf(words_view(valid_words_vec@)),
                                    words_list_wf(words_view(new_valid_words_vec@)),
                                decreases vw_len - i,
                            {
                                proof {
                                    assert(words_view(valid_words_vec@)[i as int]
                                        == valid_words_vec@[i as int]@);
                                }
                                if check_filter_after_play_later(
                                    letters,
                                    letters_on_board,
                                    &valid_words_vec[i],
                                    filter_letters_on_board,
                                ) {
                                    let ghost before: Seq<Vec<usize>> = new_valid_words_vec@;
                                    new_valid_words_vec.push(copy_vec(&valid_words_vec[i]));
                                    proof {
                                        assert forall|j: int|
                                            0 <= j < words_view(new_valid_words_vec@).len() implies word_wf(
                                            #[trigger] words_view(new_valid_words_vec@)[j],
                                        ) by {
                                            if j < before.len() {
                                                assert(words_view(new_valid_words_vec@)[j]
                                                    == words_view(before)[j]);
                                            } else {
                                                assert(words_view(new_valid_words_vec@)[j]
                                                    == valid_words_vec@[i as int]@);
                                            }
                                        }
                                    }
                                }
                                i += 1;
                            }
                            proof {
                                lemma_hand_sum_up_to_nonneg(remaining@, LETTER_COUNT as int);
                                assert(hand_sum(remaining@) + played@.len() == hand_sum(letters@));
                                assert(played@.len() >= 1);
                                assert(hand_sum(remaining@) < hand_sum(letters@));
                            }
                            let res2 = play_further(
                                board,
                                nmin_col,
                                nmax_col,
                                nmin_row,
                                nmax_row,
                                &new_valid_words_vec,
                                valid_words_set,
                                &remaining,
                                depth.saturating_add(1),
                                words_checked,
                                letters_on_board,
                                filter_letters_on_board,
                                max_words_to_check,
                            );
                            match res2 {
                                Ok(r2) => {
                                    match r2 {
                                        Some(bb) => {
                                            proof {
                                                assert forall|l: int|
                                                    0 <= l < LETTER_COUNT implies count_val(
                                                    board@,
                                                    (l as usize),
                                                ) == count_val(b0@, #[trigger] (l as usize))
                                                    + letters@[l] by {
                                                    assert(count_val(board@, (l as usize))
                                                        == count_val(b1@, (l as usize))
                                                        + remaining@[l]);
                                                    assert(letters@[l] == remaining@[l]
                                                        + count_val(b1@, l as usize) - count_val(
                                                        b0@,
                                                        l as usize,
                                                    ));
                                                }
                                            }
                                            return Ok(Some(bb));
                                        },
                                        None => {
                                            let ghost b2: Board = *board;
                                            let _old_letters = board.undo_play(
                                                &played,
                                                letters_on_board,
                                            );
                                            proof {
                                                lemma_play_then_undo_restores(
                                                    b0,
                                                    b1,
                                                    *board,
                                                    played@,
                                                );
                                                lemma_counts_match_unique(
                                                    *board,
                                                    b0,
                                                    letters_on_board@,
                                                    lob0,
                                                );
                                            }
                                        },
                                    }
                                },
                                Err(()) => {
                                    let _old_letters = board.undo_play(&played, letters_on_board);
                                    proof {
                                        lemma_play_then_undo_restores(b0, b1, *board, played@);
                                        lemma_counts_match_unique(
                                            *board,
                                            b0,
                                            letters_on_board@,
                                            lob0,
                                        );
                                    }
                                    return Err(());
                                },
                            }
                        },
                        LetterUsage::Overused => {
                            return vstd::pervasive::unreached();
                        },
                    }
                } else {
                    let _old_letters = board.undo_play(&played, letters_on_board);
                    proof {
                        lemma_play_then_undo_restores(b0, b1, *board, played@);
                        lemma_counts_match_unique(*board, b0, letters_on_board@, lob0);
                    }
                }
            } else {
                let ghost b1: Board = *board;
                let _old_letters = board.undo_play(&played, letters_on_board);
                proof {
                    lemma_play_then_undo_restores(b0, b1, *board, played@);
                    lemma_counts_match_unique(*board, b0, letters_on_board@, lob0);
                }
            }
            pos += 1;
        }
        line += 1;
    }
    Ok(None)
}

/// The recursive driver: at each depth, every candidate word is tried in
/// one orientation and then the other, horizontally first at odd depths.
/// Exceeding the iteration budget aborts the whole tree with `Err`; the
/// board and counts are then exactly as at entry.
pub fn play_further(
    board: &mut Board,
    min_col: usize,
    max_col: usize,
    min_row: usize,
    max_row: usize,
    valid_words_vec: &Vec<Vec<usize>>,
    valid_words_set: &Vec<Vec<usize>>,
    letters: &Vec<usize>,
    depth: usize,
    words_checked: &mut usize,
    letters_on_board: &mut Vec<usize>,
    filter_letters_on_board: usize,
    max_words_to_check: usize,
) -> (res: Result<Option<(usize, usize, usize, usize)>, ()>)
    requires
        search_inv(
            *old(board),
            old(letters_on_board)@,
            min_col as int,
            max_col as int,
            min_row as int,
            max_row as int,
        ),
        letters_wf(letters@),
        words_list_wf(words_view(valid_words_vec@)),
        words_list_wf(words_view(valid_words_set@)),
    ensures
        *final(words_checked) >= *old(words_checked),
        !(res matches Ok(Some(_))) ==> final(board)@ == old(board)@ && final(letters_on_board)@
            == old(letters_on_board)@,
        res matches Ok(Some(bb)) ==> search_success(
            *old(board),
            *final(board),
            final(letters_on_board)@,
            letters@,
            words_view(valid_words_set@),
            min_col as int,
            max_col as int,
            min_row as int,
            max_row as int,
            bb,
        ),
        *old(words_checked) > max_words_to_check ==> res is Err,
    decreases hand_sum(letters@), 1int,
{
    proof {
        lemma_hand_sum_up_to_nonneg(letters@, LETTER_COUNT as int);
    }
    if *words_checked > max_words_to_check {
        return Err(());
    }
    let ghost b0: Board = *board;
    let ghost lob0: Seq<usize> = letters_on_board@;
    let ghost oracle: Seq<Seq<usize>> = words_view(valid_words_set@);
    let first_direction = if depth % 2 == 1 {
        Direction::Horizontal
    } else {
        Direction::Vertical
    };
    let vw_len = valid_words_vec.len();
    let mut i: usize = 0;
    while i < vw_len
        invariant
            search_inv(b0, lob0, min_col as int, max_col as int, min_row as int, max_row as int),
            b0 == *old(board),
            lob0 == old(letters_on_board)@,
            oracle == words_view(valid_words_set@),
            board@ == b0@,
            letters_on_board@ == lob0,
            *words_checked >= *old(words_checked),
            *old(words_checked) <= max_words_to_check,
            letters_wf(letters@),
            words_list_wf(words_view(valid_words_vec@)),
            words_list_wf(words_view(valid_words_set@)),
            vw_len == valid_words_vec@.len(),
            first_direction == (if depth % 2 == 1 {
                Direction::Horizontal
            } else {
                Direction::Vertical
            }),
        decreases vw_len - i,
    {
        *words_checked = words_checked.saturating_add(1);
        proof {
            assert(words_view(valid_words_vec@)[i as int] == valid_words_vec@[i as int]@);
        }
        let ghost b_pre: Board = *board;
        proof {
            lemma_search_inv_congruence(
                b0,
                *board,
                letters_on_board@,
                min_col as int,
                max_col as int,
                min_row as int,
                max_row as int,
            );
        }
        let r = try_play_word(
            board,
            &valid_words_vec[i],
            first_direction,
            min_col,
            max_col,
            min_row,
            max_row,
            valid_words_vec,
            valid_words_set,
            letters,
            depth,
            words_checked,
            letters_on_board,
            filter_letters_on_board,
            max_words_to_check,
        )?;
        if let Some(bb) = r {
            proof {
                lemma_search_success_congruence(
                    b_pre,
                    b0,
                    *board,
                    letters_on_board@,
                    letters@,
                    oracle,
                    min_col as int,
                    max_col as int,
                    min_row as int,
                    max_row as int,
                    bb,
                );
            }
            return Ok(Some(bb));
        }
        i += 1;
    }
    if depth == 0 {
        // At the top level only the vertical pass is worth trying: the
        // opening placements already enumerated the horizontal ones.
        return Ok(None);
    }
    let second_direction = if depth % 2 == 1 {
        Direction::Vertical
    } else {
        Direction::Horizontal
    };
    let mut i: usize = 0;
    while i < vw_len
        invariant
            search_inv(b0, lob0, min_col as int, max_col as int, min_row as int, max_row as int),
            b0 == *old(board),
            lob0 == old(letters_on_board)@,
            oracle == words_view(valid_words_set@),
            board@ == b0@,
            letters_on_board@ == lob0,
            *words_checked >= *old(words_checked),
            *old(words_checked) <= max_words_to_check,
            letters_wf(letters@),
            words_list_wf(words_view(valid_words_vec@)),
            words_list_wf(words_view(valid_words_set@)),
            vw_len == valid_words_vec@.len(),
            second_direction == (if depth % 2 == 1 {
                Direction::Vertical
            } else {
                Direction::Horizontal
            }),
        decreases vw_len - i,
    {
        *words_checked = words_checked.saturating_add(1);
        proof {
            assert(words_view(valid_words_vec@)[i as int] == valid_words_vec@[i as int]@);
        }
        let ghost b_pre: Board = *board;
        proof {
            lemma_search_inv_congruence(
                b0,
                *board,
                letters_on_board@,
                min_col as int,
                max_col as int,
                min_row as int,
                max_row as int,
            );
        }
        let r = try_play_word(
            board,
            &valid_words_vec[i],
            second_direction,
            min_col,
            max_col,
            min_row,
            max_row,
            valid_words_vec,
            valid_words_set,
            letters,
            depth,
            words_checked,
            letters_on_board,
            filter_letters_on_board,
            max_words_to_check,
        )?;
        if let Some(bb) = r {
            proof {
                lemma_search_success_congruence(
                    b_pre,
                    b0,
                    *board,
                    letters_on_board@,
                    letters@,
                    oracle,
                    min_col as int,
                    max_col as int,
                    min_row as int,
                    max_row as int,
                    bb,
                );
            }
            return Ok(Some(bb));
        }
        i += 1;
    }
    Ok(None)
}

} // verus!

verus! {

use crate::board::perp_occ;
use crate::validity::{h_run, v_run, h_run_ok, v_run_ok, lemma_h_run_transfer,
    lemma_v_run_transfer};
use crate::connectivity::{conn, occ_ex, lemma_conn_transfer};

/// The touch predicate depends only on the board's cells.
pub proof fn lemma_touches_congruence(
    ba: Board,
    bb: Board,
    direction: Direction,
    row: int,
    col: int,
    len: int,
)
    requires
        ba@ == bb@,
        touches(ba, direction, row, col, len),
    ensures
        touches(bb, direction, row, col, len),
{
    if exists|i: int| 0 <= i < len && #[trigger] perp_occ(ba, direction, row, col, i) {
        let i = choose|i: int| 0 <= i < len && #[trigger] perp_occ(ba, direction, row, col, i);
        assert(perp_occ(bb, direction, row, col, i));
    }
}

/// Board validity depends only on the board's cells.
pub proof fn lemma_valid_board_congruence(ba: Board, bb: Board, dict: Seq<Seq<usize>>)
    requires
        ba.wf(),
        bb.wf(),
        ba@ == bb@,
        valid_board(ba, dict),
    ensures
        valid_board(bb, dict),
{
    assert forall|r: int, c1: int, c2: int| #[trigger] h_run(bb, r, c1, c2) implies h_run_ok(
        bb,
        dict,
        r,
        c1,
        c2,
    ) by {
        lemma_h_run_transfer(bb, ba, r, c1, c2);
    }
    assert forall|c: int, r1: int, r2: int| #[trigger] v_run(bb, c, r1, r2) implies v_run_ok(
        bb,
        dict,
        c,
        r1,
        r2,
    ) by {
        lemma_v_run_transfer(bb, ba, c, r1, r2);
    }
}

/// Connectivity depends only on the board's cells.
pub proof fn lemma_connected_congruence(ba: Board, bb: Board)
    requires
        ba@ == bb@,
        connected_board(ba),
    ensures
        connected_board(bb),
{
    let empty = Seq::<(usize, usize)>::empty();
    assert forall|r1: int, c1: int, r2: int, c2: int|
        occ_ex(bb, empty, r1, c1) && occ_ex(bb, empty, r2, c2) implies #[trigger] conn(
        bb,
        empty,
        r1,
        c1,
        r2,
        c2,
    ) by {
        assert(occ_ex(ba, empty, r1, c1) && occ_ex(ba, empty, r2, c2));
        assert(conn(ba, empty, r1, c1, r2, c2));
        lemma_conn_transfer(ba, empty, bb, empty, r1, c1, r2, c2);
    }
}

/// Tightness of a bounding box depends only on the board's cells.
pub proof fn lemma_tight_congruence(
    ba: Board,
    bb: Board,
    min_col: int,
    max_col: int,
    min_row: int,
    max_row: int,
)
    requires
        ba@ == bb@,
        bbox_tight(ba, min_col, max_col, min_row, max_row),
    ensures
        bbox_tight(bb, min_col, max_col, min_row, max_row),
{
    let c1 = choose|c: int| #[trigger] ba.occ(min_row, c);
    assert(bb.occ(min_row, c1));
    let c2 = choose|c: int| #[trigger] ba.occ(max_row, c);
    assert(bb.occ(max_row, c2));
    let r1 = choose|r: int| #[trigger] ba.occ(r, min_col);
    assert(bb.occ(r1, min_col));
    let r2 = choose|r: int| #[trigger] ba.occ(r, max_col);
    assert(bb.occ(r2, max_col));
}

/// The search invariant depends only on the board's cells.
pub proof fn lemma_search_inv_congruence(
    ba: Board,
    bb: Board,
    lob: Seq<usize>,
    min_col: int,
    max_col: int,
    min_row: int,
    max_row: int,
)
    requires
        ba@ == bb@,
        search_inv(ba, lob, min_col, max_col, min_row, max_row),
    ensures
        search_inv(bb, lob, min_col, max_col, min_row, max_row),
{
    assert forall|r: int, c: int| #[trigger] bb.occ(r, c) implies min_row <= r <= max_row
        && min_col <= c <= max_col by {
        assert(ba.occ(r, c));
    }
}

/// A successful search step re-based onto a board with the same cells.
pub proof fn lemma_search_success_congruence(
    ba: Board,
    bb: Board,
    b1: Board,
    lob1: Seq<usize>,
    letters: Seq<usize>,
    oracle: Seq<Seq<usize>>,
    min_col: int,
    max_col: int,
    min_row: int,
    max_row: int,
    bbr: (usize, usize, usize, usize),
)
    requires
        ba.wf(),
        bb.wf(),
        ba@ == bb@,
        search_success(ba, b1, lob1, letters, oracle, min_col, max_col, min_row, max_row, bbr),
    ensures
        search_success(bb, b1, lob1, letters, oracle, min_col, max_col, min_row, max_row, bbr),
{
    assert forall|r: int, c: int| bb.occ(r, c) implies #[trigger] b1.occ(r, c) by {
        assert(ba.occ(r, c));
    }
    if valid_board(bb, oracle) {
        lemma_valid_board_congruence(bb, ba, oracle);
    }
    if connected_board(bb) {
        lemma_connected_congruence(bb, ba);
    }
    if bbox_tight(bb, min_col, max_col, min_row, max_row) {
        lemma_tight_congruence(bb, ba, min_col, max_col, min_row, max_row);
    }
}

} // verus!

verus! {

/// Tries to play a word horizontally anywhere against the placed mass.
pub fn try_play_word_horizontal(
    board: &mut Board,
    word: &Vec<usize>,
    min_col: usize,
    max_col: usize,
    min_row: usize,
    max_row: usize,
    valid_words_vec: &Vec<Vec<usize>>,
    valid_words_set: &Vec<Vec<usize>>,
    letters: &Vec<usize>,
    depth: usize,
    words_checked: &mut usize,
    letters_on_board: &mut Vec<usize>,
    filter_letters_on_board: usize,
    max_words_to_check: usize,
) -> (res: Result<Option<(usize, usize, usize, usize)>, ()>)
    requires
        search_inv(
            *old(board),
            old(letters_on_board)@,
            min_col as int,
            max_col as int,
            min_row as int,
            max_row as int,
        ),
        word_wf(word@),
        letters_wf(letters@),
        words_list_wf(words_view(valid_words_vec@)),
        words_list_wf(words_view(valid_words_set@)),
    ensures
        *final(words_checked) >= *old(words_checked),
        !(res matches Ok(Some(_))) ==> final(board)@ == old(board)@ && final(letters_on_board)@
            == old(letters_on_board)@,
        res matches Ok(Some(bb)) ==> search_success(
            *old(board),
            *final(board),
            final(letters_on_board)@,
            letters@,
            words_view(valid_words_set@),
            min_col as int,
            max_col as int,
            min_row as int,
            max_row as int,
            bb,
        ),
    decreases hand_sum(letters@), 0int,
{
    try_play_word(
        board,
        word,
        Direction::Horizontal,
        min_col,
        max_col,
        min_row,
        max_row,
        valid_words_vec,
        valid_words_set,
        letters,
        depth,
        words_checked,
        letters_on_board,
        filter_letters_on_board,
        max_words_to_check,
    )
}

/// Tries to play a word vertically anywhere against the placed mass.
pub fn try_play_word_vertically(
    board: &mut Board,
    word: &Vec<usize>,
    min_col: usize,
    max_col: usize,
    min_row: usize,
    max_row: usize,
    valid_words_vec: &Vec<Vec<usize>>,
    valid_words_set: &Vec<Vec<usize>>,
    letters: &Vec<usize>,
    depth: usize,
    words_checked: &mut usize,
    letters_on_board: &mut Vec<usize>,
    filter_letters_on_board: usize,
    max_words_to_check: usize,
) -> (res: Result<Option<(usize, usize, usize, usize)>, ()>)
    requires
        search_inv(
            *old(board),
            old(letters_on_board)@,
            min_col as int,
            max_col as int,
            min_row as int,
            max_row as int,
        ),
        word_wf(word@),
        letters_wf(letters@),
        words_list_wf(words_view(valid_words_vec@)),
        words_list_wf(words_view(valid_words_set@)),
    ensures
        *final(words_checked) >= *old(words_checked),
        !(res matches Ok(Some(_))) ==> final(board)@ == old(board)@ && final(letters_on_board)@
            == old(letters_on_board)@,
        res matches Ok(Some(bb)) ==> search_success(
            *old(board),
            *final(board),
            final(letters_on_board)@,
            letters@,
            words_view(valid_words_set@),
            min_col as int,
            max_col as int,
            min_row as int,
            max_row as int,
            bb,
        ),
    decreases hand_sum(letters@), 0int,
{
    try_play_word(
        board,
        word,
        Direction::Vertical,
        min_col,
        max_col,
        min_row,
        max_row,
        valid_words_vec,
        valid_words_set,
        letters,
        depth,
        words_checked,
        letters_on_board,
        filter_letters_on_board,
        max_words_to_check,
    )
}

/// Tries to place one tile beside the placed mass so that the board stays
/// valid; returns the location played and the grown bounding box.
#[verifier::rlimit(100)]
pub fn play_one_letter(
    board: &mut Board,
    min_col: usize,
    max_col: usize,
    min_row: usize,
    max_row: usize,
    letter: usize,
    valid_words_set: &Vec<Vec<usize>>,
) -> (res: Option<(usize, usize, usize, usize, usize, usize)>)
    requires
        old(board).wf(),
        bbox_wf(min_col as int, max_col as int, min_row as int, max_row as int),
        occ_within(*old(board), min_col as int, max_col as int, min_row as int, max_row as int),
        letter < LETTER_COUNT,
        words_list_wf(words_view(valid_words_set@)),
    ensures
        final(board).wf(),
        res is None ==> final(board)@ == old(board)@,
        res matches Some(t) ==> ({
            &&& t.0 < BOARD_SIZE && t.1 < BOARD_SIZE
            &&& old(board).cell(t.0 as int, t.1 as int) == EMPTY_VALUE
            &&& final(board)@ == old(board)@.update((t.0 * 144 + t.1) as int, letter)
            &&& t.2 == if t.1 < min_col { t.1 } else { min_col }
            &&& t.3 == if t.1 > max_col { t.1 } else { max_col }
            &&& t.4 == if t.0 < min_row { t.0 } else { min_row }
            &&& t.5 == if t.0 > max_row { t.0 } else { max_row }
            &&& bbox_wf(t.2 as int, t.3 as int, t.4 as int, t.5 as int)
            &&& occ_within(*final(board), t.2 as int, t.3 as int, t.4 as int, t.5 as int)
            &&& forall|v: usize|
                count_val(final(board)@, v) == count_val(old(board)@, v) + (if v == letter {
                    1int
                } else {
                    0int
                }) - (if v == EMPTY_VALUE {
                    1int
                } else {
                    0int
                })
            &&& (valid_board(*old(board), words_view(valid_words_set@)) ==> valid_board(
                *final(board),
                words_view(valid_words_set@),
            ))
            &&& (connected_board(*old(board)) ==> connected_board(*final(board)))
            &&& (bbox_tight(
                *old(board),
                min_col as int,
                max_col as int,
                min_row as int,
                max_row as int,
            ) ==> bbox_tight(*final(board), t.2 as int, t.3 as int, t.4 as int, t.5 as int))
            &&& window_lo(min_row as int) <= t.0 <= window_hi(max_row as int)
            &&& window_lo(min_col as int) <= t.1 <= window_hi(max_col as int)
            &&& (old(board).occ(t.0 as int, t.1 as int - 1) || old(board).occ(
                t.0 as int,
                t.1 as int + 1,
            ) || old(board).occ(t.0 as int - 1, t.1 as int) || old(board).occ(
                t.0 as int + 1,
                t.1 as int,
            ))
        }),
        res is None ==> forall|r: int, c: int|
            window_lo(min_row as int) <= r <= window_hi(max_row as int) && window_lo(
                min_col as int,
            ) <= c <= window_hi(max_col as int) && old(board).cell(r, c) == EMPTY_VALUE && (old(
                board,
            ).occ(r, c - 1) || old(board).occ(r, c + 1) || old(board).occ(r - 1, c) || old(
                board,
            ).occ(r + 1, c)) ==> #[trigger] one_letter_fails(
                old(board)@,
                words_view(valid_words_set@),
                letter,
                r,
                c,
            ),
{
    let ghost b0: Board = *board;
    let ghost oracle: Seq<Seq<usize>> = words_view(valid_words_set@);
    let row_lo = if min_row > 0 {
        min_row - 1
    } else {
        0
    };
    let row_hi = if max_row + 1 < BOARD_SIZE {
        max_row + 1
    } else {
        BOARD_SIZE - 1
    };
    let col_lo = if min_col > 0 {
        min_col - 1
    } else {
        0
    };
    let col_hi = if max_col + 1 < BOARD_SIZE {
        max_col + 1
    } else {
        BOARD_SIZE - 1
    };
    let mut row = row_lo;
    while row <= row_hi
        invariant
            b0 == *old(board),
            board@ == b0@,
            b0.wf(),
            bbox_wf(min_col as int, max_col as int, min_row as int, max_row as int),
            occ_within(b0, min_col as int, max_col as int, min_row as int, max_row as int),
            letter < LETTER_COUNT,
            oracle == words_view(valid_words_set@),
            words_list_wf(oracle),
            row_lo == window_lo(min_row as int),
            row_hi == window_hi(max_row as int),
            col_lo == window_lo(min_col as int),
            col_hi == window_hi(max_col as int),
            row_lo <= row,
            row_hi < BOARD_SIZE,
            col_lo < BOARD_SIZE,
            col_hi < BOARD_SIZE,
            forall|r: int, c: int|
                row_lo <= r < row && col_lo <= c <= col_hi && b0.cell(r, c) == EMPTY_VALUE && (
                b0.occ(r, c - 1) || b0.occ(r, c + 1) || b0.occ(r - 1, c) || b0.occ(r + 1, c))
                    ==> #[trigger] one_letter_fails(b0@, oracle, letter, r, c),
        decreases row_hi + 1 - row,
    {
        let mut col = col_lo;
        while col <= col_hi
            invariant
                b0 == *old(board),
                board@ == b0@,
                b0.wf(),
                bbox_wf(min_col as int, max_col as int, min_row as int, max_row as int),
                occ_within(b0, min_col as int, max_col as int, min_row as int, max_row as int),
                letter < LETTER_COUNT,
                oracle == words_view(valid_words_set@),
                words_list_wf(oracle),
                row_lo == window_lo(min_row as int),
                row_hi == window_hi(max_row as int),
                col_lo == window_lo(min_col as int),
                col_hi == window_hi(max_col as int),
                row_lo <= row <= row_hi,
                col_lo <= col,
                row < BOARD_SIZE,
                col_hi < BOARD_SIZE,
                forall|r: int, c: int|
                    row_lo <= r < row && col_lo <= c <= col_hi && b0.cell(r, c) == EMPTY_VALUE && (
                    b0.occ(r, c - 1) || b0.occ(r, c + 1) || b0.occ(r - 1, c) || b0.occ(r + 1, c))
                        ==> #[trigger] one_letter_fails(b0@, oracle, letter, r, c),
                forall|c: int|
                    col_lo <= c < col && b0.cell(row as int, c) == EMPTY_VALUE && (b0.occ(
                        row as int,
                        c - 1,
                    ) || b0.occ(row as int, c + 1) || b0.occ(row as int - 1, c) || b0.occ(
                        row as int + 1,
                        c,
                    )) ==> #[trigger] one_letter_fails(b0@, oracle, letter, row as int, c),
            decreases col_hi + 1 - col,
        {
            if board.get_val(row, col) == EMPTY_VALUE {
                let beside = (col > 0 && board.get_val(row, col - 1) != EMPTY_VALUE) || (col + 1
                    < BOARD_SIZE && board.get_val(row, col + 1) != EMPTY_VALUE) || (row > 0
                    && board.get_val(row - 1, col) != EMPTY_VALUE) || (row + 1 < BOARD_SIZE
                    && board.get_val(row + 1, col) != EMPTY_VALUE);
                if beside {
                    board.set_val(row, col, letter);
                    let ghost b1: Board = *board;
                    let nmin_col = if col < min_col {
                        col
                    } else {
                        min_col
                    };
                    let nmax_col = if col > max_col {
                        col
                    } else {
                        max_col
                    };
                    let nmin_row = if row < min_row {
                        row
                    } else {
                        min_row
                    };
                    let nmax_row = if row > max_row {
                        row
                    } else {
                        max_row
                    };
                    proof {
                        assert(b1.occ(row as int, col as int));
                        assert forall|k: int| 0 <= k < 1 implies b1.occ(
                            span_row(Direction::Horizontal, row as int, k),
                            #[trigger] span_col(Direction::Horizontal, col as int, k),
                        ) by {}
                        assert forall|r: int, c: int|
                            in_grid(r, c) && !on_span(
                                Direction::Horizontal,
                                row as int,
                                col as int,
                                1,
                                r,
                                c,
                            ) implies #[trigger] b1.cell(r, c) == b0.cell(r, c) by {}
                        assert forall|r: int, c: int| b0.occ(r, c) implies #[trigger] b1.occ(
                            r,
                            c,
                        ) by {}
                        lemma_play_bbox(
                            b0,
                            b1,
                            Direction::Horizontal,
                            row as int,
                            col as int,
                            1,
                            min_col as int,
                            max_col as int,
                            min_row as int,
                            max_row as int,
                        );
                    }
                    let valid = is_board_valid_horizontal(board, valid_words_set, row, col, col);
                    if valid {
                        proof {
                            if valid_board(b0, oracle) {
                                lemma_h_play_preserves_valid(
                                    b0,
                                    b1,
                                    oracle,
                                    row as int,
                                    col as int,
                                    col as int,
                                );
                            }
                            if connected_board(b0) {
                                assert(touches(
                                    b0,
                                    Direction::Horizontal,
                                    row as int,
                                    col as int,
                                    1,
                                )) by {
                                    if (row > 0 && b0.cell(row as int - 1, col as int)
                                        != EMPTY_VALUE) || (row + 1 < BOARD_SIZE && b0.cell(
                                        row as int + 1,
                                        col as int,
                                    ) != EMPTY_VALUE) {
                                        assert(perp_occ(
                                            b0,
                                            Direction::Horizontal,
                                            row as int,
                                            col as int,
                                            0,
                                        ));
                                    }
                                }
                                lemma_play_preserves_connected(
                                    b0,
                                    b1,
                                    Direction::Horizontal,
                                    row as int,
                                    col as int,
                                    1,
                                );
                            }
                        }
                        return Some((row, col, nmin_col, nmax_col, nmin_row, nmax_row));
                    } else {
                        proof {
                            // No board with this letter written here passes:
                            // the validator's verdict depends only on cells.
                            assert forall|b2: Board|
                                #[trigger] b2@ == b0@.update(
                                    row as int * 144 + col as int,
                                    letter,
                                ) implies !h_validation(
                                b2,
                                oracle,
                                row as int,
                                col as int,
                                col as int,
                            ) by {
                                if h_validation(b2, oracle, row as int, col as int, col as int) {
                                    assert(b2@ == b1@);
                                    assert(b2.wf());
                                    lemma_h_validation_congruence(
                                        b2,
                                        b1,
                                        oracle,
                                        row as int,
                                        col as int,
                                        col as int,
                                    );
                                }
                            }
                            assert(one_letter_fails(b0@, oracle, letter, row as int, col as int));
                        }
                        board.set_val(row, col, EMPTY_VALUE);
                        proof {
                            assert(board@ =~= b0@);
                        }
                    }
                }
            }
            col += 1;
        }
        row += 1;
    }
    None
}

} // verus!

verus! {

/// The validator's verdict depends only on the board's cells.
pub proof fn lemma_h_validation_congruence(
    ba: Board,
    bb: Board,
    dict: Seq<Seq<usize>>,
    row: int,
    start_col: int,
    end_col: int,
)
    requires
        ba.wf(),
        bb.wf(),
        ba@ == bb@,
        h_validation(ba, dict, row, start_col, end_col),
    ensures
        h_validation(bb, dict, row, start_col, end_col),
{
    assert forall|c1: int, c2: int|
        #[trigger] h_run(bb, row, c1, c2) && c1 <= end_col && start_col <= c2 implies h_run_ok(
        bb,
        dict,
        row,
        c1,
        c2,
    ) by {
        lemma_h_run_transfer(bb, ba, row, c1, c2);
    }
    assert forall|c: int, r1: int, r2: int|
        start_col <= c <= end_col && #[trigger] v_run(bb, c, r1, r2) && r1 <= row <= r2
        implies v_run_ok(bb, dict, c, r1, r2) by {
        lemma_v_run_transfer(bb, ba, c, r1, r2);
    }
}

/// First cell of the search window around an occupied bound.
pub open spec fn window_lo(x: int) -> int {
    if x > 0 {
        x - 1
    } else {
        0
    }
}

/// Last cell of the search window around an occupied bound.
pub open spec fn window_hi(x: int) -> int {
    if x + 1 < BOARD_SIZE {
        x + 1
    } else {
        BOARD_SIZE - 1
    }
}

/// Writing `letter` at `(r, c)` over these cells can never pass the
/// validation of the runs through that cell.
pub open spec fn one_letter_fails(
    v: Seq<usize>,
    oracle: Seq<Seq<usize>>,
    letter: usize,
    r: int,
    c: int,
) -> bool {
    forall|b2: Board|
        #[trigger] b2@ == v.update(r * 144 + c, letter) ==> !h_validation(b2, oracle, r, c, c)
}

} // verus!
