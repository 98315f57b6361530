//! Board validity: every maximal horizontal or vertical run of two or more
//! tiles must be a word of the active list.  Holds the run model, the
//! cross-word validators run after each placement, and the proof that a
//! validated placement keeps the whole board valid.

use vstd::prelude::*;
use crate::board::{in_grid, Board, BOARD_SIZE, EMPTY_VALUE};
use crate::words::{word_in_list, words_view};

verus! {

/// Cells `(r, c1)` through `(r, c2)` are all occupied.
pub open spec fn h_occ_range(b: Board, r: int, c1: int, c2: int) -> bool {
    forall|c: int| c1 <= c <= c2 ==> #[trigger] b.occ(r, c)
}

/// `[c1, c2]` is a maximal horizontal run of occupied cells in row `r`.
pub open spec fn h_run(b: Board, r: int, c1: int, c2: int) -> bool {
    &&& c1 <= c2
    &&& h_occ_range(b, r, c1, c2)
    &&& !b.occ(r, c1 - 1)
    &&& !b.occ(r, c2 + 1)
}

/// The letters of row `r` from column `c1` through `c2`.
pub open spec fn h_word_at(b: Board, r: int, c1: int, c2: int) -> Seq<usize> {
    Seq::new((c2 + 1 - c1) as nat, |i: int| b.cell(r, c1 + i))
}

/// Cells `(r1, c)` through `(r2, c)` are all occupied.
pub open spec fn v_occ_range(b: Board, c: int, r1: int, r2: int) -> bool {
    forall|r: int| r1 <= r <= r2 ==> #[trigger] b.occ(r, c)
}

/// `[r1, r2]` is a maximal vertical run of occupied cells in column `c`.
pub open spec fn v_run(b: Board, c: int, r1: int, r2: int) -> bool {
    &&& r1 <= r2
    &&& v_occ_range(b, c, r1, r2)
    &&& !b.occ(r1 - 1, c)
    &&& !b.occ(r2 + 1, c)
}

/// The letters of column `c` from row `r1` through `r2`.
pub open spec fn v_word_at(b: Board, c: int, r1: int, r2: int) -> Seq<usize> {
    Seq::new((r2 + 1 - r1) as nat, |i: int| b.cell(r1 + i, c))
}

/// A horizontal run is acceptable: single cells always, longer runs only as
/// words of the list.
pub open spec fn h_run_ok(b: Board, dict: Seq<Seq<usize>>, r: int, c1: int, c2: int) -> bool {
    c1 < c2 ==> dict.contains(h_word_at(b, r, c1, c2))
}

/// A vertical run is acceptable.
pub open spec fn v_run_ok(b: Board, dict: Seq<Seq<usize>>, c: int, r1: int, r2: int) -> bool {
    r1 < r2 ==> dict.contains(v_word_at(b, c, r1, r2))
}

/// Every maximal run of length two or more on the board is a word of the
/// list.
pub open spec fn valid_board(b: Board, dict: Seq<Seq<usize>>) -> bool {
    &&& forall|r: int, c1: int, c2: int|
        #[trigger] h_run(b, r, c1, c2) ==> h_run_ok(b, dict, r, c1, c2)
    &&& forall|c: int, r1: int, r2: int|
        #[trigger] v_run(b, c, r1, r2) ==> v_run_ok(b, dict, c, r1, r2)
}

/// Two maximal horizontal runs through a common cell coincide.
pub proof fn lemma_h_run_determined(b: Board, r: int, c1: int, c2: int, d1: int, d2: int, c: int)
    requires
        h_run(b, r, c1, c2),
        h_run(b, r, d1, d2),
        c1 <= c <= c2,
        d1 <= c <= d2,
    ensures
        c1 == d1 && c2 == d2,
{
    if c1 < d1 {
        assert(b.occ(r, d1 - 1));
    }
    if d1 < c1 {
        assert(b.occ(r, c1 - 1));
    }
    if c2 < d2 {
        assert(b.occ(r, c2 + 1));
    }
    if d2 < c2 {
        assert(b.occ(r, d2 + 1));
    }
}

/// Two maximal vertical runs through a common cell coincide.
pub proof fn lemma_v_run_determined(b: Board, c: int, r1: int, r2: int, s1: int, s2: int, r: int)
    requires
        v_run(b, c, r1, r2),
        v_run(b, c, s1, s2),
        r1 <= r <= r2,
        s1 <= r <= s2,
    ensures
        r1 == s1 && r2 == s2,
{
    if r1 < s1 {
        assert(b.occ(s1 - 1, c));
    }
    if s1 < r1 {
        assert(b.occ(r1 - 1, c));
    }
    if r2 < s2 {
        assert(b.occ(r2 + 1, c));
    }
    if s2 < r2 {
        assert(b.occ(s2 + 1, c));
    }
}

/// A horizontal run carries over between boards that agree on its row
/// window, boundaries included.
pub proof fn lemma_h_run_transfer(b1: Board, b2: Board, r: int, c1: int, c2: int)
    requires
        b1.wf(),
        b2.wf(),
        h_run(b1, r, c1, c2),
        forall|c: int|
            c1 - 1 <= c <= c2 + 1 && in_grid(r, c) ==> #[trigger] b2.cell(r, c) == b1.cell(r, c),
    ensures
        h_run(b2, r, c1, c2),
        h_word_at(b2, r, c1, c2) == h_word_at(b1, r, c1, c2),
{
    assert forall|c: int| c1 <= c <= c2 implies #[trigger] b2.occ(r, c) by {
        assert(b1.occ(r, c));
    }
    assert(!b2.occ(r, c1 - 1));
    assert(!b2.occ(r, c2 + 1));
    assert forall|i: int| 0 <= i < c2 + 1 - c1 implies h_word_at(b2, r, c1, c2)[i] == h_word_at(
        b1,
        r,
        c1,
        c2,
    )[i] by {
        assert(b1.occ(r, c1 + i));
        assert(in_grid(r, c1 + i));
    }
    assert(h_word_at(b2, r, c1, c2) =~= h_word_at(b1, r, c1, c2));
}

/// A vertical run carries over between boards that agree on its column
/// window, boundaries included.
pub proof fn lemma_v_run_transfer(b1: Board, b2: Board, c: int, r1: int, r2: int)
    requires
        b1.wf(),
        b2.wf(),
        v_run(b1, c, r1, r2),
        forall|r: int|
            r1 - 1 <= r <= r2 + 1 && in_grid(r, c) ==> #[trigger] b2.cell(r, c) == b1.cell(r, c),
    ensures
        v_run(b2, c, r1, r2),
        v_word_at(b2, c, r1, r2) == v_word_at(b1, c, r1, r2),
{
    assert forall|r: int| r1 <= r <= r2 implies #[trigger] b2.occ(r, c) by {
        assert(b1.occ(r, c));
    }
    assert(!b2.occ(r1 - 1, c));
    assert(!b2.occ(r2 + 1, c));
    assert forall|i: int| 0 <= i < r2 + 1 - r1 implies v_word_at(b2, c, r1, r2)[i] == v_word_at(
        b1,
        c,
        r1,
        r2,
    )[i] by {
        assert(b1.occ(r1 + i, c));
        assert(in_grid(r1 + i, c));
    }
    assert(v_word_at(b2, c, r1, r2) =~= v_word_at(b1, c, r1, r2));
}

/// Checks the maximal horizontal run through the occupied cell
/// `(row, col)`: acceptable exactly when every maximal horizontal run
/// containing that cell is.
pub fn check_run_h(board: &Board, words_list: &Vec<Vec<usize>>, row: usize, col: usize) -> (res:
    bool)
    requires
        board.wf(),
        row < BOARD_SIZE,
        col < BOARD_SIZE,
        board.occ(row as int, col as int),
    ensures
        res == (forall|c1: int, c2: int|
            #[trigger] h_run(*board, row as int, c1, c2) && c1 <= col <= c2 ==> h_run_ok(
                *board,
                words_view(words_list@),
                row as int,
                c1,
                c2,
            )),
{
    let mut s = col;
    while s > 0 && board.get_val(row, s - 1) != EMPTY_VALUE
        invariant
            board.wf(),
            row < BOARD_SIZE,
            s <= col < BOARD_SIZE,
            forall|c: int| s <= c <= col ==> #[trigger] board.occ(row as int, c),
        decreases s,
    {
        s -= 1;
    }
    let mut e = col;
    while e + 1 < BOARD_SIZE && board.get_val(row, e + 1) != EMPTY_VALUE
        invariant
            board.wf(),
            row < BOARD_SIZE,
            col <= e < BOARD_SIZE,
            s <= col,
            forall|c: int| s <= c <= e ==> #[trigger] board.occ(row as int, c),
        decreases BOARD_SIZE - e,
    {
        e += 1;
    }
    proof {
        assert(h_run(*board, row as int, s as int, e as int));
    }
    if e == s {
        proof {
            assert forall|c1: int, c2: int|
                #[trigger] h_run(*board, row as int, c1, c2) && c1 <= col <= c2 implies h_run_ok(
                *board,
                words_view(words_list@),
                row as int,
                c1,
                c2,
            ) by {
                lemma_h_run_determined(*board, row as int, c1, c2, s as int, e as int, col as int);
            }
        }
        return true;
    }
    let mut letters: Vec<usize> = Vec::new();
    let mut c = s;
    while c <= e
        invariant
            board.wf(),
            row < BOARD_SIZE,
            s <= c,
            c <= e + 1,
            e < BOARD_SIZE,
            forall|cc: int| s <= cc <= e ==> #[trigger] board.occ(row as int, cc),
            letters@.len() == c - s,
            forall|j: int| 0 <= j < letters@.len() ==> letters@[j] == board.cell(row as int, s + j),
        decreases e + 1 - c,
    {
        letters.push(board.get_val(row, c));
        c += 1;
    }
    proof {
        assert(letters@ =~= h_word_at(*board, row as int, s as int, e as int));
    }
    let res = word_in_list(words_list, &letters);
    proof {
        if res {
            assert forall|c1: int, c2: int|
                #[trigger] h_run(*board, row as int, c1, c2) && c1 <= col <= c2 implies h_run_ok(
                *board,
                words_view(words_list@),
                row as int,
                c1,
                c2,
            ) by {
                lemma_h_run_determined(*board, row as int, c1, c2, s as int, e as int, col as int);
            }
        }
    }
    res
}

/// Checks the maximal vertical run through the occupied cell `(row, col)`.
pub fn check_run_v(board: &Board, words_list: &Vec<Vec<usize>>, row: usize, col: usize) -> (res:
    bool)
    requires
        board.wf(),
        row < BOARD_SIZE,
        col < BOARD_SIZE,
        board.occ(row as int, col as int),
    ensures
        res == (forall|r1: int, r2: int|
            #[trigger] v_run(*board, col as int, r1, r2) && r1 <= row <= r2 ==> v_run_ok(
                *board,
                words_view(words_list@),
                col as int,
                r1,
                r2,
            )),
{
    let mut s = row;
    while s > 0 && board.get_val(s - 1, col) != EMPTY_VALUE
        invariant
            board.wf(),
            col < BOARD_SIZE,
            s <= row < BOARD_SIZE,
            forall|r: int| s <= r <= row ==> #[trigger] board.occ(r, col as int),
        decreases s,
    {
        s -= 1;
    }
    let mut e = row;
    while e + 1 < BOARD_SIZE && board.get_val(e + 1, col) != EMPTY_VALUE
        invariant
            board.wf(),
            col < BOARD_SIZE,
            row <= e < BOARD_SIZE,
            s <= row,
            forall|r: int| s <= r <= e ==> #[trigger] board.occ(r, col as int),
        decreases BOARD_SIZE - e,
    {
        e += 1;
    }
    proof {
        assert(v_run(*board, col as int, s as int, e as int));
    }
    if e == s {
        proof {
            assert forall|r1: int, r2: int|
                #[trigger] v_run(*board, col as int, r1, r2) && r1 <= row <= r2 implies v_run_ok(
                *board,
                words_view(words_list@),
                col as int,
                r1,
                r2,
            ) by {
                lemma_v_run_determined(*board, col as int, r1, r2, s as int, e as int, row as int);
            }
        }
        return true;
    }
    let mut letters: Vec<usize> = Vec::new();
    let mut r = s;
    while r <= e
        invariant
            board.wf(),
            col < BOARD_SIZE,
            s <= r,
            r <= e + 1,
            e < BOARD_SIZE,
            forall|rr: int| s <= rr <= e ==> #[trigger] board.occ(rr, col as int),
            letters@.len() == r - s,
            forall|j: int| 0 <= j < letters@.len() ==> letters@[j] == board.cell(s + j, col as int),
        decreases e + 1 - r,
    {
        letters.push(board.get_val(r, col));
        r += 1;
    }
    proof {
        assert(letters@ =~= v_word_at(*board, col as int, s as int, e as int));
    }
    let res = word_in_list(words_list, &letters);
    proof {
        if res {
            assert forall|r1: int, r2: int|
                #[trigger] v_run(*board, col as int, r1, r2) && r1 <= row <= r2 implies v_run_ok(
                *board,
                words_view(words_list@),
                col as int,
                r1,
                r2,
            ) by {
                lemma_v_run_determined(*board, col as int, r1, r2, s as int, e as int, row as int);
            }
        }
    }
    res
}

/// The verdict of the horizontal validator: the run along the played row and
/// every perpendicular run through the played columns are acceptable.
pub open spec fn h_validation(
    b: Board,
    dict: Seq<Seq<usize>>,
    row: int,
    start_col: int,
    end_col: int,
) -> bool {
    &&& forall|c1: int, c2: int|
        #[trigger] h_run(b, row, c1, c2) && c1 <= end_col && start_col <= c2 ==> h_run_ok(
            b,
            dict,
            row,
            c1,
            c2,
        )
    &&& forall|c: int, r1: int, r2: int|
        start_col <= c <= end_col && #[trigger] v_run(b, c, r1, r2) && r1 <= row <= r2
            ==> v_run_ok(b, dict, c, r1, r2)
}

/// The verdict of the vertical validator.
pub open spec fn v_validation(
    b: Board,
    dict: Seq<Seq<usize>>,
    col: int,
    start_row: int,
    end_row: int,
) -> bool {
    &&& forall|r1: int, r2: int|
        #[trigger] v_run(b, col, r1, r2) && r1 <= end_row && start_row <= r2 ==> v_run_ok(
            b,
            dict,
            col,
            r1,
            r2,
        )
    &&& forall|r: int, c1: int, c2: int|
        start_row <= r <= end_row && #[trigger] h_run(b, r, c1, c2) && c1 <= col <= c2
            ==> h_run_ok(b, dict, r, c1, c2)
}

/// Validates the board around a horizontal play on row `row` covering
/// columns `start_col` through `end_col`: the horizontal run through the
/// play, and the vertical run through each played column, must be
/// acceptable.
pub fn is_board_valid_horizontal(
    board: &Board,
    words_list: &Vec<Vec<usize>>,
    row: usize,
    start_col: usize,
    end_col: usize,
) -> (res: bool)
    requires
        board.wf(),
        row < BOARD_SIZE,
        start_col <= end_col < BOARD_SIZE,
        forall|c: int| start_col <= c <= end_col ==> #[trigger] board.occ(row as int, c),
    ensures
        res == h_validation(
            *board,
            words_view(words_list@),
            row as int,
            start_col as int,
            end_col as int,
        ),
{
    if !check_run_h(board, words_list, row, start_col) {
        return false;
    }
    let mut col = start_col;
    while col <= end_col
        invariant
            board.wf(),
            row < BOARD_SIZE,
            start_col <= col,
            col <= end_col + 1,
            end_col < BOARD_SIZE,
            forall|c: int| start_col <= c <= end_col ==> #[trigger] board.occ(row as int, c),
            forall|c1: int, c2: int|
                #[trigger] h_run(*board, row as int, c1, c2) && c1 <= start_col <= c2 ==> h_run_ok(
                    *board,
                    words_view(words_list@),
                    row as int,
                    c1,
                    c2,
                ),
            forall|c: int, r1: int, r2: int|
                start_col <= c < col && #[trigger] v_run(*board, c, r1, r2) && r1 <= row <= r2
                    ==> v_run_ok(*board, words_view(words_list@), c, r1, r2),
        decreases end_col + 1 - col,
    {
        if !check_run_v(board, words_list, row, col) {
            return false;
        }
        col += 1;
    }
    proof {
        assert forall|c1: int, c2: int|
            #[trigger] h_run(*board, row as int, c1, c2) && c1 <= end_col && start_col <= c2
            implies h_run_ok(*board, words_view(words_list@), row as int, c1, c2) by {
            // A run that reaches the played span must contain its start:
            // otherwise the occupied cell just left of the run's start would
            // extend the run.
            if c1 > start_col {
                assert(board.occ(row as int, c1 - 1));
                assert(!h_occ_range(*board, row as int, c1, c2) || b_occ_left(*board, row as int, c1));
            }
            assert(c1 <= start_col <= c2);
        }
    }
    true
}

/// The cell just left of `c1` in row `r` is occupied.
pub open spec fn b_occ_left(b: Board, r: int, c1: int) -> bool {
    b.occ(r, c1 - 1)
}

/// Validates the board around a vertical play in column `col` covering rows
/// `start_row` through `end_row`.
pub fn is_board_valid_vertical(
    board: &Board,
    words_list: &Vec<Vec<usize>>,
    start_row: usize,
    end_row: usize,
    col: usize,
) -> (res: bool)
    requires
        board.wf(),
        col < BOARD_SIZE,
        start_row <= end_row < BOARD_SIZE,
        forall|r: int| start_row <= r <= end_row ==> #[trigger] board.occ(r, col as int),
    ensures
        res == v_validation(
            *board,
            words_view(words_list@),
            col as int,
            start_row as int,
            end_row as int,
        ),
{
    if !check_run_v(board, words_list, start_row, col) {
        return false;
    }
    let mut row = start_row;
    while row <= end_row
        invariant
            board.wf(),
            col < BOARD_SIZE,
            start_row <= row,
            row <= end_row + 1,
            end_row < BOARD_SIZE,
            forall|r: int| start_row <= r <= end_row ==> #[trigger] board.occ(r, col as int),
            forall|r1: int, r2: int|
                #[trigger] v_run(*board, col as int, r1, r2) && r1 <= start_row <= r2 ==> v_run_ok(
                    *board,
                    words_view(words_list@),
                    col as int,
                    r1,
                    r2,
                ),
            forall|r: int, c1: int, c2: int|
                start_row <= r < row && #[trigger] h_run(*board, r, c1, c2) && c1 <= col <= c2
                    ==> h_run_ok(*board, words_view(words_list@), r, c1, c2),
        decreases end_row + 1 - row,
    {
        if !check_run_h(board, words_list, row, col) {
            return false;
        }
        row += 1;
    }
    proof {
        assert forall|r1: int, r2: int|
            #[trigger] v_run(*board, col as int, r1, r2) && r1 <= end_row && start_row <= r2
            implies v_run_ok(*board, words_view(words_list@), col as int, r1, r2) by {
            if r1 > start_row {
                assert(board.occ(r1 - 1, col as int));
            }
            assert(r1 <= start_row <= r2);
        }
    }
    true
}

} // verus!

verus! {

/// A horizontal play that passed the horizontal validator keeps the board
/// valid: the play changed cells only on its own row span, left that span
/// fully occupied, and every run it could have created or extended was
/// checked; every other run is untouched and was valid before.
pub proof fn lemma_h_play_preserves_valid(
    b0: Board,
    b1: Board,
    dict: Seq<Seq<usize>>,
    row: int,
    c_lo: int,
    c_hi: int,
)
    requires
        b0.wf(),
        b1.wf(),
        valid_board(b0, dict),
        c_lo <= c_hi,
        in_grid(row, c_lo),
        in_grid(row, c_hi),
        forall|r: int, c: int|
            in_grid(r, c) && !(r == row && c_lo <= c <= c_hi) ==> #[trigger] b1.cell(r, c)
                == b0.cell(r, c),
        forall|c: int| c_lo <= c <= c_hi ==> #[trigger] b1.occ(row, c),
        h_validation(b1, dict, row, c_lo, c_hi),
    ensures
        valid_board(b1, dict),
{
    assert forall|r: int, c1: int, c2: int| #[trigger] h_run(b1, r, c1, c2) implies h_run_ok(
        b1,
        dict,
        r,
        c1,
        c2,
    ) by {
        if r == row && c1 <= c_hi && c_lo <= c2 {
            assert(h_run_ok(b1, dict, r, c1, c2));
        } else {
            assert forall|c: int| c1 - 1 <= c <= c2 + 1 && in_grid(r, c) implies #[trigger] b0.cell(
                r,
                c,
            ) == b1.cell(r, c) by {
                if r == row && c_lo <= c <= c_hi {
                    assert(b1.occ(row, c));
                    if c1 <= c <= c2 {
                        assert(c1 <= c_hi && c_lo <= c2);
                    } else if c == c1 - 1 {
                        assert(!b1.occ(r, c1 - 1));
                    } else {
                        assert(c == c2 + 1);
                        assert(!b1.occ(r, c2 + 1));
                    }
                }
            }
            lemma_h_run_transfer(b1, b0, r, c1, c2);
            assert(h_run(b0, r, c1, c2));
        }
    }
    assert forall|c: int, r1: int, r2: int| #[trigger] v_run(b1, c, r1, r2) implies v_run_ok(
        b1,
        dict,
        c,
        r1,
        r2,
    ) by {
        if c_lo <= c <= c_hi && r1 <= row <= r2 {
            assert(v_run_ok(b1, dict, c, r1, r2));
        } else {
            assert forall|r: int| r1 - 1 <= r <= r2 + 1 && in_grid(r, c) implies #[trigger] b0.cell(
                r,
                c,
            ) == b1.cell(r, c) by {
                if r == row && c_lo <= c <= c_hi {
                    assert(b1.occ(row, c));
                    if r1 <= r <= r2 {
                        assert(r1 <= row <= r2);
                    } else if r == r1 - 1 {
                        assert(!b1.occ(r1 - 1, c));
                    } else {
                        assert(r == r2 + 1);
                        assert(!b1.occ(r2 + 1, c));
                    }
                }
            }
            lemma_v_run_transfer(b1, b0, c, r1, r2);
            assert(v_run(b0, c, r1, r2));
        }
    }
}

/// A vertical play that passed the vertical validator keeps the board
/// valid.
pub proof fn lemma_v_play_preserves_valid(
    b0: Board,
    b1: Board,
    dict: Seq<Seq<usize>>,
    col: int,
    r_lo: int,
    r_hi: int,
)
    requires
        b0.wf(),
        b1.wf(),
        valid_board(b0, dict),
        r_lo <= r_hi,
        in_grid(r_lo, col),
        in_grid(r_hi, col),
        forall|r: int, c: int|
            in_grid(r, c) && !(c == col && r_lo <= r <= r_hi) ==> #[trigger] b1.cell(r, c)
                == b0.cell(r, c),
        forall|r: int| r_lo <= r <= r_hi ==> #[trigger] b1.occ(r, col),
        v_validation(b1, dict, col, r_lo, r_hi),
    ensures
        valid_board(b1, dict),
{
    assert forall|c: int, r1: int, r2: int| #[trigger] v_run(b1, c, r1, r2) implies v_run_ok(
        b1,
        dict,
        c,
        r1,
        r2,
    ) by {
        if c == col && r1 <= r_hi && r_lo <= r2 {
            assert(v_run_ok(b1, dict, c, r1, r2));
        } else {
            assert forall|r: int| r1 - 1 <= r <= r2 + 1 && in_grid(r, c) implies #[trigger] b0.cell(
                r,
                c,
            ) == b1.cell(r, c) by {
                if c == col && r_lo <= r <= r_hi {
                    assert(b1.occ(r, col));
                    if r1 <= r <= r2 {
                        assert(r1 <= r_hi && r_lo <= r2);
                    } else if r == r1 - 1 {
                        assert(!b1.occ(r1 - 1, c));
                    } else {
                        assert(r == r2 + 1);
                        assert(!b1.occ(r2 + 1, c));
                    }
                }
            }
            lemma_v_run_transfer(b1, b0, c, r1, r2);
            assert(v_run(b0, c, r1, r2));
        }
    }
    assert forall|r: int, c1: int, c2: int| #[trigger] h_run(b1, r, c1, c2) implies h_run_ok(
        b1,
        dict,
        r,
        c1,
        c2,
    ) by {
        if r_lo <= r <= r_hi && c1 <= col <= c2 {
            assert(h_run_ok(b1, dict, r, c1, c2));
        } else {
            assert forall|c: int| c1 - 1 <= c <= c2 + 1 && in_grid(r, c) implies #[trigger] b0.cell(
                r,
                c,
            ) == b1.cell(r, c) by {
                if c == col && r_lo <= r <= r_hi {
                    assert(b1.occ(r, col));
                    if c1 <= c <= c2 {
                        assert(c1 <= col <= c2);
                    } else if c == c1 - 1 {
                        assert(!b1.occ(r, c1 - 1));
                    } else {
                        assert(c == c2 + 1);
                        assert(!b1.occ(r, c2 + 1));
                    }
                }
            }
            lemma_h_run_transfer(b1, b0, r, c1, c2);
            assert(h_run(b0, r, c1, c2));
        }
    }
}

/// A board holding exactly one horizontal word is valid when that word is in
/// the list (or is a single letter).
pub proof fn lemma_single_word_board_valid(
    b: Board,
    dict: Seq<Seq<usize>>,
    row: int,
    c_lo: int,
    c_hi: int,
)
    requires
        b.wf(),
        c_lo <= c_hi,
        in_grid(row, c_lo),
        in_grid(row, c_hi),
        forall|r: int, c: int| #[trigger] b.occ(r, c) <==> (r == row && c_lo <= c <= c_hi),
        c_lo < c_hi ==> dict.contains(h_word_at(b, row, c_lo, c_hi)),
    ensures
        valid_board(b, dict),
{
    assert forall|r: int, c1: int, c2: int| #[trigger] h_run(b, r, c1, c2) implies h_run_ok(
        b,
        dict,
        r,
        c1,
        c2,
    ) by {
        assert(b.occ(r, c1));
        assert(b.occ(r, c2));
        assert(r == row && c_lo <= c1 <= c_hi);
        assert(c_lo <= c2 <= c_hi);
        if c1 > c_lo {
            assert(b.occ(row, c1 - 1));
        }
        if c2 < c_hi {
            assert(b.occ(row, c2 + 1));
        }
        assert(c1 == c_lo && c2 == c_hi);
    }
    assert forall|c: int, r1: int, r2: int| #[trigger] v_run(b, c, r1, r2) implies v_run_ok(
        b,
        dict,
        c,
        r1,
        r2,
    ) by {
        if r1 < r2 {
            assert(b.occ(r1, c));
            assert(b.occ(r2, c));
        }
    }
}

} // verus!

verus! {

/// Checks the whole board at once: true exactly when every maximal run of
/// two or more tiles is a word of the list.
pub fn is_whole_board_valid(
    board: &Board,
    words_list: &Vec<Vec<usize>>,
    min_col: usize,
    max_col: usize,
    min_row: usize,
    max_row: usize,
) -> (res: bool)
    requires
        board.wf(),
        crate::search::bbox_wf(min_col as int, max_col as int, min_row as int, max_row as int),
        crate::search::occ_within(
            *board,
            min_col as int,
            max_col as int,
            min_row as int,
            max_row as int,
        ),
    ensures
        res == valid_board(*board, words_view(words_list@)),
{
    let ghost dict: Seq<Seq<usize>> = words_view(words_list@);
    proof {
        assert forall|rr: int, c1: int, c2: int|
            #[trigger] h_run(*board, rr, c1, c2) && rr < min_row implies h_run_ok(
            *board,
            dict,
            rr,
            c1,
            c2,
        ) by {
            assert(board.occ(rr, c1));
        }
    }
    let mut r = min_row;
    while r <= max_row
        invariant
            board.wf(),
            dict == words_view(words_list@),
            crate::search::bbox_wf(min_col as int, max_col as int, min_row as int, max_row as int),
            crate::search::occ_within(
                *board,
                min_col as int,
                max_col as int,
                min_row as int,
                max_row as int,
            ),
            min_row <= r,
            r <= max_row + 1,
            forall|rr: int, c1: int, c2: int|
                #[trigger] h_run(*board, rr, c1, c2) && rr < r ==> h_run_ok(*board, dict, rr, c1, c2),
        decreases max_row + 1 - r,
    {
        proof {
            assert forall|c1: int, c2: int|
                #[trigger] h_run(*board, r as int, c1, c2) && c1 < min_col implies h_run_ok(
                *board,
                dict,
                r as int,
                c1,
                c2,
            ) by {
                assert(board.occ(r as int, c1));
            }
        }
        let mut c = min_col;
        while c <= max_col
            invariant
                board.wf(),
                dict == words_view(words_list@),
                crate::search::bbox_wf(
                    min_col as int,
                    max_col as int,
                    min_row as int,
                    max_row as int,
                ),
                crate::search::occ_within(
                    *board,
                    min_col as int,
                    max_col as int,
                    min_row as int,
                    max_row as int,
                ),
                min_row <= r <= max_row,
                min_col <= c,
                c <= max_col + 1,
                forall|rr: int, c1: int, c2: int|
                    #[trigger] h_run(*board, rr, c1, c2) && rr < r ==> h_run_ok(
                        *board,
                        dict,
                        rr,
                        c1,
                        c2,
                    ),
                forall|c1: int, c2: int|
                    #[trigger] h_run(*board, r as int, c1, c2) && c1 < c ==> h_run_ok(
                        *board,
                        dict,
                        r as int,
                        c1,
                        c2,
                    ),
            decreases max_col + 1 - c,
        {
            if board.get_val(r, c) != EMPTY_VALUE {
                let starts = c == 0 || board.get_val(r, c - 1) == EMPTY_VALUE;
                if starts {
                    if !check_run_h(board, words_list, r, c) {
                        proof {
                            let (c1, c2) = choose|c1: int, c2: int|
                                #[trigger] h_run(*board, r as int, c1, c2) && c1 <= c <= c2
                                    && !h_run_ok(*board, dict, r as int, c1, c2);
                            assert(!valid_board(*board, dict));
                        }
                        return false;
                    }
                }
            }
            proof {
                assert forall|c1: int, c2: int|
                    #[trigger] h_run(*board, r as int, c1, c2) && c1 < c + 1 implies h_run_ok(
                    *board,
                    dict,
                    r as int,
                    c1,
                    c2,
                ) by {
                    if c1 == c {
                        assert(board.occ(r as int, c as int));
                        assert(!board.occ(r as int, c as int - 1));
                    }
                }
            }
            c += 1;
        }
        proof {
            assert forall|rr: int, c1: int, c2: int|
                #[trigger] h_run(*board, rr, c1, c2) && rr < r + 1 implies h_run_ok(
                *board,
                dict,
                rr,
                c1,
                c2,
            ) by {
                if rr == r {
                    assert(board.occ(rr, c1));
                    assert(c1 <= max_col);
                }
            }
        }
        r += 1;
    }
    proof {
        assert forall|cc: int, r1: int, r2: int|
            #[trigger] v_run(*board, cc, r1, r2) && cc < min_col implies v_run_ok(
            *board,
            dict,
            cc,
            r1,
            r2,
        ) by {
            assert(board.occ(r1, cc));
        }
    }
    let mut col = min_col;
    while col <= max_col
        invariant
            board.wf(),
            dict == words_view(words_list@),
            crate::search::bbox_wf(min_col as int, max_col as int, min_row as int, max_row as int),
            crate::search::occ_within(
                *board,
                min_col as int,
                max_col as int,
                min_row as int,
                max_row as int,
            ),
            min_col <= col,
            col <= max_col + 1,
            forall|rr: int, c1: int, c2: int|
                #[trigger] h_run(*board, rr, c1, c2) && rr <= max_row ==> h_run_ok(
                    *board,
                    dict,
                    rr,
                    c1,
                    c2,
                ),
            forall|cc: int, r1: int, r2: int|
                #[trigger] v_run(*board, cc, r1, r2) && cc < col ==> v_run_ok(
                    *board,
                    dict,
                    cc,
                    r1,
                    r2,
                ),
        decreases max_col + 1 - col,
    {
        proof {
            assert forall|r1: int, r2: int|
                #[trigger] v_run(*board, col as int, r1, r2) && r1 < min_row implies v_run_ok(
                *board,
                dict,
                col as int,
                r1,
                r2,
            ) by {
                assert(board.occ(r1, col as int));
            }
        }
        let mut row = min_row;
        while row <= max_row
            invariant
                board.wf(),
                dict == words_view(words_list@),
                crate::search::bbox_wf(
                    min_col as int,
                    max_col as int,
                    min_row as int,
                    max_row as int,
                ),
                crate::search::occ_within(
                    *board,
                    min_col as int,
                    max_col as int,
                    min_row as int,
                    max_row as int,
                ),
                min_col <= col <= max_col,
                min_row <= row,
                row <= max_row + 1,
                forall|cc: int, r1: int, r2: int|
                    #[trigger] v_run(*board, cc, r1, r2) && cc < col ==> v_run_ok(
                        *board,
                        dict,
                        cc,
                        r1,
                        r2,
                    ),
                forall|r1: int, r2: int|
                    #[trigger] v_run(*board, col as int, r1, r2) && r1 < row ==> v_run_ok(
                        *board,
                        dict,
                        col as int,
                        r1,
                        r2,
                    ),
            decreases max_row + 1 - row,
        {
            if board.get_val(row, col) != EMPTY_VALUE {
                let starts = row == 0 || board.get_val(row - 1, col) == EMPTY_VALUE;
                if starts {
                    if !check_run_v(board, words_list, row, col) {
                        proof {
                            let (r1, r2) = choose|r1: int, r2: int|
                                #[trigger] v_run(*board, col as int, r1, r2) && r1 <= row <= r2
                                    && !v_run_ok(*board, dict, col as int, r1, r2);
                            assert(!valid_board(*board, dict));
                        }
                        return false;
                    }
                }
            }
            proof {
                assert forall|r1: int, r2: int|
                    #[trigger] v_run(*board, col as int, r1, r2) && r1 < row + 1 implies v_run_ok(
                    *board,
                    dict,
                    col as int,
                    r1,
                    r2,
                ) by {
                    if r1 == row {
                        assert(board.occ(row as int, col as int));
                        assert(!board.occ(row as int - 1, col as int));
                    }
                }
            }
            row += 1;
        }
        proof {
            assert forall|cc: int, r1: int, r2: int|
                #[trigger] v_run(*board, cc, r1, r2) && cc < col + 1 implies v_run_ok(
                *board,
                dict,
                cc,
                r1,
                r2,
            ) by {
                if cc == col {
                    assert(board.occ(r1, cc));
                    assert(r1 <= max_row);
                }
            }
        }
        col += 1;
    }
    proof {
        assert forall|rr: int, c1: int, c2: int| #[trigger] h_run(*board, rr, c1, c2) implies h_run_ok(
            *board,
            dict,
            rr,
            c1,
            c2,
        ) by {
            assert(board.occ(rr, c1));
        }
        assert forall|cc: int, r1: int, r2: int| #[trigger] v_run(*board, cc, r1, r2) implies v_run_ok(
            *board,
            dict,
            cc,
            r1,
            r2,
        ) by {
            assert(board.occ(r1, cc));
        }
    }
    true
}

} // verus!
