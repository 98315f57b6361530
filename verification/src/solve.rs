//! The top-level operations: solving a hand from scratch, extending a prior
//! solution, listing playable words, and rendering results.

use vstd::prelude::*;
use vstd::pervasive::VecAdditionalExecFns;
use vstd::string::StrSliceExecFns;
use vstd::string::StringExecFns;
use crate::board::{
    copy_vec, counts_match, count_val, in_grid, letters_wf, placed_has_cell, word_wf, Board,
    lemma_count_val_up_to_bounds, BOARD_AREA, BOARD_SIZE, EMPTY_VALUE, LETTER_COUNT,
};
use crate::words::{
    convert_array_to_word, is_makeable, letter_char, letter_str, makeable, word_chars,
    words_list_wf, words_view, Dictionary,
};

use crate::validity::valid_board;
use crate::connectivity::connected_board;
use crate::search::{
    bbox_tight, bbox_wf, occ_within, lemma_connected_congruence, lemma_tight_congruence,
    lemma_valid_board_congruence,
};

verus! {

/// The two terminal failures of a solve.
#[derive(Copy, Clone, PartialEq, Eq, Structural, Debug)]
pub enum SolveError {
    /// The hand can build no dictionary word at all.
    NoValidWords,
    /// The search exhausted its options or its budget.
    NoSolution,
}

impl SolveError {
    /// The user-visible message of the failure.
    pub fn message(&self) -> (r: String)
        ensures
            *self == SolveError::NoValidWords ==> r@
                == "No valid words can be formed from the current letters - dump and try again!"@,
            *self == SolveError::NoSolution ==> r@ == "No solution found - dump and try again!"@,
    {
        match self {
            SolveError::NoValidWords => String::from_str(
                "No valid words can be formed from the current letters - dump and try again!",
            ),
            SolveError::NoSolution => String::from_str("No solution found - dump and try again!"),
        }
    }
}

/// A solved arrangement, as handed back to the host.
pub struct Solution {
    /// Flattened board, row-major: letter indices and empty cells.
    pub board: Vec<usize>,
    /// The occupied window of the board rendered as strings, one cell each:
    /// a letter, a letter starred as overlapping the prior board, or a
    /// space.
    pub board_string: Vec<Vec<String>>,
    /// The hand the solution was built from.
    pub letters: Vec<usize>,
    /// Minimum occupied column.
    pub min_col: usize,
    /// Maximum occupied column.
    pub max_col: usize,
    /// Minimum occupied row.
    pub min_row: usize,
    /// Maximum occupied row.
    pub max_row: usize,
}

/// Words playable from a hand alone, for each dictionary.
pub struct PlayableWords {
    /// Playable words of the shorter dictionary.
    pub short: Vec<String>,
    /// Playable words of the full dictionary.
    pub long: Vec<String>,
}

/// Every board value holding these cells is valid: the per-cell content of
/// a returned board satisfies the word rule.
pub open spec fn seq_valid(v: Seq<usize>, dict: Seq<Seq<usize>>) -> bool {
    forall|b: Board| #[trigger] b@ == v ==> valid_board(b, dict)
}

/// Every board value holding these cells has one connected placed mass.
pub open spec fn seq_connected(v: Seq<usize>) -> bool {
    forall|b: Board| #[trigger] b@ == v ==> connected_board(b)
}

/// Every board value holding these cells keeps its placed cells inside the
/// box.
pub open spec fn seq_within(
    v: Seq<usize>,
    min_col: int,
    max_col: int,
    min_row: int,
    max_row: int,
) -> bool {
    forall|b: Board| #[trigger] b@ == v ==> occ_within(b, min_col, max_col, min_row, max_row)
}

/// Every board value holding these cells achieves each side of the box.
pub open spec fn seq_tight(
    v: Seq<usize>,
    min_col: int,
    max_col: int,
    min_row: int,
    max_row: int,
) -> bool {
    forall|b: Board| #[trigger] b@ == v ==> bbox_tight(b, min_col, max_col, min_row, max_row)
}

/// The rendering of one cell: a space when empty, the letter, starred when
/// the cell overlaps the prior board.
pub open spec fn render_cell(v: Seq<usize>, prev: Seq<(usize, usize)>, r: int, c: int) -> Seq<
    char,
> {
    if v[r * 144 + c] == EMPTY_VALUE {
        seq![' ']
    } else if placed_has_cell(prev, r, c) {
        seq![letter_char(v[r * 144 + c] as int), '*']
    } else {
        seq![letter_char(v[r * 144 + c] as int)]
    }
}

/// One rendered cell, with the star decided by a boolean.
pub open spec fn rendered_cell(v: Seq<usize>, starred: bool, r: int, c: int) -> Seq<char> {
    if v[r * 144 + c] == EMPTY_VALUE {
        seq![' ']
    } else if starred {
        seq![letter_char(v[r * 144 + c] as int), '*']
    } else {
        seq![letter_char(v[r * 144 + c] as int)]
    }
}

/// Whether the returned rendering stars `(r, c)`: a prior board was given,
/// the cell lies in both occupied windows, and both boards hold the same
/// letter there.
pub open spec fn overlap_marked(
    old: Seq<usize>,
    omin_col: int,
    omax_col: int,
    omin_row: int,
    omax_row: int,
    v: Seq<usize>,
    nmin_col: int,
    nmax_col: int,
    nmin_row: int,
    nmax_row: int,
    r: int,
    c: int,
) -> bool {
    &&& old.len() != 0
    &&& (if omin_row >= nmin_row {
        omin_row
    } else {
        nmin_row
    }) <= r <= (if omax_row <= nmax_row {
        omax_row
    } else {
        nmax_row
    })
    &&& (if omin_col >= nmin_col {
        omin_col
    } else {
        nmin_col
    }) <= c <= (if omax_col <= nmax_col {
        omax_col
    } else {
        nmax_col
    })
    &&& old[r * 144 + c] != EMPTY_VALUE
    &&& old[r * 144 + c] == v[r * 144 + c]
}

/// The `board_string` of a solution covers its bounding box and renders
/// each cell of the board, starred exactly where `overlap_marked` says.
pub open spec fn solution_rendered(
    sol: Solution,
    old: Seq<usize>,
    omin_col: int,
    omax_col: int,
    omin_row: int,
    omax_row: int,
) -> bool {
    &&& sol.board_string@.len() == sol.max_row + 1 - sol.min_row
    &&& forall|i: int|
        0 <= i < sol.board_string@.len() ==> (#[trigger] sol.board_string@[i])@.len()
            == sol.max_col + 1 - sol.min_col
    &&& forall|i: int, j: int|
        0 <= i < sol.board_string@.len() && 0 <= j < sol.board_string@[i]@.len() ==> (
        #[trigger] sol.board_string@[i]@[j])@ == rendered_cell(
            sol.board@,
            overlap_marked(
                old,
                omin_col,
                omax_col,
                omin_row,
                omax_row,
                sol.board@,
                sol.min_col as int,
                sol.max_col as int,
                sol.min_row as int,
                sol.max_row as int,
                sol.min_row + i,
                sol.min_col + j,
            ),
            sol.min_row + i,
            sol.min_col + j,
        )
}

/// The `board_string` of a solution, rendered without any overlap marks.
pub open spec fn solution_rendered_plain(sol: Solution) -> bool {
    &&& sol.board_string@.len() == sol.max_row + 1 - sol.min_row
    &&& forall|i: int|
        0 <= i < sol.board_string@.len() ==> (#[trigger] sol.board_string@[i])@.len()
            == sol.max_col + 1 - sol.min_col
    &&& forall|i: int, j: int|
        0 <= i < sol.board_string@.len() && 0 <= j < sol.board_string@[i]@.len() ==> (
        #[trigger] sol.board_string@[i]@[j])@ == rendered_cell(
            sol.board@,
            false,
            sol.min_row + i,
            sol.min_col + j,
        )
}

/// Renders the window of the board between the given bounds, one string per
/// cell, starring the cells listed in `previous_idxs`.
pub fn board_to_vec(
    board: &Board,
    min_col: usize,
    max_col: usize,
    min_row: usize,
    max_row: usize,
    previous_idxs: &Vec<(usize, usize)>,
) -> (res: Vec<Vec<String>>)
    requires
        board.wf(),
        bbox_wf(min_col as int, max_col as int, min_row as int, max_row as int),
    ensures
        res@.len() == max_row + 1 - min_row,
        forall|i: int| 0 <= i < res@.len() ==> (#[trigger] res@[i])@.len() == max_col + 1 - min_col,
        forall|i: int, j: int|
            0 <= i < res@.len() && 0 <= j < res@[i]@.len() ==> (#[trigger] res@[i]@[j])@
                == render_cell(board@, previous_idxs@, min_row + i, min_col + j),
{
    let mut board_vec: Vec<Vec<String>> = Vec::new();
    let mut row = min_row;
    while row <= max_row
        invariant
            board.wf(),
            bbox_wf(min_col as int, max_col as int, min_row as int, max_row as int),
            min_row <= row,
            row <= max_row + 1,
            board_vec@.len() == row - min_row,
            forall|i: int|
                0 <= i < board_vec@.len() ==> (#[trigger] board_vec@[i])@.len() == max_col + 1
                    - min_col,
            forall|i: int, j: int|
                0 <= i < board_vec@.len() && 0 <= j < board_vec@[i]@.len() ==> (
                #[trigger] board_vec@[i]@[j])@ == render_cell(
                    board@,
                    previous_idxs@,
                    min_row + i,
                    min_col + j,
                ),
        decreases max_row + 1 - row,
    {
        let mut row_vec: Vec<String> = Vec::new();
        let mut col = min_col;
        while col <= max_col
            invariant
                board.wf(),
                bbox_wf(min_col as int, max_col as int, min_row as int, max_row as int),
                row <= max_row,
                min_col <= col,
                col <= max_col + 1,
                row_vec@.len() == col - min_col,
                forall|j: int|
                    0 <= j < row_vec@.len() ==> (#[trigger] row_vec@[j])@ == render_cell(
                        board@,
                        previous_idxs@,
                        row as int,
                        min_col + j,
                    ),
            decreases max_col + 1 - col,
        {
            let val = board.get_val(row, col);
            let cell = if val == EMPTY_VALUE {
                let s = String::from_str(" ");
                proof {
                    reveal_strlit(" ");
                    assert(s@ =~= seq![' ']);
                }
                s
            } else {
                let in_prev = crate::connectivity::cell_in_list(previous_idxs, row, col);
                if in_prev {
                    let s = String::from_str(letter_str(val));
                    let starred = s.concat("*");
                    proof {
                        reveal_strlit("*");
                        assert(starred@ =~= seq![letter_char(val as int), '*']);
                    }
                    starred
                } else {
                    let s = String::from_str(letter_str(val));
                    proof {
                        assert(s@ =~= seq![letter_char(val as int)]);
                    }
                    s
                }
            };
            row_vec.push(cell);
            col += 1;
        }
        board_vec.push(row_vec);
        row += 1;
    }
    board_vec
}

/// Collects the cells where the two boards hold the same letter, within the
/// intersection of their occupied windows.
pub fn get_board_overlap(
    previous_board: &Board,
    new_board: &Board,
    previous_min_col: usize,
    previous_max_col: usize,
    previous_min_row: usize,
    previous_max_row: usize,
    new_min_col: usize,
    new_max_col: usize,
    new_min_row: usize,
    new_max_row: usize,
) -> (res: Vec<(usize, usize)>)
    requires
        previous_board.wf(),
        new_board.wf(),
        bbox_wf(
            previous_min_col as int,
            previous_max_col as int,
            previous_min_row as int,
            previous_max_row as int,
        ),
        bbox_wf(new_min_col as int, new_max_col as int, new_min_row as int, new_max_row as int),
    ensures
        forall|r: int, c: int|
            #[trigger] placed_has_cell(res@, r, c) <==> ((if previous_min_row >= new_min_row {
                previous_min_row as int
            } else {
                new_min_row as int
            }) <= r <= (if previous_max_row <= new_max_row {
                previous_max_row as int
            } else {
                new_max_row as int
            }) && (if previous_min_col >= new_min_col {
                previous_min_col as int
            } else {
                new_min_col as int
            }) <= c <= (if previous_max_col <= new_max_col {
                previous_max_col as int
            } else {
                new_max_col as int
            }) && previous_board.occ(r, c) && previous_board.cell(r, c) == new_board.cell(r, c)),
{
    let row_lo = if previous_min_row >= new_min_row {
        previous_min_row
    } else {
        new_min_row
    };
    let row_hi = if previous_max_row <= new_max_row {
        previous_max_row
    } else {
        new_max_row
    };
    let col_lo = if previous_min_col >= new_min_col {
        previous_min_col
    } else {
        new_min_col
    };
    let col_hi = if previous_max_col <= new_max_col {
        previous_max_col
    } else {
        new_max_col
    };
    let mut res: Vec<(usize, usize)> = Vec::new();
    if row_lo > row_hi || col_lo > col_hi {
        proof {
            assert forall|rr: int, cc: int| !(#[trigger] placed_has_cell(res@, rr, cc)) by {
                if placed_has_cell(res@, rr, cc) {
                    let k = choose|k: int|
                        0 <= k < res@.len() && (#[trigger] res@[k]).0 == rr && res@[k].1 == cc;
                }
            }
        }
        return res;
    }
    let mut r = row_lo;
    while r <= row_hi
        invariant
            previous_board.wf(),
            new_board.wf(),
            row_lo <= r,
            r <= row_hi + 1,
            row_hi < BOARD_SIZE,
            col_lo <= col_hi,
            col_hi < BOARD_SIZE,
            forall|rr: int, cc: int|
                #[trigger] placed_has_cell(res@, rr, cc) <==> (row_lo <= rr < r && col_lo <= cc
                    <= col_hi && previous_board.occ(rr, cc) && previous_board.cell(rr, cc)
                    == new_board.cell(rr, cc)),
        decreases row_hi + 1 - r,
    {
        let mut c = col_lo;
        while c <= col_hi
            invariant
                previous_board.wf(),
                new_board.wf(),
                r <= row_hi < BOARD_SIZE,
                row_lo <= r,
                col_lo <= c,
                c <= col_hi + 1,
                col_hi < BOARD_SIZE,
                forall|rr: int, cc: int|
                    #[trigger] placed_has_cell(res@, rr, cc) <==> ((row_lo <= rr < r && col_lo
                        <= cc <= col_hi && previous_board.occ(rr, cc) && previous_board.cell(
                        rr,
                        cc,
                    ) == new_board.cell(rr, cc)) || (rr == r && col_lo <= cc < c
                        && previous_board.occ(rr, cc) && previous_board.cell(rr, cc)
                        == new_board.cell(rr, cc))),
            decreases col_hi + 1 - c,
        {
            let pv = previous_board.get_val(r, c);
            if pv != EMPTY_VALUE && pv == new_board.get_val(r, c) {
                let ghost res0: Seq<(usize, usize)> = res@;
                res.push((r, c));
                proof {
                    assert(res@[res0.len() as int] == (r, c));
                    assert forall|rr: int, cc: int| #[trigger] placed_has_cell(res@, rr, cc) <==> ((
                    row_lo <= rr < r && col_lo <= cc <= col_hi && previous_board.occ(rr, cc)
                        && previous_board.cell(rr, cc) == new_board.cell(rr, cc)) || (rr == r
                        && col_lo <= cc < c + 1 && previous_board.occ(rr, cc)
                        && previous_board.cell(rr, cc) == new_board.cell(rr, cc))) by {
                        if placed_has_cell(res@, rr, cc) {
                            let k = choose|k: int|
                                0 <= k < res@.len() && (#[trigger] res@[k]).0 == rr && res@[k].1
                                    == cc;
                            if k < res0.len() {
                                assert(res0[k] == res@[k]);
                                assert(placed_has_cell(res0, rr, cc));
                            }
                        }
                        if (row_lo <= rr < r && col_lo <= cc <= col_hi && previous_board.occ(
                            rr,
                            cc,
                        ) && previous_board.cell(rr, cc) == new_board.cell(rr, cc)) || (rr == r
                            && col_lo <= cc < c && previous_board.occ(rr, cc)
                            && previous_board.cell(rr, cc) == new_board.cell(rr, cc)) {
                            assert(placed_has_cell(res0, rr, cc));
                            let k = choose|k: int|
                                0 <= k < res0.len() && (#[trigger] res0[k]).0 == rr && res0[k].1
                                    == cc;
                            assert(res@[k] == res0[k]);
                        }
                    }
                }
            } else {
                proof {
                    assert forall|rr: int, cc: int|
                        placed_has_cell(res@, rr, cc) <==> ((row_lo <= rr < r && col_lo <= cc
                            <= col_hi && previous_board.occ(rr, cc) && previous_board.cell(rr, cc)
                            == new_board.cell(rr, cc)) || (rr == r && col_lo <= cc < c + 1
                            && previous_board.occ(rr, cc) && previous_board.cell(rr, cc)
                            == new_board.cell(rr, cc))) by {}
                }
            }
            c += 1;
        }
        r += 1;
    }
    res
}

/// Packages a solved board for the host.
pub fn build_solution(
    board: &Board,
    letters: &Vec<usize>,
    min_col: usize,
    max_col: usize,
    min_row: usize,
    max_row: usize,
    previous_idxs: &Vec<(usize, usize)>,
) -> (sol: Solution)
    requires
        board.wf(),
        bbox_wf(min_col as int, max_col as int, min_row as int, max_row as int),
    ensures
        sol.board@ == board@,
        sol.letters@ == letters@,
        sol.min_col == min_col,
        sol.max_col == max_col,
        sol.min_row == min_row,
        sol.max_row == max_row,
        sol.board_string@.len() == max_row + 1 - min_row,
        forall|i: int|
            0 <= i < sol.board_string@.len() ==> (#[trigger] sol.board_string@[i])@.len() == max_col
                + 1 - min_col,
        forall|i: int, j: int|
            0 <= i < sol.board_string@.len() && 0 <= j < sol.board_string@[i]@.len() ==> (
            #[trigger] sol.board_string@[i]@[j])@ == render_cell(
                board@,
                previous_idxs@,
                min_row + i,
                min_col + j,
            ),
{
    Solution {
        board: copy_vec(board.cells()),
        board_string: board_to_vec(board, min_col, max_col, min_row, max_row, previous_idxs),
        letters: copy_vec(letters),
        min_col,
        max_col,
        min_row,
        max_row,
    }
}

} // verus!

verus! {

use crate::validity::{h_run, v_run, h_run_ok, v_run_ok};
use crate::validity::lemma_single_word_board_valid;
use crate::connectivity::lemma_span_only_connected;
use crate::board::{on_span, Direction};
use crate::words::{lemma_count_val_take_succ, lemma_count_val_take_le, lemma_count_val_take_full,
    check_filter_after_play};
use crate::search::{play_further, search_inv};
use crate::existing::{compare_hands, hand_comparison, play_existing, LetterComparison};
use crate::search::play_one_letter;

/// A board valid against a word list is valid against any larger list.
pub proof fn lemma_valid_board_mono(b: Board, small: Seq<Seq<usize>>, big: Seq<Seq<usize>>)
    requires
        valid_board(b, small),
        forall|w: Seq<usize>| small.contains(w) ==> big.contains(w),
    ensures
        valid_board(b, big),
{
    assert forall|r: int, c1: int, c2: int| #[trigger] h_run(b, r, c1, c2) implies h_run_ok(
        b,
        big,
        r,
        c1,
        c2,
    ) by {
        assert(h_run_ok(b, small, r, c1, c2));
    }
    assert forall|c: int, r1: int, r2: int| #[trigger] v_run(b, c, r1, r2) implies v_run_ok(
        b,
        big,
        c,
        r1,
        r2,
    ) by {
        assert(v_run_ok(b, small, c, r1, r2));
    }
}

/// The words of the dictionary that the hand alone can build, in dictionary
/// order.
pub fn filter_makeable(dict_to_use: &Dictionary, letters: &Vec<usize>) -> (res: Vec<Vec<usize>>)
    requires
        dict_to_use.wf(),
        letters_wf(letters@),
    ensures
        words_list_wf(words_view(res@)),
        forall|j: int|
            0 <= j < res@.len() ==> dict_to_use@.contains(#[trigger] words_view(res@)[j])
                && makeable(words_view(res@)[j], letters@),
        forall|w: Seq<usize>|
            dict_to_use@.contains(w) && makeable(w, letters@) ==> words_view(res@).contains(w),
        forall|a: int, b: int|
            0 <= a < b < res@.len() ==> (#[trigger] words_view(res@)[a]).len()
                >= (#[trigger] words_view(res@)[b]).len(),
        words_view(res@) == playable_of(dict_to_use@, letters@),
        (res@.len() == 0) <==> (forall|w: Seq<usize>|
            dict_to_use@.contains(w) ==> !makeable(w, letters@)),
{
    let mut res: Vec<Vec<usize>> = Vec::new();
    proof {
        assert(words_view(res@) =~= playable_of(dict_to_use@.take(0), letters@));
    }
    let n = dict_to_use.words.len();
    let mut i: usize = 0;
    while i < n
        invariant
            dict_to_use.wf(),
            letters_wf(letters@),
            n == dict_to_use.words@.len(),
            i <= n,
            words_list_wf(words_view(res@)),
            forall|j: int|
                0 <= j < res@.len() ==> dict_to_use@.contains(#[trigger] words_view(res@)[j])
                    && makeable(words_view(res@)[j], letters@),
            forall|j: int|
                0 <= j < i && makeable(#[trigger] dict_to_use@[j], letters@) ==> words_view(
                    res@,
                ).contains(dict_to_use@[j]),
            forall|a: int, b: int|
                0 <= a < b < res@.len() ==> (#[trigger] words_view(res@)[a]).len()
                    >= (#[trigger] words_view(res@)[b]).len(),
            forall|a: int, j: int|
                0 <= a < res@.len() && i <= j < dict_to_use@.len() ==> (#[trigger] words_view(
                    res@,
                )[a]).len() >= (#[trigger] dict_to_use@[j]).len(),
            words_view(res@) == playable_of(dict_to_use@.take(i as int), letters@),
            (res@.len() == 0) ==> (forall|j: int|
                0 <= j < i ==> !makeable(#[trigger] dict_to_use@[j], letters@)),
        decreases n - i,
    {
        proof {
            assert(dict_to_use@[i as int] == dict_to_use.words@[i as int]@);
            assert(word_wf(dict_to_use@[i as int]));
            broadcast use vstd::prelude::Seq::lemma_filter_push;

            assert(dict_to_use@.take(i as int + 1) =~= dict_to_use@.take(i as int).push(
                dict_to_use@[i as int],
            ));
            if makeable(dict_to_use@[i as int], letters@) {
                assert(playable_of(
                    dict_to_use@.take(i as int).push(dict_to_use@[i as int]),
                    letters@,
                ) == playable_of(dict_to_use@.take(i as int), letters@).push(
                    dict_to_use@[i as int],
                ));
            } else {
                assert(playable_of(
                    dict_to_use@.take(i as int).push(dict_to_use@[i as int]),
                    letters@,
                ) == playable_of(dict_to_use@.take(i as int), letters@));
            }
        }
        if is_makeable(&dict_to_use.words[i], letters) {
            let ghost before: Seq<Vec<usize>> = res@;
            res.push(copy_vec(&dict_to_use.words[i]));
            proof {
                assert(dict_to_use@.contains(dict_to_use@[i as int]));
                assert(words_view(res@) =~= words_view(before).push(dict_to_use@[i as int]));
                assert forall|j: int|
                    0 <= j < res@.len() implies dict_to_use@.contains(
                    #[trigger] words_view(res@)[j],
                ) && makeable(words_view(res@)[j], letters@) && word_wf(words_view(res@)[j]) by {
                    if j < before.len() {
                        assert(words_view(res@)[j] == words_view(before)[j]);
                    } else {
                        assert(words_view(res@)[j] == dict_to_use.words@[i as int]@);
                    }
                }
                assert forall|j: int|
                    0 <= j < i + 1 && makeable(#[trigger] dict_to_use@[j], letters@)
                    implies words_view(res@).contains(dict_to_use@[j]) by {
                    if j < i {
                        crate::words::lemma_seq_contains_push(
                            words_view(before),
                            dict_to_use@[i as int],
                            dict_to_use@[j],
                        );
                    } else {
                        assert(words_view(res@)[before.len() as int] == dict_to_use@[i as int]);
                    }
                }
            }
        } else {
            proof {
                assert forall|j: int|
                    0 <= j < i + 1 && makeable(#[trigger] dict_to_use@[j], letters@)
                    implies words_view(res@).contains(dict_to_use@[j]) by {}
            }
        }
        i += 1;
    }
    proof {
        assert(dict_to_use@.take(n as int) =~= dict_to_use@);
        assert forall|w: Seq<usize>|
            dict_to_use@.contains(w) && makeable(w, letters@) implies words_view(
            res@,
        ).contains(w) by {
            let j = choose|j: int| 0 <= j < dict_to_use@.len() && dict_to_use@[j] == w;
        }
        if res@.len() == 0 {
            assert forall|w: Seq<usize>|
                dict_to_use@.contains(w) implies !makeable(w, letters@) by {
                let j = choose|j: int| 0 <= j < dict_to_use@.len() && dict_to_use@[j] == w;
            }
        } else {
            assert(dict_to_use@.contains(words_view(res@)[0]) && makeable(
                words_view(res@)[0],
                letters@,
            ));
        }
    }
    res
}

/// The words of the list that the hand alone can build.
pub open spec fn playable_of(dict: Seq<Seq<usize>>, h: Seq<usize>) -> Seq<Seq<usize>> {
    dict.filter(|w: Seq<usize>| makeable(w, h))
}

/// Renders every makeable word of a dictionary, in dictionary order.
pub fn render_playable(dict_to_use: &Dictionary, letters: &Vec<usize>) -> (res: Vec<String>)
    requires
        dict_to_use.wf(),
        letters_wf(letters@),
    ensures
        res@.len() == playable_of(dict_to_use@, letters@).len(),
        forall|i: int|
            0 <= i < res@.len() ==> (#[trigger] res@[i])@ == word_chars(
                playable_of(dict_to_use@, letters@)[i],
            ),
{
    let mut res: Vec<String> = Vec::new();
    let n = dict_to_use.words.len();
    let mut i: usize = 0;
    while i < n
        invariant
            dict_to_use.wf(),
            letters_wf(letters@),
            n == dict_to_use.words@.len(),
            i <= n,
            res@.len() == playable_of(dict_to_use@.take(i as int), letters@).len(),
            forall|j: int|
                0 <= j < res@.len() ==> (#[trigger] res@[j])@ == word_chars(
                    playable_of(dict_to_use@.take(i as int), letters@)[j],
                ),
        decreases n - i,
    {
        proof {
            assert(dict_to_use@[i as int] == dict_to_use.words@[i as int]@);
            assert(word_wf(dict_to_use@[i as int]));
            assert(dict_to_use@.take(i as int + 1).drop_last() =~= dict_to_use@.take(i as int));
            assert(dict_to_use@.take(i as int + 1).last() == dict_to_use@[i as int]);
        }
        if is_makeable(&dict_to_use.words[i], letters) {
            res.push(convert_array_to_word(&dict_to_use.words[i]));
            proof {
                broadcast use vstd::prelude::Seq::lemma_filter_push;

                let x = dict_to_use@[i as int];
                assert(dict_to_use@.take(i as int + 1) =~= dict_to_use@.take(i as int).push(x));
                assert(playable_of(dict_to_use@.take(i as int).push(x), letters@) == playable_of(
                    dict_to_use@.take(i as int),
                    letters@,
                ).push(x));
            }
        } else {
            proof {
                broadcast use vstd::prelude::Seq::lemma_filter_push;

                let x = dict_to_use@[i as int];
                assert(dict_to_use@.take(i as int + 1) =~= dict_to_use@.take(i as int).push(x));
                assert(playable_of(dict_to_use@.take(i as int).push(x), letters@) == playable_of(
                    dict_to_use@.take(i as int),
                    letters@,
                ));
            }
        }
        i += 1;
    }
    proof {
        assert(dict_to_use@.take(n as int) =~= dict_to_use@);
    }
    res
}

/// Lists the words of each dictionary that the hand alone can build, in
/// stored (length-descending) order.
pub fn get_playable_words(
    letters_array: &Vec<usize>,
    short_dict: &Dictionary,
    full_dict: &Dictionary,
) -> (res: PlayableWords)
    requires
        letters_wf(letters_array@),
        short_dict.wf(),
        full_dict.wf(),
    ensures
        res.short@.len() == playable_of(short_dict@, letters_array@).len(),
        forall|i: int|
            0 <= i < res.short@.len() ==> (#[trigger] res.short@[i])@ == word_chars(
                playable_of(short_dict@, letters_array@)[i],
            ),
        res.long@.len() == playable_of(full_dict@, letters_array@).len(),
        forall|i: int|
            0 <= i < res.long@.len() ==> (#[trigger] res.long@[i])@ == word_chars(
                playable_of(full_dict@, letters_array@)[i],
            ),
{
    PlayableWords {
        short: render_playable(short_dict, letters_array),
        long: render_playable(full_dict, letters_array),
    }
}

} // verus!

verus! {

/// Some word of the list uses, letter for letter, exactly the tiles of the
/// hand.
pub open spec fn exact_cover_exists(dict: Seq<Seq<usize>>, h: Seq<usize>) -> bool {
    exists|w: Seq<usize>|
        #[trigger] dict.contains(w) && (forall|l: int|
            0 <= l < LETTER_COUNT ==> count_val(w, ((l as usize))) == h[l])
}

/// What every returned solution satisfies: the hand is echoed back, the
/// board's tiles are exactly the hand, every placed cell lies in the
/// reported bounding box, the box is tight, and the placed mass is one
/// 4-connected component.
pub open spec fn solution_sound(sol: Solution, letters: Seq<usize>) -> bool {
    &&& sol.letters@ == letters
    &&& sol.board@.len() == BOARD_AREA
    &&& forall|i: int|
        0 <= i < sol.board@.len() ==> (#[trigger] sol.board@[i] < LETTER_COUNT || sol.board@[i]
            == EMPTY_VALUE)
    &&& forall|l: int|
        0 <= l < LETTER_COUNT ==> count_val(sol.board@, (l as usize)) == #[trigger] letters[l]
    &&& bbox_wf(sol.min_col as int, sol.max_col as int, sol.min_row as int, sol.max_row as int)
    &&& seq_within(
        sol.board@,
        sol.min_col as int,
        sol.max_col as int,
        sol.min_row as int,
        sol.max_row as int,
    )
    &&& seq_connected(sol.board@)
    &&& seq_tight(
        sol.board@,
        sol.min_col as int,
        sol.max_col as int,
        sol.min_row as int,
        sol.max_row as int,
    )
}

/// A raw board from the host is a full grid of letters and empty cells.
pub open spec fn raw_board_wf(v: Seq<usize>) -> bool {
    &&& v.len() == BOARD_AREA
    &&& forall|i: int| 0 <= i < v.len() ==> (#[trigger] v[i] < LETTER_COUNT || v[i] == EMPTY_VALUE)
}

/// Computes the overlap annotation against a prior board, when one was
/// given.
fn overlap_annotation(
    old_board: &Vec<usize>,
    old_min_col: usize,
    old_max_col: usize,
    old_min_row: usize,
    old_max_row: usize,
    board: &Board,
    min_col: usize,
    max_col: usize,
    min_row: usize,
    max_row: usize,
) -> (res: Vec<(usize, usize)>)
    requires
        old_board@.len() == 0 || (raw_board_wf(old_board@) && bbox_wf(
            old_min_col as int,
            old_max_col as int,
            old_min_row as int,
            old_max_row as int,
        )),
        board.wf(),
        bbox_wf(min_col as int, max_col as int, min_row as int, max_row as int),
    ensures
        forall|r: int, c: int|
            #[trigger] placed_has_cell(res@, r, c) <==> overlap_marked(
                old_board@,
                old_min_col as int,
                old_max_col as int,
                old_min_row as int,
                old_max_row as int,
                board@,
                min_col as int,
                max_col as int,
                min_row as int,
                max_row as int,
                r,
                c,
            ),
{
    if old_board.len() == 0 {
        let res: Vec<(usize, usize)> = Vec::new();
        proof {
            assert forall|r: int, c: int| !(#[trigger] placed_has_cell(res@, r, c)) by {
                if placed_has_cell(res@, r, c) {
                    let k = choose|k: int|
                        0 <= k < res@.len() && (#[trigger] res@[k]).0 == r && res@[k].1 == c;
                }
            }
        }
        return res;
    }
    {
        let prev = Board::from_vec(copy_vec(old_board));
        let res = get_board_overlap(
            &prev,
            board,
            old_min_col,
            old_max_col,
            old_min_row,
            old_max_row,
            min_col,
            max_col,
            min_row,
            max_row,
        );
        proof {
            assert forall|r: int, c: int| #[trigger] placed_has_cell(res@, r, c) <==> overlap_marked(
                old_board@,
                old_min_col as int,
                old_max_col as int,
                old_min_row as int,
                old_max_row as int,
                board@,
                min_col as int,
                max_col as int,
                min_row as int,
                max_row as int,
                r,
                c,
            ) by {
                if overlap_marked(
                    old_board@,
                    old_min_col as int,
                    old_max_col as int,
                    old_min_row as int,
                    old_max_row as int,
                    board@,
                    min_col as int,
                    max_col as int,
                    min_row as int,
                    max_row as int,
                    r,
                    c,
                ) {
                    assert(prev.occ(r, c));
                    assert(prev.cell(r, c) == board.cell(r, c));
                }
                if placed_has_cell(res@, r, c) {
                    assert(prev.occ(r, c));
                }
            }
        }
        res
    }
}

/// Builds a full arrangement of the hand on an empty board: each opening
/// word is laid on the centre row in turn and the rest of the hand searched
/// recursively around it.  Success returns a solution holding exactly the
/// hand, valid against the dictionary, connected and tightly boxed; the
/// no-valid-words error comes exactly when no dictionary word can be built
/// from the hand; otherwise the search space or budget ran out.
#[verifier::rlimit(100)]
pub fn play_from_scratch(
    letters_array: &Vec<usize>,
    dict_to_use: &Dictionary,
    filter_letters_on_board: usize,
    max_words_to_check: usize,
    old_board: &Vec<usize>,
    old_min_col: usize,
    old_max_col: usize,
    old_min_row: usize,
    old_max_row: usize,
) -> (res: Result<Solution, SolveError>)
    requires
        letters_wf(letters_array@),
        forall|l: int| 0 <= l < LETTER_COUNT ==> #[trigger] letters_array@[l] <= BOARD_AREA,
        dict_to_use.wf(),
        old_board@.len() == 0 || (raw_board_wf(old_board@) && bbox_wf(
            old_min_col as int,
            old_max_col as int,
            old_min_row as int,
            old_max_row as int,
        )),
    ensures
        (res == Result::<Solution, SolveError>::Err(SolveError::NoValidWords)) <==> (forall|
            w: Seq<usize>,
        | dict_to_use@.contains(w) ==> !makeable(w, letters_array@)),
        res matches Ok(sol) ==> solution_sound(sol, letters_array@) && seq_valid(
            sol.board@,
            dict_to_use@,
        ) && solution_rendered(
            sol,
            old_board@,
            old_min_col as int,
            old_max_col as int,
            old_min_row as int,
            old_max_row as int,
        ),
        exact_cover_exists(dict_to_use@, letters_array@) ==> (res matches Ok(sol) && ({
            let w = playable_of(dict_to_use@, letters_array@)[0];
            &&& sol.min_row == 72 && sol.max_row == 72
            &&& sol.min_col == 72 - w.len() / 2
            &&& sol.max_col == 72 - w.len() / 2 + w.len() - 1
            &&& forall|j: int|
                0 <= j < w.len() ==> sol.board@[72 * 144 + (72 - w.len() / 2) + j] == #[trigger] w[j]
        })),
{
    let valid_words_vec = filter_makeable(dict_to_use, letters_array);
    if valid_words_vec.len() == 0 {
        return Err(SolveError::NoValidWords);
    }
    let ghost oracle: Seq<Seq<usize>> = words_view(valid_words_vec@);
    let mut words_checked: usize = 0;
    let mut board = Board::new();
    let vw_len = valid_words_vec.len();
    let mut word_num: usize = 0;
    while word_num < vw_len
        invariant
            letters_wf(letters_array@),
            forall|l: int| 0 <= l < LETTER_COUNT ==> #[trigger] letters_array@[l] <= BOARD_AREA,
            dict_to_use.wf(),
            old_board@.len() == 0 || (raw_board_wf(old_board@) && bbox_wf(
                old_min_col as int,
                old_max_col as int,
                old_min_row as int,
                old_max_row as int,
            )),
            oracle == words_view(valid_words_vec@),
            vw_len == valid_words_vec@.len(),
            vw_len > 0,
            words_list_wf(oracle),
            forall|j: int|
                0 <= j < vw_len ==> dict_to_use@.contains(#[trigger] words_view(valid_words_vec@)[j])
                    && makeable(words_view(valid_words_vec@)[j], letters_array@),
            forall|w: Seq<usize>|
                dict_to_use@.contains(w) && makeable(w, letters_array@) ==> words_view(
                    valid_words_vec@,
                ).contains(w),
            forall|a: int, b: int|
                0 <= a < b < vw_len ==> (#[trigger] words_view(valid_words_vec@)[a]).len()
                    >= (#[trigger] words_view(valid_words_vec@)[b]).len(),
            words_view(valid_words_vec@) == playable_of(dict_to_use@, letters_array@),
            exact_cover_exists(dict_to_use@, letters_array@) ==> word_num == 0,
            word_num <= vw_len,
            board.wf(),
            forall|r: int, c: int| in_grid(r, c) ==> !board.occ(r, c),
        decreases vw_len - word_num,
    {
        let word = &valid_words_vec[word_num];
        let word_len = word.len();
        proof {
            assert(words_view(valid_words_vec@)[word_num as int] == word@);
            assert(word_wf(word@));
        }
        let col_start = BOARD_SIZE / 2 - word_len / 2;
        let row = BOARD_SIZE / 2;
        let mut use_letters = copy_vec(letters_array);
        let mut letters_on_board: Vec<usize> = vec![0; LETTER_COUNT];
        let ghost b_empty: Board = board;
        proof {
            crate::board::lemma_all_empty_seq(board);
            assert forall|l: int| 0 <= l < LETTER_COUNT implies count_val(
                board@,
                #[trigger] (l as usize),
            ) == 0 by {
                crate::board::lemma_count_val_up_to_absent(
                    board@,
                    l as usize,
                    board@.len() as int,
                );
            }
            assert forall|l: int| 0 <= l < LETTER_COUNT implies count_val(
                word@.take(0),
                #[trigger] (l as usize),
            ) == 0 by {}
        }
        let mut i: usize = 0;
        while i < word_len
            invariant
                board.wf(),
                letters_wf(letters_array@),
                letters_wf(use_letters@),
                letters_on_board@.len() == LETTER_COUNT,
                word_wf(word@),
                word_len == word@.len(),
                makeable(word@, letters_array@),
                col_start + word_len < BOARD_SIZE,
                col_start > 0,
                row == 72,
                i <= word_len,
                forall|r: int, c: int|
                    in_grid(r, c) ==> (#[trigger] board.occ(r, c) <==> (r == 72 && col_start <= c
                        < col_start + i)),
                forall|j: int| 0 <= j < i ==> board.cell(72, col_start + j) == word@[j],
                forall|l: int|
                    0 <= l < LETTER_COUNT ==> #[trigger] use_letters@[l] == letters_array@[l]
                        - count_val(word@.take(i as int), l as usize),
                forall|l: int|
                    0 <= l < LETTER_COUNT ==> count_val(
                        word@.take(i as int),
                        #[trigger] (l as usize),
                    ) <= letters_array@[l],
                forall|l: int|
                    0 <= l < LETTER_COUNT ==> count_val(board@, #[trigger] (l as usize))
                        == count_val(word@.take(i as int), l as usize),
                counts_match(board, letters_on_board@),
            decreases word_len - i,
        {
            let letter = word[i];
            proof {
                assert(!board.occ(72, col_start + i as int));
                assert(board.cell(72, col_start + i as int) == EMPTY_VALUE);
                assert forall|l: int| 0 <= l < LETTER_COUNT implies count_val(
                    word@.take(i as int + 1),
                    #[trigger] (l as usize),
                ) == count_val(word@.take(i as int), l as usize) + (if l == letter as int {
                    1int
                } else {
                    0int
                }) by {
                    lemma_count_val_take_succ(word@, l as usize, i as int);
                    if l != letter as int {
                        assert(word@[i as int] != l as usize);
                    }
                }
                assert forall|l: int| 0 <= l < LETTER_COUNT implies count_val(
                    word@.take(i as int + 1),
                    #[trigger] (l as usize),
                ) <= letters_array@[l] by {
                    lemma_count_val_take_le(word@, l as usize, i as int + 1, word@.len() as int);
                    lemma_count_val_take_full(word@, l as usize);
                    assert(count_val(word@, (l as usize)) <= letters_array@[l]);
                }
                lemma_count_val_up_to_bounds(board@, letter, board@.len() as int);
            }
            let ghost b_prev: Board = board;
            board.set_val(row, col_start + i, letter);
            let lob_cur = letters_on_board[letter];
            letters_on_board.set(letter, lob_cur + 1);
            let use_cur = use_letters[letter];
            proof {
                assert(use_cur >= 1) by {
                    assert(count_val(word@.take(i as int + 1), letter) <= letters_array@[letter as int]);
                }
            }
            use_letters.set(letter, use_cur - 1);
            proof {
                assert forall|r: int, c: int| in_grid(r, c) implies (#[trigger] board.occ(r, c)
                    <==> (r == 72 && col_start <= c < col_start + i + 1)) by {
                    if r == 72 && c == col_start + i as int {
                        assert(board.cell(r, c) == letter);
                    } else {
                        assert(board.cell(r, c) == b_prev.cell(r, c));
                        assert(b_prev.occ(r, c) <==> (r == 72 && col_start <= c < col_start
                            + i as int));
                    }
                }
            }
            i += 1;
        }
        proof {
            assert(word@.take(word_len as int) =~= word@);
        }
        let end_col = col_start + word_len - 1;
        let ghost b_opening: Board = board;
        proof {
            // The opening board is a single word on the centre row.
            assert forall|r: int, c: int| #[trigger] b_opening.occ(r, c) <==> on_span(
                Direction::Horizontal,
                72,
                col_start as int,
                word_len as int,
                r,
                c,
            ) by {
                if !in_grid(r, c) {
                    assert(!b_opening.occ(r, c));
                }
            }
            lemma_span_only_connected(
                b_opening,
                Direction::Horizontal,
                72,
                col_start as int,
                word_len as int,
            );
            assert(search_inv(
                b_opening,
                letters_on_board@,
                col_start as int,
                end_col as int,
                72,
                72,
            ));
            assert(bbox_tight(b_opening, col_start as int, end_col as int, 72, 72)) by {
                assert(b_opening.occ(72, col_start as int));
                assert(b_opening.occ(72, end_col as int));
            }
            // The opening word is a run of the oracle and of the dictionary.
            assert(valid_board(b_opening, dict_to_use@) && valid_board(b_opening, oracle)) by {
                assert forall|j: int| 0 <= j < word_len implies crate::validity::h_word_at(
                    b_opening,
                    72,
                    col_start as int,
                    end_col as int,
                )[j] == word@[j] by {
                    assert(b_opening.cell(72, col_start + j) == word@[j]);
                }
                assert(crate::validity::h_word_at(
                    b_opening,
                    72,
                    col_start as int,
                    end_col as int,
                ) =~= word@);
                assert(oracle.contains(word@)) by {
                    assert(oracle[word_num as int] == word@);
                }
                lemma_single_word_board_valid(b_opening, dict_to_use@, 72, col_start as int, end_col as int);
                lemma_single_word_board_valid(b_opening, oracle, 72, col_start as int, end_col as int);
            }
        }
        let mut all_zero = true;
        let mut l: usize = 0;
        while l < LETTER_COUNT
            invariant
                use_letters@.len() == LETTER_COUNT,
                l <= LETTER_COUNT,
                all_zero == (forall|j: int| 0 <= j < l ==> #[trigger] use_letters@[j] == 0),
            decreases LETTER_COUNT - l,
        {
            if use_letters[l] != 0 {
                all_zero = false;
            }
            l += 1;
        }
        proof {
            // A hand that some dictionary word covers exactly is consumed by
            // the very first opening: all makeable words are at most as long
            // as the hand, so the first (longest) one uses every tile.
            if exact_cover_exists(dict_to_use@, letters_array@) {
                let wx = choose|w: Seq<usize>|
                    #[trigger] dict_to_use@.contains(w) && (forall|l: int|
                        0 <= l < LETTER_COUNT ==> count_val(w, ((l as usize)))
                            == letters_array@[l]);
                assert(makeable(wx, letters_array@));
                assert(words_view(valid_words_vec@).contains(wx));
                let k = choose|k: int|
                    0 <= k < words_view(valid_words_vec@).len() && words_view(valid_words_vec@)[k]
                        == wx;
                let dj = choose|j: int| 0 <= j < dict_to_use@.len() && dict_to_use@[j] == wx;
                assert(word_wf(wx));
                crate::words::lemma_counts_sum_is_len(wx);
                crate::words::lemma_counts_sum_eq(wx, letters_array@, LETTER_COUNT as int);
                assert(wx.len() == crate::board::hand_sum_up_to(
                    letters_array@,
                    LETTER_COUNT as int,
                ));
                assert(words_view(valid_words_vec@)[0] == word@);
                assert(word@.len() >= wx.len());
                crate::words::lemma_counts_sum_is_len(word@);
                crate::words::lemma_counts_sum_le(word@, letters_array@, LETTER_COUNT as int);
                assert(crate::words::counts_sum_up_to(word@, LETTER_COUNT as int)
                    == crate::board::hand_sum_up_to(letters_array@, LETTER_COUNT as int));
                crate::words::lemma_counts_eq_of_sum(word@, letters_array@, LETTER_COUNT as int);
                assert forall|l: int| 0 <= l < LETTER_COUNT implies #[trigger] use_letters@[l]
                    == 0 by {
                    assert(count_val(word@, ((l as usize))) == letters_array@[l]);
                }
                assert(all_zero);
                assert(word@ == playable_of(dict_to_use@, letters_array@)[0]);
            }
        }
        if all_zero {
            let prev = overlap_annotation(
                old_board,
                old_min_col,
                old_max_col,
                old_min_row,
                old_max_row,
                &board,
                col_start,
                end_col,
                row,
                row,
            );
            let sol = build_solution(&board, letters_array, col_start, end_col, row, row, &prev);
            proof {
                if exact_cover_exists(dict_to_use@, letters_array@) {
                    let w = playable_of(dict_to_use@, letters_array@)[0];
                    assert(w == word@);
                    assert(col_start as int == 72 - w.len() / 2);
                    assert forall|j: int| 0 <= j < w.len() implies sol.board@[72 * 144 + (72
                        - w.len() / 2) + j] == #[trigger] w[j] by {
                        assert(board.cell(72, col_start + j) == word@[j]);
                    }
                }
                lemma_solution_rendered(
                    sol,
                    board,
                    prev@,
                    old_board@,
                    old_min_col as int,
                    old_max_col as int,
                    old_min_row as int,
                    old_max_row as int,
                );
                assert forall|l2: int| 0 <= l2 < LETTER_COUNT implies count_val(
                    sol.board@,
                    (l2 as usize),
                ) == #[trigger] letters_array@[l2] by {
                    assert(count_val(board@, (l2 as usize)) == count_val(word@, l2 as usize));
                    assert(use_letters@[l2] == 0);
                }
                assert forall|b: Board| #[trigger] b@ == sol.board@ implies valid_board(
                    b,
                    dict_to_use@,
                ) && connected_board(b) && occ_within(
                    b,
                    col_start as int,
                    end_col as int,
                    72,
                    72,
                ) && bbox_tight(b, col_start as int, end_col as int, 72, 72) by {
                    lemma_valid_board_congruence(board, b, dict_to_use@);
                    lemma_connected_congruence(board, b);
                    lemma_tight_congruence(board, b, col_start as int, end_col as int, 72, 72);
                    assert forall|r: int, c: int| #[trigger] b.occ(r, c) implies 72 <= r <= 72
                        && col_start <= c <= end_col by {
                        assert(board.occ(r, c));
                    }
                }
            }
            return Ok(sol);
        }
        let mut word_letters: Vec<bool> = vec![false; LETTER_COUNT];
        let mut i2: usize = 0;
        while i2 < word_len
            invariant
                word_wf(word@),
                word_len == word@.len(),
                word_letters@.len() == LETTER_COUNT,
                i2 <= word_len,
            decreases word_len - i2,
        {
            word_letters.set(word[i2], true);
            i2 += 1;
        }
        let mut new_valid_words_vec: Vec<Vec<usize>> = Vec::new();
        let mut i3 = word_num;
        while i3 < vw_len
            invariant
                letters_wf(use_letters@),
                word_letters@.len() == LETTER_COUNT,
                vw_len == valid_words_vec@.len(),
                i3 <= vw_len,
                words_list_wf(words_view(valid_words_vec@)),
                words_list_wf(words_view(new_valid_words_vec@)),
            decreases vw_len - i3,
        {
            proof {
                assert(words_view(valid_words_vec@)[i3 as int] == valid_words_vec@[i3 as int]@);
            }
            if check_filter_after_play(&use_letters, &valid_words_vec[i3], &word_letters) {
                let ghost before: Seq<Vec<usize>> = new_valid_words_vec@;
                new_valid_words_vec.push(copy_vec(&valid_words_vec[i3]));
                proof {
                    assert forall|j: int|
                        0 <= j < words_view(new_valid_words_vec@).len() implies word_wf(
                        #[trigger] words_view(new_valid_words_vec@)[j],
                    ) by {
                        if j < before.len() {
                            assert(words_view(new_valid_words_vec@)[j] == words_view(before)[j]);
                        } else {
                            assert(words_view(new_valid_words_vec@)[j]
                                == valid_words_vec@[i3 as int]@);
                        }
                    }
                }
            }
            i3 += 1;
        }
        let result = play_further(
            &mut board,
            col_start,
            end_col,
            row,
            row,
            &new_valid_words_vec,
            &valid_words_vec,
            &use_letters,
            0,
            &mut words_checked,
            &mut letters_on_board,
            filter_letters_on_board,
            max_words_to_check,
        );
        match result {
            Ok(r) => {
                if let Some(bb) = r {
                    proof {
                        assert(valid_board(board, oracle));
                        assert(valid_board(board, dict_to_use@)) by {
                            assert forall|w: Seq<usize>|
                                oracle.contains(w) implies dict_to_use@.contains(w) by {
                                let j = choose|j: int|
                                    0 <= j < oracle.len() && oracle[j] == w;
                            }
                            lemma_valid_board_mono(board, oracle, dict_to_use@);
                        }
                        assert forall|l2: int| 0 <= l2 < LETTER_COUNT implies count_val(
                            board@,
                            (l2 as usize),
                        ) == #[trigger] letters_array@[l2] by {
                            assert(count_val(board@, (l2 as usize)) == count_val(
                                b_opening@,
                                l2 as usize,
                            ) + use_letters@[l2]);
                            assert(count_val(b_opening@, (l2 as usize)) == count_val(
                                word@,
                                l2 as usize,
                            ));
                            assert(use_letters@[l2] == letters_array@[l2] - count_val(
                                word@,
                                l2 as usize,
                            ));
                        }
                    }
                    let prev = overlap_annotation(
                        old_board,
                        old_min_col,
                        old_max_col,
                        old_min_row,
                        old_max_row,
                        &board,
                        bb.0,
                        bb.1,
                        bb.2,
                        bb.3,
                    );
                    let sol = build_solution(
                        &board,
                        letters_array,
                        bb.0,
                        bb.1,
                        bb.2,
                        bb.3,
                        &prev,
                    );
                    proof {
                        lemma_solution_rendered(
                            sol,
                            board,
                            prev@,
                            old_board@,
                            old_min_col as int,
                            old_max_col as int,
                            old_min_row as int,
                            old_max_row as int,
                        );
                        assert forall|b: Board| #[trigger] b@ == sol.board@ implies valid_board(
                            b,
                            dict_to_use@,
                        ) && connected_board(b) && occ_within(
                            b,
                            bb.0 as int,
                            bb.1 as int,
                            bb.2 as int,
                            bb.3 as int,
                        ) && bbox_tight(b, bb.0 as int, bb.1 as int, bb.2 as int, bb.3 as int) by {
                            lemma_valid_board_congruence(board, b, dict_to_use@);
                            lemma_connected_congruence(board, b);
                            lemma_tight_congruence(
                                board,
                                b,
                                bb.0 as int,
                                bb.1 as int,
                                bb.2 as int,
                                bb.3 as int,
                            );
                            assert forall|r: int, c: int| #[trigger] b.occ(r, c) implies bb.2 <= r
                                <= bb.3 && bb.0 <= c <= bb.1 by {
                                assert(board.occ(r, c));
                            }
                        }
                    }
                    return Ok(sol);
                } else {
                    // Clear the opening word and try the next one.
                    proof {
                        assert forall|r: int, c: int| in_grid(r, c) implies (#[trigger] board.occ(
                            r,
                            c,
                        ) <==> (r == 72 && col_start <= c <= end_col)) by {
                            assert(board.cell(r, c) == b_opening.cell(r, c));
                            assert(b_opening.occ(r, c) <==> on_span(
                                Direction::Horizontal,
                                72,
                                col_start as int,
                                word_len as int,
                                r,
                                c,
                            ));
                        }
                    }
                    let mut c2 = col_start;
                    while c2 <= end_col
                        invariant
                            board.wf(),
                            board@.len() == BOARD_AREA,
                            col_start <= c2,
                            c2 <= end_col + 1,
                            end_col < BOARD_SIZE,
                            forall|r: int, c: int|
                                in_grid(r, c) ==> (#[trigger] board.occ(r, c) <==> (r == 72 && c2
                                    <= c <= end_col)),
                        decreases end_col + 1 - c2,
                    {
                        let ghost b_prev2: Board = board;
                        board.set_val(72, c2, EMPTY_VALUE);
                        proof {
                            assert forall|r: int, c: int| in_grid(r, c) implies (
                            #[trigger] board.occ(r, c) <==> (r == 72 && c2 + 1 <= c <= end_col))
                                by {
                                if !(r == 72 && c == c2 as int) {
                                    assert(board.cell(r, c) == b_prev2.cell(r, c));
                                    assert(b_prev2.occ(r, c) <==> (r == 72 && c2 <= c <= end_col));
                                }
                            }
                        }
                        c2 += 1;
                    }
                }
            },
            Err(()) => {
                if word_num <= 6 {
                    words_checked = 0;
                    board.erase();
                } else {
                    proof {
                        assert(dict_to_use@.contains(oracle[0]) && makeable(
                            oracle[0],
                            letters_array@,
                        ));
                    }
                    return Err(SolveError::NoSolution);
                }
            },
        }
        word_num += 1;
    }
    proof {
        assert(dict_to_use@.contains(oracle[0]) && makeable(oracle[0], letters_array@));
    }
    Err(SolveError::NoSolution)
}

} // verus!

verus! {

/// Solves a grown hand against a prior solution: an unchanged hand returns
/// the prior board as is; one added tile is first placed alone, then the
/// incremental extension is tried; otherwise, and on any failure, the board
/// is rebuilt from scratch.
#[verifier::rlimit(100)]
pub fn play_from_existing(
    letters_array: &Vec<usize>,
    old_letters_array: &Vec<usize>,
    dict_to_use: &Dictionary,
    filter_letters_on_board: usize,
    max_words_to_check: usize,
    old_board: &Vec<usize>,
    old_min_col: usize,
    old_max_col: usize,
    old_min_row: usize,
    old_max_row: usize,
) -> (res: Result<Solution, SolveError>)
    requires
        letters_wf(letters_array@),
        letters_wf(old_letters_array@),
        forall|l: int| 0 <= l < LETTER_COUNT ==> #[trigger] letters_array@[l] <= BOARD_AREA,
        dict_to_use.wf(),
        raw_board_wf(old_board@),
        bbox_wf(old_min_col as int, old_max_col as int, old_min_row as int, old_max_row as int),
        forall|r: int, c: int|
            in_grid(r, c) && #[trigger] old_board@[r * 144 + c] != EMPTY_VALUE ==> old_min_row <= r
                <= old_max_row && old_min_col <= c <= old_max_col,
        forall|l: int|
            0 <= l < LETTER_COUNT ==> count_val(old_board@, #[trigger] (l as usize))
                == old_letters_array@[l],
    ensures
        hand_comparison(letters_array@, old_letters_array@) == LetterComparison::Same ==> (res
            matches Ok(sol) && sol.board@ == old_board@ && sol.min_col == old_min_col
            && sol.max_col == old_max_col && sol.min_row == old_min_row && sol.max_row
            == old_max_row && solution_rendered_plain(sol)),
        res matches Ok(sol) ==> ({
            &&& sol.letters@ == letters_array@
            &&& sol.board@.len() == BOARD_AREA
            &&& forall|i: int|
                0 <= i < sol.board@.len() ==> (#[trigger] sol.board@[i] < LETTER_COUNT
                    || sol.board@[i] == EMPTY_VALUE)
            &&& forall|l: int|
                0 <= l < LETTER_COUNT ==> count_val(sol.board@, (l as usize))
                    == #[trigger] letters_array@[l]
            &&& bbox_wf(
                sol.min_col as int,
                sol.max_col as int,
                sol.min_row as int,
                sol.max_row as int,
            )
            &&& seq_within(
                sol.board@,
                sol.min_col as int,
                sol.max_col as int,
                sol.min_row as int,
                sol.max_row as int,
            )
            &&& (seq_connected(old_board@) ==> seq_connected(sol.board@))
            &&& (seq_tight(
                old_board@,
                old_min_col as int,
                old_max_col as int,
                old_min_row as int,
                old_max_row as int,
            ) ==> seq_tight(
                sol.board@,
                sol.min_col as int,
                sol.max_col as int,
                sol.min_row as int,
                sol.max_row as int,
            ))
        }),
        hand_comparison(letters_array@, old_letters_array@) == LetterComparison::SomeLess ==> (res
            matches Ok(sol) ==> seq_valid(sol.board@, dict_to_use@)),
        (hand_comparison(letters_array@, old_letters_array@) == LetterComparison::Same && seq_valid(
            old_board@,
            dict_to_use@,
        )) ==> (res matches Ok(sol) ==> seq_valid(sol.board@, dict_to_use@)),
        res is Err ==> hand_comparison(letters_array@, old_letters_array@)
            != LetterComparison::Same,
        res == Result::<Solution, SolveError>::Err(SolveError::NoValidWords) ==> (forall|
            w: Seq<usize>,
        | dict_to_use@.contains(w) ==> !makeable(w, letters_array@)),
        exact_cover_exists(dict_to_use@, letters_array@) ==> res is Ok,
        hand_comparison(letters_array@, old_letters_array@) == LetterComparison::SomeLess ==> (res
            matches Ok(sol) ==> seq_connected(sol.board@) && seq_tight(
            sol.board@,
            sol.min_col as int,
            sol.max_col as int,
            sol.min_row as int,
            sol.max_row as int,
        )),
        hand_comparison(letters_array@, old_letters_array@) != LetterComparison::Same ==> (res
            matches Ok(sol) ==> solution_rendered(
            sol,
            old_board@,
            old_min_col as int,
            old_max_col as int,
            old_min_row as int,
            old_max_row as int,
        )),
        hand_comparison(letters_array@, old_letters_array@) != LetterComparison::Same ==> (res
            matches Ok(sol) ==> seq_valid(sol.board@, dict_to_use@)),
        (hand_comparison(letters_array@, old_letters_array@) == LetterComparison::GreaterByOne
            && seq_valid(old_board@, playable_of(dict_to_use@, letters_array@))
            && single_tile_fit_exists(
            old_board@,
            playable_of(dict_to_use@, letters_array@),
            added_letter(letters_array@, old_letters_array@),
            old_min_col as int,
            old_max_col as int,
            old_min_row as int,
            old_max_row as int,
        )) ==> (res matches Ok(sol) && (exists|r: int, c: int|
            #![trigger old_board@[r * 144 + c]]
            in_grid(r, c) && old_board@[r * 144 + c] == EMPTY_VALUE && sol.board@
                == old_board@.update(
                r * 144 + c,
                added_letter(letters_array@, old_letters_array@),
            ))),
{
    let (comparison, seen_greater) = compare_hands(letters_array, old_letters_array);
    let old_b = Board::from_vec(copy_vec(old_board));
    proof {
        assert forall|r: int, c: int| #[trigger] old_b.occ(r, c) implies old_min_row <= r
            <= old_max_row && old_min_col <= c <= old_max_col by {
            assert(old_board@[r * 144 + c] != EMPTY_VALUE);
        }
    }
    if comparison == LetterComparison::Same {
        proof {
            assert forall|l: int| 0 <= l < LETTER_COUNT implies #[trigger] letters_array@[l]
                == old_letters_array@[l] by {
                if exists|m: int|
                    0 <= m < LETTER_COUNT && letters_array@[m] < old_letters_array@[m] {
                    assert(hand_comparison(letters_array@, old_letters_array@)
                        == LetterComparison::SomeLess);
                }
            }
        }
        let none_prev: Vec<(usize, usize)> = Vec::new();
        let sol = build_solution(
            &old_b,
            letters_array,
            old_min_col,
            old_max_col,
            old_min_row,
            old_max_row,
            &none_prev,
        );
        proof {
            assert forall|b: Board| #[trigger] b@ == sol.board@ implies occ_within(
                b,
                old_min_col as int,
                old_max_col as int,
                old_min_row as int,
                old_max_row as int,
            ) by {
                assert forall|r: int, c: int| #[trigger] b.occ(r, c) implies old_min_row <= r
                    <= old_max_row && old_min_col <= c <= old_max_col by {
                    assert(old_b.occ(r, c));
                }
            }
            assert forall|i: int, j: int|
                0 <= i < sol.board_string@.len() && 0 <= j < sol.board_string@[i]@.len() implies (
            #[trigger] sol.board_string@[i]@[j])@ == rendered_cell(
                sol.board@,
                false,
                sol.min_row + i,
                sol.min_col + j,
            ) by {
                let r = sol.min_row + i;
                let c = sol.min_col + j;
                assert(!placed_has_cell(none_prev@, r, c)) by {
                    if placed_has_cell(none_prev@, r, c) {
                        let k = choose|k: int|
                            0 <= k < none_prev@.len() && (#[trigger] none_prev@[k]).0 == r
                                && none_prev@[k].1 == c;
                    }
                }
                assert((sol.board_string@[i]@[j])@ == render_cell(old_b@, none_prev@, r, c));
            }
        }
        return Ok(sol);
    }
    let valid_words_set = filter_makeable(dict_to_use, letters_array);
    let ghost fit_premise: bool = hand_comparison(letters_array@, old_letters_array@)
        == LetterComparison::GreaterByOne && seq_valid(
        old_board@,
        playable_of(dict_to_use@, letters_array@),
    ) && single_tile_fit_exists(
        old_board@,
        playable_of(dict_to_use@, letters_array@),
        added_letter(letters_array@, old_letters_array@),
        old_min_col as int,
        old_max_col as int,
        old_min_row as int,
        old_max_row as int,
    );
    if comparison == LetterComparison::GreaterByOne {
        let mut b2 = old_b.duplicate();
        proof {
            assert forall|r: int, c: int| #[trigger] b2.occ(r, c) implies old_min_row <= r
                <= old_max_row && old_min_col <= c <= old_max_col by {
                assert(old_b.occ(r, c));
            }
        }
        let ghost b2_entry: Board = b2;
        let one = play_one_letter(
            &mut b2,
            old_min_col,
            old_max_col,
            old_min_row,
            old_max_row,
            seen_greater,
            &valid_words_set,
        );
        if let Some(t) = one {
            if crate::validity::is_whole_board_valid(&b2, &valid_words_set, t.2, t.3, t.4, t.5) {
            let prev = overlap_annotation(
                old_board,
                old_min_col,
                old_max_col,
                old_min_row,
                old_max_row,
                &b2,
                t.2,
                t.3,
                t.4,
                t.5,
            );
            let sol = build_solution(&b2, letters_array, t.2, t.3, t.4, t.5, &prev);
            proof {
                lemma_solution_rendered(
                    sol,
                    b2,
                    prev@,
                    old_board@,
                    old_min_col as int,
                    old_max_col as int,
                    old_min_row as int,
                    old_max_row as int,
                );
                assert forall|l: int| 0 <= l < LETTER_COUNT implies count_val(
                    sol.board@,
                    (l as usize),
                ) == #[trigger] letters_array@[l] by {
                    assert(count_val(b2@, (l as usize)) == count_val(b2_entry@, l as usize) + (if (
                    l as usize) == seen_greater {
                        1int
                    } else {
                        0int
                    }) - (if (l as usize) == EMPTY_VALUE {
                        1int
                    } else {
                        0int
                    }));
                    assert(count_val(b2_entry@, (l as usize)) == count_val(
                        old_board@,
                        l as usize,
                    ));
                    if l == seen_greater {
                        assert(letters_array@[l] == old_letters_array@[l] + 1);
                    } else {
                        assert(letters_array@[l] == old_letters_array@[l]);
                    }
                }
                assert forall|b: Board| #[trigger] b@ == sol.board@ implies occ_within(
                    b,
                    t.2 as int,
                    t.3 as int,
                    t.4 as int,
                    t.5 as int,
                ) by {
                    assert forall|r: int, c: int| #[trigger] b.occ(r, c) implies t.4 <= r <= t.5
                        && t.2 <= c <= t.3 by {
                        assert(b2.occ(r, c));
                    }
                }
                if seq_connected(old_board@) {
                    assert(connected_board(b2_entry));
                    assert forall|b: Board| #[trigger] b@ == sol.board@ implies connected_board(
                        b,
                    ) by {
                        lemma_connected_congruence(b2, b);
                    }
                }
                if seq_tight(
                    old_board@,
                    old_min_col as int,
                    old_max_col as int,
                    old_min_row as int,
                    old_max_row as int,
                ) {
                    assert(bbox_tight(
                        b2_entry,
                        old_min_col as int,
                        old_max_col as int,
                        old_min_row as int,
                        old_max_row as int,
                    ));
                    assert forall|b: Board| #[trigger] b@ == sol.board@ implies bbox_tight(
                        b,
                        t.2 as int,
                        t.3 as int,
                        t.4 as int,
                        t.5 as int,
                    ) by {
                        lemma_tight_congruence(b2, b, t.2 as int, t.3 as int, t.4 as int, t.5 as int);
                    }
                }
                // Every run of the accepted board is a word of the makeable
                // subset, hence of the dictionary.
                assert forall|w: Seq<usize>|
                    words_view(valid_words_set@).contains(w) implies dict_to_use@.contains(w) by {
                    let j = choose|j: int|
                        0 <= j < words_view(valid_words_set@).len() && words_view(
                            valid_words_set@,
                        )[j] == w;
                }
                lemma_valid_board_mono(b2, words_view(valid_words_set@), dict_to_use@);
                assert forall|b: Board| #[trigger] b@ == sol.board@ implies valid_board(
                    b,
                    dict_to_use@,
                ) by {
                    lemma_valid_board_congruence(b2, b, dict_to_use@);
                }
                if fit_premise {
                    lemma_added_letter_is(letters_array@, old_letters_array@, seen_greater as int);
                    assert(b2_entry@ == old_board@);
                    assert(old_board@[t.0 as int * 144 + t.1 as int] == EMPTY_VALUE) by {
                        assert(b2_entry.cell(t.0 as int, t.1 as int) == EMPTY_VALUE);
                    }
                    assert(in_grid(t.0 as int, t.1 as int));
                    assert(sol.board@ == old_board@.update(
                        t.0 as int * 144 + t.1 as int,
                        added_letter(letters_array@, old_letters_array@),
                    ));
                }
            }
            return Ok(sol);
            }
        }
        // A hand that fits as one tile on a valid board cannot reach this
        // point: the placement scan would have found and kept it.
        proof {
            if fit_premise {
                lemma_added_letter_is(letters_array@, old_letters_array@, seen_greater as int);
                assert(words_view(valid_words_set@) == playable_of(dict_to_use@, letters_array@));
                assert(b2_entry@ == old_board@);
                match one {
                    Some(tt) => {
                        assert(valid_board(b2_entry, words_view(valid_words_set@)));
                        assert(valid_board(b2, words_view(valid_words_set@)));
                        assert(false);
                    },
                    None => {
                        let (r, c) = choose|r: int, c: int|
                            #![trigger old_board@[r * 144 + c]]
                            window_lo(old_min_row as int) <= r <= window_hi(old_max_row as int)
                                && window_lo(old_min_col as int) <= c <= window_hi(
                                old_max_col as int,
                            ) && old_board@[r * 144 + c] == EMPTY_VALUE && (seq_occ(
                                old_board@,
                                r,
                                c - 1,
                            ) || seq_occ(old_board@, r, c + 1) || seq_occ(old_board@, r - 1, c)
                                || seq_occ(old_board@, r + 1, c)) && !one_letter_fails(
                                old_board@,
                                playable_of(dict_to_use@, letters_array@),
                                added_letter(letters_array@, old_letters_array@),
                                r,
                                c,
                            );
                        assert(b2_entry.cell(r, c) == EMPTY_VALUE);
                        assert(b2_entry.occ(r, c - 1) || b2_entry.occ(r, c + 1) || b2_entry.occ(
                            r - 1,
                            c,
                        ) || b2_entry.occ(r + 1, c));
                        assert(one_letter_fails(
                            b2_entry@,
                            words_view(valid_words_set@),
                            seen_greater,
                            r,
                            c,
                        ));
                        assert(false);
                    },
                }
            }
        }
    }
    if comparison == LetterComparison::GreaterByOne || comparison
        == LetterComparison::GreaterByMoreThanOne {
        proof {
            // No letter shrank: the new hand covers the old board's tiles.
            assert forall|l: int| 0 <= l < LETTER_COUNT implies count_val(
                old_board@,
                #[trigger] (l as usize),
            ) <= letters_array@[l] by {
                if exists|m: int|
                    0 <= m < LETTER_COUNT && letters_array@[m] < old_letters_array@[m] {
                    assert(hand_comparison(letters_array@, old_letters_array@)
                        == LetterComparison::SomeLess);
                }
                assert(!(letters_array@[l] < old_letters_array@[l]));
            }
        }
        let attempt = play_existing(
            &old_b,
            old_min_col,
            old_max_col,
            old_min_row,
            old_max_row,
            letters_array,
            &valid_words_set,
            dict_to_use,
            filter_letters_on_board,
            max_words_to_check,
        );
        if let Some(t) = attempt {
            let prev = overlap_annotation(
                old_board,
                old_min_col,
                old_max_col,
                old_min_row,
                old_max_row,
                &t.0,
                t.1,
                t.2,
                t.3,
                t.4,
            );
            let sol = build_solution(&t.0, letters_array, t.1, t.2, t.3, t.4, &prev);
            proof {
                lemma_solution_rendered(
                    sol,
                    t.0,
                    prev@,
                    old_board@,
                    old_min_col as int,
                    old_max_col as int,
                    old_min_row as int,
                    old_max_row as int,
                );
                assert forall|b: Board| #[trigger] b@ == sol.board@ implies occ_within(
                    b,
                    t.1 as int,
                    t.2 as int,
                    t.3 as int,
                    t.4 as int,
                ) by {
                    assert forall|r: int, c: int| #[trigger] b.occ(r, c) implies t.3 <= r <= t.4
                        && t.1 <= c <= t.2 by {
                        assert(t.0.occ(r, c));
                    }
                }
                if seq_connected(old_board@) {
                    assert(connected_board(old_b));
                    assert forall|b: Board| #[trigger] b@ == sol.board@ implies connected_board(
                        b,
                    ) by {
                        lemma_connected_congruence(t.0, b);
                    }
                }
                if seq_tight(
                    old_board@,
                    old_min_col as int,
                    old_max_col as int,
                    old_min_row as int,
                    old_max_row as int,
                ) {
                    assert(bbox_tight(
                        old_b,
                        old_min_col as int,
                        old_max_col as int,
                        old_min_row as int,
                        old_max_row as int,
                    ));
                    assert forall|b: Board| #[trigger] b@ == sol.board@ implies bbox_tight(
                        b,
                        t.1 as int,
                        t.2 as int,
                        t.3 as int,
                        t.4 as int,
                    ) by {
                        lemma_tight_congruence(t.0, b, t.1 as int, t.2 as int, t.3 as int, t.4 as int);
                    }
                }
                assert forall|w: Seq<usize>|
                    words_view(valid_words_set@).contains(w) implies dict_to_use@.contains(w) by {
                    let j = choose|j: int|
                        0 <= j < words_view(valid_words_set@).len() && words_view(
                            valid_words_set@,
                        )[j] == w;
                }
                lemma_valid_board_mono(t.0, words_view(valid_words_set@), dict_to_use@);
                assert forall|b: Board| #[trigger] b@ == sol.board@ implies valid_board(
                    b,
                    dict_to_use@,
                ) by {
                    lemma_valid_board_congruence(t.0, b, dict_to_use@);
                }
            }
            return Ok(sol);
        }
    }
    let scratch = play_from_scratch(
        letters_array,
        dict_to_use,
        filter_letters_on_board,
        max_words_to_check,
        old_board,
        old_min_col,
        old_max_col,
        old_min_row,
        old_max_row,
    );
    proof {
        match scratch {
            Ok(ref sol) => {
                assert(solution_sound(*sol, letters_array@));
            },
            Err(_) => {},
        }
    }
    scratch
}

} // verus!

verus! {

/// A solution built from a board and a star list whose membership matches
/// the overlap predicate renders as `solution_rendered` demands.
pub proof fn lemma_solution_rendered(
    sol: Solution,
    board: Board,
    prev: Seq<(usize, usize)>,
    old: Seq<usize>,
    omin_col: int,
    omax_col: int,
    omin_row: int,
    omax_row: int,
)
    requires
        sol.board@ == board@,
        sol.board_string@.len() == sol.max_row + 1 - sol.min_row,
        forall|i: int|
            0 <= i < sol.board_string@.len() ==> (#[trigger] sol.board_string@[i])@.len()
                == sol.max_col + 1 - sol.min_col,
        forall|i: int, j: int|
            0 <= i < sol.board_string@.len() && 0 <= j < sol.board_string@[i]@.len() ==> (
            #[trigger] sol.board_string@[i]@[j])@ == render_cell(
                board@,
                prev,
                sol.min_row + i,
                sol.min_col + j,
            ),
        forall|r: int, c: int|
            #[trigger] placed_has_cell(prev, r, c) <==> overlap_marked(
                old,
                omin_col,
                omax_col,
                omin_row,
                omax_row,
                board@,
                sol.min_col as int,
                sol.max_col as int,
                sol.min_row as int,
                sol.max_row as int,
                r,
                c,
            ),
    ensures
        solution_rendered(sol, old, omin_col, omax_col, omin_row, omax_row),
{
    assert forall|i: int, j: int|
        0 <= i < sol.board_string@.len() && 0 <= j < sol.board_string@[i]@.len() implies (
    #[trigger] sol.board_string@[i]@[j])@ == rendered_cell(
        sol.board@,
        overlap_marked(
            old,
            omin_col,
            omax_col,
            omin_row,
            omax_row,
            sol.board@,
            sol.min_col as int,
            sol.max_col as int,
            sol.min_row as int,
            sol.max_row as int,
            sol.min_row + i,
            sol.min_col + j,
        ),
        sol.min_row + i,
        sol.min_col + j,
    ) by {
        let r = sol.min_row + i;
        let c = sol.min_col + j;
        assert((sol.board_string@[i]@[j])@ == render_cell(board@, prev, r, c));
        assert(placed_has_cell(prev, r, c) <==> overlap_marked(
            old,
            omin_col,
            omax_col,
            omin_row,
            omax_row,
            board@,
            sol.min_col as int,
            sol.max_col as int,
            sol.min_row as int,
            sol.max_row as int,
            r,
            c,
        ));
    }
}

} // verus!

verus! {

use crate::search::{one_letter_fails, window_hi, window_lo};

/// A cell of a raw board that holds a letter.
pub open spec fn seq_occ(v: Seq<usize>, r: int, c: int) -> bool {
    in_grid(r, c) && v[r * 144 + c] != EMPTY_VALUE
}

/// The tile that a hand one tile larger than another added.
pub open spec fn added_letter(newh: Seq<usize>, oldh: Seq<usize>) -> usize {
    (choose|l: int|
        0 <= l < LETTER_COUNT && newh[l] == oldh[l] + 1 && (forall|m: int|
            0 <= m < LETTER_COUNT && m != l ==> newh[m] == oldh[m])) as usize
}

/// The added tile is the one letter whose count grew.
pub proof fn lemma_added_letter_is(newh: Seq<usize>, oldh: Seq<usize>, sg: int)
    requires
        0 <= sg < LETTER_COUNT,
        newh[sg] == oldh[sg] + 1,
        forall|m: int| 0 <= m < LETTER_COUNT && m != sg ==> newh[m] == oldh[m],
    ensures
        added_letter(newh, oldh) == sg as usize,
{
    assert(exists|l: int|
        0 <= l < LETTER_COUNT && newh[l] == oldh[l] + 1 && (forall|m: int|
            0 <= m < LETTER_COUNT && m != l ==> newh[m] == oldh[m])) by {
        assert(0 <= sg < LETTER_COUNT && newh[sg] == oldh[sg] + 1 && (forall|m: int|
            0 <= m < LETTER_COUNT && m != sg ==> newh[m] == oldh[m]));
    }
    let l = choose|l: int|
        0 <= l < LETTER_COUNT && newh[l] == oldh[l] + 1 && (forall|m: int|
            0 <= m < LETTER_COUNT && m != l ==> newh[m] == oldh[m]);
    if l != sg {
        assert(newh[sg] == oldh[sg]);
    }
}

/// Somewhere in the window around the old box, the added tile sits beside
/// the placed mass on an empty cell and every run through it passes.
pub open spec fn single_tile_fit_exists(
    v: Seq<usize>,
    oracle: Seq<Seq<usize>>,
    letter: usize,
    omin_col: int,
    omax_col: int,
    omin_row: int,
    omax_row: int,
) -> bool {
    exists|r: int, c: int|
        #![trigger v[r * 144 + c]]
        window_lo(omin_row) <= r <= window_hi(omax_row) && window_lo(omin_col) <= c <= window_hi(
            omax_col,
        ) && v[r * 144 + c] == EMPTY_VALUE && (seq_occ(v, r, c - 1) || seq_occ(v, r, c + 1)
            || seq_occ(v, r - 1, c) || seq_occ(v, r + 1, c)) && !one_letter_fails(
            v,
            oracle,
            letter,
            r,
            c,
        )
}

} // verus!
