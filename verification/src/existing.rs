//! Incremental solving on a prior board: hand comparison, the additive
//! phase that plays the new tiles against the old arrangement, and the
//! removal phase that peels removable fragments and searches again.

use vstd::prelude::*;
use vstd::pervasive::VecAdditionalExecFns;
use crate::board::{
    copy_vec, counts_match, count_val, in_grid, letters_wf, placed_has_cell, word_wf, Board,
    lemma_board_ext_equal, lemma_count_val_up_to_bounds, BOARD_AREA, BOARD_SIZE, EMPTY_VALUE,
    LETTER_COUNT,
};
use crate::words::{
    check_filter_after_play_later, words_list_wf, words_view, Dictionary,
    lemma_count_val_take_succ, lemma_count_val_take_full,
};
use crate::search::{
    bbox_tight, bbox_wf, occ_within, search_inv, search_success, try_play_word_horizontal,
    try_play_word_vertically, lemma_search_inv_congruence, lemma_tight_congruence,
};
use crate::connectivity::{
    connected_board, connected_ex, lemma_connected_ex_congruence, lemma_erase_to_connected, occ_ex,
};
use crate::validity::valid_board;
use crate::search::lemma_connected_congruence;
use crate::removal::{get_removable_indices, removable_ok, sort_removable_asc};

verus! {

/// How a new hand compares to the hand a prior board was solved for.
#[derive(Copy, Clone, PartialEq, Eq, Structural, Debug)]
pub enum LetterComparison {
    /// At least one letter count shrank.
    SomeLess,
    /// Exactly one letter count grew, by exactly one; all others are equal.
    GreaterByOne,
    /// No count shrank and the hands differ, but not by a single tile.
    GreaterByMoreThanOne,
    /// The hands are identical.
    Same,
}

/// The comparison class of a new hand against an old one.
pub open spec fn hand_comparison(newh: Seq<usize>, oldh: Seq<usize>) -> LetterComparison {
    if exists|l: int| 0 <= l < LETTER_COUNT && newh[l] < oldh[l] {
        LetterComparison::SomeLess
    } else if forall|l: int| 0 <= l < LETTER_COUNT ==> newh[l] == oldh[l] {
        LetterComparison::Same
    } else if exists|l: int|
        0 <= l < LETTER_COUNT && newh[l] == oldh[l] + 1 && (forall|m: int|
            0 <= m < LETTER_COUNT && m != l ==> newh[m] == oldh[m]) {
        LetterComparison::GreaterByOne
    } else {
        LetterComparison::GreaterByMoreThanOne
    }
}

/// Classifies a new hand against an old one; for a single added tile, also
/// reports which letter was added.
pub fn compare_hands(newh: &Vec<usize>, oldh: &Vec<usize>) -> (res: (LetterComparison, usize))
    requires
        letters_wf(newh@),
        letters_wf(oldh@),
    ensures
        res.0 == hand_comparison(newh@, oldh@),
        res.0 == LetterComparison::GreaterByOne ==> res.1 < LETTER_COUNT && newh@[res.1 as int]
            == oldh@[res.1 as int] + 1 && (forall|m: int|
            0 <= m < LETTER_COUNT && m != res.1 ==> newh@[m] == oldh@[m]),
{
    let mut any_less = false;
    let mut num_greater: usize = 0;
    let mut greater_idx: usize = 0;
    let ghost mut g2: int = 0;
    let mut l: usize = 0;
    while l < LETTER_COUNT
        invariant
            letters_wf(newh@),
            letters_wf(oldh@),
            l <= LETTER_COUNT,
            any_less == exists|m: int| 0 <= m < l && newh@[m] < oldh@[m],
            num_greater == 0 ==> forall|m: int| 0 <= m < l ==> newh@[m] <= oldh@[m],
            num_greater > 0 ==> greater_idx < l && newh@[greater_idx as int] > oldh@[greater_idx as int],
            num_greater == 1 ==> forall|m: int|
                0 <= m < l && m != greater_idx ==> newh@[m] <= oldh@[m],
            num_greater >= 2 ==> 0 <= g2 < l && g2 != greater_idx && newh@[g2] > oldh@[g2],
        decreases LETTER_COUNT - l,
    {
        if newh[l] < oldh[l] {
            any_less = true;
        } else if newh[l] > oldh[l] {
            if num_greater == 1 {
                proof {
                    g2 = greater_idx as int;
                }
            }
            if num_greater < 2 {
                num_greater += 1;
            }
            greater_idx = l;
        }
        l += 1;
    }
    if any_less {
        return (LetterComparison::SomeLess, 0);
    }
    if num_greater == 0 {
        proof {
            assert forall|m: int| 0 <= m < LETTER_COUNT implies newh@[m] == oldh@[m] by {
                assert(newh@[m] <= oldh@[m]);
                assert(!(newh@[m] < oldh@[m]));
            }
        }
        return (LetterComparison::Same, 0);
    }
    if num_greater == 1 {
        let diff_one = newh[greater_idx] == oldh[greater_idx] + 1;
        proof {
            assert forall|m: int|
                0 <= m < LETTER_COUNT && m != greater_idx implies newh@[m] == oldh@[m] by {
                assert(newh@[m] <= oldh@[m]);
                assert(!(newh@[m] < oldh@[m]));
            }
        }
        if diff_one {
            proof {
                assert(hand_comparison(newh@, oldh@) == LetterComparison::GreaterByOne) by {
                    assert(newh@[greater_idx as int] == oldh@[greater_idx as int] + 1);
                }
            }
            return (LetterComparison::GreaterByOne, greater_idx);
        } else {
            proof {
                assert(hand_comparison(newh@, oldh@) == LetterComparison::GreaterByMoreThanOne)
                    by {
                    if exists|ll: int|
                        0 <= ll < LETTER_COUNT && newh@[ll] == oldh@[ll] + 1 && (forall|m: int|
                            0 <= m < LETTER_COUNT && m != ll ==> newh@[m] == oldh@[m]) {
                        let ll = choose|ll: int|
                            0 <= ll < LETTER_COUNT && newh@[ll] == oldh@[ll] + 1 && (forall|
                                m: int,
                            |
                                0 <= m < LETTER_COUNT && m != ll ==> newh@[m] == oldh@[m]);
                        assert(ll == greater_idx as int);
                    }
                }
            }
            return (LetterComparison::GreaterByMoreThanOne, 0);
        }
    }
    proof {
        assert(hand_comparison(newh@, oldh@) == LetterComparison::GreaterByMoreThanOne) by {
            if exists|ll: int|
                0 <= ll < LETTER_COUNT && newh@[ll] == oldh@[ll] + 1 && (forall|m: int|
                    0 <= m < LETTER_COUNT && m != ll ==> newh@[m] == oldh@[m]) {
                let ll = choose|ll: int|
                    0 <= ll < LETTER_COUNT && newh@[ll] == oldh@[ll] + 1 && (forall|m: int|
                        0 <= m < LETTER_COUNT && m != ll ==> newh@[m] == oldh@[m]);
                if ll != greater_idx {
                    assert(newh@[greater_idx as int] == oldh@[greater_idx as int]);
                } else {
                    assert(newh@[g2] == oldh@[g2]);
                }
            }
        }
    }
    (LetterComparison::GreaterByMoreThanOne, 0)
}

/// Counts the tiles of each letter on the board, and which letters appear
/// at all.
pub fn count_board_letters(board: &Board) -> (res: (Vec<usize>, Vec<bool>))
    requires
        board.wf(),
    ensures
        counts_match(*board, res.0@),
        res.1@.len() == LETTER_COUNT,
        forall|l: int|
            0 <= l < LETTER_COUNT ==> (#[trigger] res.1@[l] == (count_val(board@, l as usize) > 0)),
{
    let mut lob: Vec<usize> = vec![0; LETTER_COUNT];
    let mut played: Vec<bool> = vec![false; LETTER_COUNT];
    let arr = board.cells();
    let n = arr.len();
    let mut i: usize = 0;
    while i < n
        invariant
            board.wf(),
            arr@ == board@,
            n == arr@.len(),
            i <= n,
            lob@.len() == LETTER_COUNT,
            played@.len() == LETTER_COUNT,
            forall|l: int|
                0 <= l < LETTER_COUNT ==> #[trigger] lob@[l] == crate::board::count_val_up_to(
                    board@,
                    l as usize,
                    i as int,
                ),
            forall|l: int|
                0 <= l < LETTER_COUNT ==> (#[trigger] played@[l] == (crate::board::count_val_up_to(
                    board@,
                    l as usize,
                    i as int,
                ) > 0)),
        decreases n - i,
    {
        let v = arr[i];
        proof {
            lemma_count_val_up_to_bounds(board@, v, i as int);
        }
        if v != EMPTY_VALUE {
            let cur = lob[v];
            lob.set(v, cur + 1);
            played.set(v, true);
        }
        i += 1;
    }
    (lob, played)
}

/// Recursively extends the board after peeling: first tries every candidate
/// word in both orientations, then peels a further removable fragment and
/// recurses.  On success the final board holds every tile of the hand in
/// addition to what the board held at entry; on failure the board is
/// bit-identical to its entry state.
#[verifier::rlimit(100)]
pub fn play_removing(
    board: &mut Board,
    letters_on_board: &Vec<usize>,
    min_col: usize,
    max_col: usize,
    min_row: usize,
    max_row: usize,
    hand_letters: &Vec<usize>,
    valid_words_vec: &Vec<Vec<usize>>,
    valid_words_set: &Vec<Vec<usize>>,
    filter_letters_on_board: usize,
    max_words_to_check: usize,
) -> (res: Option<(usize, usize, usize, usize)>)
    requires
        search_inv(
            *old(board),
            letters_on_board@,
            min_col as int,
            max_col as int,
            min_row as int,
            max_row as int,
        ),
        letters_wf(hand_letters@),
        forall|l: int|
            0 <= l < LETTER_COUNT ==> #[trigger] hand_letters@[l] + count_val(
                old(board)@,
                l as usize,
            ) <= 2 * BOARD_AREA,
        words_list_wf(words_view(valid_words_vec@)),
        words_list_wf(words_view(valid_words_set@)),
    ensures
        res is None ==> final(board)@ == old(board)@,
        res matches Some(bb) ==> ({
            &&& final(board).wf()
            &&& bbox_wf(bb.0 as int, bb.1 as int, bb.2 as int, bb.3 as int)
            &&& occ_within(*final(board), bb.0 as int, bb.1 as int, bb.2 as int, bb.3 as int)
            &&& forall|l: int|
                0 <= l < LETTER_COUNT ==> count_val(final(board)@, (l as usize)) == count_val(
                    old(board)@,
                    #[trigger] (l as usize),
                ) + hand_letters@[l]
            &&& (connected_board(*old(board)) ==> connected_board(*final(board)))
            &&& (bbox_tight(
                *old(board),
                min_col as int,
                max_col as int,
                min_row as int,
                max_row as int,
            ) ==> bbox_tight(*final(board), bb.0 as int, bb.1 as int, bb.2 as int, bb.3 as int))
            &&& valid_board(*final(board), words_view(valid_words_set@))
        }),
    decreases BOARD_AREA - count_val(old(board)@, EMPTY_VALUE),
{
    let ghost b0: Board = *board;
    let entry_copy = board.duplicate();
    let ghost oracle: Seq<Seq<usize>> = words_view(valid_words_set@);
    let mut words_checked: usize = 0;
    let vw_len = valid_words_vec.len();
    let mut i: usize = 0;
    let mut budget_hit = false;
    while i < vw_len && !budget_hit
        invariant
            search_inv(b0, letters_on_board@, min_col as int, max_col as int, min_row as int, max_row as int),
            b0 == *old(board),
            entry_copy@ == b0@,
            oracle == words_view(valid_words_set@),
            board@ == b0@,
            letters_wf(hand_letters@),
            words_list_wf(words_view(valid_words_vec@)),
            words_list_wf(words_view(valid_words_set@)),
            vw_len == valid_words_vec@.len(),
        decreases vw_len - i,
    {
        proof {
            assert(words_view(valid_words_vec@)[i as int] == valid_words_vec@[i as int]@);
            lemma_search_inv_congruence(
                b0,
                *board,
                letters_on_board@,
                min_col as int,
                max_col as int,
                min_row as int,
                max_row as int,
            );
        }
        let mut lob_copy = copy_vec(letters_on_board);
        let ghost b_pre: Board = *board;
        let rh = try_play_word_horizontal(
            board,
            &valid_words_vec[i],
            min_col,
            max_col,
            min_row,
            max_row,
            valid_words_vec,
            valid_words_set,
            hand_letters,
            0,
            &mut words_checked,
            &mut lob_copy,
            filter_letters_on_board,
            max_words_to_check,
        );
        match rh {
            Ok(r) => {
                if let Some(bb) = r {
                    proof {
                        lemma_success_rebase(
                            b_pre,
                            b0,
                            *board,
                            lob_copy@,
                            hand_letters@,
                            oracle,
                            min_col as int,
                            max_col as int,
                            min_row as int,
                            max_row as int,
                            bb,
                        );
                    }
                    // Accept the arrangement only when every run of the
                    // whole board is a word; otherwise put the board back
                    // and keep searching.
                    if crate::validity::is_whole_board_valid(
                        board,
                        valid_words_set,
                        bb.0,
                        bb.1,
                        bb.2,
                        bb.3,
                    ) {
                        return Some(bb);
                    }
                    board.copy_from(&entry_copy);
                }
            },
            Err(()) => {
                budget_hit = true;
            },
        }
        if !budget_hit {
            proof {
                lemma_search_inv_congruence(
                    b0,
                    *board,
                    letters_on_board@,
                    min_col as int,
                    max_col as int,
                    min_row as int,
                    max_row as int,
                );
            }
            let mut lob_copy2 = copy_vec(letters_on_board);
            let ghost b_pre2: Board = *board;
            let rv = try_play_word_vertically(
                board,
                &valid_words_vec[i],
                min_col,
                max_col,
                min_row,
                max_row,
                valid_words_vec,
                valid_words_set,
                hand_letters,
                0,
                &mut words_checked,
                &mut lob_copy2,
                filter_letters_on_board,
                max_words_to_check,
            );
            match rv {
                Ok(r) => {
                    if let Some(bb) = r {
                        proof {
                            lemma_success_rebase(
                                b_pre2,
                                b0,
                                *board,
                                lob_copy2@,
                                hand_letters@,
                                oracle,
                                min_col as int,
                                max_col as int,
                                min_row as int,
                                max_row as int,
                                bb,
                            );
                        }
                        if crate::validity::is_whole_board_valid(
                            board,
                            valid_words_set,
                            bb.0,
                            bb.1,
                            bb.2,
                            bb.3,
                        ) {
                            return Some(bb);
                        }
                        board.copy_from(&entry_copy);
                    }
                },
                Err(()) => {
                    budget_hit = true;
                },
            }
        }
        i += 1;
    }
    if budget_hit {
        return None;
    }
    // Removal phase: peel a fragment, return its letters to the hand, and
    // recurse on the smaller board.
    proof {
        lemma_search_inv_congruence(
            b0,
            *board,
            letters_on_board@,
            min_col as int,
            max_col as int,
            min_row as int,
            max_row as int,
        );
    }
    let removable = sort_removable_asc(
        get_removable_indices(board, min_col, max_col, min_row, max_row),
    );
    let ghost frag_source: Board = *board;
    let rm_len = removable.len();
    let mut k: usize = 0;
    while k < rm_len
        invariant
            search_inv(b0, letters_on_board@, min_col as int, max_col as int, min_row as int, max_row as int),
            b0 == *old(board),
            oracle == words_view(valid_words_set@),
            board@ == b0@,
            frag_source@ == b0@,
            letters_wf(hand_letters@),
            forall|l: int|
                0 <= l < LETTER_COUNT ==> #[trigger] hand_letters@[l] + count_val(
                    b0@,
                    l as usize,
                ) <= 2 * BOARD_AREA,
            words_list_wf(words_view(valid_words_vec@)),
            words_list_wf(words_view(valid_words_set@)),
            rm_len == removable@.len(),
            forall|p: int| 0 <= p < removable@.len() ==> removable_ok(frag_source, #[trigger] removable@[p]),
        decreases rm_len - k,
    {
        let rmv = &removable[k];
        proof {
            assert(removable_ok(frag_source, removable@[k as int]));
        }
        let mut new_letters_on_board = copy_vec(letters_on_board);
        let ghost b_before_peel: Board = *board;
        let prev_vals = board.undo_play(&rmv.0, &mut new_letters_on_board);
        let ghost b_peeled: Board = *board;
        let mut new_hand_letters = copy_vec(hand_letters);
        let pv_len = prev_vals.len();
        proof {
            assert forall|l: int| 0 <= l < LETTER_COUNT implies #[trigger] hand_letters@[l]
                + count_val(prev_vals@, l as usize) <= 2 * BOARD_AREA by {
                assert(count_val(b_peeled@, (l as usize)) == count_val(
                    b_before_peel@,
                    l as usize,
                ) - count_val(prev_vals@, l as usize));
                lemma_count_val_up_to_bounds(b_peeled@, l as usize, b_peeled@.len() as int);
            }
            assert forall|l: int| 0 <= l < LETTER_COUNT implies count_val(
                prev_vals@.take(0),
                #[trigger] (l as usize),
            ) <= count_val(prev_vals@, l as usize) by {
                lemma_count_val_up_to_bounds(prev_vals@, l as usize, prev_vals@.len() as int);
                assert(count_val(prev_vals@.take(0), (l as usize)) == 0);
            }
        }
        let mut p: usize = 0;
        while p < pv_len
            invariant
                pv_len == prev_vals@.len(),
                p <= pv_len,
                letters_wf(new_hand_letters@),
                letters_wf(hand_letters@),
                forall|q: int| 0 <= q < prev_vals@.len() ==> #[trigger] prev_vals@[q] < LETTER_COUNT,
                forall|l: int|
                    0 <= l < LETTER_COUNT ==> #[trigger] new_hand_letters@[l] == hand_letters@[l]
                        + count_val(prev_vals@.take(p as int), l as usize),
                forall|l: int|
                    0 <= l < LETTER_COUNT ==> count_val(
                        prev_vals@.take(p as int),
                        #[trigger] (l as usize),
                    ) <= count_val(prev_vals@, l as usize),
                forall|l: int|
                    0 <= l < LETTER_COUNT ==> #[trigger] hand_letters@[l] + count_val(
                        prev_vals@,
                        l as usize,
                    ) <= 2 * BOARD_AREA,
            decreases pv_len - p,
        {
            let letter = prev_vals[p];
            proof {
                assert forall|l: int| 0 <= l < LETTER_COUNT implies count_val(
                    prev_vals@.take(p as int + 1),
                    #[trigger] (l as usize),
                ) == count_val(prev_vals@.take(p as int), l as usize) + (if l == letter as int {
                    1int
                } else {
                    0int
                }) by {
                    lemma_count_val_take_succ(prev_vals@, l as usize, p as int);
                    if l != letter as int {
                        assert(prev_vals@[p as int] != l as usize);
                    }
                }
                assert forall|l: int| 0 <= l < LETTER_COUNT implies count_val(
                    prev_vals@.take(p as int + 1),
                    #[trigger] (l as usize),
                ) <= count_val(prev_vals@, l as usize) by {
                    crate::words::lemma_count_val_take_le(
                        prev_vals@,
                        l as usize,
                        p as int + 1,
                        prev_vals@.len() as int,
                    );
                    lemma_count_val_take_full(prev_vals@, l as usize);
                }
            }
            let cur = new_hand_letters[letter];
            new_hand_letters.set(letter, cur + 1);
            p += 1;
        }
        proof {
            assert(prev_vals@.take(pv_len as int) =~= prev_vals@);
        }
        proof {
            // The peeled board satisfies the search invariant on the
            // fragment's tightened box, is connected, and its box is tight.
            assert forall|r: int, c: int| #[trigger] b_peeled.occ(r, c) implies occ_ex(
                frag_source,
                rmv.0@,
                r,
                c,
            ) by {
                if placed_has_cell(rmv.0@, r, c) {
                    let q = choose|q: int|
                        0 <= q < rmv.0@.len() && (#[trigger] rmv.0@[q]).0 == r && rmv.0@[q].1 == c;
                    assert(b_peeled.cell(r, c) == EMPTY_VALUE);
                } else {
                    assert(b_peeled.cell(r, c) == b_before_peel.cell(r, c));
                }
            }
            assert forall|r: int, c: int| occ_ex(frag_source, rmv.0@, r, c) implies #[trigger] b_peeled.occ(
                r,
                c,
            ) by {
                assert(b_peeled.cell(r, c) == b_before_peel.cell(r, c));
            }
            lemma_connected_ex_congruence(frag_source, b_before_peel, rmv.0@);
            lemma_erase_to_connected(b_before_peel, rmv.0@, b_peeled);
        }
        let nmin_col = rmv.1;
        let nmax_col = rmv.2;
        let nmin_row = rmv.3;
        let nmax_row = rmv.4;
        proof {
            assert(occ_within(b_peeled, nmin_col as int, nmax_col as int, nmin_row as int, nmax_row as int));
            assert(bbox_tight(b_peeled, nmin_col as int, nmax_col as int, nmin_row as int, nmax_row as int)) by {
                let c1 = choose|c: int| #[trigger] occ_ex(frag_source, rmv.0@, nmin_row as int, c);
                assert(b_peeled.occ(nmin_row as int, c1));
                let c2 = choose|c: int| #[trigger] occ_ex(frag_source, rmv.0@, nmax_row as int, c);
                assert(b_peeled.occ(nmax_row as int, c2));
                let r1 = choose|r: int| #[trigger] occ_ex(frag_source, rmv.0@, r, nmin_col as int);
                assert(b_peeled.occ(r1, nmin_col as int));
                let r2 = choose|r: int| #[trigger] occ_ex(frag_source, rmv.0@, r, nmax_col as int);
                assert(b_peeled.occ(r2, nmax_col as int));
            }
            // The peel freed at least one cell.
            assert(count_val(b_peeled@, EMPTY_VALUE) == count_val(b0@, EMPTY_VALUE)
                + rmv.0@.len());
            lemma_count_val_up_to_bounds(b_peeled@, EMPTY_VALUE, b_peeled@.len() as int);
            // Hand-plus-board totals carry over to the recursive call.
            assert forall|l: int| 0 <= l < LETTER_COUNT implies #[trigger] new_hand_letters@[l]
                + count_val(b_peeled@, l as usize) <= 2 * BOARD_AREA by {
                assert(new_hand_letters@[l] == hand_letters@[l] + count_val(
                    prev_vals@,
                    l as usize,
                ));
                assert(count_val(b_peeled@, (l as usize)) == count_val(b0@, l as usize)
                    - count_val(prev_vals@, l as usize));
            }
        }
        let rec = play_removing(
            board,
            &new_letters_on_board,
            nmin_col,
            nmax_col,
            nmin_row,
            nmax_row,
            &new_hand_letters,
            valid_words_vec,
            valid_words_set,
            filter_letters_on_board,
            max_words_to_check,
        );
        if let Some(bbres) = rec {
            proof {
                assert forall|l: int| 0 <= l < LETTER_COUNT implies count_val(
                    board@,
                    (l as usize),
                ) == count_val(b0@, #[trigger] (l as usize)) + hand_letters@[l] by {
                    assert(count_val(board@, (l as usize)) == count_val(b_peeled@, l as usize)
                        + new_hand_letters@[l]);
                    assert(count_val(b_peeled@, (l as usize)) == count_val(b0@, l as usize)
                        - count_val(prev_vals@, l as usize));
                    assert(new_hand_letters@[l] == hand_letters@[l] + count_val(
                        prev_vals@,
                        l as usize,
                    ));
                }
                if connected_board(b0) {
                }
            }
            return Some(bbres);
        }
        // Re-apply the fragment and try the next one.
        let ghost b_back: Board = *board;
        let frag_len = rmv.0.len();
        let mut q: usize = 0;
        while q < frag_len
            invariant
                board.wf(),
                board@.len() == BOARD_AREA,
                frag_len == rmv.0@.len(),
                frag_len == prev_vals@.len(),
                q <= frag_len,
                b_back@ == b_peeled@,
                b_before_peel.wf(),
                b_before_peel@.len() == BOARD_AREA,
                forall|j: int|
                    0 <= j < rmv.0@.len() ==> in_grid(
                        (#[trigger] rmv.0@[j]).0 as int,
                        rmv.0@[j].1 as int,
                    ),
                forall|j: int|
                    0 <= j < prev_vals@.len() ==> #[trigger] prev_vals@[j] == b_before_peel.cell(
                        rmv.0@[j].0 as int,
                        rmv.0@[j].1 as int,
                    ) && prev_vals@[j] < LETTER_COUNT,
                forall|r: int, c: int|
                    in_grid(r, c) && !placed_has_cell(rmv.0@, r, c) ==> #[trigger] b_peeled.cell(
                        r,
                        c,
                    ) == b_before_peel.cell(r, c),
                forall|r: int, c: int|
                    in_grid(r, c) && !placed_has_cell(rmv.0@.take(q as int), r, c)
                        ==> #[trigger] board.cell(r, c) == b_peeled.cell(r, c),
                forall|j: int|
                    0 <= j < q ==> board.cell(
                        (#[trigger] rmv.0@[j]).0 as int,
                        rmv.0@[j].1 as int,
                    ) == b_before_peel.cell(rmv.0@[j].0 as int, rmv.0@[j].1 as int),
                forall|j1: int, j2: int| 0 <= j1 < j2 < rmv.0@.len() ==> rmv.0@[j1] != rmv.0@[j2],
            decreases frag_len - q,
        {
            let (rr, cc) = rmv.0[q];
            board.set_val(rr, cc, prev_vals[q]);
            proof {
                assert forall|r: int, c: int|
                    in_grid(r, c) && !placed_has_cell(rmv.0@.take(q as int + 1), r, c)
                    implies #[trigger] board.cell(r, c) == b_peeled.cell(r, c) by {
                    assert(!placed_has_cell(rmv.0@.take(q as int), r, c)) by {
                        if placed_has_cell(rmv.0@.take(q as int), r, c) {
                            let j = choose|j: int|
                                0 <= j < q && (#[trigger] rmv.0@.take(q as int)[j]).0 == r
                                    && rmv.0@.take(q as int)[j].1 == c;
                            assert(rmv.0@.take(q as int + 1)[j] == rmv.0@.take(q as int)[j]);
                        }
                    }
                    assert(!(r == rr as int && c == cc as int)) by {
                        assert(rmv.0@.take(q as int + 1)[q as int] == (rr, cc));
                        if r == rr as int && c == cc as int {
                            assert(placed_has_cell(rmv.0@.take(q as int + 1), r, c));
                        }
                    }
                }
                assert forall|j: int| 0 <= j < q + 1 implies board.cell(
                    (#[trigger] rmv.0@[j]).0 as int,
                    rmv.0@[j].1 as int,
                ) == b_before_peel.cell(rmv.0@[j].0 as int, rmv.0@[j].1 as int) by {
                    if j < q {
                        assert(!(rmv.0@[j].0 == rr && rmv.0@[j].1 == cc));
                    }
                }
            }
            q += 1;
        }
        proof {
            assert(rmv.0@.take(frag_len as int) =~= rmv.0@);
            assert forall|r: int, c: int| in_grid(r, c) implies board.cell(r, c)
                == b_before_peel.cell(r, c) by {
                if placed_has_cell(rmv.0@, r, c) {
                    let j = choose|j: int|
                        0 <= j < rmv.0@.len() && (#[trigger] rmv.0@[j]).0 == r && rmv.0@[j].1 == c;
                }
            }
            lemma_board_ext_equal(*board, b_before_peel);
        }
        k += 1;
    }
    None
}

/// A successful placement re-based onto the boards of the caller: the final
/// board holds the entry board's tiles plus the whole hand.
pub proof fn lemma_success_rebase(
    b_pre: Board,
    b0: Board,
    bf: Board,
    lobf: Seq<usize>,
    hand: Seq<usize>,
    oracle: Seq<Seq<usize>>,
    min_col: int,
    max_col: int,
    min_row: int,
    max_row: int,
    bb: (usize, usize, usize, usize),
)
    requires
        b_pre.wf(),
        b0.wf(),
        b_pre@ == b0@,
        search_success(b_pre, bf, lobf, hand, oracle, min_col, max_col, min_row, max_row, bb),
    ensures
        bf.wf(),
        bbox_wf(bb.0 as int, bb.1 as int, bb.2 as int, bb.3 as int),
        occ_within(bf, bb.0 as int, bb.1 as int, bb.2 as int, bb.3 as int),
        forall|l: int|
            0 <= l < LETTER_COUNT ==> count_val(bf@, (l as usize)) == count_val(
                b0@,
                #[trigger] (l as usize),
            ) + hand[l],
        connected_board(b0) ==> connected_board(bf),
        bbox_tight(b0, min_col, max_col, min_row, max_row) ==> bbox_tight(
            bf,
            bb.0 as int,
            bb.1 as int,
            bb.2 as int,
            bb.3 as int,
        ),
{
    if connected_board(b0) {
        lemma_connected_congruence(b0, b_pre);
    }
    if bbox_tight(b0, min_col, max_col, min_row, max_row) {
        lemma_tight_congruence(b0, b_pre, min_col, max_col, min_row, max_row);
    }
}

} // verus!

verus! {

/// A hand with the listed tiles added back.
pub fn add_letters(hand: &Vec<usize>, vals: &Vec<usize>) -> (res: Vec<usize>)
    requires
        letters_wf(hand@),
        forall|q: int| 0 <= q < vals@.len() ==> #[trigger] vals@[q] < LETTER_COUNT,
        forall|l: int|
            0 <= l < LETTER_COUNT ==> #[trigger] hand@[l] + count_val(vals@, l as usize) <= 2
                * BOARD_AREA,
    ensures
        letters_wf(res@),
        forall|l: int|
            0 <= l < LETTER_COUNT ==> #[trigger] res@[l] == hand@[l] + count_val(
                vals@,
                l as usize,
            ),
{
    let mut res = copy_vec(hand);
    let n = vals.len();
    proof {
        assert forall|l: int| 0 <= l < LETTER_COUNT implies count_val(
            vals@.take(0),
            #[trigger] (l as usize),
        ) <= count_val(vals@, l as usize) by {
            lemma_count_val_up_to_bounds(vals@, l as usize, vals@.len() as int);
            assert(count_val(vals@.take(0), (l as usize)) == 0);
        }
    }
    let mut p: usize = 0;
    while p < n
        invariant
            letters_wf(hand@),
            letters_wf(res@),
            n == vals@.len(),
            p <= n,
            forall|q: int| 0 <= q < vals@.len() ==> #[trigger] vals@[q] < LETTER_COUNT,
            forall|l: int|
                0 <= l < LETTER_COUNT ==> #[trigger] res@[l] == hand@[l] + count_val(
                    vals@.take(p as int),
                    l as usize,
                ),
            forall|l: int|
                0 <= l < LETTER_COUNT ==> count_val(vals@.take(p as int), #[trigger] (l as usize))
                    <= count_val(vals@, l as usize),
            forall|l: int|
                0 <= l < LETTER_COUNT ==> #[trigger] hand@[l] + count_val(vals@, l as usize) <= 2
                    * BOARD_AREA,
        decreases n - p,
    {
        let letter = vals[p];
        proof {
            assert forall|l: int| 0 <= l < LETTER_COUNT implies count_val(
                vals@.take(p as int + 1),
                #[trigger] (l as usize),
            ) == count_val(vals@.take(p as int), l as usize) + (if l == letter as int {
                1int
            } else {
                0int
            }) by {
                lemma_count_val_take_succ(vals@, l as usize, p as int);
                if l != letter as int {
                    assert(vals@[p as int] != l as usize);
                }
            }
            assert forall|l: int| 0 <= l < LETTER_COUNT implies count_val(
                vals@.take(p as int + 1),
                #[trigger] (l as usize),
            ) <= count_val(vals@, l as usize) by {
                crate::words::lemma_count_val_take_le(
                    vals@,
                    l as usize,
                    p as int + 1,
                    vals@.len() as int,
                );
                lemma_count_val_take_full(vals@, l as usize);
            }
        }
        let cur = res[letter];
        res.set(letter, cur + 1);
        p += 1;
    }
    proof {
        assert(vals@.take(n as int) =~= vals@);
    }
    res
}

/// Filters the dictionary to the words playable from the hand plus at most
/// `k` board tiles.
pub fn filter_candidates(
    dict_to_use: &Dictionary,
    hand: &Vec<usize>,
    board_counts: &Vec<usize>,
    k: usize,
) -> (res: Vec<Vec<usize>>)
    requires
        dict_to_use.wf(),
        letters_wf(hand@),
        letters_wf(board_counts@),
    ensures
        words_list_wf(words_view(res@)),
{
    let mut res: Vec<Vec<usize>> = Vec::new();
    let n = dict_to_use.words.len();
    let mut i: usize = 0;
    while i < n
        invariant
            dict_to_use.wf(),
            letters_wf(hand@),
            letters_wf(board_counts@),
            n == dict_to_use.words@.len(),
            i <= n,
            words_list_wf(words_view(res@)),
        decreases n - i,
    {
        proof {
            assert(dict_to_use@[i as int] == dict_to_use.words@[i as int]@);
        }
        if check_filter_after_play_later(hand, board_counts, &dict_to_use.words[i], k) {
            let ghost before: Seq<Vec<usize>> = res@;
            res.push(copy_vec(&dict_to_use.words[i]));
            proof {
                assert forall|j: int| 0 <= j < words_view(res@).len() implies word_wf(
                    #[trigger] words_view(res@)[j],
                ) by {
                    if j < before.len() {
                        assert(words_view(res@)[j] == words_view(before)[j]);
                    } else {
                        assert(words_view(res@)[j] == dict_to_use.words@[i as int]@);
                    }
                }
            }
        }
        i += 1;
    }
    res
}

/// Extends a prior arrangement with the tiles of a grown hand: first by
/// playing candidate words directly against the old board, then by peeling
/// removable fragments and searching the smaller boards.  On success the
/// returned board holds exactly the new hand, stays in one piece if the old
/// board was, and carries a bounding box that is tight if the old one was.
#[verifier::rlimit(100)]
pub fn play_existing(
    old_board: &Board,
    min_col: usize,
    max_col: usize,
    min_row: usize,
    max_row: usize,
    letters: &Vec<usize>,
    valid_words_set: &Vec<Vec<usize>>,
    dict_to_use: &Dictionary,
    filter_letters_on_board: usize,
    max_words_to_check: usize,
) -> (res: Option<(Board, usize, usize, usize, usize)>)
    requires
        old_board.wf(),
        bbox_wf(min_col as int, max_col as int, min_row as int, max_row as int),
        occ_within(*old_board, min_col as int, max_col as int, min_row as int, max_row as int),
        letters_wf(letters@),
        forall|l: int| 0 <= l < LETTER_COUNT ==> #[trigger] letters@[l] <= BOARD_AREA,
        forall|l: int|
            0 <= l < LETTER_COUNT ==> count_val(old_board@, #[trigger] (l as usize)) <= letters@[l],
        dict_to_use.wf(),
        words_list_wf(words_view(valid_words_set@)),
    ensures
        res matches Some(t) ==> ({
            &&& t.0.wf()
            &&& bbox_wf(t.1 as int, t.2 as int, t.3 as int, t.4 as int)
            &&& occ_within(t.0, t.1 as int, t.2 as int, t.3 as int, t.4 as int)
            &&& forall|l: int|
                0 <= l < LETTER_COUNT ==> count_val(t.0@, #[trigger] (l as usize)) == letters@[l]
            &&& (connected_board(*old_board) ==> connected_board(t.0))
            &&& (bbox_tight(
                *old_board,
                min_col as int,
                max_col as int,
                min_row as int,
                max_row as int,
            ) ==> bbox_tight(t.0, t.1 as int, t.2 as int, t.3 as int, t.4 as int))
            &&& valid_board(t.0, words_view(valid_words_set@))
        }),
{
    let ghost oracle: Seq<Seq<usize>> = words_view(valid_words_set@);
    let (old_letters_on_board, _played_on_board) = count_board_letters(old_board);
    let mut hand_letters: Vec<usize> = Vec::new();
    let mut l: usize = 0;
    while l < LETTER_COUNT
        invariant
            letters_wf(letters@),
            counts_match(*old_board, old_letters_on_board@),
            old_board.wf(),
            forall|m: int|
                0 <= m < LETTER_COUNT ==> count_val(old_board@, #[trigger] (m as usize))
                    <= letters@[m],
            l <= LETTER_COUNT,
            hand_letters@.len() == l,
            forall|m: int|
                0 <= m < l ==> #[trigger] hand_letters@[m] == letters@[m] - count_val(
                    old_board@,
                    m as usize,
                ),
        decreases LETTER_COUNT - l,
    {
        let used = old_letters_on_board[l];
        hand_letters.push(letters[l] - used);
        l += 1;
    }
    let valid_words_vec = filter_candidates(
        dict_to_use,
        &hand_letters,
        &old_letters_on_board,
        filter_letters_on_board,
    );
    // Additive phase: play against a copy of the old board.
    let mut words_checked: usize = 0;
    let mut board = old_board.duplicate();
    let vw_len = valid_words_vec.len();
    let mut i: usize = 0;
    let mut budget_hit = false;
    while i < vw_len && !budget_hit
        invariant
            old_board.wf(),
            bbox_wf(min_col as int, max_col as int, min_row as int, max_row as int),
            occ_within(*old_board, min_col as int, max_col as int, min_row as int, max_row as int),
            counts_match(*old_board, old_letters_on_board@),
            oracle == words_view(valid_words_set@),
            board@ == old_board@,
            letters_wf(letters@),
            letters_wf(hand_letters@),
            forall|m: int|
                0 <= m < LETTER_COUNT ==> #[trigger] hand_letters@[m] == letters@[m] - count_val(
                    old_board@,
                    m as usize,
                ),
            words_list_wf(words_view(valid_words_vec@)),
            words_list_wf(words_view(valid_words_set@)),
            vw_len == valid_words_vec@.len(),
        decreases vw_len - i,
    {
        proof {
            assert(counts_match(board, old_letters_on_board@));
            assert(words_view(valid_words_vec@)[i as int] == valid_words_vec@[i as int]@);
            lemma_search_inv_congruence(
                *old_board,
                board,
                old_letters_on_board@,
                min_col as int,
                max_col as int,
                min_row as int,
                max_row as int,
            );
        }
        let ghost b_pre: Board = board;
        let mut lob_copy = copy_vec(&old_letters_on_board);
        let rh = try_play_word_horizontal(
            &mut board,
            &valid_words_vec[i],
            min_col,
            max_col,
            min_row,
            max_row,
            &valid_words_vec,
            valid_words_set,
            &hand_letters,
            0,
            &mut words_checked,
            &mut lob_copy,
            filter_letters_on_board,
            max_words_to_check,
        );
        match rh {
            Ok(r) => {
                if let Some(bb) = r {
                    proof {
                        lemma_success_rebase(
                            b_pre,
                            *old_board,
                            board,
                            lob_copy@,
                            hand_letters@,
                            oracle,
                            min_col as int,
                            max_col as int,
                            min_row as int,
                            max_row as int,
                            bb,
                        );
                    }
                    // Accept only a board whose every run is a word of the
                    // list; otherwise return to the old arrangement and
                    // keep searching.
                    if crate::validity::is_whole_board_valid(
                        &board,
                        valid_words_set,
                        bb.0,
                        bb.1,
                        bb.2,
                        bb.3,
                    ) {
                        return Some((board, bb.0, bb.1, bb.2, bb.3));
                    }
                    board.copy_from(old_board);
                }
            },
            Err(()) => {
                budget_hit = true;
            },
        }
        if !budget_hit {
            proof {
                assert(counts_match(board, old_letters_on_board@));
                assert(words_view(valid_words_vec@)[i as int] == valid_words_vec@[i as int]@);
                lemma_search_inv_congruence(
                    *old_board,
                    board,
                    old_letters_on_board@,
                    min_col as int,
                    max_col as int,
                    min_row as int,
                    max_row as int,
                );
            }
            let ghost b_pre2: Board = board;
            let mut lob_copy2 = copy_vec(&old_letters_on_board);
            let rv = try_play_word_vertically(
                &mut board,
                &valid_words_vec[i],
                min_col,
                max_col,
                min_row,
                max_row,
                &valid_words_vec,
                valid_words_set,
                &hand_letters,
                0,
                &mut words_checked,
                &mut lob_copy2,
                filter_letters_on_board,
                max_words_to_check,
            );
            match rv {
                Ok(r) => {
                    if let Some(bb) = r {
                        proof {
                            lemma_success_rebase(
                                b_pre2,
                                *old_board,
                                board,
                                lob_copy2@,
                                hand_letters@,
                                oracle,
                                min_col as int,
                                max_col as int,
                                min_row as int,
                                max_row as int,
                                bb,
                            );
                        }
                        if crate::validity::is_whole_board_valid(
                            &board,
                            valid_words_set,
                            bb.0,
                            bb.1,
                            bb.2,
                            bb.3,
                        ) {
                            return Some((board, bb.0, bb.1, bb.2, bb.3));
                        }
                        board.copy_from(old_board);
                    }
                },
                Err(()) => {
                    budget_hit = true;
                },
            }
        }
        i += 1;
    }
    // Removal phase: peel a fragment of the old arrangement and search the
    // remainder with the returned tiles added to the hand.
    let removable = sort_removable_asc(
        get_removable_indices(old_board, min_col, max_col, min_row, max_row),
    );
    let mut cloned_board = old_board.duplicate();
    let rm_len = removable.len();
    let mut k: usize = 0;
    while k < rm_len
        invariant
            old_board.wf(),
            bbox_wf(min_col as int, max_col as int, min_row as int, max_row as int),
            occ_within(*old_board, min_col as int, max_col as int, min_row as int, max_row as int),
            counts_match(*old_board, old_letters_on_board@),
            oracle == words_view(valid_words_set@),
            cloned_board@ == old_board@,
            letters_wf(letters@),
            letters_wf(hand_letters@),
            forall|m: int| 0 <= m < LETTER_COUNT ==> #[trigger] letters@[m] <= BOARD_AREA,
            forall|m: int|
                0 <= m < LETTER_COUNT ==> #[trigger] hand_letters@[m] == letters@[m] - count_val(
                    old_board@,
                    m as usize,
                ),
            forall|m: int|
                0 <= m < LETTER_COUNT ==> count_val(old_board@, #[trigger] (m as usize))
                    <= letters@[m],
            dict_to_use.wf(),
            words_list_wf(words_view(valid_words_set@)),
            rm_len == removable@.len(),
            forall|p: int|
                0 <= p < removable@.len() ==> removable_ok(*old_board, #[trigger] removable@[p]),
        decreases rm_len - k,
    {
        let rmv = &removable[k];
        proof {
            assert(removable_ok(*old_board, removable@[k as int]));
        }
        let mut new_letters_on_board = copy_vec(&old_letters_on_board);
        let ghost b_before_peel: Board = cloned_board;
        proof {
            assert(counts_match(cloned_board, new_letters_on_board@));
        }
        let prev_vals = cloned_board.undo_play(&rmv.0, &mut new_letters_on_board);
        let ghost b_peeled: Board = cloned_board;
        proof {
            assert forall|m: int| 0 <= m < LETTER_COUNT implies #[trigger] hand_letters@[m]
                + count_val(prev_vals@, m as usize) <= 2 * BOARD_AREA by {
                assert(count_val(b_peeled@, (m as usize)) == count_val(b_before_peel@, m as usize)
                    - count_val(prev_vals@, m as usize));
                lemma_count_val_up_to_bounds(b_peeled@, m as usize, b_peeled@.len() as int);
                assert(hand_letters@[m] == letters@[m] - count_val(old_board@, m as usize));
            }
        }
        let new_hand_letters = add_letters(&hand_letters, &prev_vals);
        proof {
            assert forall|r: int, c: int| #[trigger] b_peeled.occ(r, c) implies occ_ex(
                *old_board,
                rmv.0@,
                r,
                c,
            ) by {
                if placed_has_cell(rmv.0@, r, c) {
                    let q = choose|q: int|
                        0 <= q < rmv.0@.len() && (#[trigger] rmv.0@[q]).0 == r && rmv.0@[q].1 == c;
                    assert(b_peeled.cell(r, c) == EMPTY_VALUE);
                } else {
                    assert(b_peeled.cell(r, c) == b_before_peel.cell(r, c));
                }
            }
            assert forall|r: int, c: int| occ_ex(*old_board, rmv.0@, r, c) implies #[trigger] b_peeled.occ(
                r,
                c,
            ) by {
                assert(b_peeled.cell(r, c) == b_before_peel.cell(r, c));
            }
            lemma_connected_ex_congruence(*old_board, b_before_peel, rmv.0@);
            lemma_erase_to_connected(b_before_peel, rmv.0@, b_peeled);
            assert(occ_within(b_peeled, rmv.1 as int, rmv.2 as int, rmv.3 as int, rmv.4 as int));
            assert(bbox_tight(b_peeled, rmv.1 as int, rmv.2 as int, rmv.3 as int, rmv.4 as int))
                by {
                let c1 = choose|c: int| #[trigger] occ_ex(*old_board, rmv.0@, rmv.3 as int, c);
                assert(b_peeled.occ(rmv.3 as int, c1));
                let c2 = choose|c: int| #[trigger] occ_ex(*old_board, rmv.0@, rmv.4 as int, c);
                assert(b_peeled.occ(rmv.4 as int, c2));
                let r1 = choose|r: int| #[trigger] occ_ex(*old_board, rmv.0@, r, rmv.1 as int);
                assert(b_peeled.occ(r1, rmv.1 as int));
                let r2 = choose|r: int| #[trigger] occ_ex(*old_board, rmv.0@, r, rmv.2 as int);
                assert(b_peeled.occ(r2, rmv.2 as int));
            }
            assert forall|m: int| 0 <= m < LETTER_COUNT implies #[trigger] new_hand_letters@[m]
                + count_val(b_peeled@, m as usize) <= 2 * BOARD_AREA by {
                assert(count_val(b_peeled@, (m as usize)) == count_val(b_before_peel@, m as usize)
                    - count_val(prev_vals@, m as usize));
                assert(new_hand_letters@[m] == hand_letters@[m] + count_val(
                    prev_vals@,
                    m as usize,
                ));
            }
        }
        let valid_words_vec2 = filter_candidates(
            dict_to_use,
            &new_hand_letters,
            &new_letters_on_board,
            filter_letters_on_board,
        );
        let rec = play_removing(
            &mut cloned_board,
            &new_letters_on_board,
            rmv.1,
            rmv.2,
            rmv.3,
            rmv.4,
            &new_hand_letters,
            &valid_words_vec2,
            valid_words_set,
            filter_letters_on_board,
            max_words_to_check,
        );
        if let Some(bbres) = rec {
            proof {
                assert forall|m: int| 0 <= m < LETTER_COUNT implies count_val(
                    cloned_board@,
                    (m as usize),
                ) == letters@[m] by {
                    assert(count_val(cloned_board@, (m as usize)) == count_val(
                        b_peeled@,
                        m as usize,
                    ) + new_hand_letters@[m]);
                    assert(count_val(b_peeled@, (m as usize)) == count_val(
                        b_before_peel@,
                        m as usize,
                    ) - count_val(prev_vals@, m as usize));
                    assert(new_hand_letters@[m] == hand_letters@[m] + count_val(
                        prev_vals@,
                        m as usize,
                    ));
                }
            }
            return Some((cloned_board, bbres.0, bbres.1, bbres.2, bbres.3));
        }
        // Re-apply the fragment before trying the next one.
        let frag_len = rmv.0.len();
        let mut q: usize = 0;
        while q < frag_len
            invariant
                cloned_board.wf(),
                cloned_board@.len() == BOARD_AREA,
                frag_len == rmv.0@.len(),
                frag_len == prev_vals@.len(),
                q <= frag_len,
                b_before_peel.wf(),
                b_before_peel@.len() == BOARD_AREA,
                forall|j: int|
                    0 <= j < rmv.0@.len() ==> in_grid(
                        (#[trigger] rmv.0@[j]).0 as int,
                        rmv.0@[j].1 as int,
                    ),
                forall|j: int|
                    0 <= j < prev_vals@.len() ==> #[trigger] prev_vals@[j] == b_before_peel.cell(
                        rmv.0@[j].0 as int,
                        rmv.0@[j].1 as int,
                    ) && prev_vals@[j] < LETTER_COUNT,
                forall|r: int, c: int|
                    in_grid(r, c) && !placed_has_cell(rmv.0@, r, c) ==> #[trigger] b_peeled.cell(
                        r,
                        c,
                    ) == b_before_peel.cell(r, c),
                forall|r: int, c: int|
                    in_grid(r, c) && !placed_has_cell(rmv.0@.take(q as int), r, c)
                        ==> #[trigger] cloned_board.cell(r, c) == b_peeled.cell(r, c),
                forall|j: int|
                    0 <= j < q ==> cloned_board.cell(
                        (#[trigger] rmv.0@[j]).0 as int,
                        rmv.0@[j].1 as int,
                    ) == b_before_peel.cell(rmv.0@[j].0 as int, rmv.0@[j].1 as int),
                forall|j1: int, j2: int| 0 <= j1 < j2 < rmv.0@.len() ==> rmv.0@[j1] != rmv.0@[j2],
            decreases frag_len - q,
        {
            let (rr, cc) = rmv.0[q];
            cloned_board.set_val(rr, cc, prev_vals[q]);
            proof {
                assert forall|r: int, c: int|
                    in_grid(r, c) && !placed_has_cell(rmv.0@.take(q as int + 1), r, c)
                    implies #[trigger] cloned_board.cell(r, c) == b_peeled.cell(r, c) by {
                    assert(!placed_has_cell(rmv.0@.take(q as int), r, c)) by {
                        if placed_has_cell(rmv.0@.take(q as int), r, c) {
                            let j = choose|j: int|
                                0 <= j < q && (#[trigger] rmv.0@.take(q as int)[j]).0 == r
                                    && rmv.0@.take(q as int)[j].1 == c;
                            assert(rmv.0@.take(q as int + 1)[j] == rmv.0@.take(q as int)[j]);
                        }
                    }
                    assert(!(r == rr as int && c == cc as int)) by {
                        assert(rmv.0@.take(q as int + 1)[q as int] == (rr, cc));
                        if r == rr as int && c == cc as int {
                            assert(placed_has_cell(rmv.0@.take(q as int + 1), r, c));
                        }
                    }
                }
                assert forall|j: int| 0 <= j < q + 1 implies cloned_board.cell(
                    (#[trigger] rmv.0@[j]).0 as int,
                    rmv.0@[j].1 as int,
                ) == b_before_peel.cell(rmv.0@[j].0 as int, rmv.0@[j].1 as int) by {
                    if j < q {
                        assert(!(rmv.0@[j].0 == rr && rmv.0@[j].1 == cc));
                    }
                }
            }
            q += 1;
        }
        proof {
            assert(rmv.0@.take(frag_len as int) =~= rmv.0@);
            assert forall|r: int, c: int| in_grid(r, c) implies cloned_board.cell(r, c)
                == b_before_peel.cell(r, c) by {
                if placed_has_cell(rmv.0@, r, c) {
                    let j = choose|j: int|
                        0 <= j < rmv.0@.len() && (#[trigger] rmv.0@[j]).0 == r && rmv.0@[j].1 == c;
                }
            }
            lemma_board_ext_equal(cloned_board, b_before_peel);
        }
        k += 1;
    }
    None
}

} // verus!
