//! End-to-end and unit tests of the solver, on small hand-built
//! dictionaries.

use bg_solver::board::{Board, BOARD_SIZE, EMPTY_VALUE};
use bg_solver::connectivity::is_connected;
use bg_solver::existing::{compare_hands, LetterComparison};
use bg_solver::removal::get_removable_indices;
use bg_solver::solve::{
    get_playable_words, play_from_existing, play_from_scratch, SolveError, Solution,
};
use bg_solver::search::play_further;
use bg_solver::words::{
    check_filter_after_play, check_filter_after_play_later, convert_array_to_word,
    convert_word_to_array, is_makeable, Dictionary,
};

fn hand(pairs: &[(char, usize)]) -> Vec<usize> {
    let mut h = vec![0usize; 26];
    for &(c, n) in pairs {
        h[(c as usize) - 65] += n;
    }
    h
}

fn dict(words: &[&str]) -> Dictionary {
    let lines: Vec<String> = words.iter().map(|w| w.to_string()).collect();
    Dictionary::new(&lines)
}

fn board_counts(board: &[usize]) -> Vec<usize> {
    let mut counts = vec![0usize; 26];
    for &v in board {
        if v != EMPTY_VALUE {
            counts[v] += 1;
        }
    }
    counts
}

fn empty_old_board() -> Vec<usize> {
    Vec::new()
}

#[test]
fn convert_word_drops_non_uppercase() {
    assert_eq!(convert_word_to_array("CAT"), vec![2, 0, 19]);
    assert_eq!(convert_word_to_array("C-a.T!"), vec![2, 19]);
    assert_eq!(convert_word_to_array("xyz"), Vec::<usize>::new());
}

#[test]
fn convert_array_renders_letters() {
    let w = vec![2usize, 0, 19, 18];
    assert_eq!(convert_array_to_word(&w), "CATS".to_string());
}

#[test]
fn dictionary_sorts_by_length_and_drops_empty() {
    let d = dict(&["AT", "CATS", "x", "A", "THISWORDISMUCHTOOLONGTOKEEP"]);
    let words: Vec<String> = d.words.iter().map(|w| convert_array_to_word(w)).collect();
    assert_eq!(words, vec!["CATS".to_string(), "AT".to_string(), "A".to_string()]);
}

#[test]
fn makeable_needs_every_letter() {
    let at = convert_word_to_array("AT");
    assert!(is_makeable(&at, &hand(&[('A', 1), ('T', 1)])));
    assert!(!is_makeable(&at, &hand(&[('A', 1)])));
    let aa = convert_word_to_array("AA");
    assert!(!is_makeable(&aa, &hand(&[('A', 1)])));
    assert!(is_makeable(&aa, &hand(&[('A', 2)])));
}

#[test]
fn filter_after_play_later_borrows_up_to_k() {
    let cat = convert_word_to_array("CAT");
    let h = hand(&[('C', 1), ('A', 1)]);
    let board_letters = hand(&[('T', 1)]);
    assert!(check_filter_after_play_later(&h, &board_letters, &cat, 1));
    assert!(!check_filter_after_play_later(&h, &board_letters, &cat, 0));
    let none = hand(&[]);
    assert!(!check_filter_after_play_later(&h, &none, &cat, 1));
}

#[test]
fn filter_after_play_allows_one_borrowed_letter() {
    let cat = convert_word_to_array("CAT");
    let h = hand(&[('C', 1), ('A', 1)]);
    let mut played = vec![false; 26];
    played[19] = true; // T appears on the board
    assert!(check_filter_after_play(&h, &cat, &played));
    let h2 = hand(&[('C', 1)]);
    assert!(!check_filter_after_play(&h2, &cat, &played)); // two letters short
    let not_played = vec![false; 26];
    assert!(!check_filter_after_play(&h, &cat, &not_played));
}

#[test]
fn play_word_then_undo_restores_board() {
    // An `AT` on the centre row, then a vertical `TEA` crossing its `A`
    // is played and undone; the board must come back bit for bit.
    let mut board = Board::new();
    board.set_val(72, 71, 0); // A
    board.set_val(72, 72, 19); // T
    let mut letters_on_board = vec![0usize; 26];
    letters_on_board[0] = 1;
    letters_on_board[19] = 1;
    let before: Vec<usize> = board.cells().clone();
    let lob_before = letters_on_board.clone();

    let tea = convert_word_to_array("TEA");
    let h = hand(&[('T', 1), ('E', 1)]);
    let (ok, played, remaining, _usage) =
        board.play_word(&tea, 70, 71, bg_solver::board::Direction::Vertical, &h, &mut letters_on_board);
    assert!(ok);
    assert_eq!(played.len(), 2); // T and E are new; A overlaps
    assert_eq!(remaining.iter().sum::<usize>(), 0);
    assert_eq!(board.get_val(70, 71), 19);
    assert_eq!(board.get_val(71, 71), 4);

    board.undo_play(&played, &mut letters_on_board);
    assert_eq!(board.cells(), &before);
    assert_eq!(letters_on_board, lob_before);
}

#[test]
fn compare_hands_classifies() {
    let base = hand(&[('A', 2), ('T', 1)]);
    assert_eq!(compare_hands(&base, &base).0, LetterComparison::Same);
    let plus_one = hand(&[('A', 2), ('T', 1), ('O', 1)]);
    let (cls, idx) = compare_hands(&plus_one, &base);
    assert_eq!(cls, LetterComparison::GreaterByOne);
    assert_eq!(idx, 14); // O
    let plus_two_same = hand(&[('A', 4), ('T', 1)]);
    assert_eq!(compare_hands(&plus_two_same, &base).0, LetterComparison::GreaterByMoreThanOne);
    let plus_spread = hand(&[('A', 3), ('T', 2)]);
    assert_eq!(compare_hands(&plus_spread, &base).0, LetterComparison::GreaterByMoreThanOne);
    let less = hand(&[('A', 1), ('T', 1), ('Z', 5)]);
    assert_eq!(compare_hands(&less, &base).0, LetterComparison::SomeLess);
}

#[test]
fn connectivity_check_sees_splits() {
    let mut board = Board::new();
    // A 2x1 pair and a distant single cell.
    board.set_val(10, 10, 0);
    board.set_val(10, 11, 1);
    board.set_val(12, 11, 2);
    assert!(!is_connected(&board, 10, 11, 10, 12, &Vec::new()));
    // Ignoring the distant cell makes the rest connected.
    assert!(is_connected(&board, 10, 11, 10, 12, &vec![(12usize, 11usize)]));
    // Bridging the gap connects everything.
    board.set_val(11, 11, 3);
    assert!(is_connected(&board, 10, 11, 10, 12, &Vec::new()));
}

#[test]
fn removable_fragments_are_pendant_runs() {
    // CATS across row 72 (cols 70-73) with AT crossing down at the A.
    let mut board = Board::new();
    for (i, v) in [2usize, 0, 19, 18].iter().enumerate() {
        board.set_val(72, 70 + i, *v);
    }
    board.set_val(73, 71, 19); // T under the A
    let frags = get_removable_indices(&board, 70, 73, 72, 73);
    let mut cells: Vec<Vec<(usize, usize)>> = frags.iter().map(|f| f.0.clone()).collect();
    cells.sort();
    assert!(cells.contains(&vec![(72, 70)])); // the C
    assert!(cells.contains(&vec![(72, 72), (72, 73)])); // the TS tail
    // Removing a fragment always leaves a connected remainder.
    for f in &frags {
        assert!(is_connected(&board, 70, 73, 72, 73, &f.0));
    }
}

#[test]
fn lone_word_is_not_removable() {
    let mut board = Board::new();
    for (i, v) in [2usize, 0, 19, 18].iter().enumerate() {
        board.set_val(72, 70 + i, *v);
    }
    let frags = get_removable_indices(&board, 70, 73, 72, 72);
    assert!(frags.is_empty());
}

#[test]
fn scratch_single_letter_hand() {
    let d = dict(&["I", "AT"]);
    let sol = play_from_scratch(&hand(&[('I', 1)]), &d, 1, 1000, &empty_old_board(), 0, 0, 0, 0)
        .ok()
        .expect("single letter should solve");
    assert_eq!(sol.min_col, 72);
    assert_eq!(sol.max_col, 72);
    assert_eq!(sol.min_row, 72);
    assert_eq!(sol.max_row, 72);
    assert_eq!(sol.board[72 * 144 + 72], 8); // I
    assert_eq!(sol.board_string, vec![vec!["I".to_string()]]);
}

#[test]
fn scratch_rejects_unusable_hand() {
    let d = dict(&["I", "AT"]);
    let res = play_from_scratch(&hand(&[('Q', 1)]), &d, 1, 1000, &empty_old_board(), 0, 0, 0, 0);
    match res {
        Err(e) => {
            assert_eq!(e, SolveError::NoValidWords);
            assert_eq!(
                e.message(),
                "No valid words can be formed from the current letters - dump and try again!"
            );
        }
        Ok(_) => panic!("hand with only Q must fail"),
    }
}

#[test]
fn scratch_places_at_on_centre_row() {
    let d = dict(&["AT"]);
    let sol = play_from_scratch(
        &hand(&[('A', 1), ('T', 1)]),
        &d,
        1,
        1000,
        &empty_old_board(),
        0,
        0,
        0,
        0,
    )
    .ok()
    .expect("AT should solve");
    assert_eq!((sol.min_row, sol.max_row, sol.min_col, sol.max_col), (72, 72, 71, 72));
    assert_eq!(sol.board[72 * 144 + 71], 0); // A
    assert_eq!(sol.board[72 * 144 + 72], 19); // T
    assert_eq!(sol.board_string, vec![vec!["A".to_string(), "T".to_string()]]);
    assert_eq!(sol.letters, hand(&[('A', 1), ('T', 1)]));
}

#[test]
fn scratch_consumes_whole_hand() {
    let d = dict(&["CAT", "CATS", "ACT", "ACTS"]);
    let h = hand(&[('C', 1), ('A', 1), ('T', 1), ('S', 1)]);
    let sol = play_from_scratch(&h, &d, 1, 100000, &empty_old_board(), 0, 0, 0, 0)
        .ok()
        .expect("CATS should solve");
    assert_eq!(board_counts(&sol.board), h);
    assert_eq!(sol.letters, h);
}

#[test]
fn scratch_crosses_words_when_needed() {
    let d = dict(&["AT", "EAT", "TEA"]);
    let h = hand(&[('A', 1), ('T', 1), ('E', 1)]);
    let sol = play_from_scratch(&h, &d, 1, 100000, &empty_old_board(), 0, 0, 0, 0)
        .ok()
        .expect("ATE letters should solve");
    assert_eq!(board_counts(&sol.board), h);
}

#[test]
fn existing_same_hand_returns_board_unchanged() {
    let d = dict(&["CAT", "CATS", "ACT", "ACTS"]);
    let h = hand(&[('C', 1), ('A', 1), ('T', 1), ('S', 1)]);
    let sol = play_from_scratch(&h, &d, 1, 100000, &empty_old_board(), 0, 0, 0, 0)
        .ok()
        .expect("CATS should solve");
    let again = play_from_existing(
        &h,
        &h,
        &d,
        1,
        100000,
        &sol.board,
        sol.min_col,
        sol.max_col,
        sol.min_row,
        sol.max_row,
    )
    .ok()
    .expect("same hand must keep the board");
    assert_eq!(again.board, sol.board);
    assert_eq!(
        (again.min_col, again.max_col, again.min_row, again.max_row),
        (sol.min_col, sol.max_col, sol.min_row, sol.max_row)
    );
    assert_eq!(again.letters, h);
}

#[test]
fn existing_single_added_tile() {
    let d = dict(&["AT", "TS", "AS"]);
    let old_hand = hand(&[('A', 1), ('T', 1)]);
    let sol = play_from_scratch(&old_hand, &d, 1, 100000, &empty_old_board(), 0, 0, 0, 0)
        .ok()
        .expect("AT should solve");
    let new_hand = hand(&[('A', 1), ('T', 1), ('S', 1)]);
    let extended = play_from_existing(
        &new_hand,
        &old_hand,
        &d,
        1,
        100000,
        &sol.board,
        sol.min_col,
        sol.max_col,
        sol.min_row,
        sol.max_row,
    )
    .ok()
    .expect("adding an S must solve");
    assert_eq!(board_counts(&extended.board), new_hand);
    assert_eq!(extended.letters, new_hand);
}

#[test]
fn existing_smaller_hand_rebuilds_from_scratch() {
    let d = dict(&["CAT", "CATS", "ACT", "ACTS", "AT"]);
    let old_hand = hand(&[('C', 1), ('A', 1), ('T', 1), ('S', 1)]);
    let sol = play_from_scratch(&old_hand, &d, 1, 100000, &empty_old_board(), 0, 0, 0, 0)
        .ok()
        .expect("CATS should solve");
    let new_hand = hand(&[('C', 1), ('A', 1), ('T', 1)]);
    let rebuilt = play_from_existing(
        &new_hand,
        &old_hand,
        &d,
        1,
        100000,
        &sol.board,
        sol.min_col,
        sol.max_col,
        sol.min_row,
        sol.max_row,
    )
    .ok()
    .expect("CAT should rebuild");
    assert_eq!(board_counts(&rebuilt.board), new_hand);
}

#[test]
fn overlap_annotation_stars_shared_cells() {
    let d = dict(&["AT"]);
    let h = hand(&[('A', 1), ('T', 1)]);
    let first = play_from_scratch(&h, &d, 1, 1000, &empty_old_board(), 0, 0, 0, 0)
        .ok()
        .expect("AT should solve");
    // Solving again with the first board as the prior one marks every cell.
    let second = play_from_scratch(
        &h,
        &d,
        1,
        1000,
        &first.board,
        first.min_col,
        first.max_col,
        first.min_row,
        first.max_row,
    )
    .ok()
    .expect("AT should solve again");
    assert_eq!(second.board_string, vec![vec!["A*".to_string(), "T*".to_string()]]);
}

#[test]
fn unsolvable_hand_reports_no_solution_and_leaves_no_state() {
    // 21 tiles, but the dictionary cannot use the Qs at all.
    let d = dict(&["AT", "TA"]);
    let h = hand(&[('A', 7), ('T', 7), ('Q', 7)]);
    let r1 = play_from_scratch(&h, &d, 2, 1000, &empty_old_board(), 0, 0, 0, 0);
    let r2 = play_from_scratch(&h, &d, 2, 1000, &empty_old_board(), 0, 0, 0, 0);
    match (r1, r2) {
        (Err(e1), Err(e2)) => {
            assert_eq!(e1, SolveError::NoSolution);
            assert_eq!(e2, SolveError::NoSolution);
            assert_eq!(e1.message(), "No solution found - dump and try again!");
        }
        _ => panic!("unusable hand must fail both times"),
    }
}

#[test]
fn playable_words_keep_dictionary_order() {
    let short = dict(&["AT", "A"]);
    let long = dict(&["TAT", "TA", "AT"]);
    let res = get_playable_words(&hand(&[('A', 1), ('T', 1)]), &short, &long);
    assert_eq!(res.short, vec!["AT".to_string(), "A".to_string()]);
    assert_eq!(res.long, vec!["TA".to_string(), "AT".to_string()]);
}

#[test]
fn returned_runs_are_dictionary_words() {
    // Check the full-board word rule on a solved hand by re-reading runs.
    let d = dict(&["CAT", "CATS", "ACT", "ACTS", "AT", "TA"]);
    let h = hand(&[('C', 1), ('A', 2), ('T', 2), ('S', 1)]);
    let sol = play_from_scratch(&h, &d, 1, 100000, &empty_old_board(), 0, 0, 0, 0)
        .ok()
        .expect("hand should solve");
    let words: Vec<String> = vec!["CAT", "CATS", "ACT", "ACTS", "AT", "TA"]
        .into_iter()
        .map(|s| s.to_string())
        .collect();
    let get = |r: usize, c: usize| sol.board[r * BOARD_SIZE + c];
    for r in 0..BOARD_SIZE {
        for c in 0..BOARD_SIZE {
            if get(r, c) != EMPTY_VALUE {
                // Horizontal run start?
                if c == 0 || get(r, c - 1) == EMPTY_VALUE {
                    let mut e = c;
                    while e + 1 < BOARD_SIZE && get(r, e + 1) != EMPTY_VALUE {
                        e += 1;
                    }
                    if e > c {
                        let w: String =
                            (c..=e).map(|cc| ((get(r, cc) as u8) + 65) as char).collect();
                        assert!(words.contains(&w), "run {} is not a word", w);
                    }
                }
                // Vertical run start?
                if r == 0 || get(r - 1, c) == EMPTY_VALUE {
                    let mut e = r;
                    while e + 1 < BOARD_SIZE && get(e + 1, c) != EMPTY_VALUE {
                        e += 1;
                    }
                    if e > r {
                        let w: String =
                            (r..=e).map(|rr| ((get(rr, c) as u8) + 65) as char).collect();
                        assert!(words.contains(&w), "run {} is not a word", w);
                    }
                }
            }
        }
    }
}

#[test]
fn solution_type_exposes_fields() {
    let d = dict(&["AT"]);
    let h = hand(&[('A', 1), ('T', 1)]);
    let sol: Solution = play_from_scratch(&h, &d, 1, 1000, &empty_old_board(), 0, 0, 0, 0)
        .ok()
        .expect("AT should solve");
    assert_eq!(sol.board.len(), BOARD_SIZE * BOARD_SIZE);
    assert_eq!(sol.board_string.len(), sol.max_row + 1 - sol.min_row);
    assert_eq!(sol.board_string[0].len(), sol.max_col + 1 - sol.min_col);
}

#[test]
fn touch_predicate_degrades_at_grid_edge() {
    // An `AT` in the top-left corner: a vertical word through its `T`
    // touches through a perpendicular neighbour even though the cell above
    // the word start lies off the grid.
    let mut board = Board::new();
    board.set_val(0, 0, 0); // A
    board.set_val(0, 1, 19); // T
    let mut letters_on_board = vec![0usize; 26];
    letters_on_board[0] = 1;
    letters_on_board[19] = 1;
    let tea = convert_word_to_array("TEA");
    let h = hand(&[('E', 1), ('A', 1)]);
    let (ok, played, _remaining, _usage) = board.play_word(
        &tea,
        0,
        1,
        bg_solver::board::Direction::Vertical,
        &h,
        &mut letters_on_board,
    );
    assert!(ok);
    assert_eq!(played, vec![(1, 1), (2, 1)]);
    assert_eq!(board.get_val(1, 1), 4); // E
    assert_eq!(board.get_val(2, 1), 0); // A
}

#[test]
fn exhausted_budget_aborts_on_the_next_check() {
    let mut board = Board::new();
    board.set_val(72, 71, 0); // A
    board.set_val(72, 72, 19); // T
    let mut letters_on_board = vec![0usize; 26];
    letters_on_board[0] = 1;
    letters_on_board[19] = 1;
    let candidates = vec![convert_word_to_array("AT")];
    let h = hand(&[('A', 1), ('T', 1)]);
    let mut words_checked: usize = 1001;
    let res = play_further(
        &mut board,
        71,
        72,
        72,
        72,
        &candidates,
        &candidates,
        &h,
        1,
        &mut words_checked,
        &mut letters_on_board,
        1,
        1000,
    );
    assert!(res.is_err());
    // The board is exactly as before the call.
    assert_eq!(board.get_val(72, 71), 0);
    assert_eq!(board.get_val(72, 72), 19);
    assert_eq!(board.get_val(71, 72), EMPTY_VALUE);
}

#[test]
fn existing_falls_back_to_scratch_when_extension_fails() {
    // The prior `AT` cannot absorb an added `E` in place (no word of the
    // dictionary extends it), so the engine rebuilds from scratch, where
    // `TEA` consumes the whole hand.
    let d = dict(&["AT", "TEA"]);
    let old_hand = hand(&[('A', 1), ('T', 1)]);
    let sol = play_from_scratch(&old_hand, &d, 1, 100000, &empty_old_board(), 0, 0, 0, 0)
        .ok()
        .expect("AT should solve");
    let new_hand = hand(&[('A', 1), ('T', 1), ('E', 1)]);
    let rebuilt = play_from_existing(
        &new_hand,
        &old_hand,
        &d,
        1,
        100000,
        &sol.board,
        sol.min_col,
        sol.max_col,
        sol.min_row,
        sol.max_row,
    )
    .ok()
    .expect("scratch fallback should solve TEA");
    assert_eq!(board_counts(&rebuilt.board), new_hand);
    assert_eq!(rebuilt.letters, new_hand);
}

#[test]
fn incremental_solve_repairs_an_invalid_prior_board() {
    // The prior board holds the non-word run `CA`.  Any incremental result
    // is re-validated as a whole, so the engine must fall back until every
    // run of the returned board is a dictionary word.
    let d = dict(&["CAT", "AT", "TA"]);
    let mut old_board = vec![EMPTY_VALUE; BOARD_SIZE * BOARD_SIZE];
    old_board[72 * BOARD_SIZE + 71] = 2; // C
    old_board[72 * BOARD_SIZE + 72] = 0; // A
    let old_hand = hand(&[('C', 1), ('A', 1)]);
    let new_hand = hand(&[('C', 1), ('A', 1), ('T', 1)]);
    let sol = play_from_existing(&new_hand, &old_hand, &d, 1, 100000, &old_board, 71, 72, 72, 72)
        .ok()
        .expect("CAT must solve");
    assert_eq!(board_counts(&sol.board), new_hand);
    let words: Vec<String> = vec!["CAT".to_string(), "AT".to_string(), "TA".to_string()];
    let get = |r: usize, c: usize| sol.board[r * BOARD_SIZE + c];
    for r in 0..BOARD_SIZE {
        for c in 0..BOARD_SIZE {
            if get(r, c) != EMPTY_VALUE && (c == 0 || get(r, c - 1) == EMPTY_VALUE) {
                let mut e = c;
                while e + 1 < BOARD_SIZE && get(r, e + 1) != EMPTY_VALUE {
                    e += 1;
                }
                if e > c {
                    let w: String = (c..=e).map(|cc| ((get(r, cc) as u8) + 65) as char).collect();
                    assert!(words.contains(&w), "run {} is not a word", w);
                }
            }
            if get(r, c) != EMPTY_VALUE && (r == 0 || get(r - 1, c) == EMPTY_VALUE) {
                let mut e = r;
                while e + 1 < BOARD_SIZE && get(e + 1, c) != EMPTY_VALUE {
                    e += 1;
                }
                if e > r {
                    let w: String = (r..=e).map(|rr| ((get(rr, c) as u8) + 65) as char).collect();
                    assert!(words.contains(&w), "run {} is not a word", w);
                }
            }
        }
    }
}
