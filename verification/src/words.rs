//! Words, hands and dictionaries: the numeric word representation, the
//! buildability predicates that filter search candidates, and the immutable
//! length-descending word lists.

use vstd::prelude::*;
use crate::board::{
    count_val, count_val_up_to, lemma_count_val_up_to_agree, lemma_count_val_up_to_bounds,
    letters_wf, word_wf, LETTER_COUNT, MAX_WORD_LENGTH,
};

verus! {

use vstd::pervasive::VecAdditionalExecFns;

/// `w` can be built from the hand `h` alone: the hand holds at least as many
/// tiles of every letter as the word uses.
pub open spec fn makeable(w: Seq<usize>, h: Seq<usize>) -> bool {
    forall|l: int| 0 <= l < LETTER_COUNT ==> count_val(w, l as usize) <= #[trigger] h[l]
}

/// How many tiles of letter `l` the word needs beyond what the hand holds.
pub open spec fn deficit(w: Seq<usize>, h: Seq<usize>, l: int) -> int {
    if count_val(w, l as usize) > h[l] {
        count_val(w, l as usize) - h[l]
    } else {
        0
    }
}

/// Total deficit over the first `n` letters of the alphabet.
pub open spec fn borrow_total_up_to(w: Seq<usize>, h: Seq<usize>, n: int) -> int
    decreases n,
{
    if n <= 0 {
        0
    } else {
        borrow_total_up_to(w, h, n - 1) + deficit(w, h, n - 1)
    }
}

/// Number of tiles the word must borrow from outside the hand.
pub open spec fn borrow_total(w: Seq<usize>, h: Seq<usize>) -> int {
    borrow_total_up_to(w, h, LETTER_COUNT as int)
}

/// `w` can be built from the hand plus at most `k` tiles drawn from the
/// board's letter counts.
pub open spec fn playable_with_board(
    w: Seq<usize>,
    hand: Seq<usize>,
    board_counts: Seq<usize>,
    k: int,
) -> bool {
    &&& forall|l: int|
        0 <= l < LETTER_COUNT ==> count_val(w, l as usize) <= #[trigger] hand[l] + board_counts[l]
    &&& borrow_total(w, hand) <= k
}

/// `w` can be built from the hand plus at most one tile, which must be of a
/// letter marked in `played`.
pub open spec fn playable_with_one_borrowed(
    w: Seq<usize>,
    hand: Seq<usize>,
    played: Seq<bool>,
) -> bool {
    &&& borrow_total(w, hand) <= 1
    &&& forall|l: int|
        0 <= l < LETTER_COUNT && count_val(w, l as usize) > hand[l] ==> #[trigger] played[l]
}

pub proof fn lemma_count_val_push(s: Seq<usize>, x: usize, v: usize)
    ensures
        count_val(s.push(x), v) == count_val(s, v) + if x == v {
            1int
        } else {
            0int
        },
{
    lemma_count_val_up_to_agree(s.push(x), s, v, s.len() as int);
    assert(s.push(x)[s.len() as int] == x);
}

/// Counting over one more element of a prefix.
pub proof fn lemma_count_val_take_succ(s: Seq<usize>, v: usize, i: int)
    requires
        0 <= i < s.len(),
    ensures
        count_val(s.take(i + 1), v) == count_val(s.take(i), v) + if s[i] == v {
            1int
        } else {
            0int
        },
{
    assert(s.take(i + 1) =~= s.take(i).push(s[i]));
    lemma_count_val_push(s.take(i), s[i], v);
}

/// Prefix counts never exceed the full count.
pub proof fn lemma_count_val_take_le(s: Seq<usize>, v: usize, i: int, j: int)
    requires
        0 <= i <= j <= s.len(),
    ensures
        count_val(s.take(i), v) <= count_val(s.take(j), v),
    decreases j - i,
{
    if i < j {
        lemma_count_val_take_le(s, v, i, j - 1);
        lemma_count_val_take_succ(s, v, j - 1);
    }
}

pub proof fn lemma_count_val_take_full(s: Seq<usize>, v: usize)
    ensures
        count_val(s.take(s.len() as int), v) == count_val(s, v),
{
    assert(s.take(s.len() as int) =~= s);
}

/// Adding one occurrence of letter `l0` to a word raises the borrow total by
/// one exactly when the hand was already exhausted for `l0`.
pub proof fn lemma_borrow_total_up_to_step(wa: Seq<usize>, wb: Seq<usize>, h: Seq<usize>, l0: int, n: int)
    requires
        0 <= l0,
        forall|l: int|
            0 <= l < n ==> count_val(wb, #[trigger] (l as usize)) == count_val(wa, l as usize)
                + if l == l0 {
                1int
            } else {
                0int
            },
    ensures
        borrow_total_up_to(wb, h, n) == borrow_total_up_to(wa, h, n) + if l0 < n && count_val(
            wa,
            l0 as usize,
        ) >= h[l0] {
            1int
        } else {
            0int
        },
    decreases n,
{
    if n > 0 {
        lemma_borrow_total_up_to_step(wa, wb, h, l0, n - 1);
    }
}

/// A word fully covered by the hand borrows nothing.
pub proof fn lemma_borrow_total_up_to_zero(w: Seq<usize>, h: Seq<usize>, n: int)
    requires
        forall|l: int| 0 <= l < n ==> count_val(w, #[trigger] (l as usize)) <= h[l],
    ensures
        borrow_total_up_to(w, h, n) == 0,
    decreases n,
{
    if n > 0 {
        lemma_borrow_total_up_to_zero(w, h, n - 1);
    }
}

/// Borrow totals grow with the word prefix.
pub proof fn lemma_borrow_total_take_le(s: Seq<usize>, h: Seq<usize>, i: int, j: int)
    requires
        0 <= i <= j <= s.len(),
        forall|p: int| 0 <= p < s.len() ==> 0 <= #[trigger] s[p] < LETTER_COUNT,
    ensures
        borrow_total(s.take(i), h) <= borrow_total(s.take(j), h),
    decreases j - i,
{
    if i < j {
        lemma_borrow_total_take_le(s, h, i, j - 1);
        assert forall|l: int| 0 <= l < LETTER_COUNT implies count_val(s.take(j), #[trigger] (l as usize))
            == count_val(s.take(j - 1), l as usize) + (if l == s[j - 1] {
            1int
        } else {
            0int
        }) by {
            lemma_count_val_take_succ(s, l as usize, j - 1);
            if l != s[j - 1] {
                assert(s[j - 1] != l as usize);
            }
        }
        lemma_borrow_total_up_to_step(
            s.take(j - 1),
            s.take(j),
            h,
            s[j - 1] as int,
            LETTER_COUNT as int,
        );
    }
}

/// Every word of the list is well formed.
pub open spec fn words_list_wf(ws: Seq<Seq<usize>>) -> bool {
    forall|i: int| 0 <= i < ws.len() ==> word_wf(#[trigger] ws[i])
}

/// The sequence of word views of a list of words.
pub open spec fn words_view(s: Seq<Vec<usize>>) -> Seq<Seq<usize>> {
    s.map_values(|v: Vec<usize>| v@)
}

/// Membership in a pushed sequence.
pub proof fn lemma_seq_contains_push<A>(s: Seq<A>, x: A, y: A)
    ensures
        s.push(x).contains(y) <==> (s.contains(y) || x == y),
{
    if s.push(x).contains(y) {
        let k = choose|k: int| 0 <= k < s.push(x).len() && s.push(x)[k] == y;
        if k < s.len() {
            assert(s[k] == y);
        }
    }
    if s.contains(y) {
        let k = choose|k: int| 0 <= k < s.len() && s[k] == y;
        assert(s.push(x)[k] == y);
    }
    if x == y {
        assert(s.push(x)[s.len() as int] == y);
    }
}

/// Compares two words for equality.
pub fn words_equal(a: &Vec<usize>, b: &Vec<usize>) -> (r: bool)
    ensures
        r == (a@ == b@),
{
    if a.len() != b.len() {
        return false;
    }
    let n = a.len();
    for i in 0..n
        invariant
            n == a@.len(),
            n == b@.len(),
            forall|j: int| 0 <= j < i ==> a@[j] == b@[j],
    {
        if a[i] != b[i] {
            return false;
        }
    }
    proof {
        assert(a@ =~= b@);
    }
    true
}

/// Whether `w` occurs in the word list.
pub fn word_in_list(list: &Vec<Vec<usize>>, w: &Vec<usize>) -> (r: bool)
    ensures
        r == words_view(list@).contains(w@),
{
    let n = list.len();
    for i in 0..n
        invariant
            n == list@.len(),
            forall|j: int| 0 <= j < i ==> words_view(list@)[j] != w@,
    {
        if words_equal(&list[i], w) {
            proof {
                assert(words_view(list@)[i as int] == w@);
            }
            return true;
        }
    }
    proof {
        if words_view(list@).contains(w@) {
            let k = choose|k: int|
                0 <= k < words_view(list@).len() && words_view(list@)[k] == w@;
        }
    }
    false
}

/// Checks whether `word` can be made from the hand alone.
pub fn is_makeable(word: &Vec<usize>, letters: &Vec<usize>) -> (r: bool)
    requires
        letters_wf(letters@),
        forall|p: int| 0 <= p < word@.len() ==> #[trigger] word@[p] < LETTER_COUNT,
    ensures
        r == makeable(word@, letters@),
{
    let mut available_letters = crate::board::copy_vec(letters);
    let n = word.len();
    let mut i: usize = 0;
    while i < n
        invariant
            letters_wf(letters@),
            letters_wf(available_letters@),
            n == word@.len(),
            i <= n,
            forall|p: int| 0 <= p < word@.len() ==> #[trigger] word@[p] < LETTER_COUNT,
            forall|l: int|
                0 <= l < LETTER_COUNT ==> #[trigger] available_letters@[l] == letters@[l]
                    - count_val(word@.take(i as int), l as usize),
            forall|l: int|
                0 <= l < LETTER_COUNT ==> count_val(word@.take(i as int), #[trigger] (l as usize))
                    <= letters@[l],
        decreases n - i,
    {
        let letter = word[i];
        let avail = available_letters[letter];
        proof {
            lemma_count_val_take_succ(word@, letter, i as int);
            assert forall|l: int|
                0 <= l < LETTER_COUNT && l != letter as int implies count_val(
                word@.take(i as int + 1),
                #[trigger] (l as usize),
            ) == count_val(word@.take(i as int), l as usize) by {
                lemma_count_val_take_succ(word@, l as usize, i as int);
            }
        }
        if avail == 0 {
            proof {
                lemma_count_val_take_le(word@, letter, i as int + 1, n as int);
                lemma_count_val_take_full(word@, letter);
            }
            return false;
        }
        available_letters.set(letter, avail - 1);
        i += 1;
    }
    proof {
        assert forall|l: int| 0 <= l < LETTER_COUNT implies count_val(word@, l as usize)
            <= #[trigger] letters@[l] by {
            lemma_count_val_take_full(word@, l as usize);
        }
    }
    true
}

/// Checks whether `word_being_checked` can be played using the hand plus at
/// most `filter_letters_on_board` tiles taken from the board's letter counts.
pub fn check_filter_after_play_later(
    current_letters: &Vec<usize>,
    board_letters: &Vec<usize>,
    word_being_checked: &Vec<usize>,
    filter_letters_on_board: usize,
) -> (r: bool)
    requires
        letters_wf(current_letters@),
        letters_wf(board_letters@),
        forall|p: int| 0 <= p < word_being_checked@.len() ==> #[trigger] word_being_checked@[p] < LETTER_COUNT,
    ensures
        r == playable_with_board(
            word_being_checked@,
            current_letters@,
            board_letters@,
            filter_letters_on_board as int,
        ),
{
    let ghost w: Seq<usize> = word_being_checked@;
    let ghost hand: Seq<usize> = current_letters@;
    let ghost board: Seq<usize> = board_letters@;
    let mut cur_hand = crate::board::copy_vec(current_letters);
    let mut cur_board = crate::board::copy_vec(board_letters);
    let mut num_from_board: usize = 0;
    let n = word_being_checked.len();
    proof {
        lemma_borrow_total_up_to_zero(w.take(0), hand, LETTER_COUNT as int);
    }
    let mut i: usize = 0;
    while i < n
        invariant
            letters_wf(hand),
            letters_wf(board),
            letters_wf(cur_hand@),
            letters_wf(cur_board@),
            hand == current_letters@,
            board == board_letters@,
            w == word_being_checked@,
            n == w.len(),
            i <= n,
            forall|p: int| 0 <= p < w.len() ==> #[trigger] w[p] < LETTER_COUNT,
            forall|l: int|
                0 <= l < LETTER_COUNT ==> #[trigger] cur_hand@[l] == (if count_val(
                    w.take(i as int),
                    l as usize,
                ) <= hand[l] {
                    hand[l] - count_val(w.take(i as int), l as usize)
                } else {
                    0int
                }),
            forall|l: int|
                0 <= l < LETTER_COUNT ==> #[trigger] cur_board@[l] == board[l] - deficit(
                    w.take(i as int),
                    hand,
                    l,
                ),
            forall|l: int|
                0 <= l < LETTER_COUNT ==> count_val(w.take(i as int), #[trigger] (l as usize))
                    <= hand[l] + board[l],
            num_from_board == borrow_total(w.take(i as int), hand),
            num_from_board <= filter_letters_on_board,
        decreases n - i,
    {
        let letter = word_being_checked[i];
        proof {
            lemma_count_val_take_succ(w, letter, i as int);
            assert forall|l: int|
                0 <= l < LETTER_COUNT && l != letter as int implies count_val(
                w.take(i as int + 1),
                #[trigger] (l as usize),
            ) == count_val(w.take(i as int), l as usize) by {
                lemma_count_val_take_succ(w, l as usize, i as int);
            }
            assert forall|l: int| 0 <= l < LETTER_COUNT implies count_val(
                w.take(i as int + 1),
                #[trigger] (l as usize),
            ) == count_val(w.take(i as int), l as usize) + (if l == letter as int {
                1int
            } else {
                0int
            }) by {
                lemma_count_val_take_succ(w, l as usize, i as int);
                if l != letter as int {
                    assert(w[i as int] != l as usize);
                }
            }
            lemma_borrow_total_up_to_step(
                w.take(i as int),
                w.take(i as int + 1),
                hand,
                letter as int,
                LETTER_COUNT as int,
            );
        }
        let num_in_hand = cur_hand[letter];
        if num_in_hand == 0 {
            if num_from_board == filter_letters_on_board {
                proof {
                    lemma_borrow_total_take_le(w, hand, i as int + 1, n as int);
                    assert(w.take(n as int) =~= w);
                }
                return false;
            }
            let num_on_board = cur_board[letter];
            if num_on_board == 0 {
                proof {
                    lemma_count_val_take_le(w, letter, i as int + 1, n as int);
                    lemma_count_val_take_full(w, letter);
                }
                return false;
            }
            cur_board.set(letter, num_on_board - 1);
            num_from_board += 1;
        } else {
            cur_hand.set(letter, num_in_hand - 1);
        }
        i += 1;
    }
    proof {
        assert(w.take(n as int) =~= w);
        assert forall|l: int| 0 <= l < LETTER_COUNT implies count_val(w, l as usize)
            <= #[trigger] hand[l] + board[l] by {
            assert(count_val(w.take(n as int), l as usize) <= hand[l] + board[l]);
        }
    }
    true
}

/// Checks whether `word_being_checked` can be played using the hand plus at
/// most one tile of a letter that already appears on the board.
pub fn check_filter_after_play(
    letters: &Vec<usize>,
    word_being_checked: &Vec<usize>,
    played_on_board: &Vec<bool>,
) -> (r: bool)
    requires
        letters_wf(letters@),
        played_on_board@.len() == LETTER_COUNT,
        forall|p: int| 0 <= p < word_being_checked@.len() ==> #[trigger] word_being_checked@[p] < LETTER_COUNT,
    ensures
        r == playable_with_one_borrowed(word_being_checked@, letters@, played_on_board@),
{
    let ghost w: Seq<usize> = word_being_checked@;
    let ghost hand: Seq<usize> = letters@;
    let mut cur_hand = crate::board::copy_vec(letters);
    let mut already_seen_negative = false;
    let n = word_being_checked.len();
    proof {
        lemma_borrow_total_up_to_zero(w.take(0), hand, LETTER_COUNT as int);
    }
    let mut i: usize = 0;
    while i < n
        invariant
            letters_wf(hand),
            letters_wf(cur_hand@),
            hand == letters@,
            w == word_being_checked@,
            played_on_board@.len() == LETTER_COUNT,
            n == w.len(),
            i <= n,
            forall|p: int| 0 <= p < w.len() ==> #[trigger] w[p] < LETTER_COUNT,
            forall|l: int|
                0 <= l < LETTER_COUNT ==> #[trigger] cur_hand@[l] == (if count_val(
                    w.take(i as int),
                    l as usize,
                ) <= hand[l] {
                    hand[l] - count_val(w.take(i as int), l as usize)
                } else {
                    0int
                }),
            borrow_total(w.take(i as int), hand) == (if already_seen_negative {
                1int
            } else {
                0int
            }),
            forall|l: int|
                0 <= l < LETTER_COUNT && count_val(w.take(i as int), l as usize) > hand[l]
                    ==> #[trigger] played_on_board@[l],
        decreases n - i,
    {
        let letter = word_being_checked[i];
        proof {
            assert forall|l: int| 0 <= l < LETTER_COUNT implies count_val(
                w.take(i as int + 1),
                #[trigger] (l as usize),
            ) == count_val(w.take(i as int), l as usize) + (if l == letter as int {
                1int
            } else {
                0int
            }) by {
                lemma_count_val_take_succ(w, l as usize, i as int);
                if l != letter as int {
                    assert(w[i as int] != l as usize);
                }
            }
            lemma_borrow_total_up_to_step(
                w.take(i as int),
                w.take(i as int + 1),
                hand,
                letter as int,
                LETTER_COUNT as int,
            );
        }
        let elem = cur_hand[letter];
        if elem == 0 && !played_on_board[letter] {
            proof {
                lemma_count_val_take_le(w, letter, i as int + 1, n as int);
                lemma_count_val_take_full(w, letter);
            }
            return false;
        } else if elem == 0 && already_seen_negative {
            proof {
                lemma_borrow_total_take_le(w, hand, i as int + 1, n as int);
                assert(w.take(n as int) =~= w);
            }
            return false;
        } else if elem == 0 {
            already_seen_negative = true;
        } else {
            cur_hand.set(letter, elem - 1);
        }
        i += 1;
    }
    proof {
        assert(w.take(n as int) =~= w);
    }
    true
}

} // verus!

verus! {

use vstd::string::StrSliceExecFns;
use vstd::string::StringExecFns;

/// An uppercase ASCII letter.
pub open spec fn is_upper_char(c: char) -> bool {
    65 <= c as u32 <= 90
}

/// The letter index of an uppercase ASCII character.
pub open spec fn letter_of(c: char) -> usize {
    ((c as u32) - 65) as usize
}

/// The numeric form of a line of text: uppercase ASCII letters converted to
/// letter indices, every other character dropped.
pub open spec fn word_to_indices(s: Seq<char>) -> Seq<usize>
    decreases s.len(),
{
    if s.len() == 0 {
        Seq::empty()
    } else {
        let rest = word_to_indices(s.drop_first());
        if is_upper_char(s[0]) {
            seq![letter_of(s[0])] + rest
        } else {
            rest
        }
    }
}

/// Every entry of a converted word is a letter index.
pub proof fn lemma_word_to_indices_letters(s: Seq<char>)
    ensures
        forall|j: int|
            0 <= j < word_to_indices(s).len() ==> #[trigger] word_to_indices(s)[j] < LETTER_COUNT,
    decreases s.len(),
{
    if s.len() > 0 {
        lemma_word_to_indices_letters(s.drop_first());
        let rest = word_to_indices(s.drop_first());
        if is_upper_char(s[0]) {
            assert(letter_of(s[0]) < LETTER_COUNT);
            assert forall|j: int|
                0 <= j < word_to_indices(s).len() implies #[trigger] word_to_indices(s)[j]
                < LETTER_COUNT by {
                if j > 0 {
                    assert(word_to_indices(s)[j] == rest[j - 1]);
                }
            }
        }
    }
}

/// Converts a line of text into the numeric word representation.
pub fn convert_word_to_array(word: &str) -> (r: Vec<usize>)
    ensures
        r@ == word_to_indices(word@),
        forall|j: int| 0 <= j < r@.len() ==> #[trigger] r@[j] < LETTER_COUNT,
{
    let n = word.unicode_len();
    let mut r: Vec<usize> = Vec::new();
    proof {
        assert(word@.skip(0) =~= word@);
        assert(r@ + word_to_indices(word@) =~= word_to_indices(word@));
    }
    let mut i: usize = 0;
    while i < n
        invariant
            n == word@.len(),
            i <= n,
            r@ + word_to_indices(word@.skip(i as int)) == word_to_indices(word@),
            forall|j: int| 0 <= j < r@.len() ==> #[trigger] r@[j] < LETTER_COUNT,
        decreases n - i,
    {
        let c = word.get_char(i);
        let u = c as u32;
        proof {
            let tail = word@.skip(i as int);
            assert(tail.len() > 0);
            assert(tail[0] == word@[i as int]);
            assert(tail.drop_first() =~= word@.skip(i as int + 1));
        }
        if 65 <= u && u <= 90 {
            let letter = (u - 65) as usize;
            proof {
                assert(letter == letter_of(word@[i as int]));
                assert(r@.push(letter) + word_to_indices(word@.skip(i as int + 1)) =~= r@ + (seq![
                    letter_of(word@[i as int]),
                ] + word_to_indices(word@.skip(i as int + 1))));
            }
            r.push(letter);
        }
        i += 1;
    }
    proof {
        assert(word@.skip(n as int) =~= Seq::<char>::empty());
        assert(r@ + Seq::<usize>::empty() =~= r@);
    }
    r
}

/// The character that renders the letter index `l`.
pub open spec fn letter_char(l: int) -> char {
    "ABCDEFGHIJKLMNOPQRSTUVWXYZ"@[l]
}

/// The text rendering of a numeric word.
pub open spec fn word_chars(w: Seq<usize>) -> Seq<char> {
    Seq::new(w.len(), |i: int| letter_char(w[i] as int))
}

/// The one-character string of the letter index `l`.
pub fn letter_str(l: usize) -> (r: &'static str)
    requires
        l < LETTER_COUNT,
    ensures
        r@.len() == 1,
        r@[0] == letter_char(l as int),
{
    let a = "ABCDEFGHIJKLMNOPQRSTUVWXYZ";
    proof {
        reveal_strlit("ABCDEFGHIJKLMNOPQRSTUVWXYZ");
    }
    let r = a.substring_ascii(l, l + 1);
    proof {
        assert(r@[0] == a@[l as int]);
    }
    r
}

/// Converts a numeric word back into text, one letter per entry.
pub fn convert_array_to_word(arr: &Vec<usize>) -> (r: String)
    requires
        forall|j: int| 0 <= j < arr@.len() ==> #[trigger] arr@[j] < LETTER_COUNT,
    ensures
        r@ == word_chars(arr@),
{
    let mut s = String::new();
    let n = arr.len();
    let mut i: usize = 0;
    while i < n
        invariant
            n == arr@.len(),
            i <= n,
            forall|j: int| 0 <= j < arr@.len() ==> #[trigger] arr@[j] < LETTER_COUNT,
            s@ == word_chars(arr@).take(i as int),
        decreases n - i,
    {
        let piece = letter_str(arr[i]);
        s.append(piece);
        proof {
            assert(s@ =~= word_chars(arr@).take(i as int + 1));
        }
        i += 1;
    }
    proof {
        assert(word_chars(arr@).take(n as int) =~= word_chars(arr@));
    }
    s
}

/// Some line among the first `j` converts to exactly `w`.
pub open spec fn from_lines_up_to(lines: Seq<String>, j: int, w: Seq<usize>) -> bool {
    exists|i: int| 0 <= i < j && w == word_to_indices((#[trigger] lines[i])@)
}

/// An immutable word list, sorted by decreasing word length.
pub struct Dictionary {
    /// The words, each in numeric form.
    pub words: Vec<Vec<usize>>,
}

impl View for Dictionary {
    type V = Seq<Seq<usize>>;

    open spec fn view(&self) -> Seq<Seq<usize>> {
        words_view(self.words@)
    }
}

impl Dictionary {
    /// Every word well formed, and lengths never increase along the list.
    pub open spec fn wf(self) -> bool {
        &&& forall|a: int| 0 <= a < self@.len() ==> word_wf(#[trigger] self@[a])
        &&& forall|a: int, b: int| 0 <= a < b < self@.len() ==> self@[a].len() >= self@[b].len()
    }

    /// Builds a dictionary from lines of text.  Each line is normalized by
    /// dropping every character but uppercase ASCII letters; lines that
    /// normalize to the empty word or beyond the length bound are excluded;
    /// the rest are kept sorted by decreasing length, lines of equal length
    /// staying in input order.
    pub fn new(lines: &Vec<String>) -> (dict: Dictionary)
        ensures
            dict.wf(),
            forall|w: Seq<usize>|
                #[trigger] dict@.contains(w) <==> (1 <= w.len() <= MAX_WORD_LENGTH
                    && from_lines_up_to(lines@, lines@.len() as int, w)),
    {
        let mut words: Vec<Vec<usize>> = Vec::new();
        let line_count = lines.len();
        let mut target_len: usize = MAX_WORD_LENGTH;
        let mut remaining: usize = MAX_WORD_LENGTH;
        while remaining > 0
            invariant
                line_count == lines@.len(),
                target_len == remaining,
                remaining <= MAX_WORD_LENGTH,
                forall|a: int| 0 <= a < words_view(words@).len() ==> word_wf(#[trigger] words_view(words@)[a]),
                forall|a: int, b: int|
                    0 <= a < b < words_view(words@).len() ==> words_view(words@)[a].len()
                        >= words_view(words@)[b].len(),
                forall|a: int|
                    0 <= a < words_view(words@).len() ==> (#[trigger] words_view(words@)[a]).len()
                        > target_len,
                forall|w: Seq<usize>|
                    #[trigger] words_view(words@).contains(w) <==> (target_len < w.len()
                        <= MAX_WORD_LENGTH && from_lines_up_to(lines@, line_count as int, w)),
            decreases remaining,
        {
            let mut j: usize = 0;
            while j < line_count
                invariant
                    line_count == lines@.len(),
                    target_len == remaining,
                    1 <= remaining <= MAX_WORD_LENGTH,
                    j <= line_count,
                    forall|a: int| 0 <= a < words_view(words@).len() ==> word_wf(#[trigger] words_view(words@)[a]),
                    forall|a: int, b: int|
                        0 <= a < b < words_view(words@).len() ==> words_view(words@)[a].len()
                            >= words_view(words@)[b].len(),
                    forall|a: int|
                        0 <= a < words_view(words@).len() ==> (#[trigger] words_view(
                            words@,
                        )[a]).len() >= target_len,
                    forall|w: Seq<usize>|
                        #[trigger] words_view(words@).contains(w) <==> ((target_len < w.len()
                            <= MAX_WORD_LENGTH && from_lines_up_to(lines@, line_count as int, w))
                            || (w.len() == target_len && from_lines_up_to(lines@, j as int, w))),
                decreases line_count - j,
            {
                let converted = convert_word_to_array(lines[j].as_str());
                let ghost wj: Seq<usize> = word_to_indices(lines@[j as int]@);
                let ghost before: Seq<Vec<usize>> = words@;
                if converted.len() == target_len {
                    words.push(converted);
                    proof {
                        assert(words_view(words@) =~= words_view(before).push(wj));
                        assert forall|w: Seq<usize>|
                            #[trigger] words_view(words@).contains(w) <==> ((target_len < w.len()
                                <= MAX_WORD_LENGTH && from_lines_up_to(
                                lines@,
                                line_count as int,
                                w,
                            )) || (w.len() == target_len && from_lines_up_to(
                                lines@,
                                j as int + 1,
                                w,
                            ))) by {
                            lemma_seq_contains_push(words_view(before), wj, w);
                            if words_view(words@).contains(w) {
                                if w == wj {
                                    assert(w == word_to_indices((lines@[j as int])@));
                                    assert(from_lines_up_to(lines@, j as int + 1, w));
                                } else {
                                    assert(words_view(before).contains(w));
                                    if w.len() == target_len && from_lines_up_to(
                                        lines@,
                                        j as int,
                                        w,
                                    ) {
                                        let i = choose|i: int|
                                            0 <= i < j && w == word_to_indices(
                                                (#[trigger] lines@[i])@,
                                            );
                                        assert(from_lines_up_to(lines@, j as int + 1, w));
                                    }
                                }
                            } else {
                                if w.len() == target_len && from_lines_up_to(
                                    lines@,
                                    j as int + 1,
                                    w,
                                ) {
                                    let i = choose|i: int|
                                        0 <= i < j + 1 && w == word_to_indices(
                                            (#[trigger] lines@[i])@,
                                        );
                                    if i < j {
                                        assert(from_lines_up_to(lines@, j as int, w));
                                    } else {
                                        assert(w == wj);
                                    }
                                }
                            }
                        }
                    }
                } else {
                    proof {
                        assert forall|w: Seq<usize>|
                            #[trigger] words_view(words@).contains(w) <==> ((target_len < w.len()
                                <= MAX_WORD_LENGTH && from_lines_up_to(
                                lines@,
                                line_count as int,
                                w,
                            )) || (w.len() == target_len && from_lines_up_to(
                                lines@,
                                j as int + 1,
                                w,
                            ))) by {
                            if !words_view(words@).contains(w) && w.len() == target_len
                                && from_lines_up_to(lines@, j as int + 1, w) {
                                let i = choose|i: int|
                                    0 <= i < j + 1 && w == word_to_indices(
                                        (#[trigger] lines@[i])@,
                                    );
                                if i < j {
                                    assert(from_lines_up_to(lines@, j as int, w));
                                } else {
                                    assert(w == wj);
                                    assert(w.len() != target_len);
                                }
                            }
                            if words_view(words@).contains(w) && w.len() == target_len
                                && from_lines_up_to(lines@, j as int, w) {
                                let i = choose|i: int|
                                    0 <= i < j && w == word_to_indices((#[trigger] lines@[i])@);
                                assert(from_lines_up_to(lines@, j as int + 1, w));
                            }
                        }
                    }
                }
                j += 1;
            }
            remaining -= 1;
            target_len -= 1;
        }
        let dict = Dictionary { words };
        proof {
            assert forall|w: Seq<usize>| #[trigger] dict@.contains(w) <==> (1 <= w.len()
                <= MAX_WORD_LENGTH && from_lines_up_to(lines@, lines@.len() as int, w)) by {}
        }
        dict
    }

    /// Number of words in the dictionary.
    pub fn len(&self) -> (n: usize)
        ensures
            n == self@.len(),
    {
        self.words.len()
    }

    /// Whether the dictionary holds `w`.
    pub fn contains(&self, w: &Vec<usize>) -> (r: bool)
        ensures
            r == self@.contains(w@),
    {
        word_in_list(&self.words, w)
    }
}

} // verus!

verus! {

use crate::board::{hand_sum, hand_sum_up_to};

/// Sum of the per-letter counts of `w` over the first `n` letters of the
/// alphabet.
pub open spec fn counts_sum_up_to(w: Seq<usize>, n: int) -> int
    decreases n,
{
    if n <= 0 {
        0
    } else {
        counts_sum_up_to(w, n - 1) + count_val(w, ((n - 1) as usize))
    }
}

/// Appending one letter below `n` raises the count total by one.
pub proof fn lemma_counts_sum_push(w: Seq<usize>, x: usize, n: int)
    requires
        n <= LETTER_COUNT,
    ensures
        counts_sum_up_to(w.push(x), n) == counts_sum_up_to(w, n) + if (x as int) < n {
            1int
        } else {
            0int
        },
    decreases n,
{
    if n > 0 {
        lemma_counts_sum_push(w, x, n - 1);
        lemma_count_val_push(w, x, ((n - 1) as usize));
    }
}

/// A word of letters has as many letters, counted per letter, as cells.
pub proof fn lemma_counts_sum_is_len(w: Seq<usize>)
    requires
        forall|p: int| 0 <= p < w.len() ==> #[trigger] w[p] < LETTER_COUNT,
    ensures
        counts_sum_up_to(w, LETTER_COUNT as int) == w.len(),
    decreases w.len(),
{
    if w.len() == 0 {
        assert forall|n: int| 0 <= n <= LETTER_COUNT implies counts_sum_up_to(w, n) == 0 by {
            lemma_counts_sum_zero(w, n);
        }
    } else {
        let w0 = w.drop_last();
        assert(w =~= w0.push(w.last()));
        lemma_counts_sum_is_len(w0);
        lemma_counts_sum_push(w0, w.last(), LETTER_COUNT as int);
    }
}

/// An empty word has no letters to count.
pub proof fn lemma_counts_sum_zero(w: Seq<usize>, n: int)
    requires
        w.len() == 0,
    ensures
        counts_sum_up_to(w, n) == 0,
    decreases n,
{
    if n > 0 {
        lemma_counts_sum_zero(w, n - 1);
    }
}

/// Letter-wise smaller counts sum to no more.
pub proof fn lemma_counts_sum_le(w: Seq<usize>, h: Seq<usize>, n: int)
    requires
        forall|l: int| 0 <= l < n ==> count_val(w, #[trigger] ((l as usize))) <= h[l],
    ensures
        counts_sum_up_to(w, n) <= hand_sum_up_to(h, n),
    decreases n,
{
    if n > 0 {
        lemma_counts_sum_le(w, h, n - 1);
    }
}

/// Letter-wise counts that are bounded by a hand and sum to the whole hand
/// are the hand exactly.
pub proof fn lemma_counts_eq_of_sum(w: Seq<usize>, h: Seq<usize>, n: int)
    requires
        forall|l: int| 0 <= l < n ==> count_val(w, #[trigger] ((l as usize))) <= h[l],
        counts_sum_up_to(w, n) == hand_sum_up_to(h, n),
    ensures
        forall|l: int| 0 <= l < n ==> count_val(w, #[trigger] ((l as usize))) == h[l],
    decreases n,
{
    if n > 0 {
        lemma_counts_sum_le(w, h, n - 1);
        lemma_counts_eq_of_sum(w, h, n - 1);
    }
}

} // verus!

verus! {

/// Letter-wise equal counts sum alike.
pub proof fn lemma_counts_sum_eq(w: Seq<usize>, h: Seq<usize>, n: int)
    requires
        forall|l: int| 0 <= l < n ==> count_val(w, #[trigger] ((l as usize))) == h[l],
    ensures
        counts_sum_up_to(w, n) == hand_sum_up_to(h, n),
    decreases n,
{
    if n > 0 {
        lemma_counts_sum_eq(w, h, n - 1);
    }
}

} // verus!
