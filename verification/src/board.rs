//! The playing grid: a fixed square board of letter cells, with the
//! compound operations `play_word` and `undo_play` used by the search.

use vstd::prelude::*;

verus! {

/// Number of rows (and of columns) in the square board.
pub const BOARD_SIZE: usize = 144;

/// Number of cells in the board.
pub const BOARD_AREA: usize = 144 * 144;

/// Cell value that marks an empty cell; letters are 0 through 25.
pub const EMPTY_VALUE: usize = 30;

/// Number of distinct letters.
pub const LETTER_COUNT: usize = 26;

/// Longest word kept in a dictionary.
pub const MAX_WORD_LENGTH: usize = 17;

/// The orientation in which a word is played.
#[derive(Copy, Clone, PartialEq, Eq, Structural, Debug)]
pub enum Direction {
    /// The word occupies consecutive columns of one row.
    Horizontal,
    /// The word occupies consecutive rows of one column.
    Vertical,
}

/// How much of the hand a play left unused.
#[derive(Copy, Clone, PartialEq, Eq, Structural, Debug)]
pub enum LetterUsage {
    /// There are still unused letters in the hand.
    Remaining,
    /// A play needed more letters than the hand holds.
    Overused,
    /// The play consumed the entire hand.
    Finished,
}

/// True when `(row, col)` is a cell of the grid.
pub open spec fn in_grid(row: int, col: int) -> bool {
    0 <= row < BOARD_SIZE && 0 <= col < BOARD_SIZE
}

/// Number of entries equal to `v` among the first `n` entries of `s`.
pub open spec fn count_val_up_to(s: Seq<usize>, v: usize, n: int) -> int
    decreases n,
{
    if n <= 0 {
        0
    } else {
        count_val_up_to(s, v, n - 1) + if s[n - 1] == v {
            1int
        } else {
            0int
        }
    }
}

/// Number of entries of `s` equal to `v`.
pub open spec fn count_val(s: Seq<usize>, v: usize) -> int {
    count_val_up_to(s, v, s.len() as int)
}

/// A count lies between zero and the range counted over.
pub proof fn lemma_count_val_up_to_bounds(s: Seq<usize>, v: usize, n: int)
    requires
        n <= s.len(),
    ensures
        0 <= count_val_up_to(s, v, n) <= if n <= 0 {
            0int
        } else {
            n
        },
    decreases n,
{
    if n > 0 {
        lemma_count_val_up_to_bounds(s, v, n - 1);
    }
}

/// Counting is unaffected beyond the updated index and shifts by the
/// contribution change at the updated index.
pub proof fn lemma_count_val_up_to_update(s: Seq<usize>, v: usize, i: int, x: usize, n: int)
    requires
        0 <= i < s.len(),
        n <= s.len(),
    ensures
        count_val_up_to(s.update(i, x), v, n) == count_val_up_to(s, v, n) + if i < n {
            (if x == v {
                1int
            } else {
                0int
            }) - (if s[i] == v {
                1int
            } else {
                0int
            })
        } else {
            0int
        },
    decreases n,
{
    if n > 0 {
        lemma_count_val_up_to_update(s, v, i, x, n - 1);
    }
}

/// An index holding `v` witnesses a positive count.
pub proof fn lemma_count_val_up_to_pos(s: Seq<usize>, v: usize, i: int, n: int)
    requires
        0 <= i < n <= s.len(),
        s[i] == v,
    ensures
        count_val_up_to(s, v, n) >= 1,
    decreases n,
{
    if i < n - 1 {
        lemma_count_val_up_to_pos(s, v, i, n - 1);
        lemma_count_val_up_to_bounds(s, v, n - 1);
    } else {
        lemma_count_val_up_to_bounds(s, v, n - 1);
    }
}

/// A value absent from `s` has count zero.
pub proof fn lemma_count_val_up_to_absent(s: Seq<usize>, v: usize, n: int)
    requires
        n <= s.len(),
        forall|i: int| 0 <= i < n ==> s[i] != v,
    ensures
        count_val_up_to(s, v, n) == 0,
    decreases n,
{
    if n > 0 {
        lemma_count_val_up_to_absent(s, v, n - 1);
    }
}

/// Sequences equal up to `n` count alike up to `n`.
pub proof fn lemma_count_val_up_to_agree(s1: Seq<usize>, s2: Seq<usize>, v: usize, n: int)
    requires
        n <= s1.len(),
        n <= s2.len(),
        forall|i: int| 0 <= i < n ==> s1[i] == s2[i],
    ensures
        count_val_up_to(s1, v, n) == count_val_up_to(s2, v, n),
    decreases n,
{
    if n > 0 {
        lemma_count_val_up_to_agree(s1, s2, v, n - 1);
    }
}

/// The board: a square grid of letter indices (0-25) and empty cells.
pub struct Board {
    arr: Vec<usize>,
}

impl View for Board {
    type V = Seq<usize>;

    closed spec fn view(&self) -> Seq<usize> {
        self.arr@
    }
}

impl Board {
    /// A structurally sound board: full size, every cell a letter or empty.
    pub open spec fn wf(self) -> bool {
        &&& self@.len() == BOARD_AREA
        &&& forall|i: int|
            0 <= i < self@.len() ==> (#[trigger] self@[i] < LETTER_COUNT || self@[i] == EMPTY_VALUE)
    }

    /// The value stored at `(row, col)` in the mathematical model.
    pub open spec fn cell(self, row: int, col: int) -> usize {
        self@[row * 144 + col]
    }

    /// True when `(row, col)` lies on the grid and holds a letter.
    pub open spec fn occ(self, row: int, col: int) -> bool {
        in_grid(row, col) && self.cell(row, col) != EMPTY_VALUE
    }

    /// Per-letter multiset of tiles on the board.
    pub open spec fn letter_count(self, letter: usize) -> int {
        count_val(self@, letter)
    }

    /// Number of occupied cells.
    pub open spec fn occupied_count(self) -> int {
        self@.len() - count_val(self@, EMPTY_VALUE)
    }

    /// Creates a board with every cell empty.
    pub fn new() -> (board: Board)
        ensures
            board.wf(),
            forall|r: int, c: int| in_grid(r, c) ==> !board.occ(r, c),
            board.occupied_count() == 0,
    {
        let arr: Vec<usize> = vec![EMPTY_VALUE; BOARD_AREA];
        let board = Board { arr };
        proof {
            assert forall|r: int, c: int| in_grid(r, c) implies !board.occ(r, c) by {
                lemma_cell_index_bounds(r, c);
            }
            lemma_count_val_up_to_all(board@, EMPTY_VALUE, BOARD_AREA as int);
        }
        board
    }

    /// Wraps a raw cell vector as a board.
    pub fn from_vec(arr: Vec<usize>) -> (board: Board)
        requires
            arr@.len() == BOARD_AREA,
            forall|i: int| 0 <= i < arr@.len() ==> (#[trigger] arr@[i] < LETTER_COUNT || arr@[i] == EMPTY_VALUE),
        ensures
            board.wf(),
            board@ == arr@,
    {
        Board { arr }
    }

    /// The raw cell vector of the board, row-major.
    pub fn cells(&self) -> (arr: &Vec<usize>)
        ensures
            arr@ == self@,
    {
        &self.arr
    }

    /// Copies the board.
    pub fn duplicate(&self) -> (board: Board)
        ensures
            board@ == self@,
    {
        let mut arr: Vec<usize> = Vec::new();
        let n = self.arr.len();
        for i in 0..n
            invariant
                n == self.arr.len(),
                arr@.len() == i,
                forall|j: int| 0 <= j < i ==> arr@[j] == self.arr@[j],
        {
            arr.push(self.arr[i]);
        }
        let board = Board { arr };
        proof {
            assert(board@ =~= self@);
        }
        board
    }

    /// Reads the value at `(row, col)`.
    pub fn get_val(&self, row: usize, col: usize) -> (val: usize)
        requires
            self.wf(),
            row < BOARD_SIZE,
            col < BOARD_SIZE,
        ensures
            val == self.cell(row as int, col as int),
            val < LETTER_COUNT || val == EMPTY_VALUE,
    {
        proof {
            lemma_cell_index_bounds(row as int, col as int);
        }
        self.arr[row * 144 + col]
    }

    /// Writes `val` at `(row, col)`.
    pub fn set_val(&mut self, row: usize, col: usize, val: usize)
        requires
            old(self).wf(),
            row < BOARD_SIZE,
            col < BOARD_SIZE,
            val < LETTER_COUNT || val == EMPTY_VALUE,
        ensures
            final(self).wf(),
            final(self)@ == old(self)@.update(row * 144 + col, val),
            final(self).cell(row as int, col as int) == val,
            forall|r: int, c: int|
                in_grid(r, c) && !(r == row && c == col) ==> #[trigger] final(self).cell(r, c)
                    == old(self).cell(r, c),
            forall|v: usize|
                count_val(final(self)@, v) == count_val(old(self)@, v) + (if val == v {
                    1int
                } else {
                    0int
                }) - (if old(self).cell(row as int, col as int) == v {
                    1int
                } else {
                    0int
                }),
    {
        proof {
            lemma_cell_index_bounds(row as int, col as int);
        }
        self.arr[row * 144 + col] = val;
        proof {
            let i = row * 144 + col;
            assert forall|r: int, c: int|
                in_grid(r, c) && !(r == row && c == col) implies #[trigger] self.cell(r, c) == old(
                self,
            ).cell(r, c) by {
                lemma_cell_index_bounds(r, c);
                if r * 144 + c == row * 144 + col {
                    lemma_cell_index_injective(r, c, row as int, col as int);
                }
            }
            assert forall|v: usize|
                count_val(self@, v) == count_val(old(self)@, v) + (if val == v {
                    1int
                } else {
                    0int
                }) - (if old(self).cell(row as int, col as int) == v {
                    1int
                } else {
                    0int
                }) by {
                lemma_count_val_up_to_update(old(self)@, v, i as int, val, BOARD_AREA as int);
            }
        }
    }

    /// Overwrites this board with the cells of another.
    pub fn copy_from(&mut self, other: &Board)
        ensures
            final(self)@ == other@,
    {
        self.arr = copy_vec(other.cells());
    }

    /// Empties every cell of the board.
    pub fn erase(&mut self)
        requires
            old(self).wf(),
        ensures
            final(self).wf(),
            forall|r: int, c: int| in_grid(r, c) ==> !final(self).occ(r, c),
            final(self)@.len() == old(self)@.len(),
    {
        let n = self.arr.len();
        let mut i: usize = 0;
        while i < n
            invariant
                self.arr@.len() == n,
                n == BOARD_AREA,
                i <= n,
                forall|j: int|
                    0 <= j < self.arr@.len() ==> (#[trigger] self.arr@[j] < LETTER_COUNT
                        || self.arr@[j] == EMPTY_VALUE),
                forall|j: int| 0 <= j < i ==> self.arr@[j] == EMPTY_VALUE,
            decreases n - i,
        {
            self.arr[i] = EMPTY_VALUE;
            i += 1;
        }
        proof {
            assert forall|r: int, c: int| in_grid(r, c) implies !self.occ(r, c) by {
                lemma_cell_index_bounds(r, c);
            }
        }
    }
}

/// The row-major index of a grid cell stays within the board area.
pub proof fn lemma_cell_index_bounds(row: int, col: int)
    requires
        in_grid(row, col),
    ensures
        0 <= row * 144 + col < BOARD_AREA,
{
    assert(row * 144 <= 143 * 144) by (nonlinear_arith)
        requires
            row <= 143,
    ;
    assert(row * 144 >= 0) by (nonlinear_arith)
        requires
            row >= 0,
    ;
}

/// Distinct grid cells have distinct row-major indices.
pub proof fn lemma_cell_index_injective(r1: int, c1: int, r2: int, c2: int)
    requires
        in_grid(r1, c1),
        in_grid(r2, c2),
        r1 * 144 + c1 == r2 * 144 + c2,
    ensures
        r1 == r2 && c1 == c2,
{
    assert((r1 - r2) * 144 == c2 - c1) by (nonlinear_arith)
        requires
            r1 * 144 + c1 == r2 * 144 + c2,
    ;
    assert(r1 == r2) by (nonlinear_arith)
        requires
            (r1 - r2) * 144 == c2 - c1,
            -144 < c2 - c1 < 144,
    ;
}

/// A sequence whose first `n` entries all hold `v` counts `n` of them.
pub proof fn lemma_count_val_up_to_all(s: Seq<usize>, v: usize, n: int)
    requires
        n <= s.len(),
        forall|i: int| 0 <= i < n ==> s[i] == v,
    ensures
        count_val_up_to(s, v, n) == if n <= 0 {
            0int
        } else {
            n
        },
    decreases n,
{
    if n > 0 {
        lemma_count_val_up_to_all(s, v, n - 1);
    }
}

/// A board with no placed cell is empty in every slot of its backing
/// vector.
pub proof fn lemma_all_empty_seq(b: Board)
    requires
        b.wf(),
        forall|r: int, c: int| in_grid(r, c) ==> !b.occ(r, c),
    ensures
        forall|i: int| 0 <= i < b@.len() ==> b@[i] == EMPTY_VALUE,
{
    assert forall|i: int| 0 <= i < BOARD_AREA implies b@[i] == EMPTY_VALUE by {
        let r = i / 144;
        let c = i % 144;
        vstd::arithmetic::div_mod::lemma_fundamental_div_mod(i, 144);
        assert(0 <= c < 144) by {
            vstd::arithmetic::div_mod::lemma_mod_bound(i, 144);
        }
        assert(0 <= r < 144) by (nonlinear_arith)
            requires
                i == 144 * r + c,
                0 <= i < 20736,
                0 <= c < 144,
        ;
        assert(i == r * 144 + c);
        assert(!b.occ(r, c));
    }
}

/// Well-formed boards that agree on every grid cell are equal.
pub proof fn lemma_board_ext_equal(b1: Board, b2: Board)
    requires
        b1.wf(),
        b2.wf(),
        forall|r: int, c: int| in_grid(r, c) ==> b1.cell(r, c) == b2.cell(r, c),
    ensures
        b1@ == b2@,
{
    assert forall|i: int| 0 <= i < BOARD_AREA implies b1@[i] == b2@[i] by {
        let r = i / 144;
        let c = i % 144;
        vstd::arithmetic::div_mod::lemma_fundamental_div_mod(i, 144);
        assert(0 <= c < 144) by {
            vstd::arithmetic::div_mod::lemma_mod_bound(i, 144);
        }
        assert(0 <= r < 144) by (nonlinear_arith)
            requires
                i == 144 * r + c,
                0 <= i < 20736,
                0 <= c < 144,
        ;
        assert(i == r * 144 + c);
        assert(in_grid(r, c));
        assert(b1.cell(r, c) == b2.cell(r, c));
        assert(b1@[i] == b2@[i]);
    }
    assert(b1@ =~= b2@);
}

} // verus!

verus! {

/// A hand of letters: one count per letter of the alphabet.
pub open spec fn letters_wf(h: Seq<usize>) -> bool {
    h.len() == LETTER_COUNT
}

/// A word in index form: non-empty, bounded length, every entry a letter.
pub open spec fn word_wf(w: Seq<usize>) -> bool {
    &&& 1 <= w.len() <= MAX_WORD_LENGTH
    &&& forall|i: int| 0 <= i < w.len() ==> #[trigger] w[i] < LETTER_COUNT
}

/// `lob` records, for every letter, how many tiles of it the board holds.
pub open spec fn counts_match(b: Board, lob: Seq<usize>) -> bool {
    &&& lob.len() == LETTER_COUNT
    &&& forall|l: int| 0 <= l < LETTER_COUNT ==> #[trigger] lob[l] == count_val(b@, l as usize)
}

/// Row of the `i`-th cell of a placement starting at `(row, col)`.
pub open spec fn span_row(direction: Direction, row: int, i: int) -> int {
    match direction {
        Direction::Horizontal => row,
        Direction::Vertical => row + i,
    }
}

/// Column of the `i`-th cell of a placement starting at `(row, col)`.
pub open spec fn span_col(direction: Direction, col: int, i: int) -> int {
    match direction {
        Direction::Horizontal => col + i,
        Direction::Vertical => col,
    }
}

/// The whole placement lies on the grid.
pub open spec fn span_fits(direction: Direction, row: int, col: int, len: int) -> bool {
    match direction {
        Direction::Horizontal => col + len <= BOARD_SIZE,
        Direction::Vertical => row + len <= BOARD_SIZE,
    }
}

/// `(r, c)` is one of the `len` cells of the placement.
pub open spec fn on_span(direction: Direction, row: int, col: int, len: int, r: int, c: int) -> bool {
    match direction {
        Direction::Horizontal => r == row && col <= c < col + len,
        Direction::Vertical => c == col && row <= r < row + len,
    }
}

/// A cell perpendicular to the `i`-th cell of the placement is occupied.
pub open spec fn perp_occ(b: Board, direction: Direction, row: int, col: int, i: int) -> bool {
    match direction {
        Direction::Horizontal => b.occ(row - 1, col + i) || b.occ(row + 1, col + i),
        Direction::Vertical => b.occ(row + i, col - 1) || b.occ(row + i, col + 1),
    }
}

/// The touch predicate: the placement adjoins existing tiles, through the
/// cell just before its start, the cell just after its end, or a cell
/// perpendicularly adjacent to its footprint.  Off-grid neighbours count as
/// empty, so the predicate degrades at the grid edge.
pub open spec fn touches(b: Board, direction: Direction, row: int, col: int, len: int) -> bool {
    ||| b.occ(span_row(direction, row, -1), span_col(direction, col, -1))
    ||| b.occ(span_row(direction, row, len), span_col(direction, col, len))
    ||| exists|i: int| 0 <= i < len && #[trigger] perp_occ(b, direction, row, col, i)
}

/// Every cell of the placement is empty or already holds the same letter.
pub open spec fn compatible(b: Board, w: Seq<usize>, direction: Direction, row: int, col: int) -> bool {
    forall|i: int|
        0 <= i < w.len() ==> {
            let v = #[trigger] b.cell(span_row(direction, row, i), span_col(direction, col, i));
            v == EMPTY_VALUE || v == w[i]
        }
}

/// Some cell of the placement span is still empty.
pub open spec fn span_has_empty(b: Board, direction: Direction, row: int, col: int, len: int) -> bool {
    exists|i: int|
        0 <= i < len && #[trigger] b.cell(span_row(direction, row, i), span_col(direction, col, i))
            == EMPTY_VALUE
}

/// How many tiles of letter `l` the placement must draw from the hand: the
/// empty cells among the first `n` of the span that the word fills with
/// `l`.
pub open spec fn span_need(
    b: Board,
    w: Seq<usize>,
    direction: Direction,
    row: int,
    col: int,
    l: usize,
    n: int,
) -> int
    decreases n,
{
    if n <= 0 {
        0
    } else {
        span_need(b, w, direction, row, col, l, n - 1) + if b.cell(
            span_row(direction, row, n - 1),
            span_col(direction, col, n - 1),
        ) == EMPTY_VALUE && w[n - 1] == l {
            1int
        } else {
            0int
        }
    }
}

/// The hand holds enough tiles of every letter for the placement's draws.
pub open spec fn hand_covers(
    b: Board,
    w: Seq<usize>,
    direction: Direction,
    row: int,
    col: int,
    h: Seq<usize>,
) -> bool {
    forall|l: int|
        0 <= l < LETTER_COUNT ==> span_need(b, w, direction, row, col, (l as usize), w.len() as int)
            <= #[trigger] h[l]
}

/// Draws only grow along the span.
pub proof fn lemma_span_need_le(
    b: Board,
    w: Seq<usize>,
    direction: Direction,
    row: int,
    col: int,
    l: usize,
    i: int,
    j: int,
)
    requires
        0 <= i <= j,
    ensures
        span_need(b, w, direction, row, col, l, i) <= span_need(b, w, direction, row, col, l, j),
    decreases j - i,
{
    if i < j {
        lemma_span_need_le(b, w, direction, row, col, l, i, j - 1);
    }
}

/// Some entry of `s` names the cell `(r, c)`.
pub open spec fn placed_has_cell(s: Seq<(usize, usize)>, r: int, c: int) -> bool {
    exists|k: int| 0 <= k < s.len() && (#[trigger] s[k]).0 == r && s[k].1 == c
}

/// Sum of the first `n` letter counts of a hand.
pub open spec fn hand_sum_up_to(h: Seq<usize>, n: int) -> int
    decreases n,
{
    if n <= 0 {
        0
    } else {
        hand_sum_up_to(h, n - 1) + h[n - 1]
    }
}

/// Total number of tiles in a hand.
pub open spec fn hand_sum(h: Seq<usize>) -> int {
    hand_sum_up_to(h, h.len() as int)
}

pub proof fn lemma_hand_sum_up_to_update(h: Seq<usize>, i: int, x: usize, n: int)
    requires
        0 <= i < h.len(),
        n <= h.len(),
    ensures
        hand_sum_up_to(h.update(i, x), n) == hand_sum_up_to(h, n) + if i < n {
            x - h[i]
        } else {
            0int
        },
    decreases n,
{
    if n > 0 {
        lemma_hand_sum_up_to_update(h, i, x, n - 1);
    }
}

pub proof fn lemma_hand_sum_up_to_nonneg(h: Seq<usize>, n: int)
    requires
        n <= h.len(),
    ensures
        hand_sum_up_to(h, n) >= 0,
    decreases n,
{
    if n > 0 {
        lemma_hand_sum_up_to_nonneg(h, n - 1);
    }
}

/// A positive entry witnesses a positive hand total.
pub proof fn lemma_hand_sum_up_to_entry(h: Seq<usize>, i: int, n: int)
    requires
        0 <= i < n <= h.len(),
    ensures
        hand_sum_up_to(h, n) >= h[i],
    decreases n,
{
    lemma_hand_sum_up_to_nonneg(h, n - 1);
    if i < n - 1 {
        lemma_hand_sum_up_to_entry(h, i, n - 1);
    }
}

/// Copies a vector of values.
pub fn copy_vec(v: &Vec<usize>) -> (r: Vec<usize>)
    ensures
        r@ == v@,
{
    let mut r: Vec<usize> = Vec::new();
    let n = v.len();
    for i in 0..n
        invariant
            n == v.len(),
            r@.len() == i,
            forall|j: int| 0 <= j < i ==> r@[j] == v@[j],
    {
        r.push(v[i]);
    }
    proof {
        assert(r@ =~= v@);
    }
    r
}

} // verus!

verus! {

use vstd::pervasive::VecAdditionalExecFns;

impl Board {
    /// Attempts to play `word` starting at `(row_idx, col_idx)` in the given
    /// `direction`, drawing new tiles from `letters`.
    ///
    /// On success the placement fit on the grid, touched the existing tiles,
    /// agreed with every overlapped cell, and filled at least one new cell;
    /// the returned list is exactly the newly filled cells and the returned
    /// hand is `letters` minus the tiles placed.  On failure the board may
    /// hold partially written cells, all of them listed in the returned
    /// list, which `undo_play` reverts exactly.
    #[verifier::rlimit(100)]
    pub fn play_word(
        &mut self,
        word: &Vec<usize>,
        row_idx: usize,
        col_idx: usize,
        direction: Direction,
        letters: &Vec<usize>,
        letters_on_board: &mut Vec<usize>,
    ) -> (res: (bool, Vec<(usize, usize)>, Vec<usize>, LetterUsage))
        requires
            old(self).wf(),
            word_wf(word@),
            letters_wf(letters@),
            counts_match(*old(self), old(letters_on_board)@),
            row_idx < BOARD_SIZE,
            col_idx < BOARD_SIZE,
        ensures
            final(self).wf(),
            final(self)@.len() == old(self)@.len(),
            counts_match(*final(self), final(letters_on_board)@),
            letters_wf(res.2@),
            forall|k: int|
                0 <= k < res.1@.len() ==> (in_grid((#[trigger] res.1@[k]).0 as int, res.1@[k].1 as int)
                    && !old(self).occ(res.1@[k].0 as int, res.1@[k].1 as int) && final(self).occ(
                    res.1@[k].0 as int,
                    res.1@[k].1 as int,
                ) && on_span(
                    direction,
                    row_idx as int,
                    col_idx as int,
                    word@.len() as int,
                    res.1@[k].0 as int,
                    res.1@[k].1 as int,
                )),
            forall|k1: int, k2: int| 0 <= k1 < k2 < res.1@.len() ==> res.1@[k1] != res.1@[k2],
            forall|r: int, c: int|
                in_grid(r, c) && !placed_has_cell(res.1@, r, c) ==> #[trigger] final(self).cell(r, c)
                    == old(self).cell(r, c),
            res.0 ==> span_fits(direction, row_idx as int, col_idx as int, word@.len() as int),
            res.0 ==> compatible(*old(self), word@, direction, row_idx as int, col_idx as int),
            res.0 ==> touches(*old(self), direction, row_idx as int, col_idx as int, word@.len() as int),
            res.0 ==> forall|i: int|
                0 <= i < word@.len() ==> final(self).cell(
                    #[trigger] span_row(direction, row_idx as int, i),
                    span_col(direction, col_idx as int, i),
                ) == word@[i],
            res.0 ==> res.1@.len() >= 1,
            res.0 ==> forall|l: int|
                0 <= l < LETTER_COUNT ==> #[trigger] letters@[l] == res.2@[l] + count_val(
                    final(self)@,
                    l as usize,
                ) - count_val(old(self)@, l as usize),
            res.0 ==> forall|l: int|
                0 <= l < LETTER_COUNT ==> count_val(final(self)@, l as usize) >= count_val(
                    old(self)@,
                    #[trigger] (l as usize),
                ),
            res.0 ==> hand_sum(res.2@) + res.1@.len() == hand_sum(letters@),
            res.0 ==> ((res.3 == LetterUsage::Finished) <==> (forall|l: int|
                0 <= l < LETTER_COUNT ==> #[trigger] res.2@[l] == 0)),
            res.0 ==> (res.3 == LetterUsage::Finished || res.3 == LetterUsage::Remaining),
            !span_fits(direction, row_idx as int, col_idx as int, word@.len() as int) ==> (!res.0
                && res.1@.len() == 0 && final(self)@ == old(self)@ && res.2@ == letters@ && res.3
                == LetterUsage::Remaining),
            (span_fits(direction, row_idx as int, col_idx as int, word@.len() as int) && !touches(
                *old(self),
                direction,
                row_idx as int,
                col_idx as int,
                word@.len() as int,
            )) ==> (!res.0 && res.1@.len() == 0 && final(self)@ == old(self)@ && res.2@ == letters@
                && res.3 == LetterUsage::Remaining),
            (span_fits(direction, row_idx as int, col_idx as int, word@.len() as int) && touches(
                *old(self),
                direction,
                row_idx as int,
                col_idx as int,
                word@.len() as int,
            ) && compatible(*old(self), word@, direction, row_idx as int, col_idx as int)
                && span_has_empty(
                *old(self),
                direction,
                row_idx as int,
                col_idx as int,
                word@.len() as int,
            ) && hand_covers(
                *old(self),
                word@,
                direction,
                row_idx as int,
                col_idx as int,
                letters@,
            )) ==> res.0,
            (span_fits(direction, row_idx as int, col_idx as int, word@.len() as int) && touches(
                *old(self),
                direction,
                row_idx as int,
                col_idx as int,
                word@.len() as int,
            ) && compatible(*old(self), word@, direction, row_idx as int, col_idx as int)
                && !span_has_empty(
                *old(self),
                direction,
                row_idx as int,
                col_idx as int,
                word@.len() as int,
            )) ==> (!res.0 && res.1@.len() == 0 && final(self)@ == old(self)@ && res.2@ == letters@
                && res.3 == LetterUsage::Remaining),
            (span_fits(direction, row_idx as int, col_idx as int, word@.len() as int) && touches(
                *old(self),
                direction,
                row_idx as int,
                col_idx as int,
                word@.len() as int,
            ) && compatible(*old(self), word@, direction, row_idx as int, col_idx as int)
                && !hand_covers(
                *old(self),
                word@,
                direction,
                row_idx as int,
                col_idx as int,
                letters@,
            )) ==> (!res.0 && res.3 == LetterUsage::Overused),
    {
        let ghost b0: Board = *self;
        let ghost lob0: Seq<usize> = letters_on_board@;
        let word_len = word.len();
        let mut played_indices: Vec<(usize, usize)> = Vec::new();
        let mut remaining_letters = copy_vec(letters);
        let fits = match direction {
            Direction::Horizontal => col_idx + word_len <= BOARD_SIZE,
            Direction::Vertical => row_idx + word_len <= BOARD_SIZE,
        };
        if !fits {
            return (false, played_indices, remaining_letters, LetterUsage::Remaining);
        }
        // The touch predicate: before the start, after the end, or beside
        // some cell of the footprint.
        let borders_before = match direction {
            Direction::Horizontal => col_idx > 0 && self.get_val(row_idx, col_idx - 1)
                != EMPTY_VALUE,
            Direction::Vertical => row_idx > 0 && self.get_val(row_idx - 1, col_idx) != EMPTY_VALUE,
        };
        let borders_after = match direction {
            Direction::Horizontal => col_idx + word_len < BOARD_SIZE && self.get_val(
                row_idx,
                col_idx + word_len,
            ) != EMPTY_VALUE,
            Direction::Vertical => row_idx + word_len < BOARD_SIZE && self.get_val(
                row_idx + word_len,
                col_idx,
            ) != EMPTY_VALUE,
        };
        let mut borders_side = false;
        let mut i: usize = 0;
        while i < word_len
            invariant
                *self == b0,
                b0 == *old(self),
                old(letters_on_board)@ == letters_on_board@,
                b0.wf(),
                word_len == word@.len(),
                row_idx < BOARD_SIZE,
                col_idx < BOARD_SIZE,
                span_fits(direction, row_idx as int, col_idx as int, word_len as int),
                i <= word_len,
                borders_side == exists|j: int|
                    0 <= j < i && #[trigger] perp_occ(
                        b0,
                        direction,
                        row_idx as int,
                        col_idx as int,
                        j,
                    ),
            decreases word_len - i,
        {
            let side = match direction {
                Direction::Horizontal => (row_idx > 0 && self.get_val(row_idx - 1, col_idx + i)
                    != EMPTY_VALUE) || (row_idx + 1 < BOARD_SIZE && self.get_val(
                    row_idx + 1,
                    col_idx + i,
                ) != EMPTY_VALUE),
                Direction::Vertical => (col_idx > 0 && self.get_val(row_idx + i, col_idx - 1)
                    != EMPTY_VALUE) || (col_idx + 1 < BOARD_SIZE && self.get_val(
                    row_idx + i,
                    col_idx + 1,
                ) != EMPTY_VALUE),
            };
            proof {
                assert(side == perp_occ(b0, direction, row_idx as int, col_idx as int, i as int));
            }
            if side {
                borders_side = true;
            }
            i += 1;
        }
        let touching = borders_before || borders_after || borders_side;
        proof {
            assert(borders_before == b0.occ(
                span_row(direction, row_idx as int, -1),
                span_col(direction, col_idx as int, -1),
            ));
            assert(borders_after == b0.occ(
                span_row(direction, row_idx as int, word_len as int),
                span_col(direction, col_idx as int, word_len as int),
            ));
            assert(touching == touches(
                b0,
                direction,
                row_idx as int,
                col_idx as int,
                word_len as int,
            ));
        }
        if !touching {
            return (false, played_indices, remaining_letters, LetterUsage::Remaining);
        }
        let ghost hand0: Seq<usize> = letters@;
        let mut i: usize = 0;
        while i < word_len
            invariant
                self.wf(),
                self@.len() == b0@.len(),
                b0 == *old(self),
                b0.wf(),
                counts_match(*self, letters_on_board@),
                word_wf(word@),
                word_len == word@.len(),
                letters_wf(hand0),
                hand0 == letters@,
                remaining_letters@.len() == LETTER_COUNT,
                row_idx < BOARD_SIZE,
                col_idx < BOARD_SIZE,
                span_fits(direction, row_idx as int, col_idx as int, word_len as int),
                touches(b0, direction, row_idx as int, col_idx as int, word_len as int),
                i <= word_len,
                forall|l: int|
                    #![trigger count_val(b0@, (l as usize))]
                    0 <= l < LETTER_COUNT ==> count_val(self@, (l as usize)) - count_val(
                        b0@,
                        (l as usize),
                    ) == span_need(
                        b0,
                        word@,
                        direction,
                        row_idx as int,
                        col_idx as int,
                        (l as usize),
                        i as int,
                    ),
                (exists|j: int|
                    0 <= j < i && #[trigger] b0.cell(
                        span_row(direction, row_idx as int, j),
                        span_col(direction, col_idx as int, j),
                    ) == EMPTY_VALUE) ==> played_indices@.len() > 0,
                forall|k: int|
                    0 <= k < played_indices@.len() ==> (in_grid(
                        (#[trigger] played_indices@[k]).0 as int,
                        played_indices@[k].1 as int,
                    ) && !b0.occ(played_indices@[k].0 as int, played_indices@[k].1 as int)
                        && self.occ(played_indices@[k].0 as int, played_indices@[k].1 as int)
                        && on_span(
                        direction,
                        row_idx as int,
                        col_idx as int,
                        i as int,
                        played_indices@[k].0 as int,
                        played_indices@[k].1 as int,
                    )),
                forall|k1: int, k2: int|
                    0 <= k1 < k2 < played_indices@.len() ==> played_indices@[k1]
                        != played_indices@[k2],
                forall|r: int, c: int|
                    in_grid(r, c) && !placed_has_cell(played_indices@, r, c)
                        ==> #[trigger] self.cell(r, c) == b0.cell(r, c),
                forall|j: int|
                    0 <= j < i ==> {
                        let v = #[trigger] b0.cell(
                            span_row(direction, row_idx as int, j),
                            span_col(direction, col_idx as int, j),
                        );
                        v == EMPTY_VALUE || v == word@[j]
                    },
                forall|j: int|
                    0 <= j < i ==> self.cell(
                        #[trigger] span_row(direction, row_idx as int, j),
                        span_col(direction, col_idx as int, j),
                    ) == word@[j],
                forall|l: int|
                    0 <= l < LETTER_COUNT ==> #[trigger] hand0[l] == remaining_letters@[l]
                        + count_val(self@, l as usize) - count_val(b0@, l as usize),
                forall|l: int|
                    0 <= l < LETTER_COUNT ==> count_val(self@, l as usize) >= count_val(
                        b0@,
                        #[trigger] (l as usize),
                    ),
                hand_sum(remaining_letters@) + played_indices@.len() == hand_sum(hand0),
            decreases word_len - i,
        {
            let (r, c) = match direction {
                Direction::Horizontal => (row_idx, col_idx + i),
                Direction::Vertical => (row_idx + i, col_idx),
            };
            proof {
                assert(r as int == span_row(direction, row_idx as int, i as int));
                assert(c as int == span_col(direction, col_idx as int, i as int));
            }
            let cur = self.get_val(r, c);
            let letter = word[i];
            proof {
                assert(!placed_has_cell(played_indices@, r as int, c as int)) by {
                    if placed_has_cell(played_indices@, r as int, c as int) {
                        let k = choose|k: int|
                            0 <= k < played_indices@.len() && (#[trigger] played_indices@[k]).0
                                == r && played_indices@[k].1 == c;
                    }
                }
                assert(b0.cell(
                    span_row(direction, row_idx as int, i as int),
                    span_col(direction, col_idx as int, i as int),
                ) == cur);
            }
            if cur == EMPTY_VALUE {
                proof {
                    assert(!placed_has_cell(played_indices@, r as int, c as int));
                    assert(b0.cell(r as int, c as int) == EMPTY_VALUE);
                    lemma_count_val_up_to_bounds(self@, letter, self@.len() as int);
                }
                self.set_val(r, c, letter);
                let lob_letter = letters_on_board[letter];
                letters_on_board.set(letter, lob_letter + 1);
                proof {
                    assert forall|rr: int, cc: int|
                        in_grid(rr, cc) && !placed_has_cell(
                            played_indices@.push((r, c)),
                            rr,
                            cc,
                        ) implies #[trigger] self.cell(rr, cc) == b0.cell(rr, cc) by {
                        assert(!placed_has_cell(played_indices@, rr, cc)) by {
                            if placed_has_cell(played_indices@, rr, cc) {
                                let k = choose|k: int|
                                    0 <= k < played_indices@.len()
                                        && (#[trigger] played_indices@[k]).0 == rr
                                        && played_indices@[k].1 == cc;
                                assert(played_indices@.push((r, c))[k] == played_indices@[k]);
                            }
                        }
                        assert(!(rr == r as int && cc == c as int)) by {
                            let n = played_indices@.len() as int;
                            assert(played_indices@.push((r, c))[n] == (r, c));
                            if rr == r as int && cc == c as int {
                                assert(placed_has_cell(played_indices@.push((r, c)), rr, cc));
                            }
                        }
                    }
                    assert forall|l: int|
                        #![trigger count_val(b0@, (l as usize))]
                        0 <= l < LETTER_COUNT implies count_val(self@, (l as usize)) - count_val(
                        b0@,
                        (l as usize),
                    ) == span_need(
                        b0,
                        word@,
                        direction,
                        row_idx as int,
                        col_idx as int,
                        (l as usize),
                        i as int + 1,
                    ) by {
                        if l != letter as int {
                            assert(word@[i as int] != (l as usize));
                        }
                    }
                }
                played_indices.push((r, c));
                let rem = remaining_letters[letter];
                if rem == 0 {
                    proof {
                        assert forall|k: int|
                            0 <= k < played_indices@.len() implies (in_grid(
                                (#[trigger] played_indices@[k]).0 as int,
                                played_indices@[k].1 as int,
                            ) && !b0.occ(played_indices@[k].0 as int, played_indices@[k].1 as int)
                                && self.occ(
                                played_indices@[k].0 as int,
                                played_indices@[k].1 as int,
                            ) && on_span(
                                direction,
                                row_idx as int,
                                col_idx as int,
                                word_len as int,
                                played_indices@[k].0 as int,
                                played_indices@[k].1 as int,
                            )) by {
                            if k < played_indices@.len() - 1 {
                                assert(played_indices@[k] == played_indices@.drop_last()[k]);
                            }
                        }
                    }
                    proof {
                        assert(span_has_empty(
                            b0,
                            direction,
                            row_idx as int,
                            col_idx as int,
                            word_len as int,
                        )) by {
                            assert(b0.cell(
                                span_row(direction, row_idx as int, i as int),
                                span_col(direction, col_idx as int, i as int),
                            ) == EMPTY_VALUE);
                        }
                        if hand_covers(b0, word@, direction, row_idx as int, col_idx as int, hand0) {
                            lemma_span_need_le(
                                b0,
                                word@,
                                direction,
                                row_idx as int,
                                col_idx as int,
                                letter,
                                i as int + 1,
                                word_len as int,
                            );
                            let l = letter as int;
                            assert((l as usize) == letter);
                            assert(span_need(
                                b0,
                                word@,
                                direction,
                                row_idx as int,
                                col_idx as int,
                                (l as usize),
                                word@.len() as int,
                            ) <= hand0[l]);
                            assert(count_val(self@, (l as usize)) - count_val(b0@, (l as usize))
                                == span_need(
                                b0,
                                word@,
                                direction,
                                row_idx as int,
                                col_idx as int,
                                (l as usize),
                                i as int + 1,
                            ));
                            assert(hand0[l] == remaining_letters@[l] + count_val(
                                self@,
                                (l as usize),
                            ) - count_val(b0@, (l as usize)) - 1);
                            assert(false);
                        }
                    }
                    return (false, played_indices, remaining_letters, LetterUsage::Overused);
                }
                let ghost rem_before: Seq<usize> = remaining_letters@;
                remaining_letters.set(letter, rem - 1);
                proof {
                    lemma_hand_sum_up_to_update(
                        rem_before,
                        letter as int,
                        (rem - 1) as usize,
                        LETTER_COUNT as int,
                    );
                }
            } else if cur != letter {
                return (false, played_indices, remaining_letters, LetterUsage::Remaining);
            } else {
                proof {
                    assert forall|l: int|
                        #![trigger count_val(b0@, (l as usize))]
                        0 <= l < LETTER_COUNT implies count_val(self@, (l as usize)) - count_val(
                        b0@,
                        (l as usize),
                    ) == span_need(
                        b0,
                        word@,
                        direction,
                        row_idx as int,
                        col_idx as int,
                        (l as usize),
                        i as int + 1,
                    ) by {}
                }
            }
            i += 1;
        }
        proof {
            // Completing the loop shows the hand covered every draw.
            assert(hand_covers(b0, word@, direction, row_idx as int, col_idx as int, hand0)) by {
                assert forall|l: int|
                    #![trigger hand0[l]]
                    0 <= l < LETTER_COUNT implies span_need(
                    b0,
                    word@,
                    direction,
                    row_idx as int,
                    col_idx as int,
                    (l as usize),
                    word@.len() as int,
                ) <= hand0[l] by {
                    assert(hand0[l] == remaining_letters@[l] + count_val(self@, (l as usize))
                        - count_val(b0@, l as usize));
                    assert(count_val(self@, (l as usize)) - count_val(b0@, l as usize)
                        == span_need(
                        b0,
                        word@,
                        direction,
                        row_idx as int,
                        col_idx as int,
                        (l as usize),
                        word_len as int,
                    ));
                }
            }
            if !span_has_empty(b0, direction, row_idx as int, col_idx as int, word_len as int) {
                // A fully overlapped span placed nothing, so the board and
                // hand are exactly as before.
                assert(played_indices@.len() == 0) by {
                    if played_indices@.len() > 0 {
                        let rc = played_indices@[0];
                        assert(!b0.occ(rc.0 as int, rc.1 as int));
                        let j: int = match direction {
                            Direction::Horizontal => rc.1 - col_idx,
                            Direction::Vertical => rc.0 - row_idx,
                        };
                        assert(b0.cell(
                            span_row(direction, row_idx as int, j),
                            span_col(direction, col_idx as int, j),
                        ) == EMPTY_VALUE);
                    }
                }
                assert forall|rr: int, cc: int| in_grid(rr, cc) implies self.cell(rr, cc)
                    == b0.cell(rr, cc) by {
                    assert(!placed_has_cell(played_indices@, rr, cc)) by {
                        if placed_has_cell(played_indices@, rr, cc) {
                            let k = choose|k: int|
                                0 <= k < played_indices@.len() && (#[trigger] played_indices@[k]).0
                                    == rr && played_indices@[k].1 == cc;
                        }
                    }
                }
                lemma_board_ext_equal(*self, b0);
                assert(remaining_letters@ =~= hand0);
            } else {
                assert(played_indices@.len() > 0);
            }
        }
        let mut all_zero = true;
        let mut l: usize = 0;
        while l < LETTER_COUNT
            invariant
                remaining_letters@.len() == LETTER_COUNT,
                l <= LETTER_COUNT,
                all_zero == (forall|j: int| 0 <= j < l ==> #[trigger] remaining_letters@[j] == 0),
            decreases LETTER_COUNT - l,
        {
            if remaining_letters[l] != 0 {
                all_zero = false;
            }
            l += 1;
        }
        let entirely_overlaps = played_indices.len() == 0;
        if all_zero && !entirely_overlaps {
            (true, played_indices, remaining_letters, LetterUsage::Finished)
        } else {
            (!entirely_overlaps, played_indices, remaining_letters, LetterUsage::Remaining)
        }
    }

    /// Reverts the listed cells to empty, maintaining the board letter
    /// counts, and returns the letters the cells held, in list order.
    pub fn undo_play(
        &mut self,
        played_indices: &Vec<(usize, usize)>,
        letters_on_board: &mut Vec<usize>,
    ) -> (old_letters: Vec<usize>)
        requires
            old(self).wf(),
            counts_match(*old(self), old(letters_on_board)@),
            forall|k: int|
                0 <= k < played_indices@.len() ==> in_grid(
                    (#[trigger] played_indices@[k]).0 as int,
                    played_indices@[k].1 as int,
                ) && old(self).occ(played_indices@[k].0 as int, played_indices@[k].1 as int),
            forall|k1: int, k2: int|
                0 <= k1 < k2 < played_indices@.len() ==> played_indices@[k1] != played_indices@[k2],
        ensures
            final(self).wf(),
            final(self)@.len() == old(self)@.len(),
            counts_match(*final(self), final(letters_on_board)@),
            forall|k: int|
                0 <= k < played_indices@.len() ==> final(self).cell(
                    (#[trigger] played_indices@[k]).0 as int,
                    played_indices@[k].1 as int,
                ) == EMPTY_VALUE,
            forall|r: int, c: int|
                in_grid(r, c) && !placed_has_cell(played_indices@, r, c)
                    ==> #[trigger] final(self).cell(r, c) == old(self).cell(r, c),
            old_letters@.len() == played_indices@.len(),
            forall|k: int|
                0 <= k < played_indices@.len() ==> #[trigger] old_letters@[k] == old(self).cell(
                    played_indices@[k].0 as int,
                    played_indices@[k].1 as int,
                ),
            count_val(final(self)@, EMPTY_VALUE) == count_val(old(self)@, EMPTY_VALUE)
                + played_indices@.len(),
            forall|v: usize|
                v != EMPTY_VALUE ==> count_val(final(self)@, v) == count_val(old(self)@, v)
                    - count_val(old_letters@, v),
    {
        let ghost b0: Board = *self;
        let mut old_letters: Vec<usize> = Vec::new();
        let n = played_indices.len();
        let mut k: usize = 0;
        while k < n
            invariant
                self.wf(),
                self@.len() == b0@.len(),
                b0 == *old(self),
                b0.wf(),
                counts_match(*self, letters_on_board@),
                n == played_indices@.len(),
                k <= n,
                forall|j: int|
                    0 <= j < n ==> in_grid(
                        (#[trigger] played_indices@[j]).0 as int,
                        played_indices@[j].1 as int,
                    ) && b0.occ(played_indices@[j].0 as int, played_indices@[j].1 as int),
                forall|j1: int, j2: int|
                    0 <= j1 < j2 < n ==> played_indices@[j1] != played_indices@[j2],
                forall|j: int|
                    0 <= j < k ==> self.cell(
                        (#[trigger] played_indices@[j]).0 as int,
                        played_indices@[j].1 as int,
                    ) == EMPTY_VALUE,
                forall|r: int, c: int|
                    in_grid(r, c) && !placed_has_cell(played_indices@.take(k as int), r, c)
                        ==> #[trigger] self.cell(r, c) == b0.cell(r, c),
                old_letters@.len() == k,
                forall|j: int|
                    0 <= j < k ==> #[trigger] old_letters@[j] == b0.cell(
                        played_indices@[j].0 as int,
                        played_indices@[j].1 as int,
                    ),
                count_val(self@, EMPTY_VALUE) == count_val(b0@, EMPTY_VALUE) + k,
                forall|v: usize|
                    v != EMPTY_VALUE ==> count_val(self@, v) == count_val(b0@, v) - count_val(
                        old_letters@,
                        v,
                    ),
            decreases n - k,
        {
            let (r, c) = played_indices[k];
            proof {
                assert(!placed_has_cell(played_indices@.take(k as int), r as int, c as int)) by {
                    if placed_has_cell(played_indices@.take(k as int), r as int, c as int) {
                        let j = choose|j: int|
                            0 <= j < k && (#[trigger] played_indices@.take(k as int)[j]).0
                                == r as int && played_indices@.take(k as int)[j].1 == c as int;
                        assert(played_indices@[j] == played_indices@.take(k as int)[j]);
                        assert(played_indices@[j] != played_indices@[k as int]);
                    }
                }
                assert(self.cell(r as int, c as int) == b0.cell(r as int, c as int));
            }
            let old_val = self.get_val(r, c);
            proof {
                lemma_count_val_up_to_pos(self@, old_val, r as int * 144 + c as int, self@.len() as int);
                lemma_cell_index_bounds(r as int, c as int);
            }
            let lob_val = letters_on_board[old_val];
            letters_on_board.set(old_val, lob_val - 1);
            let ghost ol0: Seq<usize> = old_letters@;
            old_letters.push(old_val);
            proof {
                assert forall|v: usize| #[trigger] count_val(old_letters@, v) == count_val(ol0, v)
                    + (if old_val == v {
                    1int
                } else {
                    0int
                }) by {
                    lemma_count_val_up_to_agree(old_letters@, ol0, v, ol0.len() as int);
                    assert(old_letters@[ol0.len() as int] == old_val);
                }
            }
            self.set_val(r, c, EMPTY_VALUE);
            proof {
                assert forall|rr: int, cc: int|
                    in_grid(rr, cc) && !placed_has_cell(
                        played_indices@.take(k as int + 1),
                        rr,
                        cc,
                    ) implies #[trigger] self.cell(rr, cc) == b0.cell(rr, cc) by {
                    assert(!placed_has_cell(played_indices@.take(k as int), rr, cc)) by {
                        if placed_has_cell(played_indices@.take(k as int), rr, cc) {
                            let j = choose|j: int|
                                0 <= j < k && (#[trigger] played_indices@.take(k as int)[j]).0 == rr
                                    && played_indices@.take(k as int)[j].1 == cc;
                            assert(played_indices@.take(k as int + 1)[j] == played_indices@.take(
                                k as int,
                            )[j]);
                            assert(placed_has_cell(played_indices@.take(k as int + 1), rr, cc));
                        }
                    }
                    assert(!(rr == r as int && cc == c as int)) by {
                        assert(played_indices@.take(k as int + 1)[k as int] == (r, c));
                        if rr == r as int && cc == c as int {
                            assert(placed_has_cell(played_indices@.take(k as int + 1), rr, cc));
                        }
                    }
                }
            }
            k += 1;
        }
        proof {
            assert(played_indices@.take(n as int) =~= played_indices@);
        }
        old_letters
    }
}

/// Undoing exactly the cells a play filled restores the board that the play
/// started from, bit for bit; and with it, through `counts_match`, the
/// recorded per-letter board counts.
pub proof fn lemma_play_then_undo_restores(
    b0: Board,
    b1: Board,
    b2: Board,
    placed: Seq<(usize, usize)>,
)
    requires
        b0.wf(),
        b1.wf(),
        b2.wf(),
        forall|k: int|
            0 <= k < placed.len() ==> in_grid((#[trigger] placed[k]).0 as int, placed[k].1 as int)
                && !b0.occ(placed[k].0 as int, placed[k].1 as int),
        forall|r: int, c: int|
            in_grid(r, c) && !placed_has_cell(placed, r, c) ==> #[trigger] b1.cell(r, c) == b0.cell(
                r,
                c,
            ),
        forall|k: int|
            0 <= k < placed.len() ==> b2.cell(
                (#[trigger] placed[k]).0 as int,
                placed[k].1 as int,
            ) == EMPTY_VALUE,
        forall|r: int, c: int|
            in_grid(r, c) && !placed_has_cell(placed, r, c) ==> #[trigger] b2.cell(r, c) == b1.cell(
                r,
                c,
            ),
    ensures
        b2@ == b0@,
{
    assert forall|r: int, c: int| in_grid(r, c) implies b2.cell(r, c) == b0.cell(r, c) by {
        if placed_has_cell(placed, r, c) {
            let k = choose|k: int|
                0 <= k < placed.len() && (#[trigger] placed[k]).0 == r && placed[k].1 == c;
            assert(b2.cell(r, c) == EMPTY_VALUE);
            assert(!b0.occ(r, c));
        }
    }
    lemma_board_ext_equal(b2, b0);
}

/// Boards with equal views have equal recorded letter counts: the counts are
/// a function of the board alone.
pub proof fn lemma_counts_match_unique(b1: Board, b2: Board, lob1: Seq<usize>, lob2: Seq<usize>)
    requires
        counts_match(b1, lob1),
        counts_match(b2, lob2),
        b1@ == b2@,
    ensures
        lob1 == lob2,
{
    assert forall|l: int| 0 <= l < LETTER_COUNT implies lob1[l] == lob2[l] by {
        assert(lob1[l] == count_val(b1@, l as usize));
        assert(lob2[l] == count_val(b2@, l as usize));
    }
    assert(lob1 =~= lob2);
}

} // verus!
