//! Connectivity of the placed tiles: the 4-neighbour path model, the
//! depth-first connectivity check used when peeling fragments, and the proof
//! that a touching placement keeps the placed mass in one piece.

use vstd::prelude::*;
use crate::board::{
    in_grid, placed_has_cell, span_col, span_fits, span_row, touches, Board, Direction, BOARD_AREA,
    BOARD_SIZE, EMPTY_VALUE,
};

verus! {

/// `(r1, c1)` and `(r2, c2)` share an edge of the grid graph.
pub open spec fn adjacent(r1: int, c1: int, r2: int, c2: int) -> bool {
    ||| (r1 == r2 && (c2 == c1 + 1 || c2 == c1 - 1))
    ||| (c1 == c2 && (r2 == r1 + 1 || r2 == r1 - 1))
}

/// A cell that counts as placed when the cells of `ign` are disregarded.
pub open spec fn occ_ex(b: Board, ign: Seq<(usize, usize)>, r: int, c: int) -> bool {
    b.occ(r, c) && !placed_has_cell(ign, r, c)
}

/// A walk over placed cells: non-empty, each cell placed, consecutive cells
/// adjacent.
pub open spec fn occ_path(b: Board, ign: Seq<(usize, usize)>, p: Seq<(int, int)>) -> bool {
    &&& p.len() >= 1
    &&& forall|i: int| 0 <= i < p.len() ==> occ_ex(b, ign, (#[trigger] p[i]).0, p[i].1)
    &&& forall|i: int|
        0 < i < p.len() ==> adjacent(p[i - 1].0, p[i - 1].1, (#[trigger] p[i]).0, p[i].1)
}

/// A walk over placed cells joins the two cells.
#[verifier::opaque]
pub open spec fn conn(
    b: Board,
    ign: Seq<(usize, usize)>,
    r1: int,
    c1: int,
    r2: int,
    c2: int,
) -> bool {
    exists|p: Seq<(int, int)>|
        #[trigger] occ_path(b, ign, p) && p[0] == (r1, c1) && p.last() == (r2, c2)
}

/// All placed cells (disregarding `ign`) lie in one 4-connected component.
pub open spec fn connected_ex(b: Board, ign: Seq<(usize, usize)>) -> bool {
    forall|r1: int, c1: int, r2: int, c2: int|
        occ_ex(b, ign, r1, c1) && occ_ex(b, ign, r2, c2) ==> #[trigger] conn(b, ign, r1, c1, r2, c2)
}

/// All placed cells of the board lie in one 4-connected component.
pub open spec fn connected_board(b: Board) -> bool {
    connected_ex(b, Seq::empty())
}

pub proof fn lemma_conn_refl(b: Board, ign: Seq<(usize, usize)>, r: int, c: int)
    requires
        occ_ex(b, ign, r, c),
    ensures
        conn(b, ign, r, c, r, c),
{
    reveal(conn);
    let p: Seq<(int, int)> = seq![(r, c)];
    assert(occ_path(b, ign, p));
    assert(p[0] == (r, c) && p.last() == (r, c));
}

/// A walk can be extended by one adjacent placed cell.
pub proof fn lemma_conn_step(
    b: Board,
    ign: Seq<(usize, usize)>,
    r1: int,
    c1: int,
    r2: int,
    c2: int,
    r3: int,
    c3: int,
)
    requires
        conn(b, ign, r1, c1, r2, c2),
        occ_ex(b, ign, r3, c3),
        adjacent(r2, c2, r3, c3),
    ensures
        conn(b, ign, r1, c1, r3, c3),
{
    reveal(conn);
    let p = choose|p: Seq<(int, int)>|
        #[trigger] occ_path(b, ign, p) && p[0] == (r1, c1) && p.last() == (r2, c2);
    let q = p.push((r3, c3));
    assert forall|i: int| 0 <= i < q.len() implies occ_ex(b, ign, (#[trigger] q[i]).0, q[i].1) by {
        if i < p.len() {
            assert(q[i] == p[i]);
        }
    }
    assert forall|i: int|
        0 < i < q.len() implies adjacent(q[i - 1].0, q[i - 1].1, (#[trigger] q[i]).0, q[i].1) by {
        if i < p.len() {
            assert(q[i] == p[i] && q[i - 1] == p[i - 1]);
        } else {
            assert(q[i - 1] == p.last());
        }
    }
    assert(occ_path(b, ign, q) && q[0] == (r1, c1) && q.last() == (r3, c3));
}

/// Walks reverse.
pub proof fn lemma_conn_sym(
    b: Board,
    ign: Seq<(usize, usize)>,
    r1: int,
    c1: int,
    r2: int,
    c2: int,
)
    requires
        conn(b, ign, r1, c1, r2, c2),
    ensures
        conn(b, ign, r2, c2, r1, c1),
{
    reveal(conn);
    let p = choose|p: Seq<(int, int)>|
        #[trigger] occ_path(b, ign, p) && p[0] == (r1, c1) && p.last() == (r2, c2);
    let n = p.len() as int;
    let q = Seq::new(p.len(), |i: int| p[n - 1 - i]);
    assert forall|i: int| 0 <= i < q.len() implies occ_ex(b, ign, (#[trigger] q[i]).0, q[i].1) by {
        assert(q[i] == p[n - 1 - i]);
    }
    assert forall|i: int|
        0 < i < q.len() implies adjacent(q[i - 1].0, q[i - 1].1, (#[trigger] q[i]).0, q[i].1) by {
        assert(q[i] == p[n - 1 - i] && q[i - 1] == p[n - i]);
        assert(adjacent(p[n - i - 1].0, p[n - i - 1].1, p[n - i].0, p[n - i].1));
    }
    assert(occ_path(b, ign, q) && q[0] == (r2, c2) && q.last() == (r1, c1));
}

/// Walks concatenate.
pub proof fn lemma_conn_trans(
    b: Board,
    ign: Seq<(usize, usize)>,
    r1: int,
    c1: int,
    r2: int,
    c2: int,
    r3: int,
    c3: int,
)
    requires
        conn(b, ign, r1, c1, r2, c2),
        conn(b, ign, r2, c2, r3, c3),
    ensures
        conn(b, ign, r1, c1, r3, c3),
{
    reveal(conn);
    let p = choose|p: Seq<(int, int)>|
        #[trigger] occ_path(b, ign, p) && p[0] == (r1, c1) && p.last() == (r2, c2);
    let q = choose|q: Seq<(int, int)>|
        #[trigger] occ_path(b, ign, q) && q[0] == (r2, c2) && q.last() == (r3, c3);
    let w = p + q.drop_first();
    let np = p.len() as int;
    assert forall|i: int| 0 <= i < w.len() implies occ_ex(b, ign, (#[trigger] w[i]).0, w[i].1) by {
        if i < np {
            assert(w[i] == p[i]);
        } else {
            assert(w[i] == q[i - np + 1]);
        }
    }
    assert forall|i: int|
        0 < i < w.len() implies adjacent(w[i - 1].0, w[i - 1].1, (#[trigger] w[i]).0, w[i].1) by {
        if i < np {
            assert(w[i] == p[i] && w[i - 1] == p[i - 1]);
        } else if i == np {
            if q.len() == 1 {
                assert(i >= w.len());
            } else {
                assert(w[i] == q[1] && w[i - 1] == p.last());
                assert(p.last() == q[0]);
                assert(adjacent(q[0].0, q[0].1, q[1].0, q[1].1));
            }
        } else {
            assert(w[i] == q[i - np + 1] && w[i - 1] == q[i - np]);
            assert(adjacent(q[i - np].0, q[i - np].1, q[i - np + 1].0, q[i - np + 1].1));
        }
    }
    if q.len() == 1 {
        assert(w =~= p);
        assert(w.last() == p.last());
        assert((r2, c2) == (r3, c3));
    } else {
        assert(w.last() == q.last());
    }
    assert(occ_path(b, ign, w) && w[0] == (r1, c1) && w.last() == (r3, c3));
}

/// A walk survives into any board that keeps its cells placed.
pub proof fn lemma_conn_transfer(
    ba: Board,
    igna: Seq<(usize, usize)>,
    bb: Board,
    ignb: Seq<(usize, usize)>,
    r1: int,
    c1: int,
    r2: int,
    c2: int,
)
    requires
        conn(ba, igna, r1, c1, r2, c2),
        forall|r: int, c: int| occ_ex(ba, igna, r, c) ==> #[trigger] occ_ex(bb, ignb, r, c),
    ensures
        conn(bb, ignb, r1, c1, r2, c2),
{
    reveal(conn);
    let p = choose|p: Seq<(int, int)>|
        #[trigger] occ_path(ba, igna, p) && p[0] == (r1, c1) && p.last() == (r2, c2);
    assert forall|i: int| 0 <= i < p.len() implies occ_ex(bb, ignb, (#[trigger] p[i]).0, p[i].1) by {
        assert(occ_ex(ba, igna, p[i].0, p[i].1));
    }
    assert(occ_path(bb, ignb, p));
}

} // verus!

verus! {

use crate::board::{on_span, perp_occ};

/// Consecutive cells of a placement span connect to each other.
pub proof fn lemma_span_conn(
    b: Board,
    ign: Seq<(usize, usize)>,
    direction: Direction,
    row: int,
    col: int,
    len: int,
    i: int,
    j: int,
)
    requires
        0 <= i <= j < len,
        forall|k: int|
            0 <= k < len ==> occ_ex(
                b,
                ign,
                span_row(direction, row, k),
                #[trigger] span_col(direction, col, k),
            ),
    ensures
        conn(
            b,
            ign,
            span_row(direction, row, i),
            span_col(direction, col, i),
            span_row(direction, row, j),
            span_col(direction, col, j),
        ),
    decreases j - i,
{
    if i == j {
        lemma_conn_refl(b, ign, span_row(direction, row, i), span_col(direction, col, i));
    } else {
        lemma_span_conn(b, ign, direction, row, col, len, i, j - 1);
        assert(adjacent(
            span_row(direction, row, j - 1),
            span_col(direction, col, j - 1),
            span_row(direction, row, j),
            span_col(direction, col, j),
        ));
        lemma_conn_step(
            b,
            ign,
            span_row(direction, row, i),
            span_col(direction, col, i),
            span_row(direction, row, j - 1),
            span_col(direction, col, j - 1),
            span_row(direction, row, j),
            span_col(direction, col, j),
        );
    }
}

/// A touching placement keeps the placed mass in one piece: the new cells
/// lie on one line segment joined to the old mass through the touch.
pub proof fn lemma_play_preserves_connected(
    b0: Board,
    b1: Board,
    direction: Direction,
    row: int,
    col: int,
    len: int,
)
    requires
        b0.wf(),
        b1.wf(),
        connected_board(b0),
        touches(b0, direction, row, col, len),
        len >= 1,
        in_grid(row, col),
        span_fits(direction, row, col, len),
        forall|r: int, c: int| b0.occ(r, c) ==> #[trigger] b1.occ(r, c),
        forall|k: int|
            0 <= k < len ==> b1.occ(span_row(direction, row, k), #[trigger] span_col(direction, col, k)),
        forall|r: int, c: int|
            in_grid(r, c) && !on_span(direction, row, col, len, r, c) ==> #[trigger] b1.cell(r, c)
                == b0.cell(r, c),
    ensures
        connected_board(b1),
{
    let ign = Seq::<(usize, usize)>::empty();
    assert forall|r: int, c: int| b0.occ(r, c) implies #[trigger] occ_ex(b1, ign, r, c) by {}
    assert forall|k: int| 0 <= k < len implies occ_ex(
        b1,
        ign,
        span_row(direction, row, k),
        #[trigger] span_col(direction, col, k),
    ) by {}
    // The touch yields an old cell `t` adjacent to span position `j`, or an
    // old cell lying on the span itself.
    let (tr, tc, j): (int, int, int) = if b0.occ(
        span_row(direction, row, -1),
        span_col(direction, col, -1),
    ) {
        (span_row(direction, row, -1), span_col(direction, col, -1), 0int)
    } else if b0.occ(span_row(direction, row, len), span_col(direction, col, len)) {
        (span_row(direction, row, len), span_col(direction, col, len), len - 1)
    } else {
        let i = choose|i: int| 0 <= i < len && #[trigger] perp_occ(b0, direction, row, col, i);
        if b0.occ(span_row(direction, row, i) - 1, span_col(direction, col, i))
            && direction == Direction::Horizontal {
            (span_row(direction, row, i) - 1, span_col(direction, col, i), i)
        } else if direction == Direction::Horizontal {
            (span_row(direction, row, i) + 1, span_col(direction, col, i), i)
        } else if b0.occ(span_row(direction, row, i), span_col(direction, col, i) - 1) {
            (span_row(direction, row, i), span_col(direction, col, i) - 1, i)
        } else {
            (span_row(direction, row, i), span_col(direction, col, i) + 1, i)
        }
    };
    assert(b0.occ(tr, tc));
    assert(0 <= j < len);
    assert(adjacent(tr, tc, span_row(direction, row, j), span_col(direction, col, j)));
    // Every placed cell of `b1` connects to span position `j`.
    assert forall|r: int, c: int| occ_ex(b1, ign, r, c) implies #[trigger] conn(
        b1,
        ign,
        r,
        c,
        span_row(direction, row, j),
        span_col(direction, col, j),
    ) by {
        if on_span(direction, row, col, len, r, c) {
            let k: int = match direction {
                Direction::Horizontal => c - col,
                Direction::Vertical => r - row,
            };
            assert(r == span_row(direction, row, k) && c == span_col(direction, col, k));
            if k <= j {
                lemma_span_conn(b1, ign, direction, row, col, len, k, j);
            } else {
                lemma_span_conn(b1, ign, direction, row, col, len, j, k);
                lemma_conn_sym(
                    b1,
                    ign,
                    span_row(direction, row, j),
                    span_col(direction, col, j),
                    r,
                    c,
                );
            }
        } else {
            assert(b0.occ(r, c));
            assert(conn(b0, ign, r, c, tr, tc));
            lemma_conn_transfer(b0, ign, b1, ign, r, c, tr, tc);
            lemma_conn_step(
                b1,
                ign,
                r,
                c,
                tr,
                tc,
                span_row(direction, row, j),
                span_col(direction, col, j),
            );
        }
    }
    assert forall|r1: int, c1: int, r2: int, c2: int|
        occ_ex(b1, ign, r1, c1) && occ_ex(b1, ign, r2, c2) implies #[trigger] conn(
        b1,
        ign,
        r1,
        c1,
        r2,
        c2,
    ) by {
        assert(conn(b1, ign, r1, c1, span_row(direction, row, j), span_col(direction, col, j)));
        assert(conn(b1, ign, r2, c2, span_row(direction, row, j), span_col(direction, col, j)));
        lemma_conn_sym(
            b1,
            ign,
            r2,
            c2,
            span_row(direction, row, j),
            span_col(direction, col, j),
        );
        lemma_conn_trans(
            b1,
            ign,
            r1,
            c1,
            span_row(direction, row, j),
            span_col(direction, col, j),
            r2,
            c2,
        );
    }
}

/// A board occupied exactly on one placement span is connected.
pub proof fn lemma_span_only_connected(
    b: Board,
    direction: Direction,
    row: int,
    col: int,
    len: int,
)
    requires
        b.wf(),
        len >= 1,
        in_grid(row, col),
        span_fits(direction, row, col, len),
        forall|r: int, c: int| #[trigger] b.occ(r, c) <==> on_span(direction, row, col, len, r, c),
    ensures
        connected_board(b),
{
    let ign = Seq::<(usize, usize)>::empty();
    assert forall|k: int| 0 <= k < len implies occ_ex(
        b,
        ign,
        span_row(direction, row, k),
        #[trigger] span_col(direction, col, k),
    ) by {
        assert(on_span(
            direction,
            row,
            col,
            len,
            span_row(direction, row, k),
            span_col(direction, col, k),
        ));
    }
    assert forall|r1: int, c1: int, r2: int, c2: int|
        occ_ex(b, ign, r1, c1) && occ_ex(b, ign, r2, c2) implies #[trigger] conn(
        b,
        ign,
        r1,
        c1,
        r2,
        c2,
    ) by {
        let k1: int = match direction {
            Direction::Horizontal => c1 - col,
            Direction::Vertical => r1 - row,
        };
        let k2: int = match direction {
            Direction::Horizontal => c2 - col,
            Direction::Vertical => r2 - row,
        };
        if k1 <= k2 {
            lemma_span_conn(b, ign, direction, row, col, len, k1, k2);
        } else {
            lemma_span_conn(b, ign, direction, row, col, len, k2, k1);
            lemma_conn_sym(b, ign, r2, c2, r1, c1);
        }
    }
}

/// Erasing exactly the disregarded cells turns `connected_ex` into plain
/// connectivity of the erased board.
pub proof fn lemma_erase_to_connected(b: Board, ign: Seq<(usize, usize)>, b2: Board)
    requires
        b.wf(),
        b2.wf(),
        connected_ex(b, ign),
        forall|k: int|
            0 <= k < ign.len() ==> b2.cell((#[trigger] ign[k]).0 as int, ign[k].1 as int)
                == EMPTY_VALUE,
        forall|r: int, c: int|
            in_grid(r, c) && !placed_has_cell(ign, r, c) ==> #[trigger] b2.cell(r, c) == b.cell(
                r,
                c,
            ),
    ensures
        connected_board(b2),
{
    let empty = Seq::<(usize, usize)>::empty();
    assert forall|r: int, c: int| occ_ex(b2, empty, r, c) implies #[trigger] occ_ex(b, ign, r, c) by {
        if placed_has_cell(ign, r, c) {
            let k = choose|k: int|
                0 <= k < ign.len() && (#[trigger] ign[k]).0 == r && ign[k].1 == c;
            assert(b2.cell(r, c) == EMPTY_VALUE);
        }
    }
    assert forall|r: int, c: int| occ_ex(b, ign, r, c) implies #[trigger] occ_ex(b2, empty, r, c) by {}
    assert forall|r1: int, c1: int, r2: int, c2: int|
        occ_ex(b2, empty, r1, c1) && occ_ex(b2, empty, r2, c2) implies #[trigger] conn(
        b2,
        empty,
        r1,
        c1,
        r2,
        c2,
    ) by {
        assert(occ_ex(b, ign, r1, c1) && occ_ex(b, ign, r2, c2));
        assert(conn(b, ign, r1, c1, r2, c2));
        lemma_conn_transfer(b, ign, b2, empty, r1, c1, r2, c2);
    }
}

} // verus!

verus! {

use vstd::pervasive::VecAdditionalExecFns;
use vstd::pervasive::unreached;
use crate::board::{lemma_cell_index_bounds, lemma_cell_index_injective};

/// Number of unvisited flags among the first `n`.
pub open spec fn count_false_up_to(s: Seq<bool>, n: int) -> int
    decreases n,
{
    if n <= 0 {
        0
    } else {
        count_false_up_to(s, n - 1) + if !s[n - 1] {
            1int
        } else {
            0int
        }
    }
}

pub proof fn lemma_count_false_up_to_update(s: Seq<bool>, i: int, x: bool, n: int)
    requires
        0 <= i < s.len(),
        n <= s.len(),
    ensures
        count_false_up_to(s.update(i, x), n) == count_false_up_to(s, n) + if i < n {
            (if !x {
                1int
            } else {
                0int
            }) - (if !s[i] {
                1int
            } else {
                0int
            })
        } else {
            0int
        },
    decreases n,
{
    if n > 0 {
        lemma_count_false_up_to_update(s, i, x, n - 1);
    }
}

/// The visited flag of a grid cell.
pub open spec fn vis_at(vs: Seq<bool>, r: int, c: int) -> bool {
    vs[r * 144 + c]
}

/// A visited set closed under adjacency absorbs every walk that starts
/// inside it.
pub proof fn lemma_closure_absorbs(
    b: Board,
    ign: Seq<(usize, usize)>,
    vs: Seq<bool>,
    p: Seq<(int, int)>,
)
    requires
        vs.len() == BOARD_AREA,
        occ_path(b, ign, p),
        vis_at(vs, p[0].0, p[0].1),
        forall|r: int, c: int, r2: int, c2: int|
            #![trigger vis_at(vs, r, c), occ_ex(b, ign, r2, c2)]
            in_grid(r, c) && vis_at(vs, r, c) && occ_ex(b, ign, r2, c2) && adjacent(r, c, r2, c2)
                ==> vis_at(vs, r2, c2),
    ensures
        vis_at(vs, p.last().0, p.last().1),
    decreases p.len(),
{
    if p.len() > 1 {
        let q = p.drop_last();
        assert forall|i: int| 0 <= i < q.len() implies occ_ex(b, ign, (#[trigger] q[i]).0, q[i].1) by {
            assert(q[i] == p[i]);
        }
        assert forall|i: int|
            0 < i < q.len() implies adjacent(q[i - 1].0, q[i - 1].1, (#[trigger] q[i]).0, q[i].1) by {
            assert(q[i] == p[i] && q[i - 1] == p[i - 1]);
        }
        assert(occ_path(b, ign, q));
        assert(q[0] == p[0]);
        lemma_closure_absorbs(b, ign, vs, q);
        let n = p.len() as int;
        assert(occ_ex(b, ign, p[n - 2].0, p[n - 2].1));
        assert(in_grid(p[n - 2].0, p[n - 2].1));
        assert(occ_ex(b, ign, p[n - 1].0, p[n - 1].1));
        assert(adjacent(p[n - 2].0, p[n - 2].1, p[n - 1].0, p[n - 1].1));
        assert(vis_at(vs, p[n - 1].0, p[n - 1].1));
    }
}


/// Appends a cell, keeping every earlier cell findable.
pub fn push_cell(stack: &mut Vec<(usize, usize)>, rc: (usize, usize))
    ensures
        final(stack)@ == old(stack)@.push(rc),
        placed_has_cell(final(stack)@, rc.0 as int, rc.1 as int),
        forall|r: int, c: int|
            #[trigger] placed_has_cell(old(stack)@, r, c) ==> placed_has_cell(final(stack)@, r, c),
{
    let ghost s0: Seq<(usize, usize)> = stack@;
    stack.push(rc);
    proof {
        assert(stack@[s0.len() as int] == rc);
        assert(placed_has_cell(stack@, rc.0 as int, rc.1 as int));
        assert forall|r: int, c: int| #[trigger] placed_has_cell(s0, r, c) implies placed_has_cell(
            stack@,
            r,
            c,
        ) by {
            let k = choose|k: int| 0 <= k < s0.len() && (#[trigger] s0[k]).0 == r && s0[k].1 == c;
            assert(stack@[k] == s0[k]);
        }
    }
}

pub proof fn lemma_count_false_nonneg(s: Seq<bool>, n: int)
    requires
        n <= s.len(),
    ensures
        count_false_up_to(s, n) >= 0,
    decreases n,
{
    if n > 0 {
        lemma_count_false_nonneg(s, n - 1);
    }
}

/// Whether `(r, c)` occurs in the cell list.
pub fn cell_in_list(list: &Vec<(usize, usize)>, r: usize, c: usize) -> (res: bool)
    ensures
        res == placed_has_cell(list@, r as int, c as int),
{
    let n = list.len();
    for k in 0..n
        invariant
            n == list@.len(),
            forall|j: int| 0 <= j < k ==> !((#[trigger] list@[j]).0 == r && list@[j].1 == c),
    {
        let rc = list[k];
        if rc.0 == r && rc.1 == c {
            return true;
        }
    }
    false
}

/// Decides whether the cells of the board, disregarding `ignored_cells`,
/// form one 4-connected component, by depth-first flood fill from the first
/// such cell inside the bounding box.  An empty remainder counts as
/// connected.
#[verifier::rlimit(100)]
pub fn is_connected(
    board: &Board,
    min_col: usize,
    max_col: usize,
    min_row: usize,
    max_row: usize,
    ignored_cells: &Vec<(usize, usize)>,
) -> (res: bool)
    requires
        board.wf(),
        min_col <= max_col < BOARD_SIZE,
        min_row <= max_row < BOARD_SIZE,
        forall|r: int, c: int|
            #[trigger] board.occ(r, c) ==> min_row <= r <= max_row && min_col <= c <= max_col,
    ensures
        res == connected_ex(*board, ignored_cells@),
{
    let ghost ign: Seq<(usize, usize)> = ignored_cells@;
    // Find the first cell that remains placed.
    let mut found = false;
    let mut start_r: usize = 0;
    let mut start_c: usize = 0;
    let mut r = min_row;
    while r <= max_row
        invariant
            board.wf(),
            ign == ignored_cells@,
            min_col <= max_col < BOARD_SIZE,
            min_row <= r,
            r <= max_row + 1,
            max_row < BOARD_SIZE,
            forall|rr: int, cc: int|
                #[trigger] board.occ(rr, cc) ==> min_row <= rr <= max_row && min_col <= cc
                    <= max_col,
            found ==> occ_ex(*board, ign, start_r as int, start_c as int) && start_r < BOARD_SIZE
                && start_c < BOARD_SIZE,
            !found ==> forall|rr: int, cc: int| rr < r ==> !(#[trigger] occ_ex(*board, ign, rr, cc)),
        decreases max_row + 1 - r,
    {
        if !found {
            let mut c = min_col;
            while c <= max_col
                invariant
                    board.wf(),
                    ign == ignored_cells@,
                    min_col <= c,
                    c <= max_col + 1,
                    max_col < BOARD_SIZE,
                    r <= max_row < BOARD_SIZE,
                    forall|rr: int, cc: int|
                        #[trigger] board.occ(rr, cc) ==> min_row <= rr <= max_row && min_col <= cc
                            <= max_col,
                    found ==> occ_ex(*board, ign, start_r as int, start_c as int) && start_r
                        < BOARD_SIZE && start_c < BOARD_SIZE,
                    !found ==> forall|rr: int, cc: int|
                        rr < r ==> !(#[trigger] occ_ex(*board, ign, rr, cc)),
                    !found ==> forall|cc: int| cc < c ==> !(#[trigger] occ_ex(*board, ign, r as int, cc)),
                decreases max_col + 1 - c,
            {
                if !found && board.get_val(r, c) != EMPTY_VALUE && !cell_in_list(
                    ignored_cells,
                    r,
                    c,
                ) {
                    found = true;
                    start_r = r;
                    start_c = c;
                }
                c += 1;
            }
        }
        r += 1;
    }
    if !found {
        proof {
            assert forall|r1: int, c1: int, r2: int, c2: int|
                occ_ex(*board, ign, r1, c1) && occ_ex(*board, ign, r2, c2) implies #[trigger] conn(
                *board,
                ign,
                r1,
                c1,
                r2,
                c2,
            ) by {
                assert(board.occ(r1, c1));
                assert(!occ_ex(*board, ign, r1, c1));
            }
        }
        return true;
    }
    // Depth-first flood fill.
    let mut visited: Vec<bool> = vec![false; BOARD_AREA];
    proof {
        assert forall|rr: int, cc: int| in_grid(rr, cc) implies !vis_at(visited@, rr, cc) by {
            lemma_cell_index_bounds(rr, cc);
        }
    }
    let mut stack: Vec<(usize, usize)> = Vec::new();
    stack.push((start_r, start_c));
    proof {
        lemma_conn_refl(*board, ign, start_r as int, start_c as int);
        assert(stack@[0] == (start_r, start_c));
        assert(placed_has_cell(stack@, start_r as int, start_c as int));
    }
    while stack.len() > 0
        invariant
            board.wf(),
            ign == ignored_cells@,
            visited@.len() == BOARD_AREA,
            occ_ex(*board, ign, start_r as int, start_c as int),
            start_r < BOARD_SIZE,
            start_c < BOARD_SIZE,
            forall|k: int|
                0 <= k < stack@.len() ==> occ_ex(
                    *board,
                    ign,
                    (#[trigger] stack@[k]).0 as int,
                    stack@[k].1 as int,
                ) && conn(
                    *board,
                    ign,
                    start_r as int,
                    start_c as int,
                    stack@[k].0 as int,
                    stack@[k].1 as int,
                ),
            forall|rr: int, cc: int|
                in_grid(rr, cc) && #[trigger] vis_at(visited@, rr, cc) ==> occ_ex(
                    *board,
                    ign,
                    rr,
                    cc,
                ) && conn(*board, ign, start_r as int, start_c as int, rr, cc),
            forall|rr: int, cc: int, r2: int, c2: int|
                #![trigger vis_at(visited@, rr, cc), occ_ex(*board, ign, r2, c2)]
                in_grid(rr, cc) && vis_at(visited@, rr, cc) && occ_ex(*board, ign, r2, c2)
                    && adjacent(rr, cc, r2, c2) ==> vis_at(visited@, r2, c2) || placed_has_cell(
                    stack@,
                    r2,
                    c2,
                ),
            vis_at(visited@, start_r as int, start_c as int) || placed_has_cell(
                stack@,
                start_r as int,
                start_c as int,
            ),
        decreases count_false_up_to(visited@, BOARD_AREA as int), stack@.len(),
    {
        let ghost stack0: Seq<(usize, usize)> = stack@;
        let ghost vis0: Seq<bool> = visited@;
        let top = stack.pop();
        let (r, c) = match top {
            Some(rc) => rc,
            None => unreached(),
        };
        proof {
            assert(stack0[stack0.len() - 1] == (r, c));
            lemma_cell_index_bounds(r as int, c as int);
            lemma_count_false_nonneg(vis0, BOARD_AREA as int);
        }
        let idx = r * 144 + c;
        if !visited[idx] {
            visited.set(idx, true);
            proof {
                lemma_count_false_up_to_update(vis0, idx as int, true, BOARD_AREA as int);
                lemma_count_false_nonneg(visited@, BOARD_AREA as int);
                assert forall|rr: int, cc: int|
                    in_grid(rr, cc) && #[trigger] vis_at(visited@, rr, cc) implies occ_ex(
                    *board,
                    ign,
                    rr,
                    cc,
                ) && conn(*board, ign, start_r as int, start_c as int, rr, cc) by {
                    lemma_cell_index_bounds(rr, cc);
                    if rr * 144 + cc == idx as int {
                        lemma_cell_index_injective(rr, cc, r as int, c as int);
                    } else {
                        assert(vis_at(vis0, rr, cc));
                    }
                }
            }
            let ghost s_base: Seq<(usize, usize)> = stack@;
            let up_ok = r > 0 && board.get_val(r - 1, c) != EMPTY_VALUE && !cell_in_list(
                ignored_cells,
                r - 1,
                c,
            );
            if up_ok {
                push_cell(&mut stack, (r - 1, c));
            }
            let ghost s1: Seq<(usize, usize)> = stack@;
            let down_ok = r + 1 < BOARD_SIZE && board.get_val(r + 1, c) != EMPTY_VALUE
                && !cell_in_list(ignored_cells, r + 1, c);
            if down_ok {
                push_cell(&mut stack, (r + 1, c));
            }
            let ghost s2: Seq<(usize, usize)> = stack@;
            let left_ok = c > 0 && board.get_val(r, c - 1) != EMPTY_VALUE && !cell_in_list(
                ignored_cells,
                r,
                c - 1,
            );
            if left_ok {
                push_cell(&mut stack, (r, c - 1));
            }
            let ghost s3: Seq<(usize, usize)> = stack@;
            let right_ok = c + 1 < BOARD_SIZE && board.get_val(r, c + 1) != EMPTY_VALUE
                && !cell_in_list(ignored_cells, r, c + 1);
            if right_ok {
                push_cell(&mut stack, (r, c + 1));
            }
            proof {
                if up_ok {
                    assert(placed_has_cell(s1, r - 1, c as int));
                    assert(placed_has_cell(s2, r - 1, c as int));
                    assert(placed_has_cell(s3, r - 1, c as int));
                    assert(placed_has_cell(stack@, r - 1, c as int));
                }
                if down_ok {
                    assert(placed_has_cell(s2, r + 1, c as int));
                    assert(placed_has_cell(s3, r + 1, c as int));
                    assert(placed_has_cell(stack@, r + 1, c as int));
                }
                if left_ok {
                    assert(placed_has_cell(s3, r as int, c - 1));
                    assert(placed_has_cell(stack@, r as int, c - 1));
                }
                if right_ok {
                    assert(placed_has_cell(stack@, r as int, c + 1));
                }
                assert forall|k: int|
                    0 <= k < stack@.len() implies occ_ex(
                    *board,
                    ign,
                    (#[trigger] stack@[k]).0 as int,
                    stack@[k].1 as int,
                ) && conn(
                    *board,
                    ign,
                    start_r as int,
                    start_c as int,
                    stack@[k].0 as int,
                    stack@[k].1 as int,
                ) by {
                    if k < s_base.len() {
                        assert(stack@[k] == stack0[k]);
                    } else {
                        let rc2 = stack@[k];
                        assert((rc2.0 as int == r as int - 1 && rc2.1 == c) || (rc2.0 as int
                            == r as int + 1 && rc2.1 == c) || (rc2.0 == r && rc2.1 as int
                            == c as int - 1) || (rc2.0 == r && rc2.1 as int == c as int + 1));
                        assert(occ_ex(*board, ign, rc2.0 as int, rc2.1 as int));
                        assert(adjacent(r as int, c as int, rc2.0 as int, rc2.1 as int));
                        assert(conn(
                            *board,
                            ign,
                            start_r as int,
                            start_c as int,
                            r as int,
                            c as int,
                        ));
                        lemma_conn_step(
                            *board,
                            ign,
                            start_r as int,
                            start_c as int,
                            r as int,
                            c as int,
                            rc2.0 as int,
                            rc2.1 as int,
                        );
                    }
                }
                assert forall|rr: int, cc: int, r2: int, c2: int|
                    #![trigger vis_at(visited@, rr, cc), occ_ex(*board, ign, r2, c2)]
                    in_grid(rr, cc) && vis_at(visited@, rr, cc) && occ_ex(*board, ign, r2, c2)
                    && adjacent(rr, cc, r2, c2) implies vis_at(visited@, r2, c2)
                    || placed_has_cell(stack@, r2, c2) by {
                    lemma_cell_index_bounds(rr, cc);
                    lemma_cell_index_bounds(r2, c2);
                    if rr * 144 + cc == idx as int {
                        lemma_cell_index_injective(rr, cc, r as int, c as int);
                        if r2 == r - 1 && c2 == c as int {
                            assert(up_ok);
                            assert(placed_has_cell(stack@, r2, c2));
                        } else if r2 == r + 1 && c2 == c as int {
                            assert(down_ok);
                            assert(placed_has_cell(stack@, r2, c2));
                        } else if r2 == r as int && c2 == c - 1 {
                            assert(left_ok);
                            assert(placed_has_cell(stack@, r2, c2));
                        } else {
                            assert(r2 == r as int && c2 == c + 1);
                            assert(right_ok);
                            assert(placed_has_cell(stack@, r2, c2));
                        }
                    } else {
                        assert(vis_at(vis0, rr, cc));
                        if vis_at(vis0, r2, c2) {
                            assert(vis_at(visited@, r2, c2));
                        } else {
                            assert(placed_has_cell(stack0, r2, c2));
                            let k = choose|k: int|
                                0 <= k < stack0.len() && (#[trigger] stack0[k]).0 == r2
                                    && stack0[k].1 == c2;
                            if k < stack0.len() - 1 {
                                assert(s_base[k] == stack0[k]);
                                assert(placed_has_cell(s_base, r2, c2));
                                assert(placed_has_cell(s1, r2, c2));
                                assert(placed_has_cell(s2, r2, c2));
                                assert(placed_has_cell(s3, r2, c2));
                                assert(placed_has_cell(stack@, r2, c2));
                            } else {
                                assert((r2, c2) == (r as int, c as int));
                                assert(vis_at(visited@, r2, c2));
                            }
                        }
                    }
                }
                if !vis_at(visited@, start_r as int, start_c as int) {
                    let k = choose|k: int|
                        0 <= k < stack0.len() && (#[trigger] stack0[k]).0 == start_r
                            && stack0[k].1 == start_c;
                    assert(vis_at(visited@, r as int, c as int));
                    assert(k < stack0.len() - 1);
                    assert(s_base[k] == stack0[k]);
                    assert(placed_has_cell(s_base, start_r as int, start_c as int));
                    assert(placed_has_cell(s1, start_r as int, start_c as int));
                    assert(placed_has_cell(s2, start_r as int, start_c as int));
                    assert(placed_has_cell(s3, start_r as int, start_c as int));
                    assert(placed_has_cell(stack@, start_r as int, start_c as int));
                }
            }
        } else {
            proof {
                lemma_count_false_nonneg(visited@, BOARD_AREA as int);
                assert forall|k: int|
                    0 <= k < stack@.len() implies occ_ex(
                    *board,
                    ign,
                    (#[trigger] stack@[k]).0 as int,
                    stack@[k].1 as int,
                ) && conn(
                    *board,
                    ign,
                    start_r as int,
                    start_c as int,
                    stack@[k].0 as int,
                    stack@[k].1 as int,
                ) by {
                    assert(stack@[k] == stack0[k]);
                }
                assert forall|rr: int, cc: int, r2: int, c2: int|
                    #![trigger vis_at(visited@, rr, cc), occ_ex(*board, ign, r2, c2)]
                    in_grid(rr, cc) && vis_at(visited@, rr, cc) && occ_ex(*board, ign, r2, c2)
                    && adjacent(rr, cc, r2, c2) implies vis_at(visited@, r2, c2)
                    || placed_has_cell(stack@, r2, c2) by {
                    if !vis_at(visited@, r2, c2) {
                        assert(placed_has_cell(stack0, r2, c2));
                        let k = choose|k: int|
                            0 <= k < stack0.len() && (#[trigger] stack0[k]).0 == r2 && stack0[k].1
                                == c2;
                        if k < stack0.len() - 1 {
                            assert(stack@[k] == stack0[k]);
                        } else {
                            assert((r2, c2) == (r as int, c as int));
                            lemma_cell_index_bounds(r2, c2);
                            assert(vis_at(visited@, r2, c2));
                        }
                    }
                }
                if !vis_at(visited@, start_r as int, start_c as int) {
                    let k = choose|k: int|
                        0 <= k < stack0.len() && (#[trigger] stack0[k]).0 == start_r
                            && stack0[k].1 == start_c;
                    assert(vis_at(visited@, r as int, c as int));
                    assert(k < stack0.len() - 1);
                    assert(stack@[k] == stack0[k]);
                    assert(placed_has_cell(stack@, start_r as int, start_c as int));
                }
            }
        }
    }
    // The flood fill is complete; the answer is whether it reached every
    // placed cell.
    let ghost vsf: Seq<bool> = visited@;
    let mut all_seen = true;
    let ghost mut bad: (int, int) = (0, 0);
    let mut r = min_row;
    while r <= max_row
        invariant
            board.wf(),
            ign == ignored_cells@,
            vsf == visited@,
            visited@.len() == BOARD_AREA,
            min_row <= r,
            r <= max_row + 1,
            min_col <= max_col < BOARD_SIZE,
            max_row < BOARD_SIZE,
            forall|rr: int, cc: int|
                #[trigger] board.occ(rr, cc) ==> min_row <= rr <= max_row && min_col <= cc
                    <= max_col,
            all_seen ==> forall|rr: int, cc: int|
                rr < r && #[trigger] occ_ex(*board, ign, rr, cc) && in_grid(rr, cc) ==> vis_at(
                    vsf,
                    rr,
                    cc,
                ),
            !all_seen ==> occ_ex(*board, ign, bad.0, bad.1) && in_grid(bad.0, bad.1) && !vis_at(
                vsf,
                bad.0,
                bad.1,
            ),
        decreases max_row + 1 - r,
    {
        let mut c = min_col;
        while c <= max_col
            invariant
                board.wf(),
                ign == ignored_cells@,
                vsf == visited@,
                visited@.len() == BOARD_AREA,
                min_col <= c,
                c <= max_col + 1,
                max_col < BOARD_SIZE,
                r <= max_row < BOARD_SIZE,
                forall|rr: int, cc: int|
                    #[trigger] board.occ(rr, cc) ==> min_row <= rr <= max_row && min_col <= cc
                        <= max_col,
                all_seen ==> forall|rr: int, cc: int|
                    rr < r && #[trigger] occ_ex(*board, ign, rr, cc) && in_grid(rr, cc) ==> vis_at(
                        vsf,
                        rr,
                        cc,
                    ),
                all_seen ==> forall|cc: int|
                    cc < c && #[trigger] occ_ex(*board, ign, r as int, cc) && in_grid(r as int, cc)
                        ==> vis_at(vsf, r as int, cc),
                !all_seen ==> occ_ex(*board, ign, bad.0, bad.1) && in_grid(bad.0, bad.1) && !vis_at(
                    vsf,
                    bad.0,
                    bad.1,
                ),
            decreases max_col + 1 - c,
        {
            proof {
                lemma_cell_index_bounds(r as int, c as int);
            }
            if board.get_val(r, c) != EMPTY_VALUE && !cell_in_list(ignored_cells, r, c)
                && !visited[r * 144 + c] {
                all_seen = false;
                proof {
                    bad = (r as int, c as int);
                }
            }
            c += 1;
        }
        r += 1;
    }
    proof {
        if all_seen {
            assert forall|r1: int, c1: int, r2: int, c2: int|
                occ_ex(*board, ign, r1, c1) && occ_ex(*board, ign, r2, c2) implies #[trigger] conn(
                *board,
                ign,
                r1,
                c1,
                r2,
                c2,
            ) by {
                assert(board.occ(r1, c1) && board.occ(r2, c2));
                assert(vis_at(vsf, r1, c1) && vis_at(vsf, r2, c2));
                assert(conn(*board, ign, start_r as int, start_c as int, r1, c1));
                assert(conn(*board, ign, start_r as int, start_c as int, r2, c2));
                lemma_conn_sym(*board, ign, start_r as int, start_c as int, r1, c1);
                lemma_conn_trans(
                    *board,
                    ign,
                    r1,
                    c1,
                    start_r as int,
                    start_c as int,
                    r2,
                    c2,
                );
            }
        } else {
            assert(!connected_ex(*board, ign)) by {
                if connected_ex(*board, ign) {
                    assert(conn(*board, ign, start_r as int, start_c as int, bad.0, bad.1));
                    reveal(conn);
                    let p = choose|p: Seq<(int, int)>|
                        #[trigger] occ_path(*board, ign, p) && p[0] == (
                            start_r as int,
                            start_c as int,
                        ) && p.last() == (bad.0, bad.1);
                    assert(vis_at(vsf, start_r as int, start_c as int));
                    lemma_closure_absorbs(*board, ign, vsf, p);
                }
            }
        }
    }
    all_seen
}

} // verus!

verus! {

/// Connectivity with disregarded cells depends only on the board's cells.
pub proof fn lemma_connected_ex_congruence(ba: Board, bb: Board, ign: Seq<(usize, usize)>)
    requires
        ba@ == bb@,
        connected_ex(ba, ign),
    ensures
        connected_ex(bb, ign),
{
    assert forall|r1: int, c1: int, r2: int, c2: int|
        occ_ex(bb, ign, r1, c1) && occ_ex(bb, ign, r2, c2) implies #[trigger] conn(
        bb,
        ign,
        r1,
        c1,
        r2,
        c2,
    ) by {
        assert(occ_ex(ba, ign, r1, c1) && occ_ex(ba, ign, r2, c2));
        assert(conn(ba, ign, r1, c1, r2, c2));
        lemma_conn_transfer(ba, ign, bb, ign, r1, c1, r2, c2);
    }
}

} // verus!
