use vstd::prelude::*;

use crate::board::toggle_transition;
use crate::board::unchanged;
use crate::board::Board;
use crate::cell::EngineError;
use crate::cell::GameResult;
use crate::cell::ToggleOutcome;
use crate::uncover::lemma_region_start;
use crate::uncover::uncover_transition;

verus! {

/// Uncovering is monotone: no `uncover` call ever covers a cell again, so
/// across any sequence of calls `uncovered` only moves from false to true.
pub proof fn lemma_uncover_monotone(
    pre: Board,
    post: Board,
    r: int,
    c: int,
    out: Result<GameResult, EngineError>,
)
    requires
        uncover_transition(pre, post, r, c, out),
    ensures
        forall|i: int, j: int|
            pre.in_bounds(i, j) && (#[trigger] pre.cell(i, j)).uncovered ==> post.cell(
                i,
                j,
            ).uncovered,
{
    assert forall|i: int, j: int|
        pre.in_bounds(i, j) && (#[trigger] pre.cell(i, j)).uncovered implies post.cell(
        i,
        j,
    ).uncovered by {
        if !pre.in_bounds(r, c) || !(pre.status is InProgress) || pre.cell(r, c).flagged
            || pre.cell(r, c).uncovered {
            assert(post.cell(i, j) == pre.cell(i, j));
        } else if pre.cell(r, c).content is Mine {
            if !(i == r && j == c) {
                assert(post.cell(i, j) == pre.cell(i, j));
            }
        }
    }
}

/// A flag toggle never changes which cells are uncovered.
pub proof fn lemma_toggle_keeps_uncovering(
    pre: Board,
    post: Board,
    r: int,
    c: int,
    out: Result<ToggleOutcome, EngineError>,
)
    requires
        toggle_transition(pre, post, r, c, out),
    ensures
        forall|i: int, j: int|
            pre.in_bounds(i, j) ==> (#[trigger] post.cell(i, j)).uncovered == pre.cell(
                i,
                j,
            ).uncovered,
{
    assert forall|i: int, j: int|
        pre.in_bounds(i, j) implies (#[trigger] post.cell(i, j)).uncovered == pre.cell(
        i,
        j,
    ).uncovered by {
        if !(i == r && j == c) {
            assert(post.cell(i, j) == pre.cell(i, j));
        }
    }
}

/// A flag protects: flagging a covered cell and then uncovering it leaves
/// the whole engine exactly as it stood after the flag, the cell covered,
/// and the outcome unchanged.
pub proof fn lemma_flag_protects(
    b0: Board,
    b1: Board,
    b2: Board,
    r: int,
    c: int,
    out1: Result<ToggleOutcome, EngineError>,
    out2: Result<GameResult, EngineError>,
)
    requires
        b0.in_bounds(r, c),
        !b0.cell(r, c).uncovered,
        !b0.cell(r, c).flagged,
        toggle_transition(b0, b1, r, c, out1),
        uncover_transition(b1, b2, r, c, out2),
    ensures
        unchanged(b1, b2),
        !b2.cell(r, c).uncovered,
        b2.status == b0.status,
{
    if b0.status is InProgress {
        assert(b1.cell(r, c).flagged);
        assert(b2.cell(r, c) == b1.cell(r, c));
    } else {
        assert(b1.cell(r, c) == b0.cell(r, c));
        assert(b2.cell(r, c) == b1.cell(r, c));
    }
}

/// Removing the flag re-arms the cell: unflagging a covered cell of a
/// running game and then uncovering it does uncover it.
pub proof fn lemma_unflag_allows_uncover(
    b0: Board,
    b1: Board,
    b2: Board,
    r: int,
    c: int,
    out1: Result<ToggleOutcome, EngineError>,
    out2: Result<GameResult, EngineError>,
)
    requires
        b0.in_bounds(r, c),
        !b0.cell(r, c).uncovered,
        b0.cell(r, c).flagged,
        b0.status is InProgress,
        toggle_transition(b0, b1, r, c, out1),
        uncover_transition(b1, b2, r, c, out2),
    ensures
        b2.cell(r, c).uncovered,
{
    assert(!b1.cell(r, c).flagged && !b1.cell(r, c).uncovered);
    if !(b1.cell(r, c).content is Mine) {
        lemma_region_start(b1, r, c);
    }
}

/// Detonation: uncovering a covered, unflagged mine of a running game
/// uncovers exactly that cell, with no cascade, and loses at once.
pub proof fn lemma_mine_detonates(
    pre: Board,
    post: Board,
    r: int,
    c: int,
    out: Result<GameResult, EngineError>,
)
    requires
        pre.in_bounds(r, c),
        pre.status is InProgress,
        !pre.cell(r, c).uncovered,
        !pre.cell(r, c).flagged,
        pre.cell(r, c).content is Mine,
        uncover_transition(pre, post, r, c, out),
    ensures
        post.status is Lost,
        out == Ok::<GameResult, EngineError>(GameResult::Lost),
        post.cell(r, c).uncovered,
        forall|i: int, j: int|
            pre.in_bounds(i, j) && !(i == r && j == c) ==> #[trigger] post.cell(i, j) == pre.cell(
                i,
                j,
            ),
{
}

/// Winning: a well-formed board on which every non-mine cell is uncovered
/// and no mine is reports a win.
pub proof fn lemma_win_when_cleared(b: Board)
    requires
        b.wf(),
        b.all_safe_uncovered(),
        !b.mine_uncovered(),
    ensures
        b.status == GameResult::Won,
        b.derived_result() == GameResult::Won,
{
}

/// Terminal states absorb `uncover`: once the game is won or lost, the call
/// changes nothing and merely reports the standing outcome.
pub proof fn lemma_terminal_uncover_noop(
    pre: Board,
    post: Board,
    r: int,
    c: int,
    out: Result<GameResult, EngineError>,
)
    requires
        !(pre.status is InProgress),
        uncover_transition(pre, post, r, c, out),
    ensures
        unchanged(pre, post),
        pre.in_bounds(r, c) ==> out == Ok::<GameResult, EngineError>(pre.status),
{
}

/// Terminal states absorb `toggle_flag` the same way.
pub proof fn lemma_terminal_toggle_noop(
    pre: Board,
    post: Board,
    r: int,
    c: int,
    out: Result<ToggleOutcome, EngineError>,
)
    requires
        !(pre.status is InProgress),
        toggle_transition(pre, post, r, c, out),
    ensures
        unchanged(pre, post),
        pre.in_bounds(r, c) ==> out == Ok::<ToggleOutcome, EngineError>(ToggleOutcome::NoOp),
{
}


} // verus!
