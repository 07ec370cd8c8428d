use vstd::prelude::*;

use crate::board::adj;
use crate::board::b2i;
use crate::board::lemma_same_cells_same_grid;
use crate::board::lemma_same_content_same_counts;
use crate::board::unchanged;
use crate::board::Board;
use crate::cell::Cell;
use crate::cell::CellState;
use crate::cell::EngineError;
use crate::cell::GameResult;

verus! {

/// How many of the first `n` cells are still covered; the flood fill's
/// termination measure.
#[verifier::opaque]
spec fn covered_in(cells: Seq<CellState>, n: int) -> int
    decreases n,
{
    if n <= 0 {
        0
    } else {
        covered_in(cells, n - 1) + b2i(!cells[n - 1].uncovered)
    }
}

proof fn lemma_covered_in_nonneg(cells: Seq<CellState>, n: int)
    ensures
        covered_in(cells, n) >= 0,
    decreases n,
{
    reveal(covered_in);
    if n > 0 {
        lemma_covered_in_nonneg(cells, n - 1);
    }
}

/// Uncovering one covered cell lowers the covered count by exactly one.
proof fn lemma_covered_in_update(cells: Seq<CellState>, k: int, v: CellState, n: int)
    requires
        0 <= k < cells.len(),
        !cells[k].uncovered,
        v.uncovered,
        n <= cells.len(),
    ensures
        k < n ==> covered_in(cells.update(k, v), n) == covered_in(cells, n) - 1,
        n <= k ==> covered_in(cells.update(k, v), n) == covered_in(cells, n),
    decreases n,
{
    reveal(covered_in);
    if n > 0 {
        lemma_covered_in_update(cells, k, v, n - 1);
    }
}

/// Whether the coordinate `(i, j)` occurs in a worklist of cell coordinates.
#[verifier::opaque]
pub open spec fn in_work(work: Seq<(usize, usize)>, i: int, j: int) -> bool {
    exists|k: int|
        0 <= k < work.len() && (#[trigger] work[k]).0 as int == i && work[k].1 as int == j
}

/// `new` keeps every entry of `older` at its old index.
spec fn seq_extends(new: Seq<(usize, usize)>, older: Seq<(usize, usize)>) -> bool {
    &&& older.len() <= new.len()
    &&& forall|k: int| 0 <= k < older.len() ==> #[trigger] new[k] == older[k]
}

proof fn lemma_in_work_extends(new: Seq<(usize, usize)>, older: Seq<(usize, usize)>, i: int, j: int)
    requires
        seq_extends(new, older),
        in_work(older, i, j),
    ensures
        in_work(new, i, j),
{
    reveal(in_work);
    let k = choose|k: int|
        0 <= k < older.len() && (#[trigger] older[k]).0 as int == i && older[k].1 as int == j;
    assert(new[k] == older[k]);
}

/// A coordinate other than the final entry survives dropping that entry.
proof fn lemma_in_work_pop(work: Seq<(usize, usize)>, i: int, j: int)
    requires
        work.len() > 0,
        in_work(work, i, j),
        !(work[work.len() - 1].0 as int == i && work[work.len() - 1].1 as int == j),
    ensures
        in_work(work.subrange(0, work.len() - 1), i, j),
{
    reveal(in_work);
    let k = choose|k: int|
        0 <= k < work.len() && (#[trigger] work[k]).0 as int == i && work[k].1 as int == j;
    assert(k < work.len() - 1);
    assert(work.subrange(0, work.len() - 1)[k] == work[k]);
}

/// One flood-fill step: `(ar, ac)` is an in-bounds empty cell and
/// `(br, bc)` one of its covered, unflagged in-bounds neighbors.
pub open spec fn region_edge(b: Board, ar: int, ac: int, br: int, bc: int) -> bool {
    &&& b.in_bounds(ar, ac)
    &&& b.cell(ar, ac).content is Empty
    &&& adj(ar, ac, br, bc)
    &&& b.in_bounds(br, bc)
    &&& !b.cell(br, bc).uncovered
    &&& !b.cell(br, bc).flagged
}

/// `p` is a chain of flood-fill steps leading from `(sr, sc)` to `(r, c)`.
pub open spec fn is_region_path(
    b: Board,
    sr: int,
    sc: int,
    r: int,
    c: int,
    p: Seq<(int, int)>,
) -> bool {
    &&& p.len() >= 1
    &&& p[0] == ((sr, sc))
    &&& p[p.len() - 1] == ((r, c))
    &&& forall|k: int|
        0 <= k < p.len() - 1 ==> region_edge(
            b,
            (#[trigger] p[k]).0,
            p[k].1,
            p[k + 1].0,
            p[k + 1].1,
        )
}

impl Board {
    /// The region a reveal starting at `(sr, sc)` uncovers: the start cell
    /// plus everything reachable from it through connected empty cells,
    /// stopping at (but including) their covered, unflagged neighbors.
    #[verifier::opaque]
    pub open spec fn in_region(self, sr: int, sc: int, r: int, c: int) -> bool {
        exists|p: Seq<(int, int)>| #[trigger] is_region_path(self, sr, sc, r, c, p)
    }
}

/// The start cell belongs to its own region.
pub proof fn lemma_region_start(b: Board, sr: int, sc: int)
    ensures
        b.in_region(sr, sc, sr, sc),
{
    reveal(Board::in_region);
    let p: Seq<(int, int)> = seq![(sr, sc)];
    assert(is_region_path(b, sr, sc, sr, sc, p));
}

/// Every region member is an in-bounds, covered, unflagged cell, provided
/// the start cell is one.
pub proof fn lemma_region_member(b: Board, sr: int, sc: int, r: int, c: int)
    requires
        b.in_region(sr, sc, r, c),
        b.in_bounds(sr, sc),
        !b.cell(sr, sc).uncovered,
        !b.cell(sr, sc).flagged,
    ensures
        b.in_bounds(r, c),
        !b.cell(r, c).uncovered,
        !b.cell(r, c).flagged,
{
    reveal(Board::in_region);
    let p = choose|p: Seq<(int, int)>| #[trigger] is_region_path(b, sr, sc, r, c, p);
    if p.len() == 1 {
        assert(p[0] == ((r, c)));
    } else {
        let k = p.len() - 2;
        assert(region_edge(b, p[k].0, p[k].1, p[k + 1].0, p[k + 1].1));
    }
}

/// The region grows by one step: an empty region member passes membership to
/// each of its covered, unflagged neighbors.
pub proof fn lemma_region_step(b: Board, sr: int, sc: int, pr: int, pc: int, r: int, c: int)
    requires
        b.in_region(sr, sc, pr, pc),
        b.in_bounds(pr, pc),
        b.cell(pr, pc).content is Empty,
        adj(pr, pc, r, c),
        b.in_bounds(r, c),
        !b.cell(r, c).uncovered,
        !b.cell(r, c).flagged,
    ensures
        b.in_region(sr, sc, r, c),
{
    reveal(Board::in_region);
    let p = choose|p: Seq<(int, int)>| #[trigger] is_region_path(b, sr, sc, pr, pc, p);
    let q = p.push((r, c));
    assert(q[0] == p[0]);
    assert(q[q.len() - 1] == ((r, c)));
    assert forall|k: int|
        0 <= k < q.len() - 1 implies region_edge(
        b,
        (#[trigger] q[k]).0,
        q[k].1,
        q[k + 1].0,
        q[k + 1].1,
    ) by {
        if k < p.len() - 1 {
            assert(q[k] == p[k]);
            assert(q[k + 1] == p[k + 1]);
            assert(region_edge(b, p[k].0, p[k].1, p[k + 1].0, p[k + 1].1));
        } else {
            assert(q[k] == p[p.len() - 1]);
            assert(q[k + 1] == ((r, c)));
        }
    }
    assert(is_region_path(b, sr, sc, r, c, q));
}

/// On a well-formed grid a reveal region never contains a mine: every member
/// other than the start neighbors an empty cell, and empty cells have no
/// mines around them.
pub proof fn lemma_region_no_mine(b: Board, sr: int, sc: int, r: int, c: int)
    requires
        b.grid_wf(),
        b.in_region(sr, sc, r, c),
        !(b.cell(sr, sc).content is Mine),
    ensures
        !(b.cell(r, c).content is Mine),
{
    reveal(Board::in_region);
    let p = choose|p: Seq<(int, int)>| #[trigger] is_region_path(b, sr, sc, r, c, p);
    if p.len() == 1 {
        assert(p[0] == ((r, c)));
    } else {
        let k = p.len() - 2;
        assert(region_edge(b, p[k].0, p[k].1, p[k + 1].0, p[k + 1].1));
        let pr = p[k].0;
        let pc = p[k].1;
        assert(b.cell(pr, pc).content == crate::board::value_content(b.adj_mine_count(pr, pc)));
        assert(b.adj_mine_count(pr, pc) <= 0);
        assert(!b.mine_at(r, c)) by {
            if r == pr - 1 && c == pc - 1 {
                assert(b2i(b.mine_at(pr - 1, pc - 1)) == 0);
            } else if r == pr - 1 && c == pc {
                assert(b2i(b.mine_at(pr - 1, pc)) == 0);
            } else if r == pr - 1 && c == pc + 1 {
                assert(b2i(b.mine_at(pr - 1, pc + 1)) == 0);
            } else if r == pr && c == pc - 1 {
                assert(b2i(b.mine_at(pr, pc - 1)) == 0);
            } else if r == pr && c == pc + 1 {
                assert(b2i(b.mine_at(pr, pc + 1)) == 0);
            } else if r == pr + 1 && c == pc - 1 {
                assert(b2i(b.mine_at(pr + 1, pc - 1)) == 0);
            } else if r == pr + 1 && c == pc {
                assert(b2i(b.mine_at(pr + 1, pc)) == 0);
            } else {
                assert(r == pr + 1 && c == pc + 1);
                assert(b2i(b.mine_at(pr + 1, pc + 1)) == 0);
            }
        }
    }
}

/// All neighbors that a finished flood fill would still owe are queued.
#[verifier::opaque]
spec fn nbrs_done(pre: Board, b: Board, work: Seq<(usize, usize)>, i: int, j: int) -> bool {
    forall|i2: int, j2: int|
        pre.in_bounds(i2, j2) && adj(i, j, i2, j2) && !(#[trigger] b.cell(i2, j2)).uncovered && !b.cell(
            i2,
            j2,
        ).flagged ==> in_work(work, i2, j2)
}

/// Loop invariant of the flood fill: every cell it has uncovered so far that
/// is empty has each of its still-covered, unflagged neighbors in the
/// worklist.
#[verifier::opaque]
spec fn frontier_ok(pre: Board, b: Board, work: Seq<(usize, usize)>) -> bool {
    forall|i: int, j: int|
        pre.in_bounds(i, j) && (#[trigger] b.cell(i, j)).uncovered && !pre.cell(i, j).uncovered
            && pre.cell(i, j).content is Empty ==> nbrs_done(pre, b, work, i, j)
}

/// Once the worklist is drained, everything reachable from the start has
/// been uncovered.
proof fn lemma_path_all_uncovered(
    pre: Board,
    b: Board,
    sr: int,
    sc: int,
    r: int,
    c: int,
    p: Seq<(int, int)>,
)
    requires
        pre.in_bounds(sr, sc),
        !pre.cell(sr, sc).uncovered,
        !pre.cell(sr, sc).flagged,
        b.size == pre.size,
        b.cells@.len() == pre.cells@.len(),
        forall|i: int, j: int|
            pre.in_bounds(i, j) ==> ((#[trigger] b.cell(i, j)).content == pre.cell(i, j).content
                && b.cell(i, j).flagged == pre.cell(i, j).flagged),
        b.cell(sr, sc).uncovered,
        frontier_ok(pre, b, Seq::<(usize, usize)>::empty()),
        is_region_path(pre, sr, sc, r, c, p),
    ensures
        b.cell(r, c).uncovered,
    decreases p.len(),
{
    reveal(frontier_ok);
    reveal(nbrs_done);
    reveal(in_work);
    if p.len() == 1 {
        assert(p[0] == ((r, c)));
    } else {
        let k = p.len() - 2;
        let pr = p[k].0;
        let pc = p[k].1;
        assert(region_edge(pre, p[k].0, p[k].1, p[k + 1].0, p[k + 1].1));
        let q = p.subrange(0, p.len() - 1);
        assert(q[0] == p[0]);
        assert(q[q.len() - 1] == p[k]);
        assert forall|k2: int|
            0 <= k2 < q.len() - 1 implies region_edge(
            pre,
            (#[trigger] q[k2]).0,
            q[k2].1,
            q[k2 + 1].0,
            q[k2 + 1].1,
        ) by {
            assert(q[k2] == p[k2]);
            assert(q[k2 + 1] == p[k2 + 1]);
            assert(region_edge(pre, p[k2].0, p[k2].1, p[k2 + 1].0, p[k2 + 1].1));
        }
        assert(is_region_path(pre, sr, sc, pr, pc, q));
        lemma_path_all_uncovered(pre, b, sr, sc, pr, pc, q);
        assert(pre.in_region(sr, sc, pr, pc)) by {
            reveal(Board::in_region);
        }
        lemma_region_member(pre, sr, sc, pr, pc);
        assert(b.cell(pr, pc).uncovered && !pre.cell(pr, pc).uncovered);
        assert(nbrs_done(pre, b, Seq::<(usize, usize)>::empty(), pr, pc));
        if !b.cell(r, c).uncovered {
            assert(in_work(Seq::<(usize, usize)>::empty(), r, c));
            assert(false);
        }
    }
}

/// Popping an entry whose cell is uncovered or flagged keeps the frontier
/// invariant: nothing still owed pointed at it.
proof fn lemma_frontier_after_pop(
    pre: Board,
    b: Board,
    work_start: Seq<(usize, usize)>,
    r: int,
    c: int,
)
    requires
        work_start.len() > 0,
        work_start[work_start.len() - 1].0 as int == r,
        work_start[work_start.len() - 1].1 as int == c,
        b.cell(r, c).uncovered || b.cell(r, c).flagged,
        frontier_ok(pre, b, work_start),
    ensures
        frontier_ok(pre, b, work_start.subrange(0, work_start.len() - 1)),
{
    reveal(frontier_ok);
    reveal(nbrs_done);
    let work_new = work_start.subrange(0, work_start.len() - 1);
    assert forall|i: int, j: int|
        pre.in_bounds(i, j) && (#[trigger] b.cell(i, j)).uncovered && !pre.cell(i, j).uncovered
            && pre.cell(i, j).content is Empty implies nbrs_done(pre, b, work_new, i, j) by {
        assert(nbrs_done(pre, b, work_start, i, j));
        assert forall|i2: int, j2: int|
            pre.in_bounds(i2, j2) && adj(i, j, i2, j2) && !(#[trigger] b.cell(i2, j2)).uncovered
                && !b.cell(i2, j2).flagged implies in_work(work_new, i2, j2) by {
            assert(in_work(work_start, i2, j2));
            if i2 == r && j2 == c {
                assert(false);
            } else {
                lemma_in_work_pop(work_start, i2, j2);
            }
        }
    }
}

/// Uncovering the popped cell keeps the frontier invariant: if the cell is
/// empty all its neighbors were just enqueued, and obligations of other cells
/// either point at the now-uncovered cell or survive the pop.
proof fn lemma_frontier_after_uncover(
    pre: Board,
    b0: Board,
    b1: Board,
    work_start: Seq<(usize, usize)>,
    work_new: Seq<(usize, usize)>,
    r: int,
    c: int,
)
    requires
        work_start.len() > 0,
        work_start[work_start.len() - 1].0 as int == r,
        work_start[work_start.len() - 1].1 as int == c,
        seq_extends(work_new, work_start.subrange(0, work_start.len() - 1)),
        pre.size == b0.size,
        b1.size == b0.size,
        b1.cells@.len() == b0.cells@.len(),
        forall|i: int, j: int|
            b0.in_bounds(i, j) && !(i == r && j == c) ==> #[trigger] b1.cell(i, j) == b0.cell(
                i,
                j,
            ),
        b0.in_bounds(r, c),
        b1.cell(r, c).uncovered,
        b1.cell(r, c).flagged == b0.cell(r, c).flagged,
        b1.cell(r, c).content == b0.cell(r, c).content,
        frontier_ok(pre, b0, work_start),
        pre.cell(r, c).content is Empty ==> (forall|i2: int, j2: int|
            pre.in_bounds(i2, j2) && adj(r, c, i2, j2) ==> #[trigger] in_work(work_new, i2, j2)),
    ensures
        frontier_ok(pre, b1, work_new),
{
    reveal(frontier_ok);
    reveal(nbrs_done);
    assert forall|i: int, j: int|
        pre.in_bounds(i, j) && (#[trigger] b1.cell(i, j)).uncovered && !pre.cell(i, j).uncovered
            && pre.cell(i, j).content is Empty implies nbrs_done(pre, b1, work_new, i, j) by {
        if i == r && j == c {
            assert forall|i2: int, j2: int|
                pre.in_bounds(i2, j2) && adj(i, j, i2, j2) && !(#[trigger] b1.cell(
                    i2,
                    j2,
                )).uncovered && !b1.cell(i2, j2).flagged implies in_work(work_new, i2, j2) by {
                assert(in_work(work_new, i2, j2));
            }
        } else {
            assert(b1.cell(i, j) == b0.cell(i, j));
            assert(nbrs_done(pre, b0, work_start, i, j));
            assert forall|i2: int, j2: int|
                pre.in_bounds(i2, j2) && adj(i, j, i2, j2) && !(#[trigger] b1.cell(
                    i2,
                    j2,
                )).uncovered && !b1.cell(i2, j2).flagged implies in_work(work_new, i2, j2) by {
                if i2 == r && j2 == c {
                    assert(b1.cell(i2, j2).uncovered);
                    assert(false);
                } else {
                    assert(b1.cell(i2, j2) == b0.cell(i2, j2));
                    assert(in_work(work_start, i2, j2));
                    lemma_in_work_pop(work_start, i2, j2);
                    lemma_in_work_extends(
                        work_new,
                        work_start.subrange(0, work_start.len() - 1),
                        i2,
                        j2,
                    );
                }
            }
        }
    }
}

/// The rank of a neighbor offset `(di, dj)` with `di, dj` in `0..3`, the
/// center excluded, in the order the fill enqueues them.
spec fn offset_rank(di: int, dj: int) -> int {
    if di == 0 && dj == 0 {
        0
    } else if di == 0 && dj == 1 {
        1
    } else if di == 0 && dj == 2 {
        2
    } else if di == 1 && dj == 0 {
        3
    } else if di == 1 && dj == 2 {
        4
    } else if di == 2 && dj == 0 {
        5
    } else if di == 2 && dj == 1 {
        6
    } else if di == 2 && dj == 2 {
        7
    } else {
        8
    }
}

/// Append every in-bounds Moore neighbor of `(r, c)` to the worklist.
fn enqueue_neighbors(work: &mut Vec<(usize, usize)>, size: usize, r: usize, c: usize)
    requires
        r < size,
        c < size,
    ensures
        seq_extends(final(work)@, old(work)@),
        forall|k: int|
            old(work)@.len() <= k < final(work)@.len() ==> ((#[trigger] final(work)@[k]).0 < size
                && final(work)@[k].1 < size && adj(
                r as int,
                c as int,
                final(work)@[k].0 as int,
                final(work)@[k].1 as int,
            )),
        forall|i: int, j: int|
            0 <= i < size && 0 <= j < size && adj(r as int, c as int, i, j) ==> in_work(
                final(work)@,
                i,
                j,
            ),
{
    let mut t: usize = 0;
    while t < 8
        invariant
            r < size,
            c < size,
            t <= 8,
            seq_extends(work@, old(work)@),
            forall|k: int|
                old(work)@.len() <= k < work@.len() ==> ((#[trigger] work@[k]).0 < size
                    && work@[k].1 < size && adj(
                    r as int,
                    c as int,
                    work@[k].0 as int,
                    work@[k].1 as int,
                )),
            forall|i: int, j: int|
                0 <= i < size && 0 <= j < size && adj(r as int, c as int, i, j) && offset_rank(
                    i - r as int + 1,
                    j - c as int + 1,
                ) < t ==> #[trigger] in_work(work@, i, j),
        decreases 8 - t,
    {
        let (di, dj): (usize, usize) = if t == 0 {
            (0, 0)
        } else if t == 1 {
            (0, 1)
        } else if t == 2 {
            (0, 2)
        } else if t == 3 {
            (1, 0)
        } else if t == 4 {
            (1, 2)
        } else if t == 5 {
            (2, 0)
        } else if t == 6 {
            (2, 1)
        } else {
            (2, 2)
        };
        let ghost prev = work@;
        let applicable = (di != 0 || r > 0) && (di != 2 || r + 1 < size) && (dj != 0 || c > 0) && (
        dj != 2 || c + 1 < size);
        if applicable {
            let ti = r + di - 1;
            let tj = c + dj - 1;
            work.push((ti, tj));
        }
        proof {
            assert forall|i: int, j: int|
                0 <= i < size && 0 <= j < size && adj(r as int, c as int, i, j) && offset_rank(
                    i - r as int + 1,
                    j - c as int + 1,
                ) < t + 1 implies #[trigger] in_work(work@, i, j) by {
                reveal(in_work);
                let di2 = i - r as int + 1;
                let dj2 = j - c as int + 1;
                if offset_rank(di2, dj2) < t as int {
                    lemma_in_work_extends(work@, prev, i, j);
                } else {
                    assert(di2 == di as int && dj2 == dj as int);
                    assert(applicable);
                    assert(work@[work@.len() - 1].0 as int == i && work@[work@.len() - 1].1 as int
                        == j);
                }
            }
        }
        t = t + 1;
    }
}

/// What holds when the flood fill's worklist is drained: the uncovered set
/// grew by exactly the start's region, and the grid is still well formed.
proof fn lemma_flood_post(pre: Board, b: Board, row: int, col: int)
    requires
        pre.grid_wf(),
        pre.in_bounds(row, col),
        !pre.cell(row, col).uncovered,
        !pre.cell(row, col).flagged,
        b.size == pre.size,
        b.cells@.len() == pre.cells@.len(),
        forall|i: int, j: int|
            pre.in_bounds(i, j) ==> ((#[trigger] b.cell(i, j)).content == pre.cell(i, j).content
                && b.cell(i, j).flagged == pre.cell(i, j).flagged),
        forall|i: int, j: int|
            pre.in_bounds(i, j) && (#[trigger] pre.cell(i, j)).uncovered ==> b.cell(i, j).uncovered,
        forall|i: int, j: int|
            pre.in_bounds(i, j) && (#[trigger] b.cell(i, j)).uncovered && !pre.cell(i, j).uncovered
                ==> pre.in_region(row, col, i, j),
        b.cell(row, col).uncovered,
        frontier_ok(pre, b, Seq::<(usize, usize)>::empty()),
    ensures
        forall|i: int, j: int|
            pre.in_bounds(i, j) ==> ((#[trigger] b.cell(i, j)).content == pre.cell(i, j).content
                && b.cell(i, j).flagged == pre.cell(i, j).flagged && b.cell(i, j).uncovered == (
            pre.cell(i, j).uncovered || pre.in_region(row, col, i, j))),
        b.grid_wf(),
{
    assert forall|i: int, j: int|
        pre.in_bounds(i, j) && pre.in_region(row, col, i, j) implies b.cell(i, j).uncovered by {
        reveal(Board::in_region);
        let p = choose|p: Seq<(int, int)>| #[trigger] is_region_path(pre, row, col, i, j, p);
        lemma_path_all_uncovered(pre, b, row, col, i, j, p);
    }
    assert forall|i: int, j: int|
        b.in_bounds(i, j) && (#[trigger] b.cell(i, j)).flagged implies !b.cell(i, j).uncovered by {
        if b.cell(i, j).uncovered && !pre.cell(i, j).uncovered {
            assert(pre.in_region(row, col, i, j));
            lemma_region_member(pre, row, col, i, j);
            assert(false);
        }
    }
    lemma_same_content_same_counts(pre, b);
    assert forall|i: int, j: int|
        b.in_bounds(i, j) && !((#[trigger] b.cell(i, j)).content is Mine) implies b.cell(
        i,
        j,
    ).content == crate::board::value_content(b.adj_mine_count(i, j)) by {
        assert(b.cell(i, j).content == pre.cell(i, j).content);
        assert(b.adj_mine_count(i, j) == pre.adj_mine_count(i, j));
    }
}

impl Board {
    /// The in-bounds Moore neighbors of `(row, col)`.
    pub fn get_neighbors(&self, row: usize, col: usize) -> (nbrs: Vec<(usize, usize)>)
        requires
            row < self.size,
            col < self.size,
        ensures
            forall|k: int|
                0 <= k < nbrs@.len() ==> ((#[trigger] nbrs@[k]).0 < self.size && nbrs@[k].1
                    < self.size && adj(
                    row as int,
                    col as int,
                    nbrs@[k].0 as int,
                    nbrs@[k].1 as int,
                )),
            forall|i: int, j: int|
                self.in_bounds(i, j) && adj(row as int, col as int, i, j) ==> in_work(nbrs@, i, j),
    {
        let mut nbrs: Vec<(usize, usize)> = Vec::new();
        enqueue_neighbors(&mut nbrs, self.size, row, col);
        nbrs
    }

    /// Worklist flood fill from a covered, unflagged, non-mine start cell:
    /// uncovers exactly the start's reveal region and touches nothing else.
    #[verifier::rlimit(100)]
    fn flood(&mut self, row: usize, col: usize)
        requires
            old(self).grid_wf(),
            old(self).in_bounds(row as int, col as int),
            !old(self).cell(row as int, col as int).uncovered,
            !old(self).cell(row as int, col as int).flagged,
            !(old(self).cell(row as int, col as int).content is Mine),
        ensures
            final(self).size == old(self).size,
            final(self).status == old(self).status,
            final(self).cells@.len() == old(self).cells@.len(),
            forall|i: int, j: int|
                old(self).in_bounds(i, j) ==> ((#[trigger] final(self).cell(i, j)).content == old(
                    self,
                ).cell(i, j).content && final(self).cell(i, j).flagged == old(self).cell(
                    i,
                    j,
                ).flagged && final(self).cell(i, j).uncovered == (old(self).cell(i, j).uncovered
                    || old(self).in_region(row as int, col as int, i, j))),
            final(self).grid_wf(),
    {
        let ghost pre = *old(self);
        let mut work: Vec<(usize, usize)> = Vec::new();
        work.push((row, col));
        proof {
            lemma_region_start(pre, row as int, col as int);
            assert(work@[0] == ((row, col)));
            assert(in_work(work@, row as int, col as int)) by {
                reveal(in_work);
            }
            assert(frontier_ok(pre, *self, work@)) by {
                reveal(frontier_ok);
            }
        }
        while work.len() > 0
            invariant
                self.size == pre.size,
                self.status == pre.status,
                self.cells@.len() == pre.cells@.len(),
                pre.grid_wf(),
                pre.in_bounds(row as int, col as int),
                !pre.cell(row as int, col as int).uncovered,
                !pre.cell(row as int, col as int).flagged,
                !(pre.cell(row as int, col as int).content is Mine),
                forall|i: int, j: int|
                    pre.in_bounds(i, j) ==> ((#[trigger] self.cell(i, j)).content == pre.cell(
                        i,
                        j,
                    ).content && self.cell(i, j).flagged == pre.cell(i, j).flagged),
                forall|i: int, j: int|
                    pre.in_bounds(i, j) && (#[trigger] pre.cell(i, j)).uncovered ==> self.cell(
                        i,
                        j,
                    ).uncovered,
                forall|i: int, j: int|
                    pre.in_bounds(i, j) && (#[trigger] self.cell(i, j)).uncovered && !pre.cell(
                        i,
                        j,
                    ).uncovered ==> pre.in_region(row as int, col as int, i, j),
                forall|k: int|
                    0 <= k < work@.len() ==> ((#[trigger] work@[k]).0 < pre.size && work@[k].1
                        < pre.size && ((!pre.cell(work@[k].0 as int, work@[k].1 as int).uncovered
                        && !pre.cell(work@[k].0 as int, work@[k].1 as int).flagged)
                        ==> pre.in_region(
                        row as int,
                        col as int,
                        work@[k].0 as int,
                        work@[k].1 as int,
                    ))),
                self.cell(row as int, col as int).uncovered || in_work(
                    work@,
                    row as int,
                    col as int,
                ),
                frontier_ok(pre, *self, work@),
            decreases covered_in(self.cells@, self.cells@.len() as int), work@.len(),
        {
            let ghost work_start = work@;
            let rc = work.pop().unwrap();
            let r = rc.0;
            let c = rc.1;
            let ghost work_popped = work@;
            proof {
                lemma_covered_in_nonneg(self.cells@, self.cells@.len() as int);
            }
            let cs = self.cell_get(r, c);
            if !cs.uncovered && !cs.flagged {
                let ghost self0 = *self;
                proof {
                    assert(!pre.cell(r as int, c as int).uncovered);
                    assert(!pre.cell(r as int, c as int).flagged);
                    assert(pre.in_region(row as int, col as int, r as int, c as int));
                }
                self.set_uncovered(r, c);
                proof {
                    crate::board::lemma_idx_bounds(pre.size as int, r as int, c as int);
                    lemma_covered_in_update(
                        self0.cells@,
                        r as int * pre.size + c as int,
                        self.cell(r as int, c as int),
                        self0.cells@.len() as int,
                    );
                    lemma_covered_in_nonneg(self.cells@, self.cells@.len() as int);
                }
                if matches!(cs.content, Cell::Empty) {
                    let size = self.size;
                    enqueue_neighbors(&mut work, size, r, c);
                    proof {
                        assert forall|k: int| 0 <= k < work@.len() implies ((#[trigger] work@[k]).0
                            < pre.size && work@[k].1 < pre.size && ((!pre.cell(
                            work@[k].0 as int,
                            work@[k].1 as int,
                        ).uncovered && !pre.cell(work@[k].0 as int, work@[k].1 as int).flagged)
                            ==> pre.in_region(
                            row as int,
                            col as int,
                            work@[k].0 as int,
                            work@[k].1 as int,
                        ))) by {
                            if k < work_popped.len() {
                                assert(work@[k] == work_popped[k]);
                                assert(work_popped[k] == work_start[k]);
                            } else {
                                let i2 = work@[k].0 as int;
                                let j2 = work@[k].1 as int;
                                if !pre.cell(i2, j2).uncovered && !pre.cell(i2, j2).flagged {
                                    lemma_region_step(
                                        pre,
                                        row as int,
                                        col as int,
                                        r as int,
                                        c as int,
                                        i2,
                                        j2,
                                    );
                                }
                            }
                        }
                    }
                }
                proof {
                    // soundness of the uncovered set
                    assert forall|i: int, j: int|
                        pre.in_bounds(i, j) && (#[trigger] self.cell(i, j)).uncovered && !pre.cell(
                            i,
                            j,
                        ).uncovered implies pre.in_region(row as int, col as int, i, j) by {
                        if !(i == r as int && j == c as int) {
                            assert(self.cell(i, j) == self0.cell(i, j));
                        }
                    }
                    // monotonicity
                    assert forall|i: int, j: int|
                        pre.in_bounds(i, j) && (#[trigger] pre.cell(i, j)).uncovered implies self
                        .cell(i, j).uncovered by {
                        if !(i == r as int && j == c as int) {
                            assert(self.cell(i, j) == self0.cell(i, j));
                        }
                    }
                    // contents and flags untouched
                    assert forall|i: int, j: int|
                        pre.in_bounds(i, j) implies ((#[trigger] self.cell(i, j)).content
                        == pre.cell(i, j).content && self.cell(i, j).flagged == pre.cell(
                        i,
                        j,
                    ).flagged) by {
                        if !(i == r as int && j == c as int) {
                            assert(self.cell(i, j) == self0.cell(i, j));
                        }
                    }
                    // the start cell stays accounted for
                    if !(r as int == row as int && c as int == col as int) {
                        if !self.cell(row as int, col as int).uncovered {
                            assert(self0.cell(row as int, col as int) == self.cell(
                                row as int,
                                col as int,
                            ));
                            assert(in_work(work_start, row as int, col as int));
                            lemma_in_work_pop(work_start, row as int, col as int);
                            if matches!(cs.content, Cell::Empty) {
                                lemma_in_work_extends(
                                    work@,
                                    work_popped,
                                    row as int,
                                    col as int,
                                );
                            }
                        }
                    }
                    // the frontier invariant
                    if !(cs.content is Empty) {
                        assert(pre.cell(r as int, c as int).content == cs.content);
                        assert(seq_extends(work@, work_popped));
                    }
                    lemma_frontier_after_uncover(
                        pre,
                        self0,
                        *self,
                        work_start,
                        work@,
                        r as int,
                        c as int,
                    );
                }
            } else {
                proof {
                    // the start cell stays accounted for
                    if !self.cell(row as int, col as int).uncovered {
                        assert(in_work(work_start, row as int, col as int));
                        if r as int == row as int && c as int == col as int {
                            assert(self.cell(r as int, c as int).flagged == pre.cell(
                                r as int,
                                c as int,
                            ).flagged);
                            assert(cs.uncovered);
                            assert(false);
                        } else {
                            lemma_in_work_pop(work_start, row as int, col as int);
                        }
                    }
                    // the frontier invariant
                    lemma_frontier_after_pop(pre, *self, work_start, r as int, c as int);
                }
            }
        }
        proof {
            assert(work@ =~= Seq::<(usize, usize)>::empty());
            assert(self.cell(row as int, col as int).uncovered) by {
                reveal(in_work);
            }
            lemma_flood_post(pre, *self, row as int, col as int);
        }
    }
}

/// What `uncover` does: out-of-range is rejected with the engine untouched; a
/// finished game, a flagged target, or an uncovered target is a no-op;
/// uncovering a mine uncovers that one cell and loses; otherwise exactly the
/// start's reveal region is uncovered and the game is won exactly when no
/// covered non-mine cell remains.
pub open spec fn uncover_transition(
    pre: Board,
    post: Board,
    r: int,
    c: int,
    out: Result<GameResult, EngineError>,
) -> bool {
    if !pre.in_bounds(r, c) {
        unchanged(pre, post) && out == Err::<GameResult, EngineError>(EngineError::IndexOutOfBounds)
    } else if !(pre.status is InProgress) {
        unchanged(pre, post) && out == Ok::<GameResult, EngineError>(pre.status)
    } else if pre.cell(r, c).flagged || pre.cell(r, c).uncovered {
        unchanged(pre, post) && out == Ok::<GameResult, EngineError>(GameResult::InProgress)
    } else if pre.cell(r, c).content is Mine {
        &&& post.size == pre.size
        &&& post.cells@.len() == pre.cells@.len()
        &&& post.cell(r, c) == (CellState {
            content: pre.cell(r, c).content,
            uncovered: true,
            flagged: false,
        })
        &&& forall|i: int, j: int|
            pre.in_bounds(i, j) && !(i == r && j == c) ==> #[trigger] post.cell(i, j) == pre.cell(
                i,
                j,
            )
        &&& post.status is Lost
        &&& out == Ok::<GameResult, EngineError>(GameResult::Lost)
    } else {
        &&& post.size == pre.size
        &&& post.cells@.len() == pre.cells@.len()
        &&& forall|i: int, j: int|
            pre.in_bounds(i, j) ==> ((#[trigger] post.cell(i, j)).content == pre.cell(
                i,
                j,
            ).content && post.cell(i, j).flagged == pre.cell(i, j).flagged && post.cell(
                i,
                j,
            ).uncovered == (pre.cell(i, j).uncovered || pre.in_region(r, c, i, j)))
        &&& post.status == (if post.all_safe_uncovered() {
            GameResult::Won
        } else {
            GameResult::InProgress
        })
        &&& out == Ok::<GameResult, EngineError>(post.status)
    }
}

impl Board {
    /// Uncover the cell at `(row, col)`; see `uncover_transition`.
    pub fn uncover(&mut self, row: usize, col: usize) -> (out: Result<GameResult, EngineError>)
        requires
            old(self).wf(),
        ensures
            final(self).wf(),
            uncover_transition(*old(self), *final(self), row as int, col as int, out),
    {
        if row >= self.size || col >= self.size {
            return Err(EngineError::IndexOutOfBounds);
        }
        let current = self.status;
        if !matches!(current, GameResult::InProgress) {
            return Ok(current);
        }
        let cs = self.cell_get(row, col);
        if cs.flagged || cs.uncovered {
            return Ok(GameResult::InProgress);
        }
        if matches!(cs.content, Cell::Mine) {
            self.set_uncovered(row, col);
            let ghost m0 = *self;
            self.status = GameResult::Lost;
            proof {
                lemma_same_cells_same_grid(m0, *self);
                lemma_same_content_same_counts(*old(self), *self);
                assert(self.cell(row as int, col as int).content is Mine && self.cell(
                    row as int,
                    col as int,
                ).uncovered);
                assert(self.mine_uncovered());
                assert forall|i: int, j: int|
                    self.in_bounds(i, j) && (#[trigger] self.cell(i, j)).flagged implies !self.cell(
                    i,
                    j,
                ).uncovered by {
                    if !(i == row as int && j == col as int) {
                        assert(self.cell(i, j) == old(self).cell(i, j));
                    }
                }
                assert forall|i: int, j: int|
                    self.in_bounds(i, j) && !((#[trigger] self.cell(i, j)).content
                        is Mine) implies self.cell(i, j).content == crate::board::value_content(
                    self.adj_mine_count(i, j),
                ) by {
                    assert(self.cell(i, j).content == old(self).cell(i, j).content);
                    assert(self.adj_mine_count(i, j) == old(self).adj_mine_count(i, j));
                }
            }
            return Ok(GameResult::Lost);
        }
        self.flood(row, col);
        let ghost mid = *self;
        let won = self.check_win();
        if won {
            self.status = GameResult::Won;
        }
        proof {
            lemma_same_cells_same_grid(mid, *self);
            assert(!old(self).mine_uncovered());
            assert(!self.mine_uncovered()) by {
                if self.mine_uncovered() {
                    let (r2, c2) = choose|r2: int, c2: int|
                        self.in_bounds(r2, c2) && (#[trigger] self.cell(r2, c2)).content is Mine
                            && self.cell(r2, c2).uncovered;
                    assert(mid.cell(r2, c2).uncovered);
                    if old(self).cell(r2, c2).uncovered {
                        assert(old(self).mine_uncovered());
                    } else {
                        assert(old(self).in_region(row as int, col as int, r2, c2));
                        lemma_region_no_mine(*old(self), row as int, col as int, r2, c2);
                        assert(mid.cell(r2, c2).content == old(self).cell(r2, c2).content);
                    }
                    assert(false);
                }
            }
        }
        if won {
            Ok(GameResult::Won)
        } else {
            Ok(GameResult::InProgress)
        }
    }
}

} // verus!
