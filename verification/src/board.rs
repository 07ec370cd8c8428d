use vstd::prelude::*;
use vstd::pervasive::VecAdditionalExecFns;

use crate::cell::Cell;
use crate::cell::CellState;
use crate::cell::EngineError;
use crate::cell::GameResult;
use crate::cell::ToggleOutcome;

verus! {

/// The board engine: a square grid of cells plus the game's current outcome.
///
/// The grid is stored row-major in a flat vector of length `size * size`;
/// cell `(r, c)` lives at index `r * size + c`.
#[derive(Clone)]
pub struct Board {
    pub size: usize,
    pub cells: Vec<CellState>,
    pub status: GameResult,
}

pub open spec fn b2i(b: bool) -> int {
    if b {
        1
    } else {
        0
    }
}

/// Moore adjacency: the two coordinates differ by at most one in each
/// component and are not the same cell.
pub open spec fn adj(r1: int, c1: int, r2: int, c2: int) -> bool {
    &&& -1 <= r1 - r2 <= 1
    &&& -1 <= c1 - c2 <= 1
    &&& !(r1 == r2 && c1 == c2)
}

/// The cell stored at `(r, c)` in a row-major flat grid of side `size`.
pub open spec fn cell_in(cells: Seq<CellState>, size: int, r: int, c: int) -> CellState {
    cells[r * size + c]
}

/// Whether `(r, c)` is an in-bounds mine position of a flat mine mask.
pub open spec fn mine_in(mines: Seq<bool>, size: int, r: int, c: int) -> bool {
    0 <= r < size && 0 <= c < size && mines[r * size + c]
}

/// How many of the up-to-8 Moore neighbors of `(r, c)` carry a mine,
/// clipped at the grid edges.
pub open spec fn adj_mines(mines: Seq<bool>, size: int, r: int, c: int) -> int {
    b2i(mine_in(mines, size, r - 1, c - 1)) + b2i(mine_in(mines, size, r - 1, c)) + b2i(
        mine_in(mines, size, r - 1, c + 1),
    ) + b2i(mine_in(mines, size, r, c - 1)) + b2i(mine_in(mines, size, r, c + 1)) + b2i(
        mine_in(mines, size, r + 1, c - 1),
    ) + b2i(mine_in(mines, size, r + 1, c)) + b2i(mine_in(mines, size, r + 1, c + 1))
}

/// The content a non-mine cell must hold when `k` of its neighbors are mines.
pub open spec fn value_content(k: int) -> Cell {
    if k > 0 {
        Cell::Value(k as i32)
    } else {
        Cell::Empty
    }
}

pub proof fn lemma_idx_bounds(size: int, r: int, c: int)
    by (nonlinear_arith)
    requires
        0 <= r < size,
        0 <= c < size,
    ensures
        0 <= r * size + c < size * size,
{
}

pub proof fn lemma_idx_injective(size: int, r1: int, c1: int, r2: int, c2: int)
    by (nonlinear_arith)
    requires
        0 <= r1 < size,
        0 <= c1 < size,
        0 <= r2 < size,
        0 <= c2 < size,
        r1 * size + c1 == r2 * size + c2,
    ensures
        r1 == r2,
        c1 == c2,
{
}

impl Board {
    pub open spec fn in_bounds(self, r: int, c: int) -> bool {
        0 <= r < self.size && 0 <= c < self.size
    }

    pub open spec fn cell(self, r: int, c: int) -> CellState {
        cell_in(self.cells@, self.size as int, r, c)
    }

    /// Whether `(r, c)` is an in-bounds cell holding a mine.
    pub open spec fn mine_at(self, r: int, c: int) -> bool {
        self.in_bounds(r, c) && self.cell(r, c).content is Mine
    }

    /// How many Moore neighbors of `(r, c)` hold a mine.
    pub open spec fn adj_mine_count(self, r: int, c: int) -> int {
        b2i(self.mine_at(r - 1, c - 1)) + b2i(self.mine_at(r - 1, c)) + b2i(
            self.mine_at(r - 1, c + 1),
        ) + b2i(self.mine_at(r, c - 1)) + b2i(self.mine_at(r, c + 1)) + b2i(
            self.mine_at(r + 1, c - 1),
        ) + b2i(self.mine_at(r + 1, c)) + b2i(self.mine_at(r + 1, c + 1))
    }

    /// A flagged cell is never uncovered.
    pub open spec fn flags_ok(self) -> bool {
        forall|r: int, c: int|
            self.in_bounds(r, c) && (#[trigger] self.cell(r, c)).flagged ==> !self.cell(
                r,
                c,
            ).uncovered
    }

    /// Every non-mine cell shows exactly its neighbor-mine count: `Value(k)`
    /// when `k > 0` of its neighbors are mines, `Empty` when none are.
    pub open spec fn values_ok(self) -> bool {
        forall|r: int, c: int|
            self.in_bounds(r, c) && !((#[trigger] self.cell(r, c)).content is Mine) ==> self.cell(
                r,
                c,
            ).content == value_content(self.adj_mine_count(r, c))
    }

    /// Structural well-formedness of the grid alone.
    pub open spec fn grid_wf(self) -> bool {
        &&& 1 <= self.size
        &&& self.cells@.len() == self.size * self.size
        &&& self.flags_ok()
        &&& self.values_ok()
    }

    /// Some mine has been uncovered.
    pub open spec fn mine_uncovered(self) -> bool {
        exists|r: int, c: int|
            self.in_bounds(r, c) && (#[trigger] self.cell(r, c)).content is Mine && self.cell(
                r,
                c,
            ).uncovered
    }

    /// Every non-mine cell has been uncovered.
    pub open spec fn all_safe_uncovered(self) -> bool {
        forall|r: int, c: int|
            self.in_bounds(r, c) && !((#[trigger] self.cell(r, c)).content is Mine) ==> self.cell(
                r,
                c,
            ).uncovered
    }

    /// The outcome the grid itself determines: lost as soon as a mine is
    /// uncovered, won once every non-mine cell is, in progress otherwise.
    pub open spec fn derived_result(self) -> GameResult {
        if self.mine_uncovered() {
            GameResult::Lost
        } else if self.all_safe_uncovered() {
            GameResult::Won
        } else {
            GameResult::InProgress
        }
    }

    /// Full well-formedness: the grid invariants plus a stored outcome that
    /// agrees with the grid.
    pub open spec fn wf(self) -> bool {
        self.grid_wf() && self.status == self.derived_result()
    }
}

/// Both boards hold the same grid, cell for cell.
pub open spec fn same_cells(a: Board, b: Board) -> bool {
    &&& b.size == a.size
    &&& b.cells@.len() == a.cells@.len()
    &&& forall|r: int, c: int| a.in_bounds(r, c) ==> #[trigger] b.cell(r, c) == a.cell(r, c)
}

/// The call left the engine exactly as it found it.
pub open spec fn unchanged(a: Board, b: Board) -> bool {
    same_cells(a, b) && b.status == a.status
}

/// What `toggle_flag` does: out-of-range is rejected with the engine
/// untouched; a finished game or an uncovered target is an explicit no-op;
/// otherwise exactly the target cell's flag flips.
pub open spec fn toggle_transition(
    pre: Board,
    post: Board,
    r: int,
    c: int,
    out: Result<ToggleOutcome, EngineError>,
) -> bool {
    if !pre.in_bounds(r, c) {
        unchanged(pre, post) && out == Err::<ToggleOutcome, EngineError>(
            EngineError::IndexOutOfBounds,
        )
    } else if !(pre.status is InProgress) {
        unchanged(pre, post) && out == Ok::<ToggleOutcome, EngineError>(ToggleOutcome::NoOp)
    } else if pre.cell(r, c).uncovered {
        unchanged(pre, post) && out == Ok::<ToggleOutcome, EngineError>(ToggleOutcome::NoOp)
    } else {
        &&& post.size == pre.size
        &&& post.cells@.len() == pre.cells@.len()
        &&& post.status == pre.status
        &&& post.cell(r, c) == (CellState {
            content: pre.cell(r, c).content,
            uncovered: pre.cell(r, c).uncovered,
            flagged: !pre.cell(r, c).flagged,
        })
        &&& forall|i: int, j: int|
            pre.in_bounds(i, j) && !(i == r && j == c) ==> #[trigger] post.cell(i, j) == pre.cell(
                i,
                j,
            )
        &&& out == Ok::<ToggleOutcome, EngineError>(ToggleOutcome::Toggled)
    }
}

/// Two boards whose cells agree on content and uncovering (flags may differ)
/// determine the same outcome.
pub proof fn lemma_same_uncovering_same_result(a: Board, b: Board)
    requires
        b.size == a.size,
        b.cells@.len() == a.cells@.len(),
        forall|i: int, j: int|
            a.in_bounds(i, j) ==> (#[trigger] b.cell(i, j)).content == a.cell(i, j).content
                && b.cell(i, j).uncovered == a.cell(i, j).uncovered,
    ensures
        b.mine_uncovered() == a.mine_uncovered(),
        b.all_safe_uncovered() == a.all_safe_uncovered(),
        b.derived_result() == a.derived_result(),
{
    if a.mine_uncovered() {
        let (r, c) = choose|r: int, c: int|
            a.in_bounds(r, c) && (#[trigger] a.cell(r, c)).content is Mine && a.cell(
                r,
                c,
            ).uncovered;
        assert(b.cell(r, c).content is Mine && b.cell(r, c).uncovered);
        assert(b.mine_uncovered());
    }
    if b.mine_uncovered() {
        let (r, c) = choose|r: int, c: int|
            b.in_bounds(r, c) && (#[trigger] b.cell(r, c)).content is Mine && b.cell(
                r,
                c,
            ).uncovered;
        assert(a.cell(r, c).content is Mine && a.cell(r, c).uncovered);
        assert(a.mine_uncovered());
    }
    if a.all_safe_uncovered() {
        assert forall|r: int, c: int|
            b.in_bounds(r, c) && !((#[trigger] b.cell(r, c)).content is Mine) implies b.cell(
            r,
            c,
        ).uncovered by {
            assert(a.cell(r, c).uncovered);
        }
    }
    if b.all_safe_uncovered() {
        assert forall|r: int, c: int|
            a.in_bounds(r, c) && !((#[trigger] a.cell(r, c)).content is Mine) implies a.cell(
            r,
            c,
        ).uncovered by {
            assert(b.cell(r, c).uncovered);
        }
    }
}

/// Two boards whose cells agree on content have the same neighbor-mine
/// counts everywhere.
pub proof fn lemma_same_content_same_counts(a: Board, b: Board)
    requires
        b.size == a.size,
        b.cells@.len() == a.cells@.len(),
        forall|i: int, j: int|
            a.in_bounds(i, j) ==> (#[trigger] b.cell(i, j)).content == a.cell(i, j).content,
    ensures
        forall|r: int, c: int| #[trigger] b.mine_at(r, c) == a.mine_at(r, c),
        forall|r: int, c: int| #[trigger] b.adj_mine_count(r, c) == a.adj_mine_count(r, c),
{
    assert forall|r: int, c: int| #[trigger] b.mine_at(r, c) == a.mine_at(r, c) by {
        if a.in_bounds(r, c) {
            assert(b.cell(r, c).content == a.cell(r, c).content);
        }
    }
    assert forall|r: int, c: int| #[trigger] b.adj_mine_count(r, c) == a.adj_mine_count(r, c) by {
        assert(b.mine_at(r - 1, c - 1) == a.mine_at(r - 1, c - 1));
        assert(b.mine_at(r - 1, c) == a.mine_at(r - 1, c));
        assert(b.mine_at(r - 1, c + 1) == a.mine_at(r - 1, c + 1));
        assert(b.mine_at(r, c - 1) == a.mine_at(r, c - 1));
        assert(b.mine_at(r, c + 1) == a.mine_at(r, c + 1));
        assert(b.mine_at(r + 1, c - 1) == a.mine_at(r + 1, c - 1));
        assert(b.mine_at(r + 1, c) == a.mine_at(r + 1, c));
        assert(b.mine_at(r + 1, c + 1) == a.mine_at(r + 1, c + 1));
    }
}

/// A board that differs from another only in its stored outcome keeps every
/// grid-level property.
pub proof fn lemma_same_cells_same_grid(a: Board, b: Board)
    requires
        b.size == a.size,
        b.cells@ == a.cells@,
    ensures
        forall|r: int, c: int| #[trigger] b.cell(r, c) == a.cell(r, c),
        b.flags_ok() == a.flags_ok(),
        b.values_ok() == a.values_ok(),
        b.grid_wf() == a.grid_wf(),
        b.mine_uncovered() == a.mine_uncovered(),
        b.all_safe_uncovered() == a.all_safe_uncovered(),
        b.derived_result() == a.derived_result(),
{
    assert forall|r: int, c: int| #[trigger] b.cell(r, c) == a.cell(r, c) by {
        assert(cell_in(b.cells@, b.size as int, r, c) == cell_in(a.cells@, a.size as int, r, c));
    }
    lemma_same_content_same_counts(a, b);
    lemma_same_uncovering_same_result(a, b);
    if a.flags_ok() {
        assert forall|r: int, c: int|
            b.in_bounds(r, c) && (#[trigger] b.cell(r, c)).flagged implies !b.cell(
            r,
            c,
        ).uncovered by {
            assert(a.cell(r, c) == b.cell(r, c));
        }
    }
    if b.flags_ok() {
        assert forall|r: int, c: int|
            a.in_bounds(r, c) && (#[trigger] a.cell(r, c)).flagged implies !a.cell(
            r,
            c,
        ).uncovered by {
            assert(a.cell(r, c) == b.cell(r, c));
        }
    }
    if a.values_ok() {
        assert forall|r: int, c: int|
            b.in_bounds(r, c) && !((#[trigger] b.cell(r, c)).content is Mine) implies b.cell(
            r,
            c,
        ).content == value_content(b.adj_mine_count(r, c)) by {
            assert(a.cell(r, c) == b.cell(r, c));
            assert(b.adj_mine_count(r, c) == a.adj_mine_count(r, c));
        }
    }
    if b.values_ok() {
        assert forall|r: int, c: int|
            a.in_bounds(r, c) && !((#[trigger] a.cell(r, c)).content is Mine) implies a.cell(
            r,
            c,
        ).content == value_content(a.adj_mine_count(r, c)) by {
            assert(a.cell(r, c) == b.cell(r, c));
            assert(b.adj_mine_count(r, c) == a.adj_mine_count(r, c));
        }
    }
}

/// Relies on rand::random_range over `0..n`: a draw from the thread-local
/// generator, strictly below `n`. Nothing further is assumed of the draw.
#[verifier::external_body]
fn random_below(n: u64) -> (r: u64)
    requires
        1 <= n,
    ensures
        r < n,
{
    rand::random_range(0..n)
}

impl Board {
    /// The flat index of `(r, c)`, proved in range.
    fn flat_index(&self, r: usize, c: usize) -> (k: usize)
        requires
            self.cells@.len() == self.size * self.size,
            r < self.size,
            c < self.size,
        ensures
            k == r as int * self.size + c,
            k < self.cells@.len(),
    {
        let total = self.cells.len();
        proof {
            lemma_idx_bounds(self.size as int, r as int, c as int);
            assert(r as int * self.size + c < total);
        }
        r * self.size + c
    }

    pub(crate) fn cell_get(&self, r: usize, c: usize) -> (cs: CellState)
        requires
            self.cells@.len() == self.size * self.size,
            r < self.size,
            c < self.size,
        ensures
            cs == self.cell(r as int, c as int),
    {
        let k = self.flat_index(r, c);
        self.cells[k]
    }

    /// Uncover exactly the cell `(r, c)`.
    pub(crate) fn set_uncovered(&mut self, r: usize, c: usize)
        requires
            old(self).cells@.len() == old(self).size * old(self).size,
            r < old(self).size,
            c < old(self).size,
        ensures
            final(self).size == old(self).size,
            final(self).status == old(self).status,
            final(self).cells@.len() == old(self).cells@.len(),
            final(self).cell(r as int, c as int) == (CellState {
                content: old(self).cell(r as int, c as int).content,
                uncovered: true,
                flagged: old(self).cell(r as int, c as int).flagged,
            }),
            final(self).cells@ == old(self).cells@.update(
                r as int * old(self).size + c as int,
                (CellState {
                    content: old(self).cell(r as int, c as int).content,
                    uncovered: true,
                    flagged: old(self).cell(r as int, c as int).flagged,
                }),
            ),
            forall|i: int, j: int|
                old(self).in_bounds(i, j) && !(i == r as int && j == c as int)
                    ==> #[trigger] final(self).cell(i, j) == old(self).cell(i, j),
    {
        let k = self.flat_index(r, c);
        let mut cs = self.cells[k];
        cs.uncovered = true;
        self.cells.set(k, cs);
        proof {
            assert forall|i: int, j: int|
                old(self).in_bounds(i, j) && !(i == r as int && j == c as int) implies #[trigger] self
                .cell(i, j) == old(self).cell(i, j) by {
                lemma_idx_bounds(self.size as int, i, j);
                if i * self.size as int + j == r as int * self.size as int + c as int {
                    lemma_idx_injective(self.size as int, i, j, r as int, c as int);
                }
            }
        }
    }

    /// Set the flag bit of exactly the cell `(r, c)`.
    fn set_flagged(&mut self, r: usize, c: usize, v: bool)
        requires
            old(self).cells@.len() == old(self).size * old(self).size,
            r < old(self).size,
            c < old(self).size,
        ensures
            final(self).size == old(self).size,
            final(self).status == old(self).status,
            final(self).cells@.len() == old(self).cells@.len(),
            final(self).cell(r as int, c as int) == (CellState {
                content: old(self).cell(r as int, c as int).content,
                uncovered: old(self).cell(r as int, c as int).uncovered,
                flagged: v,
            }),
            forall|i: int, j: int|
                old(self).in_bounds(i, j) && !(i == r as int && j == c as int)
                    ==> #[trigger] final(self).cell(i, j) == old(self).cell(i, j),
    {
        let k = self.flat_index(r, c);
        let mut cs = self.cells[k];
        cs.flagged = v;
        self.cells.set(k, cs);
        proof {
            assert forall|i: int, j: int|
                old(self).in_bounds(i, j) && !(i == r as int && j == c as int) implies #[trigger] self
                .cell(i, j) == old(self).cell(i, j) by {
                lemma_idx_bounds(self.size as int, i, j);
                if i * self.size as int + j == r as int * self.size as int + c as int {
                    lemma_idx_injective(self.size as int, i, j, r as int, c as int);
                }
            }
        }
    }

    /// Whether every non-mine cell is uncovered.
    pub(crate) fn check_win(&self) -> (won: bool)
        requires
            1 <= self.size,
            self.cells@.len() == self.size * self.size,
        ensures
            won == self.all_safe_uncovered(),
    {
        let mut r: usize = 0;
        while r < self.size
            invariant
                r <= self.size,
                1 <= self.size,
                self.cells@.len() == self.size * self.size,
                forall|i: int, j: int|
                    0 <= i < r && 0 <= j < self.size ==> ((#[trigger] self.cell(i, j)).content
                        is Mine || self.cell(i, j).uncovered),
            decreases self.size - r,
        {
            let mut c: usize = 0;
            while c < self.size
                invariant
                    r < self.size,
                    c <= self.size,
                    1 <= self.size,
                    self.cells@.len() == self.size * self.size,
                    forall|i: int, j: int|
                        0 <= i < r && 0 <= j < self.size ==> ((#[trigger] self.cell(i, j)).content
                            is Mine || self.cell(i, j).uncovered),
                    forall|j: int|
                        0 <= j < c ==> ((#[trigger] self.cell(r as int, j)).content is Mine
                            || self.cell(r as int, j).uncovered),
                decreases self.size - c,
            {
                let cs = self.cell_get(r, c);
                if !cs.uncovered && !matches!(cs.content, Cell::Mine) {
                    return false;
                }
                c = c + 1;
            }
            r = r + 1;
        }
        true
    }

    /// The stored outcome; under `wf` it is exactly what the grid determines.
    pub fn result(&self) -> (r: GameResult)
        requires
            self.wf(),
        ensures
            r == self.status,
            r == self.derived_result(),
    {
        self.status
    }

    pub fn is_out_of_bounds(&self, row: usize, col: usize) -> (r: bool)
        ensures
            r == !self.in_bounds(row as int, col as int),
    {
        row >= self.size || col >= self.size
    }

    /// The cell at `(row, col)`, or `None` exactly when out of range.
    pub fn cell_at(&self, row: usize, col: usize) -> (r: Option<CellState>)
        requires
            self.cells@.len() == self.size * self.size,
        ensures
            r is Some <==> self.in_bounds(row as int, col as int),
            self.in_bounds(row as int, col as int) ==> r == Some(
                self.cell(row as int, col as int),
            ),
    {
        if row < self.size && col < self.size {
            Some(self.cell_get(row, col))
        } else {
            None
        }
    }

    pub fn is_cell_flagged(&self, row: usize, col: usize) -> (r: bool)
        requires
            self.cells@.len() == self.size * self.size,
            row < self.size,
            col < self.size,
        ensures
            r == self.cell(row as int, col as int).flagged,
    {
        self.cell_get(row, col).flagged
    }

    pub fn is_cell_empty(&self, row: usize, col: usize) -> (r: bool)
        requires
            self.cells@.len() == self.size * self.size,
            row < self.size,
            col < self.size,
        ensures
            r == (self.cell(row as int, col as int).content is Empty),
    {
        self.cell_get(row, col).is_empty()
    }

    pub fn is_cell_mine(&self, row: usize, col: usize) -> (r: bool)
        requires
            self.cells@.len() == self.size * self.size,
            row < self.size,
            col < self.size,
        ensures
            r == (self.cell(row as int, col as int).content is Mine),
    {
        self.cell_get(row, col).is_mine()
    }

    /// Toggle the flag on a covered cell; see `toggle_transition`.
    pub fn toggle_flag(&mut self, row: usize, col: usize) -> (out: Result<
        ToggleOutcome,
        EngineError,
    >)
        requires
            old(self).wf(),
        ensures
            final(self).wf(),
            toggle_transition(*old(self), *final(self), row as int, col as int, out),
    {
        if row >= self.size || col >= self.size {
            return Err(EngineError::IndexOutOfBounds);
        }
        if !matches!(self.status, GameResult::InProgress) {
            return Ok(ToggleOutcome::NoOp);
        }
        let cs = self.cell_get(row, col);
        if cs.uncovered {
            return Ok(ToggleOutcome::NoOp);
        }
        self.set_flagged(row, col, !cs.flagged);
        proof {
            lemma_same_content_same_counts(*old(self), *self);
            lemma_same_uncovering_same_result(*old(self), *self);
            assert forall|r: int, c: int|
                self.in_bounds(r, c) && (#[trigger] self.cell(r, c)).flagged implies !self.cell(
                r,
                c,
            ).uncovered by {
                if !(r == row as int && c == col as int) {
                    assert(self.cell(r, c) == old(self).cell(r, c));
                }
            }
            assert forall|r: int, c: int|
                self.in_bounds(r, c) && !((#[trigger] self.cell(r, c)).content is Mine) implies self
                .cell(r, c).content == value_content(self.adj_mine_count(r, c)) by {
                assert(self.cell(r, c).content == old(self).cell(r, c).content);
                assert(self.adj_mine_count(r, c) == old(self).adj_mine_count(r, c));
            }
        }
        Ok(ToggleOutcome::Toggled)
    }
}

/// Whether `(r, c)` of a flat mine mask holds a mine.
fn mine_test(mines: &Vec<bool>, size: usize, r: usize, c: usize) -> (b: bool)
    requires
        mines@.len() == size * size,
        r < size,
        c < size,
    ensures
        b == mine_in(mines@, size as int, r as int, c as int),
{
    let total = mines.len();
    proof {
        lemma_idx_bounds(size as int, r as int, c as int);
        assert(r as int * size + c < total);
    }
    mines[r * size + c]
}

/// Count the mines among the Moore neighbors of `(r, c)`, clipping at edges.
fn count_adj_mines(mines: &Vec<bool>, size: usize, r: usize, c: usize) -> (n: u8)
    requires
        1 <= size,
        mines@.len() == size * size,
        r < size,
        c < size,
    ensures
        n as int == adj_mines(mines@, size as int, r as int, c as int),
        n <= 8,
{
    let mut n: u8 = 0;
    if r > 0 {
        if c > 0 && mine_test(mines, size, r - 1, c - 1) {
            n = n + 1;
        }
        if mine_test(mines, size, r - 1, c) {
            n = n + 1;
        }
        if c + 1 < size && mine_test(mines, size, r - 1, c + 1) {
            n = n + 1;
        }
    }
    if c > 0 && mine_test(mines, size, r, c - 1) {
        n = n + 1;
    }
    if c + 1 < size && mine_test(mines, size, r, c + 1) {
        n = n + 1;
    }
    if r + 1 < size {
        if c > 0 && mine_test(mines, size, r + 1, c - 1) {
            n = n + 1;
        }
        if mine_test(mines, size, r + 1, c) {
            n = n + 1;
        }
        if c + 1 < size && mine_test(mines, size, r + 1, c + 1) {
            n = n + 1;
        }
    }
    n
}

/// The fully generated state of cell `(r, c)`: its mine or neighbor-count
/// content, still covered and unflagged.
pub open spec fn finished_cell(mines: Seq<bool>, size: int, r: int, c: int) -> CellState {
    CellState {
        content: if mines[r * size + c] {
            Cell::Mine
        } else {
            value_content(adj_mines(mines, size, r, c))
        },
        uncovered: false,
        flagged: false,
    }
}

impl Board {
    /// Build a fresh board from a flat row-major mine mask: every cell starts
    /// covered and unflagged, mines sit exactly where the mask says, and every
    /// non-mine cell carries its neighbor-mine count.
    pub fn from_mines(size: usize, mines: &Vec<bool>) -> (b: Board)
        requires
            1 <= size,
            mines@.len() == size * size,
        ensures
            b.wf(),
            b.size == size,
            forall|r: int, c: int|
                b.in_bounds(r, c) ==> {
                    &&& !(#[trigger] b.cell(r, c)).uncovered
                    &&& !b.cell(r, c).flagged
                    &&& ((b.cell(r, c).content is Mine) == mine_in(mines@, size as int, r, c))
                },
    {
        let total = mines.len();
        let mut cells: Vec<CellState> = Vec::new();
        let mut k: usize = 0;
        while k < total
            invariant
                total == mines@.len(),
                mines@.len() == size * size,
                cells@.len() == k,
                k <= total,
                forall|k2: int|
                    0 <= k2 < k ==> (#[trigger] cells@[k2]) == (CellState {
                        content: if mines@[k2] {
                            Cell::Mine
                        } else {
                            Cell::Empty
                        },
                        uncovered: false,
                        flagged: false,
                    }),
            decreases total - k,
        {
            let content = if mines[k] {
                Cell::Mine
            } else {
                Cell::Empty
            };
            cells.push(CellState { content, uncovered: false, flagged: false });
            k = k + 1;
        }
        proof {
            assert(size * size <= usize::MAX);
            assert forall|i: int, j: int| 0 <= i < size && 0 <= j < size implies #[trigger] cell_in(
                cells@,
                size as int,
                i,
                j,
            ) == (CellState {
                content: if mines@[i * size + j] {
                    Cell::Mine
                } else {
                    Cell::Empty
                },
                uncovered: false,
                flagged: false,
            }) by {
                lemma_idx_bounds(size as int, i, j);
            }
        }
        let mut r: usize = 0;
        while r < size
            invariant
                1 <= size,
                r <= size,
                size * size <= usize::MAX,
                mines@.len() == size * size,
                cells@.len() == size * size,
                forall|i: int, j: int|
                    0 <= i < size && 0 <= j < size && i < r ==> #[trigger] cell_in(
                        cells@,
                        size as int,
                        i,
                        j,
                    ) == finished_cell(mines@, size as int, i, j),
                forall|i: int, j: int|
                    0 <= i < size && 0 <= j < size && i >= r ==> #[trigger] cell_in(
                        cells@,
                        size as int,
                        i,
                        j,
                    ) == (CellState {
                        content: if mines@[i * size + j] {
                            Cell::Mine
                        } else {
                            Cell::Empty
                        },
                        uncovered: false,
                        flagged: false,
                    }),
            decreases size - r,
        {
            let mut c: usize = 0;
            while c < size
                invariant
                    1 <= size,
                    r < size,
                    c <= size,
                    size * size <= usize::MAX,
                    mines@.len() == size * size,
                    cells@.len() == size * size,
                    forall|i: int, j: int|
                        0 <= i < size && 0 <= j < size && (i < r || (i == r && j < c))
                            ==> #[trigger] cell_in(cells@, size as int, i, j) == finished_cell(
                            mines@,
                            size as int,
                            i,
                            j,
                        ),
                    forall|i: int, j: int|
                        0 <= i < size && 0 <= j < size && (i > r || (i == r && j >= c))
                            ==> #[trigger] cell_in(cells@, size as int, i, j) == (CellState {
                            content: if mines@[i * size + j] {
                                Cell::Mine
                            } else {
                                Cell::Empty
                            },
                            uncovered: false,
                            flagged: false,
                        }),
                decreases size - c,
            {
                proof {
                    lemma_idx_bounds(size as int, r as int, c as int);
                }
                let ki = r * size + c;
                let ghost prev = cells@;
                if !mines[ki] {
                    let cnt = count_adj_mines(mines, size, r, c);
                    if cnt > 0 {
                        cells.set(
                            ki,
                            CellState {
                                content: Cell::Value(cnt as i32),
                                uncovered: false,
                                flagged: false,
                            },
                        );
                    }
                }
                proof {
                    assert forall|i: int, j: int|
                        0 <= i < size && 0 <= j < size && !(i == r as int && j
                            == c as int) implies #[trigger] cell_in(cells@, size as int, i, j)
                        == cell_in(prev, size as int, i, j) by {
                        lemma_idx_bounds(size as int, i, j);
                        if i * size as int + j == r as int * size as int + c as int {
                            lemma_idx_injective(size as int, i, j, r as int, c as int);
                        }
                    }
                    assert(cell_in(cells@, size as int, r as int, c as int) == finished_cell(
                        mines@,
                        size as int,
                        r as int,
                        c as int,
                    ));
                }
                c = c + 1;
            }
            r = r + 1;
        }
        let mut b = Board { size, cells, status: GameResult::InProgress };
        proof {
            assert forall|i: int, j: int| b.in_bounds(i, j) implies #[trigger] b.cell(i, j)
                == finished_cell(mines@, size as int, i, j) by {
                lemma_idx_bounds(size as int, i, j);
            }
            assert forall|i: int, j: int|
                b.in_bounds(i, j) && !((#[trigger] b.cell(i, j)).content is Mine) implies b.cell(
                i,
                j,
            ).content == value_content(b.adj_mine_count(i, j)) by {
                lemma_counts_from_mask(b, mines@, i, j);
            }
            assert(b.grid_wf());
            assert(!b.mine_uncovered());
        }
        let ghost b0 = b;
        let won = b.check_win();
        if won {
            b.status = GameResult::Won;
        }
        proof {
            lemma_same_cells_same_grid(b0, b);
        }
        b
    }

    /// Build a `size x size` board where each cell is independently a mine
    /// with probability `mine_percent / 100`, then fill in neighbor counts.
    pub fn new(size: usize, mine_percent: u64) -> (b: Board)
        requires
            1 <= size,
            size * size <= usize::MAX,
            0 < mine_percent < 100,
        ensures
            b.wf(),
            b.size == size,
            forall|r: int, c: int|
                b.in_bounds(r, c) ==> !(#[trigger] b.cell(r, c)).uncovered && !b.cell(
                    r,
                    c,
                ).flagged,
    {
        let total = size * size;
        let mut mines: Vec<bool> = Vec::new();
        let mut k: usize = 0;
        while k < total
            invariant
                mines@.len() == k,
                k <= total,
            decreases total - k,
        {
            let m = random_below(100) < mine_percent;
            mines.push(m);
            k = k + 1;
        }
        Board::from_mines(size, &mines)
    }
}

/// On a board whose mines sit exactly where a mask says, the board's own
/// neighbor-mine count agrees with the mask's.
proof fn lemma_counts_from_mask(b: Board, mines: Seq<bool>, r: int, c: int)
    requires
        mines.len() == b.size * b.size,
        b.cells@.len() == b.size * b.size,
        forall|i: int, j: int|
            b.in_bounds(i, j) ==> ((#[trigger] b.cell(i, j)).content is Mine) == mine_in(
                mines,
                b.size as int,
                i,
                j,
            ),
    ensures
        b.adj_mine_count(r, c) == adj_mines(mines, b.size as int, r, c),
{
    assert forall|i: int, j: int| #[trigger] b.mine_at(i, j) == mine_in(mines, b.size as int, i, j)
        by {
        if b.in_bounds(i, j) {
            assert(((b.cell(i, j)).content is Mine) == mine_in(mines, b.size as int, i, j));
        }
    }
    assert(b.mine_at(r - 1, c - 1) == mine_in(mines, b.size as int, r - 1, c - 1));
    assert(b.mine_at(r - 1, c) == mine_in(mines, b.size as int, r - 1, c));
    assert(b.mine_at(r - 1, c + 1) == mine_in(mines, b.size as int, r - 1, c + 1));
    assert(b.mine_at(r, c - 1) == mine_in(mines, b.size as int, r, c - 1));
    assert(b.mine_at(r, c + 1) == mine_in(mines, b.size as int, r, c + 1));
    assert(b.mine_at(r + 1, c - 1) == mine_in(mines, b.size as int, r + 1, c - 1));
    assert(b.mine_at(r + 1, c) == mine_in(mines, b.size as int, r + 1, c));
    assert(b.mine_at(r + 1, c + 1) == mine_in(mines, b.size as int, r + 1, c + 1));
}

} // verus!
