//! The mathematical model of a board: a row-major grid of decoded tiles.
use vstd::prelude::*;
use crate::tile::{Kind, Tile};

verus! {

/// Horizontal offset of the `k`-th neighbour, neighbours taken row by row.
pub open spec fn off_x(k: int) -> int {
    if k == 0 || k == 3 || k == 5 {
        -1
    } else if k == 1 || k == 6 {
        0
    } else {
        1
    }
}

/// Vertical offset of the `k`-th neighbour.
pub open spec fn off_y(k: int) -> int {
    if k <= 2 {
        -1
    } else if k <= 4 {
        0
    } else {
        1
    }
}

/// The position of the offset `(dx, dy)` in the neighbour order.
pub open spec fn dir(dx: int, dy: int) -> int {
    let i = (dy + 1) * 3 + (dx + 1);
    if i < 4 {
        i
    } else {
        i - 1
    }
}

/// Chebyshev distance at most one.
pub open spec fn near(x1: int, y1: int, x2: int, y2: int) -> bool {
    -1 <= x1 - x2 <= 1 && -1 <= y1 - y2 <= 1
}

/// Distinct cells of the same 3x3 block.
pub open spec fn adjacent(x1: int, y1: int, x2: int, y2: int) -> bool {
    near(x1, y1, x2, y2) && !(x1 == x2 && y1 == y2)
}

/// The number of tiles of `s` on which `p` holds.
pub open spec fn count_tiles(s: Seq<Tile>, p: spec_fn(Tile) -> bool) -> nat
    decreases s.len(),
{
    if s.len() == 0 {
        0
    } else {
        count_tiles(s.drop_last(), p) + if p(s.last()) {
            1nat
        } else {
            0nat
        }
    }
}

pub open spec fn is_hidden_safe(t: Tile) -> bool {
    !t.revealed && t.kind != Kind::Mine
}

/// Cells that are neither revealed nor mines: what is left to clear.
pub open spec fn hidden_safe(s: Seq<Tile>) -> nat {
    count_tiles(s, |t: Tile| is_hidden_safe(t))
}

pub open spec fn mines_in(s: Seq<Tile>) -> nat {
    count_tiles(s, |t: Tile| t.kind == Kind::Mine)
}

pub open spec fn flags_in(s: Seq<Tile>) -> nat {
    count_tiles(s, |t: Tile| t.flagged)
}

pub open spec fn revealed_in(s: Seq<Tile>) -> nat {
    count_tiles(s, |t: Tile| t.revealed)
}

pub open spec fn ind(b: bool) -> int {
    if b {
        1
    } else {
        0
    }
}

/// Changing one tile changes a count by what the tile contributes.
pub proof fn lemma_count_update(s: Seq<Tile>, p: spec_fn(Tile) -> bool, i: int, t: Tile)
    requires
        0 <= i < s.len(),
    ensures
        count_tiles(s.update(i, t), p) + ind(p(s[i])) == count_tiles(s, p) + ind(p(t)),
    decreases s.len(),
{
    let u = s.update(i, t);
    if i == s.len() - 1 {
        assert(u.drop_last() =~= s.drop_last());
    } else {
        assert(u.drop_last() =~= s.drop_last().update(i, t));
        lemma_count_update(s.drop_last(), p, i, t);
    }
}

pub proof fn lemma_count_le(s: Seq<Tile>, p: spec_fn(Tile) -> bool)
    ensures
        count_tiles(s, p) <= s.len(),
    decreases s.len(),
{
    if s.len() > 0 {
        lemma_count_le(s.drop_last(), p);
    }
}

/// A sequence of cleared tiles counts `p` on every tile or on none.
pub proof fn lemma_count_constant(s: Seq<Tile>, p: spec_fn(Tile) -> bool, t: Tile)
    requires
        forall|i: int| 0 <= i < s.len() ==> s[i] == t,
    ensures
        count_tiles(s, p) == if p(t) {
            s.len()
        } else {
            0
        },
    decreases s.len(),
{
    if s.len() > 0 {
        lemma_count_constant(s.drop_last(), p, t);
    }
}

/// A board of `width` by `height` tiles, with the number of cells left to clear.
pub struct Grid {
    pub width: int,
    pub height: int,
    pub tiles: Seq<Tile>,
    pub tiles_left: int,
}

impl Grid {
    pub open spec fn in_bounds(self, x: int, y: int) -> bool {
        0 <= x < self.width && 0 <= y < self.height
    }

    pub open spec fn index(self, x: int, y: int) -> int {
        y * self.width + x
    }

    pub open spec fn tile(self, x: int, y: int) -> Tile {
        self.tiles[self.index(x, y)]
    }

    /// The shape of the grid: at least one cell, at most what a `u16` counts.
    pub open spec fn wf(self) -> bool {
        &&& self.width >= 1
        &&& self.height >= 1
        &&& self.width * self.height <= u16::MAX
        &&& self.tiles.len() == self.width * self.height
    }

    pub open spec fn mine_at(self, x: int, y: int) -> int {
        if self.in_bounds(x, y) && self.tile(x, y).kind == Kind::Mine {
            1
        } else {
            0
        }
    }

    /// Mines in the 8-neighbourhood of `(x, y)`.
    pub open spec fn neighbor_mines(self, x: int, y: int) -> int {
        self.mine_at(x - 1, y - 1) + self.mine_at(x, y - 1) + self.mine_at(x + 1, y - 1)
            + self.mine_at(x - 1, y) + self.mine_at(x + 1, y) + self.mine_at(x - 1, y + 1)
            + self.mine_at(x, y + 1) + self.mine_at(x + 1, y + 1)
    }

    /// A tile agrees with the mines around it.
    pub open spec fn cell_ok(self, x: int, y: int) -> bool {
        let t = self.tile(x, y);
        &&& t.kind != Kind::Reserved
        &&& t.kind != Kind::Mine ==> t.adjacent == self.neighbor_mines(x, y)
        &&& t.kind != Kind::Mine ==> (t.kind == Kind::Empty <==> self.neighbor_mines(x, y) == 0)
    }

    /// Every count is exact and `tiles_left` counts the hidden safe cells.
    pub open spec fn consistent(self) -> bool {
        &&& self.wf()
        &&& self.tiles_left == hidden_safe(self.tiles)
        &&& forall|x: int, y: int| self.in_bounds(x, y) ==> #[trigger] self.cell_ok(x, y)
    }

    pub open spec fn set_tile(self, x: int, y: int, t: Tile) -> Grid {
        Grid { tiles: self.tiles.update(self.index(x, y), t), ..self }
    }

    /// The tiles of `other` differ from these in the revealed mark at most.
    pub open spec fn same_but_revealed(self, other: Grid) -> bool {
        &&& other.width == self.width
        &&& other.height == self.height
        &&& other.tiles.len() == self.tiles.len()
        &&& forall|x: int, y: int|
            #![trigger other.tile(x, y)]
            self.in_bounds(x, y) ==> other.tile(x, y) == (Tile {
                revealed: other.tile(x, y).revealed,
                ..self.tile(x, y)
            })
    }

    /// Cells that a flood fill may pass through.
    pub open spec fn passable(self, x: int, y: int) -> bool {
        &&& self.in_bounds(x, y)
        &&& self.tile(x, y).kind == Kind::Empty
        &&& !self.tile(x, y).flagged
        &&& !self.tile(x, y).revealed
    }

    /// A chain of passable cells, each adjacent to the next.
    pub open spec fn is_path(self, p: Seq<(int, int)>) -> bool {
        &&& p.len() >= 1
        &&& forall|i: int| 0 <= i < p.len() ==> self.passable(#[trigger] p[i].0, p[i].1)
        &&& forall|i: int|
            0 <= i < p.len() - 1 ==> adjacent(#[trigger] p[i].0, p[i].1, p[i + 1].0, p[i + 1].1)
    }

    /// `(x, y)` is reached from `(sx, sy)` through passable cells.
    pub open spec fn reachable(self, sx: int, sy: int, x: int, y: int) -> bool {
        exists|p: Seq<(int, int)>|
            #[trigger] self.is_path(p) && p[0] == (sx, sy) && p.last() == (x, y)
    }

    /// An unflagged cell next to the region reached from `(sx, sy)`.
    pub open spec fn borders(self, sx: int, sy: int, x: int, y: int) -> bool {
        &&& !self.tile(x, y).flagged
        &&& exists|nx: int, ny: int|
            adjacent(x, y, nx, ny) && #[trigger] self.reachable(sx, sy, nx, ny)
    }

    /// What a flood fill from `(sx, sy)` reveals: the region and its border.
    pub open spec fn flood(self, sx: int, sy: int, x: int, y: int) -> bool {
        self.reachable(sx, sy, x, y) || self.borders(sx, sy, x, y)
    }
}

/// Cells of one grid have distinct indices inside the sequence.
pub proof fn lemma_index(g: Grid, x1: int, y1: int, x2: int, y2: int)
    requires
        g.wf(),
        g.in_bounds(x1, y1),
        g.in_bounds(x2, y2),
    ensures
        0 <= g.index(x1, y1) < g.tiles.len(),
        g.index(x1, y1) == g.index(x2, y2) ==> x1 == x2 && y1 == y2,
{
    let w = g.width;
    let h = g.height;
    assert(0 <= y1 * w + x1 < w * h) by (nonlinear_arith)
        requires
            0 <= x1 < w,
            0 <= y1 < h,
    ;
    if y1 < y2 {
        assert(y1 * w + x1 < y2 * w + x2) by (nonlinear_arith)
            requires
                0 <= x1 < w,
                0 <= x2,
                y1 < y2,
        ;
    } else if y2 < y1 {
        assert(y2 * w + x2 < y1 * w + x1) by (nonlinear_arith)
            requires
                0 <= x2 < w,
                0 <= x1,
                y2 < y1,
        ;
    }
}

/// Setting one tile leaves the others as they were.
pub proof fn lemma_set_tile(g: Grid, x0: int, y0: int, t: Tile)
    requires
        g.wf(),
        g.in_bounds(x0, y0),
    ensures
        g.set_tile(x0, y0, t).wf(),
        forall|x: int, y: int|
            #![trigger g.set_tile(x0, y0, t).tile(x, y)]
            g.in_bounds(x, y) ==> g.set_tile(x0, y0, t).tile(x, y) == if x == x0 && y == y0 {
                t
            } else {
                g.tile(x, y)
            },
{
    lemma_index(g, x0, y0, x0, y0);
    assert forall|x: int, y: int| g.in_bounds(x, y) implies g.set_tile(x0, y0, t).tile(x, y) == if x
        == x0 && y == y0 {
        t
    } else {
        g.tile(x, y)
    } by {
        lemma_index(g, x, y, x0, y0);
        lemma_index(g, x0, y0, x, y);
    }
}

/// Every index of the sequence is the index of a cell.
pub proof fn lemma_index_cell(g: Grid, i: int)
    requires
        g.wf(),
        0 <= i < g.tiles.len(),
    ensures
        g.in_bounds(i % g.width, i / g.width),
        g.index(i % g.width, i / g.width) == i,
{
    let w = g.width;
    let h = g.height;
    assert(0 <= i / w < h && 0 <= i % w < w && (i / w) * w + i % w == i) by (nonlinear_arith)
        requires
            w >= 1,
            0 <= i < w * h,
    ;
}

/// No mine touches a cell whose count is zero.
pub proof fn lemma_no_mine_near_empty(g: Grid, x: int, y: int, nx: int, ny: int)
    requires
        g.consistent(),
        g.in_bounds(x, y),
        g.tile(x, y).kind == Kind::Empty,
        adjacent(x, y, nx, ny),
        g.in_bounds(nx, ny),
    ensures
        g.tile(nx, ny).kind != Kind::Mine,
{
    assert(g.cell_ok(x, y));
    assert(g.mine_at(nx, ny) == 0);
}

/// Some entry of the worklist `s` is the cell `(x, y)`.
pub open spec fn pending(s: Seq<(usize, usize)>, x: int, y: int) -> bool {
    exists|i: int| 0 <= i < s.len() && s[i].0 == x && s[i].1 == y
}

/// Every in-bounds neighbour of `(x, y)` is revealed in `g` or flagged in `g0`.
pub open spec fn closed(g0: Grid, g: Grid, x: int, y: int) -> bool {
    forall|p: int, q: int|
        #![trigger g.tile(p, q)]
        adjacent(x, y, p, q) && g0.in_bounds(p, q) ==> g.tile(p, q).revealed || g0.tile(p, q).flagged
}

/// Extending a path by an adjacent passable cell gives a path.
pub proof fn lemma_path_push(g: Grid, p: Seq<(int, int)>, x: int, y: int)
    requires
        g.is_path(p),
        adjacent(p.last().0, p.last().1, x, y),
        g.passable(x, y),
    ensures
        g.is_path(p.push((x, y))),
        p.push((x, y))[0] == p[0],
        p.push((x, y)).last() == (x, y),
{
    let q = p.push((x, y));
    assert forall|i: int| 0 <= i < q.len() implies g.passable(#[trigger] q[i].0, q[i].1) by {
        if i < p.len() {
            assert(q[i] == p[i]);
        }
    }
    assert forall|i: int| 0 <= i < q.len() - 1 implies adjacent(
        #[trigger] q[i].0,
        q[i].1,
        q[i + 1].0,
        q[i + 1].1,
    ) by {
        if i < p.len() - 1 {
            assert(q[i] == p[i] && q[i + 1] == p[i + 1]);
        }
    }
}

/// Once every revealed passable cell has its neighbours revealed or
/// flagged, a path from a revealed start is revealed all along.
pub proof fn lemma_path_revealed(g0: Grid, g: Grid, p: Seq<(int, int)>, i: int)
    requires
        g0.is_path(p),
        g.tile(p[0].0, p[0].1).revealed,
        forall|x: int, y: int|
            g0.passable(x, y) && #[trigger] g.tile(x, y).revealed ==> closed(g0, g, x, y),
        0 <= i < p.len(),
    ensures
        g.tile(p[i].0, p[i].1).revealed,
    decreases i,
{
    if i > 0 {
        lemma_path_revealed(g0, g, p, i - 1);
        assert(g0.passable(p[i - 1].0, p[i - 1].1));
        assert(adjacent(p[i - 1].0, p[i - 1].1, p[i].0, p[i].1));
        assert(g0.passable(p[i].0, p[i].1));
        assert(closed(g0, g, p[i - 1].0, p[i - 1].1));
    }
}

/// A passable cell reaches itself.
pub proof fn lemma_reach_self(g: Grid, x: int, y: int)
    requires
        g.passable(x, y),
    ensures
        g.reachable(x, y, x, y),
{
    let p = seq![(x, y)];
    assert(g.is_path(p));
}

/// Revealing more cells keeps a cell closed.
pub proof fn lemma_closed_mono(g0: Grid, g: Grid, h: Grid, x: int, y: int)
    requires
        closed(g0, g, x, y),
        forall|a: int, b: int|
            #![trigger h.tile(a, b)]
            g0.in_bounds(a, b) && g.tile(a, b).revealed ==> h.tile(a, b).revealed,
    ensures
        closed(g0, h, x, y),
{
    assert forall|p: int, q: int| adjacent(x, y, p, q) && g0.in_bounds(p, q) implies #[trigger] h.tile(
        p,
        q,
    ).revealed || g0.tile(p, q).flagged by {
        assert(g.tile(p, q).revealed || g0.tile(p, q).flagged);
    }
}

/// An entry of a worklist stays one when another is pushed.
pub proof fn lemma_pending_push(s: Seq<(usize, usize)>, e: (usize, usize), x: int, y: int)
    requires
        pending(s, x, y),
    ensures
        pending(s.push(e), x, y),
{
    let i = choose|i: int| 0 <= i < s.len() && s[i].0 == x && s[i].1 == y;
    assert(s.push(e)[i] == s[i]);
}

/// Popping the last entry keeps every other cell pending.
pub proof fn lemma_pending_pop(s: Seq<(usize, usize)>, x: int, y: int)
    requires
        pending(s, x, y),
        s.len() > 0,
        !(s.last().0 == x && s.last().1 == y),
    ensures
        pending(s.drop_last(), x, y),
{
    let i = choose|i: int| 0 <= i < s.len() && s[i].0 == x && s[i].1 == y;
    assert(s.drop_last()[i] == s[i]);
}

/// A tile on which `p` holds is counted.
pub proof fn lemma_count_pos(s: Seq<Tile>, p: spec_fn(Tile) -> bool, i: int)
    requires
        0 <= i < s.len(),
        p(s[i]),
    ensures
        count_tiles(s, p) >= 1,
    decreases s.len(),
{
    if i < s.len() - 1 {
        assert(s.drop_last()[i] == s[i]);
        lemma_count_pos(s.drop_last(), p, i);
    }
}

/// On a cleared board every safe cell is revealed.
pub proof fn lemma_cleared_all_revealed(g: Grid, x: int, y: int)
    requires
        g.consistent(),
        g.tiles_left == 0,
        g.in_bounds(x, y),
        g.tile(x, y).kind != Kind::Mine,
    ensures
        g.tile(x, y).revealed,
{
    lemma_index(g, x, y, x, y);
    if !g.tile(x, y).revealed {
        lemma_count_pos(g.tiles, |t: Tile| is_hidden_safe(t), g.index(x, y));
    }
}

} // verus!
