//! The grid of packed tiles and the rules that change it.
use vstd::prelude::*;
use crate::grid::{
    adjacent, closed, count_tiles, dir, flags_in, hidden_safe, ind, is_hidden_safe,
    lemma_closed_mono, lemma_count_constant, lemma_count_le, lemma_count_update, lemma_index,
    lemma_index_cell, lemma_no_mine_near_empty, lemma_path_push, lemma_path_revealed,
    lemma_pending_pop, lemma_pending_push, lemma_reach_self, lemma_set_tile, mines_in, near, off_x,
    off_y, pending, revealed_in, Grid,
};
use crate::random::random_below;
use crate::tile::{
    decode, decode_spec, encode, encode_spec, lemma_decoded_count_small, lemma_encode_decode,
    lemma_zero_byte, zero_tile, Kind, Tile,
};

verus! {

/// A `width` by `height` grid of packed tiles, stored row-major, with the
/// number of safe cells not yet revealed.
pub struct Board {
    width: usize,
    height: usize,
    cells: Vec<u8>,
    tiles_left: u16,
}

/// What revealing a cell did.
#[derive(Clone, Copy, PartialEq, Eq, Structural, Debug)]
pub enum RevealOutcome {
    /// The cell was already revealed or is flagged: nothing changed.
    NoOp,
    /// This many safe cells were revealed.
    Cleared(u16),
    /// The cell holds a mine; the board is unchanged.
    HitMine,
}

/// A flood fill never reaches a mine: the region is empty cells, and the
/// cells around an empty cell hold no mine.
pub proof fn lemma_flood_avoids_mines(g: Grid, sx: int, sy: int, a: int, b: int)
    requires
        g.consistent(),
        g.in_bounds(a, b),
        g.flood(sx, sy, a, b),
    ensures
        g.tile(a, b).kind != Kind::Mine,
{
    if g.reachable(sx, sy, a, b) {
        let p = choose|p: Seq<(int, int)>|
            #[trigger] g.is_path(p) && p[0] == (sx, sy) && p.last() == (a, b);
        assert(g.passable(p[p.len() - 1].0, p[p.len() - 1].1));
    } else {
        let (d, e) = choose|d: int, e: int| adjacent(a, b, d, e) && #[trigger] g.reachable(sx, sy, d, e);
        let p = choose|p: Seq<(int, int)>|
            #[trigger] g.is_path(p) && p[0] == (sx, sy) && p.last() == (d, e);
        assert(g.passable(p[p.len() - 1].0, p[p.len() - 1].1));
        lemma_no_mine_near_empty(g, d, e, a, b);
    }
}

/// A flood fill never reaches a flagged cell.
pub proof fn lemma_flood_unflagged(g: Grid, sx: int, sy: int, a: int, b: int)
    requires
        g.flood(sx, sy, a, b),
    ensures
        !g.tile(a, b).flagged,
{
    if g.reachable(sx, sy, a, b) {
        let p = choose|p: Seq<(int, int)>|
            #[trigger] g.is_path(p) && p[0] == (sx, sy) && p.last() == (a, b);
        assert(g.passable(p[p.len() - 1].0, p[p.len() - 1].1));
    }
}

/// A reveal from `(x, y)` where a blocked start reaches nothing.
pub proof fn lemma_blocked_floods_nothing(g: Grid, sx: int, sy: int, a: int, b: int)
    requires
        !g.passable(sx, sy),
    ensures
        !g.flood(sx, sy, a, b),
{
    if g.reachable(sx, sy, a, b) {
        let p = choose|p: Seq<(int, int)>|
            #[trigger] g.is_path(p) && p[0] == (sx, sy) && p.last() == (a, b);
        assert(g.passable(p[0].0, p[0].1));
    }
    if g.borders(sx, sy, a, b) {
        let (d, e) = choose|d: int, e: int| adjacent(a, b, d, e) && #[trigger] g.reachable(sx, sy, d, e);
        let p = choose|p: Seq<(int, int)>|
            #[trigger] g.is_path(p) && p[0] == (sx, sy) && p.last() == (d, e);
        assert(g.passable(p[0].0, p[0].1));
    }
}

/// A tile after a mine was placed on it.
pub open spec fn as_mine(t: Tile) -> Tile {
    Tile { kind: Kind::Mine, adjacent: 0, ..t }
}

/// A tile after a mine was placed next to it.
pub open spec fn bumped(t: Tile) -> Tile {
    Tile { kind: Kind::Number, adjacent: (t.adjacent + 1) as u8, ..t }
}

/// What placing a mine at `(mx, my)` makes of the tile at `(x, y)`.
pub open spec fn after_mine(g: Grid, mx: int, my: int, x: int, y: int) -> Tile {
    if x == mx && y == my {
        as_mine(g.tile(x, y))
    } else if adjacent(x, y, mx, my) && g.tile(x, y).kind != Kind::Mine {
        bumped(g.tile(x, y))
    } else {
        g.tile(x, y)
    }
}

/// Two grids of one shape whose tiles agree in kind and count.
pub open spec fn same_layout(g: Grid, h: Grid) -> bool {
    &&& h.width == g.width
    &&& h.height == g.height
    &&& h.tiles.len() == g.tiles.len()
    &&& forall|x: int, y: int|
        #![trigger h.tile(x, y)]
        g.in_bounds(x, y) ==> h.tile(x, y).kind == g.tile(x, y).kind && h.tile(x, y).adjacent
            == g.tile(x, y).adjacent
}

/// Counts agree on grids whose tiles agree on the counted property.
pub proof fn lemma_count_pointwise(g: Grid, h: Grid, p: spec_fn(Tile) -> bool)
    requires
        g.wf(),
        h.tiles.len() == g.tiles.len(),
        forall|x: int, y: int| g.in_bounds(x, y) ==> p(#[trigger] h.tiles[g.index(x, y)]) == p(
            g.tiles[g.index(x, y)],
        ),
    ensures
        count_tiles(h.tiles, p) == count_tiles(g.tiles, p),
{
    assert forall|i: int| 0 <= i < g.tiles.len() implies p(h.tiles[i]) == p(g.tiles[i]) by {
        lemma_index_cell(g, i);
        let x = i % g.width;
        let y = i / g.width;
        assert(p(h.tiles[g.index(x, y)]) == p(g.tiles[g.index(x, y)]));
    }
    lemma_count_seq(g.tiles, h.tiles, p);
}

pub proof fn lemma_count_seq(s: Seq<Tile>, t: Seq<Tile>, p: spec_fn(Tile) -> bool)
    requires
        s.len() == t.len(),
        forall|i: int| 0 <= i < s.len() ==> p(#[trigger] t[i]) == p(s[i]),
    ensures
        count_tiles(t, p) == count_tiles(s, p),
    decreases s.len(),
{
    if s.len() > 0 {
        assert forall|i: int| 0 <= i < s.len() - 1 implies p(#[trigger] t.drop_last()[i]) == p(
            s.drop_last()[i],
        ) by {
            assert(p(t[i]) == p(s[i]));
        }
        lemma_count_seq(s.drop_last(), t.drop_last(), p);
    }
}

/// A grid whose tiles keep their kinds and counts stays consistent.
pub proof fn lemma_same_layout_consistent(g: Grid, h: Grid)
    requires
        g.consistent(),
        same_layout(g, h),
        h.tiles_left == hidden_safe(h.tiles),
    ensures
        h.consistent(),
{
    assert forall|x: int, y: int| #[trigger] h.mine_at(x, y) == g.mine_at(x, y) by {
        if g.in_bounds(x, y) {
            assert(h.tile(x, y).kind == g.tile(x, y).kind);
        }
    }
    assert forall|x: int, y: int| h.in_bounds(x, y) implies #[trigger] h.cell_ok(x, y) by {
        assert(g.cell_ok(x, y));
        assert(h.tile(x, y).kind == g.tile(x, y).kind);
    }
}

/// A grid of cleared tiles is consistent.
pub proof fn lemma_cleared_consistent(g: Grid)
    requires
        g.wf(),
        forall|i: int| 0 <= i < g.tiles.len() ==> g.tiles[i] == zero_tile(),
        g.tiles_left == g.tiles.len(),
    ensures
        g.consistent(),
        mines_in(g.tiles) == 0,
        flags_in(g.tiles) == 0,
        revealed_in(g.tiles) == 0,
{
    lemma_count_constant(g.tiles, |t: Tile| is_hidden_safe(t), zero_tile());
    lemma_count_constant(g.tiles, |t: Tile| t.kind == Kind::Mine, zero_tile());
    lemma_count_constant(g.tiles, |t: Tile| t.flagged, zero_tile());
    lemma_count_constant(g.tiles, |t: Tile| t.revealed, zero_tile());
    assert forall|x: int, y: int| #[trigger] g.mine_at(x, y) == 0 by {
        if g.in_bounds(x, y) {
            lemma_index(g, x, y, x, y);
        }
    }
    assert forall|x: int, y: int| g.in_bounds(x, y) implies #[trigger] g.cell_ok(x, y) by {
        lemma_index(g, x, y, x, y);
    }
}

/// What placing one mine at `(xi, yi)` leaves: `f` against `g`.
pub open spec fn placed_from(g: Grid, f: Grid, xi: int, yi: int) -> bool {
    &&& g.consistent()
    &&& g.in_bounds(xi, yi)
    &&& g.tile(xi, yi).kind != Kind::Mine
    &&& !g.tile(xi, yi).revealed
    &&& f.width == g.width
    &&& f.height == g.height
    &&& f.tiles.len() == g.tiles.len()
    &&& f.tiles_left == g.tiles_left - 1
    &&& forall|a: int, b: int|
        #![trigger f.tile(a, b)]
        g.in_bounds(a, b) ==> f.tile(a, b) == after_mine(g, xi, yi, a, b)
}

proof fn lemma_after_mine_cell(g: Grid, f: Grid, xi: int, yi: int, a: int, b: int)
    requires
        g.cell_ok(a, b),
        g.in_bounds(xi, yi),
        g.tile(xi, yi).kind != Kind::Mine,
        f.tile(a, b) == after_mine(g, xi, yi, a, b),
        forall|p: int, q: int| #[trigger] f.mine_at(p, q) == g.mine_at(p, q) + ind(p == xi && q == yi),
    ensures
        f.cell_ok(a, b),
{
    assert(f.mine_at(a - 1, b - 1) == g.mine_at(a - 1, b - 1) + ind(a - 1 == xi && b - 1 == yi));
    assert(f.mine_at(a, b - 1) == g.mine_at(a, b - 1) + ind(a == xi && b - 1 == yi));
    assert(f.mine_at(a + 1, b - 1) == g.mine_at(a + 1, b - 1) + ind(a + 1 == xi && b - 1 == yi));
    assert(f.mine_at(a - 1, b) == g.mine_at(a - 1, b) + ind(a - 1 == xi && b == yi));
    assert(f.mine_at(a + 1, b) == g.mine_at(a + 1, b) + ind(a + 1 == xi && b == yi));
    assert(f.mine_at(a - 1, b + 1) == g.mine_at(a - 1, b + 1) + ind(a - 1 == xi && b + 1 == yi));
    assert(f.mine_at(a, b + 1) == g.mine_at(a, b + 1) + ind(a == xi && b + 1 == yi));
    assert(f.mine_at(a + 1, b + 1) == g.mine_at(a + 1, b + 1) + ind(a + 1 == xi && b + 1 == yi));
    assert(f.neighbor_mines(a, b) == g.neighbor_mines(a, b) + ind(adjacent(a, b, xi, yi)));
}

proof fn lemma_after_mine_cells(g: Grid, f: Grid, xi: int, yi: int)
    requires
        placed_from(g, f, xi, yi),
    ensures
        forall|a: int, b: int| g.in_bounds(a, b) ==> #[trigger] f.cell_ok(a, b),
{
    assert forall|a: int, b: int| #[trigger] f.mine_at(a, b) == g.mine_at(a, b) + ind(
        a == xi && b == yi,
    ) by {
        if g.in_bounds(a, b) {
            assert(f.tile(a, b) == after_mine(g, xi, yi, a, b));
        }
    }
    assert forall|a: int, b: int| g.in_bounds(a, b) implies #[trigger] f.cell_ok(a, b) by {
        assert(g.cell_ok(a, b));
        lemma_after_mine_cell(g, f, xi, yi, a, b);
    }
}

proof fn lemma_after_mine_pointwise(g: Grid, f: Grid, xi: int, yi: int, j: int)
    requires
        placed_from(g, f, xi, yi),
        0 <= j < g.tiles.len(),
    ensures
        ({
            let h = g.tiles.update(g.index(xi, yi), as_mine(g.tile(xi, yi)));
            &&& is_hidden_safe(f.tiles[j]) == is_hidden_safe(h[j])
            &&& (f.tiles[j].kind == Kind::Mine) == (h[j].kind == Kind::Mine)
            &&& f.tiles[j].flagged == h[j].flagged
            &&& f.tiles[j].revealed == h[j].revealed
        }),
{
    lemma_index_cell(g, j);
    let (a, b) = (j % g.width, j / g.width);
    lemma_index(g, a, b, xi, yi);
    lemma_index(g, xi, yi, a, b);
    assert(f.tile(a, b) == after_mine(g, xi, yi, a, b));
}

/// Cells of `0..n` at distance at most one from `a`.
pub open spec fn zone_width(a: int, n: int) -> int {
    let lo = if a - 1 > 0 {
        a - 1
    } else {
        0
    };
    let hi = if n < a + 2 {
        n
    } else {
        a + 2
    };
    if hi > lo {
        hi - lo
    } else {
        0
    }
}

/// Cells of a `w` by `h` board outside the 3x3 block around `(ax, ay)`.
pub open spec fn eligible(w: int, h: int, ax: int, ay: int) -> int {
    w * h - zone_width(ax, w) * zone_width(ay, h)
}

/// The most cells that the 3x3 block around a cell covers on a `w` by `h`
/// board.
pub open spec fn widest_zone(w: int, h: int) -> int {
    (if w < 3 {
        w
    } else {
        3
    }) * (if h < 3 {
        h
    } else {
        3
    })
}

/// The 3x3 block never covers more than nine cells, nor more than the board.
pub proof fn lemma_widest_zone(w: int, h: int)
    requires
        w >= 1,
        h >= 1,
    ensures
        1 <= widest_zone(w, h) <= 9,
        widest_zone(w, h) <= w * h,
{
    let mw = if w < 3 {
        w
    } else {
        3
    };
    let mh = if h < 3 {
        h
    } else {
        3
    };
    assert(1 <= mw * mh <= 9 && mw * mh <= w * h) by (nonlinear_arith)
        requires
            1 <= mw <= 3,
            1 <= mh <= 3,
            mw <= w,
            mh <= h,
    ;
}

/// `p` comes strictly before `q` in row-major order.
pub open spec fn before(p: (usize, usize), q: (usize, usize)) -> bool {
    p.1 < q.1 || (p.1 == q.1 && p.0 < q.0)
}

pub proof fn lemma_count_none(s: Seq<Tile>, p: spec_fn(Tile) -> bool)
    requires
        forall|i: int| 0 <= i < s.len() ==> !p(#[trigger] s[i]),
    ensures
        count_tiles(s, p) == 0,
    decreases s.len(),
{
    if s.len() > 0 {
        assert(!p(s[s.len() - 1]));
        lemma_count_none(s.drop_last(), p);
    }
}

/// The grid that placing one mine leaves is consistent, with one mine more.
proof fn lemma_after_mine(g: Grid, f: Grid, xi: int, yi: int)
    requires
        placed_from(g, f, xi, yi),
    ensures
        f.consistent(),
        mines_in(f.tiles) == mines_in(g.tiles) + 1,
        flags_in(f.tiles) == flags_in(g.tiles),
        revealed_in(f.tiles) == revealed_in(g.tiles),
{
    lemma_index(g, xi, yi, xi, yi);
    let i = g.index(xi, yi);
    let mt = as_mine(g.tile(xi, yi));
    let h = g.tiles.update(i, mt);
    lemma_after_mine_cells(g, f, xi, yi);
    lemma_count_update(g.tiles, |t: Tile| is_hidden_safe(t), i, mt);
    lemma_count_update(g.tiles, |t: Tile| t.kind == Kind::Mine, i, mt);
    lemma_count_update(g.tiles, |t: Tile| t.flagged, i, mt);
    lemma_count_update(g.tiles, |t: Tile| t.revealed, i, mt);
    assert forall|j: int| 0 <= j < g.tiles.len() implies {
        &&& is_hidden_safe(#[trigger] f.tiles[j]) == is_hidden_safe(h[j])
        &&& (f.tiles[j].kind == Kind::Mine) == (h[j].kind == Kind::Mine)
        &&& f.tiles[j].flagged == h[j].flagged
        &&& f.tiles[j].revealed == h[j].revealed
    } by {
        lemma_after_mine_pointwise(g, f, xi, yi, j);
    }
    lemma_count_seq(h, f.tiles, |t: Tile| is_hidden_safe(t));
    lemma_count_seq(h, f.tiles, |t: Tile| t.kind == Kind::Mine);
    lemma_count_seq(h, f.tiles, |t: Tile| t.flagged);
    lemma_count_seq(h, f.tiles, |t: Tile| t.revealed);
}

/// The state of a flood fill from `(sx, sy)` over `g0` that has revealed
/// `n` cells so far, giving `g`.
pub open spec fn fill_state(g0: Grid, g: Grid, sx: int, sy: int, n: int) -> bool {
    &&& g0.consistent()
    &&& g0.tiles_left <= u16::MAX
    &&& g0.passable(sx, sy)
    &&& g0.same_but_revealed(g)
    &&& g.wf()
    &&& g.tiles_left == hidden_safe(g.tiles)
    &&& g.tiles_left + n == g0.tiles_left
    &&& revealed_in(g.tiles) == revealed_in(g0.tiles) + n
    &&& g.tile(sx, sy).revealed
    &&& forall|a: int, b: int|
        #![trigger g.tile(a, b)]
        g0.in_bounds(a, b) ==> (g0.tile(a, b).revealed ==> g.tile(a, b).revealed) && (g.tile(
            a,
            b,
        ).revealed && !g0.tile(a, b).revealed ==> g0.flood(sx, sy, a, b))
}

/// Every worklist entry is a revealed passable cell reached from the start.
pub open spec fn stack_ok(g0: Grid, g: Grid, sx: int, sy: int, s: Seq<(usize, usize)>) -> bool {
    forall|i: int|
        #![trigger s[i]]
        0 <= i < s.len() ==> {
            let (a, b) = (s[i].0 as int, s[i].1 as int);
            &&& g0.passable(a, b)
            &&& g.tile(a, b).revealed
            &&& g0.reachable(sx, sy, a, b)
        }
}

/// Every revealed passable cell but `(cx, cy)` is closed or still pending.
pub open spec fn closed_but(g0: Grid, g: Grid, s: Seq<(usize, usize)>, cx: int, cy: int) -> bool {
    forall|a: int, b: int|
        #![trigger g.tile(a, b)]
        g0.passable(a, b) && g.tile(a, b).revealed ==> pending(s, a, b) || closed(g0, g, a, b) || (a
            == cx && b == cy)
}

/// The first `k` neighbours of `(cx, cy)` are revealed or flagged.
pub open spec fn closed_below(g0: Grid, g: Grid, cx: int, cy: int, k: int) -> bool {
    forall|a: int, b: int|
        #![trigger g.tile(a, b)]
        g0.in_bounds(a, b) && adjacent(cx, cy, a, b) && dir(a - cx, b - cy) < k ==> g.tile(
            a,
            b,
        ).revealed || g0.tile(a, b).flagged
}

/// Revealing the `k`-th neighbour `(na, nb)` of the popped cell `(ci, cj)`,
/// and pushing it if it is empty, keeps the flood fill's invariants.
proof fn lemma_visit_reveal(
    g0: Grid,
    g: Grid,
    h: Grid,
    s0: Seq<(usize, usize)>,
    s1: Seq<(usize, usize)>,
    sx: int,
    sy: int,
    ci: int,
    cj: int,
    na: int,
    nb: int,
    nx: usize,
    ny: usize,
    k: int,
    n: int,
)
    requires
        na == nx,
        nb == ny,
        fill_state(g0, g, sx, sy, n),
        stack_ok(g0, g, sx, sy, s0),
        closed_but(g0, g, s0, ci, cj),
        closed_below(g0, g, ci, cj, k),
        g0.passable(ci, cj),
        g.tile(ci, cj).revealed,
        g0.reachable(sx, sy, ci, cj),
        0 <= k < 8,
        na == ci + off_x(k),
        nb == cj + off_y(k),
        g0.in_bounds(na, nb),
        !g.tile(na, nb).revealed,
        !g.tile(na, nb).flagged,
        h.wf(),
        h.tiles_left == hidden_safe(h.tiles),
        h.tiles_left + n + 1 == g0.tiles_left,
        revealed_in(h.tiles) == revealed_in(g0.tiles) + n + 1,
        g0.same_but_revealed(h),
        forall|a: int, b: int|
            #![trigger h.tile(a, b)]
            g.in_bounds(a, b) ==> h.tile(a, b) == if a == na && b == nb {
                Tile { revealed: true, ..g.tile(a, b) }
            } else {
                g.tile(a, b)
            },
        s1 == if g.tile(na, nb).kind == Kind::Empty {
            s0.push((nx, ny))
        } else {
            s0
        },
    ensures
        fill_state(g0, h, sx, sy, n + 1),
        stack_ok(g0, h, sx, sy, s1),
        closed_but(g0, h, s1, ci, cj),
        closed_below(g0, h, ci, cj, k + 1),
{
    lemma_visit_flood(g0, g, sx, sy, ci, cj, na, nb, n);
    assert forall|a: int, b: int| g0.in_bounds(a, b) implies (g0.tile(a, b).revealed
        ==> #[trigger] h.tile(a, b).revealed) && (h.tile(a, b).revealed && !g0.tile(a, b).revealed
        ==> g0.flood(sx, sy, a, b)) by {
        assert(g.tile(a, b).revealed ==> h.tile(a, b).revealed);
    }
    assert(h.tile(sx, sy).revealed);
    assert forall|i: int| 0 <= i < s1.len() implies {
        let (a, b) = (#[trigger] s1[i].0 as int, s1[i].1 as int);
        &&& g0.passable(a, b)
        &&& h.tile(a, b).revealed
        &&& g0.reachable(sx, sy, a, b)
    } by {
        if i < s0.len() {
            assert(s1[i] == s0[i]);
        } else {
            assert(s1[i] == (nx, ny));
        }
    }
    assert forall|a: int, b: int| g0.passable(a, b) && #[trigger] h.tile(a, b).revealed implies pending(
        s1,
        a,
        b,
    ) || closed(g0, h, a, b) || (a == ci && b == cj) by {
        if a == na && b == nb {
            assert(g.tile(na, nb).kind == Kind::Empty);
            assert(s1[s1.len() - 1] == (nx, ny));
        } else {
            assert(g.tile(a, b).revealed);
            if pending(s0, a, b) {
                if g.tile(na, nb).kind == Kind::Empty {
                    lemma_pending_push(s0, (nx, ny), a, b);
                }
            } else if closed(g0, g, a, b) {
                lemma_closed_mono(g0, g, h, a, b);
            }
        }
    }
    assert forall|a: int, b: int| g0.in_bounds(a, b) && adjacent(ci, cj, a, b) && dir(a - ci, b - cj)
        < k + 1 implies #[trigger] h.tile(a, b).revealed || g0.tile(a, b).flagged by {
        if dir(a - ci, b - cj) < k {
            assert(g.tile(a, b).revealed || g0.tile(a, b).flagged);
        } else {
            assert(a == na && b == nb);
        }
    }
}

/// A hidden unflagged neighbour of a reached cell is in the flood.
proof fn lemma_visit_flood(
    g0: Grid,
    g: Grid,
    sx: int,
    sy: int,
    ci: int,
    cj: int,
    na: int,
    nb: int,
    n: int,
)
    requires
        fill_state(g0, g, sx, sy, n),
        g0.passable(ci, cj),
        g0.reachable(sx, sy, ci, cj),
        adjacent(ci, cj, na, nb),
        g0.in_bounds(na, nb),
        !g.tile(na, nb).revealed,
        !g.tile(na, nb).flagged,
    ensures
        g0.flood(sx, sy, na, nb),
        g0.tile(na, nb).kind != Kind::Mine,
        g0.tile(na, nb).kind == Kind::Empty ==> g0.passable(na, nb) && g0.reachable(sx, sy, na, nb),
        g.tile(na, nb).kind == g0.tile(na, nb).kind,
{
    lemma_no_mine_near_empty(g0, ci, cj, na, nb);
    assert(g.tile(na, nb) == (Tile { revealed: g.tile(na, nb).revealed, ..g0.tile(na, nb) }));
    if g0.tile(na, nb).kind == Kind::Empty {
        let p = choose|p: Seq<(int, int)>|
            #[trigger] g0.is_path(p) && p[0] == (sx, sy) && p.last() == (ci, cj);
        lemma_path_push(g0, p, na, nb);
        assert(g0.reachable(sx, sy, na, nb));
    } else {
        assert(adjacent(na, nb, ci, cj) && g0.reachable(sx, sy, ci, cj));
        assert(g0.borders(sx, sy, na, nb));
    }
}

impl View for Board {
    type V = Grid;

    closed spec fn view(&self) -> Grid {
        Grid {
            width: self.width as int,
            height: self.height as int,
            tiles: self.cells@.map_values(|b: u8| decode_spec(b)),
            tiles_left: self.tiles_left as int,
        }
    }
}

impl Board {
    /// A board of cleared tiles, all of them safe and hidden.
    pub fn new(width: usize, height: usize) -> (b: Board)
        requires
            width >= 1,
            height >= 1,
            width * height <= u16::MAX,
        ensures
            b@.width == width,
            b@.height == height,
            b@.consistent(),
            b@.tiles_left == width * height,
            forall|i: int| 0 <= i < b@.tiles.len() ==> b@.tiles[i] == zero_tile(),
            mines_in(b@.tiles) == 0,
            flags_in(b@.tiles) == 0,
    {
        let n = width * height;
        let mut cells: Vec<u8> = Vec::new();
        while cells.len() < n
            invariant
                cells.len() <= n,
                forall|i: int| 0 <= i < cells.len() ==> cells@[i] == 0,
            decreases n - cells.len(),
        {
            cells.push(0);
        }
        let b = Board { width, height, cells, tiles_left: n as u16 };
        proof {
            lemma_zero_byte();
            lemma_cleared_consistent(b@);
        }
        b
    }

    pub fn width(&self) -> (r: usize)
        ensures
            r == self@.width,
    {
        self.width
    }

    pub fn height(&self) -> (r: usize)
        ensures
            r == self@.height,
    {
        self.height
    }

    /// Safe cells not yet revealed; zero once the board is cleared.
    pub fn tiles_left(&self) -> (r: u16)
        ensures
            r == self@.tiles_left,
    {
        self.tiles_left
    }

    fn index(&self, x: usize, y: usize) -> (i: usize)
        requires
            self@.wf(),
            self@.in_bounds(x as int, y as int),
        ensures
            i == self@.index(x as int, y as int),
            i < self.cells.len(),
    {
        proof {
            lemma_index(self@, x as int, y as int, x as int, y as int);
        }
        y * self.width + x
    }

    /// The packed byte of the cell at `(x, y)`.
    pub fn byte(&self, x: usize, y: usize) -> (r: u8)
        requires
            self@.wf(),
            self@.in_bounds(x as int, y as int),
        ensures
            r == encode_spec(self@.tile(x as int, y as int)),
    {
        let i = self.index(x, y);
        proof {
            lemma_encode_decode(self.cells@[i as int]);
        }
        self.cells[i]
    }

    /// The tile at `(x, y)`.
    pub fn get(&self, x: usize, y: usize) -> (t: Tile)
        requires
            self@.wf(),
            self@.in_bounds(x as int, y as int),
        ensures
            t == self@.tile(x as int, y as int),
    {
        let i = self.index(x, y);
        decode(self.cells[i])
    }

    fn put(&mut self, x: usize, y: usize, t: Tile)
        requires
            old(self)@.wf(),
            old(self)@.in_bounds(x as int, y as int),
            t.adjacent < 16,
        ensures
            final(self)@ == old(self)@.set_tile(x as int, y as int, t),
    {
        let i = self.index(x, y);
        let b = encode(t);
        self.cells.set(i, b);
        proof {
            assert(self@.tiles =~= old(self)@.tiles.update(i as int, t));
        }
    }

    /// Overwrites the tile at `(x, y)`, leaving `tiles_left` as it is.
    pub fn set(&mut self, x: usize, y: usize, t: Tile)
        requires
            old(self)@.wf(),
            old(self)@.in_bounds(x as int, y as int),
            t.adjacent < 16,
        ensures
            final(self)@ == old(self)@.set_tile(x as int, y as int, t),
            final(self)@.wf(),
    {
        proof {
            lemma_set_tile(self@, x as int, y as int, t);
        }
        self.put(x, y, t);
    }

    /// Resets every cell to the cleared tile, keeping the dimensions.
    pub fn clear(&mut self)
        requires
            old(self)@.wf(),
        ensures
            final(self)@.width == old(self)@.width,
            final(self)@.height == old(self)@.height,
            final(self)@.consistent(),
            final(self)@.tiles_left == old(self)@.width * old(self)@.height,
            forall|i: int| 0 <= i < final(self)@.tiles.len() ==> final(self)@.tiles[i] == zero_tile(),
            mines_in(final(self)@.tiles) == 0,
            flags_in(final(self)@.tiles) == 0,
    {
        let n = self.cells.len();
        let mut i: usize = 0;
        while i < n
            invariant
                self.cells.len() == n,
                self.width == old(self).width,
                self.height == old(self).height,
                self.tiles_left == old(self).tiles_left,
                old(self)@.wf(),
                n == old(self).cells.len(),
                i <= n,
                forall|j: int| 0 <= j < i ==> self.cells@[j] == 0,
            decreases n - i,
        {
            self.cells.set(i, 0);
            i += 1;
        }
        self.tiles_left = n as u16;
        proof {
            lemma_zero_byte();
            lemma_cleared_consistent(self@);
        }
    }

    /// Toggles the flag of an unrevealed cell; a revealed cell is left alone.
    /// Returns whether the flag changed.
    pub fn flag(&mut self, x: usize, y: usize) -> (changed: bool)
        requires
            old(self)@.consistent(),
            old(self)@.in_bounds(x as int, y as int),
        ensures
            changed == !old(self)@.tile(x as int, y as int).revealed,
            final(self)@ == if changed {
                old(self)@.set_tile(
                    x as int,
                    y as int,
                    Tile { flagged: !old(self)@.tile(x as int, y as int).flagged, ..old(self)@.tile(x as int, y as int) },
                )
            } else {
                old(self)@
            },
            final(self)@.consistent(),
            mines_in(final(self)@.tiles) == mines_in(old(self)@.tiles),
            changed ==> flags_in(final(self)@.tiles) + ind(old(self)@.tile(x as int, y as int).flagged)
                == flags_in(old(self)@.tiles) + ind(!old(self)@.tile(x as int, y as int).flagged),
    {
        let t = self.get(x, y);
        if t.revealed {
            return false;
        }
        let ghost g = self@;
        let nt = Tile { flagged: !t.flagged, ..t };
        proof {
            lemma_index(g, x as int, y as int, x as int, y as int);
            lemma_decoded_count_small(self.cells@[self@.index(x as int, y as int)]);
            lemma_set_tile(g, x as int, y as int, nt);
        }
        self.put(x, y, nt);
        proof {
            let i = g.index(x as int, y as int);
            lemma_count_update(g.tiles, |t: Tile| is_hidden_safe(t), i, nt);
            lemma_count_update(g.tiles, |t: Tile| t.kind == Kind::Mine, i, nt);
            lemma_count_update(g.tiles, |t: Tile| t.flagged, i, nt);
            lemma_same_layout_consistent(g, self@);
        }
        true
    }
    /// The `k`-th neighbour of `(x, y)`, if it lies on the board.
    pub(crate) fn neighbor(&self, x: usize, y: usize, k: usize) -> (r: Option<(usize, usize)>)
        requires
            self@.wf(),
            self@.in_bounds(x as int, y as int),
            k < 8,
        ensures
            match r {
                Some((nx, ny)) => {
                    &&& nx == x + off_x(k as int)
                    &&& ny == y + off_y(k as int)
                    &&& self@.in_bounds(nx as int, ny as int)
                },
                None => !self@.in_bounds(x + off_x(k as int), y + off_y(k as int)),
            },
    {
        let nx: usize = if k == 0 || k == 3 || k == 5 {
            if x == 0 {
                return None;
            }
            x - 1
        } else if k == 1 || k == 6 {
            x
        } else {
            if x + 1 >= self.width {
                return None;
            }
            x + 1
        };
        let ny: usize = if k <= 2 {
            if y == 0 {
                return None;
            }
            y - 1
        } else if k <= 4 {
            y
        } else {
            if y + 1 >= self.height {
                return None;
            }
            y + 1
        };
        Some((nx, ny))
    }

    /// Puts a mine on a hidden safe cell and counts it in each neighbour
    /// that is not a mine; an empty neighbour becomes a number.
    pub fn place_mine(&mut self, x: usize, y: usize)
        requires
            old(self)@.consistent(),
            old(self)@.in_bounds(x as int, y as int),
            old(self)@.tile(x as int, y as int).kind != Kind::Mine,
            !old(self)@.tile(x as int, y as int).revealed,
        ensures
            final(self)@.consistent(),
            final(self)@.width == old(self)@.width,
            final(self)@.height == old(self)@.height,
            final(self)@.tiles_left == old(self)@.tiles_left - 1,
            forall|a: int, b: int|
                #![trigger final(self)@.tile(a, b)]
                old(self)@.in_bounds(a, b) ==> final(self)@.tile(a, b) == after_mine(
                    old(self)@,
                    x as int,
                    y as int,
                    a,
                    b,
                ),
            mines_in(final(self)@.tiles) == mines_in(old(self)@.tiles) + 1,
            flags_in(final(self)@.tiles) == flags_in(old(self)@.tiles),
            revealed_in(final(self)@.tiles) == revealed_in(old(self)@.tiles),
    {
        let ghost g = self@;
        let ghost (xi, yi) = (x as int, y as int);
        let t = self.get(x, y);
        let mt = Tile { kind: Kind::Mine, adjacent: 0, ..t };
        proof {
            lemma_set_tile(g, xi, yi, mt);
        }
        self.put(x, y, mt);
        let ghost g1 = self@;
        let mut k: usize = 0;
        while k < 8
            invariant
                g.consistent(),
                g.in_bounds(xi, yi),
                xi == x,
                yi == y,
                g.tile(xi, yi).kind != Kind::Mine,
                self@.wf(),
                self@.width == g.width,
                self@.height == g.height,
                self@.tiles_left == g.tiles_left,
                self.cells.len() == g.tiles.len(),
                k <= 8,
                forall|a: int, b: int|
                    #![trigger self@.tile(a, b)]
                    g.in_bounds(a, b) ==> self@.tile(a, b) == if adjacent(a, b, xi, yi) && dir(
                        a - xi,
                        b - yi,
                    ) >= k {
                        g1.tile(a, b)
                    } else {
                        after_mine(g, xi, yi, a, b)
                    },
                forall|a: int, b: int|
                    #![trigger g1.tile(a, b)]
                    g.in_bounds(a, b) ==> g1.tile(a, b) == if a == xi && b == yi {
                        mt
                    } else {
                        g.tile(a, b)
                    },
            decreases 8 - k,
        {
            if let Some((nx, ny)) = self.neighbor(x, y, k) {
                let ghost (na, nb) = (nx as int, ny as int);
                let nt = self.get(nx, ny);
                if nt.kind != Kind::Mine {
                    proof {
                        assert(g.cell_ok(na, nb));
                        assert(g.mine_at(xi, yi) == 0);
                    }
                    let bt = Tile { kind: Kind::Number, adjacent: nt.adjacent + 1, ..nt };
                    let ghost before = self@;
                    proof {
                        lemma_set_tile(before, na, nb, bt);
                    }
                    self.put(nx, ny, bt);
                }
            }
            k += 1;
        }
        let ghost f0 = self@;
        proof {
            lemma_index(g, xi, yi, xi, yi);
            lemma_count_update(g.tiles, |t: Tile| is_hidden_safe(t), g.index(xi, yi), mt);
        }
        self.tiles_left = self.tiles_left - 1;
        proof {
            let f = self@;
            assert(f.tiles == f0.tiles);
            assert forall|a: int, b: int| g.in_bounds(a, b) implies #[trigger] f.tile(a, b)
                == after_mine(g, xi, yi, a, b) by {
                assert(f0.tile(a, b) == after_mine(g, xi, yi, a, b));
            }
            lemma_after_mine(g, f, xi, yi);
        }
    }
    /// The cells at Chebyshev distance more than one from `(ax, ay)`, in
    /// row-major order.
    fn candidates(&self, ax: usize, ay: usize) -> (c: Vec<(usize, usize)>)
        requires
            self@.wf(),
            self@.in_bounds(ax as int, ay as int),
        ensures
            c.len() == eligible(self@.width, self@.height, ax as int, ay as int),
            forall|i: int|
                0 <= i < c.len() ==> self@.in_bounds(#[trigger] c@[i].0 as int, c@[i].1 as int)
                    && !near(c@[i].0 as int, c@[i].1 as int, ax as int, ay as int),
            forall|i: int, j: int| 0 <= i < j < c.len() ==> before(#[trigger] c@[i], #[trigger] c@[j]),
    {
        let w = self.width;
        let h = self.height;
        let ghost zw = zone_width(ax as int, w as int);
        let mut c: Vec<(usize, usize)> = Vec::new();
        let mut y: usize = 0;
        while y < h
            invariant
                self@.wf(),
                w == self@.width,
                h == self@.height,
                self@.in_bounds(ax as int, ay as int),
                zw == zone_width(ax as int, w as int),
                y <= h,
                c.len() == y * w - zw * zone_width(ay as int, y as int),
                forall|i: int|
                    #![trigger c@[i]]
                    0 <= i < c.len() ==> self@.in_bounds(c@[i].0 as int, c@[i].1 as int) && !near(
                        c@[i].0 as int,
                        c@[i].1 as int,
                        ax as int,
                        ay as int,
                    ) && c@[i].1 < y,
                forall|i: int, j: int|
                    0 <= i < j < c.len() ==> before(#[trigger] c@[i], #[trigger] c@[j]),
            decreases h - y,
        {
            let ghost base = c.len() as int;
            let row_near = y + 1 >= ay && y <= ay + 1;
            let mut x: usize = 0;
            while x < w
                invariant
                    self@.wf(),
                    w == self@.width,
                    h == self@.height,
                    self@.in_bounds(ax as int, ay as int),
                    y < h,
                    x <= w,
                    row_near == (-1 <= y - ay <= 1),
                    c.len() == base + x - if row_near {
                        zone_width(ax as int, x as int)
                    } else {
                        0
                    },
                    forall|i: int|
                        #![trigger c@[i]]
                        0 <= i < c.len() ==> self@.in_bounds(c@[i].0 as int, c@[i].1 as int) && !near(c@[i].0 as int, c@[i].1 as int, ax as int, ay as int) && (
                        c@[i].1 < y || (c@[i].1 == y && c@[i].0 < x)),
                    forall|i: int, j: int|
                        0 <= i < j < c.len() ==> before(#[trigger] c@[i], #[trigger] c@[j]),
                decreases w - x,
            {
                if !(row_near && x + 1 >= ax && x <= ax + 1) {
                    let ghost c_old = c@;
                    c.push((x, y));
                    proof {
                        assert forall|i: int, j: int| 0 <= i < j < c.len() implies before(
                            #[trigger] c@[i],
                            #[trigger] c@[j],
                        ) by {
                            if j == c.len() - 1 {
                                assert(c@[i] == c_old[i]);
                            } else {
                                assert(c@[i] == c_old[i] && c@[j] == c_old[j]);
                            }
                        }
                    }
                }
                x += 1;
            }
            proof {
                let zy = zone_width(ay as int, y as int);
                assert(zone_width(ay as int, y + 1) == zy + if row_near {
                    1int
                } else {
                    0
                });
                assert((y + 1) * w == y * w + w) by (nonlinear_arith);
                assert(zw * (zy + 1) == zw * zy + zw) by (nonlinear_arith);
            }
            y += 1;
        }
        assert(h * w == w * h) by (nonlinear_arith);
        c
    }

    /// Puts `count` mines on a board that has none, each drawn uniformly
    /// from the cells not yet mined outside the 3x3 block around
    /// `(ax, ay)`, and counts them in their neighbours.
    pub fn place_mines(&mut self, count: u16, ax: usize, ay: usize)
        requires
            old(self)@.consistent(),
            old(self)@.in_bounds(ax as int, ay as int),
            forall|x: int, y: int|
                old(self)@.in_bounds(x, y) ==> #[trigger] old(self)@.tile(x, y).kind != Kind::Mine
                    && !old(self)@.tile(x, y).revealed,
            count <= eligible(old(self)@.width, old(self)@.height, ax as int, ay as int),
        ensures
            final(self)@.consistent(),
            final(self)@.width == old(self)@.width,
            final(self)@.height == old(self)@.height,
            final(self)@.tiles_left == old(self)@.tiles_left - count,
            mines_in(final(self)@.tiles) == count,
            flags_in(final(self)@.tiles) == flags_in(old(self)@.tiles),
            forall|x: int, y: int|
                #![trigger final(self)@.tile(x, y)]
                old(self)@.in_bounds(x, y) ==> {
                    &&& final(self)@.tile(x, y).kind == Kind::Mine ==> !near(x, y, ax as int, ay as int)
                    &&& final(self)@.tile(x, y).flagged == old(self)@.tile(x, y).flagged
                    &&& !final(self)@.tile(x, y).revealed
                },
    {
        let ghost g = self@;
        let mut cand = self.candidates(ax, ay);
        proof {
            assert forall|j: int| 0 <= j < g.tiles.len() implies !(#[trigger] g.tiles[j].kind
                == Kind::Mine) by {
                lemma_index_cell(g, j);
                assert(g.tile(j % g.width, j / g.width).kind != Kind::Mine);
            }
            lemma_count_none(g.tiles, |t: Tile| t.kind == Kind::Mine);
        }
        let mut placed: u16 = 0;
        while placed < count
            invariant
                g.consistent(),
                self@.consistent(),
                self@.width == g.width,
                self@.height == g.height,
                g.in_bounds(ax as int, ay as int),
                count <= eligible(g.width, g.height, ax as int, ay as int),
                placed <= count,
                cand.len() == eligible(g.width, g.height, ax as int, ay as int) - placed,
                self@.tiles_left == g.tiles_left - placed,
                mines_in(self@.tiles) == placed,
                flags_in(self@.tiles) == flags_in(g.tiles),
                forall|i: int|
                    #![trigger cand@[i]]
                    0 <= i < cand.len() ==> {
                        let (cx, cy) = (cand@[i].0 as int, cand@[i].1 as int);
                        &&& g.in_bounds(cx, cy)
                        &&& self@.tile(cx, cy).kind != Kind::Mine
                        &&& !self@.tile(cx, cy).revealed
                        &&& !near(cx, cy, ax as int, ay as int)
                    },
                forall|i: int, j: int|
                    0 <= i < cand.len() && 0 <= j < cand.len() && i != j ==> #[trigger] cand@[i]
                        != #[trigger] cand@[j],
                forall|x: int, y: int|
                    #![trigger self@.tile(x, y)]
                    g.in_bounds(x, y) ==> {
                        &&& self@.tile(x, y).kind == Kind::Mine ==> !near(x, y, ax as int, ay as int)
                        &&& self@.tile(x, y).flagged == g.tile(x, y).flagged
                        &&& !self@.tile(x, y).revealed
                    },
            decreases count - placed,
        {
            let ghost c0 = cand@;
            let j = random_below(cand.len());
            let (x, y) = cand.swap_remove(j);
            let ghost before = self@;
            proof {
                assert(c0[j as int] == (x, y));
                assert forall|i: int| 0 <= i < cand.len() implies #[trigger] cand@[i] != (x, y)
                    && (exists|k: int| 0 <= k < c0.len() && k != j && c0[k] == cand@[i]) by {
                    if i == j {
                        assert(cand@[i] == c0[c0.len() - 1]);
                        assert(c0[c0.len() - 1] != c0[j as int]);
                    } else {
                        assert(cand@[i] == c0[i]);
                        assert(c0[i] != c0[j as int]);
                    }
                }
            }
            self.place_mine(x, y);
            placed = placed + 1;
            proof {
                assert forall|i: int| 0 <= i < cand.len() implies {
                    let (cx, cy) = (#[trigger] cand@[i].0 as int, cand@[i].1 as int);
                    &&& g.in_bounds(cx, cy)
                    &&& self@.tile(cx, cy).kind != Kind::Mine
                    &&& !self@.tile(cx, cy).revealed
                    &&& !near(cx, cy, ax as int, ay as int)
                } by {
                    let k = choose|k: int| 0 <= k < c0.len() && k != j && c0[k] == cand@[i];
                    let (cx, cy) = (cand@[i].0 as int, cand@[i].1 as int);
                    assert(self@.tile(cx, cy) == after_mine(before, x as int, y as int, cx, cy));
                }
                assert forall|a: int, b: int| 0 <= a < cand.len() && 0 <= b < cand.len() && a != b
                    implies #[trigger] cand@[a] != #[trigger] cand@[b] by {
                    if a == j {
                        assert(cand@[a] == c0[c0.len() - 1]);
                    }
                    if b == j {
                        assert(cand@[b] == c0[c0.len() - 1]);
                    }
                }
                assert forall|a: int, b: int| g.in_bounds(a, b) implies {
                    &&& #[trigger] self@.tile(a, b).kind == Kind::Mine ==> !near(a, b, ax as int, ay as int)
                    &&& self@.tile(a, b).flagged == g.tile(a, b).flagged
                    &&& !self@.tile(a, b).revealed
                } by {
                    assert(self@.tile(a, b) == after_mine(before, x as int, y as int, a, b));
                    assert(before.tile(a, b).flagged == g.tile(a, b).flagged);
                }
            }
        }
    }

    /// Reveals the region of empty cells reached from the passable cell
    /// `(x, y)` and the unflagged cells around it, with an explicit worklist.
    /// Returns how many cells it revealed.
    fn flood_fill(&mut self, x: usize, y: usize) -> (n: u16)
        requires
            old(self)@.consistent(),
            old(self)@.passable(x as int, y as int),
        ensures
            old(self)@.same_but_revealed(final(self)@),
            final(self)@.consistent(),
            final(self)@.tiles_left == old(self)@.tiles_left - n,
            revealed_in(final(self)@.tiles) == revealed_in(old(self)@.tiles) + n,
            forall|a: int, b: int|
                #![trigger final(self)@.tile(a, b)]
                old(self)@.in_bounds(a, b) ==> final(self)@.tile(a, b).revealed == (old(
                    self,
                )@.tile(a, b).revealed || old(self)@.flood(x as int, y as int, a, b)),
    {
        let ghost g0 = self@;
        let ghost (sx, sy) = (x as int, y as int);
        let mut stack: Vec<(usize, usize)> = Vec::new();
        proof {
            lemma_reach_self(g0, sx, sy);
            assert(g0.flood(sx, sy, sx, sy));
        }
        self.uncover(x, y, Ghost(g0), 0);
        let mut n: u16 = 1;
        stack.push((x, y));
        proof {
            let g = self@;
            assert(stack@[0] == (x, y));
            assert(pending(stack@, sx, sy));
            assert forall|a: int, b: int| g0.in_bounds(a, b) implies (g0.tile(a, b).revealed
                ==> #[trigger] g.tile(a, b).revealed) && (g.tile(a, b).revealed && !g0.tile(
                a,
                b,
            ).revealed ==> g0.flood(sx, sy, a, b)) by {}
            assert forall|a: int, b: int| g0.passable(a, b) && #[trigger] g.tile(a, b).revealed
                implies pending(stack@, a, b) || closed(g0, g, a, b) || (a == sx && b == sy) by {}
        }
        while stack.len() > 0
            invariant
                fill_state(g0, self@, sx, sy, n as int),
                stack_ok(g0, self@, sx, sy, stack@),
                closed_but(g0, self@, stack@, -1, -1),
            decreases 9 * self@.tiles_left + stack.len(),
        {
            let ghost before = stack@;
            let c = stack.pop().unwrap();
            let (cx, cy) = c;
            let ghost (ci, cj) = (cx as int, cy as int);
            let ghost len0 = stack.len();
            let ghost tl0 = self@.tiles_left;
            proof {
                assert(before[before.len() - 1] == c);
                assert(before.drop_last() == stack@);
                let g = self@;
                assert forall|a: int, b: int| g0.passable(a, b) && #[trigger] g.tile(a, b).revealed
                    implies pending(stack@, a, b) || closed(g0, g, a, b) || (a == ci && b == cj) by {
                    if pending(before, a, b) && !(a == ci && b == cj) {
                        lemma_pending_pop(before, a, b);
                    }
                }
                assert forall|i: int| 0 <= i < stack.len() implies {
                    let (a, b) = (#[trigger] stack@[i].0 as int, stack@[i].1 as int);
                    &&& g0.passable(a, b)
                    &&& g.tile(a, b).revealed
                    &&& g0.reachable(sx, sy, a, b)
                } by {
                    assert(stack@[i] == before[i]);
                }
                assert(before[before.len() - 1] == before[len0 as int]);
            }
            let mut k: usize = 0;
            while k < 8
                invariant
                    fill_state(g0, self@, sx, sy, n as int),
                    stack_ok(g0, self@, sx, sy, stack@),
                    closed_but(g0, self@, stack@, ci, cj),
                    closed_below(g0, self@, ci, cj, k as int),
                    k <= 8,
                    ci == cx,
                    cj == cy,
                    g0.passable(ci, cj),
                    self@.tile(ci, cj).revealed,
                    g0.reachable(sx, sy, ci, cj),
                    stack.len() + self@.tiles_left <= len0 + tl0,
                    self@.tiles_left <= tl0,
                decreases 8 - k,
            {
                n = self.visit(&mut stack, cx, cy, k, Ghost(g0), Ghost((sx, sy)), n);
                k += 1;
            }
            proof {
                let g = self@;
                assert(closed(g0, g, ci, cj)) by {
                    assert forall|p: int, q: int| adjacent(ci, cj, p, q) && g0.in_bounds(p, q)
                        implies #[trigger] g.tile(p, q).revealed || g0.tile(p, q).flagged by {
                        assert(dir(p - ci, q - cj) < 8);
                    }
                }
                assert forall|a: int, b: int| g0.passable(a, b) && #[trigger] g.tile(a, b).revealed
                    implies pending(stack@, a, b) || closed(g0, g, a, b) || (a == -1 && b == -1) by {
                }
            }
        }
        proof {
            let g = self@;
            assert forall|a: int, b: int| g0.passable(a, b) && #[trigger] g.tile(a, b).revealed
                implies closed(g0, g, a, b) by {
                if pending(stack@, a, b) {
                    let i = choose|i: int| 0 <= i < stack@.len() && stack@[i].0 == a && stack@[i].1 == b;
                }
            }
            assert forall|a: int, b: int| g0.in_bounds(a, b) implies #[trigger] g.tile(a, b).revealed
                == (g0.tile(a, b).revealed || g0.flood(sx, sy, a, b)) by {
                if g0.reachable(sx, sy, a, b) {
                    let p = choose|p: Seq<(int, int)>|
                        #[trigger] g0.is_path(p) && p[0] == (sx, sy) && p.last() == (a, b);
                    lemma_path_revealed(g0, g, p, p.len() - 1);
                }
                if g0.borders(sx, sy, a, b) {
                    let (d, e) = choose|d: int, e: int|
                        adjacent(a, b, d, e) && #[trigger] g0.reachable(sx, sy, d, e);
                    let p = choose|p: Seq<(int, int)>|
                        #[trigger] g0.is_path(p) && p[0] == (sx, sy) && p.last() == (d, e);
                    lemma_path_revealed(g0, g, p, p.len() - 1);
                    assert(g.tile(d, e).revealed);
                    assert(closed(g0, g, d, e));
                    assert(adjacent(d, e, a, b));
                }
            }
            assert(same_layout(g0, g));
            lemma_same_layout_consistent(g0, g);
        }
        n
    }

    /// Handles the `k`-th neighbour of the popped cell `(cx, cy)`: a hidden
    /// unflagged neighbour is revealed, and pushed if it is empty.
    fn visit(
        &mut self,
        stack: &mut Vec<(usize, usize)>,
        cx: usize,
        cy: usize,
        k: usize,
        Ghost(g0): Ghost<Grid>,
        Ghost(start): Ghost<(int, int)>,
        n: u16,
    ) -> (n2: u16)
        requires
            fill_state(g0, old(self)@, start.0, start.1, n as int),
            stack_ok(g0, old(self)@, start.0, start.1, old(stack)@),
            closed_but(g0, old(self)@, old(stack)@, cx as int, cy as int),
            closed_below(g0, old(self)@, cx as int, cy as int, k as int),
            k < 8,
            g0.passable(cx as int, cy as int),
            old(self)@.tile(cx as int, cy as int).revealed,
            g0.reachable(start.0, start.1, cx as int, cy as int),
        ensures
            fill_state(g0, final(self)@, start.0, start.1, n2 as int),
            stack_ok(g0, final(self)@, start.0, start.1, final(stack)@),
            closed_but(g0, final(self)@, final(stack)@, cx as int, cy as int),
            closed_below(g0, final(self)@, cx as int, cy as int, k + 1),
            final(self)@.tile(cx as int, cy as int).revealed,
            final(stack).len() + final(self)@.tiles_left <= old(stack).len() + old(self)@.tiles_left,
            final(self)@.tiles_left <= old(self)@.tiles_left,
    {
        let ghost (sx, sy) = start;
        let ghost (ci, cj) = (cx as int, cy as int);
        let ghost g = self@;
        if let Some((nx, ny)) = self.neighbor(cx, cy, k) {
            let ghost (na, nb) = (nx as int, ny as int);
            let t = self.get(nx, ny);
            if !t.revealed && !t.flagged {
                proof {
                    lemma_visit_flood(g0, g, sx, sy, ci, cj, na, nb, n as int);
                }
                let ghost s0 = stack@;
                self.uncover(nx, ny, Ghost(g0), n);
                let n2 = n + 1;
                if t.kind == Kind::Empty {
                    stack.push((nx, ny));
                }
                proof {
                    lemma_visit_reveal(g0, g, self@, s0, stack@, sx, sy, ci, cj, na, nb, nx, ny, k as int, n as int);
                }
                return n2;
            }
            proof {
                assert forall|a: int, b: int| g0.in_bounds(a, b) && adjacent(ci, cj, a, b) && dir(
                    a - ci,
                    b - cj,
                ) < k + 1 implies #[trigger] g.tile(a, b).revealed || g0.tile(a, b).flagged by {
                    if dir(a - ci, b - cj) == k {
                        assert(a == na && b == nb);
                        assert(g.tile(a, b).flagged == g0.tile(a, b).flagged);
                    }
                }
            }
        } else {
            proof {
                assert forall|a: int, b: int| g0.in_bounds(a, b) && adjacent(ci, cj, a, b) && dir(
                    a - ci,
                    b - cj,
                ) < k + 1 implies #[trigger] g.tile(a, b).revealed || g0.tile(a, b).flagged by {
                    if dir(a - ci, b - cj) == k {
                        assert(a == ci + off_x(k as int) && b == cj + off_y(k as int));
                    }
                }
            }
        }
        n
    }

    /// Reveals one hidden safe cell, counting it.
    fn uncover(&mut self, x: usize, y: usize, Ghost(g0): Ghost<Grid>, n: u16)
        requires
            old(self)@.wf(),
            old(self)@.in_bounds(x as int, y as int),
            !old(self)@.tile(x as int, y as int).revealed,
            old(self)@.tile(x as int, y as int).kind != Kind::Mine,
            old(self)@.tiles_left == hidden_safe(old(self)@.tiles),
            old(self)@.tiles_left + n == g0.tiles_left,
            revealed_in(old(self)@.tiles) == revealed_in(g0.tiles) + n,
            g0.same_but_revealed(old(self)@),
        ensures
            final(self)@ == (Grid {
                tiles_left: old(self)@.tiles_left - 1,
                ..old(self)@.set_tile(
                    x as int,
                    y as int,
                    Tile { revealed: true, ..old(self)@.tile(x as int, y as int) },
                )
            }),
            final(self)@.wf(),
            final(self)@.tiles_left == hidden_safe(final(self)@.tiles),
            final(self)@.tiles_left + n + 1 == g0.tiles_left,
            revealed_in(final(self)@.tiles) == revealed_in(g0.tiles) + n + 1,
            g0.same_but_revealed(final(self)@),
            forall|a: int, b: int|
                #![trigger final(self)@.tile(a, b)]
                old(self)@.in_bounds(a, b) ==> final(self)@.tile(a, b) == if a == x && b == y {
                    Tile { revealed: true, ..old(self)@.tile(a, b) }
                } else {
                    old(self)@.tile(a, b)
                },
    {
        let ghost g = self@;
        let t = self.get(x, y);
        let rt = Tile { revealed: true, ..t };
        proof {
            let i = g.index(x as int, y as int);
            lemma_index(g, x as int, y as int, x as int, y as int);
            lemma_decoded_count_small(self.cells@[i]);
            lemma_set_tile(g, x as int, y as int, rt);
            lemma_count_update(g.tiles, |t: Tile| is_hidden_safe(t), i, rt);
            lemma_count_update(g.tiles, |t: Tile| t.revealed, i, rt);
        }
        self.put(x, y, rt);
        self.tiles_left = self.tiles_left - 1;
        proof {
            let f = self@;
            let st = g.set_tile(x as int, y as int, rt);
            assert(f.tiles == st.tiles);
            assert forall|a: int, b: int| g.in_bounds(a, b) implies #[trigger] f.tile(a, b) == if a
                == x && b == y {
                Tile { revealed: true, ..g.tile(a, b) }
            } else {
                g.tile(a, b)
            } by {
                assert(st.tile(a, b) == f.tile(a, b));
            }
            assert forall|a: int, b: int| g0.in_bounds(a, b) implies #[trigger] f.tile(a, b) == (Tile {
                revealed: f.tile(a, b).revealed,
                ..g0.tile(a, b)
            }) by {
                assert(g.tile(a, b) == (Tile { revealed: g.tile(a, b).revealed, ..g0.tile(a, b) }));
            }
        }
    }
    /// Reveals the cell at `(x, y)`. A revealed or flagged cell is left
    /// alone; a mine is reported and left hidden; a number is revealed by
    /// itself; an empty cell starts a flood fill over the empty region it
    /// belongs to and the unflagged cells that border it.
    pub fn click(&mut self, x: usize, y: usize) -> (r: RevealOutcome)
        requires
            old(self)@.consistent(),
            old(self)@.in_bounds(x as int, y as int),
        ensures
            final(self)@.consistent(),
            old(self)@.same_but_revealed(final(self)@),
            forall|a: int, b: int|
                #![trigger final(self)@.tile(a, b)]
                old(self)@.in_bounds(a, b) && old(self)@.tile(a, b).kind == Kind::Mine
                    ==> final(self)@.tile(a, b).revealed == old(self)@.tile(a, b).revealed,
            ({
                let t = old(self)@.tile(x as int, y as int);
                if t.revealed || t.flagged {
                    r == RevealOutcome::NoOp && final(self)@ == old(self)@
                } else if t.kind == Kind::Mine {
                    r == RevealOutcome::HitMine && final(self)@ == old(self)@
                } else {
                    &&& r is Cleared
                    &&& final(self)@.tiles_left == old(self)@.tiles_left - r->Cleared_0
                    &&& revealed_in(final(self)@.tiles) == revealed_in(old(self)@.tiles) + r->Cleared_0
                    &&& forall|a: int, b: int|
                        #![trigger final(self)@.tile(a, b)]
                        old(self)@.in_bounds(a, b) ==> final(self)@.tile(a, b).revealed == (old(
                            self,
                        )@.tile(a, b).revealed || (a == x && b == y) || old(self)@.flood(
                            x as int,
                            y as int,
                            a,
                            b,
                        ))
                }
            }),
    {
        let t = self.get(x, y);
        if t.revealed || t.flagged {
            return RevealOutcome::NoOp;
        }
        if t.kind == Kind::Mine {
            return RevealOutcome::HitMine;
        }
        let ghost g0 = self@;
        proof {
            assert(g0.cell_ok(x as int, y as int));
        }
        if t.kind == Kind::Number {
            proof {
                lemma_count_le(g0.tiles, |t: Tile| t.revealed);
                lemma_count_le(g0.tiles, |t: Tile| is_hidden_safe(t));
            }
            self.uncover(x, y, Ghost(g0), 0);
            proof {
                let g = self@;
                assert forall|a: int, b: int| g0.in_bounds(a, b) implies #[trigger] g.tile(
                    a,
                    b,
                ).revealed == (g0.tile(a, b).revealed || (a == x && b == y) || g0.flood(
                    x as int,
                    y as int,
                    a,
                    b,
                )) by {
                    lemma_blocked_floods_nothing(g0, x as int, y as int, a, b);
                }
                assert(same_layout(g0, g));
                lemma_same_layout_consistent(g0, g);
            }
            RevealOutcome::Cleared(1)
        } else {
            proof {
                lemma_reach_self(g0, x as int, y as int);
            }
            let n = self.flood_fill(x, y);
            proof {
                let g = self@;
                assert forall|a: int, b: int| g0.in_bounds(a, b) && g0.tile(a, b).kind == Kind::Mine
                    implies #[trigger] g.tile(a, b).revealed == g0.tile(a, b).revealed by {
                    if g0.flood(x as int, y as int, a, b) {
                        lemma_flood_avoids_mines(g0, x as int, y as int, a, b);
                    }
                }
            }
            RevealOutcome::Cleared(n)
        }
    }
}

} // verus!
