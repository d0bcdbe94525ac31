//! A game session: a board with its mine counter, timer and outcome.
use vstd::prelude::*;
use crate::board::{
    eligible, lemma_count_pointwise, lemma_widest_zone, widest_zone, zone_width, Board, RevealOutcome,
};
use crate::grid::{
    adjacent, flags_in, lemma_index, lemma_set_tile, mines_in, near, off_x, off_y, revealed_in,
    Grid,
};
use crate::tile::{encode_spec, Kind, Tile};

verus! {

/// Where a session stands.
#[derive(Clone, Copy, PartialEq, Eq, Structural, Debug)]
pub enum GameState {
    /// No cell revealed yet; the mines are not placed.
    NotStarted,
    InProgress,
    Won,
    Lost,
}

/// The model of a session.
pub struct Session {
    pub board: Grid,
    /// The displayed mine counter: mines less flags, so it may go negative.
    pub mines: int,
    pub starting_mines: int,
    pub placed: bool,
    pub death: Option<(usize, usize)>,
    pub start_time: int,
    pub finish_time: Option<u64>,
    /// The cursor, in whole pixels of the window.
    pub mouse: (i32, i32),
    pub held: bool,
    /// The window size of a resize not yet fitted to whole cells.
    pub resizing: Option<(u32, u32)>,
}

impl Session {
    /// The game has ended, lost on a mine or won with every safe cell revealed.
    pub open spec fn terminal(self) -> bool {
        self.death is Some || (self.placed && self.board.tiles_left == 0)
    }

    pub open spec fn state(self) -> GameState {
        if self.death is Some {
            GameState::Lost
        } else if !self.placed {
            GameState::NotStarted
        } else if self.board.tiles_left == 0 {
            GameState::Won
        } else {
            GameState::InProgress
        }
    }

    /// Safe cells left to reveal; before the mines are placed, the cells
    /// that will be safe.
    pub open spec fn tiles_left(self) -> int {
        if self.placed {
            self.board.tiles_left
        } else {
            self.board.width * self.board.height - self.starting_mines
        }
    }

    /// The session's invariant: an exact board; room for the mines outside
    /// any first 3x3 block; the counter is the mines less the flags; a fresh
    /// board has no mine and nothing revealed, a started one all its mines; a
    /// death is on a mine; the clock has stopped exactly when the game ended.
    pub open spec fn wf(self) -> bool {
        &&& self.board.consistent()
        &&& 0 <= self.starting_mines
        &&& self.starting_mines + widest_zone(self.board.width, self.board.height) <= self.board.width
            * self.board.height
        &&& self.mines == self.starting_mines - flags_in(self.board.tiles)
        &&& !self.placed ==> {
            &&& self.death is None
            &&& self.board.tiles_left == self.board.width * self.board.height
            &&& forall|x: int, y: int|
                self.board.in_bounds(x, y) ==> #[trigger] self.board.tile(x, y).kind != Kind::Mine
                    && !self.board.tile(x, y).revealed
        }
        &&& self.placed ==> mines_in(self.board.tiles) == self.starting_mines
        &&& self.death matches Some(d) ==> self.board.in_bounds(d.0 as int, d.1 as int)
            && self.board.tile(d.0 as int, d.1 as int).kind == Kind::Mine
        &&& (self.finish_time is Some <==> self.terminal())
        &&& self.resizing matches Some(r) ==> r.0 >= 20 && r.1 >= 63
    }

    /// The session restarted with `mines` mines on a cleared board, of
    /// whatever size `f` has.
    pub open spec fn renewed(self, f: Session, mines: int) -> bool {
        &&& f == Session {
            board: f.board,
            mines: mines,
            starting_mines: mines,
            placed: false,
            death: None,
            finish_time: None,
            ..self
        }
        &&& f.state() == GameState::NotStarted
        &&& forall|i: int| 0 <= i < f.board.tiles.len() ==> f.board.tiles[i] == crate::tile::zero_tile()
    }

    /// The session restarted with `mines` mines on a cleared board of the
    /// same size.
    pub open spec fn restarted(self, f: Session, mines: int) -> bool {
        &&& self.renewed(f, mines)
        &&& f.board.width == self.board.width
        &&& f.board.height == self.board.height
    }

    /// The session after the flag of `(x, y)` is toggled; a finished game
    /// and a revealed cell are left alone.
    pub open spec fn flagged_at(self, x: int, y: int) -> Session {
        let t = self.board.tile(x, y);
        if self.terminal() || t.revealed {
            self
        } else {
            Session {
                board: self.board.set_tile(x, y, Tile { flagged: !t.flagged, ..t }),
                mines: if t.flagged {
                    self.mines + 1
                } else {
                    self.mines - 1
                },
                ..self
            }
        }
    }
}

/// Exactly what a reveal from `(x, y)` uncovers, as `h` against `g`.
pub open spec fn reveals_from(g: Grid, x: int, y: int, h: Grid) -> bool {
    &&& g.same_but_revealed(h)
    &&& h.tiles_left == g.tiles_left - (revealed_in(h.tiles) - revealed_in(g.tiles))
    &&& forall|a: int, b: int|
        #![trigger h.tile(a, b)]
        g.in_bounds(a, b) ==> h.tile(a, b).revealed == (g.tile(a, b).revealed || (a == x && b == y)
            || g.flood(x, y, a, b))
}

/// What a click on `(x, y)` at time `now` makes of a session in play.
pub open spec fn clicked(s: Session, f: Session, x: usize, y: usize, now: int) -> bool {
    let t = s.board.tile(x as int, y as int);
    if t.revealed || t.flagged {
        f == s
    } else if t.kind == Kind::Mine {
        f == Session {
            death: Some((x, y)),
            finish_time: Some((now - s.start_time) as u64),
            ..s
        }
    } else {
        &&& f == Session { board: f.board, finish_time: f.finish_time, ..s }
        &&& reveals_from(s.board, x as int, y as int, f.board)
        &&& f.finish_time == if f.board.tiles_left == 0 {
            Some((now - s.start_time) as u64)
        } else {
            None::<u64>
        }
    }
}

/// `m` is `s` with `starting_mines` mines placed on its fresh board, none
/// within distance one of `(x, y)`; nothing but the cells changes.
pub open spec fn placed_around(s: Session, m: Session, x: int, y: int) -> bool {
    &&& m == Session { board: m.board, ..s }
    &&& m.board.consistent()
    &&& m.board.width == s.board.width
    &&& m.board.height == s.board.height
    &&& m.board.tiles_left == s.board.tiles_left - s.starting_mines
    &&& mines_in(m.board.tiles) == s.starting_mines
    &&& flags_in(m.board.tiles) == flags_in(s.board.tiles)
    &&& forall|a: int, b: int|
        #![trigger m.board.tile(a, b)]
        s.board.in_bounds(a, b) ==> {
            &&& m.board.tile(a, b).kind == Kind::Mine ==> !near(a, b, x, y)
            &&& m.board.tile(a, b).flagged == s.board.tile(a, b).flagged
            &&& !m.board.tile(a, b).revealed
        }
}

/// `m` is `s` after a first reveal of `(x, y)` at `now` started the game:
/// the clock started at `now` and the mines were placed around `(x, y)`.
pub open spec fn mined(s: Session, m: Session, x: int, y: int, now: int) -> bool {
    placed_around(Session { placed: true, start_time: now, ..s }, m, x, y)
}

/// Grids that differ in revealed marks alone hold the same flags and mines.
pub proof fn lemma_same_but_revealed_counts(g: Grid, h: Grid)
    requires
        g.wf(),
        g.same_but_revealed(h),
    ensures
        flags_in(h.tiles) == flags_in(g.tiles),
        mines_in(h.tiles) == mines_in(g.tiles),
{
    assert forall|x: int, y: int| g.in_bounds(x, y) implies #[trigger] h.tiles[g.index(x, y)]
        == (Tile { revealed: h.tiles[g.index(x, y)].revealed, ..g.tiles[g.index(x, y)] }) by {
        lemma_index(g, x, y, x, y);
        assert(h.tile(x, y) == (Tile { revealed: h.tile(x, y).revealed, ..g.tile(x, y) }));
    }
    assert forall|x: int, y: int| g.in_bounds(x, y) implies (#[trigger] h.tiles[g.index(x, y)]).flagged
        == g.tiles[g.index(x, y)].flagged by {
        assert(h.tiles[g.index(x, y)] == (Tile { revealed: h.tiles[g.index(x, y)].revealed, ..g.tiles[g.index(x, y)] }));
    }
    assert forall|x: int, y: int| g.in_bounds(x, y) implies ((#[trigger] h.tiles[g.index(x, y)]).kind
        == Kind::Mine) == (g.tiles[g.index(x, y)].kind == Kind::Mine) by {
        assert(h.tiles[g.index(x, y)] == (Tile { revealed: h.tiles[g.index(x, y)].revealed, ..g.tiles[g.index(x, y)] }));
    }
    lemma_count_pointwise(g, h, |t: Tile| t.flagged);
    lemma_count_pointwise(g, h, |t: Tile| t.kind == Kind::Mine);
}

/// Toggling a flag twice gives the session back, mine counter included.
pub proof fn lemma_flag_twice(s: Session, x: int, y: int)
    requires
        s.wf(),
        s.board.in_bounds(x, y),
    ensures
        s.flagged_at(x, y).flagged_at(x, y) == s,
{
    let t = s.board.tile(x, y);
    if !(s.terminal() || t.revealed) {
        let s1 = s.flagged_at(x, y);
        let t1 = Tile { flagged: !t.flagged, ..t };
        lemma_set_tile(s.board, x, y, t1);
        assert(s1.board.tile(x, y) == t1);
        assert(!s1.terminal());
        let s2 = s1.flagged_at(x, y);
        lemma_index(s.board, x, y, x, y);
        assert(s2.board.tiles =~= s.board.tiles);
        assert(s2.board == s.board);
    }
}

/// A click on a hidden, unflagged mine while the game is in play loses it
/// and stops the clock at `now`; the game then stays as it is.
pub proof fn lemma_mine_loses(s: Session, f: Session, x: usize, y: usize, now: int)
    requires
        s.wf(),
        !s.terminal(),
        s.board.in_bounds(x as int, y as int),
        !s.board.tile(x as int, y as int).revealed,
        !s.board.tile(x as int, y as int).flagged,
        s.board.tile(x as int, y as int).kind == Kind::Mine,
        clicked(s, f, x, y, now),
    ensures
        f.state() == GameState::Lost,
        f.terminal(),
        f.death == Some((x, y)),
        f.finish_time == Some((now - s.start_time) as u64),
{
}

/// A finished game is left alone by flagging.
pub proof fn lemma_terminal_flag(s: Session, x: int, y: int)
    requires
        s.terminal(),
    ensures
        s.flagged_at(x, y) == s,
{
}

/// A game is won exactly when it has ended with no safe cell left hidden.
pub proof fn lemma_won_iff_cleared(s: Session)
    requires
        s.wf(),
    ensures
        s.state() == GameState::Won <==> (s.placed && s.death is None && s.tiles_left() == 0),
{
}

/// A session that differs only by a click's reveals keeps its invariant.
proof fn lemma_click_wf(s: Session, f: Session, x: usize, y: usize, now: int)
    requires
        s.wf(),
        s.placed,
        !s.terminal(),
        s.board.in_bounds(x as int, y as int),
        f.board.consistent(),
        clicked(s, f, x, y, now),
    ensures
        f.wf(),
{
    let t = s.board.tile(x as int, y as int);
    if !(t.revealed || t.flagged) && t.kind != Kind::Mine {
        lemma_same_but_revealed_counts(s.board, f.board);
    }
}

/// `f` follows `s` by reveals alone: no flag or kind changes, revealed
/// cells stay revealed, and a lost game stays lost where it was.
pub open spec fn progressed(s: Session, f: Session) -> bool {
    &&& f == Session { board: f.board, death: f.death, finish_time: f.finish_time, ..s }
    &&& s.board.same_but_revealed(f.board)
    &&& (s.death is Some ==> f.death == s.death)
    &&& forall|a: int, b: int|
        #![trigger f.board.tile(a, b)]
        s.board.in_bounds(a, b) ==> (s.board.tile(a, b).revealed ==> f.board.tile(a, b).revealed)
            && (s.board.tile(a, b).flagged ==> f.board.tile(a, b) == s.board.tile(a, b))
}

/// Moving forward by reveals, twice, is moving forward by reveals.
pub proof fn lemma_progressed_trans(a: Session, b: Session, c: Session)
    requires
        progressed(a, b),
        progressed(b, c),
    ensures
        progressed(a, c),
{
    assert forall|x: int, y: int| a.board.in_bounds(x, y) implies #[trigger] c.board.tile(x, y) == (
    Tile { revealed: c.board.tile(x, y).revealed, ..a.board.tile(x, y) }) && (a.board.tile(
        x,
        y,
    ).revealed ==> c.board.tile(x, y).revealed) && (a.board.tile(x, y).flagged ==> c.board.tile(x, y)
        == a.board.tile(x, y)) by {
        assert(b.board.tile(x, y) == (Tile { revealed: b.board.tile(x, y).revealed, ..a.board.tile(x, y) }));
        assert(c.board.tile(x, y) == (Tile { revealed: c.board.tile(x, y).revealed, ..b.board.tile(x, y) }));
    }
}

/// A click moves a session forward by reveals alone, and a game lost by it
/// was lost on the clicked cell.
pub proof fn lemma_click_progress(s: Session, f: Session, x: usize, y: usize, now: int)
    requires
        s.wf(),
        s.board.in_bounds(x as int, y as int),
        (s.terminal() && f == s) || (!s.terminal() && clicked(s, f, x, y, now)),
    ensures
        progressed(s, f),
        f.death is Some && s.death is None ==> {
            &&& f.death == Some((x, y))
            &&& f.board == s.board
            &&& s.board.tile(x as int, y as int).kind == Kind::Mine
            &&& !s.board.tile(x as int, y as int).flagged
            &&& !s.board.tile(x as int, y as int).revealed
        },
        !s.terminal() && !s.board.tile(x as int, y as int).flagged && s.board.tile(x as int, y as int).kind
            != Kind::Mine ==> f.board.tile(x as int, y as int).revealed,
{
    let g = s.board;
    assert forall|a: int, b: int| g.in_bounds(a, b) implies #[trigger] f.board.tile(a, b) == (Tile {
        revealed: f.board.tile(a, b).revealed,
        ..g.tile(a, b)
    }) && (g.tile(a, b).flagged ==> f.board.tile(a, b) == g.tile(a, b)) by {
        if g.tile(a, b).flagged && !s.terminal() && g.flood(x as int, y as int, a, b) {
            crate::board::lemma_flood_unflagged(g, x as int, y as int, a, b);
        }
    }
}

/// What a reveal action on `(x, y)` at `now` does: a finished game stays
/// as it is; a game in play is clicked; a fresh game gets its mines first.
pub open spec fn opened(s: Session, f: Session, x: usize, y: usize, now: int) -> bool {
    &&& f.placed || s.terminal()
    &&& s.terminal() ==> f == s
    &&& !s.terminal() && s.placed ==> clicked(s, f, x, y, now)
    &&& !s.terminal() && !s.placed ==> exists|m: Session|
        mined(s, m, x as int, y as int, now) && #[trigger] clicked(m, f, x, y, now)
}

/// What the neighbour clicks of a chord on `(x, y)` leave, from the
/// session `s1` that opening the centre gave: reveals alone; every unflagged
/// safe cell of the 3x3 block revealed unless the game was lost; and a loss
/// only on a hidden, unflagged mine of the block.
pub open spec fn chord_rest(s1: Session, f: Session, x: int, y: int) -> bool {
    &&& progressed(s1, f)
    &&& forall|a: int, b: int|
        #![trigger f.board.tile(a, b)]
        s1.board.in_bounds(a, b) && near(a, b, x, y) ==> (!f.board.tile(a, b).flagged
            && f.board.tile(a, b).kind != Kind::Mine ==> f.board.tile(a, b).revealed || f.death is Some)
    &&& f.death matches Some(d) ==> {
        let (dx, dy) = (d.0 as int, d.1 as int);
        &&& near(dx, dy, x, y)
        &&& s1.board.tile(dx, dy).kind == Kind::Mine
        &&& !s1.board.tile(dx, dy).flagged
        &&& !s1.board.tile(dx, dy).revealed
    }
}

/// What a chord on `(x, y)` at `now` does: a finished game stays as it is;
/// otherwise the centre is opened as by `open_cell`, giving `s1`, and the
/// clicks on the neighbours then leave `chord_rest(s1, f, x, y)`.
pub open spec fn chorded(s: Session, f: Session, x: usize, y: usize, now: int) -> bool {
    &&& s.terminal() ==> f == s
    &&& !s.terminal() ==> exists|s1: Session|
        #[trigger] opened(s, s1, x, y, now) && chord_rest(s1, f, x as int, y as int)
}

/// A game session: the board, the mine counter, the timer and the cursor.
pub struct Data {
    mouse_x: i32,
    mouse_y: i32,
    placed_mines: bool,
    mines: i32,
    mouse_held: bool,
    starting_mines: u16,
    death_pos: Option<(usize, usize)>,
    start_time: u64,
    board: Board,
    finish_time: Option<u64>,
    resizing: Option<(u32, u32)>,
}

impl View for Data {
    type V = Session;

    closed spec fn view(&self) -> Session {
        Session {
            board: self.board@,
            mines: self.mines as int,
            starting_mines: self.starting_mines as int,
            placed: self.placed_mines,
            death: self.death_pos,
            start_time: self.start_time as int,
            finish_time: self.finish_time,
            mouse: (self.mouse_x, self.mouse_y),
            held: self.mouse_held,
            resizing: self.resizing,
        }
    }
}

impl Data {
    /// A session on a fresh `width` by `height` board that will hold `mines`
    /// mines; the 3x3 block around the first cell revealed stays free of them.
    pub fn new(mines: u16, width: usize, height: usize) -> (d: Data)
        requires
            width >= 1,
            height >= 1,
            width * height <= u16::MAX,
            mines + widest_zone(width as int, height as int) <= width * height,
        ensures
            d@.wf(),
            d@.state() == GameState::NotStarted,
            d@.board.width == width,
            d@.board.height == height,
            d@.mines == mines,
            d@.starting_mines == mines,
            d@.tiles_left() == width * height - mines,
            d@.finish_time is None,
            d@.mouse == (0i32, 0i32),
            !d@.held,
            d@.resizing is None,
    {
        let board = Board::new(width, height);
        let d = Data {
            mouse_x: 0,
            mouse_y: 0,
            placed_mines: false,
            mines: mines as i32,
            mouse_held: false,
            starting_mines: mines,
            death_pos: None,
            start_time: 0,
            board,
            finish_time: None,
            resizing: None,
        };
        proof {
            let g = d@.board;
            assert forall|x: int, y: int| g.in_bounds(x, y) implies #[trigger] g.tile(x, y).kind
                != Kind::Mine && !g.tile(x, y).revealed by {
                crate::grid::lemma_index(g, x, y, x, y);
            }
        }
        d
    }

    pub fn width(&self) -> (r: usize)
        ensures
            r == self@.board.width,
    {
        self.board.width()
    }

    pub fn height(&self) -> (r: usize)
        ensures
            r == self@.board.height,
    {
        self.board.height()
    }

    /// The packed byte of the cell at `(x, y)`.
    pub fn get(&self, x: usize, y: usize) -> (r: u8)
        requires
            self@.wf(),
            self@.board.in_bounds(x as int, y as int),
        ensures
            r == encode_spec(self@.board.tile(x as int, y as int)),
    {
        self.board.byte(x, y)
    }

    /// The decoded tile at `(x, y)`.
    pub fn tile(&self, x: usize, y: usize) -> (t: Tile)
        requires
            self@.wf(),
            self@.board.in_bounds(x as int, y as int),
        ensures
            t == self@.board.tile(x as int, y as int),
    {
        self.board.get(x, y)
    }

    pub fn state(&self) -> (r: GameState)
        ensures
            r == self@.state(),
    {
        if self.death_pos.is_some() {
            GameState::Lost
        } else if !self.placed_mines {
            GameState::NotStarted
        } else if self.board.tiles_left() == 0 {
            GameState::Won
        } else {
            GameState::InProgress
        }
    }

    pub fn tiles_left(&self) -> (r: u16)
        requires
            self@.wf(),
        ensures
            r == self@.tiles_left(),
    {
        if self.placed_mines {
            self.board.tiles_left()
        } else {
            (self.board.width() * self.board.height()) as u16 - self.starting_mines
        }
    }

    pub fn mines(&self) -> (r: i32)
        ensures
            r == self@.mines,
    {
        self.mines
    }

    pub fn starting_mines(&self) -> (r: u16)
        ensures
            r == self@.starting_mines,
    {
        self.starting_mines
    }

    pub fn start_time(&self) -> (r: u64)
        ensures
            r == self@.start_time,
    {
        self.start_time
    }

    pub fn finish_time(&self) -> (r: Option<u64>)
        ensures
            r == self@.finish_time,
    {
        self.finish_time
    }

    pub fn death_pos(&self) -> (r: Option<(usize, usize)>)
        ensures
            r == self@.death,
    {
        self.death_pos
    }

    pub fn placed_mines(&self) -> (r: bool)
        ensures
            r == self@.placed,
    {
        self.placed_mines
    }
    fn is_over(&self) -> (r: bool)
        requires
            self@.wf(),
        ensures
            r == self@.terminal(),
    {
        self.death_pos.is_some() || (self.placed_mines && self.board.tiles_left() == 0)
    }

    /// Marks a fresh game as started at `now`, before its mines are placed.
    pub fn start(&mut self, now: u64)
        requires
            old(self)@.wf(),
            !old(self)@.placed,
        ensures
            final(self)@ == (Session { placed: true, start_time: now as int, ..old(self)@ }),
            (Session { placed: false, ..final(self)@ }).wf(),
    {
        self.placed_mines = true;
        self.start_time = now;
        proof {
            assert((Session { placed: false, ..self@ }) == (Session {
                start_time: now as int,
                ..old(self)@
            }));
        }
    }

    /// Places the session's mines on its fresh board, none of them within
    /// distance one of `(avoid_x, avoid_y)`. The caller has marked the game
    /// as started; only the cells change.
    pub fn place_mines(&mut self, avoid_x: usize, avoid_y: usize)
        requires
            old(self)@.placed,
            (Session { placed: false, ..old(self)@ }).wf(),
            old(self)@.board.in_bounds(avoid_x as int, avoid_y as int),
        ensures
            final(self)@.wf(),
            placed_around(old(self)@, final(self)@, avoid_x as int, avoid_y as int),
    {
        proof {
            let g = self@.board;
            let zw = zone_width(avoid_x as int, g.width);
            let zh = zone_width(avoid_y as int, g.height);
            let mw = if g.width < 3 { g.width } else { 3 };
            let mh = if g.height < 3 { g.height } else { 3 };
            assert(0 <= zw <= mw && 0 <= zh <= mh);
            assert(zw * zh <= mw * mh) by (nonlinear_arith)
                requires
                    0 <= zw <= mw,
                    0 <= zh <= mh,
            ;
            assert(self.starting_mines <= eligible(g.width, g.height, avoid_x as int, avoid_y as int));
        }
        let ghost g0 = self@.board;
        self.board.place_mines(self.starting_mines, avoid_x, avoid_y);
        proof {
            let g = self@.board;
            assert(widest_zone(g.width, g.height) == widest_zone(g0.width, g0.height));
            assert(g.width * g.height == g0.width * g0.height);
            lemma_widest_zone(g0.width, g0.height);
        }
    }

    /// Reveals `(x, y)` in a game whose mines are placed, at time `now`. A
    /// finished game is left alone. A mine loses the game; clearing the last
    /// safe cell wins it; either way the clock stops at `now`.
    pub fn click(&mut self, x: usize, y: usize, now: u64)
        requires
            old(self)@.wf(),
            old(self)@.placed,
            old(self)@.board.in_bounds(x as int, y as int),
            now >= old(self)@.start_time,
        ensures
            final(self)@.wf(),
            old(self)@.terminal() ==> final(self)@ == old(self)@,
            !old(self)@.terminal() ==> clicked(old(self)@, final(self)@, x, y, now as int),
    {
        if self.is_over() {
            return;
        }
        let ghost s = self@;
        let r = self.board.click(x, y);
        match r {
            RevealOutcome::HitMine => {
                self.death_pos = Some((x, y));
                self.finish_time = Some(now - self.start_time);
            },
            RevealOutcome::Cleared(_) => {
                if self.board.tiles_left() == 0 {
                    self.finish_time = Some(now - self.start_time);
                }
            },
            RevealOutcome::NoOp => {},
        }
        proof {
            lemma_click_wf(s, self@, x, y, now as int);
        }
    }

    /// The first reveal of a game places the mines around `(x, y)` and
    /// starts the clock at `now`; then, and on later reveals, `(x, y)` is
    /// revealed as by `click`.
    pub fn open_cell(&mut self, x: usize, y: usize, now: u64)
        requires
            old(self)@.wf(),
            old(self)@.board.in_bounds(x as int, y as int),
            now >= old(self)@.start_time,
        ensures
            final(self)@.wf(),
            opened(old(self)@, final(self)@, x, y, now as int),
    {
        if self.is_over() {
            return;
        }
        if !self.placed_mines {
            self.start(now);
            self.place_mines(x, y);
            let ghost m = self@;
            self.click(x, y, now);
            proof {
                assert(m.board.tiles_left > 0);
                assert(mined(old(self)@, m, x as int, y as int, now as int));
                assert(clicked(m, self@, x, y, now as int));
            }
        } else {
            self.click(x, y, now);
        }
    }

    /// Toggles the flag of `(x, y)` and moves the mine counter the other
    /// way; a finished game and a revealed cell are left alone.
    pub fn flag(&mut self, x: usize, y: usize)
        requires
            old(self)@.wf(),
            old(self)@.board.in_bounds(x as int, y as int),
        ensures
            final(self)@.wf(),
            final(self)@ == old(self)@.flagged_at(x as int, y as int),
    {
        if self.is_over() {
            return;
        }
        let ghost s = self@;
        let t = self.board.get(x, y);
        if t.revealed {
            return;
        }
        proof {
            crate::grid::lemma_count_le(s.board.tiles, |t: Tile| t.flagged);
        }
        self.board.flag(x, y);
        if t.flagged {
            self.mines = self.mines + 1;
        } else {
            self.mines = self.mines - 1;
        }
        proof {
            let f = self@;
            lemma_set_tile(s.board, x as int, y as int, Tile { flagged: !t.flagged, ..t });
            if !s.placed {
                assert forall|a: int, b: int| f.board.in_bounds(a, b) implies #[trigger] f.board.tile(
                    a,
                    b,
                ).kind != Kind::Mine && !f.board.tile(a, b).revealed by {
                    assert(s.board.tile(a, b).kind != Kind::Mine);
                }
            }
        }
    }

    /// Resets every cell to the cleared tile, keeping the board's size and
    /// every other field; the board then counts every cell as left to clear.
    pub fn clear_board(&mut self)
        requires
            old(self)@.board.wf(),
        ensures
            final(self)@ == (Session { board: final(self)@.board, ..old(self)@ }),
            final(self)@.board.width == old(self)@.board.width,
            final(self)@.board.height == old(self)@.board.height,
            final(self)@.board.consistent(),
            final(self)@.board.tiles_left == old(self)@.board.width * old(self)@.board.height,
            forall|i: int|
                0 <= i < final(self)@.board.tiles.len() ==> final(self)@.board.tiles[i]
                    == crate::tile::zero_tile(),
    {
        self.board.clear();
    }

    /// Starts the game over on a cleared board of the same size: the mine
    /// counter is restored, the outcome and the clock are cleared.
    pub fn restart(&mut self)
        requires
            old(self)@.wf(),
        ensures
            final(self)@.wf(),
            old(self)@.restarted(final(self)@, old(self)@.starting_mines),
    {
        self.clear_board();
        self.mines = self.starting_mines as i32;
        self.placed_mines = false;
        self.death_pos = None;
        self.finish_time = None;
        proof {
            let g = self@.board;
            crate::board::lemma_cleared_consistent(g);
            assert forall|x: int, y: int| g.in_bounds(x, y) implies #[trigger] g.tile(x, y).kind
                != Kind::Mine && !g.tile(x, y).revealed by {
                lemma_index(g, x, y, x, y);
            }
        }
    }

    /// The chord: reveals `(x, y)` as `open_cell` does, then each of its
    /// neighbours on the board as `click` does.
    pub fn chord(&mut self, x: usize, y: usize, now: u64)
        requires
            old(self)@.wf(),
            old(self)@.board.in_bounds(x as int, y as int),
            now >= old(self)@.start_time,
        ensures
            final(self)@.wf(),
            chorded(old(self)@, final(self)@, x, y, now as int),
    {
        if self.is_over() {
            return;
        }
        let ghost s0 = self@;
        self.open_cell(x, y, now);
        let ghost s1 = self@;
        let ghost (xi, yi) = (x as int, y as int);
        proof {
            if s0.placed {
                lemma_click_progress(s0, s1, x, y, now as int);
            } else {
                let m = choose|m: Session|
                    mined(s0, m, xi, yi, now as int) && #[trigger] clicked(m, s1, x, y, now as int);
                lemma_widest_zone(s0.board.width, s0.board.height);
                assert(m.board.width * m.board.height == s0.board.width * s0.board.height);
                assert(m.board.tile(xi, yi).kind != Kind::Mine);
                lemma_click_progress(m, s1, x, y, now as int);
            }
        }
        let mut k: usize = 0;
        while k < 8
            invariant
                self@.wf(),
                self@.placed,
                now >= self@.start_time,
                0 <= k <= 8,
                xi == x,
                yi == y,
                s1.board.in_bounds(xi, yi),
                self@.board.width == s1.board.width,
                self@.board.height == s1.board.height,
                s1.wf(),
                s1.placed,
                progressed(s1, self@),
                self@.death matches Some(d) ==> {
                    let (dx, dy) = (d.0 as int, d.1 as int);
                    &&& near(dx, dy, xi, yi)
                    &&& s1.board.tile(dx, dy).kind == Kind::Mine
                    &&& !s1.board.tile(dx, dy).flagged
                    &&& !s1.board.tile(dx, dy).revealed
                },
                !s1.board.tile(xi, yi).flagged && s1.board.tile(xi, yi).kind != Kind::Mine
                    ==> self@.board.tile(xi, yi).revealed || self@.death is Some,
                forall|a: int, b: int|
                    #![trigger self@.board.tile(a, b)]
                    s1.board.in_bounds(a, b) && adjacent(a, b, xi, yi) && crate::grid::dir(a - xi, b - yi)
                        < k ==> (!s1.board.tile(a, b).flagged && s1.board.tile(a, b).kind != Kind::Mine
                        ==> self@.board.tile(a, b).revealed || self@.death is Some),
            decreases 8 - k,
        {
            if let Some((nx, ny)) = self.board.neighbor(x, y, k) {
                let ghost s = self@;
                self.click(nx, ny, now);
                proof {
                    let f = self@;
                    lemma_click_progress(s, f, nx, ny, now as int);
                    lemma_progressed_trans(s1, s, f);
                    let (na, nb) = (nx as int, ny as int);
                    assert(s.board.tile(na, nb) == (Tile {
                        revealed: s.board.tile(na, nb).revealed,
                        ..s1.board.tile(na, nb)
                    }));
                    assert(s1.board.tile(na, nb).revealed ==> s.board.tile(na, nb).revealed);
                    assert forall|a: int, b: int|
                        s1.board.in_bounds(a, b) && adjacent(a, b, xi, yi) && crate::grid::dir(
                            a - xi,
                            b - yi,
                        ) < k + 1 implies (!s1.board.tile(a, b).flagged && s1.board.tile(a, b).kind
                        != Kind::Mine ==> #[trigger] f.board.tile(a, b).revealed || f.death is Some) by {
                        assert(s.board.tile(a, b).revealed ==> f.board.tile(a, b).revealed);
                        assert(s.board.tile(a, b) == (Tile {
                            revealed: s.board.tile(a, b).revealed,
                            ..s1.board.tile(a, b)
                        }));
                        if crate::grid::dir(a - xi, b - yi) == k {
                            assert(a == na && b == nb);
                            if s.terminal() && s.death is None && s.board.tile(a, b).kind != Kind::Mine {
                                crate::grid::lemma_cleared_all_revealed(s.board, a, b);
                            }
                        }
                    }
                    assert(s.board.tile(xi, yi).revealed ==> f.board.tile(xi, yi).revealed);
                }
            } else {
                proof {
                    let f = self@;
                    assert forall|a: int, b: int|
                        s1.board.in_bounds(a, b) && adjacent(a, b, xi, yi) && crate::grid::dir(
                            a - xi,
                            b - yi,
                        ) < k + 1 implies (!s1.board.tile(a, b).flagged && s1.board.tile(a, b).kind
                        != Kind::Mine ==> #[trigger] f.board.tile(a, b).revealed || f.death is Some) by {
                        if crate::grid::dir(a - xi, b - yi) == k {
                            assert(a == x + off_x(k as int) && b == y + off_y(k as int));
                        }
                    }
                }
            }
            k += 1;
        }
        proof {
            let f = self@;
            assert forall|a: int, b: int| s1.board.in_bounds(a, b) && near(a, b, xi, yi) implies (
            !#[trigger] f.board.tile(a, b).flagged && f.board.tile(a, b).kind != Kind::Mine
                ==> f.board.tile(a, b).revealed || f.death is Some) by {
                assert(f.board.tile(a, b) == (Tile {
                    revealed: f.board.tile(a, b).revealed,
                    ..s1.board.tile(a, b)
                }));
                if !(a == xi && b == yi) {
                    assert(crate::grid::dir(a - xi, b - yi) < 8);
                }
            }
            assert(chord_rest(s1, f, xi, yi));
            assert(opened(s0, s1, x, y, now as int));
        }
    }

    pub fn mouse(&self) -> (r: (i32, i32))
        ensures
            r == self@.mouse,
    {
        (self.mouse_x, self.mouse_y)
    }

    pub fn mouse_held(&self) -> (r: bool)
        ensures
            r == self@.held,
    {
        self.mouse_held
    }

    pub fn resizing(&self) -> (r: Option<(u32, u32)>)
        ensures
            r == self@.resizing,
    {
        self.resizing
    }

    pub fn set_mouse_held(&mut self, held: bool)
        requires
            old(self)@.wf(),
        ensures
            final(self)@.wf(),
            final(self)@ == (Session { held: held, ..old(self)@ }),
    {
        self.mouse_held = held;
    }

    /// Starts a new game on a fresh `width` by `height` board with `mines`
    /// mines; the cursor goes back to the origin.
    pub fn new_game(&mut self, mines: u16, width: usize, height: usize)
        requires
            old(self)@.wf(),
            width >= 1,
            height >= 1,
            width * height <= u16::MAX,
            mines + widest_zone(width as int, height as int) <= width * height,
        ensures
            final(self)@.wf(),
            old(self)@.renewed(
                Session { mouse: old(self)@.mouse, ..final(self)@ },
                mines as int,
            ),
            final(self)@.mouse == (0i32, 0i32),
            final(self)@.board.width == width,
            final(self)@.board.height == height,
    {
        self.board = Board::new(width, height);
        self.starting_mines = mines;
        self.mines = mines as i32;
        self.placed_mines = false;
        self.death_pos = None;
        self.finish_time = None;
        self.mouse_x = 0;
        self.mouse_y = 0;
        proof {
            let g = self@.board;
            assert forall|x: int, y: int| g.in_bounds(x, y) implies #[trigger] g.tile(x, y).kind
                != Kind::Mine && !g.tile(x, y).revealed by {
                lemma_index(g, x, y, x, y);
            }
        }
    }

    /// Restarts the game on the same board size with `mines` mines.
    pub fn set_starting_mines(&mut self, mines: u16)
        requires
            old(self)@.wf(),
            mines + widest_zone(old(self)@.board.width, old(self)@.board.height) <= old(
                self,
            )@.board.width * old(self)@.board.height,
        ensures
            final(self)@.wf(),
            old(self)@.restarted(Session { mouse: old(self)@.mouse, ..final(self)@ }, mines as int),
            final(self)@.mouse == (0i32, 0i32),
    {
        self.mouse_x = 0;
        self.mouse_y = 0;
        self.board.clear();
        self.starting_mines = mines;
        self.mines = mines as i32;
        self.placed_mines = false;
        self.death_pos = None;
        self.finish_time = None;
        proof {
            let g = self@.board;
            assert forall|x: int, y: int| g.in_bounds(x, y) implies #[trigger] g.tile(x, y).kind
                != Kind::Mine && !g.tile(x, y).revealed by {
                lemma_index(g, x, y, x, y);
            }
        }
    }

}

/// Moves the cursor to the whole-pixel position `(x, y)`.
pub fn mouse_moved(x: i32, y: i32, data: &mut Data)
    requires
        old(data)@.wf(),
    ensures
        final(data)@.wf(),
        final(data)@ == (Session { mouse: (x, y), ..old(data)@ }),
{
    data.mouse_x = x;
    data.mouse_y = y;
}

/// Rebuilds the board for a window of `width` by `height` pixels: as
/// many whole cells as fit inside the margins; the game restarts.
pub fn on_resize(width: u32, height: u32, data: &mut Data)
    requires
        old(data)@.wf(),
        width >= 36,
        height >= 79,
        ((width - 20) / 16) * ((height - 63) / 16) <= u16::MAX,
        old(data)@.starting_mines + widest_zone((width - 20) / 16, (height - 63) / 16) <= ((width - 20)
            / 16) * ((height - 63) / 16),
    ensures
        final(data)@.wf(),
        old(data)@.renewed(
            Session { resizing: old(data)@.resizing, ..final(data)@ },
            old(data)@.starting_mines,
        ),
        final(data)@.resizing == Some((width, height)),
        final(data)@.board.width == (width - 20) / 16,
        final(data)@.board.height == (height - 63) / 16,
{
    let w = ((width - 20) / 16) as usize;
    let h = ((height - 63) / 16) as usize;
    data.board = Board::new(w, h);
    data.mines = data.starting_mines as i32;
    data.placed_mines = false;
    data.death_pos = None;
    data.finish_time = None;
    data.resizing = Some((width, height));
    proof {
        let g = data@.board;
        assert forall|x: int, y: int| g.in_bounds(x, y) implies #[trigger] g.tile(x, y).kind
            != Kind::Mine && !g.tile(x, y).revealed by {
            lemma_index(g, x, y, x, y);
        }
    }
}

/// Ends a resize: the window size to apply, trimmed to whole cells, if
/// one was pending.
pub fn fit_to_size(data: &mut Data) -> (r: Option<(u32, u32)>)
    requires
        old(data)@.wf(),
    ensures
        final(data)@.wf(),
        final(data)@ == (Session { resizing: None, ..old(data)@ }),
        r == match old(data)@.resizing {
            Some((w, h)) => Some(
                ((((w - 20) / 16) * 16 + 20) as u32, (((h - 63) / 16) * 16 + 63) as u32),
            ),
            None => None,
        },
{
    match data.resizing.take() {
        Some((w, h)) => Some(((w - 20) / 16 * 16 + 20, (h - 63) / 16 * 16 + 63)),
        None => None,
    }
}

} // verus!
