//! What the renderer draws: atlas coordinates for each cell, the status
//! face and the glyphs of the two three-character counters.
use vstd::prelude::*;
use crate::grid::Grid;
use crate::session::{Data, Session};
use crate::tile::Kind;
use vstd::arithmetic::div_mod::lemma_fundamental_div_mod_converse;

verus! {

/// Left margin of the board, in pixels.
pub const LEFT_MARGIN: i32 = 12;

/// Top margin of the board (the status bar), in pixels.
pub const TOP_MARGIN: i32 = 55;

/// Side of a cell, in pixels.
pub const CELL_SIZE: i32 = 16;

/// The cell under the cursor, if the cursor is over the board.
pub open spec fn hovered(s: Session) -> Option<(int, int)> {
    let cx = (s.mouse.0 - LEFT_MARGIN) / CELL_SIZE as int;
    let cy = (s.mouse.1 - TOP_MARGIN) / CELL_SIZE as int;
    if s.mouse.0 >= LEFT_MARGIN && s.mouse.1 >= TOP_MARGIN && s.board.in_bounds(cx, cy) {
        Some((cx, cy))
    } else {
        None
    }
}

/// Left edge of the status face, in pixels.
pub open spec fn face_left(width: int) -> int {
    (width * 16 - 2) / 2
}

/// The cursor is over the status face.
pub open spec fn over_face(s: Session) -> bool {
    let left = face_left(s.board.width);
    &&& left <= s.mouse.0 < left + 26
    &&& 15 <= s.mouse.1 < 41
}

/// Atlas coordinates of the sprite for `n` adjacent mines.
pub open spec fn digit_uv(n: int) -> (u32, u32) {
    if n == 1 {
        (48, 48)
    } else if n == 2 {
        (32, 48)
    } else if n == 3 {
        (16, 48)
    } else if n == 4 {
        (0, 48)
    } else if n == 5 {
        (48, 32)
    } else if n == 6 {
        (32, 32)
    } else if n == 7 {
        (16, 32)
    } else {
        (0, 32)
    }
}

pub open spec fn wrong_flag_uv() -> (u32, u32) {
    (0, 0)
}

pub open spec fn exposed_mine_uv() -> (u32, u32) {
    (16, 0)
}

pub open spec fn detonated_uv() -> (u32, u32) {
    (0, 16)
}

pub open spec fn hover_flag_uv() -> (u32, u32) {
    (32, 0)
}

pub open spec fn hover_uv() -> (u32, u32) {
    (48, 0)
}

/// A pressed cell looks like a revealed empty one.
pub open spec fn blank_uv() -> (u32, u32) {
    (16, 16)
}

pub open spec fn flag_uv() -> (u32, u32) {
    (32, 16)
}

pub open spec fn unrevealed_uv() -> (u32, u32) {
    (48, 16)
}

/// The sprite of the cell `(x, y)`, by the first rule that applies: a lost
/// game shows wrong flags, mines and the detonated mine; the hovered cell of
/// a game in play shows as hovered or pressed; otherwise the cell's own state.
///
/// In a lost game a flag on a cell without a mine is a wrong flag, and every
/// mine but the detonated one shows exposed, flagged or not; the hovered
/// cell shows as hovered or pressed whenever it is unrevealed, whatever it
/// holds, so that hovering gives nothing away.
pub open spec fn uv_spec(s: Session, x: int, y: int) -> (u32, u32) {
    let t = s.board.tile(x, y);
    let lost = s.death is Some;
    let hot = hovered(s) == Some((x, y)) && !lost && s.tiles_left() != 0;
    if lost && t.kind != Kind::Mine && t.flagged {
        wrong_flag_uv()
    } else if lost && t.kind == Kind::Mine {
        if s.death == Some((x as usize, y as usize)) {
            detonated_uv()
        } else {
            exposed_mine_uv()
        }
    } else if hot && t.flagged {
        hover_flag_uv()
    } else if hot && !t.revealed {
        if s.held {
            blank_uv()
        } else {
            hover_uv()
        }
    } else if t.flagged {
        flag_uv()
    } else if !t.revealed {
        unrevealed_uv()
    } else if t.kind == Kind::Empty {
        blank_uv()
    } else if t.kind == Kind::Mine {
        detonated_uv()
    } else {
        digit_uv(t.adjacent as int)
    }
}

/// The status face.
#[derive(Clone, Copy, PartialEq, Eq, Structural, Debug)]
pub enum Face {
    Normal,
    Pressed,
    Dead,
    Win,
}

pub open spec fn face_spec(s: Session) -> Face {
    if s.held && over_face(s) {
        Face::Pressed
    } else if s.death is Some {
        Face::Dead
    } else if s.tiles_left() == 0 {
        Face::Win
    } else {
        Face::Normal
    }
}

/// The value of the left counter.
pub open spec fn mines_value(s: Session) -> int {
    match s.resizing {
        Some((w, _)) => (w - 20) / 16,
        None => s.mines,
    }
}

/// The value of the right counter at time `now`.
pub open spec fn seconds_value(s: Session, now: int) -> int {
    match s.resizing {
        Some((_, h)) => (h - 63) / 16,
        None => if !s.placed {
            0
        } else {
            match s.finish_time {
                Some(t) => t as int,
                None => now - s.start_time,
            }
        },
    }
}

/// Atlas coordinates of a counter glyph: a digit, `-`, or a blank.
pub open spec fn num_uv(c: u8) -> (u32, u32) {
    if c == 45 {
        (0, 110)
    } else if c == 48 {
        (52, 87)
    } else if c == 49 {
        (39, 87)
    } else if c == 50 {
        (26, 87)
    } else if c == 51 {
        (13, 87)
    } else if c == 52 {
        (0, 87)
    } else if c == 53 {
        (52, 64)
    } else if c == 54 {
        (39, 64)
    } else if c == 55 {
        (26, 64)
    } else if c == 56 {
        (13, 64)
    } else if c == 57 {
        (0, 64)
    } else {
        (65, 1)
    }
}

/// The decimal digits of `n`, most significant first.
pub open spec fn digits(n: nat) -> Seq<u8>
    decreases n,
{
    if n < 10 {
        seq![(48 + n) as u8]
    } else {
        digits(n / 10).push((48 + n % 10) as u8)
    }
}

/// `v` written in decimal, with a leading `-` when negative.
pub open spec fn decimal(v: int) -> Seq<u8> {
    if v < 0 {
        seq![45u8] + digits((-v) as nat)
    } else {
        digits(v as nat)
    }
}

/// The three characters a counter shows for `v`: its decimal form,
/// right-aligned with spaces, or its first three characters when longer.
pub open spec fn counter_text(v: int) -> Seq<u8> {
    let d = decimal(v);
    if d.len() >= 3 {
        d.take(3)
    } else {
        Seq::new((3 - d.len()) as nat, |i: int| 32u8) + d
    }
}

/// The glyph of a counter character (ASCII `-`, `0` to `9`; anything else
/// is the blank glyph).
pub fn get_num_uv(c: u8) -> (r: (u32, u32))
    ensures
        r == num_uv(c),
{
    match c {
        45 => (0, 110),
        48 => (52, 87),
        49 => (39, 87),
        50 => (26, 87),
        51 => (13, 87),
        52 => (0, 87),
        53 => (52, 64),
        54 => (39, 64),
        55 => (26, 64),
        56 => (13, 64),
        57 => (0, 64),
        _ => (65, 1),
    }
}

proof fn lemma_digits_len(n: nat)
    ensures
        digits(n).len() >= 1,
    decreases n,
{
    if n >= 10 {
        lemma_digits_len(n / 10);
    }
}

/// The decimal digits of `n`.
fn digits_of(n: u64) -> (r: Vec<u8>)
    ensures
        r@ == digits(n as nat),
{
    let mut m: u64 = n;
    let mut tail: Vec<u8> = Vec::new();
    while m >= 10
        invariant
            digits(n as nat) == digits(m as nat) + tail@,
        decreases m,
    {
        let d = (m % 10) as u8;
        tail.insert(0, 48 + d);
        proof {
            assert(digits(m as nat) == digits((m / 10) as nat).push((48 + m % 10) as u8));
            assert(digits(m as nat) + tail@.drop_first() =~= digits((m / 10) as nat) + tail@);
        }
        m = m / 10;
    }
    let mut r: Vec<u8> = Vec::new();
    r.push(48 + m as u8);
    let mut i: usize = 0;
    while i < tail.len()
        invariant
            digits(n as nat) == digits(m as nat) + tail@,
            m < 10,
            i <= tail.len(),
            r@ =~= digits(m as nat) + tail@.take(i as int),
        decreases tail.len() - i,
    {
        r.push(tail[i]);
        proof {
            assert(tail@.take(i + 1) =~= tail@.take(i as int).push(tail@[i as int]));
        }
        i += 1;
    }
    proof {
        assert(tail@.take(tail.len() as int) =~= tail@);
    }
    r
}

/// The three characters a counter shows for `v`.
pub fn counter_chars(v: i128) -> (r: Vec<u8>)
    requires
        -(u64::MAX as int) <= v <= u64::MAX,
    ensures
        r@ == counter_text(v as int),
{
    let mut d: Vec<u8> = Vec::new();
    if v < 0 {
        d.push(45u8);
    }
    let m: u64 = if v < 0 {
        (-v) as u64
    } else {
        v as u64
    };
    let ds = digits_of(m);
    let mut i: usize = 0;
    let ghost base = d@;
    while i < ds.len()
        invariant
            d@ =~= base + ds@.take(i as int),
            i <= ds.len(),
            base.len() <= 1,
        decreases ds.len() - i,
    {
        d.push(ds[i]);
        proof {
            assert(ds@.take(i + 1) =~= ds@.take(i as int).push(ds@[i as int]));
        }
        i += 1;
    }
    proof {
        assert(ds@.take(ds.len() as int) =~= ds@);
        assert(d@ =~= decimal(v as int));
        lemma_digits_len(m as nat);
    }
    let mut r: Vec<u8> = Vec::new();
    if d.len() >= 3 {
        r.push(d[0]);
        r.push(d[1]);
        r.push(d[2]);
        proof {
            assert(r@ =~= d@.take(3));
        }
    } else {
        let pad = 3 - d.len();
        let mut j: usize = 0;
        while j < pad
            invariant
                j <= pad,
                pad == 3 - d.len(),
                r@ =~= Seq::new(j as nat, |i: int| 32u8),
            decreases pad - j,
        {
            r.push(32u8);
            j += 1;
        }
        let mut k: usize = 0;
        while k < d.len()
            invariant
                k <= d.len(),
                pad == 3 - d.len(),
                r@ =~= Seq::new(pad as nat, |i: int| 32u8) + d@.take(k as int),
            decreases d.len() - k,
        {
            r.push(d[k]);
            proof {
                assert(d@.take(k + 1) =~= d@.take(k as int).push(d@[k as int]));
            }
            k += 1;
        }
        proof {
            assert(d@.take(d.len() as int) =~= d@);
        }
    }
    r
}

/// The glyphs of a counter showing `v`, left to right.
pub fn counter_uvs(v: i128) -> (r: Vec<(u32, u32)>)
    requires
        -(u64::MAX as int) <= v <= u64::MAX,
    ensures
        r@ == counter_text(v as int).map_values(|c: u8| num_uv(c)),
{
    let cs = counter_chars(v);
    let mut r: Vec<(u32, u32)> = Vec::new();
    let mut i: usize = 0;
    while i < cs.len()
        invariant
            cs@ == counter_text(v as int),
            i <= cs.len(),
            r@ =~= cs@.take(i as int).map_values(|c: u8| num_uv(c)),
        decreases cs.len() - i,
    {
        r.push(get_num_uv(cs[i]));
        proof {
            assert(cs@.take(i + 1) =~= cs@.take(i as int).push(cs@[i as int]));
        }
        i += 1;
    }
    proof {
        assert(cs@.take(cs.len() as int) =~= cs@);
    }
    r
}

impl Data {
    /// The cell under the cursor, if the cursor is over the board.
    pub fn hover_cell(&self) -> (r: Option<(usize, usize)>)
        requires
            self@.wf(),
        ensures
            match r {
                Some((x, y)) => hovered(self@) == Some((x as int, y as int)),
                None => hovered(self@) is None,
            },
    {
        let (mx, my) = self.mouse();
        if mx < LEFT_MARGIN || my < TOP_MARGIN {
            return None;
        }
        let cx = ((mx - LEFT_MARGIN) / CELL_SIZE) as usize;
        let cy = ((my - TOP_MARGIN) / CELL_SIZE) as usize;
        if cx < self.width() && cy < self.height() {
            Some((cx, cy))
        } else {
            None
        }
    }

    /// The cursor is over the status face.
    pub fn over_face(&self) -> (r: bool)
        requires
            self@.wf(),
        ensures
            r == over_face(self@),
    {
        let (mx, my) = self.mouse();
        let w = self.width();
        proof {
            assert(w * 16 <= u16::MAX * 16) by (nonlinear_arith)
                requires
                    w * self@.board.height <= u16::MAX,
                    self@.board.height >= 1,
            ;
        }
        let left = ((w * 16 - 2) / 2) as i64;
        left <= mx as i64 && (mx as i64) < left + 26 && 15 <= my && my < 41
    }

    /// The atlas coordinates of the sprite for the cell `(x, y)`.
    pub fn get_uv(&self, x: usize, y: usize) -> (r: (u32, u32))
        requires
            self@.wf(),
            self@.board.in_bounds(x as int, y as int),
        ensures
            r == uv_spec(self@, x as int, y as int),
    {
        let t = self.tile(x, y);
        let death = self.death_pos();
        let lost = death.is_some();
        if lost && t.kind != Kind::Mine && t.flagged {
            return (0, 0);
        }
        if lost && t.kind == Kind::Mine {
            return if death == Some((x, y)) {
                (0, 16)
            } else {
                (16, 0)
            };
        }
        let hot = match self.hover_cell() {
            Some((hx, hy)) => hx == x && hy == y && !lost && self.tiles_left() != 0,
            None => false,
        };
        if hot && t.flagged {
            return (32, 0);
        }
        if hot && !t.revealed {
            return if self.mouse_held() {
                (16, 16)
            } else {
                (48, 0)
            };
        }
        if t.flagged {
            return (32, 16);
        }
        if !t.revealed {
            return (48, 16);
        }
        match t.kind {
            Kind::Empty => (16, 16),
            Kind::Mine => (0, 16),
            _ => {
                proof {
                    let g: Grid = self@.board;
                    assert(g.cell_ok(x as int, y as int));
                    assert(g.neighbor_mines(x as int, y as int) <= 8);
                }
                match t.adjacent {
                    1 => (48, 48),
                    2 => (32, 48),
                    3 => (16, 48),
                    4 => (0, 48),
                    5 => (48, 32),
                    6 => (32, 32),
                    7 => (16, 32),
                    _ => (0, 32),
                }
            },
        }
    }

    /// The status face to draw.
    pub fn face(&self) -> (r: Face)
        requires
            self@.wf(),
        ensures
            r == face_spec(self@),
    {
        if self.mouse_held() && self.over_face() {
            Face::Pressed
        } else if self.death_pos().is_some() {
            Face::Dead
        } else if self.tiles_left() == 0 {
            Face::Win
        } else {
            Face::Normal
        }
    }

    /// The value of the left counter: mines left unflagged, or while a
    /// resize is pending the number of columns that fit.
    pub fn mines_shown(&self) -> (r: i64)
        requires
            self@.wf(),
        ensures
            r == mines_value(self@),
    {
        match self.resizing() {
            Some((w, _)) => ((w - 20) / 16) as i64,
            None => self.mines() as i64,
        }
    }

    /// The value of the right counter at time `now`: seconds since the first
    /// reveal, frozen when the game ended, zero before it starts; while a
    /// resize is pending, the number of rows that fit.
    pub fn seconds_shown(&self, now: u64) -> (r: u64)
        requires
            self@.wf(),
            self@.resizing is None && self@.placed && self@.finish_time is None ==> now
                >= self@.start_time,
        ensures
            r == seconds_value(self@, now as int),
    {
        match self.resizing() {
            Some((_, h)) => ((h - 63) / 16) as u64,
            None => if !self.placed_mines() {
                0
            } else {
                match self.finish_time() {
                    Some(t) => t,
                    None => now - self.start_time(),
                }
            },
        }
    }
}

/// One quad to draw: where in the window, from where in the atlas, how big.
#[derive(Clone, Copy, PartialEq, Eq, Debug)]
pub struct Sprite {
    pub pos: (u32, u32),
    pub uv: (u32, u32),
    pub dims: (u32, u32),
}

pub open spec fn sprite(x: int, y: int, u: int, v: int, w: int, h: int) -> Sprite {
    Sprite { pos: (x as u32, y as u32), uv: (u as u32, v as u32), dims: (w as u32, h as u32) }
}

/// The top and bottom edges of the frame, in pieces of up to 16 pixels
/// that start every 8 pixels from `offset` over `remaining` pixels.
pub open spec fn top_bottom(offset: int, remaining: int, height: int) -> Seq<Sprite>
    decreases remaining,
{
    if remaining <= 0 {
        seq![]
    } else {
        let len = if remaining < 16 {
            remaining
        } else {
            16
        };
        seq![sprite(offset, 0, 81, 25, len, 55), sprite(offset, height - 8, 81, 96, len, 8)] + if remaining
            >= 8 {
            top_bottom(offset + 8, remaining - 8, height)
        } else {
            seq![]
        }
    }
}

/// The left and right edges of the frame, cut as the top and bottom are.
pub open spec fn left_right(offset: int, remaining: int, width: int) -> Seq<Sprite>
    decreases remaining,
{
    if remaining <= 0 {
        seq![]
    } else {
        let len = if remaining < 16 {
            remaining
        } else {
            16
        };
        seq![sprite(0, offset, 69, 80, 12, len), sprite(width - 8, offset, 97, 80, 8, len)] + if remaining
            >= 8 {
            left_right(offset + 8, remaining - 8, width)
        } else {
            seq![]
        }
    }
}

/// The four corners of the frame and the borders of the two counters.
pub open spec fn fixtures(width: int, height: int) -> Seq<Sprite> {
    seq![
        sprite(0, 0, 69, 25, 12, 55),
        sprite(width - 8, 0, 97, 25, 8, 55),
        sprite(0, height - 8, 69, 96, 12, 8),
        sprite(width - 8, height - 8, 97, 96, 8, 8),
        sprite(16, 16, 64, 0, 41, 25),
        sprite(width - 55, 16, 64, 0, 41, 25),
    ]
}

/// The sprite of cell `(x, y)`.
pub open spec fn cell_sprite(s: Session, x: int, y: int) -> Sprite {
    let uv = uv_spec(s, x, y);
    sprite(12 + x * 16, 55 + y * 16, uv.0 as int, uv.1 as int, 16, 16)
}

/// Every cell, row by row.
pub open spec fn cells(s: Session) -> Seq<Sprite> {
    Seq::new(
        (s.board.width * s.board.height) as nat,
        |i: int| cell_sprite(s, i % s.board.width, i / s.board.width),
    )
}

pub open spec fn face_uv(f: Face) -> (u32, u32) {
    match f {
        Face::Pressed => (105, 78),
        Face::Dead => (105, 52),
        Face::Win => (105, 0),
        Face::Normal => (105, 26),
    }
}

/// The three glyphs of a counter showing `v`, starting at pixel `left`.
pub open spec fn counter(v: int, left: int) -> Seq<Sprite> {
    Seq::new(
        3,
        |i: int| {
            let uv = num_uv(counter_text(v)[i]);
            sprite(left + i * 13, 17, uv.0 as int, uv.1 as int, 13, 23)
        },
    )
}

/// Everything drawn for the session `s` in a `width` by `height` window at
/// time `now`: the frame, the cells, the face and the two counters.
pub open spec fn frame(s: Session, width: int, height: int, now: int) -> Seq<Sprite> {
    top_bottom(12, width - 20, height) + left_right(55, height - 63, width) + fixtures(width, height)
        + cells(s) + seq![
        sprite(face_left(s.board.width), 15, face_uv(face_spec(s)).0 as int, face_uv(face_spec(s)).1 as int, 26, 26),
    ] + counter(mines_value(s), 17) + counter(seconds_value(s, now), width - 54)
}

/// The draw list of a frame: the window frame, every cell, the status face
/// and both counters, for a `width` by `height` window at time `now`.
pub fn render(data: &Data, width: u32, height: u32, now: u64) -> (r: Vec<Sprite>)
    requires
        data@.wf(),
        width >= 55,
        height >= 63,
        data@.resizing is None && data@.placed && data@.finish_time is None ==> now
            >= data@.start_time,
    ensures
        r@ == frame(data@, width as int, height as int, now as int),
{
    let ghost s = data@;
    let mut r: Vec<Sprite> = Vec::new();
    let mut offset: u32 = 12;
    let mut remaining: u32 = width - 20;
    while remaining > 0
        invariant
            r@ + top_bottom(offset as int, remaining as int, height as int) == top_bottom(
                12,
                width - 20,
                height as int,
            ),
            height >= 63,
            offset + remaining == width - 8,
        decreases remaining,
    {
        let len = if remaining < 16 {
            remaining
        } else {
            16
        };
        let ghost before = r@;
        r.push(Sprite { pos: (offset, 0), uv: (81, 25), dims: (len, 55) });
        r.push(Sprite { pos: (offset, height - 8), uv: (81, 96), dims: (len, 8) });
        proof {
            let rest = if remaining >= 8 {
                top_bottom(offset + 8, remaining - 8, height as int)
            } else {
                seq![]
            };
            let two = seq![
                sprite(offset as int, 0, 81, 25, len as int, 55),
                sprite(offset as int, height - 8, 81, 96, len as int, 8),
            ];
            assert(top_bottom(offset as int, remaining as int, height as int) == two + rest);
            assert(r@ =~= before + two);
            assert(r@ + rest =~= before + (two + rest));
        }
        if remaining >= 8 {
            remaining = remaining - 8;
            offset = offset + 8;
        } else {
            offset = offset + remaining;
            remaining = 0;
        }
    }
    let ghost after_top = r@;
    let mut offset: u32 = 55;
    let mut remaining: u32 = height - 63;
    while remaining > 0
        invariant
            r@ + left_right(offset as int, remaining as int, width as int) == after_top + left_right(
                55,
                height - 63,
                width as int,
            ),
            width >= 55,
            offset + remaining == height - 8,
        decreases remaining,
    {
        let len = if remaining < 16 {
            remaining
        } else {
            16
        };
        let ghost before = r@;
        r.push(Sprite { pos: (0, offset), uv: (69, 80), dims: (12, len) });
        r.push(Sprite { pos: (width - 8, offset), uv: (97, 80), dims: (8, len) });
        proof {
            let rest = if remaining >= 8 {
                left_right(offset + 8, remaining - 8, width as int)
            } else {
                seq![]
            };
            let two = seq![
                sprite(0, offset as int, 69, 80, 12, len as int),
                sprite(width - 8, offset as int, 97, 80, 8, len as int),
            ];
            assert(left_right(offset as int, remaining as int, width as int) == two + rest);
            assert(r@ =~= before + two);
            assert(r@ + rest =~= before + (two + rest));
        }
        if remaining >= 8 {
            remaining = remaining - 8;
            offset = offset + 8;
        } else {
            offset = offset + remaining;
            remaining = 0;
        }
    }
    proof {
        assert(r@ =~= after_top + left_right(55, height - 63, width as int));
    }
    let ghost after_edges = r@;
    r.push(Sprite { pos: (0, 0), uv: (69, 25), dims: (12, 55) });
    r.push(Sprite { pos: (width - 8, 0), uv: (97, 25), dims: (8, 55) });
    r.push(Sprite { pos: (0, height - 8), uv: (69, 96), dims: (12, 8) });
    r.push(Sprite { pos: (width - 8, height - 8), uv: (97, 96), dims: (8, 8) });
    r.push(Sprite { pos: (16, 16), uv: (64, 0), dims: (41, 25) });
    r.push(Sprite { pos: (width - 55, 16), uv: (64, 0), dims: (41, 25) });
    proof {
        assert(r@ =~= after_edges + fixtures(width as int, height as int));
    }
    let ghost after_fixtures = r@;
    let w = data.width();
    let h = data.height();
    proof {
        assert(w * h <= u16::MAX);
        assert(w <= u16::MAX && h <= u16::MAX) by (nonlinear_arith)
            requires
                w * h <= u16::MAX,
                w >= 1,
                h >= 1,
        ;
    }
    let mut y: usize = 0;
    while y < h
        invariant
            data@ == s,
            s.wf(),
            w == s.board.width,
            h == s.board.height,
            w <= u16::MAX,
            h <= u16::MAX,
            y <= h,
            r@ =~= after_fixtures + cells(s).take(y * w),
        decreases h - y,
    {
        let mut x: usize = 0;
        while x < w
            invariant
                data@ == s,
                s.wf(),
                w == s.board.width,
                h == s.board.height,
                w <= u16::MAX,
                h <= u16::MAX,
                y < h,
                x <= w,
                r@ =~= after_fixtures + cells(s).take(y * w + x),
            decreases w - x,
        {
            let uv = data.get_uv(x, y);
            r.push(Sprite { pos: (12 + x as u32 * 16, 55 + y as u32 * 16), uv, dims: (16, 16) });
            proof {
                let i = y * w + x;
                lemma_fundamental_div_mod_converse(i, w as int, y as int, x as int);
                assert(i < w * h) by (nonlinear_arith)
                    requires
                        x < w,
                        y < h,
                        i == y * w + x,
                ;
                assert(cells(s)[i] == cell_sprite(s, x as int, y as int));
                assert(cells(s).take(i + 1) =~= cells(s).take(i).push(cells(s)[i]));
            }
            x += 1;
        }
        proof {
            assert(y * w + w == (y + 1) * w) by (nonlinear_arith);
        }
        y += 1;
    }
    proof {
        assert(cells(s).take(h * w) =~= cells(s)) by {
            assert(h * w == w * h) by (nonlinear_arith);
        }
    }
    let ghost after_cells = r@;
    let face = data.face();
    let fuv = match face {
        Face::Pressed => (105, 78),
        Face::Dead => (105, 52),
        Face::Win => (105, 0),
        Face::Normal => (105, 26),
    };
    r.push(Sprite { pos: (((w * 16 - 2) / 2) as u32, 15), uv: fuv, dims: (26, 26) });
    let mines = counter_uvs(data.mines_shown() as i128);
    let mut i: usize = 0;
    while i < 3
        invariant
            i <= 3,
            mines@ == counter_text(mines_value(s)).map_values(|c: u8| num_uv(c)),
            r@ =~= after_cells + seq![
                sprite(face_left(s.board.width), 15, face_uv(face_spec(s)).0 as int, face_uv(face_spec(s)).1 as int, 26, 26),
            ] + counter(mines_value(s), 17).take(i as int),
        decreases 3 - i,
    {
        r.push(Sprite { pos: (17 + i as u32 * 13, 17), uv: mines[i], dims: (13, 23) });
        proof {
            let c = counter(mines_value(s), 17);
            assert(c.take(i + 1) =~= c.take(i as int).push(c[i as int]));
        }
        i += 1;
    }
    let ghost after_mines = r@;
    let seconds = counter_uvs(data.seconds_shown(now) as i128);
    let mut i: usize = 0;
    while i < 3
        invariant
            i <= 3,
            width >= 55,
            seconds@ == counter_text(seconds_value(s, now as int)).map_values(|c: u8| num_uv(c)),
            r@ =~= after_mines + counter(seconds_value(s, now as int), width - 54).take(i as int),
        decreases 3 - i,
    {
        r.push(Sprite { pos: (width - 54 + i as u32 * 13, 17), uv: seconds[i], dims: (13, 23) });
        proof {
            let c = counter(seconds_value(s, now as int), width - 54);
            assert(c.take(i + 1) =~= c.take(i as int).push(c[i as int]));
        }
        i += 1;
    }
    proof {
        assert(counter(mines_value(s), 17).take(3) =~= counter(mines_value(s), 17));
        assert(counter(seconds_value(s, now as int), width - 54).take(3) =~= counter(
            seconds_value(s, now as int),
            width - 54,
        ));
    }
    r
}

} // verus!
