//! The decisions taken on input events: which button or key does what.
use vstd::prelude::*;
use crate::display::{hovered, over_face};
use crate::session::{chorded, opened, Data, Session};

verus! {

/// A mouse button.
#[derive(Clone, Copy, PartialEq, Eq, Structural, Debug)]
pub enum Button {
    Left,
    Right,
    Middle,
    Other,
}

/// The keys the game reacts to.
#[derive(Clone, Copy, PartialEq, Eq, Structural, Debug)]
pub enum Key {
    /// A 9x9 board with 10 mines.
    Beginner,
    /// A 16x16 board with 40 mines.
    Intermediate,
    /// A 30x16 board with 99 mines.
    Expert,
    /// One mine more.
    Up,
    /// One mine less.
    Down,
    Light,
    Dark,
    Other,
}

#[derive(Clone, Copy, PartialEq, Eq, Structural, Debug)]
pub enum Theme {
    Dark,
    Light,
}

/// What the window has to do after a key.
#[derive(Clone, Copy, PartialEq, Eq, Structural, Debug)]
pub enum KeyEffect {
    Nothing,
    /// Set the window's inner size to this many pixels.
    Resize(u32, u32),
    SetTheme(Theme),
}

/// The window size, in pixels, that holds a `width` by `height` board.
pub open spec fn window_size(width: int, height: int) -> (u32, u32) {
    ((20 + 16 * width) as u32, (63 + 16 * height) as u32)
}

/// What a mouse event at `now` does to the session `s`, giving `f`.
pub open spec fn mouse_effect(s: Session, f: Session, pressed: bool, button: Button, now: int) -> bool {
    match button {
        Button::Left => {
            let s1 = Session { held: pressed, ..s };
            if pressed {
                f == s1
            } else if over_face(s1) {
                s1.restarted(f, s1.starting_mines)
            } else {
                match hovered(s1) {
                    Some((cx, cy)) => opened(s1, f, cx as usize, cy as usize, now),
                    None => f == s1,
                }
            }
        },
        Button::Right => match hovered(s) {
            Some((cx, cy)) => if pressed {
                f == s.flagged_at(cx, cy)
            } else {
                f == s
            },
            None => f == s,
        },
        Button::Middle => match hovered(s) {
            Some((cx, cy)) => if pressed {
                chorded(s, f, cx as usize, cy as usize, now)
            } else {
                f == s
            },
            None => f == s,
        },
        Button::Other => f == s,
    }
}

/// A mouse button went down (`pressed`) or up at time `now`. Releasing the
/// left button reveals the cell under the cursor, or restarts the game over
/// the status face; pressing the right one toggles a flag; pressing the
/// middle one chords.
pub fn mouse_click(pressed: bool, button: Button, data: &mut Data, now: u64)
    requires
        old(data)@.wf(),
        now >= old(data)@.start_time,
    ensures
        final(data)@.wf(),
        mouse_effect(old(data)@, final(data)@, pressed, button, now as int),
{
    match button {
        Button::Left => {
            data.set_mouse_held(pressed);
            if pressed {
                return;
            }
            if data.over_face() {
                data.restart();
            } else if let Some((x, y)) = data.hover_cell() {
                data.open_cell(x, y, now);
            }
        },
        Button::Right => {
            if pressed {
                if let Some((x, y)) = data.hover_cell() {
                    data.flag(x, y);
                }
            }
        },
        Button::Middle => {
            if pressed {
                if let Some((x, y)) = data.hover_cell() {
                    data.chord(x, y, now);
                }
            }
        },
        Button::Other => {},
    }
}

/// A key went down (`pressed`) or up. On release, the presets start a new
/// game and ask for a window that fits it, the arrows change the number of
/// mines and restart, and the theme keys switch the theme.
pub fn key_input(pressed: bool, key: Key, data: &mut Data) -> (r: KeyEffect)
    requires
        old(data)@.wf(),
    ensures
        final(data)@.wf(),
        pressed || key == Key::Other || key == Key::Light || key == Key::Dark ==> final(data)@ == old(
            data,
        )@,
        pressed ==> r == KeyEffect::Nothing,
        !pressed ==> match key {
            Key::Beginner => {
                &&& r == KeyEffect::Resize(window_size(9, 9).0, window_size(9, 9).1)
                &&& old(data)@.renewed(Session { mouse: old(data)@.mouse, ..final(data)@ }, 10)
                &&& final(data)@.mouse == (0i32, 0i32)
                &&& final(data)@.board.width == 9 && final(data)@.board.height == 9
            },
            Key::Intermediate => {
                &&& r == KeyEffect::Resize(window_size(16, 16).0, window_size(16, 16).1)
                &&& old(data)@.renewed(Session { mouse: old(data)@.mouse, ..final(data)@ }, 40)
                &&& final(data)@.mouse == (0i32, 0i32)
                &&& final(data)@.board.width == 16 && final(data)@.board.height == 16
            },
            Key::Expert => {
                &&& r == KeyEffect::Resize(window_size(30, 16).0, window_size(30, 16).1)
                &&& old(data)@.renewed(Session { mouse: old(data)@.mouse, ..final(data)@ }, 99)
                &&& final(data)@.mouse == (0i32, 0i32)
                &&& final(data)@.board.width == 30 && final(data)@.board.height == 16
            },
            Key::Up => {
                &&& r == KeyEffect::Nothing
                &&& if old(data)@.starting_mines + 9 < old(data)@.board.width * old(data)@.board.height {
                    &&& old(data)@.restarted(
                        Session { mouse: old(data)@.mouse, ..final(data)@ },
                        old(data)@.starting_mines + 1,
                    )
                    &&& final(data)@.mouse == (0i32, 0i32)
                } else {
                    final(data)@ == old(data)@
                }
            },
            Key::Down => {
                &&& r == KeyEffect::Nothing
                &&& if old(data)@.starting_mines > 0 {
                    &&& old(data)@.restarted(
                        Session { mouse: old(data)@.mouse, ..final(data)@ },
                        old(data)@.starting_mines - 1,
                    )
                    &&& final(data)@.mouse == (0i32, 0i32)
                } else {
                    final(data)@ == old(data)@
                }
            },
            Key::Light => r == KeyEffect::SetTheme(Theme::Light),
            Key::Dark => r == KeyEffect::SetTheme(Theme::Dark),
            Key::Other => r == KeyEffect::Nothing,
        },
{
    if pressed {
        return KeyEffect::Nothing;
    }
    match key {
        Key::Beginner => {
            data.new_game(10, 9, 9);
            KeyEffect::Resize(20 + 16 * 9, 63 + 16 * 9)
        },
        Key::Intermediate => {
            data.new_game(40, 16, 16);
            KeyEffect::Resize(20 + 16 * 16, 63 + 16 * 16)
        },
        Key::Expert => {
            data.new_game(99, 30, 16);
            KeyEffect::Resize(20 + 16 * 30, 63 + 16 * 16)
        },
        Key::Up => {
            let m = data.starting_mines();
            if (m as usize) + 9 < data.width() * data.height() {
                proof {
                    crate::board::lemma_widest_zone(data@.board.width, data@.board.height);
                }
                data.set_starting_mines(m + 1);
            }
            KeyEffect::Nothing
        },
        Key::Down => {
            let m = data.starting_mines();
            if m > 0 {
                data.set_starting_mines(m - 1);
            }
            KeyEffect::Nothing
        },
        Key::Light => KeyEffect::SetTheme(Theme::Light),
        Key::Dark => KeyEffect::SetTheme(Theme::Dark),
        Key::Other => KeyEffect::Nothing,
    }
}

} // verus!
