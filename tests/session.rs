use minesweeper::display::{counter_chars, counter_uvs, get_num_uv, render, Face, Sprite};
use minesweeper::input::{key_input, mouse_click, Button, Key, KeyEffect, Theme};
use minesweeper::session::{fit_to_size, mouse_moved, on_resize, Data, GameState};
use minesweeper::tile::Kind;

/// The pixel at the centre of cell `(x, y)`.
fn pixel_of(x: usize, y: usize) -> (i32, i32) {
    (12 + 16 * x as i32 + 8, 55 + 16 * y as i32 + 8)
}

/// A 9x9 game with 10 mines, opened at its centre and still in play.
fn started(now: u64) -> Data {
    loop {
        let mut d = Data::new(10, 9, 9);
        d.open_cell(4, 4, now);
        if d.state() == GameState::InProgress {
            return d;
        }
    }
}

fn find_kind(d: &Data, k: Kind, revealed: bool) -> Option<(usize, usize)> {
    for y in 0..d.height() {
        for x in 0..d.width() {
            let t = d.tile(x, y);
            if t.kind == k && t.revealed == revealed {
                return Some((x, y));
            }
        }
    }
    None
}

fn neighbours(d: &Data, x: usize, y: usize) -> Vec<(usize, usize)> {
    let mut r = Vec::new();
    for dy in -1i64..=1 {
        for dx in -1i64..=1 {
            let (nx, ny) = (x as i64 + dx, y as i64 + dy);
            if (dx, dy) != (0, 0) && nx >= 0 && ny >= 0 && (nx as usize) < d.width() && (ny as usize) < d.height() {
                r.push((nx as usize, ny as usize));
            }
        }
    }
    r
}

#[test]
fn new_session_not_started() {
    let d = Data::new(10, 9, 9);
    assert_eq!(d.state(), GameState::NotStarted);
    assert_eq!(d.tiles_left(), 71);
    assert_eq!(d.mines(), 10);
    assert_eq!(d.finish_time(), None);
    assert_eq!(d.face(), Face::Normal);
}

#[test]
fn first_click_places_mines_away_from_it() {
    for _ in 0..30 {
        let d = started(100);
        assert!(d.placed_mines());
        assert_eq!(d.start_time(), 100);
        for y in 3..=5 {
            for x in 3..=5 {
                assert_ne!(d.tile(x, y).kind, Kind::Mine);
                assert!(d.tile(x, y).revealed);
            }
        }
        assert_eq!(d.tile(4, 4).kind, Kind::Empty);
        let mut mines = 0;
        for y in 0..9 {
            for x in 0..9 {
                if d.tile(x, y).kind == Kind::Mine {
                    mines += 1;
                }
            }
        }
        assert_eq!(mines, 10);
        assert_ne!(d.state(), GameState::Lost);
    }
}

#[test]
fn tiles_left_drops_by_revealed_count() {
    let mut d = started(0);
    let revealed = |d: &Data| {
        let mut n = 0u16;
        for y in 0..9 {
            for x in 0..9 {
                if d.tile(x, y).revealed {
                    n += 1;
                }
            }
        }
        n
    };
    assert_eq!(d.tiles_left() + revealed(&d), 71);
    if let Some((x, y)) = find_kind(&d, Kind::Number, false) {
        d.click(x, y, 1);
        assert_eq!(d.tiles_left() + revealed(&d), 71);
    }
}

#[test]
fn mine_loses_and_freezes_the_game() {
    let mut d = started(1000);
    let (mx, my) = find_kind(&d, Kind::Mine, false).unwrap();
    d.click(mx, my, 1042);
    assert_eq!(d.state(), GameState::Lost);
    assert_eq!(d.death_pos(), Some((mx, my)));
    assert_eq!(d.finish_time(), Some(42));
    assert_eq!(d.face(), Face::Dead);
    let before: Vec<u8> = (0..81).map(|i| d.get(i % 9, i / 9)).collect();
    if let Some((x, y)) = find_kind(&d, Kind::Number, false) {
        d.click(x, y, 2000);
        d.flag(x, y);
        d.chord(x, y, 2000);
    }
    let after: Vec<u8> = (0..81).map(|i| d.get(i % 9, i / 9)).collect();
    assert_eq!(before, after);
    assert_eq!(d.finish_time(), Some(42));
    assert_eq!(d.mines(), 10);
    assert_eq!(d.get_uv(mx, my), (0, 16));
}

#[test]
fn clearing_every_safe_cell_wins() {
    let mut d = started(10);
    for y in 0..9 {
        for x in 0..9 {
            if d.tile(x, y).kind != Kind::Mine {
                d.click(x, y, 25);
            }
        }
    }
    assert_eq!(d.tiles_left(), 0);
    assert_eq!(d.state(), GameState::Won);
    assert_eq!(d.finish_time(), Some(15));
    assert_eq!(d.face(), Face::Win);
    assert_eq!(d.seconds_shown(500), 15);
}

#[test]
fn flag_twice_restores_tile_and_counter() {
    let mut d = started(0);
    let (x, y) = find_kind(&d, Kind::Mine, false).unwrap();
    let byte = d.get(x, y);
    d.flag(x, y);
    assert!(d.tile(x, y).flagged);
    assert_eq!(d.mines(), 9);
    d.flag(x, y);
    assert_eq!(d.get(x, y), byte);
    assert_eq!(d.mines(), 10);
}

#[test]
fn counter_goes_negative_when_over_flagged() {
    let mut d = Data::new(10, 9, 9);
    for i in 0..12 {
        d.flag(i % 9, i / 9);
    }
    assert_eq!(d.mines(), -2);
    assert_eq!(d.mines_shown(), -2);
    assert_eq!(counter_chars(-2), b" -2".to_vec());
}

#[test]
fn flag_ignores_revealed_cell() {
    let mut d = started(0);
    d.flag(4, 4);
    assert!(!d.tile(4, 4).flagged);
    assert_eq!(d.mines(), 10);
}

#[test]
fn chord_reveals_unflagged_neighbours() {
    for _ in 0..200 {
        let mut d = started(0);
        let mut target = None;
        for y in 0..9 {
            for x in 0..9 {
                let t = d.tile(x, y);
                if target.is_none() && t.revealed && t.kind == Kind::Number {
                    let ns = neighbours(&d, x, y);
                    if ns.iter().any(|&(a, b)| !d.tile(a, b).revealed && d.tile(a, b).kind != Kind::Mine) {
                        target = Some((x, y, ns));
                    }
                }
            }
        }
        if let Some((x, y, ns)) = target {
            for &(a, b) in &ns {
                if d.tile(a, b).kind == Kind::Mine {
                    d.flag(a, b);
                }
            }
            d.chord(x, y, 5);
            assert_ne!(d.state(), GameState::Lost);
            for &(a, b) in &ns {
                let t = d.tile(a, b);
                if t.kind != Kind::Mine {
                    assert!(t.revealed);
                } else {
                    assert!(t.flagged && !t.revealed);
                }
            }
            return;
        }
    }
    panic!("no board with a chord to try");
}

#[test]
fn chord_on_mine_neighbour_loses() {
    let mut d = started(0);
    let (mx, my) = find_kind(&d, Kind::Mine, false).unwrap();
    let (cx, cy) = neighbours(&d, mx, my)[0];
    d.chord(cx, cy, 3);
    assert_eq!(d.state(), GameState::Lost);
    let (dx, dy) = d.death_pos().unwrap();
    assert!((dx as i64 - cx as i64).abs() <= 1 && (dy as i64 - cy as i64).abs() <= 1);
}

#[test]
fn clear_board_only_clears_cells() {
    let mut d = started(30);
    d.flag(0, 0);
    let mines = d.mines();
    d.clear_board();
    for y in 0..9 {
        for x in 0..9 {
            assert_eq!(d.get(x, y), 0);
        }
    }
    assert!(d.placed_mines());
    assert_eq!(d.start_time(), 30);
    assert_eq!(d.mines(), mines);
    assert_eq!((d.width(), d.height()), (9, 9));
}

#[test]
fn restart_resets_the_game() {
    let mut d = started(0);
    d.flag(0, 0);
    d.restart();
    assert_eq!(d.state(), GameState::NotStarted);
    assert_eq!(d.mines(), 10);
    assert_eq!(d.tiles_left(), 71);
    assert_eq!(d.finish_time(), None);
    assert_eq!(d.get(0, 0), 0);
}

#[test]
fn uv_of_cells() {
    let mut d = Data::new(10, 9, 9);
    assert_eq!(d.get_uv(0, 0), (48, 16));
    d.flag(0, 0);
    assert_eq!(d.get_uv(0, 0), (32, 16));
    let (px, py) = pixel_of(0, 0);
    mouse_moved(px, py, &mut d);
    assert_eq!(d.hover_cell(), Some((0, 0)));
    assert_eq!(d.get_uv(0, 0), (32, 0));
    let (px, py) = pixel_of(1, 0);
    mouse_moved(px, py, &mut d);
    assert_eq!(d.get_uv(1, 0), (48, 0));
    d.set_mouse_held(true);
    assert_eq!(d.get_uv(1, 0), (16, 16));
    d.set_mouse_held(false);
    d.open_cell(4, 4, 0);
    assert_eq!(d.get_uv(4, 4), (16, 16));
    let digits = [(48, 48), (32, 48), (16, 48), (0, 48), (48, 32), (32, 32), (16, 32), (0, 32)];
    for y in 0..9 {
        for x in 0..9 {
            let t = d.tile(x, y);
            if t.revealed && t.kind == Kind::Number {
                assert_eq!(d.get_uv(x, y), digits[(t.adjacent - 1) as usize]);
            }
        }
    }
}

#[test]
fn uv_after_loss() {
    let mut d = started(0);
    let (mx, my) = find_kind(&d, Kind::Mine, false).unwrap();
    let mut other = None;
    let mut wrong = None;
    for y in 0..9 {
        for x in 0..9 {
            let t = d.tile(x, y);
            if t.kind == Kind::Mine && (x, y) != (mx, my) && other.is_none() {
                other = Some((x, y));
            }
            if t.kind != Kind::Mine && !t.revealed && wrong.is_none() {
                wrong = Some((x, y));
            }
        }
    }
    let (wx, wy) = wrong.unwrap();
    d.flag(wx, wy);
    d.click(mx, my, 1);
    assert_eq!(d.get_uv(mx, my), (0, 16));
    let (ox, oy) = other.unwrap();
    assert_eq!(d.get_uv(ox, oy), (16, 0));
    assert_eq!(d.get_uv(wx, wy), (0, 0));
}

#[test]
fn pixel_to_cell_mapping() {
    let mut d = Data::new(10, 9, 9);
    mouse_moved(11, 60, &mut d);
    assert_eq!(d.hover_cell(), None);
    mouse_moved(12, 55, &mut d);
    assert_eq!(d.hover_cell(), Some((0, 0)));
    mouse_moved(27, 70, &mut d);
    assert_eq!(d.hover_cell(), Some((0, 0)));
    mouse_moved(28, 71, &mut d);
    assert_eq!(d.hover_cell(), Some((1, 1)));
    mouse_moved(12 + 16 * 9, 60, &mut d);
    assert_eq!(d.hover_cell(), None);
}

#[test]
fn mouse_left_release_reveals() {
    let mut d = Data::new(10, 9, 9);
    let (px, py) = pixel_of(4, 4);
    mouse_moved(px, py, &mut d);
    mouse_click(true, Button::Left, &mut d, 7);
    assert!(d.mouse_held());
    assert_eq!(d.state(), GameState::NotStarted);
    mouse_click(false, Button::Left, &mut d, 7);
    assert!(!d.mouse_held());
    assert_eq!(d.start_time(), 7);
    assert!(d.tile(4, 4).revealed);
    assert_ne!(d.state(), GameState::NotStarted);
}

#[test]
fn mouse_right_flags_and_face_resets() {
    let mut d = Data::new(10, 9, 9);
    let (px, py) = pixel_of(2, 3);
    mouse_moved(px, py, &mut d);
    mouse_click(true, Button::Right, &mut d, 0);
    assert!(d.tile(2, 3).flagged);
    assert_eq!(d.mines(), 9);
    mouse_click(false, Button::Right, &mut d, 0);
    assert!(d.tile(2, 3).flagged);
    mouse_moved(80, 20, &mut d);
    assert!(d.over_face());
    mouse_click(true, Button::Left, &mut d, 0);
    assert_eq!(d.face(), Face::Pressed);
    mouse_click(false, Button::Left, &mut d, 0);
    assert!(!d.tile(2, 3).flagged);
    assert_eq!(d.mines(), 10);
    mouse_click(true, Button::Other, &mut d, 0);
    assert_eq!(d.state(), GameState::NotStarted);
}

#[test]
fn mouse_middle_chords() {
    let mut d = Data::new(10, 9, 9);
    let (px, py) = pixel_of(4, 4);
    mouse_moved(px, py, &mut d);
    mouse_click(true, Button::Middle, &mut d, 3);
    assert!(d.placed_mines());
    for (x, y) in neighbours(&d, 4, 4) {
        assert!(d.tile(x, y).revealed);
    }
}

#[test]
fn keys_presets_and_mine_count() {
    let mut d = Data::new(10, 9, 9);
    assert_eq!(key_input(true, Key::Expert, &mut d), KeyEffect::Nothing);
    assert_eq!(d.width(), 9);
    assert_eq!(key_input(false, Key::Expert, &mut d), KeyEffect::Resize(500, 319));
    assert_eq!((d.width(), d.height(), d.mines()), (30, 16, 99));
    assert_eq!(key_input(false, Key::Intermediate, &mut d), KeyEffect::Resize(276, 319));
    assert_eq!((d.width(), d.height(), d.mines()), (16, 16, 40));
    assert_eq!(key_input(false, Key::Beginner, &mut d), KeyEffect::Resize(164, 207));
    assert_eq!((d.width(), d.height(), d.mines()), (9, 9, 10));
    mouse_moved(40, 90, &mut d);
    key_input(false, Key::Up, &mut d);
    assert_eq!((d.starting_mines(), d.mines(), d.tiles_left()), (11, 11, 70));
    assert_eq!(d.mouse(), (0, 0));
    assert_eq!((d.width(), d.height()), (9, 9));
    key_input(false, Key::Down, &mut d);
    key_input(false, Key::Down, &mut d);
    assert_eq!(d.starting_mines(), 9);
    assert_eq!(key_input(false, Key::Light, &mut d), KeyEffect::SetTheme(Theme::Light));
    assert_eq!(key_input(false, Key::Dark, &mut d), KeyEffect::SetTheme(Theme::Dark));
    assert_eq!(key_input(false, Key::Other, &mut d), KeyEffect::Nothing);
}

#[test]
fn mine_count_bounds() {
    let mut d = Data::new(0, 3, 3);
    key_input(false, Key::Down, &mut d);
    assert_eq!(d.starting_mines(), 0);
    key_input(false, Key::Up, &mut d);
    assert_eq!(d.starting_mines(), 0);
    let mut e = Data::new(0, 4, 3);
    key_input(false, Key::Up, &mut e);
    key_input(false, Key::Up, &mut e);
    key_input(false, Key::Up, &mut e);
    key_input(false, Key::Up, &mut e);
    assert_eq!(e.starting_mines(), 3);
}

#[test]
fn resize_rebuilds_and_fits() {
    let mut d = started(0);
    on_resize(200, 150, &mut d);
    assert_eq!((d.width(), d.height()), (11, 5));
    assert_eq!(d.state(), GameState::NotStarted);
    assert_eq!(d.mines_shown(), 11);
    assert_eq!(d.seconds_shown(0), 5);
    assert_eq!(fit_to_size(&mut d), Some((196, 143)));
    assert_eq!(fit_to_size(&mut d), None);
    assert_eq!(d.mines_shown(), 10);
    assert_eq!(d.seconds_shown(50), 0);
}

#[test]
fn timer_runs_then_stops() {
    let mut d = started(100);
    assert_eq!(d.seconds_shown(130), 30);
    let (mx, my) = find_kind(&d, Kind::Mine, false).unwrap();
    d.click(mx, my, 140);
    assert_eq!(d.seconds_shown(999), 40);
}

#[test]
fn counter_formatting() {
    assert_eq!(counter_chars(7), b"  7".to_vec());
    assert_eq!(counter_chars(42), b" 42".to_vec());
    assert_eq!(counter_chars(999), b"999".to_vec());
    assert_eq!(counter_chars(1234), b"123".to_vec());
    assert_eq!(counter_chars(-5), b" -5".to_vec());
    assert_eq!(counter_chars(-99), b"-99".to_vec());
    assert_eq!(counter_chars(-100), b"-10".to_vec());
    assert_eq!(counter_chars(0), b"  0".to_vec());
    assert_eq!(counter_uvs(-5), vec![(65, 1), (0, 110), (52, 64)]);
}

#[test]
fn glyph_coordinates() {
    assert_eq!(get_num_uv(b'-'), (0, 110));
    assert_eq!(get_num_uv(b'0'), (52, 87));
    assert_eq!(get_num_uv(b'4'), (0, 87));
    assert_eq!(get_num_uv(b'5'), (52, 64));
    assert_eq!(get_num_uv(b'9'), (0, 64));
    assert_eq!(get_num_uv(b' '), (65, 1));
}

#[test]
fn frame_of_a_fresh_beginner_game() {
    let d = Data::new(10, 9, 9);
    let f = render(&d, 164, 207, 0);
    assert_eq!(f.len(), 36 + 36 + 6 + 81 + 1 + 6);
    assert_eq!(f[0], Sprite { pos: (12, 0), uv: (81, 25), dims: (16, 55) });
    assert_eq!(f[1], Sprite { pos: (12, 199), uv: (81, 96), dims: (16, 8) });
    assert_eq!(f[34], Sprite { pos: (148, 0), uv: (81, 25), dims: (8, 55) });
    assert_eq!(f[36], Sprite { pos: (0, 55), uv: (69, 80), dims: (12, 16) });
    assert_eq!(f[37], Sprite { pos: (156, 55), uv: (97, 80), dims: (8, 16) });
    assert_eq!(f[72], Sprite { pos: (0, 0), uv: (69, 25), dims: (12, 55) });
    assert_eq!(f[77], Sprite { pos: (109, 16), uv: (64, 0), dims: (41, 25) });
    assert_eq!(f[78], Sprite { pos: (12, 55), uv: (48, 16), dims: (16, 16) });
    assert_eq!(f[78 + 80], Sprite { pos: (140, 183), uv: (48, 16), dims: (16, 16) });
    assert_eq!(f[159], Sprite { pos: (71, 15), uv: (105, 26), dims: (26, 26) });
    assert_eq!(f[160], Sprite { pos: (17, 17), uv: (65, 1), dims: (13, 23) });
    assert_eq!(f[161], Sprite { pos: (30, 17), uv: (39, 87), dims: (13, 23) });
    assert_eq!(f[162], Sprite { pos: (43, 17), uv: (52, 87), dims: (13, 23) });
    assert_eq!(f[165], Sprite { pos: (136, 17), uv: (52, 87), dims: (13, 23) });
}

#[test]
fn frame_shows_elapsed_seconds() {
    let d = started(1000);
    let f = render(&d, 164, 207, 1123);
    let glyphs: Vec<(u32, u32)> = f[163..166].iter().map(|s| s.uv).collect();
    assert_eq!(glyphs, vec![get_num_uv(b'1'), get_num_uv(b'2'), get_num_uv(b'3')]);
}

#[test]
fn thin_board_keeps_the_first_block_clear() {
    for _ in 0..20 {
        let mut d = Data::new(2, 1, 5);
        d.open_cell(0, 0, 0);
        assert_ne!(d.tile(0, 0).kind, Kind::Mine);
        assert_ne!(d.tile(0, 1).kind, Kind::Mine);
        let mines = (0..5).filter(|&y| d.tile(0, y).kind == Kind::Mine).count();
        assert_eq!(mines, 2);
        assert!(d.tile(0, 0).revealed);
    }
}

#[test]
fn start_then_place_mines() {
    let mut d = Data::new(10, 9, 9);
    d.start(5);
    assert!(d.placed_mines());
    assert_eq!(d.start_time(), 5);
    d.place_mines(4, 4);
    assert!(d.placed_mines());
    assert_eq!(d.start_time(), 5);
    assert_eq!(d.mines(), 10);
    let mut mines = 0;
    for y in 0..9 {
        for x in 0..9 {
            let t = d.tile(x, y);
            assert!(!t.revealed);
            if t.kind == Kind::Mine {
                mines += 1;
                assert!((x as i64 - 4).abs() > 1 || (y as i64 - 4).abs() > 1);
            }
        }
    }
    assert_eq!(mines, 10);
    assert_eq!(d.tiles_left(), 71);
}
