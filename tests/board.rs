use minesweeper::board::{Board, RevealOutcome};
use minesweeper::tile::{decode, encode, Kind, Tile};

fn count_kind(b: &Board, k: Kind) -> usize {
    let mut n = 0;
    for y in 0..b.height() {
        for x in 0..b.width() {
            if b.get(x, y).kind == k {
                n += 1;
            }
        }
    }
    n
}

fn count_revealed(b: &Board) -> usize {
    let mut n = 0;
    for y in 0..b.height() {
        for x in 0..b.width() {
            if b.get(x, y).revealed {
                n += 1;
            }
        }
    }
    n
}

fn mines_around(b: &Board, x: usize, y: usize) -> u8 {
    let mut n = 0;
    for dy in -1i64..=1 {
        for dx in -1i64..=1 {
            if dx == 0 && dy == 0 {
                continue;
            }
            let (nx, ny) = (x as i64 + dx, y as i64 + dy);
            if nx >= 0 && ny >= 0 && (nx as usize) < b.width() && (ny as usize) < b.height() {
                if b.get(nx as usize, ny as usize).kind == Kind::Mine {
                    n += 1;
                }
            }
        }
    }
    n
}

#[test]
fn codec_exact_bytes() {
    let t = Tile { flagged: true, revealed: false, kind: Kind::Number, adjacent: 3 };
    assert_eq!(encode(t), 0b0011_1001);
    assert_eq!(encode(Tile { flagged: false, revealed: true, kind: Kind::Mine, adjacent: 0 }), 0b0000_0110);
    assert_eq!(encode(Tile { flagged: false, revealed: false, kind: Kind::Number, adjacent: 8 }), 0b1000_1000);
    assert_eq!(decode(0), Tile { flagged: false, revealed: false, kind: Kind::Empty, adjacent: 0 });
    assert_eq!(decode(0b0000_1100).kind, Kind::Reserved);
    assert_eq!(decode(0b0101_1010), Tile { flagged: false, revealed: true, kind: Kind::Number, adjacent: 5 });
}

#[test]
fn codec_round_trip_every_valid_tile() {
    for kind in [Kind::Empty, Kind::Mine, Kind::Number] {
        for adjacent in 0..=8u8 {
            for flagged in [false, true] {
                for revealed in [false, true] {
                    let t = Tile { flagged, revealed, kind, adjacent };
                    assert_eq!(decode(encode(t)), t);
                }
            }
        }
    }
}

#[test]
fn codec_every_byte_decodes_and_encodes_back() {
    for b in 0..=255u8 {
        assert_eq!(encode(decode(b)), b);
    }
}

#[test]
fn new_board_is_cleared() {
    let b = Board::new(4, 3);
    assert_eq!(b.width(), 4);
    assert_eq!(b.height(), 3);
    assert_eq!(b.tiles_left(), 12);
    for y in 0..3 {
        for x in 0..4 {
            assert_eq!(b.byte(x, y), 0);
        }
    }
}

#[test]
fn place_mines_counts_and_avoidance() {
    for _ in 0..50 {
        let mut b = Board::new(9, 9);
        b.place_mines(10, 4, 4);
        assert_eq!(count_kind(&b, Kind::Mine), 10);
        assert_eq!(b.tiles_left(), 71);
        for y in 3..=5 {
            for x in 3..=5 {
                assert_ne!(b.get(x, y).kind, Kind::Mine);
            }
        }
        for y in 0..9 {
            for x in 0..9 {
                let t = b.get(x, y);
                if t.kind != Kind::Mine {
                    let n = mines_around(&b, x, y);
                    assert_eq!(t.adjacent, n);
                    assert_eq!(t.kind == Kind::Empty, n == 0);
                }
            }
        }
    }
}

#[test]
fn place_mines_in_a_corner_fills_every_other_cell() {
    let mut b = Board::new(3, 3);
    b.place_mines(5, 0, 0);
    assert_eq!(count_kind(&b, Kind::Mine), 5);
    for (x, y) in [(0, 0), (1, 0), (0, 1), (1, 1)] {
        assert_ne!(b.get(x, y).kind, Kind::Mine);
    }
    assert_eq!(b.get(1, 1).adjacent, 5);
}

#[test]
fn placements_differ_between_draws() {
    let mut layouts = Vec::new();
    for _ in 0..20 {
        let mut b = Board::new(9, 9);
        b.place_mines(10, 4, 4);
        let mut cells = Vec::new();
        for y in 0..9 {
            for x in 0..9 {
                cells.push(b.byte(x, y));
            }
        }
        layouts.push(cells);
    }
    assert!(layouts.iter().any(|l| *l != layouts[0]));
}

#[test]
fn place_mine_bumps_neighbours() {
    let mut b = Board::new(3, 3);
    b.place_mine(0, 0);
    assert_eq!(b.get(0, 0).kind, Kind::Mine);
    assert_eq!(b.get(1, 0), Tile { flagged: false, revealed: false, kind: Kind::Number, adjacent: 1 });
    assert_eq!(b.get(1, 1).adjacent, 1);
    assert_eq!(b.get(2, 2).kind, Kind::Empty);
    b.place_mine(2, 0);
    assert_eq!(b.get(1, 0).adjacent, 2);
    assert_eq!(b.get(1, 1).adjacent, 2);
    assert_eq!(b.tiles_left(), 7);
}

#[test]
fn number_reveals_only_itself() {
    let mut b = Board::new(3, 3);
    b.place_mine(0, 0);
    b.place_mine(2, 0);
    b.place_mine(1, 2);
    let centre = b.get(1, 1);
    assert_eq!(centre.kind, Kind::Number);
    assert_eq!(centre.adjacent, 3);
    let before = b.tiles_left();
    assert_eq!(b.click(1, 1), RevealOutcome::Cleared(1));
    assert_eq!(b.tiles_left(), before - 1);
    assert_eq!(count_revealed(&b), 1);
    assert!(b.get(1, 1).revealed);
}

#[test]
fn flood_fill_clears_open_board() {
    let mut b = Board::new(5, 5);
    b.place_mine(4, 4);
    assert_eq!(b.tiles_left(), 24);
    assert_eq!(b.click(0, 0), RevealOutcome::Cleared(24));
    assert_eq!(b.tiles_left(), 0);
    assert!(!b.get(4, 4).revealed);
    assert_eq!(count_revealed(&b), 24);
}

#[test]
fn flood_fill_stops_at_numbers() {
    let mut b = Board::new(5, 3);
    for y in 0..3 {
        b.place_mine(2, y);
    }
    let before = b.tiles_left();
    assert_eq!(b.click(0, 0), RevealOutcome::Cleared(6));
    assert_eq!(b.tiles_left(), before - 6);
    for y in 0..3 {
        assert!(b.get(0, y).revealed);
        assert!(b.get(1, y).revealed);
        assert!(!b.get(2, y).revealed);
        assert!(!b.get(3, y).revealed);
        assert!(!b.get(4, y).revealed);
    }
}

#[test]
fn flood_fill_whole_large_board() {
    let mut b = Board::new(255, 255);
    assert_eq!(b.click(100, 100), RevealOutcome::Cleared(65025));
    assert_eq!(b.tiles_left(), 0);
}

#[test]
fn flood_fill_skips_flagged_cells() {
    let mut b = Board::new(5, 1);
    assert!(b.flag(2, 0));
    assert_eq!(b.click(0, 0), RevealOutcome::Cleared(2));
    assert!(!b.get(2, 0).revealed);
    assert!(!b.get(3, 0).revealed);
    assert_eq!(b.tiles_left(), 3);
}

#[test]
fn click_on_mine_flagged_or_revealed() {
    let mut b = Board::new(3, 3);
    b.place_mine(0, 0);
    assert_eq!(b.click(0, 0), RevealOutcome::HitMine);
    assert!(!b.get(0, 0).revealed);
    assert_eq!(b.click(1, 0), RevealOutcome::Cleared(1));
    assert_eq!(b.click(1, 0), RevealOutcome::NoOp);
    b.flag(2, 2);
    assert_eq!(b.click(2, 2), RevealOutcome::NoOp);
}

#[test]
fn board_flag_toggles_and_spares_revealed() {
    let mut b = Board::new(3, 3);
    b.place_mine(0, 0);
    assert!(b.flag(1, 1));
    assert!(b.get(1, 1).flagged);
    assert!(b.flag(1, 1));
    assert!(!b.get(1, 1).flagged);
    b.click(1, 0);
    assert!(!b.flag(1, 0));
    assert!(!b.get(1, 0).flagged);
}

#[test]
fn set_and_clear() {
    let mut b = Board::new(2, 2);
    let t = Tile { flagged: true, revealed: true, kind: Kind::Number, adjacent: 2 };
    b.set(1, 1, t);
    assert_eq!(b.get(1, 1), t);
    assert_eq!(b.byte(1, 1), encode(t));
    b.clear();
    assert_eq!(b.get(1, 1), decode(0));
    assert_eq!(b.tiles_left(), 4);
}
