use reversi::board::Board;
use reversi::color::Color;
use reversi::square::Square;

#[test]
fn mirror() {
    let board = Board {
        dark: 0x7844444870504844,
        light: 0x0,
    };
    let expected = Board {
        dark: 0x4448507048444478,
        light: 0x0,
    };
    assert_eq!(board.mirror(), expected);
}

#[test]
fn rotate_90() {
    let s = Square::from_str("A6").unwrap();
    assert_eq!(s.rotate_90(), Square::from_str("C1").unwrap());

    let s = Square::from_str("B4").unwrap();
    assert_eq!(s.rotate_90(), Square::from_str("E2").unwrap());

    let s = Square::from_str("E3").unwrap();
    assert_eq!(s.rotate_90(), Square::from_str("F5").unwrap());
}

fn sq(s: &str) -> u8 {
    Square::from_str(s).unwrap().to_uint()
}

#[test]
fn initial_legal_moves_for_dark() {
    let board = Board::initial();
    let moves = board.flippable_squares(Color::Dark);
    assert_eq!(moves.count_ones(), 4);
    let expected = (1u64 << sq("D3")) | (1u64 << sq("C4")) | (1u64 << sq("F5")) | (1u64 << sq("E6"));
    assert_eq!(moves, expected);
}

#[test]
fn legal_moves_avoid_occupied_squares() {
    let boards = [
        Board::initial(),
        Board { dark: 0x6000100810120500, light: 0x8efceff76f6d3a3f },
        Board { dark: 0xfc2eeeb28a8c2e3e, light: 0x0311114d75735100 },
    ];
    for b in boards.iter() {
        for c in [Color::Dark, Color::Light].iter() {
            assert_eq!(b.flippable_squares(*c) & (b.dark | b.light), 0);
        }
    }
}

#[test]
fn flip_turns_over_bracketed_discs() {
    let board = Board::initial();
    let d3 = sq("D3");
    assert_eq!(board.flipped_squares(d3, Color::Dark), 1u64 << sq("D4"));
    let next = board.flip(d3, Color::Dark);
    assert_eq!(next.dark, board.dark | (1u64 << d3) | (1u64 << sq("D4")));
    assert_eq!(next.light, board.light & !(1u64 << sq("D4")));
    assert_eq!(next.empty_squares_count(), 59);
    // The board played on is left as it was.
    assert_eq!(board, Board::initial());
}

#[test]
fn rotations_and_mirror_are_involutions() {
    let b = Board { dark: 0x6000100810120500, light: 0x8efceff76f6d3a3f };
    assert_eq!(b.rotate_90().rotate_90().rotate_90().rotate_90(), b);
    assert_eq!(b.rotate_90().rotate_270(), b);
    assert_eq!(b.rotate_180().rotate_180(), b);
    assert_eq!(b.mirror().mirror(), b);
    assert_ne!(b.rotate_90(), b);
}

#[test]
fn rotation_moves_each_disc_with_its_square() {
    let b = Board { dark: 0x7844444870504844, light: 0x0000200438181000 };
    let r = b.rotate_90();
    let m = b.mirror();
    for i in 0..64u8 {
        let s = Square::from_uint(i);
        let ri = s.rotate_90().to_uint();
        let mi = s.mirror().to_uint();
        assert_eq!(b.dark >> i & 1, r.dark >> ri & 1);
        assert_eq!(b.light >> i & 1, r.light >> ri & 1);
        assert_eq!(b.dark >> i & 1, m.dark >> mi & 1);
    }
}

#[test]
fn winner_counts_discs() {
    assert_eq!(Board::initial().winner(), None);
    assert_eq!(Board { dark: 0b111, light: 0b1000 }.winner(), Some(Color::Dark));
    assert_eq!(Board { dark: 0b1, light: 0b1000_0110 }.winner(), Some(Color::Light));
}

#[test]
fn end_and_last_move() {
    let full = Board { dark: 0xffff_ffff_0000_0000, light: 0x0000_0000_ffff_ffff };
    assert!(full.is_end());
    assert!(!full.is_last_move());
    let one = Board { dark: 0xffff_ffff_0000_0000, light: 0x0000_0000_ffff_fffe };
    assert!(one.is_last_move());
    assert!(!one.is_end());
    assert_eq!(one.empty_squares_count(), 1);
}

#[test]
fn every_legal_move_turns_over_an_opponent_disc() {
    let boards = [
        Board::initial(),
        Board { dark: 0x000014f840200000, light: 0x0000200438181000 },
        Board { dark: 0x6000100810120500, light: 0x8efceff76f6d3a3f },
        Board { dark: 0xfc2eeeb28a8c2e3e, light: 0x0311114d75735100 },
    ];
    for b in boards.iter() {
        for c in [Color::Dark, Color::Light].iter() {
            let legal = b.flippable_squares(*c);
            for m in 0..64u8 {
                if legal & (1u64 << m) == 0 {
                    continue;
                }
                let n = b.flip(m, *c);
                let (own, opp) = b.target_boards(*c);
                let (nown, nopp) = n.target_boards(*c);
                assert!(nown & (1u64 << m) != 0);
                assert!(opp & !nopp != 0);
                assert_eq!(nopp & !opp, 0);
                assert_eq!(own & !nown, 0);
                assert_eq!(n.dark & n.light, 0);
            }
        }
    }
}
