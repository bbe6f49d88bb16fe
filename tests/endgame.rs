use reversi::board::Board;
use reversi::color::Color;
use reversi::endgame::Exhausive;
use reversi::nega_scout::NegaScout;
use reversi::strategy::{Naive, Strategy};

#[test]
fn next_move() {
    let boards = [
        Board {
            dark: 0x6000100810120500,
            light: 0x8efceff76f6d3a3f,
        },
        Board {
            dark: 0xfc2eeeb28a8c2e3e,
            light: 0x0311114d75735100,
        },
    ];
    let next_moves = ["E8", "H1"];
    let mut e = Exhausive::new(100000);
    for (b, s) in boards.iter().zip(next_moves.iter()) {
        assert_eq!(
            e.next_move(b.clone(), Color::Dark).unwrap().to_string(),
            s.to_string()
        );
    }
}

#[test]
fn solver_proves_dark_wins_corner_take() {
    let b = Board { dark: 0x6000100810120500, light: 0x8efceff76f6d3a3f };
    let mut e = Exhausive::new(100000);
    assert_eq!(e.winnable_color(b, Color::Dark, false), Some(Color::Dark));
}

#[test]
fn last_move_is_read_off() {
    // H8 is the only empty square; light's disc on G8 lets dark take it.
    let b = Board { dark: 0x3fff_ffff_ffff_ffff, light: 0x4000_0000_0000_0000 };
    assert!(b.is_last_move());
    assert_eq!(Exhausive::winnable_color_last(b, Color::Dark, false), Some(Color::Dark));
    let mut e = Exhausive::new(100000);
    assert_eq!(e.winnable_color(b, Color::Dark, false), Some(Color::Dark));
}

#[test]
fn no_move_means_pass() {
    let b = Board { dark: 0xff, light: 0 };
    let mut e = Exhausive::new(1000);
    assert_eq!(e.next_move(b, Color::Light), None);
    let mut n = NegaScout::new(1000, None);
    assert_eq!(n.next_move(b, Color::Light), None);
    assert_eq!(Naive {}.next_move(b, Color::Light), None);
}

#[test]
fn naive_plays_lowest_square() {
    let b = Board::initial();
    let s = Naive {}.next_move(b, Color::Dark).unwrap();
    assert_eq!(s.to_string(), "D3");
}

#[test]
fn nega_scout_returns_a_legal_move_in_time() {
    let b = Board::initial();
    let em = NegaScout::emergency_move(b, Color::Dark);
    assert!(em.is_some());
    let mut n = NegaScout::new(1, em);
    let s = n.next_move(b, Color::Dark).unwrap();
    assert!(b.flippable_squares(Color::Dark) & (1u64 << s.to_uint()) != 0);
}

#[test]
fn emergency_move_is_best_evaluated() {
    let b = Board { dark: 0x000014f840200000, light: 0x0000200438181000 };
    let m = NegaScout::emergency_move(b, Color::Light).unwrap();
    let legal = b.flippable_squares(Color::Light);
    for j in 0..64u8 {
        if legal & (1u64 << j) != 0 {
            assert!(b.score(j, Color::Light) <= b.score(m, Color::Light));
        }
    }
}

#[test]
fn solver_stores_its_verdict() {
    let b = Board { dark: 0x6000100810120500, light: 0x8efceff76f6d3a3f };
    let mut e = Exhausive::new(100000);
    let v = e.winnable_color(b, Color::Dark, false);
    let key = ((b.dark as u128) << 64) | (b.light as u128);
    assert_eq!(e.memo.dark.get(&key), Some(&v));
    // A second call reads the stored verdict back.
    let before = e.memo.dark.len();
    assert_eq!(e.winnable_color(b, Color::Dark, false), v);
    assert_eq!(e.memo.dark.len(), before);
}

#[test]
fn moves_are_ordered_by_score_then_square() {
    let b = Board::initial();
    let legal = b.flippable_squares(Color::Dark);
    let moves = reversi::ordering::order_moves(b, Color::Dark, legal);
    assert_eq!(moves.len(), 4);
    for w in moves.windows(2) {
        let (x, y) = (b.score(w[0], Color::Dark), b.score(w[1], Color::Dark));
        assert!(x > y || (x == y && w[0] < w[1]));
    }
}
