use reversi::board::Board;
use reversi::color::Color;
use reversi::square::Square;

#[test]
fn raw_score() {
    let board = Board::initial();
    assert_eq!(board.raw_score(Color::Dark), 0);
}

#[test]
fn mountain_score() {
    let board = Board {
        dark: 0x7e3d81818181817e,
        light: 0,
    };
    assert_eq!(
        board.mountain_score(Color::Dark),
        board.get_weight(Board::MOUNTAIN_WEIGHT) * 2
            + board.get_weight(Board::PURE_MOUNTAIN_WEIGHT) * 1
    );
    let board = Board {
        dark: 0x7e3d81818181817e,
        light: 1,
    };
    assert_eq!(
        board.mountain_score(Color::Dark),
        board.get_weight(Board::PURE_MOUNTAIN_WEIGHT)
    );
}

#[test]
fn solid_disks_count() {
    let board = Board::initial();
    assert_eq!(board.solid_disks_count(Color::Light), 0);

    let board = Board {
        dark: 0x0000783c465c3c7e,
        light: 0x008080c0b8a0c080,
    };
    assert_eq!(board.solid_disks_count(Color::Light), 7);

    let board = Board {
        dark: 0x0000783c465c3c7e,
        light: 0x008080c0b8a04080,
    };
    assert_eq!(board.solid_disks_count(Color::Light), 1);

    let board = Board {
        dark: 0x0000e83c465c3c7e,
        light: 0x008000c0b8a0c080,
    };
    assert_eq!(board.solid_disks_count(Color::Light), 5);

    let board = Board {
        dark: 0x0000783c465c3cee,
        light: 0x000080c0b8a0c000,
    };
    assert_eq!(board.solid_disks_count(Color::Dark), 3);
    assert_eq!(board.solid_disks_count(Color::Light), 0);

    let board = Board {
        dark: 0x8080e83c465c3c7e,
        light: 0x000000c0b8a0c080,
    };
    assert_eq!(board.solid_disks_count(Color::Light), 5);
    assert_eq!(board.solid_disks_count(Color::Dark), 3);
}

#[test]
fn openness_of_square() {
    let board = Board::initial();
    let d4 = Square::from_str("D4").unwrap().to_uint();
    let d3 = Square::from_str("D3").unwrap().to_uint();
    assert_eq!(board.openness_of_square(d4), 5);
    assert_eq!(
        board.openness_score(d3, Color::Dark),
        5 * board.get_weight(Board::OPENNESS_WEIGHT)
    );

    let board = Board {
        dark: 0x000014f840200000,
        light: 0x0000200438181000,
    };
    let f2 = Square::from_str("F2").unwrap().to_uint();
    assert_eq!(
        board.openness_score(f2, Color::Light),
        3 * board.get_weight(Board::OPENNESS_WEIGHT)
    );
    let d6 = Square::from_str("D6").unwrap().to_uint();
    assert_eq!(
        board.openness_score(d6, Color::Light),
        7 * board.get_weight(Board::OPENNESS_WEIGHT)
    );
    let g6 = Square::from_str("G6").unwrap().to_uint();
    assert_eq!(
        board.openness_score(g6, Color::Light),
        1 * board.get_weight(Board::OPENNESS_WEIGHT)
    );
}

#[test]
fn weights_follow_the_phase() {
    let board = Board::initial();
    assert_eq!(board.get_weight(Board::FLIPPABLE_COUNT_WEIGHT), -3);
    let late = Board { dark: 0x00ff_ffff_ffff_ffff, light: 0 };
    assert_eq!(late.get_weight(Board::FLIPPABLE_COUNT_WEIGHT), -1);
    let mid = Board { dark: 0xffff_ffff, light: 0 };
    assert_eq!(mid.get_weight(Board::FLIPPABLE_COUNT_WEIGHT), -2);
}

#[test]
fn raw_score_scales_with_phase() {
    // A dark corner alone: 100, tripled early.
    let early = Board { dark: 1, light: 0 };
    assert_eq!(early.raw_score(Color::Dark), 300);
    assert_eq!(early.raw_score(Color::Light), -300);
    // With 10 empty squares a tenth, rounded toward zero.
    let late = Board { dark: 0x003f_ffff_ffff_ffff, light: 0 };
    let expected = {
        let mut raw: i32 = 0;
        for i in 0..64 {
            if late.dark >> i & 1 == 1 {
                raw += Board::RAW_VALUES[i] as i32;
            }
        }
        raw += late.corner_flipped_score(Color::Dark) as i32;
        (raw / 10) as i16
    };
    assert_eq!(late.raw_score(Color::Dark), expected);
}

#[test]
fn corner_flipped_counts_held_neighbours() {
    let b = Board { dark: 0b10, light: 0b1 };
    assert_eq!(b.corner_flipped_score(Color::Dark), -20);
    assert_eq!(b.corner_flipped_score(Color::Light), 0);
}

#[test]
fn terminal_flag() {
    // Dark just moved and light has no disc left: a won game.
    let b = Board { dark: 0xff, light: 0 };
    assert_eq!(b.empty_score(Color::Light), 5000);
    assert_eq!(b.empty_score(Color::Dark), -5000);
    assert_eq!(Board::initial().empty_score(Color::Light), 0);
}

#[test]
fn score_is_sum_of_features() {
    let board = Board::initial();
    let d3 = Square::from_str("D3").unwrap().to_uint();
    let n = board.flip(d3, Color::Dark);
    let expected = n.raw_score(Color::Dark)
        + n.flippable_count_score(Color::Light)
        + n.corner_flippable_score(Color::Light)
        + n.mountain_score(Color::Dark)
        + n.solid_disks_score(Color::Dark)
        + board.openness_score(d3, Color::Dark)
        + n.empty_score(Color::Light);
    assert_eq!(board.score(d3, Color::Dark), expected);
    assert_eq!(n.flippable_count_score(Color::Light), -9);
}
