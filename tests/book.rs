use reversi::board::Board;
use reversi::book::{BookError, OpeningBook};
use reversi::color::Color;
use reversi::square::Square;

fn ply(s: &str) -> u8 {
    33 + Square::from_str(s).unwrap().to_uint()
}

fn images(b: Board, s: Square) -> Vec<(Board, Square)> {
    let m = b.mirror();
    let ms = s.mirror();
    vec![
        (b, s),
        (b.rotate_90(), s.rotate_90()),
        (b.rotate_180(), s.rotate_180()),
        (b.rotate_270(), s.rotate_270()),
        (m, ms),
        (m.rotate_90(), ms.rotate_90()),
        (m.rotate_180(), ms.rotate_180()),
        (m.rotate_270(), ms.rotate_270()),
    ]
}

#[test]
fn book_resolves_every_symmetry_of_a_winning_opening() {
    let corpus = vec![ply("D3"), b'+', b'\n'];
    let book = OpeningBook::load(&corpus).unwrap();
    let d3 = Square::from_str("D3").unwrap();
    let all = images(Board::initial(), d3);
    for (b, _) in all.iter() {
        let got = book.get(b, Color::Dark).unwrap();
        // The initial position is symmetric, so several images share a board;
        // the book keeps the lowest of their replies.
        let expected = all
            .iter()
            .filter(|(b2, _)| b2 == b)
            .map(|(_, s)| s.to_uint())
            .min()
            .unwrap();
        assert_eq!(got.to_uint(), expected);
        assert!(b.flippable_squares(Color::Dark) & (1u64 << got.to_uint()) != 0);
        assert_eq!(book.get(b, Color::Light), None);
    }
    assert_eq!(book.get(&Board::initial(), Color::Dark), Some(d3));
}

#[test]
fn book_keeps_the_most_played_reply() {
    // Dark wins twice with F5 and once with D3; light's wins are not counted
    // for dark.
    let corpus = vec![
        ply("F5"), b'+', b'\n',
        ply("D3"), b'+', b'\n',
        ply("F5"), b'+', b'\n',
        ply("C4"), b'-', b'\n',
    ];
    let book = OpeningBook::load(&corpus).unwrap();
    let f5 = Square::from_str("F5").unwrap();
    // F5 and D3 are images of each other on the initial board, so each
    // image board holds the lowest image of the most played reply.
    let got = book.get(&Board::initial(), Color::Dark).unwrap();
    let expected = images(Board::initial(), f5)
        .iter()
        .filter(|(b2, _)| *b2 == Board::initial())
        .map(|(_, s)| s.to_uint())
        .min()
        .unwrap();
    assert_eq!(got.to_uint(), expected);
    // Light's reply is counted only after dark's C4.
    let after = Board::initial().flip(Square::from_str("C4").unwrap().to_uint(), Color::Dark);
    assert_eq!(book.get(&after, Color::Light), None);
}

#[test]
fn book_records_the_winners_later_moves() {
    // Dark F5, light F6 (dark loses): light's reply F6 is recorded.
    let corpus = vec![ply("F5"), ply("F6"), b'-'];
    let book = OpeningBook::load(&corpus).unwrap();
    let after = Board::initial().flip(Square::from_str("F5").unwrap().to_uint(), Color::Dark);
    let got = book.get(&after, Color::Light).unwrap();
    assert!(after.flippable_squares(Color::Light) & (1u64 << got.to_uint()) != 0);
    assert_eq!(book.get(&Board::initial(), Color::Dark), None);
}

#[test]
fn book_is_independent_of_line_order() {
    let a = vec![ply("F5"), ply("F6"), ply("E6"), b'+', b'\n', ply("D3"), ply("C3"), b'-', b'\n'];
    let b = vec![ply("D3"), ply("C3"), b'-', b'\n', ply("F5"), ply("F6"), ply("E6"), b'+', b'\n'];
    let x = OpeningBook::load(&a).unwrap();
    let y = OpeningBook::load(&b).unwrap();
    assert_eq!(x.dark, y.dark);
    assert_eq!(x.light, y.light);
    assert!(!x.dark.is_empty());
}

#[test]
fn book_rejects_malformed_corpus() {
    assert_eq!(OpeningBook::load(&[ply("D3")]).err(), Some(BookError::MissingWinner));
    assert_eq!(OpeningBook::load(&[ply("D3"), b'x']).err(), Some(BookError::MissingWinner));
    assert_eq!(OpeningBook::load(&[b'\n']).err(), Some(BookError::MissingWinner));
    // A1 is not a legal opening move.
    assert_eq!(OpeningBook::load(&[ply("A1"), b'+']).err(), Some(BookError::InvalidMove));
    assert_eq!(OpeningBook::load(&[b' ', b'+']).err(), Some(BookError::InvalidMove));
    assert!(OpeningBook::load(&[]).is_ok());
}
