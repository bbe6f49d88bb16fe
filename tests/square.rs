use reversi::square::{Square, SquareError};

#[test]
fn square_text_round_trip() {
    for file in "ABCDEFGH".chars() {
        for rank in "12345678".chars() {
            let text = format!("{}{}", file, rank);
            let s = Square::from_str(&text).unwrap();
            assert_eq!(s.to_string(), text);
            assert_eq!(Square::from_uint(s.to_uint()), s);
        }
    }
}

#[test]
fn square_index_and_lower_case() {
    let c4 = Square::from_str("C4").unwrap();
    assert_eq!(c4.to_uint(), 26);
    assert_eq!(Square::from_str("c4").unwrap(), c4);
    assert_eq!(Square::from_uint(26).to_string(), "C4");
}

#[test]
fn invalid_square_text() {
    for bad in ["", "A", "A9", "I1", "A0", "1A", "A12", "é1"].iter() {
        assert_eq!(Square::from_str(bad), Err(SquareError::InvalidSquare));
    }
}

#[test]
fn square_symmetries() {
    let s = Square::from_str("B3").unwrap();
    assert_eq!(s.rotate_90().rotate_90().rotate_90().rotate_90(), s);
    assert_eq!(s.mirror().mirror(), s);
    assert_eq!(s.mirror(), Square::from_str("B6").unwrap());
    assert_eq!(s.rotate_180(), Square::from_str("G6").unwrap());
    assert_eq!(s.rotate_270(), s.rotate_90().rotate_90().rotate_90());
}
