use reversi::color::{Color, GameResult};
use reversi::message::{
    move_message, open_message, parse, pass_message, MessageError, ServerMessage,
};
use reversi::square::Square;

#[test]
fn client_messages() {
    assert_eq!(open_message("Joe"), "OPEN Joe");
    assert_eq!(move_message(Square::from_str("d3").unwrap()), "MOVE D3");
    assert_eq!(pass_message(), "MOVE PASS");
}

#[test]
fn parse_start() {
    match parse("START BLACK Alice 60000\n") {
        Ok(ServerMessage::Start { color, op_name, remaining_time_ms }) => {
            assert_eq!(color, Color::Dark);
            assert_eq!(op_name, "Alice");
            assert_eq!(remaining_time_ms, 60000);
        }
        _ => panic!("not a start message"),
    }
    match parse("  START   WHITE Bob 5") {
        Ok(ServerMessage::Start { color, .. }) => assert_eq!(color, Color::Light),
        _ => panic!("not a start message"),
    }
    assert_eq!(parse("START RED Bob 5").err(), Some(MessageError::InvalidColor));
    assert_eq!(parse("START BLACK Bob").err(), Some(MessageError::InvalidMessage));
    assert_eq!(parse("START BLACK Bob x5").err(), Some(MessageError::InvalidTime));
    assert_eq!(parse("START BLACK Bob 4294967296").err(), Some(MessageError::InvalidTime));
}

#[test]
fn parse_end() {
    match parse("END WIN 40 24 DOUBLE_PASS") {
        Ok(ServerMessage::End { result, player_count, op_count, reason }) => {
            assert_eq!(result, GameResult::Win);
            assert_eq!(player_count, 40);
            assert_eq!(op_count, 24);
            assert_eq!(reason, "DOUBLE_PASS");
        }
        _ => panic!("not an end message"),
    }
    assert_eq!(parse("END DRAW 1 2 x").err(), Some(MessageError::InvalidResult));
    assert_eq!(parse("END TIE 300 2 x").err(), Some(MessageError::InvalidCount));
    assert_eq!(parse("END LOSE 3 2").err(), Some(MessageError::InvalidMessage));
}

#[test]
fn parse_move_ack_bye() {
    match parse("MOVE f5") {
        Ok(ServerMessage::Move { pos }) => assert_eq!(pos, Some(Square::from_str("F5").unwrap())),
        _ => panic!("not a move message"),
    }
    match parse("MOVE PASS") {
        Ok(ServerMessage::Move { pos }) => assert_eq!(pos, None),
        _ => panic!("not a move message"),
    }
    assert_eq!(parse("MOVE Z9").err(), Some(MessageError::InvalidSquare));
    match parse("ACK 1234") {
        Ok(ServerMessage::Ack { remaining_time_ms }) => assert_eq!(remaining_time_ms, 1234),
        _ => panic!("not an ack message"),
    }
    assert_eq!(parse("ACK").err(), Some(MessageError::InvalidMessage));
    match parse("BYE stats") {
        Ok(ServerMessage::Bye { stat }) => assert_eq!(stat, "stats"),
        _ => panic!("not a bye message"),
    }
    assert_eq!(parse("").err(), Some(MessageError::Empty));
    assert_eq!(parse("HELLO").err(), Some(MessageError::InvalidCommand));
}
