use reversi::board::Board;
use reversi::book::OpeningBook;
use reversi::color::Color;
use reversi::engine::{apply_opponent_move, Engine};
use reversi::square::Square;

fn sq(s: &str) -> Square {
    Square::from_str(s).unwrap()
}

#[test]
fn choose_move_on_initial_board() {
    let mut e = Engine::new(OpeningBook::new());
    let b = Board::initial();
    let m = e.choose_move(b, Color::Dark, 60_000).unwrap();
    assert!(["D3", "C4", "F5", "E6"].contains(&m.to_string().as_str()));
}

#[test]
fn choose_move_passes_without_moves() {
    let mut e = Engine::new(OpeningBook::new());
    let b = Board { dark: 0xff, light: 0 };
    assert_eq!(e.choose_move(b, Color::Light, 60_000), None);
}

#[test]
fn choose_move_takes_the_only_move() {
    // Dark on A1, light on B1: C1 is dark's only move.
    let b = Board { dark: 1, light: 2 };
    assert_eq!(b.flippable_squares(Color::Dark), 1u64 << 2);
    let mut e = Engine::new(OpeningBook::new());
    for ms in [1u64, 1000, 100_000].iter() {
        assert_eq!(e.choose_move(b, Color::Dark, *ms), Some(sq("C1")));
    }
}

#[test]
fn choose_move_with_one_millisecond_is_legal() {
    let boards = [
        Board::initial(),
        Board { dark: 0x000014f840200000, light: 0x0000200438181000 },
        Board { dark: 0x6000100810120500, light: 0x8efceff76f6d3a3f },
    ];
    let mut e = Engine::new(OpeningBook::new());
    for b in boards.iter() {
        for c in [Color::Dark, Color::Light].iter() {
            let legal = b.flippable_squares(*c);
            match e.choose_move(*b, *c, 1) {
                Some(s) => assert!(legal & (1u64 << s.to_uint()) != 0),
                None => assert_eq!(legal, 0),
            }
        }
    }
}

#[test]
fn choose_move_solves_the_end_game() {
    let b = Board { dark: 0x6000100810120500, light: 0x8efceff76f6d3a3f };
    let mut e = Engine::new(OpeningBook::new());
    assert_eq!(e.choose_move(b, Color::Dark, 300_000), Some(sq("E8")));
}

#[test]
fn choose_move_uses_the_book() {
    let corpus = vec![33 + sq("E6").to_uint(), b'+'];
    let book = OpeningBook::load(&corpus).unwrap();
    let mut e = Engine::new(book);
    let m = e.choose_move(Board::initial(), Color::Dark, 60_000).unwrap();
    // E6 and its images on the symmetric initial board: the lowest is D3.
    assert_eq!(m, sq("D3"));
}

#[test]
fn start_game_counts_games() {
    let mut e = Engine::new(OpeningBook::new());
    for _ in 0..6 {
        e.start_game();
    }
    assert_eq!(e.games, 6);
}

#[test]
fn opponent_move_and_pass() {
    let b = Board::initial();
    assert_eq!(apply_opponent_move(b, None, Color::Light), b);
    let after = apply_opponent_move(b, Some(sq("F5")), Color::Dark);
    assert_eq!(after, b.flip(sq("F5").to_uint(), Color::Dark));
    assert_eq!(after.dark.count_ones(), 4);
    assert_eq!(after.light.count_ones(), 1);
}

use reversi::message::ServerMessage;
use reversi::session::{Phase, Session, SessionError};

#[test]
fn session_plays_a_game() {
    let mut s = Session::new(Engine::new(OpeningBook::new()));
    assert_eq!(s.phase, Phase::Wait);
    let start = ServerMessage::Start { color: Color::Light, op_name: "Ann".to_string(), remaining_time_ms: 5000 };
    assert_eq!(s.on_message(start), Ok(false));
    assert_eq!(s.phase, Phase::OpponentTurn);
    assert_eq!(s.on_message(ServerMessage::Move { pos: Some(sq("F5")) }), Ok(false));
    assert_eq!(s.phase, Phase::PlayerTurn);
    assert_eq!(s.board, Board::initial().flip(sq("F5").to_uint(), Color::Dark));
    let before = s.board;
    let msg = s.player_move();
    assert!(msg.starts_with("MOVE "));
    let played = Square::from_str(&msg[5..]).unwrap();
    assert!(before.flippable_squares(Color::Light) & (1u64 << played.to_uint()) != 0);
    assert_eq!(s.board, before.flip(played.to_uint(), Color::Light));
    assert_eq!(s.phase, Phase::AwaitAck);
    assert_eq!(s.on_message(ServerMessage::Ack { remaining_time_ms: 4000 }), Ok(false));
    assert_eq!(s.time, 4000);
    assert_eq!(s.on_message(ServerMessage::Move { pos: None }), Ok(false));
    assert_eq!(s.phase, Phase::PlayerTurn);
}

#[test]
fn session_errors_and_results() {
    let mut s = Session::new(Engine::new(OpeningBook::new()));
    assert_eq!(s.on_message(ServerMessage::Ack { remaining_time_ms: 1 }), Err(SessionError::UnexpectedMessage));
    let start = ServerMessage::Start { color: Color::Light, op_name: "Ann".to_string(), remaining_time_ms: 5000 };
    assert_eq!(s.on_message(start), Ok(false));
    // D4 holds a disc already.
    assert_eq!(s.on_message(ServerMessage::Move { pos: Some(sq("D4")) }), Err(SessionError::OccupiedSquare));
    let end = ServerMessage::End { result: reversi::color::GameResult::Win, player_count: 40, op_count: 24, reason: "x".to_string() };
    assert_eq!(s.on_message(end), Ok(false));
    assert_eq!(s.wins, 1);
    assert_eq!(s.phase, Phase::Wait);
    assert_eq!(s.on_message(ServerMessage::Bye { stat: "s".to_string() }), Ok(true));
}

#[test]
fn session_passes_without_moves() {
    let mut s = Session::new(Engine::new(OpeningBook::new()));
    let start = ServerMessage::Start { color: Color::Dark, op_name: "Ann".to_string(), remaining_time_ms: 5000 };
    assert_eq!(s.on_message(start), Ok(false));
    s.board = Board { dark: 0xff, light: 0 };
    assert_eq!(s.player_move(), "MOVE PASS");
    assert_eq!(s.board, Board { dark: 0xff, light: 0 });
}

#[test]
fn memo_is_cleared_every_fifth_game() {
    let mut e = Engine::new(OpeningBook::new());
    let b = Board { dark: 0x6000100810120500, light: 0x8efceff76f6d3a3f };
    e.start_game();
    e.choose_move(b, Color::Dark, 300_000);
    assert!(!e.solver.memo.dark.is_empty() || !e.solver.memo.light.is_empty());
    for _ in 0..3 {
        e.start_game();
    }
    assert!(!e.solver.memo.dark.is_empty() || !e.solver.memo.light.is_empty());
    e.start_game();
    assert_eq!(e.games, 5);
    assert!(e.solver.memo.dark.is_empty() && e.solver.memo.light.is_empty());
}
