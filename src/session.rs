//! One player's side of a match: what each server message does to the game,
//! and the move the player answers with. The caller does the I/O.
use vstd::prelude::*;

use crate::bits::{has_bit, lemma_has_bit_mask};
use crate::board::Board;
use crate::color::{Color, GameResult};
use crate::engine::{apply_opponent_move, Engine};
use crate::message::{move_message, pass_message, ServerMessage};
use crate::square::{is_text_of, Square};
use crate::strategy::is_legal;

verus! {

/// Where a session stands.
#[derive(Clone, Copy, Debug, PartialEq, Eq, Structural)]
pub enum Phase {
    /// Between games: a start or a goodbye comes next.
    Wait,
    /// The player is to move.
    PlayerTurn,
    /// The player has moved: an acknowledgement or the end comes next.
    AwaitAck,
    /// The opponent is to move.
    OpponentTurn,
}

/// A server message that does not fit where the session stands.
#[derive(Clone, Copy, Debug, PartialEq, Eq, Structural)]
pub enum SessionError {
    UnexpectedMessage,
    OffBoard,
    OccupiedSquare,
}

pub struct Session {
    pub engine: Engine,
    pub phase: Phase,
    pub board: Board,
    pub color: Color,
    pub opponent_name: String,
    pub time: u32,
    pub wins: u32,
    pub losses: u32,
    pub ties: u32,
}

/// `n + 1`, kept at the largest value.
pub open spec fn bump(n: u32) -> u32 {
    if n < u32::MAX {
        (n + 1) as u32
    } else {
        n
    }
}

fn bump_exec(n: u32) -> (r: u32)
    ensures
        r == bump(n),
{
    if n < u32::MAX {
        n + 1
    } else {
        n
    }
}

impl Session {
    pub open spec fn wf(&self) -> bool {
        self.engine.wf() && self.board.wf()
    }

    pub fn new(engine: Engine) -> (r: Session)
        requires
            engine.wf(),
        ensures
            r.wf(),
            r.phase == Phase::Wait,
            r.board == Board::initial_spec(),
    {
        Session {
            engine,
            phase: Phase::Wait,
            board: Board::initial(),
            color: Color::Dark,
            opponent_name: String::new(),
            time: 0,
            wins: 0,
            losses: 0,
            ties: 0,
        }
    }

    /// Takes in a server message. `Ok(true)` when the server said goodbye.
    pub fn on_message(&mut self, msg: ServerMessage) -> (r: Result<bool, SessionError>)
        requires
            old(self).wf(),
            old(self).phase != Phase::PlayerTurn,
        ensures
            final(self).wf(),
            r == Ok::<bool, SessionError>(true) <==> (old(self).phase == Phase::Wait
                && msg is Bye),
            match (old(self).phase, msg) {
                (Phase::Wait, ServerMessage::Start { color, remaining_time_ms, .. }) => {
                    &&& r == Ok::<bool, SessionError>(false)
                    &&& final(self).board == Board::initial_spec()
                    &&& final(self).color == color
                    &&& final(self).time == remaining_time_ms
                    &&& final(self).phase == if color == Color::Dark {
                        Phase::PlayerTurn
                    } else {
                        Phase::OpponentTurn
                    }
                },
                (Phase::Wait, ServerMessage::Bye { .. }) => final(self).phase == Phase::Wait,
                (Phase::AwaitAck, ServerMessage::Ack { remaining_time_ms }) => {
                    &&& r == Ok::<bool, SessionError>(false)
                    &&& final(self).time == remaining_time_ms
                    &&& final(self).phase == Phase::OpponentTurn
                    &&& final(self).board == old(self).board
                },
                (Phase::AwaitAck, ServerMessage::End { result, .. }) | (
                    Phase::OpponentTurn,
                    ServerMessage::End { result, .. },
                ) => {
                    &&& r == Ok::<bool, SessionError>(false)
                    &&& final(self).phase == Phase::Wait
                    &&& final(self).wins == if result == GameResult::Win {
                        bump(old(self).wins)
                    } else {
                        old(self).wins
                    }
                    &&& final(self).losses == if result == GameResult::Lose {
                        bump(old(self).losses)
                    } else {
                        old(self).losses
                    }
                    &&& final(self).ties == if result == GameResult::Tie {
                        bump(old(self).ties)
                    } else {
                        old(self).ties
                    }
                },
                (Phase::OpponentTurn, ServerMessage::Move { pos }) => {
                    match pos {
                        Some(s) => if !s.wf() {
                            r == Err::<bool, SessionError>(SessionError::OffBoard)
                        } else if has_bit(old(self).board.dark | old(self).board.light, s.index() as u64) {
                            r == Err::<bool, SessionError>(SessionError::OccupiedSquare)
                        } else {
                            &&& r == Ok::<bool, SessionError>(false)
                            &&& final(self).board == old(self).board.play(s.index(), old(self).color.opp())
                            &&& final(self).phase == Phase::PlayerTurn
                        },
                        None => {
                            &&& r == Ok::<bool, SessionError>(false)
                            &&& final(self).board == old(self).board
                            &&& final(self).phase == Phase::PlayerTurn
                        },
                    }
                },
                _ => r == Err::<bool, SessionError>(SessionError::UnexpectedMessage),
            },
    {
        match (self.phase, msg) {
            (Phase::Wait, ServerMessage::Start { color, op_name, remaining_time_ms }) => {
                self.engine.start_game();
                self.board = Board::initial();
                self.color = color;
                self.opponent_name = op_name;
                self.time = remaining_time_ms;
                self.phase = match color {
                    Color::Dark => Phase::PlayerTurn,
                    Color::Light => Phase::OpponentTurn,
                };
                Ok(false)
            },
            (Phase::Wait, ServerMessage::Bye { .. }) => Ok(true),
            (Phase::AwaitAck, ServerMessage::Ack { remaining_time_ms }) => {
                self.time = remaining_time_ms;
                self.phase = Phase::OpponentTurn;
                Ok(false)
            },
            (Phase::AwaitAck, ServerMessage::End { result, .. }) | (
                Phase::OpponentTurn,
                ServerMessage::End { result, .. },
            ) => {
                match result {
                    GameResult::Win => {
                        self.wins = bump_exec(self.wins);
                    },
                    GameResult::Lose => {
                        self.losses = bump_exec(self.losses);
                    },
                    GameResult::Tie => {
                        self.ties = bump_exec(self.ties);
                    },
                }
                self.phase = Phase::Wait;
                Ok(false)
            },
            (Phase::OpponentTurn, ServerMessage::Move { pos }) => {
                if let Some(s) = pos {
                    if s.x >= 8 || s.y >= 8 {
                        return Err(SessionError::OffBoard);
                    }
                    let i = s.to_uint();
                    proof {
                        lemma_has_bit_mask(self.board.dark | self.board.light, i as u64);
                    }
                    if (self.board.dark | self.board.light) & (1u64 << (i as u64)) != 0 {
                        return Err(SessionError::OccupiedSquare);
                    }
                }
                self.board = apply_opponent_move(self.board, pos, self.color.opposite());
                self.phase = Phase::PlayerTurn;
                Ok(false)
            },
            _ => Err(SessionError::UnexpectedMessage),
        }
    }

    /// The player's move, played on the board: the message to send.
    pub fn player_move(&mut self) -> (r: String)
        requires
            old(self).wf(),
            old(self).phase == Phase::PlayerTurn,
        ensures
            final(self).wf(),
            final(self).phase == Phase::AwaitAck,
            old(self).board.legal(old(self).color) == 0 ==> r@ == "MOVE PASS"@
                && final(self).board == old(self).board,
            old(self).board.legal(old(self).color) != 0 ==> exists|s: Square|
                #![trigger is_legal(old(self).board, old(self).color, s)]
                is_legal(old(self).board, old(self).color, s) && final(self).board == old(
                    self,
                ).board.play(s.index(), old(self).color) && r@.len() == 7 && r@.subrange(0, 5)
                    == "MOVE "@ && is_text_of(r@.subrange(5, 7), s.x as int, s.y as int),
    {
        let board = self.board;
        let color = self.color;
        let msg = match self.engine.choose_move(board, color, self.time as u64) {
            Some(square) => {
                let i = square.to_uint();
                proof {
                    crate::board::lemma_play_legal(board, i as u64, color);
                }
                self.board = board.flip(i, color);
                let m = move_message(square);
                assert(is_legal(board, color, square));
                m
            },
            None => pass_message(),
        };
        self.phase = Phase::AwaitAck;
        msg
    }
}

} // verus!
