//! The orchestrator: picks the book, the exact solver or the NegaScout search
//! for each move, and keeps the book and the solver's memo between moves.
use vstd::prelude::*;

use crate::bits::{has_bit, lemma_pop_two, pop};
use crate::board::Board;
use crate::book::OpeningBook;
use crate::color::Color;
use crate::endgame::{board_key, Exhausive};
use crate::nega_scout::NegaScout;
use crate::opening::book_move;
use crate::square::Square;
use crate::strategy::{is_legal, Strategy};

verus! {

/// Below this many empty squares the exact solver plays.
pub const ENDGAME_BORDER: u8 = 24;

/// The time kept back for the end game while the middle game is searched.
pub const RESERVE_MS: u64 = 30000;

/// The solver's memo is cleared after this many games.
pub const MEMO_GAMES: u32 = 5;

/// The long-lived state of a player: its opening book, the exact solver with
/// its memo, and the number of games started.
pub struct Engine {
    pub book: OpeningBook,
    pub solver: Exhausive,
    pub games: u32,
}

impl Engine {
    pub open spec fn wf(&self) -> bool {
        self.book.wf() && self.solver.memo.wf()
    }

    pub fn new(book: OpeningBook) -> (r: Engine)
        requires
            book.wf(),
        ensures
            r.wf(),
            r.book == book,
            r.games == 0,
    {
        Engine { book, solver: Exhausive::new(0), games: 0 }
    }

    /// Counts a new game; every few games the solver's memo is cleared to
    /// bound its memory.
    pub fn start_game(&mut self)
        requires
            old(self).wf(),
        ensures
            final(self).wf(),
            final(self).book == old(self).book,
            final(self).games % MEMO_GAMES == 0 ==> final(self).solver.memo.table(Color::Dark)
                == Map::<u128, Option<Color>>::empty() && final(self).solver.memo.table(
                Color::Light,
            ) == Map::<u128, Option<Color>>::empty(),
            final(self).games % MEMO_GAMES != 0 ==> final(self).solver.memo == old(
                self,
            ).solver.memo,
            final(self).games == if old(self).games < u32::MAX {
                old(self).games + 1
            } else {
                old(self).games as int
            },
    {
        if self.games < u32::MAX {
            self.games = self.games + 1;
        }
        if self.games % MEMO_GAMES == 0 {
            self.solver.memo.clear();
        }
    }

    /// The move of `side` on `board` with `remaining_ms` left on its clock:
    /// the book's reply, else the exact solver's below the end-game border
    /// (a third of the time), else NegaScout's (half of the time beyond the
    /// reserve). `None` exactly when `side` must pass.
    pub fn choose_move(&mut self, board: Board, side: Color, remaining_ms: u64) -> (r: Option<
        Square,
    >)
        requires
            old(self).wf(),
            board.wf(),
        ensures
            final(self).wf(),
            final(self).book == old(self).book,
            r matches Some(s) ==> is_legal(board, side, s),
            r is None <==> board.legal(side) == 0,
            old(self).book.table(side).contains_key(board_key(board)) && has_bit(
                board.legal(side),
                old(self).book.table(side)[board_key(board)] as u64,
            ) ==> (r matches Some(s) && s.index() == old(self).book.table(side)[board_key(
                board,
            )]),
    {
        if let Some(s) = book_move(&self.book, &board, side) {
            proof {
                crate::bits::lemma_lowest_bit(board.legal(side), s.index() as u64);
            }
            return Some(s);
        }
        let count = board.empty_squares_count();
        if count < ENDGAME_BORDER {
            self.solver.restart(remaining_ms / 3);
            self.solver.solve(board, side)
        } else {
            let budget = if remaining_ms > RESERVE_MS {
                (remaining_ms - RESERVE_MS) / 2
            } else {
                0
            };
            let mut ns = NegaScout::new(budget, NegaScout::emergency_move(board, side));
            ns.next_move(board, side)
        }
    }
}

/// The board after the opponent's move: unchanged on a pass.
pub fn apply_opponent_move(board: Board, mv: Option<Square>, opponent: Color) -> (r: Board)
    requires
        mv matches Some(s) ==> s.wf(),
    ensures
        mv matches Some(s) ==> r == board.play(s.index(), opponent),
        mv matches Some(s) ==> (board.wf() && !has_bit(board.dark | board.light, s.index() as u64)
            ==> r.wf()),
        mv is None ==> r == board,
{
    match mv {
        Some(s) => board.flip(s.to_uint(), opponent),
        None => board,
    }
}

/// When a side has a single legal move, every legal move it can be given is
/// that one: a chooser that returns a legal move returns it, whatever its
/// depth or time.
pub proof fn lemma_single_move(board: Board, side: Color, s: Square, m: u64)
    requires
        pop(board.legal(side)) == 1,
        has_bit(board.legal(side), m),
        is_legal(board, side, s),
    ensures
        s.index() == m,
{
    if s.index() != m {
        lemma_pop_two(board.legal(side), m, s.index() as u64);
    }
}

} // verus!
