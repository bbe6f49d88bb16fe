//! The opening strategy: the book's reply when it has one, else a search.
use vstd::prelude::*;

use crate::bits::{has_bit, lemma_has_bit_mask};
use crate::board::Board;
use crate::book::OpeningBook;
use crate::clock::Deadline;
use crate::color::Color;
use crate::nega_scout::NegaScout;
use crate::square::Square;
use crate::strategy::{is_legal, Naive, Strategy};

verus! {

pub struct Opening {
    pub clock: Deadline,
    pub book: OpeningBook,
}

/// The book's reply for `color` on `board` when it is a legal move there.
pub fn book_move(book: &OpeningBook, board: &Board, color: Color) -> (r: Option<Square>)
    requires
        book.wf(),
    ensures
        r matches Some(s) ==> is_legal(*board, color, s) && book.table(color).contains_key(
            crate::endgame::board_key(*board),
        ) && s.index() == book.table(color)[crate::endgame::board_key(*board)],
        book.table(color).contains_key(crate::endgame::board_key(*board)) && has_bit(
            board.legal(color),
            book.table(color)[crate::endgame::board_key(*board)] as u64,
        ) ==> r is Some,
{
    match book.get(board, color) {
        Some(s) => {
            let legal = board.flippable_squares(color);
            let i = s.to_uint();
            proof {
                lemma_has_bit_mask(legal, i as u64);
            }
            if legal & (1u64 << (i as u64)) != 0 {
                Some(s)
            } else {
                None
            }
        },
        None => None,
    }
}

impl Opening {
    pub fn new(time_limit_millisec: u64, book: OpeningBook) -> (r: Opening)
        ensures
            r.book == book,
            r.clock.limit_ms == time_limit_millisec,
            !r.clock.aborted,
    {
        Opening { clock: Deadline::new(time_limit_millisec), book }
    }

    /// Searches with NegaScout in the time left less a quarter of the time
    /// used, the lowest legal square as the fallback.
    pub fn switch_to_nega_scout(&self, board: Board, color: Color) -> (r: Option<Square>)
        requires
            board.wf(),
        ensures
            r matches Some(s) ==> is_legal(board, color, s),
            r is None <==> board.legal(color) == 0,
    {
        let em = match Naive::first_move(board, color) {
            Some(s) => Some(s.to_uint()),
            None => None,
        };
        let used = self.clock.elapsed() / 4;
        let rest = if self.clock.limit_ms > used {
            self.clock.limit_ms - used
        } else {
            0
        };
        let mut ns = NegaScout::new(rest, em);
        ns.next_move(board, color)
    }
}

impl Strategy for Opening {
    open spec fn inv(&self) -> bool {
        self.book.wf()
    }

    fn next_move(&mut self, board: Board, color: Color) -> (r: Option<Square>) {
        match book_move(&self.book, &board, color) {
            Some(s) => {
                proof {
                    crate::bits::lemma_lowest_bit(board.legal(color), s.index() as u64);
                }
                Some(s)
            },
            None => self.switch_to_nega_scout(board, color),
        }
    }
}

} // verus!
