//! The interface of a move chooser, and the simplest one.
use vstd::prelude::*;

use crate::bits::{has_bit, lemma_has_bit_mask, lemma_lowest_bit};
use crate::board::Board;
use crate::color::Color;
use crate::square::Square;

verus! {

/// Whether `s` is a legal move of `color` on `board`.
pub open spec fn is_legal(board: Board, color: Color, s: Square) -> bool {
    s.wf() && has_bit(board.legal(color), s.index() as u64)
}

/// A way of choosing the next move.
pub trait Strategy {
    /// What the chooser keeps true between calls.
    spec fn inv(&self) -> bool;

    /// A legal move of `color` on `board`, or `None` to pass when it has none.
    fn next_move(&mut self, board: Board, color: Color) -> (r: Option<Square>)
        requires
            old(self).inv(),
            board.wf(),
        ensures
            final(self).inv(),
            r matches Some(s) ==> is_legal(board, color, s),
            r is None <==> board.legal(color) == 0,
    ;
}

/// Plays the legal square with the lowest index.
pub struct Naive {}

/// The lowest index below `n` at which `bits` has a set bit, if any.
pub open spec fn lowest_bit_from(bits: u64, i: nat) -> Option<nat>
    decreases 64 - i,
{
    if i >= 64 {
        None
    } else if has_bit(bits, i as u64) {
        Some(i)
    } else {
        lowest_bit_from(bits, i + 1)
    }
}

impl Naive {
    /// The legal square of `color` with the lowest index.
    pub fn first_move(board: Board, color: Color) -> (r: Option<Square>)
        ensures
            r matches Some(s) ==> s.wf() && lowest_bit_from(board.legal(color), 0) == Some(
                s.index() as nat,
            ),
            r is None ==> lowest_bit_from(board.legal(color), 0) is None,
            r matches Some(s) ==> is_legal(board, color, s),
    {
        let flippables = board.flippable_squares(color);
        let mut i: u8 = 0;
        while i < 64
            invariant
                i <= 64,
                flippables == board.legal(color),
                lowest_bit_from(flippables, 0) == lowest_bit_from(flippables, i as nat),
            decreases 64 - i,
        {
            proof {
                lemma_has_bit_mask(flippables, i as u64);
            }
            if flippables & (1u64 << (i as u64)) != 0 {
                return Some(Square::from_uint(i));
            }
            i = i + 1;
        }
        None
    }
}

/// No set bit means no lowest one.
pub proof fn lemma_no_lowest_bit(bits: u64, i: nat)
    requires
        bits == 0,
    ensures
        lowest_bit_from(bits, i) is None,
    decreases 64 - i,
{
    if i < 64 {
        let j = i as u64;
        assert(!has_bit(0u64, j)) by (bit_vector);
        lemma_no_lowest_bit(bits, i + 1);
    }
}

/// A set bit at or after `i` makes a lowest one.
pub proof fn lemma_some_lowest_bit(bits: u64, i: nat, j: u64)
    requires
        i <= j,
        has_bit(bits, j),
    ensures
        lowest_bit_from(bits, i) is Some,
    decreases 64 - i,
{
    if i < 64 && !has_bit(bits, i as u64) {
        lemma_some_lowest_bit(bits, i + 1, j);
    }
}

impl Strategy for Naive {
    open spec fn inv(&self) -> bool {
        true
    }

    fn next_move(&mut self, board: Board, color: Color) -> (r: Option<Square>) {
        proof {
            lemma_no_lowest_bit(0, 0);
            let x = board.legal(color);
            lemma_lowest_bit(x, 0);
            if x != 0 {
                lemma_some_lowest_bit(x, 0, vstd::std_specs::bits::u64_trailing_zeros(x) as u64);
            }
        }
        Naive::first_move(board, color)
    }
}

} // verus!
