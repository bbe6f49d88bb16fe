//! The exact end-game solver: who wins a position under perfect play, with a
//! memo of proven positions, under a deadline.
use vstd::prelude::*;

use std::collections::HashMap;

use crate::bits::{has_bit, lemma_lowest_bit, lemma_pop_positive, lemma_pop_two};
use crate::board::{lemma_legal_moves_empty, lemma_play_legal, Board};
use crate::clock::Deadline;
use crate::color::Color;
use crate::nega_scout::NegaScout;
use crate::ordering::{by_evaluation, lists_squares, order_moves};
use crate::square::Square;
use crate::strategy::{is_legal, Strategy};

verus! {

broadcast use vstd::std_specs::hash::group_hash_axioms;

/// The outcome of `v` and `rest` for side `c` choosing between them: a win if
/// either wins, else a draw (or unknown, `None`) if either is one, else a loss.
pub open spec fn combine(c: Color, v: Option<Color>, rest: Option<Color>) -> Option<Color> {
    if v == Some(c) || rest == Some(c) {
        Some(c)
    } else if v is None || rest is None {
        None
    } else {
        Some(c.opp())
    }
}

/// The winner under perfect play when `c` is to move: `None` for a draw.
/// A side without a move passes; the game ends when neither side has one.
pub open spec fn game_value(b: Board, c: Color) -> Option<Color>
    decreases b.empties(), if b.legal(c) != 0 {
        1int
    } else {
        2int
    }, 0int,
{
    if b.legal(c) != 0 {
        best_reply(b, c, 0)
    } else if b.legal(c.opp()) != 0 {
        game_value(b, c.opp())
    } else {
        b.spec_winner()
    }
}

/// The best outcome for `c` among its legal moves from square `i` on.
pub open spec fn best_reply(b: Board, c: Color, i: nat) -> Option<Color>
    decreases b.empties(), 0int, 64 - i,
    via best_reply_decreases
{
    if i >= 64 {
        Some(c.opp())
    } else if b.wf() && has_bit(b.legal(c), i as u64) {
        combine(c, game_value(b.play(i as int, c), c.opp()), best_reply(b, c, i + 1))
    } else {
        best_reply(b, c, i + 1)
    }
}

#[via_fn]
proof fn best_reply_decreases(b: Board, c: Color, i: nat) {
    if i < 64 && b.wf() && has_bit(b.legal(c), i as u64) {
        lemma_play_legal(b, i as u64, c);
    }
}

/// The outcome of `c` playing on square `j`, the opponent to move next.
pub open spec fn child_value(b: Board, c: Color, j: int) -> Option<Color> {
    game_value(b.play(j, c), c.opp())
}

/// Some legal move of `c` from square `i` on wins for `c`.
pub open spec fn wins_from(b: Board, c: Color, i: nat) -> bool {
    exists|j: u8| i <= j < 64 && has_bit(b.legal(c), j as u64) && child_value(b, c, j as int) == Some(c)
}

/// Some legal move of `c` from square `i` on draws (or is unknown).
pub open spec fn draws_from(b: Board, c: Color, i: nat) -> bool {
    exists|j: u8| i <= j < 64 && has_bit(b.legal(c), j as u64) && child_value(b, c, j as int) is None
}

/// The best reply wins when some move wins, draws when none wins and some
/// draws, and loses otherwise.
pub proof fn lemma_best_reply(b: Board, c: Color, i: nat)
    requires
        b.wf(),
    ensures
        best_reply(b, c, i) == Some(c) <==> wins_from(b, c, i),
        best_reply(b, c, i) is None <==> !wins_from(b, c, i) && draws_from(b, c, i),
        best_reply(b, c, i) == Some(c.opp()) || best_reply(b, c, i) == Some(c) || best_reply(
            b,
            c,
            i,
        ) is None,
    decreases 64 - i,
{
    if i < 64 {
        lemma_best_reply(b, c, i + 1);
        let j = i as u8;
        if wins_from(b, c, i + 1) {
            let k = choose|k: u8| i + 1 <= k < 64 && has_bit(b.legal(c), k as u64) && child_value(b, c, k as int) == Some(c);
            assert(i <= k);
        }
        if draws_from(b, c, i + 1) {
            let k = choose|k: u8| i + 1 <= k < 64 && has_bit(b.legal(c), k as u64) && child_value(b, c, k as int) is None;
            assert(i <= k);
        }
        if wins_from(b, c, i) {
            let k = choose|k: u8| i <= k < 64 && has_bit(b.legal(c), k as u64) && child_value(b, c, k as int) == Some(c);
            if k != j {
                assert(wins_from(b, c, i + 1));
            }
        }
        if draws_from(b, c, i) {
            let k = choose|k: u8| i <= k < 64 && has_bit(b.legal(c), k as u64) && child_value(b, c, k as int) is None;
            if k != j {
                assert(draws_from(b, c, i + 1));
            }
        }
        match child_value(b, c, i as int) {
            Some(x) => {
                if x != c {
                    assert(x == c.opp());
                }
            },
            None => {},
        }
    } else {
        assert(!wins_from(b, c, i));
        assert(!draws_from(b, c, i));
    }
}

/// On a full board neither side has a move.
pub proof fn lemma_full_board(b: Board)
    requires
        b.wf(),
        b.empties() == 0,
    ensures
        b.legal(Color::Dark) == 0,
        b.legal(Color::Light) == 0,
        game_value(b, Color::Dark) == b.spec_winner(),
        game_value(b, Color::Light) == b.spec_winner(),
{
    let e = b.empty_bits();
    if e != 0 {
        lemma_pop_positive(e);
    }
    lemma_legal_moves_empty(b, Color::Dark);
    lemma_legal_moves_empty(b, Color::Light);
    let (d, l, x, y) = (b.dark, b.light, b.legal(Color::Dark), b.legal(Color::Light));
    assert(x == 0 && y == 0) by (bit_vector)
        requires
            !(d | l) == 0,
            x & (d | l) == 0,
            y & (d | l) == 0,
    ;
}

/// With one empty square, a side's only possible move decides the game.
pub proof fn lemma_last_move(b: Board, c: Color, p: u64)
    requires
        b.wf(),
        b.empties() == 1,
        has_bit(b.legal(c), p),
    ensures
        p < 64,
        game_value(b, c) == b.play(p as int, c).spec_winner(),
        b.play(p as int, c).wf(),
{
    let x = b.legal(c);
    lemma_legal_moves_empty(b, c);
    lemma_play_legal(b, p, c);
    let n = b.play(p as int, c);
    lemma_full_board(n);
    assert(p < 64) by (bit_vector)
        requires
            has_bit(x, p),
    ;
    // Any other legal square would be a second empty one.
    assert forall|q: u8| q < 64 && q != p implies !#[trigger] has_bit(x, q as u64) by {
        let e = b.empty_bits();
        let (d, l) = (b.dark, b.light);
        let qq = q as u64;
        if has_bit(x, qq) {
            assert(has_bit(e, p) && has_bit(e, qq)) by (bit_vector)
                requires
                    has_bit(x, p),
                    has_bit(x, qq),
                    x & (d | l) == 0,
                    e == !(d | l),
            ;
            lemma_pop_two(e, p, qq);
        }
    }
    lemma_best_reply(b, c, 0);
    assert(x != 0) by {
        lemma_lowest_bit(x, p);
    }
    let v = child_value(b, c, p as int);
    assert(n.legal(c.opp()) == 0);
    assert(v == n.spec_winner());
    if v == Some(c) {
        assert(wins_from(b, c, 0));
    } else if v is None {
        assert(draws_from(b, c, 0));
    } else {
        assert(v == Some(c.opp()));
    }
}

/// `m` comes before `s` in the order of the search: a better evaluation, or
/// an equal one on a lower square.
pub open spec fn ranks_before(board: Board, color: Color, m: int, s: int) -> bool {
    board.evaluation(m, color) > board.evaluation(s, color) || (board.evaluation(m, color)
        == board.evaluation(s, color) && m < s)
}

/// No legal move that comes before `s` in the search's order wins for `color`.
pub open spec fn first_win(board: Board, color: Color, s: int) -> bool {
    forall|m: u8|
        m < 64 && #[trigger] has_bit(board.legal(color), m as u64) && ranks_before(
            board,
            color,
            m as int,
            s,
        ) ==> child_value(board, color, m as int) != Some(color)
}

/// The key of a board in the memo: both words side by side.
pub open spec fn board_key(b: Board) -> u128 {
    ((b.dark as u128) << 64u128) | (b.light as u128)
}

proof fn lemma_board_key_injective(a: Board, b: Board)
    requires
        board_key(a) == board_key(b),
    ensures
        a == b,
{
    let (ad, al, bd, bl) = (a.dark, a.light, b.dark, b.light);
    assert(ad == bd && al == bl) by (bit_vector)
        requires
            ((ad as u128) << 64u128) | (al as u128) == ((bd as u128) << 64u128) | (bl as u128),
    ;
}

fn key_of(b: &Board) -> (r: u128)
    ensures
        r == board_key(*b),
{
    ((b.dark as u128) << 64u128) | (b.light as u128)
}

/// Proven outcomes of positions, for each side to move.
pub struct Memo {
    pub dark: HashMap<u128, Option<Color>>,
    pub light: HashMap<u128, Option<Color>>,
}

impl Memo {
    pub open spec fn table(&self, c: Color) -> Map<u128, Option<Color>> {
        match c {
            Color::Dark => self.dark@,
            Color::Light => self.light@,
        }
    }

    /// Every entry holds the outcome under perfect play.
    pub open spec fn wf(&self) -> bool {
        forall|b: Board, c: Color|
            b.wf() && #[trigger] self.table(c).contains_key(board_key(b)) ==> self.table(c)[board_key(b)]
                == game_value(b, c)
    }

    pub fn new() -> (r: Memo)
        ensures
            r.wf(),
    {
        Memo { dark: HashMap::new(), light: HashMap::new() }
    }

    /// Forgets every entry.
    pub fn clear(&mut self)
        ensures
            final(self).wf(),
            final(self).table(Color::Dark) == Map::<u128, Option<Color>>::empty(),
            final(self).table(Color::Light) == Map::<u128, Option<Color>>::empty(),
    {
        self.dark.clear();
        self.light.clear();
    }

    /// The stored outcome of `b` with `c` to move.
    pub fn get(&self, b: &Board, c: Color) -> (r: Option<Option<Color>>)
        requires
            self.wf(),
            b.wf(),
        ensures
            r is Some <==> self.table(c).contains_key(board_key(*b)),
            r matches Some(v) ==> v == self.table(c)[board_key(*b)],
            r matches Some(v) ==> v == game_value(*b, c),
    {
        let k = key_of(b);
        let found = match c {
            Color::Dark => self.dark.get(&k),
            Color::Light => self.light.get(&k),
        };
        match found {
            Some(v) => {
                assert(self.table(c).contains_key(board_key(*b)));
                Some(*v)
            },
            None => None,
        }
    }

    /// Records the outcome `v` of `b` with `c` to move.
    pub fn insert(&mut self, b: &Board, c: Color, v: Option<Color>)
        requires
            old(self).wf(),
            b.wf(),
            v == game_value(*b, c),
        ensures
            final(self).wf(),
            final(self).table(c) == old(self).table(c).insert(board_key(*b), v),
            final(self).table(c.opp()) == old(self).table(c.opp()),
    {
        let k = key_of(b);
        match c {
            Color::Dark => {
                self.dark.insert(k, v);
            },
            Color::Light => {
                self.light.insert(k, v);
            },
        }
        assert forall|x: Board, y: Color|
            x.wf() && #[trigger] self.table(y).contains_key(board_key(x)) implies self.table(y)[board_key(x)]
                == game_value(x, y) by {
            if y == c && board_key(x) == k {
                lemma_board_key_injective(x, *b);
            } else {
                assert(old(self).table(y).contains_key(board_key(x)));
            }
        }
    }
}

/// The exact solver: a deadline and the memo of proven positions.
pub struct Exhausive {
    pub clock: Deadline,
    pub memo: Memo,
}

impl Exhausive {
    pub fn new(time_limit_millisec: u64) -> (r: Exhausive)
        ensures
            r.memo.wf(),
            r.clock.limit_ms == time_limit_millisec,
            !r.clock.aborted,
    {
        Exhausive { clock: Deadline::new(time_limit_millisec), memo: Memo::new() }
    }

    /// A fresh deadline for the next search; the memo stays.
    pub fn restart(&mut self, time_limit_millisec: u64)
        ensures
            final(self).memo == old(self).memo,
            final(self).clock.limit_ms == time_limit_millisec,
            !final(self).clock.aborted,
    {
        self.clock = Deadline::new(time_limit_millisec);
    }

    fn check_time_limit(&mut self)
        ensures
            final(self).memo == old(self).memo,
            final(self).clock.limit_ms == old(self).clock.limit_ms,
            old(self).clock.aborted ==> final(self).clock.aborted,
    {
        self.clock.check();
    }

    /// The winner of `board` under perfect play with `hand` to move (`None`
    /// for a draw). `passed` says that the opponent has just passed. When the
    /// deadline cuts the search short the result is `None`; any `Some` is
    /// proven.
    #[verifier::rlimit(60)]
    pub fn winnable_color(&mut self, board: Board, hand: Color, passed: bool) -> (r: Option<
        Color,
    >)
        requires
            old(self).memo.wf(),
            board.wf(),
            passed ==> board.legal(hand.opp()) == 0,
        ensures
            final(self).memo.wf(),
            final(self).clock.limit_ms == old(self).clock.limit_ms,
            old(self).clock.aborted ==> final(self).clock.aborted,
            r is Some ==> r == game_value(board, hand),
            !final(self).clock.aborted ==> r == game_value(board, hand),
            board.empties() <= 1 ==> r == game_value(board, hand),
            old(self).memo.table(hand).contains_key(board_key(board)) ==> r == old(
                self,
            ).memo.table(hand)[board_key(board)] && final(self).memo == old(self).memo,
            !final(self).clock.aborted ==> final(self).memo.table(hand).contains_key(
                board_key(board),
            ),
        decreases board.empties(), if passed {
            0int
        } else {
            1int
        },
    {
        if let Some(c) = self.memo.get(&board, hand) {
            return c;
        }
        // The last move and a full board are read off without a search.
        if board.is_last_move() {
            let winner = Self::winnable_color_last(board, hand, passed);
            self.write_lock(board, hand, winner);
            return winner;
        } else if board.is_end() {
            let winner = board.winner();
            proof {
                lemma_full_board(board);
            }
            self.write_lock(board, hand, winner);
            return winner;
        }
        self.check_time_limit();
        if self.clock.aborted {
            return None;
        }
        let flippables = board.flippable_squares(hand);
        let opposite = hand.opposite();
        if flippables == 0 {
            let winner = if passed {
                board.winner()
            } else {
                self.winnable_color(board, opposite, true)
            };
            if winner.is_some() || !self.clock.aborted {
                self.write_lock(board, hand, winner);
                self.write_lock(board, opposite, winner);
            }
            return winner;
        }
        let moves = order_moves(board, hand, flippables);
        let mut ret: Option<Color> = Some(opposite);
        let mut i: usize = 0;
        proof {
            lemma_best_reply(board, hand, 0);
            assert(game_value(board, hand) == best_reply(board, hand, 0));
        }
        while i < moves.len()
            invariant
                i <= moves.len(),
                board.wf(),
                flippables == board.legal(hand),
                flippables != 0,
                opposite == hand.opp(),
                lists_squares(moves@, flippables),
                self.memo.wf(),
                self.clock.limit_ms == old(self).clock.limit_ms,
                old(self).clock.aborted ==> self.clock.aborted,
                !self.clock.aborted,
                game_value(board, hand) == best_reply(board, hand, 0),
                best_reply(board, hand, 0) == Some(hand) <==> wins_from(board, hand, 0),
                !old(self).memo.table(hand).contains_key(board_key(board)),
                board.empties() >= 2,
                forall|k: int| 0 <= k < i ==> child_value(board, hand, #[trigger] moves@[k] as int) != Some(hand),
                ret == Some(opposite) || ret is None,
                ret is None <==> exists|k: int| 0 <= k < i && child_value(board, hand, #[trigger] moves@[k] as int) is None,
            decreases moves.len() - i,
        {
            let square = moves[i];
            let next_board = board.flip(square, hand);
            proof {
                assert(moves@[i as int] == square);
                assert(square < 64);
                assert(moves@.contains(square));
                lemma_play_legal(board, square as u64, hand);
            }
            let next_winnable = self.winnable_color(next_board, opposite, false);
            if next_winnable == Some(hand) {
                proof {
                    assert(wins_from(board, hand, 0));
                }
                self.write_lock(board, hand, Some(hand));
                return Some(hand);
            }
            if self.clock.aborted {
                return None;
            }
            if next_winnable.is_none() {
                ret = None;
            }
            proof {
                assert(moves@[i as int] == square);
            }
            i = i + 1;
            self.check_time_limit();
            if self.clock.aborted {
                if i < moves.len() {
                    return None;
                }
                proof {
                    self.finish_loop(board, hand, &moves, ret);
                }
                self.write_lock(board, hand, ret);
                return ret;
            }
        }
        proof {
            self.finish_loop(board, hand, &moves, ret);
        }
        self.write_lock(board, hand, ret);
        ret
    }

    proof fn finish_loop(&self, board: Board, hand: Color, moves: &Vec<u8>, ret: Option<Color>)
        requires
            game_value(board, hand) == best_reply(board, hand, 0),
            board.wf(),
            lists_squares(moves@, board.legal(hand)),
            board.legal(hand) != 0,
            forall|k: int| 0 <= k < moves.len() ==> child_value(board, hand, #[trigger] moves@[k] as int) != Some(hand),
            ret == Some(hand.opp()) || ret is None,
            ret is None <==> exists|k: int| 0 <= k < moves.len() && child_value(board, hand, #[trigger] moves@[k] as int) is None,
        ensures
            ret == game_value(board, hand),
    {
        lemma_best_reply(board, hand, 0);
        let x = board.legal(hand);
        if wins_from(board, hand, 0) {
            let j = choose|j: u8| 0 <= j < 64 && has_bit(x, j as u64) && child_value(board, hand, j as int) == Some(hand);
            assert(moves@.contains(j));
            let k = choose|k: int| 0 <= k < moves.len() && moves@[k] == j;
            assert(child_value(board, hand, moves@[k] as int) != Some(hand));
        }
        if draws_from(board, hand, 0) {
            let j = choose|j: u8| 0 <= j < 64 && has_bit(x, j as u64) && child_value(board, hand, j as int) is None;
            assert(moves@.contains(j));
            let k = choose|k: int| 0 <= k < moves.len() && moves@[k] == j;
            assert(child_value(board, hand, moves@[k] as int) is None);
        }
        if ret is None {
            let k = choose|k: int| 0 <= k < moves.len() && child_value(board, hand, #[trigger] moves@[k] as int) is None;
            let j = moves@[k];
            assert(j < 64);
            assert(moves@.contains(j));
            assert(has_bit(x, j as u64));
            assert(draws_from(board, hand, 0));
        }
    }

    /// The outcome of a board with one empty square, read off the single move
    /// that remains without searching.
    pub fn winnable_color_last(board: Board, hand: Color, passed: bool) -> (r: Option<Color>)
        requires
            board.wf(),
            board.empties() == 1,
            passed ==> board.legal(hand.opp()) == 0,
        ensures
            r == game_value(board, hand),
    {
        let flippables = board.flippable_squares(hand);
        if flippables == 0 {
            if passed {
                board.winner()
            } else {
                let opposite = hand.opposite();
                let flippables = board.flippable_squares(opposite);
                if flippables == 0 {
                    board.winner()
                } else {
                    proof {
                        lemma_lowest_bit(flippables, 0);
                    }
                    let pos = flippables.trailing_zeros() as u8;
                    proof {
                        lemma_last_move(board, opposite, pos as u64);
                    }
                    board.flip(pos, opposite).winner()
                }
            }
        } else {
            proof {
                lemma_lowest_bit(flippables, 0);
            }
            let pos = flippables.trailing_zeros() as u8;
            proof {
                lemma_last_move(board, hand, pos as u64);
            }
            board.flip(pos, hand).winner()
        }
    }

    /// Records a proven outcome.
    pub fn write_lock(&mut self, board: Board, color: Color, winnable: Option<Color>)
        requires
            old(self).memo.wf(),
            board.wf(),
            winnable == game_value(board, color),
        ensures
            final(self).memo.wf(),
            final(self).clock == old(self).clock,
            final(self).memo.table(color) == old(self).memo.table(color).insert(
                board_key(board),
                winnable,
            ),
            final(self).memo.table(color.opp()) == old(self).memo.table(color.opp()),
    {
        self.memo.insert(&board, color, winnable);
    }

    /// A move of `color`: a proven win when the search finds one in time, else
    /// a draw or the first move searched; the NegaScout search takes over with
    /// the time that is left when the deadline passes.
    pub fn solve(&mut self, board: Board, color: Color) -> (r: Option<Square>)
        requires
            old(self).memo.wf(),
            board.wf(),
        ensures
            final(self).memo.wf(),
            r matches Some(s) ==> is_legal(board, color, s),
            r is None <==> board.legal(color) == 0,
            !final(self).clock.aborted && wins_from(board, color, 0) ==> (r matches Some(s)
                && child_value(board, color, s.index()) == Some(color)),
            !final(self).clock.aborted ==> (r matches Some(s) ==> (child_value(
                board,
                color,
                s.index(),
            ) == Some(color) ==> first_win(board, color, s.index()))),
    {
        let flippables = board.flippable_squares(color);
        if flippables == 0 {
            return None;
        }
        if self.clock.aborted {
            return self.switch_to_nega_scout(board, color);
        }
        let moves = order_moves(board, color, flippables);
        let mut ret: Option<u8> = None;
        let mut i: usize = 0;
        while i < moves.len()
            invariant
                i <= moves.len(),
                board.wf(),
                flippables == board.legal(color),
                flippables != 0,
                lists_squares(moves@, flippables),
                by_evaluation(board, color, moves@),
                self.memo.wf(),
                !self.clock.aborted,
                forall|k: int| 0 <= k < i ==> child_value(board, color, #[trigger] moves@[k] as int) != Some(color),
                ret matches Some(m) ==> m < 64 && has_bit(flippables, m as u64),
            decreases moves.len() - i,
        {
            let square = moves[i];
            let next_board = board.flip(square, color);
            proof {
                assert(moves@[i as int] == square);
                assert(square < 64);
                assert(moves@.contains(square));
                lemma_play_legal(board, square as u64, color);
            }
            match self.winnable_color(next_board, color.opposite(), false) {
                Some(c) => {
                    if c == color {
                        proof {
                            self.lemma_first_in_order(board, color, &moves, i as int);
                        }
                        return Some(Square::from_uint(square));
                    }
                },
                None => {
                    if ret.is_none() {
                        ret = Some(square);
                    }
                },
            }
            if self.clock.aborted {
                return self.switch_to_nega_scout(board, color);
            }
            i = i + 1;
            self.check_time_limit();
            if self.clock.aborted {
                return self.switch_to_nega_scout(board, color);
            }
        }
        proof {
            if wins_from(board, color, 0) {
                let x = board.legal(color);
                let j = choose|j: u8| 0 <= j < 64 && has_bit(x, j as u64) && child_value(board, color, j as int) == Some(color);
                assert(moves@.contains(j));
                let k = choose|k: int| 0 <= k < moves.len() && moves@[k] == j;
                assert(child_value(board, color, moves@[k] as int) != Some(color));
            }
        }
        match ret {
            Some(m) => Some(Square::from_uint(m)),
            None => {
                proof {
                    lemma_lowest_bit(flippables, 0);
                }
                Some(Square::from_uint(flippables.trailing_zeros() as u8))
            },
        }
    }

    proof fn lemma_first_in_order(&self, board: Board, color: Color, moves: &Vec<u8>, i: int)
        requires
            0 <= i < moves.len(),
            lists_squares(moves@, board.legal(color)),
            by_evaluation(board, color, moves@),
            forall|k: int| 0 <= k < i ==> child_value(board, color, #[trigger] moves@[k] as int) != Some(color),
        ensures
            first_win(board, color, moves@[i] as int),
    {
        let s = moves@[i];
        assert forall|m: u8|
            m < 64 && #[trigger] has_bit(board.legal(color), m as u64) && ranks_before(
                board,
                color,
                m as int,
                s as int,
            ) implies child_value(board, color, m as int) != Some(color) by {
            assert(moves@.contains(m));
            let k = choose|k: int| 0 <= k < moves@.len() && moves@[k] == m;
            if k >= i {
                assert(k != i);
                assert(ranks_before(board, color, s as int, m as int));
            }
        }
    }

    /// Hands the search to NegaScout with a quarter of the time used taken off
    /// the limit, the best-evaluated move as the fallback.
    pub fn switch_to_nega_scout(&self, board: Board, color: Color) -> (r: Option<Square>)
        requires
            board.wf(),
        ensures
            r matches Some(s) ==> is_legal(board, color, s),
            r is None <==> board.legal(color) == 0,
    {
        let em = NegaScout::emergency_move(board, color);
        let used = self.clock.elapsed() / 4;
        let rest = if self.clock.limit_ms > used {
            self.clock.limit_ms - used
        } else {
            0
        };
        let mut ns = NegaScout::new(rest, em);
        ns.next_move(board, color)
    }
}

impl Strategy for Exhausive {
    open spec fn inv(&self) -> bool {
        self.memo.wf()
    }

    fn next_move(&mut self, board: Board, color: Color) -> (r: Option<Square>) {
        self.solve(board, color)
    }
}

} // verus!
