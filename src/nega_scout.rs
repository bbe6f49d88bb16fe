//! The mid-game search: depth-limited NegaScout (principal variation search)
//! over the static evaluator, under a deadline.
use vstd::prelude::*;

use std::time::Duration;

use crate::bits::{count_ones, has_bit, lemma_has_bit_mask, lemma_lowest_bit};
use crate::board::Board;
use crate::clock::{duration_millis, Deadline};
use crate::color::Color;
use crate::ordering::{by_evaluation, lists_squares, order_moves};
use crate::square::Square;
use crate::strategy::{is_legal, Strategy};

verus! {

/// The bound of every search window; evaluations lie well inside it.
pub const WINDOW: i16 = 20000;

/// The best score that the first scan of the root can be beaten by.
pub const ROOT_FLOOR: i16 = -5000;

/// A NegaScout searcher with its deadline and the move to fall back on.
pub struct NegaScout {
    pub clock: Deadline,
    pub emergency_ret: Option<u8>,
}

/// Among the legal squares below `n`, whether `m` scores at least as much as
/// each and more than each above it.
pub open spec fn best_below(board: Board, color: Color, m: u8, n: int) -> bool {
    forall|j: u8|
        j < n && has_bit(board.legal(color), j as u64) ==> board.evaluation(j as int, color)
            <= board.evaluation(m as int, color) && (j > m ==> board.evaluation(j as int, color)
            < board.evaluation(m as int, color))
}

impl NegaScout {
    pub fn new(time_limit_millisec: u64, emergency_ret: Option<u8>) -> (r: NegaScout)
        ensures
            r.emergency_ret == emergency_ret,
            r.clock.limit_ms == time_limit_millisec,
            !r.clock.aborted,
    {
        NegaScout { clock: Deadline::new(time_limit_millisec), emergency_ret }
    }

    pub fn new_from_duration(duration: Duration, emergency_ret: Option<u8>) -> (r: NegaScout)
        ensures
            r.emergency_ret == emergency_ret,
            !r.clock.aborted,
    {
        NegaScout { clock: Deadline::new(duration_millis(&duration)), emergency_ret }
    }

    /// The legal move with the best evaluation (the last of equals), or `None`
    /// when `color` has no move.
    pub fn emergency_move(board: Board, color: Color) -> (r: Option<u8>)
        ensures
            r is None <==> board.legal(color) == 0,
            r matches Some(m) ==> m < 64 && has_bit(board.legal(color), m as u64) && best_below(
                board,
                color,
                m,
                64,
            ),
    {
        let flippables = board.flippable_squares(color);
        let mut best: Option<u8> = None;
        let mut best_score: i16 = 0;
        let mut s: u8 = 0;
        while s < 64
            invariant
                s <= 64,
                flippables == board.legal(color),
                best is None <==> forall|j: u8| j < s ==> !#[trigger] has_bit(flippables, j as u64),
                best matches Some(m) ==> m < s && has_bit(flippables, m as u64) && best_score
                    == board.evaluation(m as int, color) && best_below(board, color, m, s as int),
            decreases 64 - s,
        {
            proof {
                lemma_has_bit_mask(flippables, s as u64);
            }
            if flippables & (1u64 << (s as u64)) != 0 {
                let sc = board.score(s, color);
                match best {
                    Some(_) => {
                        if sc >= best_score {
                            best = Some(s);
                            best_score = sc;
                        }
                    },
                    None => {
                        best = Some(s);
                        best_score = sc;
                    },
                }
            }
            s = s + 1;
        }
        proof {
            if let Some(m) = best {
                lemma_lowest_bit(flippables, m as u64);
            } else {
                lemma_lowest_bit(flippables, 0);
                if flippables != 0 {
                    let t = vstd::std_specs::bits::u64_trailing_zeros(flippables);
                    assert(!has_bit(flippables, ((t as u64) as u8) as u64));
                }
            }
        }
        best
    }

    /// The moves of `color` by descending evaluation.
    pub fn order_moves(board: Board, color: Color, flippables: u64) -> (r: Vec<u8>)
        ensures
            lists_squares(r@, flippables),
            by_evaluation(board, color, r@),
    {
        order_moves(board, color, flippables)
    }

    fn check_time_limit(&mut self)
        ensures
            final(self).emergency_ret == old(self).emergency_ret,
            old(self).clock.aborted ==> final(self).clock.aborted,
    {
        self.clock.check();
    }

    /// The value for `color` of playing `next_move` on `board`, searched
    /// `depth` plies deep within the window `(alpha, beta)`: exact inside the
    /// window, a bound on the right side of it outside.
    fn nega_scout(
        &mut self,
        board: Board,
        next_move: u8,
        color: Color,
        depth: i8,
        alpha: i16,
        beta: i16,
    ) -> (r: i16)
        requires
            next_move < 64,
            0 <= depth,
            -WINDOW <= alpha < beta <= WINDOW,
        ensures
            -WINDOW <= r <= WINDOW,
            final(self).emergency_ret == old(self).emergency_ret,
            old(self).clock.aborted ==> final(self).clock.aborted,
            depth == 0 || board.play(next_move as int, color).legal(color.opp()) == 0 ==> r
                == board.evaluation(next_move as int, color),
            !final(self).clock.aborted ==> in_window(
                alpha as int,
                beta as int,
                r as int,
                ns_value(board, next_move as int, color, depth as int),
            ),
        decreases depth,
    {
        let next_board = board.flip(next_move, color);
        let opposite = color.opposite();
        let flippables = next_board.flippable_squares(opposite);
        proof {
            reveal(ns_value);
        }
        if depth == 0 || flippables == 0 || self.clock.aborted {
            return board.score(next_move, color);
        }
        self.check_time_limit();
        if self.clock.aborted {
            return board.score(next_move, color);
        }
        let moves = order_moves(next_board, opposite, flippables);
        let ghost d = depth as int - 1;
        // The opponent searches its replies in the mirrored window.
        let mut a: i16 = -beta;
        let b: i16 = -alpha;
        let ghost lo = a as int;
        proof {
            lemma_best_value(next_board, opposite, d, 0);
            reveal(ns_value);
            assert(ns_value(board, next_move as int, color, depth as int) == -best_value(
                next_board,
                opposite,
                d,
                0,
            ));
        }
        let mut i: usize = 0;
        while i < moves.len()
            invariant
                -WINDOW <= a < b <= WINDOW,
                alpha < beta,
                b == -alpha,
                lo == -beta,
                d == depth - 1,
                0 <= d,
                next_board == board.play(next_move as int, color),
                opposite == color.opp(),
                flippables == next_board.legal(opposite),
                flippables != 0,
                lists_squares(moves@, flippables),
                i <= moves.len(),
                self.emergency_ret == old(self).emergency_ret,
                old(self).clock.aborted ==> self.clock.aborted,
                !self.clock.aborted ==> a == prefix_best(next_board, opposite, d, moves@, i as int, lo),
                best_bounds(next_board, opposite, d, 0),
                ns_value(board, next_move as int, color, depth as int) == -best_value(
                    next_board,
                    opposite,
                    d,
                    0,
                ),
            decreases moves.len() - i,
        {
            if self.clock.aborted {
                return -a;
            }
            let mv = moves[i];
            proof {
                assert(moves@[i as int] == mv);
                assert(moves@.contains(mv));
                assert(has_bit(flippables, mv as u64));
            }
            let ghost c = ns_value(next_board, mv as int, opposite, d);
            let mut score: i16;
            if i == 0 {
                score = self.nega_scout(next_board, mv, opposite, depth - 1, a, b);
            } else {
                score = self.nega_scout(next_board, mv, opposite, depth - 1, a, a + 1);
                if a < score && score < b {
                    score = self.nega_scout(next_board, mv, opposite, depth - 1, score, b);
                }
            }
            self.check_time_limit();
            if self.clock.aborted {
                return -a;
            }
            proof {
                // The reply either stays below the window's top, where it
                // raises `a` to its value, or refutes the window.
                assert((c < b && max_int(a as int, score as int) == max_int(a as int, c))
                    || (b <= score && score <= c));
            }
            if score > a {
                a = score;
            }
            if a >= b {
                proof {
                    assert(c <= best_value(next_board, opposite, d, 0));
                    assert(a == score);
                    assert(b <= a <= c);
                    let v = ns_value(board, next_move as int, color, depth as int);
                    assert(v <= -a);
                    assert(-a <= alpha);
                    assert(in_window(alpha as int, beta as int, -a, v));
                }
                return -a;
            }
            i = i + 1;
        }
        proof {
            lemma_prefix_best_all(next_board, opposite, d, moves@, lo, flippables);
        }
        -a
    }
}

/// `r` is the value `v` when `v` lies strictly inside `(lo, hi)`, and a bound
/// between `v` and the window otherwise.
pub open spec fn in_window(lo: int, hi: int, r: int, v: int) -> bool {
    &&& (lo < v < hi ==> r == v)
    &&& (v <= lo ==> v <= r <= lo)
    &&& (v >= hi ==> hi <= r <= v)
}

pub open spec fn max_int(a: int, b: int) -> int {
    if a >= b {
        a
    } else {
        b
    }
}

/// Below every value of a search.
pub open spec fn no_value() -> int {
    -1_000_000
}

/// The negamax value for `color` of playing `m` on `board`, `depth` plies
/// deep: the evaluation at depth 0 or when the opponent cannot reply, else
/// minus the best value among the opponent's replies one ply shallower.
#[verifier::opaque]
pub open spec fn ns_value(board: Board, m: int, color: Color, depth: int) -> int
    decreases (if depth < 0 { 0int } else { depth }), 0int,
{
    let n = board.play(m, color);
    if depth <= 0 || n.legal(color.opp()) == 0 {
        board.evaluation(m, color)
    } else {
        -best_value(n, color.opp(), depth - 1, 0)
    }
}

/// The best value for `c` among its legal moves on `n` from square `i` on.
pub open spec fn best_value(n: Board, c: Color, depth: int, i: int) -> int
    decreases (if depth < 0 { 0int } else { depth }), 65 - (if i < 0 { 0 } else if i > 64 { 64 } else { i }),
{
    if i < 0 || i >= 64 {
        no_value()
    } else if has_bit(n.legal(c), i as u64) {
        if any_move_from(n, c, i + 1) {
            max_int(ns_value(n, i, c, depth), best_value(n, c, depth, i + 1))
        } else {
            ns_value(n, i, c, depth)
        }
    } else {
        best_value(n, c, depth, i + 1)
    }
}

/// `c` has a legal move on `n` at square `i` or above.
pub open spec fn any_move_from(n: Board, c: Color, i: int) -> bool {
    exists|j: u8| i <= j < 64 && #[trigger] has_bit(n.legal(c), j as u64)
}

/// The best value bounds every legal move's value from `i` on, and is one of
/// them when there is one.
pub open spec fn best_bounds(n: Board, c: Color, depth: int, i: int) -> bool {
    &&& forall|j: u8|
        i <= j < 64 && #[trigger] has_bit(n.legal(c), j as u64) ==> ns_value(n, j as int, c, depth)
            <= best_value(n, c, depth, i)
    &&& (exists|j: u8| i <= j < 64 && #[trigger] has_bit(n.legal(c), j as u64)) ==> exists|j: u8|
        i <= j < 64 && #[trigger] has_bit(n.legal(c), j as u64) && best_value(n, c, depth, i) == ns_value(
            n,
            j as int,
            c,
            depth,
        )
    &&& (!exists|j: u8| i <= j < 64 && #[trigger] has_bit(n.legal(c), j as u64)) ==> best_value(n, c, depth, i)
        == no_value()
}

proof fn lemma_best_value(n: Board, c: Color, depth: int, i: int)
    requires
        0 <= i <= 64,
    ensures
        best_bounds(n, c, depth, i),
    decreases 64 - i,
{
    if i < 64 {
        lemma_best_value(n, c, depth, i + 1);
        let x = n.legal(c);
        let ii = i as u8;
        let here = has_bit(x, i as u64);
        let more = any_move_from(n, c, i + 1);
        let rest = best_value(n, c, depth, i + 1);
        let bv = best_value(n, c, depth, i);
        assert(ii as u64 == i as u64);
        reveal(ns_value);
        assert(bv == if here {
            if more {
                max_int(ns_value(n, i, c, depth), rest)
            } else {
                ns_value(n, i, c, depth)
            }
        } else {
            rest
        });
        assert(ns_value(n, ii as int, c, depth) == ns_value(n, i, c, depth));
        assert forall|j: u8| i <= j < 64 && #[trigger] has_bit(x, j as u64) implies ns_value(
            n,
            j as int,
            c,
            depth,
        ) <= bv by {
            if j != ii {
                assert(i + 1 <= j);
                assert(more);
            }
        }
        if any_move_from(n, c, i) {
            if here && (!more || bv == ns_value(n, i, c, depth)) {
                assert(i <= ii < 64 && has_bit(x, ii as u64) && bv == ns_value(n, ii as int, c, depth));
            } else {
                let j = choose|j: u8| i <= j < 64 && #[trigger] has_bit(x, j as u64);
                if j != ii {
                    assert(i + 1 <= j);
                }
                assert(more);
                let k = choose|k: u8| i + 1 <= k < 64 && #[trigger] has_bit(x, k as u64) && rest == ns_value(n, k as int, c, depth);
                assert(bv == rest);
                assert(i <= k);
            }
        } else {
            assert(!here);
            assert(!more) by {
                if more {
                    let k = choose|k: u8| i + 1 <= k < 64 && #[trigger] has_bit(x, k as u64);
                    assert(i <= k);
                }
            }
        }
    } else {
        assert(!exists|j: u8| i <= j < 64 && #[trigger] has_bit(n.legal(c), j as u64));
    }
}

/// The best of `base` and the values of the first `k` moves of `moves`.
pub open spec fn prefix_best(n: Board, c: Color, depth: int, moves: Seq<u8>, k: int, base: int) -> int
    decreases k,
{
    if k <= 0 {
        base
    } else {
        max_int(prefix_best(n, c, depth, moves, k - 1, base), ns_value(n, moves[k - 1] as int, c, depth))
    }
}

proof fn lemma_prefix_best(n: Board, c: Color, depth: int, moves: Seq<u8>, k: int, base: int)
    requires
        0 <= k <= moves.len(),
    ensures
        prefix_best(n, c, depth, moves, k, base) >= base,
        forall|j: int| 0 <= j < k ==> ns_value(n, #[trigger] moves[j] as int, c, depth) <= prefix_best(n, c, depth, moves, k, base),
        prefix_best(n, c, depth, moves, k, base) == base || exists|j: int| 0 <= j < k && prefix_best(n, c, depth, moves, k, base) == ns_value(n, #[trigger] moves[j] as int, c, depth),
    decreases k,
{
    if k > 0 {
        lemma_prefix_best(n, c, depth, moves, k - 1, base);
        let p = prefix_best(n, c, depth, moves, k, base);
        if p != base && p != prefix_best(n, c, depth, moves, k - 1, base) {
            assert(p == ns_value(n, moves[k - 1] as int, c, depth));
        } else if p != base {
            let j = choose|j: int| 0 <= j < k - 1 && prefix_best(n, c, depth, moves, k - 1, base) == ns_value(n, #[trigger] moves[j] as int, c, depth);
            assert(0 <= j < k);
        }
    }
}

/// Over a list of every legal move, the running best is the best of the base
/// and the best value.
proof fn lemma_prefix_best_all(n: Board, c: Color, depth: int, moves: Seq<u8>, base: int, legal: u64)
    requires
        lists_squares(moves, legal),
        legal == n.legal(c),
        base > no_value(),
    ensures
        prefix_best(n, c, depth, moves, moves.len() as int, base) == max_int(base, best_value(n, c, depth, 0)),
{
    lemma_best_value(n, c, depth, 0);
    lemma_prefix_best(n, c, depth, moves, moves.len() as int, base);
    let p = prefix_best(n, c, depth, moves, moves.len() as int, base);
    let bv = best_value(n, c, depth, 0);
    if exists|j: u8| 0 <= j < 64 && #[trigger] has_bit(legal, j as u64) {
        let j = choose|j: u8| 0 <= j < 64 && #[trigger] has_bit(legal, j as u64) && bv == ns_value(n, j as int, c, depth);
        assert(moves.contains(j));
        let k = choose|k: int| 0 <= k < moves.len() && moves[k] == j;
        assert(ns_value(n, moves[k] as int, c, depth) <= p);
    }
    if p != base {
        let k = choose|k: int| 0 <= k < moves.len() && p == ns_value(n, #[trigger] moves[k] as int, c, depth);
        let j = moves[k];
        assert(j < 64);
        assert(moves.contains(j));
        assert(has_bit(legal, j as u64));
    }
}

impl Strategy for NegaScout {
    open spec fn inv(&self) -> bool {
        true
    }

    /// Searches each legal move in turn and keeps the best; falls back on
    /// the emergency move when the deadline passes first.
    fn next_move(&mut self, board: Board, color: Color) -> (r: Option<Square>) {
        let flippables = board.flippable_squares(color);
        if flippables == 0 {
            return None;
        }
        let count = count_ones(flippables);
        let depth: i8 = if count < 4 {
            9
        } else if count < 8 {
            8
        } else {
            6
        };
        // An emergency move that is not legal here is no fallback.
        let mut ret: Option<u8> = match self.emergency_ret {
            Some(e) => {
                if e < 64 && flippables & (1u64 << (e as u64)) != 0 {
                    Some(e)
                } else {
                    None
                }
            },
            None => None,
        };
        proof {
            if let Some(e) = ret {
                lemma_has_bit_mask(flippables, e as u64);
            }
        }
        let mut cur_max: i16 = ROOT_FLOOR;
        let mut s: u8 = 0;
        while s < 64
            invariant
                s <= 64,
                flippables == board.legal(color),
                ret matches Some(m) ==> m < 64 && has_bit(flippables, m as u64),
                6 <= depth <= 9,
            decreases 64 - s,
        {
            proof {
                lemma_has_bit_mask(flippables, s as u64);
            }
            if flippables & (1u64 << (s as u64)) != 0 {
                if self.clock.aborted {
                    break;
                }
                self.check_time_limit();
                let score = self.nega_scout(board, s, color, depth, -WINDOW, WINDOW);
                if cur_max < score {
                    cur_max = score;
                    ret = Some(s);
                } else if ret.is_none() {
                    ret = Some(s);
                }
            }
            s = s + 1;
        }
        match ret {
            Some(m) => Some(Square::from_uint(m)),
            None => {
                // Only an expired deadline before the first move leaves none:
                // any legal move beats passing.
                proof {
                    lemma_lowest_bit(flippables, 0);
                }
                let first = flippables.trailing_zeros() as u8;
                Some(Square::from_uint(first))
            },
        }
    }
}

} // verus!
