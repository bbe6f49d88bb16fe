//! The static evaluator: a phase-weighted sum of positional features.
use vstd::prelude::*;

use crate::bits::{count_ones, has_bit, lemma_has_bit_mask, pop};
use crate::board::Board;
use crate::color::Color;

verus! {

/// One weight for each game phase: early, middle, late and end game.
pub type Weight = [i16; 4];

/// The phase that a number of empty squares falls in: 0 above 50, 1 above 40,
/// 2 above 20, else 3.
pub open spec fn phase(empties: nat) -> int {
    if empties > 50 {
        0
    } else if empties > 40 {
        1
    } else if empties > 20 {
        2
    } else {
        3
    }
}

/// The value table's entry for square `i`.
pub open spec fn raw_value(i: int) -> int {
    Board::RAW_VALUES@[i] as int
}

/// The sum of the table's entries over the squares below `n` that `bits` holds.
pub open spec fn raw_sum(bits: u64, n: nat) -> int
    decreases n,
{
    if n == 0 {
        0
    } else {
        raw_sum(bits, (n - 1) as nat) + if has_bit(bits, (n - 1) as u64) {
            raw_value(n - 1)
        } else {
            0
        }
    }
}

/// The sum of the positive entries below `n`.
pub open spec fn positive_prefix(n: nat) -> int
    decreases n,
{
    if n == 0 {
        0
    } else {
        positive_prefix((n - 1) as nat) + if raw_value(n - 1) > 0 {
            raw_value(n - 1)
        } else {
            0
        }
    }
}

/// The sum of the negative entries below `n`.
pub open spec fn negative_prefix(n: nat) -> int
    decreases n,
{
    if n == 0 {
        0
    } else {
        negative_prefix((n - 1) as nat) + if raw_value(n - 1) < 0 {
            raw_value(n - 1)
        } else {
            0
        }
    }
}

/// The table entry of square `i` when `bits` holds it, else 0.
pub open spec fn held_value(bits: u64, i: u64) -> int {
    if has_bit(bits, i) {
        raw_value(i as int)
    } else {
        0
    }
}

/// Once corner `c` is filled, the squares `a`, `b`, `d` next to it count for
/// whoever holds them.
pub open spec fn corner_group(all: u64, own: u64, c: u64, a: u64, b: u64, d: u64) -> int {
    if has_bit(all, c) {
        held_value(own, a) + held_value(own, b) + held_value(own, d)
    } else {
        0
    }
}

/// `q` rounded toward zero after division by ten.
pub open spec fn tenth(q: int) -> int {
    if q >= 0 {
        q / 10
    } else {
        -((-q) / 10)
    }
}

/// The raw score scaled for the game's progress: tripled while more than 30
/// squares are empty, kept while more than 15 are, then a tenth.
pub open spec fn scaled_raw(q: int, empties: nat) -> int {
    if empties > 30 {
        3 * q
    } else if empties > 15 {
        q
    } else {
        tenth(q)
    }
}

/// Whether `own` covers every square of `shape`.
pub open spec fn covers(own: u64, shape: u64) -> bool {
    own & shape == shape
}

/// One edge: a mountain (the six middle squares held) whose corners the
/// opponent does not hold, pure when the four squares inside it are held too.
pub open spec fn edge_score(
    own: u64,
    opp: u64,
    shape: u64,
    pure: u64,
    c1: u64,
    c2: u64,
    empties: nat,
) -> int {
    if covers(own, shape) && !has_bit(opp, c1) && !has_bit(opp, c2) {
        if covers(own, pure) {
            Board::PURE_MOUNTAIN_WEIGHT@[phase(empties)] as int
        } else {
            Board::MOUNTAIN_WEIGHT@[phase(empties)] as int
        }
    } else {
        0
    }
}

/// How many of the four corners `x` holds.
pub open spec fn corner_count(x: u64) -> int {
    (if has_bit(x, 0) {
        1int
    } else {
        0
    }) + (if has_bit(x, 7) {
        1int
    } else {
        0
    }) + (if has_bit(x, 56) {
        1int
    } else {
        0
    }) + (if has_bit(x, 63) {
        1int
    } else {
        0
    })
}

/// 1 when `m` meets `x`, else 0.
pub open spec fn meets(x: u64, m: u64) -> int {
    if x & m != 0 {
        1
    } else {
        0
    }
}

/// The number of empty squares among the eight neighbours of square `sq`.
pub open spec fn openness(blank: u64, sq: u64) -> int {
    let s = 1u64 << sq;
    meets(s << 1, blank & 0xfefefefefefefefe) + meets(s >> 1, blank & 0x7f7f7f7f7f7f7f7f) + meets(
        s << 8,
        blank,
    ) + meets(s >> 8, blank) + meets(s << 7, blank & 0x7f7f7f7f7f7f7f7f) + meets(
        s >> 7,
        blank & 0xfefefefefefefefe,
    ) + meets(s << 9, blank & 0xfefefefefefefefe) + meets(s >> 9, blank & 0x7f7f7f7f7f7f7f7f)
}

/// The openness summed over the squares below `n` of `flipped`.
pub open spec fn openness_sum(blank: u64, flipped: u64, n: nat) -> int
    decreases n,
{
    if n == 0 {
        0
    } else {
        openness_sum(blank, flipped, (n - 1) as nat) + if has_bit(flipped, (n - 1) as u64) {
            openness(blank, (n - 1) as u64)
        } else {
            0
        }
    }
}

/// The length of the run of consecutive discs of `own` that starts at step `i`
/// of the line from `sq` in steps of `diff`, up to step 7.
pub open spec fn own_run(own: u64, sq: int, diff: int, i: int) -> int
    decreases 8 - i,
{
    if i >= 8 || i < 1 {
        0
    } else if has_bit(own, (sq + diff * i) as u64) {
        1 + own_run(own, sq, diff, i + 1)
    } else {
        0
    }
}

/// The number of discs of `own` at steps `i..=7` of the line.
pub open spec fn own_count(own: u64, sq: int, diff: int, i: int) -> int
    decreases 8 - i,
{
    if i >= 8 || i < 1 {
        0
    } else {
        (if has_bit(own, (sq + diff * i) as u64) {
            1int
        } else {
            0
        }) + own_count(own, sq, diff, i + 1)
    }
}

/// Whether steps `i..=7` of the line all hold a disc.
pub open spec fn line_full(all: u64, sq: int, diff: int, i: int) -> bool
    decreases 8 - i,
{
    if i >= 8 || i < 1 {
        true
    } else {
        has_bit(all, (sq + diff * i) as u64) && line_full(all, sq, diff, i + 1)
    }
}

/// The discs of `own` that the line from corner `sq` counts as solid: all of
/// them when the line is full, else those before the first opponent disc or
/// empty square (none of them once an opponent disc was seen, `after_opp`).
pub open spec fn solid_line(own: u64, opp: u64, sq: int, diff: int, after_opp: bool) -> int {
    if line_full(own | opp, sq, diff, 1) {
        own_count(own, sq, diff, 1)
    } else if after_opp {
        0
    } else {
        own_run(own, sq, diff, 1)
    }
}

/// The solid discs counted from one corner: the corner and the two edge
/// lines from it, when `own` holds the corner.
pub open spec fn solid_corner(own: u64, opp: u64, c: int, d1: int, d2: int) -> int {
    if has_bit(own, c as u64) {
        1 + solid_line(own, opp, c, d1, false) + solid_line(own, opp, c, d2, false)
    } else {
        0
    }
}

/// A line of seven steps from `sq` stays on the board.
pub open spec fn line_on_board(sq: int, diff: int) -> bool {
    0 <= sq < 64 && 0 <= sq + 7 * diff < 64 && (diff == 1 || diff == -1 || diff == 8 || diff
        == -8)
}

impl Board {
    /// The raw score of `c`: the table over its discs, less the table over the
    /// opponent's, with the squares next to filled corners counted again.
    pub open spec fn raw_total(self, c: Color) -> int {
        raw_sum(self.discs(c), 64) - raw_sum(self.discs(c.opp()), 64) + self.corner_flipped(c)
            - self.corner_flipped(c.opp())
    }

    pub open spec fn corner_flipped(self, c: Color) -> int {
        let all = self.dark | self.light;
        let own = self.discs(c);
        corner_group(all, own, 0, 1, 8, 9) + corner_group(all, own, 7, 6, 14, 15) + corner_group(
            all,
            own,
            56,
            48,
            49,
            57,
        ) + corner_group(all, own, 63, 54, 55, 62)
    }

    pub open spec fn mountains(self, c: Color) -> int {
        let own = self.discs(c);
        let opp = self.discs(c.opp());
        let e = self.empties();
        edge_score(own, opp, 0x7e00000000000000, 0x7e3c000000000000, 56, 63, e) + edge_score(
            own,
            opp,
            0x1010101010100,
            0x1030303030100,
            0,
            56,
            e,
        ) + edge_score(own, opp, 0x7e, 0x3c7e, 0, 7, e) + edge_score(
            own,
            opp,
            0x80808080808000,
            0x80c0c0c0c08000,
            7,
            63,
            e,
        )
    }

    pub open spec fn solid_count(self, c: Color) -> int {
        let own = self.discs(c);
        let opp = self.discs(c.opp());
        solid_corner(own, opp, 0, 8, 1) + solid_corner(own, opp, 7, 8, -1) + solid_corner(
            own,
            opp,
            56,
            -8,
            1,
        ) + solid_corner(own, opp, 63, -8, -1)
    }

    /// The weight of the board's phase.
    pub open spec fn weight(self, w: Weight) -> int {
        w@[phase(self.empties())] as int
    }

    /// Whether neither side has a move.
    pub open spec fn over(self) -> bool {
        self.legal(Color::Dark) == 0 && self.legal(Color::Light) == 0
    }

    /// The terminal flag, from the view of the side that just moved (`c` is
    /// its opponent): 5000 on a finished game it leads, -5000 on one it trails.
    pub open spec fn terminal(self, c: Color) -> int {
        if self.legal(c) == 0 && self.legal(c.opp()) == 0 {
            if pop(self.discs(c.opp())) > pop(self.discs(c)) {
                5000
            } else if pop(self.discs(c.opp())) < pop(self.discs(c)) {
                -5000
            } else {
                0
            }
        } else {
            0
        }
    }

    /// The evaluation of `color` playing `mv` on this board.
    #[verifier::opaque]
    pub open spec fn evaluation(self, mv: int, color: Color) -> int {
        let n = self.play(mv, color);
        let o = color.opp();
        scaled_raw(n.raw_total(color), n.empties()) + pop(n.legal(o)) * n.weight(
            Board::FLIPPABLE_COUNT_WEIGHT,
        ) + corner_count(n.legal(o)) * n.weight(Board::CORNER_FLIPPABLE_WEIGHT) + n.mountains(
            color,
        ) + (n.solid_count(color) - n.solid_count(o)) * n.weight(Board::SOLID_DISK_WEIGHT)
            + openness_sum(self.empty_bits(), self.flips_of(mv, color), 64) * self.weight(
            Board::OPENNESS_WEIGHT,
        ) + n.terminal(o)
    }
}

impl Board {
    pub const MOUNTAIN_WEIGHT: Weight = [20, 20, 10, 5];

    pub const PURE_MOUNTAIN_WEIGHT: Weight = [30, 30, 20, 10];

    pub const CORNER_FLIPPABLE_WEIGHT: Weight = [-80, -80, -80, -80];

    pub const SOLID_DISK_WEIGHT: Weight = [5, 5, 5, 5];

    pub const FLIPPABLE_COUNT_WEIGHT: Weight = [-3, -3, -2, -1];

    pub const OPENNESS_WEIGHT: Weight = [-5, -5, -4, -3];

    /// The value of each square: corners high, the squares next to them low.
    pub const RAW_VALUES: [i16; 64] = [
        100, -20, 1, -1, -1, 1, -20, 100,
        -20, -40, -3, -3, -3, -3, -20, -20,
        1, -3, 1, -1, -1, 1, -3, 1,
        -1, -3, -1, 0, 0, -1, -3, -1,
        -1, -3, -1, 0, 0, -1, -3, -1,
        1, -3, 1, -1, -1, 1, -3, 1,
        -20, -40, -3, -3, -3, -3, -20, -20,
        100, -20, 1, -1, -1, 1, -20, 100,
    ];

    /// The weight of the board's phase.
    pub fn get_weight(&self, weight: Weight) -> (r: i16)
        ensures
            r == weight@[phase(self.empties())],
            r == self.weight(weight),
    {
        proof {
            lemma_weights(phase(self.empties()));
        }
        let count = self.empty_squares_count();
        let idx: usize = if count > 50 {
            0
        } else if count > 40 {
            1
        } else if count > 20 {
            2
        } else {
            3
        };
        weight[idx]
    }

    /// The evaluation of `color` playing `next_move`: positive is good for
    /// `color`.
    pub fn score(&self, next_move: u8, color: Color) -> (r: i16)
        requires
            next_move < 64,
        ensures
            r == self.evaluation(next_move as int, color),
            -12000 <= r <= 12000,
    {
        reveal(Board::evaluation);
        let opposite = color.opposite();
        let next_board = self.flip(next_move, color);
        let a = next_board.raw_score(color) as i32;
        let b = next_board.flippable_count_score(opposite) as i32;
        let c = next_board.corner_flippable_score(opposite) as i32;
        let d = next_board.mountain_score(color) as i32;
        let e = next_board.solid_disks_score(color) as i32;
        let f = self.openness_score(next_move, color) as i32;
        let g = next_board.empty_score(opposite) as i32;
        (a + b + c + d + e + f + g) as i16
    }

    /// The mountains that `color` holds on the four edges.
    pub fn mountain_score(&self, color: Color) -> (r: i16)
        ensures
            r == self.mountains(color),
            0 <= r <= 120,
    {
        let (own, opp) = self.target_boards(color);
        let mut score: i16 = 0;
        score = score + self.edge(own, opp, 0x7e00000000000000, 0x7e3c000000000000, 56, 63);
        score = score + self.edge(own, opp, 0x1010101010100, 0x1030303030100, 0, 56);
        score = score + self.edge(own, opp, 0x7e, 0x3c7e, 0, 7);
        score = score + self.edge(own, opp, 0x80808080808000, 0x80c0c0c0c08000, 7, 63);
        score
    }

    fn edge(&self, own: u64, opp: u64, shape: u64, pure: u64, c1: u64, c2: u64) -> (r: i16)
        requires
            c1 < 64,
            c2 < 64,
        ensures
            r == edge_score(own, opp, shape, pure, c1, c2, self.empties()),
            0 <= r <= 30,
    {
        proof {
            lemma_has_bit_mask(opp, c1);
            lemma_has_bit_mask(opp, c2);
        }
        if own & shape == shape && opp & (1u64 << c1) == 0 && opp & (1u64 << c2) == 0 {
            if own & pure == pure {
                self.get_weight(Self::PURE_MOUNTAIN_WEIGHT)
            } else {
                self.get_weight(Self::MOUNTAIN_WEIGHT)
            }
        } else {
            0
        }
    }

    /// A penalty for each corner that `color` could take next.
    pub fn corner_flippable_score(&self, color: Color) -> (r: i16)
        ensures
            r == corner_count(self.legal(color)) * self.weight(Self::CORNER_FLIPPABLE_WEIGHT),
            -320 <= r <= 0,
    {
        let flippables = self.flippable_squares(color);
        proof {
            lemma_has_bit_mask(flippables, 0);
            lemma_has_bit_mask(flippables, 7);
            lemma_has_bit_mask(flippables, 56);
            lemma_has_bit_mask(flippables, 63);
        }
        let mut count: i16 = 0;
        if flippables & (1u64 << 0u64) != 0 {
            count = count + 1;
        }
        if flippables & (1u64 << 7u64) != 0 {
            count = count + 1;
        }
        if flippables & (1u64 << 56u64) != 0 {
            count = count + 1;
        }
        if flippables & (1u64 << 63u64) != 0 {
            count = count + 1;
        }
        count * self.get_weight(Self::CORNER_FLIPPABLE_WEIGHT)
    }

    /// A weight for each move that `color` has.
    pub fn flippable_count_score(&self, color: Color) -> (r: i16)
        ensures
            r == pop(self.legal(color)) * self.weight(Self::FLIPPABLE_COUNT_WEIGHT),
            -192 <= r <= 0,
    {
        let n = count_ones(self.flippable_squares(color)) as i16;
        let w = self.get_weight(Self::FLIPPABLE_COUNT_WEIGHT);
        proof {
            lemma_weights(phase(self.empties()));
            assert(-192 <= n * w <= 0) by (nonlinear_arith)
                requires
                    0 <= n <= 64,
                    -3 <= w <= -1,
            ;
        }
        n * w
    }

    /// The openness of the discs that `color` turns over by playing `mv`,
    /// weighted: a move that exposes many disc edges is worse.
    pub fn openness_score(&self, mv: u8, color: Color) -> (r: i16)
        requires
            mv < 64,
        ensures
            r == openness_sum(self.empty_bits(), self.flips_of(mv as int, color), 64)
                * self.weight(Self::OPENNESS_WEIGHT),
            -2560 <= r <= 0,
    {
        let flipped = self.flipped_squares(mv, color);
        let mut sum: u64 = 0;
        let mut x: u64 = 0;
        while x < 64
            invariant
                x <= 64,
                sum == openness_sum(self.empty_bits(), flipped, x as nat),
                sum <= 8 * x,
            decreases 64 - x,
        {
            proof {
                lemma_has_bit_mask(flipped, x);
            }
            if flipped & (1u64 << x) != 0 {
                sum = sum + self.openness_of_square(x as u8);
            }
            x = x + 1;
        }
        let w = self.get_weight(Self::OPENNESS_WEIGHT);
        proof {
            lemma_weights(phase(self.empties()));
            assert(-2560 <= sum * w <= 0) by (nonlinear_arith)
                requires
                    0 <= sum <= 512,
                    -5 <= w <= -3,
            ;
        }
        sum as i16 * w
    }

    /// The number of empty squares next to `square`.
    pub fn openness_of_square(&self, square: u8) -> (r: u64)
        requires
            square < 64,
        ensures
            r == openness(self.empty_bits(), square as u64),
            r <= 8,
    {
        let s = 1u64 << (square as u64);
        let blank = !(self.dark | self.light);
        let mut n: u64 = 0;
        if s << 1u64 & (blank & 0xfefefefefefefefe) != 0 {
            n = n + 1;
        }
        if s >> 1u64 & (blank & 0x7f7f7f7f7f7f7f7f) != 0 {
            n = n + 1;
        }
        if s << 8u64 & blank != 0 {
            n = n + 1;
        }
        if s >> 8u64 & blank != 0 {
            n = n + 1;
        }
        if s << 7u64 & (blank & 0x7f7f7f7f7f7f7f7f) != 0 {
            n = n + 1;
        }
        if s >> 7u64 & (blank & 0xfefefefefefefefe) != 0 {
            n = n + 1;
        }
        if s << 9u64 & (blank & 0xfefefefefefefefe) != 0 {
            n = n + 1;
        }
        if s >> 9u64 & (blank & 0x7f7f7f7f7f7f7f7f) != 0 {
            n = n + 1;
        }
        n
    }

    /// The positional score of `color`, scaled for the game's progress.
    pub fn raw_score(&self, color: Color) -> (r: i16)
        ensures
            r == scaled_raw(self.raw_total(color), self.empties()),
            -3228 <= r <= 3228,
    {
        let (target, opponent) = self.target_boards(color);
        let raw: i32 = raw_sum_of(target) - raw_sum_of(opponent) + self.corner_flipped_score(
            color,
        ) as i32 - self.corner_flipped_score(color.opposite()) as i32;
        let empty_count = self.empty_squares_count();
        if empty_count > 30 {
            (raw * 3) as i16
        } else if empty_count > 15 {
            raw as i16
        } else if raw >= 0 {
            (raw / 10) as i16
        } else {
            (-((-raw) / 10)) as i16
        }
    }

    /// The squares next to the filled corners, counted for `color` where it
    /// holds them.
    pub fn corner_flipped_score(&self, color: Color) -> (r: i16)
        ensures
            r == self.corner_flipped(color),
            -280 <= r <= 0,
    {
        let (target, opponent) = self.target_boards(color);
        let summed = self.dark | self.light;
        let mut ret: i16 = 0;
        ret = ret + corner_group_exec(summed, target, 0, 1, 8, 9);
        ret = ret + corner_group_exec(summed, target, 7, 6, 14, 15);
        ret = ret + corner_group_exec(summed, target, 56, 48, 49, 57);
        ret = ret + corner_group_exec(summed, target, 63, 54, 55, 62);
        ret
    }

    /// The solid discs of `color` less those of its opponent, weighted.
    pub fn solid_disks_score(&self, color: Color) -> (r: i16)
        ensures
            r == (self.solid_count(color) - self.solid_count(color.opp())) * self.weight(
                Self::SOLID_DISK_WEIGHT,
            ),
            -300 <= r <= 300,
    {
        let n = (self.solid_disks_count(color) - self.solid_disks_count(color.opposite())) as i16;
        let w = self.get_weight(Self::SOLID_DISK_WEIGHT);
        proof {
            lemma_weights(phase(self.empties()));
        }
        n * w
    }

    /// The discs of `color` that no move can turn over, as far as the walks
    /// from its corners along the edges show.
    pub fn solid_disks_count(&self, color: Color) -> (r: i8)
        ensures
            r == self.solid_count(color),
            0 <= r <= 60,
    {
        let (player_board, opponent_board) = self.target_boards(color);
        let mut ret: i8 = 0;
        ret = ret + self.solid_corner_exec(player_board, opponent_board, 0, 8, 1);
        ret = ret + self.solid_corner_exec(player_board, opponent_board, 7, 8, -1);
        ret = ret + self.solid_corner_exec(player_board, opponent_board, 56, -8, 1);
        ret = ret + self.solid_corner_exec(player_board, opponent_board, 63, -8, -1);
        ret
    }

    fn solid_corner_exec(&self, own: u64, opp: u64, corner: i8, d1: i8, d2: i8) -> (r: i8)
        requires
            line_on_board(corner as int, d1 as int),
            line_on_board(corner as int, d2 as int),
        ensures
            r == solid_corner(own, opp, corner as int, d1 as int, d2 as int),
            0 <= r <= 15,
    {
        proof {
            lemma_has_bit_mask(own, corner as u64);
        }
        if own & (1u64 << (corner as u64)) != 0 {
            1 + self.solid_disks_line(own, opp, corner, d1, false) + self.solid_disks_line(
                own,
                opp,
                corner,
                d2,
                false,
            )
        } else {
            0
        }
    }

    /// Walks seven steps from `square` in steps of `diff`: counts the discs of
    /// `player_board` before the first opponent disc, and all of them when no
    /// square on the way is empty.
    pub fn solid_disks_line(
        &self,
        player_board: u64,
        opponent_board: u64,
        square: i8,
        diff: i8,
        count_if_filled: bool,
    ) -> (r: i8)
        requires
            line_on_board(square as int, diff as int),
        ensures
            r == solid_line(player_board, opponent_board, square as int, diff as int, count_if_filled),
            0 <= r <= 7,
    {
        let mut after_opp = count_if_filled;
        let mut ret: i8 = 0;
        let mut extra: i8 = 0;
        let mut i: i8 = 1;
        let ghost own = player_board;
        let ghost opp = opponent_board;
        let ghost sq = square as int;
        let ghost d = diff as int;
        while i < 8
            invariant
                1 <= i <= 8,
                line_on_board(sq, d),
                sq == square,
                d == diff,
                own == player_board,
                opp == opponent_board,
                line_full(own | opp, sq, d, 1) == line_full(own | opp, sq, d, i as int),
                0 <= ret <= i - 1,
                0 <= extra <= i - 1,
                ret + extra <= i - 1,
                ret + extra == own_count(own, sq, d, 1) - own_count(own, sq, d, i as int),
                !after_opp ==> ret == i - 1 && extra == 0 && !count_if_filled && own_run(
                    own,
                    sq,
                    d,
                    1,
                ) == i - 1 + own_run(own, sq, d, i as int),
                after_opp && count_if_filled ==> ret == 0,
                after_opp && !count_if_filled ==> ret == own_run(own, sq, d, 1),
            decreases 8 - i,
        {
            proof {
                assert(0 <= sq + d * (i as int) < 64 && -56 <= d * (i as int) <= 56)
                    by (nonlinear_arith)
                    requires
                        line_on_board(sq, d),
                        1 <= i <= 7,
                ;
            }
            let pos: i8 = square + diff * i;
            proof {
                lemma_has_bit_mask(player_board, pos as u64);
                lemma_has_bit_mask(opponent_board, pos as u64);
                lemma_has_bit_mask(player_board | opponent_board, pos as u64);
                assert(has_bit(own | opp, pos as u64) == (has_bit(own, pos as u64) || has_bit(
                    opp,
                    pos as u64,
                ))) by (bit_vector);
            }
            if player_board & (1u64 << (pos as u64)) != 0 {
                if after_opp {
                    extra = extra + 1;
                } else {
                    ret = ret + 1;
                }
            } else if opponent_board & (1u64 << (pos as u64)) != 0 {
                after_opp = true;
            } else {
                proof {
                    lemma_line_not_full(own | opp, sq, d, i as int);
                }
                return ret;
            }
            i = i + 1;
        }
        ret + extra
    }

    /// The terminal flag for the side that just moved, `color` being its
    /// opponent: 5000 when neither side can move and it leads, -5000 when it
    /// trails.
    pub fn empty_score(&self, color: Color) -> (r: i16)
        ensures
            r == self.terminal(color),
            -5000 <= r <= 5000,
    {
        if self.flippable_squares(color) == 0 && self.flippable_squares(color.opposite()) == 0 {
            let (target, mover) = self.target_boards(color);
            let m = count_ones(mover);
            let t = count_ones(target);
            if m > t {
                5000
            } else if m < t {
                -5000
            } else {
                0
            }
        } else {
            0
        }
    }

    /// Whether `color` covers every square of `shape`.
    pub fn has_shape(&self, color: Color, shape: u64) -> (r: bool)
        ensures
            r == covers(self.discs(color), shape),
    {
        self.disks_of_color(color) & shape == shape
    }

    /// The discs of `color`.
    pub fn disks_of_color(&self, color: Color) -> (r: u64)
        ensures
            r == self.discs(color),
    {
        match color {
            Color::Dark => self.dark,
            Color::Light => self.light,
        }
    }
}

proof fn lemma_weights(k: int)
    requires
        0 <= k < 4,
    ensures
        5 <= Board::MOUNTAIN_WEIGHT@[k] <= 20,
        10 <= Board::PURE_MOUNTAIN_WEIGHT@[k] <= 30,
        Board::CORNER_FLIPPABLE_WEIGHT@[k] == -80,
        Board::SOLID_DISK_WEIGHT@[k] == 5,
        -3 <= Board::FLIPPABLE_COUNT_WEIGHT@[k] <= -1,
        -5 <= Board::OPENNESS_WEIGHT@[k] <= -3,
{
    if k == 0 {
    } else if k == 1 {
    } else if k == 2 {
    } else {
    }
}

proof fn lemma_line_not_full(all: u64, sq: int, d: int, i: int)
    requires
        1 <= i < 8,
        !has_bit(all, (sq + d * i) as u64),
    ensures
        !line_full(all, sq, d, i),
{
}

fn corner_group_exec(all: u64, own: u64, c: u64, a: u64, b: u64, d: u64) -> (r: i16)
    requires
        c < 64,
        a < 64,
        b < 64,
        d < 64,
        -40 <= raw_value(a as int) <= 0,
        -40 <= raw_value(b as int) <= 0,
        -40 <= raw_value(d as int) <= 0,
    ensures
        r == corner_group(all, own, c, a, b, d),
        -120 <= r <= 0,
{
    proof {
        lemma_has_bit_mask(all, c);
        lemma_has_bit_mask(own, a);
        lemma_has_bit_mask(own, b);
        lemma_has_bit_mask(own, d);
    }
    let mut ret: i16 = 0;
    if all & (1u64 << c) != 0 {
        if own & (1u64 << a) != 0 {
            ret = ret + Board::RAW_VALUES[a as usize];
        }
        if own & (1u64 << b) != 0 {
            ret = ret + Board::RAW_VALUES[b as usize];
        }
        if own & (1u64 << d) != 0 {
            ret = ret + Board::RAW_VALUES[d as usize];
        }
    }
    ret
}

/// The sum of the table over the squares that `bits` holds.
fn raw_sum_of(bits: u64) -> (r: i32)
    ensures
        r == raw_sum(bits, 64),
        -344 <= r <= 412,
{
    let mut sum: i32 = 0;
    let mut i: u64 = 0;
    while i < 64
        invariant
            i <= 64,
            sum == raw_sum(bits, i as nat),
            -100 * i <= sum <= 100 * i,
        decreases 64 - i,
    {
        proof {
            lemma_has_bit_mask(bits, i);
            lemma_raw_value_range(i as int);
        }
        if bits & (1u64 << i) != 0 {
            sum = sum + Board::RAW_VALUES[i as usize] as i32;
        }
        i = i + 1;
    }
    proof {
        lemma_raw_sum_bounds(bits, 64);
        lemma_table_sums();
    }
    sum
}

proof fn lemma_raw_value_range(i: int)
    requires
        0 <= i < 64,
    ensures
        -100 <= raw_value(i) <= 100,
{
}

proof fn lemma_raw_sum_bounds(bits: u64, n: nat)
    requires
        n <= 64,
    ensures
        negative_prefix(n) <= raw_sum(bits, n) <= positive_prefix(n),
    decreases n,
{
    if n > 0 {
        lemma_raw_sum_bounds(bits, (n - 1) as nat);
    }
}

proof fn lemma_table_sums()
    ensures
        positive_prefix(64) == 412,
        negative_prefix(64) == -344,
{
    reveal_with_fuel(positive_prefix, 65);
    reveal_with_fuel(negative_prefix, 65);
}

} // verus!
