//! The bitboard: two 64-bit sets of discs, move generation, flips and the
//! board's symmetries.
use vstd::prelude::*;

use crate::bits::{count_ones, has_bit, lemma_has_bit_mask, lemma_pop_subset, pop};
use crate::color::Color;
use crate::square::Square;

verus! {

/// A position: bit `x + 8 y` of `dark` (of `light`) is set when that square
/// holds a dark (a light) disc.
#[derive(Clone, Copy, Debug, PartialEq, Eq, Hash, Structural)]
pub struct Board {
    pub dark: u64,
    pub light: u64,
}

/// Opponent discs that can lie inside a horizontal run: files B..G.
pub const HORIZONTAL_MASK: u64 = 0x7e7e7e7e7e7e7e7e;

/// Opponent discs that can lie inside a vertical run: ranks 2..7.
pub const VERTICAL_MASK: u64 = 0x00ffffffffffff00;

/// Opponent discs that can lie inside a diagonal run: the inner 6x6 square.
pub const DIAGONAL_MASK: u64 = 0x007e7e7e7e7e7e00;

/// Squares reached from a disc of `own` through a run of `w`, shifting up by `s`
/// at each step (at most six discs of a run).
pub open spec fn dilate_up(own: u64, w: u64, s: u64) -> u64 {
    let t1 = w & (own << s);
    let t2 = t1 | (w & (t1 << s));
    let t3 = t2 | (w & (t2 << s));
    let t4 = t3 | (w & (t3 << s));
    let t5 = t4 | (w & (t4 << s));
    let t6 = t5 | (w & (t5 << s));
    t6 << s
}

/// As [`dilate_up`], shifting down.
pub open spec fn dilate_down(own: u64, w: u64, s: u64) -> u64 {
    let t1 = w & (own >> s);
    let t2 = t1 | (w & (t1 >> s));
    let t3 = t2 | (w & (t2 >> s));
    let t4 = t3 | (w & (t3 >> s));
    let t5 = t4 | (w & (t4 >> s));
    let t6 = t5 | (w & (t5 >> s));
    t6 >> s
}

/// The legal moves of the side whose discs are `own` against `opp`: the empty
/// squares from which some ray runs over opponent discs up to a disc of `own`.
pub open spec fn legal_moves(own: u64, opp: u64) -> u64 {
    let h = opp & HORIZONTAL_MASK;
    let v = opp & VERTICAL_MASK;
    let d = opp & DIAGONAL_MASK;
    !(own | opp) & (dilate_up(own, h, 1) | dilate_down(own, h, 1) | dilate_up(own, v, 8)
        | dilate_down(own, v, 8) | dilate_up(own, d, 9) | dilate_up(own, d, 7) | dilate_down(
        own,
        d,
        7,
    ) | dilate_down(own, d, 9))
}

/// Walks a ray from `(x, y)` on: `Some` of the opponent discs passed when a disc
/// of `own` ends the walk, `None` when an empty square or the edge does.
pub open spec fn scan(own: u64, opp: u64, x: int, y: int, dx: int, dy: int, fuel: nat) -> Option<
    u64,
>
    decreases fuel,
{
    if fuel == 0 || !(0 <= x < 8 && 0 <= y < 8) {
        None
    } else if has_bit(own, (x + 8 * y) as u64) {
        Some(0u64)
    } else if has_bit(opp, (x + 8 * y) as u64) {
        match scan(own, opp, x + dx, y + dy, dx, dy, (fuel - 1) as nat) {
            Some(m) => Some(m | (1u64 << ((x + 8 * y) as u64))),
            None => None,
        }
    } else {
        None
    }
}

/// The opponent discs that a disc on square `sq` brackets in direction `(dx, dy)`.
pub open spec fn ray_flips(own: u64, opp: u64, sq: int, dx: int, dy: int) -> u64 {
    match scan(own, opp, sq % 8 + dx, sq / 8 + dy, dx, dy, 8) {
        Some(m) => m,
        None => 0,
    }
}

/// The opponent discs that a disc of `own` placed on `sq` turns over.
pub open spec fn flips(own: u64, opp: u64, sq: int) -> u64 {
    ray_flips(own, opp, sq, 1, 0) | ray_flips(own, opp, sq, -1, 0) | ray_flips(own, opp, sq, 0, 1)
        | ray_flips(own, opp, sq, 0, -1) | ray_flips(own, opp, sq, 1, 1) | ray_flips(
        own,
        opp,
        sq,
        1,
        -1,
    ) | ray_flips(own, opp, sq, -1, 1) | ray_flips(own, opp, sq, -1, -1)
}

/// The quarter turn of a bitboard: a cascade of block swaps.
pub open spec fn rot90_bits(v: u64) -> u64 {
    let a = (0x00000000f0f0f0f0u64 & (v << 4)) | (0xf0f0f0f00f0f0f0fu64 & (v << 32)) | (
    0xf0f0f0f00f0f0f0fu64 & (v >> 32)) | (0x0f0f0f0f00000000u64 & (v >> 4));
    let b = (0x0000cccc0000ccccu64 & (a << 2)) | (0xcccc0000cccc0000u64 & (a << 16)) | (
    0x0000333300003333u64 & (a >> 16)) | (0x3333000033330000u64 & (a >> 2));
    (0x00aa00aa00aa00aau64 & (b << 1)) | (0xaa00aa00aa00aa00u64 & (b << 8)) | (0x0055005500550055u64
        & (b >> 8)) | (0x5500550055005500u64 & (b >> 1))
}

/// The mirror of a bitboard: its eight ranks in reverse order.
pub open spec fn mirror_bits(v: u64) -> u64 {
    let a = ((v >> 8) & 0x00ff00ff00ff00ffu64) | ((v & 0x00ff00ff00ff00ffu64) << 8);
    let b = ((a >> 16) & 0x0000ffff0000ffffu64) | ((a & 0x0000ffff0000ffffu64) << 16);
    (b >> 32) | (b << 32)
}

/// Where a quarter turn takes square `i`: `(x, y)` goes to `(7 - y, x)`.
pub open spec fn rot90_index(i: u64) -> u64 {
    ((7 - i / 8) + 8 * (i % 8)) as u64
}

/// Where the mirror takes square `i`: `(x, y)` goes to `(x, 7 - y)`.
pub open spec fn mirror_index(i: u64) -> u64 {
    (i % 8 + 8 * (7 - i / 8)) as u64
}

impl Board {
    /// No square holds two discs.
    pub open spec fn wf(self) -> bool {
        self.dark & self.light == 0
    }

    /// The discs of side `c`.
    pub open spec fn discs(self, c: Color) -> u64 {
        match c {
            Color::Dark => self.dark,
            Color::Light => self.light,
        }
    }

    pub open spec fn empty_bits(self) -> u64 {
        !(self.dark | self.light)
    }

    /// The number of empty squares.
    pub open spec fn empties(self) -> nat {
        pop(self.empty_bits())
    }

    /// The legal moves of side `c`, one bit per square.
    pub open spec fn legal(self, c: Color) -> u64 {
        legal_moves(self.discs(c), self.discs(c.opp()))
    }

    /// The discs that side `c` turns over by playing on `sq`.
    pub open spec fn flips_of(self, sq: int, c: Color) -> u64 {
        flips(self.discs(c), self.discs(c.opp()), sq)
    }

    /// The board after side `c` plays on `sq`.
    pub open spec fn play(self, sq: int, c: Color) -> Board {
        let f = self.flips_of(sq, c);
        let own = self.discs(c) | (1u64 << (sq as u64)) | f;
        let other = self.discs(c.opp()) & !f;
        match c {
            Color::Dark => Board { dark: own, light: other },
            Color::Light => Board { dark: other, light: own },
        }
    }

    /// Whose discs outnumber the other's; `None` on a tie.
    pub open spec fn spec_winner(self) -> Option<Color> {
        if pop(self.dark) > pop(self.light) {
            Some(Color::Dark)
        } else if pop(self.dark) < pop(self.light) {
            Some(Color::Light)
        } else {
            None
        }
    }

    pub open spec fn spec_rotate_90(self) -> Board {
        Board { dark: rot90_bits(self.dark), light: rot90_bits(self.light) }
    }

    pub open spec fn spec_mirror(self) -> Board {
        Board { dark: mirror_bits(self.dark), light: mirror_bits(self.light) }
    }

    /// The opening position.
    pub open spec fn initial_spec() -> Board {
        Board { dark: 0x0000_0008_1000_0000u64, light: 0x0000_0010_0800_0000u64 }
    }

    /// The opening position: dark discs on D5 and E4, light discs on D4 and E5.
    pub fn initial() -> (r: Board)
        ensures
            r == Board::initial_spec(),
            r.dark == 0x0000_0008_1000_0000u64,
            r.light == 0x0000_0010_0800_0000u64,
            r.wf(),
    {
        let d5 = Square { x: 3, y: 4 }.to_uint();
        let e4 = Square { x: 4, y: 3 }.to_uint();
        let d4 = Square { x: 3, y: 3 }.to_uint();
        let e5 = Square { x: 4, y: 4 }.to_uint();
        let dark = 1u64 << d5 | 1u64 << e4;
        let light = 1u64 << d4 | 1u64 << e5;
        assert(dark == 0x0000_0008_1000_0000u64 && light == 0x0000_0010_0800_0000u64 && dark
            & light == 0) by (bit_vector)
            requires
                dark == (1u64 << 35u64) | (1u64 << 28u64),
                light == (1u64 << 27u64) | (1u64 << 36u64),
        ;
        let r = Board { dark, light };
        r
    }

    /// The discs of side `color`, then those of its opponent.
    pub fn target_boards(&self, color: Color) -> (r: (u64, u64))
        ensures
            r == (self.discs(color), self.discs(color.opp())),
    {
        match color {
            Color::Dark => (self.dark, self.light),
            Color::Light => (self.light, self.dark),
        }
    }

    /// The board after `color` plays on `square`: the square and every disc it
    /// brackets become `color`'s. The board itself is left as it was.
    pub fn flip(&self, square: u8, color: Color) -> (r: Board)
        requires
            square < 64,
        ensures
            r == self.play(square as int, color),
            self.flips_of(square as int, color) & !self.discs(color.opp()) == 0,
            self.wf() && !has_bit(self.dark | self.light, square as u64) ==> r.wf() && r.empties()
                < self.empties(),
    {
        let flipped = self.flipped_squares(square, color);
        let bit: u64 = 1u64 << square;
        let r = match color {
            Color::Dark => Board { dark: self.dark | bit | flipped, light: self.light & !flipped },
            Color::Light => Board { dark: self.dark & !flipped, light: self.light | bit | flipped },
        };
        proof {
            if self.wf() && !has_bit(self.dark | self.light, square as u64) {
                lemma_has_bit_mask(self.dark | self.light, square as u64);
                let own = self.discs(color);
                let opp = self.discs(color.opp());
                let (sd, sl, rd, rl) = (self.dark, self.light, r.dark, r.light);
                assert(rd & rl == 0 && (!(rd | rl)) & !(!(sd | sl)) == 0 && !(rd | rl) != !(sd
                    | sl)) by (bit_vector)
                    requires
                        sd & sl == 0,
                        (sd | sl) & bit == 0,
                        bit != 0,
                        flipped & !opp == 0,
                        (own == sd && opp == sl) || (own == sl && opp == sd),
                        (own == sd && rd == sd | bit | flipped && rl == sl & !flipped) || (own
                            == sl && rl == sl | bit | flipped && rd == sd & !flipped),
                ;
                lemma_pop_subset(!(r.dark | r.light), !(self.dark | self.light));
            }
        }
        r
    }

    /// The legal moves of `color`, one bit per square (Kogge-Stone dilation
    /// along the eight directions).
    pub fn flippable_squares(&self, color: Color) -> (r: u64)
        ensures
            r == self.legal(color),
            r & (self.dark | self.light) == 0,
    {
        let (own, opp) = self.target_boards(color);
        let h = opp & HORIZONTAL_MASK;
        let v = opp & VERTICAL_MASK;
        let d = opp & DIAGONAL_MASK;
        let blank = !(own | opp);
        let moves = (dilate_up_exec(own, h, 1) | dilate_down_exec(own, h, 1) | dilate_up_exec(
            own,
            v,
            8,
        ) | dilate_down_exec(own, v, 8) | dilate_up_exec(own, d, 9) | dilate_up_exec(own, d, 7)
            | dilate_down_exec(own, d, 7) | dilate_down_exec(own, d, 9));
        let r = blank & moves;
        proof {
            let (sd, sl) = (self.dark, self.light);
            assert(r & (sd | sl) == 0) by (bit_vector)
                requires
                    blank == !(own | opp),
                    r == blank & moves,
                    (own == sd && opp == sl) || (own == sl && opp == sd),
            ;
        }
        r
    }

    /// The opponent discs that `color` turns over by playing on `square_uint`.
    pub fn flipped_squares(&self, square_uint: u8, color: Color) -> (r: u64)
        requires
            square_uint < 64,
        ensures
            r == self.flips_of(square_uint as int, color),
            r & !self.discs(color.opp()) == 0,
    {
        let (own, opp) = self.target_boards(color);
        let r = ray_flips_exec(own, opp, square_uint, 1, 0) | ray_flips_exec(
            own,
            opp,
            square_uint,
            -1,
            0,
        ) | ray_flips_exec(own, opp, square_uint, 0, 1) | ray_flips_exec(
            own,
            opp,
            square_uint,
            0,
            -1,
        ) | ray_flips_exec(own, opp, square_uint, 1, 1) | ray_flips_exec(
            own,
            opp,
            square_uint,
            1,
            -1,
        ) | ray_flips_exec(own, opp, square_uint, -1, 1) | ray_flips_exec(
            own,
            opp,
            square_uint,
            -1,
            -1,
        );
        let ghost a = ray_flips(own, opp, square_uint as int, 1, 0);
        let ghost b = ray_flips(own, opp, square_uint as int, -1, 0);
        let ghost c = ray_flips(own, opp, square_uint as int, 0, 1);
        let ghost d = ray_flips(own, opp, square_uint as int, 0, -1);
        let ghost e = ray_flips(own, opp, square_uint as int, 1, 1);
        let ghost f = ray_flips(own, opp, square_uint as int, 1, -1);
        let ghost g = ray_flips(own, opp, square_uint as int, -1, 1);
        let ghost h = ray_flips(own, opp, square_uint as int, -1, -1);
        assert((a | b | c | d | e | f | g | h) & !opp == 0) by (bit_vector)
            requires
                a & !opp == 0,
                b & !opp == 0,
                c & !opp == 0,
                d & !opp == 0,
                e & !opp == 0,
                f & !opp == 0,
                g & !opp == 0,
                h & !opp == 0,
        ;
        r
    }

    /// The number of empty squares.
    pub fn empty_squares_count(&self) -> (r: u8)
        ensures
            r == self.empties(),
            r <= 64,
    {
        count_ones(!(self.dark | self.light)) as u8
    }

    /// The board turned a quarter: the disc on `(x, y)` moves to `(7 - y, x)`.
    pub fn rotate_90(&self) -> (r: Board)
        ensures
            r == self.spec_rotate_90(),
    {
        Board { dark: rot90_word(self.dark), light: rot90_word(self.light) }
    }

    pub fn rotate_180(&self) -> (r: Board)
        ensures
            r == self.spec_rotate_90().spec_rotate_90(),
    {
        self.rotate_90().rotate_90()
    }

    pub fn rotate_270(&self) -> (r: Board)
        ensures
            r == self.spec_rotate_90().spec_rotate_90().spec_rotate_90(),
    {
        self.rotate_90().rotate_90().rotate_90()
    }

    /// The board reflected in its horizontal axis: rank `y` goes to `7 - y`.
    pub fn mirror(&self) -> (r: Board)
        ensures
            r == self.spec_mirror(),
    {
        Board { dark: mirror_word(self.dark), light: mirror_word(self.light) }
    }

    /// The side with more discs, or `None` on equal counts.
    pub fn winner(&self) -> (r: Option<Color>)
        ensures
            r == self.spec_winner(),
    {
        let d = count_ones(self.dark);
        let l = count_ones(self.light);
        if d > l {
            Some(Color::Dark)
        } else if d < l {
            Some(Color::Light)
        } else {
            None
        }
    }

    /// Exactly one square is empty.
    pub fn is_last_move(&self) -> (r: bool)
        ensures
            r == (self.empties() == 1),
    {
        count_ones(!(self.dark | self.light)) == 1
    }

    /// No square is empty.
    pub fn is_end(&self) -> (r: bool)
        ensures
            r == (self.empties() == 0),
    {
        count_ones(!(self.dark | self.light)) == 0
    }
}

proof fn lemma_rot90_word_four(v: u64)
    ensures
        rot90_bits(rot90_bits(rot90_bits(rot90_bits(v)))) == v,
{
    let a = rot90_bits(v);
    let b = rot90_bits(a);
    let c = rot90_bits(b);
    assert(rot90_bits(c) == v) by (bit_vector)
        requires
            a == rot90_bits(v),
            b == rot90_bits(a),
            c == rot90_bits(b),
    ;
}

proof fn lemma_mirror_word_twice(v: u64)
    ensures
        mirror_bits(mirror_bits(v)) == v,
{
    let a = mirror_bits(v);
    assert(mirror_bits(a) == v) by (bit_vector)
        requires
            a == mirror_bits(v),
    ;
}

proof fn lemma_rot90_word_bit(v: u64, i: u64)
    requires
        i < 64,
    ensures
        has_bit(rot90_bits(v), rot90_index(i)) == has_bit(v, i),
{
    let a = rot90_bits(v);
    assert(has_bit(a, rot90_index(i)) == has_bit(v, i)) by (bit_vector)
        requires
            a == rot90_bits(v),
            i < 64,
    ;
}

proof fn lemma_mirror_word_bit(v: u64, i: u64)
    requires
        i < 64,
    ensures
        has_bit(mirror_bits(v), mirror_index(i)) == has_bit(v, i),
{
    let a = mirror_bits(v);
    assert(has_bit(a, mirror_index(i)) == has_bit(v, i)) by (bit_vector)
        requires
            a == mirror_bits(v),
            i < 64,
    ;
}

/// Four quarter turns, or two mirrors, give a board back; and a quarter turn
/// (a mirror) moves the disc of every square `s` to the square's own quarter
/// turn (mirror), for both sides.
pub proof fn lemma_board_symmetries(b: Board, s: Square)
    requires
        s.wf(),
    ensures
        b.spec_rotate_90().spec_rotate_90().spec_rotate_90().spec_rotate_90() == b,
        b.spec_mirror().spec_mirror() == b,
        has_bit(b.dark, s.index() as u64) == has_bit(
            b.spec_rotate_90().dark,
            s.spec_rotate_90().index() as u64,
        ),
        has_bit(b.light, s.index() as u64) == has_bit(
            b.spec_rotate_90().light,
            s.spec_rotate_90().index() as u64,
        ),
        has_bit(b.dark, s.index() as u64) == has_bit(
            b.spec_mirror().dark,
            s.spec_mirror().index() as u64,
        ),
        has_bit(b.light, s.index() as u64) == has_bit(
            b.spec_mirror().light,
            s.spec_mirror().index() as u64,
        ),
{
    lemma_rot90_word_four(b.dark);
    lemma_rot90_word_four(b.light);
    lemma_mirror_word_twice(b.dark);
    lemma_mirror_word_twice(b.light);
    let i = s.index() as u64;
    assert(rot90_index(i) == s.spec_rotate_90().index());
    assert(mirror_index(i) == s.spec_mirror().index());
    lemma_rot90_word_bit(b.dark, i);
    lemma_rot90_word_bit(b.light, i);
    lemma_mirror_word_bit(b.dark, i);
    lemma_mirror_word_bit(b.light, i);
}

/// Legal moves lie on empty squares only.
pub proof fn lemma_legal_moves_empty(b: Board, c: Color)
    requires
        b.wf(),
    ensures
        b.legal(c) & (b.dark | b.light) == 0,
{
    let own = b.discs(c);
    let opp = b.discs(c.opp());
    let (d, l) = (b.dark, b.light);
    let x = b.legal(c);
    let h = opp & HORIZONTAL_MASK;
    let v = opp & VERTICAL_MASK;
    let dg = opp & DIAGONAL_MASK;
    let moves = dilate_up(own, h, 1) | dilate_down(own, h, 1) | dilate_up(own, v, 8) | dilate_down(
        own,
        v,
        8,
    ) | dilate_up(own, dg, 9) | dilate_up(own, dg, 7) | dilate_down(own, dg, 7) | dilate_down(
        own,
        dg,
        9,
    );
    assert(x == !(own | opp) & moves);
    assert(x & (d | l) == 0) by (bit_vector)
        requires
            x == !(own | opp) & moves,
            (own == d && opp == l) || (own == l && opp == d),
    ;
}

/// A legal move puts a disc of its side on the square played, turns over only
/// opponent discs, leaves the board well formed and fills one more square.
pub proof fn lemma_play_legal(b: Board, m: u64, c: Color)
    requires
        b.wf(),
        m < 64,
        has_bit(b.legal(c), m),
    ensures
        has_bit(b.play(m as int, c).discs(c), m),
        !has_bit(b.play(m as int, c).discs(c.opp()), m),
        b.play(m as int, c).discs(c.opp()) & !b.discs(c.opp()) == 0,
        b.discs(c) & !b.play(m as int, c).discs(c) == 0,
        b.play(m as int, c).wf(),
        b.play(m as int, c).empties() < b.empties(),
{
    lemma_legal_moves_empty(b, c);
    let x = b.legal(c);
    let occ = b.dark | b.light;
    assert(!has_bit(occ, m)) by (bit_vector)
        requires
            has_bit(x, m),
            x & occ == 0,
    ;
    lemma_flips_opponent(b, m as int, c);
    lemma_play_wf(b, m, c);
}

proof fn lemma_flips_opponent(b: Board, sq: int, c: Color)
    requires
        0 <= sq < 64,
    ensures
        b.flips_of(sq, c) & !b.discs(c.opp()) == 0,
{
    let own = b.discs(c);
    let opp = b.discs(c.opp());
    lemma_ray_opponent(own, opp, sq, 1, 0);
    lemma_ray_opponent(own, opp, sq, -1, 0);
    lemma_ray_opponent(own, opp, sq, 0, 1);
    lemma_ray_opponent(own, opp, sq, 0, -1);
    lemma_ray_opponent(own, opp, sq, 1, 1);
    lemma_ray_opponent(own, opp, sq, 1, -1);
    lemma_ray_opponent(own, opp, sq, -1, 1);
    lemma_ray_opponent(own, opp, sq, -1, -1);
    let a = ray_flips(own, opp, sq, 1, 0);
    let bb = ray_flips(own, opp, sq, -1, 0);
    let cc = ray_flips(own, opp, sq, 0, 1);
    let d = ray_flips(own, opp, sq, 0, -1);
    let e = ray_flips(own, opp, sq, 1, 1);
    let f = ray_flips(own, opp, sq, 1, -1);
    let g = ray_flips(own, opp, sq, -1, 1);
    let h = ray_flips(own, opp, sq, -1, -1);
    assert((a | bb | cc | d | e | f | g | h) & !opp == 0) by (bit_vector)
        requires
            a & !opp == 0,
            bb & !opp == 0,
            cc & !opp == 0,
            d & !opp == 0,
            e & !opp == 0,
            f & !opp == 0,
            g & !opp == 0,
            h & !opp == 0,
    ;
}

proof fn lemma_ray_opponent(own: u64, opp: u64, sq: int, dx: int, dy: int)
    ensures
        ray_flips(own, opp, sq, dx, dy) & !opp == 0,
{
    lemma_scan_opponent(own, opp, sq % 8 + dx, sq / 8 + dy, dx, dy, 8);
    assert(0u64 & !opp == 0) by (bit_vector);
}

proof fn lemma_scan_opponent(own: u64, opp: u64, x: int, y: int, dx: int, dy: int, fuel: nat)
    ensures
        scan(own, opp, x, y, dx, dy, fuel) matches Some(m) ==> m & !opp == 0,
    decreases fuel,
{
    if fuel > 0 && 0 <= x < 8 && 0 <= y < 8 {
        let i = (x + 8 * y) as u64;
        assert(0u64 & !opp == 0) by (bit_vector);
        if !has_bit(own, i) && has_bit(opp, i) {
            lemma_scan_opponent(own, opp, x + dx, y + dy, dx, dy, (fuel - 1) as nat);
            if let Some(m) = scan(own, opp, x + dx, y + dy, dx, dy, (fuel - 1) as nat) {
                assert((m | (1u64 << i)) & !opp == 0) by (bit_vector)
                    requires
                        m & !opp == 0,
                        has_bit(opp, i),
                ;
            }
        }
    }
}

proof fn lemma_play_wf(b: Board, m: u64, c: Color)
    requires
        b.wf(),
        m < 64,
        !has_bit(b.dark | b.light, m),
        b.flips_of(m as int, c) & !b.discs(c.opp()) == 0,
    ensures
        has_bit(b.play(m as int, c).discs(c), m),
        !has_bit(b.play(m as int, c).discs(c.opp()), m),
        b.play(m as int, c).discs(c.opp()) & !b.discs(c.opp()) == 0,
        b.discs(c) & !b.play(m as int, c).discs(c) == 0,
        b.play(m as int, c).wf(),
        b.play(m as int, c).empties() < b.empties(),
{
    let own = b.discs(c);
    let opp = b.discs(c.opp());
    let f = b.flips_of(m as int, c);
    let r = b.play(m as int, c);
    let (sd, sl, rd, rl) = (b.dark, b.light, r.dark, r.light);
    let nown = r.discs(c);
    let nopp = r.discs(c.opp());
    assert(nown == own | (1u64 << m) | f && nopp == opp & !f);
    assert(has_bit(nown, m) && !has_bit(nopp, m) && nopp & !opp == 0 && own & !nown == 0) by (bit_vector)
        requires
            nown == own | (1u64 << m) | f,
            nopp == opp & !f,
            !has_bit(sd | sl, m),
            (own == sd && opp == sl) || (own == sl && opp == sd),
            m < 64,
    ;
    assert(rd & rl == 0 && (!(rd | rl)) & !(!(sd | sl)) == 0 && !(rd | rl) != !(sd | sl))
        by (bit_vector)
        requires
            sd & sl == 0,
            !has_bit(sd | sl, m),
            m < 64,
            f & !opp == 0,
            (own == sd && opp == sl) || (own == sl && opp == sd),
            (own == sd && rd == sd | (1u64 << m) | f && rl == sl & !f) || (own == sl && rl == sl
                | (1u64 << m) | f && rd == sd & !f),
    ;
    lemma_pop_subset(!(rd | rl), !(sd | sl));
}

/// The squares `t` steps from `m` in one direction, `t` from 1 to `k`, hold
/// opponent discs, step `k + 1` holds a disc of `own`, and all of them lie on
/// the board along the line from `m`.
pub open spec fn bracket_at(own: u64, opp: u64, m: int, dx: int, dy: int, k: int) -> bool {
    &&& 0 <= m % 8 + (k + 1) * dx < 8
    &&& 0 <= m / 8 + (k + 1) * dy < 8
    &&& forall|t: int| 1 <= t <= k ==> #[trigger] has_bit(opp, (m + t * (dx + 8 * dy)) as u64)
    &&& has_bit(own, (m + (k + 1) * (dx + 8 * dy)) as u64)
}

proof fn lemma_dilate_west(own: u64, opp: u64, m: u64)
    requires
        m < 64,
    ensures
        has_bit(dilate_up(own, opp & HORIZONTAL_MASK, 1), m) <==> ((has_bit(opp, (m - 1) as u64) && has_bit(own, (m - 2) as u64) && m % 8 >= 2)
            || (has_bit(opp, (m - 1) as u64) && has_bit(opp, (m - 2) as u64) && has_bit(own, (m - 3) as u64) && m % 8 >= 3)
            || (has_bit(opp, (m - 1) as u64) && has_bit(opp, (m - 2) as u64) && has_bit(opp, (m - 3) as u64) && has_bit(own, (m - 4) as u64) && m % 8 >= 4)
            || (has_bit(opp, (m - 1) as u64) && has_bit(opp, (m - 2) as u64) && has_bit(opp, (m - 3) as u64) && has_bit(opp, (m - 4) as u64) && has_bit(own, (m - 5) as u64) && m % 8 >= 5)
            || (has_bit(opp, (m - 1) as u64) && has_bit(opp, (m - 2) as u64) && has_bit(opp, (m - 3) as u64) && has_bit(opp, (m - 4) as u64) && has_bit(opp, (m - 5) as u64) && has_bit(own, (m - 6) as u64) && m % 8 >= 6)
            || (has_bit(opp, (m - 1) as u64) && has_bit(opp, (m - 2) as u64) && has_bit(opp, (m - 3) as u64) && has_bit(opp, (m - 4) as u64) && has_bit(opp, (m - 5) as u64) && has_bit(opp, (m - 6) as u64) && has_bit(own, (m - 7) as u64) && m % 8 >= 7)),
{
    let w = opp & HORIZONTAL_MASK;
    assert(has_bit(dilate_up(own, w, 1), m) <==> ((has_bit(opp, (m - 1) as u64) && has_bit(own, (m - 2) as u64) && m % 8 >= 2)
            || (has_bit(opp, (m - 1) as u64) && has_bit(opp, (m - 2) as u64) && has_bit(own, (m - 3) as u64) && m % 8 >= 3)
            || (has_bit(opp, (m - 1) as u64) && has_bit(opp, (m - 2) as u64) && has_bit(opp, (m - 3) as u64) && has_bit(own, (m - 4) as u64) && m % 8 >= 4)
            || (has_bit(opp, (m - 1) as u64) && has_bit(opp, (m - 2) as u64) && has_bit(opp, (m - 3) as u64) && has_bit(opp, (m - 4) as u64) && has_bit(own, (m - 5) as u64) && m % 8 >= 5)
            || (has_bit(opp, (m - 1) as u64) && has_bit(opp, (m - 2) as u64) && has_bit(opp, (m - 3) as u64) && has_bit(opp, (m - 4) as u64) && has_bit(opp, (m - 5) as u64) && has_bit(own, (m - 6) as u64) && m % 8 >= 6)
            || (has_bit(opp, (m - 1) as u64) && has_bit(opp, (m - 2) as u64) && has_bit(opp, (m - 3) as u64) && has_bit(opp, (m - 4) as u64) && has_bit(opp, (m - 5) as u64) && has_bit(opp, (m - 6) as u64) && has_bit(own, (m - 7) as u64) && m % 8 >= 7))) by (bit_vector)
        requires
            m < 64,
            w == opp & HORIZONTAL_MASK,
    ;
}

proof fn lemma_dilate_east(own: u64, opp: u64, m: u64)
    requires
        m < 64,
    ensures
        has_bit(dilate_down(own, opp & HORIZONTAL_MASK, 1), m) <==> ((has_bit(opp, (m + 1) as u64) && has_bit(own, (m + 2) as u64) && m % 8 + 2 <= 7)
            || (has_bit(opp, (m + 1) as u64) && has_bit(opp, (m + 2) as u64) && has_bit(own, (m + 3) as u64) && m % 8 + 3 <= 7)
            || (has_bit(opp, (m + 1) as u64) && has_bit(opp, (m + 2) as u64) && has_bit(opp, (m + 3) as u64) && has_bit(own, (m + 4) as u64) && m % 8 + 4 <= 7)
            || (has_bit(opp, (m + 1) as u64) && has_bit(opp, (m + 2) as u64) && has_bit(opp, (m + 3) as u64) && has_bit(opp, (m + 4) as u64) && has_bit(own, (m + 5) as u64) && m % 8 + 5 <= 7)
            || (has_bit(opp, (m + 1) as u64) && has_bit(opp, (m + 2) as u64) && has_bit(opp, (m + 3) as u64) && has_bit(opp, (m + 4) as u64) && has_bit(opp, (m + 5) as u64) && has_bit(own, (m + 6) as u64) && m % 8 + 6 <= 7)
            || (has_bit(opp, (m + 1) as u64) && has_bit(opp, (m + 2) as u64) && has_bit(opp, (m + 3) as u64) && has_bit(opp, (m + 4) as u64) && has_bit(opp, (m + 5) as u64) && has_bit(opp, (m + 6) as u64) && has_bit(own, (m + 7) as u64) && m % 8 + 7 <= 7)),
{
    let w = opp & HORIZONTAL_MASK;
    assert(has_bit(dilate_down(own, w, 1), m) <==> ((has_bit(opp, (m + 1) as u64) && has_bit(own, (m + 2) as u64) && m % 8 + 2 <= 7)
            || (has_bit(opp, (m + 1) as u64) && has_bit(opp, (m + 2) as u64) && has_bit(own, (m + 3) as u64) && m % 8 + 3 <= 7)
            || (has_bit(opp, (m + 1) as u64) && has_bit(opp, (m + 2) as u64) && has_bit(opp, (m + 3) as u64) && has_bit(own, (m + 4) as u64) && m % 8 + 4 <= 7)
            || (has_bit(opp, (m + 1) as u64) && has_bit(opp, (m + 2) as u64) && has_bit(opp, (m + 3) as u64) && has_bit(opp, (m + 4) as u64) && has_bit(own, (m + 5) as u64) && m % 8 + 5 <= 7)
            || (has_bit(opp, (m + 1) as u64) && has_bit(opp, (m + 2) as u64) && has_bit(opp, (m + 3) as u64) && has_bit(opp, (m + 4) as u64) && has_bit(opp, (m + 5) as u64) && has_bit(own, (m + 6) as u64) && m % 8 + 6 <= 7)
            || (has_bit(opp, (m + 1) as u64) && has_bit(opp, (m + 2) as u64) && has_bit(opp, (m + 3) as u64) && has_bit(opp, (m + 4) as u64) && has_bit(opp, (m + 5) as u64) && has_bit(opp, (m + 6) as u64) && has_bit(own, (m + 7) as u64) && m % 8 + 7 <= 7))) by (bit_vector)
        requires
            m < 64,
            w == opp & HORIZONTAL_MASK,
    ;
}

proof fn lemma_dilate_south(own: u64, opp: u64, m: u64)
    requires
        m < 64,
    ensures
        has_bit(dilate_up(own, opp & VERTICAL_MASK, 8), m) <==> ((has_bit(opp, (m - 8) as u64) && has_bit(own, (m - 16) as u64) && m / 8 >= 2)
            || (has_bit(opp, (m - 8) as u64) && has_bit(opp, (m - 16) as u64) && has_bit(own, (m - 24) as u64) && m / 8 >= 3)
            || (has_bit(opp, (m - 8) as u64) && has_bit(opp, (m - 16) as u64) && has_bit(opp, (m - 24) as u64) && has_bit(own, (m - 32) as u64) && m / 8 >= 4)
            || (has_bit(opp, (m - 8) as u64) && has_bit(opp, (m - 16) as u64) && has_bit(opp, (m - 24) as u64) && has_bit(opp, (m - 32) as u64) && has_bit(own, (m - 40) as u64) && m / 8 >= 5)
            || (has_bit(opp, (m - 8) as u64) && has_bit(opp, (m - 16) as u64) && has_bit(opp, (m - 24) as u64) && has_bit(opp, (m - 32) as u64) && has_bit(opp, (m - 40) as u64) && has_bit(own, (m - 48) as u64) && m / 8 >= 6)
            || (has_bit(opp, (m - 8) as u64) && has_bit(opp, (m - 16) as u64) && has_bit(opp, (m - 24) as u64) && has_bit(opp, (m - 32) as u64) && has_bit(opp, (m - 40) as u64) && has_bit(opp, (m - 48) as u64) && has_bit(own, (m - 56) as u64) && m / 8 >= 7)),
{
    let w = opp & VERTICAL_MASK;
    assert(has_bit(dilate_up(own, w, 8), m) <==> ((has_bit(opp, (m - 8) as u64) && has_bit(own, (m - 16) as u64) && m / 8 >= 2)
            || (has_bit(opp, (m - 8) as u64) && has_bit(opp, (m - 16) as u64) && has_bit(own, (m - 24) as u64) && m / 8 >= 3)
            || (has_bit(opp, (m - 8) as u64) && has_bit(opp, (m - 16) as u64) && has_bit(opp, (m - 24) as u64) && has_bit(own, (m - 32) as u64) && m / 8 >= 4)
            || (has_bit(opp, (m - 8) as u64) && has_bit(opp, (m - 16) as u64) && has_bit(opp, (m - 24) as u64) && has_bit(opp, (m - 32) as u64) && has_bit(own, (m - 40) as u64) && m / 8 >= 5)
            || (has_bit(opp, (m - 8) as u64) && has_bit(opp, (m - 16) as u64) && has_bit(opp, (m - 24) as u64) && has_bit(opp, (m - 32) as u64) && has_bit(opp, (m - 40) as u64) && has_bit(own, (m - 48) as u64) && m / 8 >= 6)
            || (has_bit(opp, (m - 8) as u64) && has_bit(opp, (m - 16) as u64) && has_bit(opp, (m - 24) as u64) && has_bit(opp, (m - 32) as u64) && has_bit(opp, (m - 40) as u64) && has_bit(opp, (m - 48) as u64) && has_bit(own, (m - 56) as u64) && m / 8 >= 7))) by (bit_vector)
        requires
            m < 64,
            w == opp & VERTICAL_MASK,
    ;
}

proof fn lemma_dilate_north(own: u64, opp: u64, m: u64)
    requires
        m < 64,
    ensures
        has_bit(dilate_down(own, opp & VERTICAL_MASK, 8), m) <==> ((has_bit(opp, (m + 8) as u64) && has_bit(own, (m + 16) as u64) && m / 8 + 2 <= 7)
            || (has_bit(opp, (m + 8) as u64) && has_bit(opp, (m + 16) as u64) && has_bit(own, (m + 24) as u64) && m / 8 + 3 <= 7)
            || (has_bit(opp, (m + 8) as u64) && has_bit(opp, (m + 16) as u64) && has_bit(opp, (m + 24) as u64) && has_bit(own, (m + 32) as u64) && m / 8 + 4 <= 7)
            || (has_bit(opp, (m + 8) as u64) && has_bit(opp, (m + 16) as u64) && has_bit(opp, (m + 24) as u64) && has_bit(opp, (m + 32) as u64) && has_bit(own, (m + 40) as u64) && m / 8 + 5 <= 7)
            || (has_bit(opp, (m + 8) as u64) && has_bit(opp, (m + 16) as u64) && has_bit(opp, (m + 24) as u64) && has_bit(opp, (m + 32) as u64) && has_bit(opp, (m + 40) as u64) && has_bit(own, (m + 48) as u64) && m / 8 + 6 <= 7)
            || (has_bit(opp, (m + 8) as u64) && has_bit(opp, (m + 16) as u64) && has_bit(opp, (m + 24) as u64) && has_bit(opp, (m + 32) as u64) && has_bit(opp, (m + 40) as u64) && has_bit(opp, (m + 48) as u64) && has_bit(own, (m + 56) as u64) && m / 8 + 7 <= 7)),
{
    let w = opp & VERTICAL_MASK;
    assert(has_bit(dilate_down(own, w, 8), m) <==> ((has_bit(opp, (m + 8) as u64) && has_bit(own, (m + 16) as u64) && m / 8 + 2 <= 7)
            || (has_bit(opp, (m + 8) as u64) && has_bit(opp, (m + 16) as u64) && has_bit(own, (m + 24) as u64) && m / 8 + 3 <= 7)
            || (has_bit(opp, (m + 8) as u64) && has_bit(opp, (m + 16) as u64) && has_bit(opp, (m + 24) as u64) && has_bit(own, (m + 32) as u64) && m / 8 + 4 <= 7)
            || (has_bit(opp, (m + 8) as u64) && has_bit(opp, (m + 16) as u64) && has_bit(opp, (m + 24) as u64) && has_bit(opp, (m + 32) as u64) && has_bit(own, (m + 40) as u64) && m / 8 + 5 <= 7)
            || (has_bit(opp, (m + 8) as u64) && has_bit(opp, (m + 16) as u64) && has_bit(opp, (m + 24) as u64) && has_bit(opp, (m + 32) as u64) && has_bit(opp, (m + 40) as u64) && has_bit(own, (m + 48) as u64) && m / 8 + 6 <= 7)
            || (has_bit(opp, (m + 8) as u64) && has_bit(opp, (m + 16) as u64) && has_bit(opp, (m + 24) as u64) && has_bit(opp, (m + 32) as u64) && has_bit(opp, (m + 40) as u64) && has_bit(opp, (m + 48) as u64) && has_bit(own, (m + 56) as u64) && m / 8 + 7 <= 7))) by (bit_vector)
        requires
            m < 64,
            w == opp & VERTICAL_MASK,
    ;
}

proof fn lemma_dilate_south_west(own: u64, opp: u64, m: u64)
    requires
        m < 64,
    ensures
        has_bit(dilate_up(own, opp & DIAGONAL_MASK, 9), m) <==> ((has_bit(opp, (m - 9) as u64) && has_bit(own, (m - 18) as u64) && m % 8 >= 2 && m / 8 >= 2)
            || (has_bit(opp, (m - 9) as u64) && has_bit(opp, (m - 18) as u64) && has_bit(own, (m - 27) as u64) && m % 8 >= 3 && m / 8 >= 3)
            || (has_bit(opp, (m - 9) as u64) && has_bit(opp, (m - 18) as u64) && has_bit(opp, (m - 27) as u64) && has_bit(own, (m - 36) as u64) && m % 8 >= 4 && m / 8 >= 4)
            || (has_bit(opp, (m - 9) as u64) && has_bit(opp, (m - 18) as u64) && has_bit(opp, (m - 27) as u64) && has_bit(opp, (m - 36) as u64) && has_bit(own, (m - 45) as u64) && m % 8 >= 5 && m / 8 >= 5)
            || (has_bit(opp, (m - 9) as u64) && has_bit(opp, (m - 18) as u64) && has_bit(opp, (m - 27) as u64) && has_bit(opp, (m - 36) as u64) && has_bit(opp, (m - 45) as u64) && has_bit(own, (m - 54) as u64) && m % 8 >= 6 && m / 8 >= 6)
            || (has_bit(opp, (m - 9) as u64) && has_bit(opp, (m - 18) as u64) && has_bit(opp, (m - 27) as u64) && has_bit(opp, (m - 36) as u64) && has_bit(opp, (m - 45) as u64) && has_bit(opp, (m - 54) as u64) && has_bit(own, (m - 63) as u64) && m % 8 >= 7 && m / 8 >= 7)),
{
    let w = opp & DIAGONAL_MASK;
    assert(has_bit(dilate_up(own, w, 9), m) <==> ((has_bit(opp, (m - 9) as u64) && has_bit(own, (m - 18) as u64) && m % 8 >= 2 && m / 8 >= 2)
            || (has_bit(opp, (m - 9) as u64) && has_bit(opp, (m - 18) as u64) && has_bit(own, (m - 27) as u64) && m % 8 >= 3 && m / 8 >= 3)
            || (has_bit(opp, (m - 9) as u64) && has_bit(opp, (m - 18) as u64) && has_bit(opp, (m - 27) as u64) && has_bit(own, (m - 36) as u64) && m % 8 >= 4 && m / 8 >= 4)
            || (has_bit(opp, (m - 9) as u64) && has_bit(opp, (m - 18) as u64) && has_bit(opp, (m - 27) as u64) && has_bit(opp, (m - 36) as u64) && has_bit(own, (m - 45) as u64) && m % 8 >= 5 && m / 8 >= 5)
            || (has_bit(opp, (m - 9) as u64) && has_bit(opp, (m - 18) as u64) && has_bit(opp, (m - 27) as u64) && has_bit(opp, (m - 36) as u64) && has_bit(opp, (m - 45) as u64) && has_bit(own, (m - 54) as u64) && m % 8 >= 6 && m / 8 >= 6)
            || (has_bit(opp, (m - 9) as u64) && has_bit(opp, (m - 18) as u64) && has_bit(opp, (m - 27) as u64) && has_bit(opp, (m - 36) as u64) && has_bit(opp, (m - 45) as u64) && has_bit(opp, (m - 54) as u64) && has_bit(own, (m - 63) as u64) && m % 8 >= 7 && m / 8 >= 7))) by (bit_vector)
        requires
            m < 64,
            w == opp & DIAGONAL_MASK,
    ;
}

proof fn lemma_dilate_south_east(own: u64, opp: u64, m: u64)
    requires
        m < 64,
    ensures
        has_bit(dilate_up(own, opp & DIAGONAL_MASK, 7), m) <==> ((has_bit(opp, (m - 7) as u64) && has_bit(own, (m - 14) as u64) && m % 8 + 2 <= 7 && m / 8 >= 2)
            || (has_bit(opp, (m - 7) as u64) && has_bit(opp, (m - 14) as u64) && has_bit(own, (m - 21) as u64) && m % 8 + 3 <= 7 && m / 8 >= 3)
            || (has_bit(opp, (m - 7) as u64) && has_bit(opp, (m - 14) as u64) && has_bit(opp, (m - 21) as u64) && has_bit(own, (m - 28) as u64) && m % 8 + 4 <= 7 && m / 8 >= 4)
            || (has_bit(opp, (m - 7) as u64) && has_bit(opp, (m - 14) as u64) && has_bit(opp, (m - 21) as u64) && has_bit(opp, (m - 28) as u64) && has_bit(own, (m - 35) as u64) && m % 8 + 5 <= 7 && m / 8 >= 5)
            || (has_bit(opp, (m - 7) as u64) && has_bit(opp, (m - 14) as u64) && has_bit(opp, (m - 21) as u64) && has_bit(opp, (m - 28) as u64) && has_bit(opp, (m - 35) as u64) && has_bit(own, (m - 42) as u64) && m % 8 + 6 <= 7 && m / 8 >= 6)
            || (has_bit(opp, (m - 7) as u64) && has_bit(opp, (m - 14) as u64) && has_bit(opp, (m - 21) as u64) && has_bit(opp, (m - 28) as u64) && has_bit(opp, (m - 35) as u64) && has_bit(opp, (m - 42) as u64) && has_bit(own, (m - 49) as u64) && m % 8 + 7 <= 7 && m / 8 >= 7)),
{
    let w = opp & DIAGONAL_MASK;
    assert(has_bit(dilate_up(own, w, 7), m) <==> ((has_bit(opp, (m - 7) as u64) && has_bit(own, (m - 14) as u64) && m % 8 + 2 <= 7 && m / 8 >= 2)
            || (has_bit(opp, (m - 7) as u64) && has_bit(opp, (m - 14) as u64) && has_bit(own, (m - 21) as u64) && m % 8 + 3 <= 7 && m / 8 >= 3)
            || (has_bit(opp, (m - 7) as u64) && has_bit(opp, (m - 14) as u64) && has_bit(opp, (m - 21) as u64) && has_bit(own, (m - 28) as u64) && m % 8 + 4 <= 7 && m / 8 >= 4)
            || (has_bit(opp, (m - 7) as u64) && has_bit(opp, (m - 14) as u64) && has_bit(opp, (m - 21) as u64) && has_bit(opp, (m - 28) as u64) && has_bit(own, (m - 35) as u64) && m % 8 + 5 <= 7 && m / 8 >= 5)
            || (has_bit(opp, (m - 7) as u64) && has_bit(opp, (m - 14) as u64) && has_bit(opp, (m - 21) as u64) && has_bit(opp, (m - 28) as u64) && has_bit(opp, (m - 35) as u64) && has_bit(own, (m - 42) as u64) && m % 8 + 6 <= 7 && m / 8 >= 6)
            || (has_bit(opp, (m - 7) as u64) && has_bit(opp, (m - 14) as u64) && has_bit(opp, (m - 21) as u64) && has_bit(opp, (m - 28) as u64) && has_bit(opp, (m - 35) as u64) && has_bit(opp, (m - 42) as u64) && has_bit(own, (m - 49) as u64) && m % 8 + 7 <= 7 && m / 8 >= 7))) by (bit_vector)
        requires
            m < 64,
            w == opp & DIAGONAL_MASK,
    ;
}

proof fn lemma_dilate_north_west(own: u64, opp: u64, m: u64)
    requires
        m < 64,
    ensures
        has_bit(dilate_down(own, opp & DIAGONAL_MASK, 7), m) <==> ((has_bit(opp, (m + 7) as u64) && has_bit(own, (m + 14) as u64) && m % 8 >= 2 && m / 8 + 2 <= 7)
            || (has_bit(opp, (m + 7) as u64) && has_bit(opp, (m + 14) as u64) && has_bit(own, (m + 21) as u64) && m % 8 >= 3 && m / 8 + 3 <= 7)
            || (has_bit(opp, (m + 7) as u64) && has_bit(opp, (m + 14) as u64) && has_bit(opp, (m + 21) as u64) && has_bit(own, (m + 28) as u64) && m % 8 >= 4 && m / 8 + 4 <= 7)
            || (has_bit(opp, (m + 7) as u64) && has_bit(opp, (m + 14) as u64) && has_bit(opp, (m + 21) as u64) && has_bit(opp, (m + 28) as u64) && has_bit(own, (m + 35) as u64) && m % 8 >= 5 && m / 8 + 5 <= 7)
            || (has_bit(opp, (m + 7) as u64) && has_bit(opp, (m + 14) as u64) && has_bit(opp, (m + 21) as u64) && has_bit(opp, (m + 28) as u64) && has_bit(opp, (m + 35) as u64) && has_bit(own, (m + 42) as u64) && m % 8 >= 6 && m / 8 + 6 <= 7)
            || (has_bit(opp, (m + 7) as u64) && has_bit(opp, (m + 14) as u64) && has_bit(opp, (m + 21) as u64) && has_bit(opp, (m + 28) as u64) && has_bit(opp, (m + 35) as u64) && has_bit(opp, (m + 42) as u64) && has_bit(own, (m + 49) as u64) && m % 8 >= 7 && m / 8 + 7 <= 7)),
{
    let w = opp & DIAGONAL_MASK;
    assert(has_bit(dilate_down(own, w, 7), m) <==> ((has_bit(opp, (m + 7) as u64) && has_bit(own, (m + 14) as u64) && m % 8 >= 2 && m / 8 + 2 <= 7)
            || (has_bit(opp, (m + 7) as u64) && has_bit(opp, (m + 14) as u64) && has_bit(own, (m + 21) as u64) && m % 8 >= 3 && m / 8 + 3 <= 7)
            || (has_bit(opp, (m + 7) as u64) && has_bit(opp, (m + 14) as u64) && has_bit(opp, (m + 21) as u64) && has_bit(own, (m + 28) as u64) && m % 8 >= 4 && m / 8 + 4 <= 7)
            || (has_bit(opp, (m + 7) as u64) && has_bit(opp, (m + 14) as u64) && has_bit(opp, (m + 21) as u64) && has_bit(opp, (m + 28) as u64) && has_bit(own, (m + 35) as u64) && m % 8 >= 5 && m / 8 + 5 <= 7)
            || (has_bit(opp, (m + 7) as u64) && has_bit(opp, (m + 14) as u64) && has_bit(opp, (m + 21) as u64) && has_bit(opp, (m + 28) as u64) && has_bit(opp, (m + 35) as u64) && has_bit(own, (m + 42) as u64) && m % 8 >= 6 && m / 8 + 6 <= 7)
            || (has_bit(opp, (m + 7) as u64) && has_bit(opp, (m + 14) as u64) && has_bit(opp, (m + 21) as u64) && has_bit(opp, (m + 28) as u64) && has_bit(opp, (m + 35) as u64) && has_bit(opp, (m + 42) as u64) && has_bit(own, (m + 49) as u64) && m % 8 >= 7 && m / 8 + 7 <= 7))) by (bit_vector)
        requires
            m < 64,
            w == opp & DIAGONAL_MASK,
    ;
}

proof fn lemma_dilate_north_east(own: u64, opp: u64, m: u64)
    requires
        m < 64,
    ensures
        has_bit(dilate_down(own, opp & DIAGONAL_MASK, 9), m) <==> ((has_bit(opp, (m + 9) as u64) && has_bit(own, (m + 18) as u64) && m % 8 + 2 <= 7 && m / 8 + 2 <= 7)
            || (has_bit(opp, (m + 9) as u64) && has_bit(opp, (m + 18) as u64) && has_bit(own, (m + 27) as u64) && m % 8 + 3 <= 7 && m / 8 + 3 <= 7)
            || (has_bit(opp, (m + 9) as u64) && has_bit(opp, (m + 18) as u64) && has_bit(opp, (m + 27) as u64) && has_bit(own, (m + 36) as u64) && m % 8 + 4 <= 7 && m / 8 + 4 <= 7)
            || (has_bit(opp, (m + 9) as u64) && has_bit(opp, (m + 18) as u64) && has_bit(opp, (m + 27) as u64) && has_bit(opp, (m + 36) as u64) && has_bit(own, (m + 45) as u64) && m % 8 + 5 <= 7 && m / 8 + 5 <= 7)
            || (has_bit(opp, (m + 9) as u64) && has_bit(opp, (m + 18) as u64) && has_bit(opp, (m + 27) as u64) && has_bit(opp, (m + 36) as u64) && has_bit(opp, (m + 45) as u64) && has_bit(own, (m + 54) as u64) && m % 8 + 6 <= 7 && m / 8 + 6 <= 7)
            || (has_bit(opp, (m + 9) as u64) && has_bit(opp, (m + 18) as u64) && has_bit(opp, (m + 27) as u64) && has_bit(opp, (m + 36) as u64) && has_bit(opp, (m + 45) as u64) && has_bit(opp, (m + 54) as u64) && has_bit(own, (m + 63) as u64) && m % 8 + 7 <= 7 && m / 8 + 7 <= 7)),
{
    let w = opp & DIAGONAL_MASK;
    assert(has_bit(dilate_down(own, w, 9), m) <==> ((has_bit(opp, (m + 9) as u64) && has_bit(own, (m + 18) as u64) && m % 8 + 2 <= 7 && m / 8 + 2 <= 7)
            || (has_bit(opp, (m + 9) as u64) && has_bit(opp, (m + 18) as u64) && has_bit(own, (m + 27) as u64) && m % 8 + 3 <= 7 && m / 8 + 3 <= 7)
            || (has_bit(opp, (m + 9) as u64) && has_bit(opp, (m + 18) as u64) && has_bit(opp, (m + 27) as u64) && has_bit(own, (m + 36) as u64) && m % 8 + 4 <= 7 && m / 8 + 4 <= 7)
            || (has_bit(opp, (m + 9) as u64) && has_bit(opp, (m + 18) as u64) && has_bit(opp, (m + 27) as u64) && has_bit(opp, (m + 36) as u64) && has_bit(own, (m + 45) as u64) && m % 8 + 5 <= 7 && m / 8 + 5 <= 7)
            || (has_bit(opp, (m + 9) as u64) && has_bit(opp, (m + 18) as u64) && has_bit(opp, (m + 27) as u64) && has_bit(opp, (m + 36) as u64) && has_bit(opp, (m + 45) as u64) && has_bit(own, (m + 54) as u64) && m % 8 + 6 <= 7 && m / 8 + 6 <= 7)
            || (has_bit(opp, (m + 9) as u64) && has_bit(opp, (m + 18) as u64) && has_bit(opp, (m + 27) as u64) && has_bit(opp, (m + 36) as u64) && has_bit(opp, (m + 45) as u64) && has_bit(opp, (m + 54) as u64) && has_bit(own, (m + 63) as u64) && m % 8 + 7 <= 7 && m / 8 + 7 <= 7))) by (bit_vector)
        requires
            m < 64,
            w == opp & DIAGONAL_MASK,
    ;
}

proof fn lemma_bracket_west(own: u64, opp: u64, m: u64)
    requires
        m < 64,
        has_bit(dilate_up(own, opp & HORIZONTAL_MASK, 1), m),
    ensures
        exists|k: int| 1 <= k <= 6 && #[trigger] bracket_at(own, opp, m as int, -1, 0, k),
{
    lemma_dilate_west(own, opp, m);
    assert(0 <= m as int % 8 < 8 && 0 <= m as int / 8 < 8);
    if bracket_at(own, opp, m as int, -1, 0, 1) {
    } else if bracket_at(own, opp, m as int, -1, 0, 2) {
    } else if bracket_at(own, opp, m as int, -1, 0, 3) {
    } else if bracket_at(own, opp, m as int, -1, 0, 4) {
    } else if bracket_at(own, opp, m as int, -1, 0, 5) {
    } else {
        assert(bracket_at(own, opp, m as int, -1, 0, 6));
    }
}

proof fn lemma_bracket_east(own: u64, opp: u64, m: u64)
    requires
        m < 64,
        has_bit(dilate_down(own, opp & HORIZONTAL_MASK, 1), m),
    ensures
        exists|k: int| 1 <= k <= 6 && #[trigger] bracket_at(own, opp, m as int, 1, 0, k),
{
    lemma_dilate_east(own, opp, m);
    assert(0 <= m as int % 8 < 8 && 0 <= m as int / 8 < 8);
    if bracket_at(own, opp, m as int, 1, 0, 1) {
    } else if bracket_at(own, opp, m as int, 1, 0, 2) {
    } else if bracket_at(own, opp, m as int, 1, 0, 3) {
    } else if bracket_at(own, opp, m as int, 1, 0, 4) {
    } else if bracket_at(own, opp, m as int, 1, 0, 5) {
    } else {
        assert(bracket_at(own, opp, m as int, 1, 0, 6));
    }
}

proof fn lemma_bracket_south(own: u64, opp: u64, m: u64)
    requires
        m < 64,
        has_bit(dilate_up(own, opp & VERTICAL_MASK, 8), m),
    ensures
        exists|k: int| 1 <= k <= 6 && #[trigger] bracket_at(own, opp, m as int, 0, -1, k),
{
    lemma_dilate_south(own, opp, m);
    assert(0 <= m as int % 8 < 8 && 0 <= m as int / 8 < 8);
    if bracket_at(own, opp, m as int, 0, -1, 1) {
    } else if bracket_at(own, opp, m as int, 0, -1, 2) {
    } else if bracket_at(own, opp, m as int, 0, -1, 3) {
    } else if bracket_at(own, opp, m as int, 0, -1, 4) {
    } else if bracket_at(own, opp, m as int, 0, -1, 5) {
    } else {
        assert(bracket_at(own, opp, m as int, 0, -1, 6));
    }
}

proof fn lemma_bracket_north(own: u64, opp: u64, m: u64)
    requires
        m < 64,
        has_bit(dilate_down(own, opp & VERTICAL_MASK, 8), m),
    ensures
        exists|k: int| 1 <= k <= 6 && #[trigger] bracket_at(own, opp, m as int, 0, 1, k),
{
    lemma_dilate_north(own, opp, m);
    assert(0 <= m as int % 8 < 8 && 0 <= m as int / 8 < 8);
    if bracket_at(own, opp, m as int, 0, 1, 1) {
    } else if bracket_at(own, opp, m as int, 0, 1, 2) {
    } else if bracket_at(own, opp, m as int, 0, 1, 3) {
    } else if bracket_at(own, opp, m as int, 0, 1, 4) {
    } else if bracket_at(own, opp, m as int, 0, 1, 5) {
    } else {
        assert(bracket_at(own, opp, m as int, 0, 1, 6));
    }
}

proof fn lemma_bracket_south_west(own: u64, opp: u64, m: u64)
    requires
        m < 64,
        has_bit(dilate_up(own, opp & DIAGONAL_MASK, 9), m),
    ensures
        exists|k: int| 1 <= k <= 6 && #[trigger] bracket_at(own, opp, m as int, -1, -1, k),
{
    lemma_dilate_south_west(own, opp, m);
    assert(0 <= m as int % 8 < 8 && 0 <= m as int / 8 < 8);
    if bracket_at(own, opp, m as int, -1, -1, 1) {
    } else if bracket_at(own, opp, m as int, -1, -1, 2) {
    } else if bracket_at(own, opp, m as int, -1, -1, 3) {
    } else if bracket_at(own, opp, m as int, -1, -1, 4) {
    } else if bracket_at(own, opp, m as int, -1, -1, 5) {
    } else {
        assert(bracket_at(own, opp, m as int, -1, -1, 6));
    }
}

proof fn lemma_bracket_south_east(own: u64, opp: u64, m: u64)
    requires
        m < 64,
        has_bit(dilate_up(own, opp & DIAGONAL_MASK, 7), m),
    ensures
        exists|k: int| 1 <= k <= 6 && #[trigger] bracket_at(own, opp, m as int, 1, -1, k),
{
    lemma_dilate_south_east(own, opp, m);
    assert(0 <= m as int % 8 < 8 && 0 <= m as int / 8 < 8);
    if bracket_at(own, opp, m as int, 1, -1, 1) {
    } else if bracket_at(own, opp, m as int, 1, -1, 2) {
    } else if bracket_at(own, opp, m as int, 1, -1, 3) {
    } else if bracket_at(own, opp, m as int, 1, -1, 4) {
    } else if bracket_at(own, opp, m as int, 1, -1, 5) {
    } else {
        assert(bracket_at(own, opp, m as int, 1, -1, 6));
    }
}

proof fn lemma_bracket_north_west(own: u64, opp: u64, m: u64)
    requires
        m < 64,
        has_bit(dilate_down(own, opp & DIAGONAL_MASK, 7), m),
    ensures
        exists|k: int| 1 <= k <= 6 && #[trigger] bracket_at(own, opp, m as int, -1, 1, k),
{
    lemma_dilate_north_west(own, opp, m);
    assert(0 <= m as int % 8 < 8 && 0 <= m as int / 8 < 8);
    if bracket_at(own, opp, m as int, -1, 1, 1) {
    } else if bracket_at(own, opp, m as int, -1, 1, 2) {
    } else if bracket_at(own, opp, m as int, -1, 1, 3) {
    } else if bracket_at(own, opp, m as int, -1, 1, 4) {
    } else if bracket_at(own, opp, m as int, -1, 1, 5) {
    } else {
        assert(bracket_at(own, opp, m as int, -1, 1, 6));
    }
}

proof fn lemma_bracket_north_east(own: u64, opp: u64, m: u64)
    requires
        m < 64,
        has_bit(dilate_down(own, opp & DIAGONAL_MASK, 9), m),
    ensures
        exists|k: int| 1 <= k <= 6 && #[trigger] bracket_at(own, opp, m as int, 1, 1, k),
{
    lemma_dilate_north_east(own, opp, m);
    assert(0 <= m as int % 8 < 8 && 0 <= m as int / 8 < 8);
    if bracket_at(own, opp, m as int, 1, 1, 1) {
    } else if bracket_at(own, opp, m as int, 1, 1, 2) {
    } else if bracket_at(own, opp, m as int, 1, 1, 3) {
    } else if bracket_at(own, opp, m as int, 1, 1, 4) {
    } else if bracket_at(own, opp, m as int, 1, 1, 5) {
    } else {
        assert(bracket_at(own, opp, m as int, 1, 1, 6));
    }
}

/// Every empty square from which a ray runs over one to six opponent discs
/// up to a disc of the side to move is a legal move: with
/// [`lemma_legal_move_flips`], the legal moves are exactly the empty squares
/// that bracket a run.
pub proof fn lemma_bracket_is_legal(b: Board, c: Color, m: u64, dx: int, dy: int, k: int)
    requires
        b.wf(),
        m < 64,
        !has_bit(b.dark | b.light, m),
        -1 <= dx <= 1,
        -1 <= dy <= 1,
        dx != 0 || dy != 0,
        1 <= k <= 6,
        bracket_at(b.discs(c), b.discs(c.opp()), m as int, dx, dy, k),
    ensures
        has_bit(b.legal(c), m),
{
    let own = b.discs(c);
    let opp = b.discs(c.opp());
    let step = dx + 8 * dy;
    assert(has_bit(opp, (m + 1 * step) as u64));
    if k >= 2 {
        assert(has_bit(opp, (m + 2 * step) as u64));
    }
    if k >= 3 {
        assert(has_bit(opp, (m + 3 * step) as u64));
    }
    if k >= 4 {
        assert(has_bit(opp, (m + 4 * step) as u64));
    }
    if k >= 5 {
        assert(has_bit(opp, (m + 5 * step) as u64));
    }
    if k >= 6 {
        assert(has_bit(opp, (m + 6 * step) as u64));
    }
    if k == 1 {
        assert(has_bit(own, (m + 2 * step) as u64));
        assert(0 <= m as int % 8 + 2 * dx < 8 && 0 <= m as int / 8 + 2 * dy < 8);
    }
    if k == 2 {
        assert(has_bit(own, (m + 3 * step) as u64));
        assert(0 <= m as int % 8 + 3 * dx < 8 && 0 <= m as int / 8 + 3 * dy < 8);
    }
    if k == 3 {
        assert(has_bit(own, (m + 4 * step) as u64));
        assert(0 <= m as int % 8 + 4 * dx < 8 && 0 <= m as int / 8 + 4 * dy < 8);
    }
    if k == 4 {
        assert(has_bit(own, (m + 5 * step) as u64));
        assert(0 <= m as int % 8 + 5 * dx < 8 && 0 <= m as int / 8 + 5 * dy < 8);
    }
    if k == 5 {
        assert(has_bit(own, (m + 6 * step) as u64));
        assert(0 <= m as int % 8 + 6 * dx < 8 && 0 <= m as int / 8 + 6 * dy < 8);
    }
    if k == 6 {
        assert(has_bit(own, (m + 7 * step) as u64));
        assert(0 <= m as int % 8 + 7 * dx < 8 && 0 <= m as int / 8 + 7 * dy < 8);
    }
    if dx == -1 && dy == 0 {
        lemma_dilate_west(own, opp, m);
        assert(has_bit(dilate_up(own, opp & HORIZONTAL_MASK, 1), m));
    } else if dx == 1 && dy == 0 {
        lemma_dilate_east(own, opp, m);
        assert(has_bit(dilate_down(own, opp & HORIZONTAL_MASK, 1), m));
    } else if dx == 0 && dy == -1 {
        lemma_dilate_south(own, opp, m);
        assert(has_bit(dilate_up(own, opp & VERTICAL_MASK, 8), m));
    } else if dx == 0 && dy == 1 {
        lemma_dilate_north(own, opp, m);
        assert(has_bit(dilate_down(own, opp & VERTICAL_MASK, 8), m));
    } else if dx == -1 && dy == -1 {
        lemma_dilate_south_west(own, opp, m);
        assert(has_bit(dilate_up(own, opp & DIAGONAL_MASK, 9), m));
    } else if dx == 1 && dy == -1 {
        lemma_dilate_south_east(own, opp, m);
        assert(has_bit(dilate_up(own, opp & DIAGONAL_MASK, 7), m));
    } else if dx == -1 && dy == 1 {
        lemma_dilate_north_west(own, opp, m);
        assert(has_bit(dilate_down(own, opp & DIAGONAL_MASK, 7), m));
    } else if dx == 1 && dy == 1 {
        lemma_dilate_north_east(own, opp, m);
        assert(has_bit(dilate_down(own, opp & DIAGONAL_MASK, 9), m));
    }
    let h = opp & HORIZONTAL_MASK;
    let v = opp & VERTICAL_MASK;
    let dg = opp & DIAGONAL_MASK;
    let a1 = dilate_up(own, h, 1);
    let a2 = dilate_down(own, h, 1);
    let a3 = dilate_up(own, v, 8);
    let a4 = dilate_down(own, v, 8);
    let a5 = dilate_up(own, dg, 9);
    let a6 = dilate_up(own, dg, 7);
    let a7 = dilate_down(own, dg, 7);
    let a8 = dilate_down(own, dg, 9);
    let x = b.legal(c);
    let (d, l) = (b.dark, b.light);
    assert(x == !(own | opp) & (a1 | a2 | a3 | a4 | a5 | a6 | a7 | a8));
    assert(has_bit(x, m)) by (bit_vector)
        requires
            x == !(own | opp) & (a1 | a2 | a3 | a4 | a5 | a6 | a7 | a8),
            has_bit(a1, m) || has_bit(a2, m) || has_bit(a3, m) || has_bit(a4, m) || has_bit(a5, m)
                || has_bit(a6, m) || has_bit(a7, m) || has_bit(a8, m),
            !has_bit(d | l, m),
            (own == d && opp == l) || (own == l && opp == d),
    ;
}

/// Walking a bracketed run from step `t` on finds the run, and holds step
/// `t` when it lies inside it.
proof fn lemma_scan_bracket(own: u64, opp: u64, m: int, dx: int, dy: int, k: int, t: int, fuel: nat)
    requires
        own & opp == 0,
        0 <= m < 64,
        -1 <= dx <= 1,
        -1 <= dy <= 1,
        1 <= k <= 6,
        1 <= t <= k + 1,
        fuel >= k + 2 - t,
        bracket_at(own, opp, m, dx, dy, k),
    ensures
        scan(own, opp, m % 8 + t * dx, m / 8 + t * dy, dx, dy, fuel) matches Some(r) && (t <= k
            ==> has_bit(r, (m + t * (dx + 8 * dy)) as u64)),
    decreases k + 1 - t,
{
    let x = m % 8 + t * dx;
    let y = m / 8 + t * dy;
    let i = (m + t * (dx + 8 * dy)) as u64;
    assert(0 <= x < 8 && 0 <= y < 8) by (nonlinear_arith)
        requires
            0 <= m % 8 < 8,
            0 <= m / 8 < 8,
            0 <= m % 8 + (k + 1) * dx < 8,
            0 <= m / 8 + (k + 1) * dy < 8,
            1 <= t <= k + 1,
            -1 <= dx <= 1,
            -1 <= dy <= 1,
            x == m % 8 + t * dx,
            y == m / 8 + t * dy,
    ;
    assert(x + 8 * y == m + t * (dx + 8 * dy)) by (nonlinear_arith)
        requires
            x == m % 8 + t * dx,
            y == m / 8 + t * dy,
            m == m % 8 + 8 * (m / 8),
    ;
    assert(x + dx == m % 8 + (t + 1) * dx && y + dy == m / 8 + (t + 1) * dy) by (nonlinear_arith)
        requires
            x == m % 8 + t * dx,
            y == m / 8 + t * dy,
    ;
    if t == k + 1 {
    } else {
        assert(has_bit(opp, i));
        assert(!has_bit(own, i)) by (bit_vector)
            requires
                own & opp == 0,
                has_bit(opp, i),
        ;
        lemma_scan_bracket(own, opp, m, dx, dy, k, t + 1, (fuel - 1) as nat);
        let r = scan(own, opp, x + dx, y + dy, dx, dy, (fuel - 1) as nat)->Some_0;
        assert(has_bit(r | (1u64 << i), i)) by (bit_vector)
            requires
                i < 64,
        ;
    }
}

/// A legal move turns over at least one opponent disc.
pub proof fn lemma_legal_move_flips(b: Board, m: u64, c: Color)
    requires
        b.wf(),
        m < 64,
        has_bit(b.legal(c), m),
    ensures
        exists|i: u64|
            #![trigger has_bit(b.discs(c.opp()), i)]
            has_bit(b.discs(c.opp()), i) && has_bit(b.flips_of(m as int, c), i),
{
    let own = b.discs(c);
    let opp = b.discs(c.opp());
    let (d, l) = (b.dark, b.light);
    assert(own & opp == 0) by (bit_vector)
        requires
            d & l == 0,
            (own == d && opp == l) || (own == l && opp == d),
    ;
    let h = opp & HORIZONTAL_MASK;
    let v = opp & VERTICAL_MASK;
    let dg = opp & DIAGONAL_MASK;
    let a1 = dilate_up(own, h, 1);
    let a2 = dilate_down(own, h, 1);
    let a3 = dilate_up(own, v, 8);
    let a4 = dilate_down(own, v, 8);
    let a5 = dilate_up(own, dg, 9);
    let a6 = dilate_up(own, dg, 7);
    let a7 = dilate_down(own, dg, 7);
    let a8 = dilate_down(own, dg, 9);
    let x = b.legal(c);
    assert(x == !(own | opp) & (a1 | a2 | a3 | a4 | a5 | a6 | a7 | a8));
    assert(has_bit(a1, m) || has_bit(a2, m) || has_bit(a3, m) || has_bit(a4, m) || has_bit(a5, m)
        || has_bit(a6, m) || has_bit(a7, m) || has_bit(a8, m)) by (bit_vector)
        requires
            x == !(own | opp) & (a1 | a2 | a3 | a4 | a5 | a6 | a7 | a8),
            has_bit(x, m),
    ;
    let (dx, dy): (int, int) = if has_bit(a1, m) {
        lemma_bracket_west(own, opp, m);
        (-1, 0)
    } else if has_bit(a2, m) {
        lemma_bracket_east(own, opp, m);
        (1, 0)
    } else if has_bit(a3, m) {
        lemma_bracket_south(own, opp, m);
        (0, -1)
    } else if has_bit(a4, m) {
        lemma_bracket_north(own, opp, m);
        (0, 1)
    } else if has_bit(a5, m) {
        lemma_bracket_south_west(own, opp, m);
        (-1, -1)
    } else if has_bit(a6, m) {
        lemma_bracket_south_east(own, opp, m);
        (1, -1)
    } else if has_bit(a7, m) {
        lemma_bracket_north_west(own, opp, m);
        (-1, 1)
    } else {
        lemma_bracket_north_east(own, opp, m);
        (1, 1)
    };
    let k = choose|k: int| 1 <= k <= 6 && #[trigger] bracket_at(own, opp, m as int, dx, dy, k);
    lemma_scan_bracket(own, opp, m as int, dx, dy, k, 1, 8);
    let i = (m + (dx + 8 * dy)) as u64;
    assert(has_bit(opp, (m + 1 * (dx + 8 * dy)) as u64));
    let r = ray_flips(own, opp, m as int, dx, dy);
    assert(has_bit(r, i));
    let f = b.flips_of(m as int, c);
    let r1 = ray_flips(own, opp, m as int, 1, 0);
    let r2 = ray_flips(own, opp, m as int, -1, 0);
    let r3 = ray_flips(own, opp, m as int, 0, 1);
    let r4 = ray_flips(own, opp, m as int, 0, -1);
    let r5 = ray_flips(own, opp, m as int, 1, 1);
    let r6 = ray_flips(own, opp, m as int, 1, -1);
    let r7 = ray_flips(own, opp, m as int, -1, 1);
    let r8 = ray_flips(own, opp, m as int, -1, -1);
    assert(f == r1 | r2 | r3 | r4 | r5 | r6 | r7 | r8);
    assert(r == r1 || r == r2 || r == r3 || r == r4 || r == r5 || r == r6 || r == r7 || r == r8);
    assert(has_bit(f, i)) by (bit_vector)
        requires
            f == r1 | r2 | r3 | r4 | r5 | r6 | r7 | r8,
            r == r1 || r == r2 || r == r3 || r == r4 || r == r5 || r == r6 || r == r7 || r == r8,
            has_bit(r, i),
    ;
}

/// Playing a legal move puts a disc on the square played and turns over at
/// least one opponent disc.
pub proof fn lemma_play_turns_over(b: Board, m: u64, c: Color)
    requires
        b.wf(),
        m < 64,
        has_bit(b.legal(c), m),
    ensures
        has_bit(b.play(m as int, c).discs(c), m),
        exists|i: u64|
            #![trigger has_bit(b.discs(c.opp()), i)]
            has_bit(b.discs(c.opp()), i) && !has_bit(b.play(m as int, c).discs(c.opp()), i),
{
    lemma_play_legal(b, m, c);
    lemma_legal_move_flips(b, m, c);
    let i = choose|i: u64| has_bit(b.discs(c.opp()), i) && has_bit(b.flips_of(m as int, c), i);
    let opp = b.discs(c.opp());
    let f = b.flips_of(m as int, c);
    let n = b.play(m as int, c).discs(c.opp());
    assert(n == opp & !f);
    assert(!has_bit(n, i)) by (bit_vector)
        requires
            n == opp & !f,
            has_bit(f, i),
    ;
}

fn dilate_up_exec(own: u64, w: u64, s: u64) -> (r: u64)
    requires
        s < 64,
    ensures
        r == dilate_up(own, w, s),
{
    let mut t = w & (own << s);
    t = t | (w & (t << s));
    t = t | (w & (t << s));
    t = t | (w & (t << s));
    t = t | (w & (t << s));
    t = t | (w & (t << s));
    t << s
}

fn dilate_down_exec(own: u64, w: u64, s: u64) -> (r: u64)
    requires
        s < 64,
    ensures
        r == dilate_down(own, w, s),
{
    let mut t = w & (own >> s);
    t = t | (w & (t >> s));
    t = t | (w & (t >> s));
    t = t | (w & (t >> s));
    t = t | (w & (t >> s));
    t = t | (w & (t >> s));
    t >> s
}

fn rot90_word(v: u64) -> (r: u64)
    ensures
        r == rot90_bits(v),
{
    let mut t = (0x00000000f0f0f0f0u64 & (v << 4)) | (0xf0f0f0f00f0f0f0fu64 & (v << 32)) | (
    0xf0f0f0f00f0f0f0fu64 & (v >> 32)) | (0x0f0f0f0f00000000u64 & (v >> 4));
    t = (0x0000cccc0000ccccu64 & (t << 2)) | (0xcccc0000cccc0000u64 & (t << 16)) | (
    0x0000333300003333u64 & (t >> 16)) | (0x3333000033330000u64 & (t >> 2));
    (0x00aa00aa00aa00aau64 & (t << 1)) | (0xaa00aa00aa00aa00u64 & (t << 8)) | (0x0055005500550055u64
        & (t >> 8)) | (0x5500550055005500u64 & (t >> 1))
}

fn mirror_word(v: u64) -> (r: u64)
    ensures
        r == mirror_bits(v),
{
    let mut t = ((v >> 8) & 0x00ff00ff00ff00ffu64) | ((v & 0x00ff00ff00ff00ffu64) << 8);
    t = ((t >> 16) & 0x0000ffff0000ffffu64) | ((t & 0x0000ffff0000ffffu64) << 16);
    (t >> 32) | (t << 32)
}

/// Walks the ray from `sq` in direction `(dx, dy)`.
fn ray_flips_exec(own: u64, opp: u64, sq: u8, dx: i8, dy: i8) -> (r: u64)
    requires
        sq < 64,
        -1 <= dx <= 1,
        -1 <= dy <= 1,
    ensures
        r == ray_flips(own, opp, sq as int, dx as int, dy as int),
        r & !opp == 0,
{
    let mut x: i8 = (sq % 8) as i8 + dx;
    let mut y: i8 = (sq / 8) as i8 + dy;
    let mut fuel: u8 = 8;
    let mut acc: u64 = 0;
    let ghost x0 = x as int;
    let ghost y0 = y as int;
    assert(0u64 & !opp == 0) by (bit_vector);
    assert forall|m: u64| (m | 0u64) == m by {
        assert((m | 0u64) == m) by (bit_vector);
    }
    loop
        invariant
            -1 <= x <= 8,
            -1 <= y <= 8,
            fuel <= 8,
            -1 <= dx <= 1,
            -1 <= dy <= 1,
            acc & !opp == 0,
            0u64 & !opp == 0,
            x0 == sq % 8 + dx,
            y0 == sq / 8 + dy,
            scan(own, opp, x0, y0, dx as int, dy as int, 8) == match scan(
                own,
                opp,
                x as int,
                y as int,
                dx as int,
                dy as int,
                fuel as nat,
            ) {
                Some(m) => Some(m | acc),
                None => None,
            },
        decreases fuel,
    {
        if fuel == 0 || x < 0 || x >= 8 || y < 0 || y >= 8 {
            return 0;
        }
        let i: u64 = (x as u64) + 8 * (y as u64);
        let b: u64 = 1u64 << i;
        proof {
            lemma_has_bit_mask(own, i);
            lemma_has_bit_mask(opp, i);
        }
        if own & b != 0 {
            assert((0u64 | acc) == acc) by (bit_vector);
            return acc;
        }
        if opp & b == 0 {
            return 0;
        }
        proof {
            let next = scan(own, opp, x + dx, y + dy, dx as int, dy as int, (fuel - 1) as nat);
            assert forall|m: u64| (m | b) | acc == m | (acc | b) by {
                assert((m | b) | acc == m | (acc | b)) by (bit_vector);
            }
            assert((acc | b) & !opp == 0) by (bit_vector)
                requires
                    acc & !opp == 0,
                    opp & b == b,
            ;
        }
        acc = acc | b;
        x = x + dx;
        y = y + dy;
        fuel = fuel - 1;
    }
}

} // verus!
