//! Squares of the 8x8 board, their text form and their symmetries.
use vstd::prelude::*;

verus! {

/// A square: `x` is the file (A..H as 0..7), `y` the rank (1..8 as 0..7).
#[derive(Clone, Copy, Debug, PartialEq, Eq, Hash, Structural)]
pub struct Square {
    pub x: u8,
    pub y: u8,
}

/// Text that does not name a square.
#[derive(Clone, Copy, Debug, PartialEq, Eq, Structural)]
pub enum SquareError {
    InvalidSquare,
}

/// The file that a character names, case-insensitively, or -1.
pub open spec fn file_value(c: char) -> int {
    if 'A' as u32 <= c as u32 <= 'H' as u32 {
        c as u32 - 'A' as u32
    } else if 'a' as u32 <= c as u32 <= 'h' as u32 {
        c as u32 - 'a' as u32
    } else {
        -1
    }
}

/// The rank that a digit names, or -1.
pub open spec fn rank_value(c: char) -> int {
    if '1' as u32 <= c as u32 <= '8' as u32 {
        c as u32 - '1' as u32
    } else {
        -1
    }
}

/// Whether `s` is the text of a square, such as "D5" or "d5".
pub open spec fn is_square_text(s: Seq<char>) -> bool {
    s.len() == 2 && file_value(s[0]) >= 0 && rank_value(s[1]) >= 0
}

/// Whether `s` is the upper-case text of the square at file `x` and rank `y`.
pub open spec fn is_text_of(s: Seq<char>, x: int, y: int) -> bool {
    s.len() == 2 && s[0] as u32 == 'A' as u32 + x && s[1] as u32 == '1' as u32 + y
}

/// The index of a square: `x + 8 y`.
pub open spec fn index_of(x: int, y: int) -> int {
    x + 8 * y
}

impl Square {
    /// The square lies on the board.
    pub open spec fn wf(self) -> bool {
        self.x < 8 && self.y < 8
    }

    pub open spec fn index(self) -> int {
        index_of(self.x as int, self.y as int)
    }

    pub open spec fn spec_rotate_90(self) -> Square {
        Square { x: (7 - self.y) as u8, y: self.x }
    }

    pub open spec fn spec_mirror(self) -> Square {
        Square { x: self.x, y: (7 - self.y) as u8 }
    }

    /// Reads "<File><Rank>", the file case-insensitive.
    pub fn from_str(s: &str) -> (r: Result<Square, SquareError>)
        ensures
            r is Ok <==> is_square_text(s@),
            r matches Ok(sq) ==> sq.wf() && sq.x == file_value(s@[0]) && sq.y == rank_value(
                s@[1],
            ),
    {
        if s.unicode_len() != 2 {
            return Err(SquareError::InvalidSquare);
        }
        Square::from_pair(s.get_char(0), s.get_char(1))
    }

    /// Reads a file letter, either case, and a rank digit.
    pub fn from_pair(file: char, rank: char) -> (r: Result<Square, SquareError>)
        ensures
            r is Ok <==> file_value(file) >= 0 && rank_value(rank) >= 0,
            r matches Ok(sq) ==> sq.wf() && sq.x == file_value(file) && sq.y == rank_value(rank),
    {
        let f = file as u32;
        let x: u8 = if 'A' as u32 <= f && f <= 'H' as u32 {
            (f - 'A' as u32) as u8
        } else if 'a' as u32 <= f && f <= 'h' as u32 {
            (f - 'a' as u32) as u8
        } else {
            return Err(SquareError::InvalidSquare);
        };
        let d = rank as u32;
        if d < '1' as u32 || d > '8' as u32 {
            return Err(SquareError::InvalidSquare);
        }
        Ok(Square { x, y: (d - '1' as u32) as u8 })
    }

    pub fn from_uint(i: u8) -> (r: Square)
        requires
            i < 64,
        ensures
            r.wf(),
            r.index() == i,
    {
        Square { x: i % 8, y: i / 8 }
    }

    pub fn to_uint(&self) -> (r: u8)
        requires
            self.wf(),
        ensures
            r == self.index(),
            r < 64,
    {
        self.x + self.y * 8
    }

    /// The upper-case text of the square, such as "D5".
    pub fn to_string(&self) -> (r: String)
        requires
            self.wf(),
        ensures
            is_text_of(r@, self.x as int, self.y as int),
    {
        let file: &str = match self.x {
            0 => "A",
            1 => "B",
            2 => "C",
            3 => "D",
            4 => "E",
            5 => "F",
            6 => "G",
            _ => "H",
        };
        let rank: &str = match self.y {
            0 => "1",
            1 => "2",
            2 => "3",
            3 => "4",
            4 => "5",
            5 => "6",
            6 => "7",
            _ => "8",
        };
        proof {
            reveal_strlit("A");
            reveal_strlit("B");
            reveal_strlit("C");
            reveal_strlit("D");
            reveal_strlit("E");
            reveal_strlit("F");
            reveal_strlit("G");
            reveal_strlit("H");
            reveal_strlit("1");
            reveal_strlit("2");
            reveal_strlit("3");
            reveal_strlit("4");
            reveal_strlit("5");
            reveal_strlit("6");
            reveal_strlit("7");
            reveal_strlit("8");
        }
        let mut r = String::from_str(file);
        r.append(rank);
        r
    }

    /// The square's image in the horizontal axis: rank `y` goes to `7 - y`.
    pub fn mirror(&self) -> (r: Square)
        requires
            self.wf(),
        ensures
            r == self.spec_mirror(),
            r.wf(),
    {
        Square { x: self.x, y: 7 - self.y }
    }

    /// The square's image under a quarter turn: `(x, y)` goes to `(7 - y, x)`.
    pub fn rotate_90(&self) -> (r: Square)
        requires
            self.wf(),
        ensures
            r == self.spec_rotate_90(),
            r.wf(),
    {
        Square { x: 7 - self.y, y: self.x }
    }

    pub fn rotate_180(&self) -> (r: Square)
        requires
            self.wf(),
        ensures
            r == self.spec_rotate_90().spec_rotate_90(),
            r == (Square { x: (7 - self.x) as u8, y: (7 - self.y) as u8 }),
            r.wf(),
    {
        self.rotate_90().rotate_90()
    }

    pub fn rotate_270(&self) -> (r: Square)
        requires
            self.wf(),
        ensures
            r == self.spec_rotate_90().spec_rotate_90().spec_rotate_90(),
            r == (Square { x: self.y, y: (7 - self.x) as u8 }),
            r.wf(),
    {
        self.rotate_180().rotate_90()
    }
}

/// Reading the text of a square gives the square back, and writing the square
/// that an upper-case text names gives that text back.
pub proof fn lemma_square_text_round_trip(sq: Square, s: Seq<char>, t: Seq<char>)
    requires
        sq.wf(),
    ensures
        is_text_of(t, sq.x as int, sq.y as int) ==> is_square_text(t) && file_value(t[0])
            == sq.x && rank_value(t[1]) == sq.y,
        is_square_text(s) && is_text_of(t, file_value(s[0]), rank_value(s[1])) && 'A' as u32
            <= s[0] as u32 <= 'H' as u32 ==> t == s,
{
    if is_square_text(s) && is_text_of(t, file_value(s[0]), rank_value(s[1])) && 'A' as u32
        <= s[0] as u32 <= 'H' as u32 {
        vstd::utf8::char_u32_cast(t[0], t[0] as u32);
        vstd::utf8::char_u32_cast(s[0], s[0] as u32);
        vstd::utf8::char_u32_cast(t[1], t[1] as u32);
        vstd::utf8::char_u32_cast(s[1], s[1] as u32);
        assert(t =~= s);
    }
}

/// Four quarter turns, or two mirrors, leave a square where it was.
pub proof fn lemma_square_symmetries(sq: Square)
    requires
        sq.wf(),
    ensures
        sq.spec_rotate_90().spec_rotate_90().spec_rotate_90().spec_rotate_90() == sq,
        sq.spec_mirror().spec_mirror() == sq,
{
}

} // verus!
