//! The opening book: for each side, a map from positions to the reply that
//! won most often in a corpus of games, entered under all eight symmetries.
use vstd::prelude::*;

use std::collections::HashMap;

use crate::bits::{has_bit, lemma_has_bit_mask};
use crate::board::Board;
use crate::color::Color;
use crate::endgame::board_key;
use crate::square::Square;

verus! {

broadcast use vstd::std_specs::hash::group_hash_axioms;

/// A corpus that does not describe games.
#[derive(Clone, Copy, Debug, PartialEq, Eq, Structural)]
pub enum BookError {
    /// A line does not end with `+` (dark won) or `-` (light won).
    MissingWinner,
    /// A ply is not a square, or not a legal move where it is played.
    InvalidMove,
}

/// `m` with `v` entered under `k`, where a smaller square already there stays.
pub open spec fn insert_min(m: Map<u128, u8>, k: u128, v: u8) -> Map<u128, u8> {
    if m.contains_key(k) && m[k] <= v {
        m
    } else {
        m.insert(k, v)
    }
}

/// `m` with the reply `s` to `b` entered under the four turns of `b`.
pub open spec fn insert_turns(m: Map<u128, u8>, b: Board, s: Square) -> Map<u128, u8> {
    let m1 = insert_min(m, board_key(b), s.index() as u8);
    let b2 = b.spec_rotate_90();
    let s2 = s.spec_rotate_90();
    let m2 = insert_min(m1, board_key(b2), s2.index() as u8);
    let b3 = b2.spec_rotate_90();
    let s3 = s2.spec_rotate_90();
    let m3 = insert_min(m2, board_key(b3), s3.index() as u8);
    insert_min(m3, board_key(b3.spec_rotate_90()), s3.spec_rotate_90().index() as u8)
}

/// `m` with the reply `s` to `b` entered under all eight symmetries of `b`.
pub open spec fn insert_symmetries(m: Map<u128, u8>, b: Board, s: Square) -> Map<u128, u8> {
    insert_turns(insert_turns(m, b, s), b.spec_mirror(), s.spec_mirror())
}

/// Entering two replies gives the same book in either order.
pub proof fn lemma_insert_min_commutes(m: Map<u128, u8>, k1: u128, v1: u8, k2: u128, v2: u8)
    ensures
        insert_min(insert_min(m, k1, v1), k2, v2) == insert_min(insert_min(m, k2, v2), k1, v1),
{
    let a = insert_min(insert_min(m, k1, v1), k2, v2);
    let b = insert_min(insert_min(m, k2, v2), k1, v1);
    assert(a =~= b);
}

/// Where the line that starts at `start` ends: at its line break, or at the
/// end of the corpus.
pub open spec fn line_end(c: Seq<u8>, start: int) -> int
    decreases c.len() - start,
{
    if start < 0 || start >= c.len() {
        c.len() as int
    } else if c[start] == 10 {
        start
    } else {
        line_end(c, start + 1)
    }
}

/// The end of the line's text: a carriage return before the break is left out.
pub open spec fn content_end(c: Seq<u8>, s: int, e: int) -> int {
    if e > s && c[e - 1] == 13 {
        e - 1
    } else {
        e
    }
}

/// Each ply is a square (`'!'` plus its index) and a legal move for the side
/// whose turn it is, the sides taking turns from `color`.
pub open spec fn replay_ok(b: Board, color: Color, plies: Seq<u8>) -> bool
    decreases plies.len(),
{
    plies.len() == 0 || (33 <= plies[0] < 97 && has_bit(b.legal(color), (plies[0] - 33) as u64)
        && replay_ok(b.play(plies[0] - 33, color), color.opp(), plies.drop_first()))
}

/// The line from `s` to `e` is a game from the opening position followed by
/// its winner's mark.
pub open spec fn line_ok(c: Seq<u8>, s: int, e: int) -> bool {
    let t = content_end(c, s, e);
    t > s && (c[t - 1] == 43 || c[t - 1] == 45) && replay_ok(
        Board::initial_spec(),
        Color::Dark,
        c.subrange(s, t - 1),
    )
}

/// Every line from `start` on is well formed.
pub open spec fn corpus_ok_from(c: Seq<u8>, start: int) -> bool
    decreases c.len() - start,
{
    if start < 0 || start >= c.len() {
        true
    } else {
        let e = line_end(c, start);
        if e < start {
            false
        } else if e >= c.len() {
            line_ok(c, start, e)
        } else {
            line_ok(c, start, e) && corpus_ok_from(c, e + 1)
        }
    }
}

proof fn lemma_line_end_bounds(c: Seq<u8>, start: int)
    requires
        0 <= start <= c.len(),
    ensures
        start <= line_end(c, start) <= c.len(),
        line_end(c, start) < c.len() ==> c[line_end(c, start)] == 10,
    decreases c.len() - start,
{
    if start < c.len() && c[start] != 10 {
        lemma_line_end_bounds(c, start + 1);
    }
}

/// The board whose memo key is `k`.
pub open spec fn board_of(k: u128) -> Board {
    Board { dark: (k >> 64u128) as u64, light: k as u64 }
}

proof fn lemma_board_of_key(p: Board)
    ensures
        board_of(board_key(p)) == p,
{
    let (d, l) = (p.dark, p.light);
    let k = board_key(p);
    assert((k >> 64u128) as u64 == d && k as u64 == l) by (bit_vector)
        requires
            k == ((d as u128) << 64u128) | (l as u128),
    ;
}

/// `m` holds a reply for all eight symmetric images of `p`.
pub open spec fn holds_images(m: Map<u128, u8>, p: Board) -> bool {
    let r1 = p.spec_rotate_90();
    let r2 = r1.spec_rotate_90();
    let r3 = r2.spec_rotate_90();
    let q = p.spec_mirror();
    let q1 = q.spec_rotate_90();
    let q2 = q1.spec_rotate_90();
    let q3 = q2.spec_rotate_90();
    &&& m.contains_key(board_key(p))
    &&& m.contains_key(board_key(r1))
    &&& m.contains_key(board_key(r2))
    &&& m.contains_key(board_key(r3))
    &&& m.contains_key(board_key(q))
    &&& m.contains_key(board_key(q1))
    &&& m.contains_key(board_key(q2))
    &&& m.contains_key(board_key(q3))
}

proof fn lemma_insert_symmetries_keys(m: Map<u128, u8>, b: Board, s: Square)
    ensures
        holds_images(insert_symmetries(m, b, s), b),
        forall|k: u128| m.contains_key(k) ==> #[trigger] insert_symmetries(m, b, s).contains_key(k),
{
}

/// While replaying `plies` from `b` with `color` to move, `winner` moved on
/// the position `p`.
pub open spec fn played_on(b: Board, color: Color, winner: Color, plies: Seq<u8>, p: Board) -> bool
    decreases plies.len(),
{
    plies.len() > 0 && ((color == winner && p == b) || played_on(
        b.play(plies[0] - 33, color),
        color.opp(),
        winner,
        plies.drop_first(),
        p,
    ))
}

/// The line from `s` to `e` is a game that `side` won, moving on `p`.
pub open spec fn line_played(c: Seq<u8>, s: int, e: int, side: Color, p: Board) -> bool {
    let t = content_end(c, s, e);
    t > s && ((c[t - 1] == 43 && side == Color::Dark) || (c[t - 1] == 45 && side
        == Color::Light)) && played_on(
        Board::initial_spec(),
        Color::Dark,
        side,
        c.subrange(s, t - 1),
        p,
    )
}

/// Some line from `start` on is a game that `side` won, moving on `p`.
pub open spec fn corpus_played_from(c: Seq<u8>, start: int, side: Color, p: Board) -> bool
    decreases c.len() - start,
{
    if start < 0 || start >= c.len() {
        false
    } else {
        let e = line_end(c, start);
        if e < start {
            false
        } else if e >= c.len() {
            line_played(c, start, e, side, p)
        } else {
            line_played(c, start, e, side, p) || corpus_played_from(c, e + 1, side, p)
        }
    }
}

pub struct OpeningBook {
    pub dark: HashMap<u128, u8>,
    pub light: HashMap<u128, u8>,
}

/// The counts of the replies that the winners chose, by position.
struct Tally {
    keys: Vec<u128>,
    counts: HashMap<u128, Vec<u32>>,
}

/// `side`'s tally counts moves on `p`.
spec fn tallied(dark: &Tally, light: &Tally, side: Color, p: Board) -> bool {
    match side {
        Color::Dark => dark.counts@.contains_key(board_key(p)),
        Color::Light => light.counts@.contains_key(board_key(p)),
    }
}

impl Tally {
    spec fn wf(&self) -> bool {
        &&& forall|k: u128| #[trigger] self.counts@.contains_key(k) ==> self.counts@[k]@.len() == 64
        &&& forall|i: int|
            0 <= i < self.keys.len() ==> #[trigger] self.counts@.contains_key(self.keys@[i])
        &&& forall|k: u128| #[trigger] self.counts@.contains_key(k) ==> self.keys@.contains(k)
    }

    fn new() -> (r: Tally)
        ensures
            r.wf(),
    {
        Tally { keys: Vec::new(), counts: HashMap::new() }
    }

    /// Counts one more choice of `sq` on the position `key`.
    fn add(&mut self, key: u128, sq: u8)
        requires
            old(self).wf(),
            sq < 64,
        ensures
            final(self).wf(),
            final(self).counts@.contains_key(key),
            forall|k: u128| old(self).counts@.contains_key(k) ==> #[trigger] final(self).counts@.contains_key(k),
    {
        let ghost old_keys = self.keys@;
        let mut row = match self.counts.remove(&key) {
            Some(r) => r,
            None => {
                self.keys.push(key);
                let mut r: Vec<u32> = Vec::new();
                let mut i: usize = 0;
                while i < 64
                    invariant
                        i <= 64,
                        r.len() == i,
                    decreases 64 - i,
                {
                    r.push(0);
                    i = i + 1;
                }
                r
            },
        };
        let c = row[sq as usize];
        if c < u32::MAX {
            row.set(sq as usize, c + 1);
        }
        self.counts.insert(key, row);
        assert forall|k: u128| #[trigger] self.counts@.contains_key(k) implies self.keys@.contains(k) by {
            if k != key {
                assert(old(self).counts@.contains_key(k));
                assert(old_keys.contains(k));
                let j = choose|j: int| 0 <= j < old_keys.len() && old_keys[j] == k;
                assert(self.keys@[j] == k);
            } else if old(self).counts@.contains_key(key) {
                assert(old_keys.contains(k));
                let j = choose|j: int| 0 <= j < old_keys.len() && old_keys[j] == k;
                assert(self.keys@[j] == k);
            } else {
                assert(self.keys@[self.keys@.len() - 1] == k);
            }
        }
        assert forall|i: int| 0 <= i < self.keys.len() implies #[trigger] self.counts@.contains_key(
            self.keys@[i],
        ) by {
            if self.keys@[i] != key {
                assert(old(self).counts@.contains_key(self.keys@[i]));
            }
        }
    }
}

/// The square that was chosen most often, the lowest of equals.
fn most_played(row: &Vec<u32>) -> (r: u8)
    requires
        row.len() == 64,
    ensures
        r < 64,
        forall|j: int| 0 <= j < 64 ==> row@[j] <= row@[r as int],
        forall|j: int| 0 <= j < r ==> row@[j] < row@[r as int],
{
    let mut best: u8 = 0;
    let mut j: u8 = 1;
    while j < 64
        invariant
            1 <= j <= 64,
            best < j,
            row.len() == 64,
            forall|k: int| 0 <= k < j ==> row@[k] <= row@[best as int],
            forall|k: int| 0 <= k < best ==> row@[k] < row@[best as int],
        decreases 64 - j,
    {
        if row[j as usize] > row[best as usize] {
            best = j;
        }
        j = j + 1;
    }
    best
}

impl OpeningBook {
    pub open spec fn table(&self, c: Color) -> Map<u128, u8> {
        match c {
            Color::Dark => self.dark@,
            Color::Light => self.light@,
        }
    }

    /// Every entry is a square.
    pub open spec fn wf(&self) -> bool {
        forall|c: Color, k: u128| #[trigger] self.table(c).contains_key(k) ==> self.table(c)[k] < 64
    }

    /// The empty book.
    pub fn new() -> (r: OpeningBook)
        ensures
            r.wf(),
            r.table(Color::Dark) == Map::<u128, u8>::empty(),
            r.table(Color::Light) == Map::<u128, u8>::empty(),
    {
        let r = OpeningBook { dark: HashMap::new(), light: HashMap::new() };
        assert(r.table(Color::Dark) =~= Map::<u128, u8>::empty());
        assert(r.table(Color::Light) =~= Map::<u128, u8>::empty());
        r
    }

    /// The reply that the book holds for `color` on `board`.
    pub fn get(&self, board: &Board, color: Color) -> (r: Option<Square>)
        requires
            self.wf(),
        ensures
            r matches Some(s) ==> s.wf() && self.table(color).contains_key(board_key(*board))
                && s.index() == self.table(color)[board_key(*board)],
            r is None ==> !self.table(color).contains_key(board_key(*board)),
    {
        let k = ((board.dark as u128) << 64u128) | (board.light as u128);
        let found = match color {
            Color::Dark => self.dark.get(&k),
            Color::Light => self.light.get(&k),
        };
        match found {
            Some(s) => {
                assert(self.table(color).contains_key(k));
                Some(Square::from_uint(*s))
            },
            None => None,
        }
    }

    /// Enters the reply `sq` for `color` on `board`, unless a smaller square
    /// is there already.
    pub fn record(&mut self, board: &Board, color: Color, sq: u8)
        requires
            old(self).wf(),
            sq < 64,
        ensures
            final(self).wf(),
            final(self).table(color) == insert_min(old(self).table(color), board_key(*board), sq),
            final(self).table(color.opp()) == old(self).table(color.opp()),
    {
        let k = ((board.dark as u128) << 64u128) | (board.light as u128);
        let keep = match color {
            Color::Dark => match self.dark.get(&k) {
                Some(v) => *v <= sq,
                None => false,
            },
            Color::Light => match self.light.get(&k) {
                Some(v) => *v <= sq,
                None => false,
            },
        };
        if !keep {
            match color {
                Color::Dark => {
                    self.dark.insert(k, sq);
                },
                Color::Light => {
                    self.light.insert(k, sq);
                },
            }
        }
        assert forall|c: Color, x: u128| #[trigger] self.table(c).contains_key(x) implies self.table(
            c,
        )[x] < 64 by {
            if !(c == color && x == k) {
                assert(old(self).table(c).contains_key(x));
            }
        }
    }

    fn record_turns(&mut self, board: Board, color: Color, s: Square)
        requires
            old(self).wf(),
            s.wf(),
        ensures
            final(self).wf(),
            final(self).table(color) == insert_turns(old(self).table(color), board, s),
            final(self).table(color.opp()) == old(self).table(color.opp()),
    {
        self.record(&board, color, s.to_uint());
        let b2 = board.rotate_90();
        let s2 = s.rotate_90();
        self.record(&b2, color, s2.to_uint());
        let b3 = b2.rotate_90();
        let s3 = s2.rotate_90();
        self.record(&b3, color, s3.to_uint());
        self.record(&b3.rotate_90(), color, s3.rotate_90().to_uint());
    }

    /// Enters the reply `square` to `board` for `color` under all eight
    /// symmetries of the board.
    pub fn add_symmetric(&mut self, board: Board, color: Color, square: Square)
        requires
            old(self).wf(),
            square.wf(),
        ensures
            final(self).wf(),
            final(self).table(color) == insert_symmetries(old(self).table(color), board, square),
            final(self).table(color.opp()) == old(self).table(color.opp()),
    {
        self.record_turns(board, color, square);
        self.record_turns(board.mirror(), color, square.mirror());
    }

    fn add_tally(&mut self, tally: &Tally, color: Color)
        requires
            old(self).wf(),
            tally.wf(),
        ensures
            final(self).wf(),
            final(self).table(color.opp()) == old(self).table(color.opp()),
            forall|k: u128|
                #[trigger] tally.counts@.contains_key(k) ==> holds_images(
                    final(self).table(color),
                    board_of(k),
                ),
    {
        let mut i: usize = 0;
        while i < tally.keys.len()
            invariant
                self.wf(),
                tally.wf(),
                i <= tally.keys.len(),
                self.table(color.opp()) == old(self).table(color.opp()),
                forall|j: int|
                    0 <= j < i ==> holds_images(self.table(color), board_of(#[trigger] tally.keys@[j])),
            decreases tally.keys.len() - i,
        {
            let key = tally.keys[i];
            proof {
                assert(tally.counts@.contains_key(tally.keys@[i as int]));
            }
            match tally.counts.get(&key) {
                Some(row) => {
                    let best = most_played(row);
                    let board = Board { dark: (key >> 64u128) as u64, light: key as u64 };
                    let ghost before = self.table(color);
                    let sq = Square::from_uint(best);
                    self.add_symmetric(board, color, sq);
                    proof {
                        lemma_insert_symmetries_keys(before, board, sq);
                        assert(board == board_of(tally.keys@[i as int]));
                    }
                },
                None => {},
            }
            i = i + 1;
        }
        proof {
            assert forall|k: u128| #[trigger] tally.counts@.contains_key(k) implies holds_images(
                self.table(color),
                board_of(k),
            ) by {
                assert(tally.keys@.contains(k));
                let j = choose|j: int| 0 <= j < tally.keys@.len() && tally.keys@[j] == k;
                assert(holds_images(self.table(color), board_of(tally.keys@[j])));
            }
        }
    }

    /// Builds the book from a corpus: one game per line, each ply a byte
    /// (`'!'` plus the square's index), dark moving first, and a last byte
    /// `+` when dark won or `-` when light won. Every move of the winner is
    /// counted on the position it was played on; each position keeps its most
    /// played reply.
    pub fn load(corpus: &[u8]) -> (r: Result<OpeningBook, BookError>)
        ensures
            r is Ok <==> corpus_ok_from(corpus@, 0),
            r matches Ok(b) ==> b.wf(),
            r matches Ok(b) ==> forall|side: Color, p: Board|
                #[trigger] corpus_played_from(corpus@, 0, side, p) ==> holds_images(
                    b.table(side),
                    p,
                ),
    {
        let mut dark_tally = Tally::new();
        let mut light_tally = Tally::new();
        let n = corpus.len();
        let ghost c = corpus@;
        let mut start: usize = 0;
        while start < n
            invariant
                start <= n,
                n == c.len(),
                c == corpus@,
                corpus_ok_from(c, 0) == corpus_ok_from(c, start as int),
                dark_tally.wf(),
                light_tally.wf(),
                forall|side: Color, p: Board|
                    #[trigger] corpus_played_from(c, 0, side, p) ==> tallied(
                        &dark_tally,
                        &light_tally,
                        side,
                        p,
                    ) || corpus_played_from(c, start as int, side, p),
            decreases n - start,
        {
            // The line runs from `start` up to `end`, without its line break.
            let mut end = start;
            while end < n && corpus[end] != 10u8
                invariant
                    start <= end <= n,
                    n == c.len(),
                    c == corpus@,
                    line_end(c, start as int) == line_end(c, end as int),
                decreases n - end,
            {
                end = end + 1;
            }
            let ghost e = end as int;
            assert(line_end(c, start as int) == e);
            let next = if end < n {
                end + 1
            } else {
                end
            };
            proof {
                lemma_line_end_bounds(c, start as int);
                assert(corpus_ok_from(c, start as int) == (line_ok(c, start as int, e)
                    && corpus_ok_from(c, next as int)));
                assert forall|side: Color, p: Board|
                    corpus_played_from(c, start as int, side, p) == (line_played(
                        c,
                        start as int,
                        e,
                        side,
                        p,
                    ) || corpus_played_from(c, next as int, side, p)) by {}
            }
            if end > start && corpus[end - 1] == 13u8 {
                end = end - 1;
            }
            assert(end == content_end(c, start as int, e));
            if end == start {
                return Err(BookError::MissingWinner);
            }
            let marker = corpus[end - 1];
            let winner = if marker == 43u8 {
                Color::Dark
            } else if marker == 45u8 {
                Color::Light
            } else {
                return Err(BookError::MissingWinner);
            };
            let mut board = Board::initial();
            let mut color = Color::Dark;
            let mut i = start;
            let ghost last = end - 1;
            assert forall|side: Color, p: Board| #[trigger]
                line_played(c, start as int, e, side, p) implies side == winner && played_on(
                Board::initial_spec(),
                Color::Dark,
                winner,
                c.subrange(start as int, last),
                p,
            ) by {}
            assert(line_ok(c, start as int, e) == replay_ok(
                Board::initial_spec(),
                Color::Dark,
                c.subrange(start as int, last),
            ));
            while i < end - 1
                invariant
                    start <= i <= end - 1,
                    last == end - 1,
                    end <= n,
                    n == c.len(),
                    c == corpus@,
                    board.wf(),
                    replay_ok(Board::initial_spec(), Color::Dark, c.subrange(start as int, last))
                        == replay_ok(board, color, c.subrange(i as int, last)),
                    corpus_ok_from(c, 0) == (replay_ok(
                        Board::initial_spec(),
                        Color::Dark,
                        c.subrange(start as int, last),
                    ) && corpus_ok_from(c, next as int)),
                    forall|side: Color, p: Board|
                        #[trigger] corpus_played_from(c, 0, side, p) ==> tallied(
                            &dark_tally,
                            &light_tally,
                            side,
                            p,
                        ) || (side == winner && played_on(
                            board,
                            color,
                            winner,
                            c.subrange(i as int, last),
                            p,
                        )) || corpus_played_from(c, next as int, side, p),
                    dark_tally.wf(),
                    light_tally.wf(),
                decreases end - 1 - i,
            {
                let ch = corpus[i];
                let ghost plies = c.subrange(i as int, last);
                proof {
                    assert(plies[0] == ch);
                    assert(plies.drop_first() =~= c.subrange(i + 1, last));
                }
                if ch < 33u8 || ch >= 97u8 {
                    assert(!replay_ok(board, color, plies));
                    return Err(BookError::InvalidMove);
                }
                let sq = ch - 33u8;
                let legal = board.flippable_squares(color);
                proof {
                    lemma_has_bit_mask(legal, sq as u64);
                    crate::board::lemma_legal_moves_empty(board, color);
                    let occ = board.dark | board.light;
                    let s = sq as u64;
                    assert(has_bit(legal, s) ==> !has_bit(occ, s)) by (bit_vector)
                        requires
                            legal & occ == 0,
                    ;
                }
                if legal & (1u64 << (sq as u64)) == 0 {
                    assert((plies[0] - 33) as u64 == sq as u64);
                    assert(!replay_ok(board, color, plies));
                    return Err(BookError::InvalidMove);
                }
                proof {
                    assert((plies[0] - 33) as u64 == sq as u64);
                    assert(plies[0] - 33 == sq as int);
                    assert(replay_ok(board, color, plies) == replay_ok(
                        board.play(sq as int, color),
                        color.opp(),
                        c.subrange(i + 1, last),
                    ));
                }
                let ghost old_board = board;
                let ghost old_color = color;
                let ghost od = dark_tally;
                let ghost ol = light_tally;
                if color == winner {
                    let key = ((board.dark as u128) << 64u128) | (board.light as u128);
                    match color {
                        Color::Dark => dark_tally.add(key, sq),
                        Color::Light => light_tally.add(key, sq),
                    }
                }
                proof {
                    assert forall|side: Color, p: Board| tallied(&od, &ol, side, p) implies tallied(
                        &dark_tally,
                        &light_tally,
                        side,
                        p,
                    ) by {}
                    if old_color == winner {
                        assert(tallied(&dark_tally, &light_tally, winner, old_board));
                    }
                }
                board = board.flip(sq, color);
                color = color.opposite();
                i = i + 1;
            }
            proof {
                assert(c.subrange(i as int, last).len() == 0);
            }
            start = next;
            assert(start == next);
        }
        let mut book = OpeningBook::new();
        book.add_tally(&dark_tally, Color::Dark);
        book.add_tally(&light_tally, Color::Light);
        proof {
            assert forall|side: Color, p: Board|
                #[trigger] corpus_played_from(c, 0, side, p) implies holds_images(
                book.table(side),
                p,
            ) by {
                lemma_board_of_key(p);
                assert(tallied(&dark_tally, &light_tally, side, p));
            }
        }
        Ok(book)
    }
}

} // verus!
