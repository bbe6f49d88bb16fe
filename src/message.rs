//! The line protocol with the match server: the messages the client sends
//! and the parser of the messages it receives.
use vstd::prelude::*;

use crate::color::{Color, GameResult};
use crate::square::{file_value, is_square_text, rank_value, Square};

verus! {

/// `OPEN <name>`: registers the client.
pub fn open_message(name: &str) -> (r: String)
    ensures
        r@ == "OPEN "@ + name@,
{
    let mut r = String::from_str("OPEN ");
    r.append(name);
    r
}

/// `MOVE <square>`.
pub fn move_message(s: Square) -> (r: String)
    requires
        s.wf(),
    ensures
        r@.len() == 7,
        r@.subrange(0, 5) == "MOVE "@,
        crate::square::is_text_of(r@.subrange(5, 7), s.x as int, s.y as int),
{
    let mut r = String::from_str("MOVE ");
    let t = s.to_string();
    r.append(t.as_str());
    proof {
        reveal_strlit("MOVE ");
        assert(r@.subrange(0, 5) =~= "MOVE "@);
        assert(r@.subrange(5, 7) =~= t@);
    }
    r
}

/// `MOVE PASS`.
pub fn pass_message() -> (r: String)
    ensures
        r@ == "MOVE PASS"@,
{
    String::from_str("MOVE PASS")
}

/// A message from the server.
pub enum ServerMessage {
    Start { color: Color, op_name: String, remaining_time_ms: u32 },
    End { result: GameResult, player_count: u8, op_count: u8, reason: String },
    Move { pos: Option<Square> },
    Ack { remaining_time_ms: u32 },
    Bye { stat: String },
}

/// What a server message says, with its text as characters.
pub enum MessageView {
    Start { color: Color, op_name: Seq<char>, remaining_time_ms: u32 },
    End { result: GameResult, player_count: u8, op_count: u8, reason: Seq<char> },
    Move { pos: Option<Square> },
    Ack { remaining_time_ms: u32 },
    Bye { stat: Seq<char> },
}

impl View for ServerMessage {
    type V = MessageView;

    open spec fn view(&self) -> MessageView {
        match self {
            ServerMessage::Start { color, op_name, remaining_time_ms } => MessageView::Start {
                color: *color,
                op_name: op_name@,
                remaining_time_ms: *remaining_time_ms,
            },
            ServerMessage::End { result, player_count, op_count, reason } => MessageView::End {
                result: *result,
                player_count: *player_count,
                op_count: *op_count,
                reason: reason@,
            },
            ServerMessage::Move { pos } => MessageView::Move { pos: *pos },
            ServerMessage::Ack { remaining_time_ms } => MessageView::Ack {
                remaining_time_ms: *remaining_time_ms,
            },
            ServerMessage::Bye { stat } => MessageView::Bye { stat: stat@ },
        }
    }
}

/// Why a line is not a server message.
#[derive(Clone, Copy, Debug, PartialEq, Eq, Structural)]
pub enum MessageError {
    Empty,
    InvalidCommand,
    InvalidMessage,
    InvalidColor,
    InvalidTime,
    InvalidResult,
    InvalidCount,
    InvalidSquare,
}

/// The characters that separate words.
pub open spec fn is_space(c: char) -> bool {
    c == ' ' || c == '\t' || c == '\n' || c == '\r' || c == '\x0b' || c == '\x0c'
}

/// The words of `s` so far, and the word being read.
pub open spec fn scan_words(s: Seq<char>) -> (Seq<Seq<char>>, Seq<char>)
    decreases s.len(),
{
    if s.len() == 0 {
        (seq![], seq![])
    } else {
        let (done, cur) = scan_words(s.drop_last());
        if is_space(s.last()) {
            if cur.len() > 0 {
                (done.push(cur), seq![])
            } else {
                (done, seq![])
            }
        } else {
            (done, cur.push(s.last()))
        }
    }
}

/// The words of `s`: its maximal runs of non-space characters.
pub open spec fn words(s: Seq<char>) -> Seq<Seq<char>> {
    let (done, cur) = scan_words(s);
    if cur.len() > 0 {
        done.push(cur)
    } else {
        done
    }
}

pub open spec fn is_digit(c: char) -> bool {
    '0' as u32 <= c as u32 <= '9' as u32
}

/// The value of a string of decimal digits.
pub open spec fn decimal(s: Seq<char>) -> int
    decreases s.len(),
{
    if s.len() == 0 {
        0
    } else {
        decimal(s.drop_last()) * 10 + (s.last() as u32 - '0' as u32)
    }
}

/// The number that `w` writes, if it is one of digits only, at most `max`.
pub open spec fn number(w: Seq<char>, max: int) -> Option<int> {
    if w.len() > 0 && (forall|i: int| 0 <= i < w.len() ==> is_digit(#[trigger] w[i])) && decimal(w)
        <= max {
        Some(decimal(w))
    } else {
        None
    }
}

/// The message that the words `w` make.
pub open spec fn parse_words(w: Seq<Seq<char>>) -> Result<MessageView, MessageError> {
    if w.len() == 0 {
        Err(MessageError::Empty)
    } else if w[0] == "START"@ {
        if w.len() < 2 {
            Err(MessageError::InvalidMessage)
        } else if w[1] != "BLACK"@ && w[1] != "WHITE"@ {
            Err(MessageError::InvalidColor)
        } else if w.len() < 4 {
            Err(MessageError::InvalidMessage)
        } else if number(w[3], u32::MAX as int) is None {
            Err(MessageError::InvalidTime)
        } else {
            Ok(
                MessageView::Start {
                    color: if w[1] == "BLACK"@ {
                        Color::Dark
                    } else {
                        Color::Light
                    },
                    op_name: w[2],
                    remaining_time_ms: number(w[3], u32::MAX as int)->Some_0 as u32,
                },
            )
        }
    } else if w[0] == "END"@ {
        if w.len() < 2 {
            Err(MessageError::InvalidMessage)
        } else if w[1] != "WIN"@ && w[1] != "LOSE"@ && w[1] != "TIE"@ {
            Err(MessageError::InvalidResult)
        } else if w.len() < 3 {
            Err(MessageError::InvalidMessage)
        } else if number(w[2], u8::MAX as int) is None {
            Err(MessageError::InvalidCount)
        } else if w.len() < 4 {
            Err(MessageError::InvalidMessage)
        } else if number(w[3], u8::MAX as int) is None {
            Err(MessageError::InvalidCount)
        } else if w.len() < 5 {
            Err(MessageError::InvalidMessage)
        } else {
            Ok(
                MessageView::End {
                    result: if w[1] == "WIN"@ {
                        GameResult::Win
                    } else if w[1] == "LOSE"@ {
                        GameResult::Lose
                    } else {
                        GameResult::Tie
                    },
                    player_count: number(w[2], u8::MAX as int)->Some_0 as u8,
                    op_count: number(w[3], u8::MAX as int)->Some_0 as u8,
                    reason: w[4],
                },
            )
        }
    } else if w[0] == "MOVE"@ {
        if w.len() < 2 {
            Err(MessageError::InvalidMessage)
        } else if w[1] == "PASS"@ {
            Ok(MessageView::Move { pos: None })
        } else if !is_square_text(w[1]) {
            Err(MessageError::InvalidSquare)
        } else {
            Ok(
                MessageView::Move {
                    pos: Some(
                        Square { x: file_value(w[1][0]) as u8, y: rank_value(w[1][1]) as u8 },
                    ),
                },
            )
        }
    } else if w[0] == "ACK"@ {
        if w.len() < 2 {
            Err(MessageError::InvalidMessage)
        } else if number(w[1], u32::MAX as int) is None {
            Err(MessageError::InvalidTime)
        } else {
            Ok(
                MessageView::Ack {
                    remaining_time_ms: number(w[1], u32::MAX as int)->Some_0 as u32,
                },
            )
        }
    } else if w[0] == "BYE"@ {
        if w.len() < 2 {
            Err(MessageError::InvalidMessage)
        } else {
            Ok(MessageView::Bye { stat: w[1] })
        }
    } else {
        Err(MessageError::InvalidCommand)
    }
}

/// The owned text of a word.
fn word_string(w: &Vec<char>) -> (r: String)
    ensures
        r@ == w@,
{
    let mut r = String::new();
    let mut i: usize = 0;
    while i < w.len()
        invariant
            i <= w.len(),
            r@ == w@.subrange(0, i as int),
        decreases w.len() - i,
    {
        push_char(&mut r, w[i]);
        proof {
            assert(w@.subrange(0, i + 1) =~= w@.subrange(0, i as int).push(w@[i as int]));
        }
        i = i + 1;
    }
    proof {
        assert(w@.subrange(0, w@.len() as int) =~= w@);
    }
    r
}

/// Relies on `String::push`: appends one character.
#[verifier::external_body]
fn push_char(s: &mut String, c: char)
    ensures
        final(s)@ == old(s)@.push(c),
{
    s.push(c)
}

/// Reads one line from the server: its words, separated by white space, are
/// a command and its arguments; words beyond those are ignored.
pub fn parse(line: &str) -> (r: Result<ServerMessage, MessageError>)
    ensures
        r matches Ok(m) ==> parse_words(words(line@)) == Ok::<MessageView, MessageError>(m@),
        r matches Err(e) ==> parse_words(words(line@)) == Err::<MessageView, MessageError>(e),
{
    let w = split_words(line);
    let ghost ws = words(line@);
    proof {
        assert(w@.len() == ws.len());
    }
    if w.len() == 0 {
        return Err(MessageError::Empty);
    }
    proof {
        assert(w@[0]@ == ws[0]);
    }
    if word_is(&w[0], "START") {
        if w.len() < 2 {
            return Err(MessageError::InvalidMessage);
        }
        proof {
            assert(w@[1]@ == ws[1]);
        }
        let color = if word_is(&w[1], "BLACK") {
            Color::Dark
        } else if word_is(&w[1], "WHITE") {
            Color::Light
        } else {
            return Err(MessageError::InvalidColor);
        };
        if w.len() < 4 {
            return Err(MessageError::InvalidMessage);
        }
        proof {
            assert(w@[2]@ == ws[2]);
            assert(w@[3]@ == ws[3]);
        }
        match parse_number(&w[3], u32::MAX) {
            Some(ms) => Ok(
                ServerMessage::Start {
                    color,
                    op_name: word_string(&w[2]),
                    remaining_time_ms: ms,
                },
            ),
            None => Err(MessageError::InvalidTime),
        }
    } else if word_is(&w[0], "END") {
        if w.len() < 2 {
            return Err(MessageError::InvalidMessage);
        }
        proof {
            assert(w@[1]@ == ws[1]);
        }
        let result = if word_is(&w[1], "WIN") {
            GameResult::Win
        } else if word_is(&w[1], "LOSE") {
            GameResult::Lose
        } else if word_is(&w[1], "TIE") {
            GameResult::Tie
        } else {
            return Err(MessageError::InvalidResult);
        };
        if w.len() < 3 {
            return Err(MessageError::InvalidMessage);
        }
        proof {
            assert(w@[2]@ == ws[2]);
        }
        let player_count = match parse_number(&w[2], u8::MAX as u32) {
            Some(n) => n as u8,
            None => {
                return Err(MessageError::InvalidCount);
            },
        };
        if w.len() < 4 {
            return Err(MessageError::InvalidMessage);
        }
        proof {
            assert(w@[3]@ == ws[3]);
        }
        let op_count = match parse_number(&w[3], u8::MAX as u32) {
            Some(n) => n as u8,
            None => {
                return Err(MessageError::InvalidCount);
            },
        };
        if w.len() < 5 {
            return Err(MessageError::InvalidMessage);
        }
        proof {
            assert(w@[4]@ == ws[4]);
        }
        Ok(ServerMessage::End { result, player_count, op_count, reason: word_string(&w[4]) })
    } else if word_is(&w[0], "MOVE") {
        if w.len() < 2 {
            return Err(MessageError::InvalidMessage);
        }
        proof {
            assert(w@[1]@ == ws[1]);
        }
        if word_is(&w[1], "PASS") {
            return Ok(ServerMessage::Move { pos: None });
        }
        if w[1].len() != 2 {
            return Err(MessageError::InvalidSquare);
        }
        match Square::from_pair(w[1][0], w[1][1]) {
            Ok(s) => Ok(ServerMessage::Move { pos: Some(s) }),
            Err(_) => Err(MessageError::InvalidSquare),
        }
    } else if word_is(&w[0], "ACK") {
        if w.len() < 2 {
            return Err(MessageError::InvalidMessage);
        }
        proof {
            assert(w@[1]@ == ws[1]);
        }
        match parse_number(&w[1], u32::MAX) {
            Some(ms) => Ok(ServerMessage::Ack { remaining_time_ms: ms }),
            None => Err(MessageError::InvalidTime),
        }
    } else if word_is(&w[0], "BYE") {
        if w.len() < 2 {
            return Err(MessageError::InvalidMessage);
        }
        proof {
            assert(w@[1]@ == ws[1]);
        }
        Ok(ServerMessage::Bye { stat: word_string(&w[1]) })
    } else {
        Err(MessageError::InvalidCommand)
    }
}

fn is_space_exec(c: char) -> (r: bool)
    ensures
        r == is_space(c),
{
    c == ' ' || c == '\t' || c == '\n' || c == '\r' || c == '\x0b' || c == '\x0c'
}

/// Splits `s` into its words.
fn split_words(s: &str) -> (r: Vec<Vec<char>>)
    ensures
        r@.len() == words(s@).len(),
        forall|i: int| 0 <= i < r@.len() ==> #[trigger] r@[i]@ == words(s@)[i],
{
    let n = s.unicode_len();
    let mut done: Vec<Vec<char>> = Vec::new();
    let mut cur: Vec<char> = Vec::new();
    let mut i: usize = 0;
    while i < n
        invariant
            i <= n,
            n == s@.len(),
            done@.len() == scan_words(s@.subrange(0, i as int)).0.len(),
            forall|k: int|
                0 <= k < done@.len() ==> #[trigger] done@[k]@ == scan_words(
                    s@.subrange(0, i as int),
                ).0[k],
            cur@ == scan_words(s@.subrange(0, i as int)).1,
        decreases n - i,
    {
        let c = s.get_char(i);
        proof {
            assert(s@.subrange(0, i + 1).drop_last() =~= s@.subrange(0, i as int));
        }
        if is_space_exec(c) {
            if cur.len() > 0 {
                done.push(cur);
                cur = Vec::new();
            }
        } else {
            cur.push(c);
        }
        i = i + 1;
    }
    proof {
        assert(s@.subrange(0, n as int) =~= s@);
    }
    if cur.len() > 0 {
        done.push(cur);
    }
    done
}

/// Whether `w` spells `lit`.
fn word_is(w: &Vec<char>, lit: &str) -> (r: bool)
    ensures
        r == (w@ == lit@),
{
    let n = lit.unicode_len();
    if w.len() != n {
        return false;
    }
    let mut i: usize = 0;
    while i < n
        invariant
            i <= n,
            n == lit@.len(),
            w@.len() == n,
            forall|k: int| 0 <= k < i ==> w@[k] == lit@[k],
        decreases n - i,
    {
        if w[i] != lit.get_char(i) {
            return false;
        }
        i = i + 1;
    }
    proof {
        assert(w@ =~= lit@);
    }
    true
}

/// The number that `w` writes, if it is one of digits only, at most `max`.
fn parse_number(w: &Vec<char>, max: u32) -> (r: Option<u32>)
    ensures
        r matches Some(v) ==> number(w@, max as int) == Some(v as int),
        r is None ==> number(w@, max as int) is None,
{
    if w.len() == 0 {
        return None;
    }
    let mut v: u64 = 0;
    let mut i: usize = 0;
    while i < w.len()
        invariant
            i <= w.len(),
            v == decimal(w@.subrange(0, i as int)),
            v <= max,
            forall|k: int| 0 <= k < i ==> is_digit(#[trigger] w@[k]),
        decreases w.len() - i,
    {
        let c = w[i] as u32;
        proof {
            assert(w@.subrange(0, i + 1).drop_last() =~= w@.subrange(0, i as int));
        }
        if c < '0' as u32 || c > '9' as u32 {
            return None;
        }
        v = v * 10 + (c - '0' as u32) as u64;
        if v > max as u64 {
            proof {
                if forall|k: int| 0 <= k < w@.len() ==> is_digit(#[trigger] w@[k]) {
                    lemma_decimal_grows(w@, i as int + 1);
                }
            }
            return None;
        }
        i = i + 1;
    }
    proof {
        assert(w@.subrange(0, w@.len() as int) =~= w@);
    }
    Some(v as u32)
}

/// A run of digits is worth at least as much as each of its prefixes.
proof fn lemma_decimal_grows(w: Seq<char>, i: int)
    requires
        0 <= i <= w.len(),
        forall|k: int| 0 <= k < w.len() ==> is_digit(#[trigger] w[k]),
    ensures
        decimal(w) >= decimal(w.subrange(0, i)),
    decreases w.len(),
{
    if i == w.len() {
        assert(w.subrange(0, i) =~= w);
    } else {
        let d = w.drop_last();
        assert forall|k: int| 0 <= k < d.len() implies is_digit(#[trigger] d[k]) by {
            assert(d[k] == w[k]);
        }
        lemma_decimal_grows(d, i);
        assert(d.subrange(0, i) =~= w.subrange(0, i));
        lemma_decimal_nonneg(d);
        assert(is_digit(w[w.len() - 1]));
        assert(decimal(w) >= decimal(d)) by (nonlinear_arith)
            requires
                decimal(w) == decimal(d) * 10 + (w.last() as u32 - '0' as u32),
                decimal(d) >= 0,
                w.last() as u32 >= '0' as u32,
        ;
    }
}

proof fn lemma_decimal_nonneg(w: Seq<char>)
    requires
        forall|k: int| 0 <= k < w.len() ==> is_digit(#[trigger] w[k]),
    ensures
        decimal(w) >= 0,
    decreases w.len(),
{
    if w.len() > 0 {
        let d = w.drop_last();
        assert forall|k: int| 0 <= k < d.len() implies is_digit(#[trigger] d[k]) by {
            assert(d[k] == w[k]);
        }
        lemma_decimal_nonneg(d);
        assert(is_digit(w[w.len() - 1]));
    }
}

} // verus!
