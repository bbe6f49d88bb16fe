//! Move ordering: the legal moves sorted by their static evaluation.
use vstd::prelude::*;

use crate::bits::{has_bit, lemma_has_bit_mask};
use crate::board::Board;
use crate::color::Color;

verus! {

/// Whether `r` lists the squares of `bits` once each.
pub open spec fn lists_squares(r: Seq<u8>, bits: u64) -> bool {
    &&& forall|j: u8| j < 64 ==> (has_bit(bits, j as u64) <==> r.contains(j))
    &&& forall|k: int| 0 <= k < r.len() ==> r[k] < 64
    &&& r.no_duplicates()
}

/// Whether the moves of `r` come by descending evaluation for `color`, and
/// by ascending square among equal evaluations.
pub open spec fn by_evaluation(board: Board, color: Color, r: Seq<u8>) -> bool {
    forall|a: int, b: int|
        0 <= a < b < r.len() ==> board.evaluation(r[a] as int, color) > board.evaluation(
            r[b] as int,
            color,
        ) || (board.evaluation(r[a] as int, color) == board.evaluation(r[b] as int, color)
            && r[a] < r[b])
}

/// Whether `scores` descend, with `sqs` ascending among equal scores.
pub open spec fn sorted_pairs(scores: Seq<i16>, sqs: Seq<u8>) -> bool {
    forall|a: int, b: int|
        0 <= a < b < scores.len() ==> scores[a] > scores[b] || (scores[a] == scores[b] && sqs[a]
            < sqs[b])
}

/// The squares of `flippables`, best evaluation for `color` first; equal
/// evaluations keep ascending square order.
pub fn order_moves(board: Board, color: Color, flippables: u64) -> (r: Vec<u8>)
    ensures
        lists_squares(r@, flippables),
        by_evaluation(board, color, r@),
{
    let mut sqs: Vec<u8> = Vec::new();
    let mut scores: Vec<i16> = Vec::new();
    let mut s: u8 = 0;
    while s < 64
        invariant
            s <= 64,
            sqs.len() == scores.len(),
            forall|k: int| 0 <= k < sqs.len() ==> sqs@[k] < s,
            forall|k: int|
                0 <= k < sqs.len() ==> scores@[k] == board.evaluation(sqs@[k] as int, color),
            forall|j: u8| j < s ==> (has_bit(flippables, j as u64) <==> sqs@.contains(j)),
            sorted_pairs(scores@, sqs@),
            sqs@.no_duplicates(),
            forall|k: int| 0 <= k < sqs.len() ==> sqs@[k] < 64,
        decreases 64 - s,
    {
        proof {
            lemma_has_bit_mask(flippables, s as u64);
        }
        if flippables & (1u64 << (s as u64)) != 0 {
            let sc = board.score(s, color);
            let ghost old_sqs = sqs@;
            let ghost old_scores = scores@;
            let pos = insert_sorted(&mut sqs, &mut scores, s, sc);
            proof {
                old_sqs.insert_ensures(pos as int, s);
                old_scores.insert_ensures(pos as int, sc);
                assert forall|k: int| 0 <= k < sqs.len() implies sqs@[k] < s + 1
                    && scores@[k] == board.evaluation(sqs@[k] as int, color) by {
                    if k < pos {
                        assert(sqs@[k] == old_sqs[k] && scores@[k] == old_scores[k]);
                    } else if k > pos {
                        assert(sqs@[k] == old_sqs[k - 1] && scores@[k] == old_scores[k - 1]);
                    }
                }
                assert forall|j: u8| j < s + 1 implies (has_bit(flippables, j as u64)
                    <==> sqs@.contains(j)) by {
                    if j < s {
                        if old_sqs.contains(j) {
                            let k = choose|k: int| 0 <= k < old_sqs.len() && old_sqs[k] == j;
                            if k < pos {
                                assert(sqs@[k] == j);
                            } else {
                                assert(sqs@[k + 1] == j);
                            }
                        }
                        if sqs@.contains(j) {
                            let k = choose|k: int| 0 <= k < sqs@.len() && sqs@[k] == j;
                            if k < pos {
                                assert(old_sqs[k] == j);
                            } else {
                                assert(k != pos);
                                assert(old_sqs[k - 1] == j);
                            }
                        }
                    } else {
                        assert(sqs@[pos as int] == j);
                    }
                }
            }
        }
        s = s + 1;
    }
    proof {
        assert forall|j: u8| j < 64 implies (has_bit(flippables, j as u64) <==> sqs@.contains(
            j,
        )) by {}
        assert forall|a: int, b: int| 0 <= a < b < sqs.len() implies board.evaluation(
            sqs@[a] as int,
            color,
        ) > board.evaluation(sqs@[b] as int, color) || (board.evaluation(sqs@[a] as int, color)
            == board.evaluation(sqs@[b] as int, color) && sqs@[a] < sqs@[b]) by {
            assert(scores@[a] > scores@[b] || (scores@[a] == scores@[b] && sqs@[a] < sqs@[b]));
        }
    }
    sqs
}

/// Inserts `s` with its score `sc` after every entry that scores at least as
/// much, keeping `scores` descending.
fn insert_sorted(sqs: &mut Vec<u8>, scores: &mut Vec<i16>, s: u8, sc: i16) -> (pos: usize)
    requires
        old(sqs).len() == old(scores).len(),
        sorted_pairs(old(scores)@, old(sqs)@),
        forall|k: int| 0 <= k < old(sqs).len() ==> old(sqs)@[k] < s,
        old(sqs)@.no_duplicates(),
    ensures
        pos <= old(sqs).len(),
        final(sqs)@ == old(sqs)@.insert(pos as int, s),
        final(scores)@ == old(scores)@.insert(pos as int, sc),
        sorted_pairs(final(scores)@, final(sqs)@),
        final(sqs)@.no_duplicates(),
{
    let mut pos: usize = 0;
    while pos < scores.len() && scores[pos] >= sc
        invariant
            pos <= scores.len(),
            forall|k: int| 0 <= k < pos ==> scores@[k] >= sc,
        decreases scores.len() - pos,
    {
        pos = pos + 1;
    }
    let ghost old_sqs = sqs@;
    let ghost old_scores = scores@;
    sqs.insert(pos, s);
    scores.insert(pos, sc);
    proof {
        old_sqs.insert_ensures(pos as int, s);
        old_scores.insert_ensures(pos as int, sc);
        assert forall|a: int, b: int| 0 <= a < b < scores.len() implies scores@[a] > scores@[b]
            || (scores@[a] == scores@[b] && sqs@[a] < sqs@[b]) by {
            if pos < old_scores.len() {
                assert(old_scores[pos as int] < sc);
            }
            let oa = if a < pos {
                a
            } else {
                a - 1
            };
            let ob = if b < pos {
                b
            } else {
                b - 1
            };
            if a == pos {
                assert(scores@[b] == old_scores[ob]);
                if ob > pos {
                    assert(old_scores[pos as int] > old_scores[ob] || old_scores[pos as int]
                        == old_scores[ob]);
                }
            } else if b == pos {
                assert(scores@[a] == old_scores[oa] && sqs@[a] == old_sqs[oa]);
            } else {
                assert(scores@[a] == old_scores[oa] && sqs@[a] == old_sqs[oa]);
                assert(scores@[b] == old_scores[ob] && sqs@[b] == old_sqs[ob]);
            }
        }
        assert forall|a: int, b: int|
            0 <= a < sqs@.len() && 0 <= b < sqs@.len() && a != b implies sqs@[a] != sqs@[b] by {
            let oa = if a < pos {
                a
            } else {
                a - 1
            };
            let ob = if b < pos {
                b
            } else {
                b - 1
            };
            if a == pos {
                assert(sqs@[b] == old_sqs[ob]);
            } else if b == pos {
                assert(sqs@[a] == old_sqs[oa]);
            } else {
                assert(old_sqs[oa] != old_sqs[ob]);
            }
        }
    }
    pos
}

} // verus!
