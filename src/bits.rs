//! Facts about 64-bit bitboards.
use vstd::prelude::*;

verus! {

/// Whether bit `i` of `x` is set.
pub open spec fn has_bit(x: u64, i: u64) -> bool {
    i < 64 && (x >> i) & 1u64 == 1u64
}

/// The number of set bits of `x`.
pub open spec fn pop(x: u64) -> nat
    decreases x,
{
    if x == 0 {
        0
    } else {
        (x % 2) as nat + pop(x / 2)
    }
}

/// Relies on `u64::count_ones`: the number of ones in the binary representation.
#[verifier::external_body]
pub(crate) fn count_ones(x: u64) -> (r: u32)
    ensures
        r as nat == pop(x),
        r <= 64,
{
    x.count_ones()
}

/// Bit `i` of `x` is set exactly when `x` and the one-bit mask of `i` meet.
pub proof fn lemma_has_bit_mask(x: u64, i: u64)
    requires
        i < 64,
    ensures
        has_bit(x, i) <==> x & (1u64 << i) != 0,
        has_bit(x, i) <==> x & (1u64 << i) == (1u64 << i),
{
    assert((((x >> i) & 1u64 == 1u64) <==> x & (1u64 << i) != 0) && (((x >> i) & 1u64 == 1u64)
        <==> x & (1u64 << i) == (1u64 << i))) by (bit_vector)
        requires
            i < 64,
    ;
}

/// A nonzero word has its lowest set bit at its count of trailing zeros; a
/// word with a set bit is nonzero.
pub proof fn lemma_lowest_bit(x: u64, j: u64)
    ensures
        x != 0 ==> vstd::std_specs::bits::u64_trailing_zeros(x) < 64 && has_bit(
            x,
            vstd::std_specs::bits::u64_trailing_zeros(x) as u64,
        ),
        has_bit(x, j) ==> x != 0,
{
    vstd::std_specs::bits::axiom_u64_trailing_zeros(x);
    let t = vstd::std_specs::bits::u64_trailing_zeros(x) as u64;
    if x != 0 {
        assert(has_bit(x, t)) by (bit_vector)
            requires
                t < 64,
                (x >> t) & 1u64 == 1u64,
        ;
    }
    assert(has_bit(x, j) ==> x != 0) by (bit_vector);
}

/// A nonzero word has a set bit to count.
pub proof fn lemma_pop_positive(x: u64)
    requires
        x != 0,
    ensures
        pop(x) > 0,
    decreases x,
{
    if x % 2 == 0 {
        lemma_pop_positive(x / 2);
    }
}

/// Two distinct set bits make a count of at least two.
pub proof fn lemma_pop_two(x: u64, p: u64, q: u64)
    requires
        has_bit(x, p),
        has_bit(x, q),
        p != q,
    ensures
        pop(x) >= 2,
{
    let y = x & !(1u64 << p);
    assert(y & !x == 0 && y != x && has_bit(y, q)) by (bit_vector)
        requires
            y == x & !(1u64 << p),
            has_bit(x, p),
            has_bit(x, q),
            p != q,
    ;
    lemma_pop_subset(y, x);
    lemma_lowest_bit(y, q);
    lemma_pop_positive(y);
}

/// A subset has no more bits than its superset, and a proper subset fewer.
pub proof fn lemma_pop_subset(a: u64, b: u64)
    requires
        a & !b == 0,
    ensures
        pop(a) <= pop(b),
        a != b ==> pop(a) < pop(b),
    decreases b,
{
    if b == 0 {
        assert(a == 0) by (bit_vector)
            requires
                a & !b == 0,
                b == 0,
        ;
    } else {
        assert((a / 2) & !(b / 2) == 0 && a % 2 <= b % 2 && (a != b ==> (a / 2 != b / 2 || a
            % 2 != b % 2))) by (bit_vector)
            requires
                a & !b == 0,
        ;
        lemma_pop_subset(a / 2, b / 2);
        if a == 0 {
            if a != b {
                assert(pop(b) > 0 || pop(b / 2) > 0 || b % 2 == 1) by {
                    assert((a / 2 != b / 2 || a % 2 != b % 2));
                }
            }
        }
    }
}

} // verus!
