//! Facts about 32-bit words that the proofs use again and again.
use vstd::prelude::*;

verus! {

/// Identities of one word with zero, all ones and itself.
pub proof fn lemma_word(x: u32)
    ensures
        x & 0 == 0,
        0 & x == 0,
        x ^ 0 == x,
        0 ^ x == x,
        x & !0u32 == x,
        x & x == x,
        x & !x == 0,
        0 | x == x,
        x | 0 == x,
        x | x == x,
        x ^ x == 0,
        0 & !x == 0,
        (x ^ x) & 0 == 0,
{
    assert(x & 0 == 0 && 0 & x == 0 && x ^ 0 == x && 0 ^ x == x && x & !0u32 == x && x & x == x
        && x & !x == 0 && 0 | x == x && x | 0 == x && x | x == x && x ^ x == 0 && 0 & !x == 0 && (x ^ x)
        & 0 == 0) by (bit_vector);
}

/// Identities of two words, one of which is often a mask.
pub proof fn lemma_pair(a: u32, b: u32)
    ensures
        (a & b) & !b == 0,
        a & !b == 0 ==> a & b == a,
        a ^ (0 & b) == a,
        (a ^ a) & b == 0,
        a & 0 & !b == 0,
        0 ^ (a & 0) == 0,
        (a | b) ^ 0 == a | b,
        (a ^ 0) ^ b == a ^ b,
        a & !b == 0 ==> a & b & !0u32 == a && a & b & !b == 0,
        b & !(a | b) == 0,
        a ^ (0 & b & !0u32) == a,
        a ^ (0 & b & !b) == a,
        (a ^ b) ^ a == b,
{
    assert((a & b) & !b == 0 && (a & !b == 0 ==> a & b == a) && a ^ (0 & b) == a && (a ^ a) & b == 0
        && a & 0 & !b == 0 && 0 ^ (a & 0) == 0 && (a | b) ^ 0 == a | b && (a ^ 0) ^ b == a ^ b && (a
        & !b == 0 ==> a & b & !0u32 == a && a & b & !b == 0) && b & !(a | b) == 0 && a ^ (0 & b
        & !0u32) == a && a ^ (0 & b & !b) == a && (a ^ b) ^ a == b) by (bit_vector);
}

/// Masking commutes with clearing hidden bits, and clearing keeps a word inside a mask.
pub proof fn lemma_clear(d: u32, h: u32, m: u32)
    ensures
        (d & !h) & m == (d & m) & !(h & m),
        d & !m == 0 ==> (d & !h) & !m == 0,
{
    assert((d & !h) & m == (d & m) & !(h & m) && (d & !m == 0 ==> (d & !h) & !m == 0)) by (bit_vector);
}

/// Unions keep containment: if each part lies in its bound, so does the union.
pub proof fn lemma_union_in(u1: u32, u2: u32, v1: u32, v2: u32)
    ensures
        u1 & !u2 == 0 && v1 & !v2 == 0 ==> (u1 | v1) & !(u2 | v2) == 0,
{
    assert(u1 & !u2 == 0 && v1 & !v2 == 0 ==> (u1 | v1) & !(u2 | v2) == 0) by (bit_vector);
}

} // verus!
