use vstd::prelude::*;
use crate::model::{Kind, Piece, Pieces};

verus! {

broadcast use vstd::array::group_array_axioms;

/// Fold one token into the packed key: five bits, four for the square (or
/// the captured sentinel) and one for the owner.
pub open spec fn code_step(enc: u64, p: Piece) -> u64 {
    let e1 = enc | (p.position as u64);
    let e2 = if p.owner {
        e1 | 16u64
    } else {
        e1
    };
    e2 << 5u64
}

/// The packed key after folding in the first `n` tokens.
pub open spec fn encode_upto(s: Seq<Piece>, n: int) -> u64
    decreases n,
{
    if n <= 0 {
        0u64
    } else {
        code_step(encode_upto(s, n - 1), s[n - 1])
    }
}

/// The transposition key of a position: five bits per token, one bit for the
/// side to move, and one bit each recording whether the two pawn-like slots
/// of the original setup are currently promoted.
pub open spec fn spec_encode(s: Seq<Piece>, turn: bool) -> u64 {
    let e = encode_upto(s, 8);
    let e1 = if turn {
        e | 1u64
    } else {
        e
    };
    let e2 = if s[3].kind == Kind::Hen {
        e1 | 2u64
    } else {
        e1
    };
    if s[7].kind == Kind::Hen {
        e2 | 4u64
    } else {
        e2
    }
}

/// Position encoder: packs the position and the side to move into one
/// 64-bit key, identical for identical states.
pub fn encode_pieces(pieces: &Pieces, turn: bool) -> (r: u64)
    ensures
        r == spec_encode(pieces@, turn),
{
    let mut encoding: u64 = 0;
    for i in 0..8
        invariant
            encoding == encode_upto(pieces@, i as int),
    {
        let p = pieces[i];
        encoding = encoding | (p.position as u64);
        if p.owner {
            encoding = encoding | 16u64;
        }
        encoding = encoding << 5u64;
    }
    if turn {
        encoding = encoding | 1u64;
    }
    if pieces[3].kind == Kind::Hen {
        encoding = encoding | 2u64;
    }
    if pieces[7].kind == Kind::Hen {
        encoding = encoding | 4u64;
    }
    encoding
}

/// The five-bit code of one token: its square (or the captured sentinel)
/// plus sixteen for the owner.
pub open spec fn code_of(p: Piece) -> int {
    p.position as int + if p.owner {
        16int
    } else {
        0int
    }
}

/// The packed key of the first `n` tokens read arithmetically: a base-32
/// number whose digits are the token codes.
pub open spec fn val_upto(s: Seq<Piece>, n: int) -> int
    decreases n,
{
    if n <= 0 {
        0
    } else {
        (val_upto(s, n - 1) + code_of(s[n - 1])) * 32
    }
}

/// The turn and promotion bits of the key, read arithmetically.
pub open spec fn extras_of(s: Seq<Piece>, turn: bool) -> int {
    (if turn {
        1int
    } else {
        0int
    }) + (if s[3].kind == Kind::Hen {
        2int
    } else {
        0int
    }) + (if s[7].kind == Kind::Hen {
        4int
    } else {
        0int
    })
}

pub open spec fn pow32(n: int) -> int
    decreases n,
{
    if n <= 0 {
        1
    } else {
        32 * pow32(n - 1)
    }
}

proof fn lemma_pow32_values()
    ensures
        pow32(1) == 32,
        pow32(2) == 0x400,
        pow32(3) == 0x8000,
        pow32(4) == 0x100000,
        pow32(5) == 0x2000000,
        pow32(6) == 0x40000000,
        pow32(7) == 0x800000000,
        pow32(8) == 0x10000000000,
        pow32(9) == 0x200000000000,
{
    assert(pow32(0) == 1);
    assert(pow32(1) == 32);
    assert(pow32(2) == 0x400);
    assert(pow32(3) == 0x8000);
    assert(pow32(4) == 0x100000);
    assert(pow32(5) == 0x2000000);
    assert(pow32(6) == 0x40000000);
    assert(pow32(7) == 0x800000000);
    assert(pow32(8) == 0x10000000000);
    assert(pow32(9) == 0x200000000000);
}

proof fn lemma_pow32_le9(n: int)
    requires
        0 <= n <= 9,
    ensures
        pow32(n) <= 0x200000000000,
{
    lemma_pow32_values();
    if n == 0 {
        assert(pow32(0) == 1);
    }
}

/// A nonnegative multiple of 32 has its five low bits clear.
proof fn lemma_low_bits_zero(e: u64, q: int)
    requires
        0 <= q,
        e == q * 32,
    ensures
        e & 31 == 0,
{
    assert(e % 32 == 0) by (nonlinear_arith)
        requires
            e == q * 32,
            0 <= q,
    ;
    assert(e & 31 == 0) by (bit_vector)
        requires
            e % 32 == 0,
    ;
}

/// The bit-packed key equals its arithmetic reading: each shift opens five
/// fresh low bits, so every or is a carry-free addition.
proof fn lemma_encode_upto_value(s: Seq<Piece>, n: int)
    requires
        0 <= n <= 8,
        forall|i: int| 0 <= i < 8 ==> (#[trigger] s[i]).position <= 12,
    ensures
        encode_upto(s, n) == val_upto(s, n),
        0 <= val_upto(s, n) <= pow32(n + 1) - 32,
    decreases n,
{
    lemma_pow32_values();
    if n > 0 {
        lemma_encode_upto_value(s, n - 1);
        let e = encode_upto(s, n - 1);
        let c = code_of(s[n - 1]);
        let pos = s[n - 1].position as u64;
        if n - 1 == 0 {
            lemma_low_bits_zero(e, 0);
        } else {
            lemma_encode_upto_value(s, n - 2);
            lemma_low_bits_zero(e, val_upto(s, n - 2) + code_of(s[n - 2]));
        }
        lemma_pow32_le9(n);
        assert(e <= 0x200000000000 - 32);
        let y: u64 = if s[n - 1].owner {
            (e | pos) | 16u64
        } else {
            e | pos
        };
        if s[n - 1].owner {
            assert((e | pos) | 16u64 == e + pos + 16) by (bit_vector)
                requires
                    e & 31 == 0,
                    pos < 16,
                    e <= 0x1FFFFFFFFFE0u64,
            ;
        } else {
            assert(e | pos == e + pos) by (bit_vector)
                requires
                    e & 31 == 0,
                    pos < 16,
                    e <= 0x1FFFFFFFFFE0u64,
            ;
        }
        assert(y == e + c);
        assert(y << 5u64 == y * 32) by (bit_vector)
            requires
                y < 0x400000000000u64,
        ;
        assert(encode_upto(s, n) == code_step(e, s[n - 1]));
        assert(code_step(e, s[n - 1]) == y << 5u64);
        assert(val_upto(s, n) == (val_upto(s, n - 1) + c) * 32);
    }
}

/// The whole key equals its arithmetic reading: the token digits in base 32
/// plus the turn and promotion bits in the low five bits.
proof fn lemma_spec_encode_value(s: Seq<Piece>, turn: bool)
    requires
        forall|i: int| 0 <= i < 8 ==> (#[trigger] s[i]).position <= 12,
    ensures
        spec_encode(s, turn) == val_upto(s, 8) + extras_of(s, turn),
        0 <= extras_of(s, turn) < 8,
{
    lemma_pow32_values();
    lemma_encode_upto_value(s, 8);
    lemma_encode_upto_value(s, 7);
    let e = encode_upto(s, 8);
    lemma_low_bits_zero(e, val_upto(s, 7) + code_of(s[7]));
    assert(e <= 0x200000000000 - 32);
    let hen3 = s[3].kind == Kind::Hen;
    let hen7 = s[7].kind == Kind::Hen;
    if turn {
        if hen3 {
            if hen7 {
                assert((((e | 1u64) | 2u64) | 4u64) == e + 7) by (bit_vector)
                    requires
                        e & 31 == 0,
                        e <= 0x1FFFFFFFFFE0u64,
                ;
            } else {
                assert(((e | 1u64) | 2u64) == e + 3) by (bit_vector)
                    requires
                        e & 31 == 0,
                        e <= 0x1FFFFFFFFFE0u64,
                ;
            }
        } else {
            if hen7 {
                assert(((e | 1u64) | 4u64) == e + 5) by (bit_vector)
                    requires
                        e & 31 == 0,
                        e <= 0x1FFFFFFFFFE0u64,
                ;
            } else {
                assert((e | 1u64) == e + 1) by (bit_vector)
                    requires
                        e & 31 == 0,
                        e <= 0x1FFFFFFFFFE0u64,
                ;
            }
        }
    } else {
        if hen3 {
            if hen7 {
                assert(((e | 2u64) | 4u64) == e + 6) by (bit_vector)
                    requires
                        e & 31 == 0,
                        e <= 0x1FFFFFFFFFE0u64,
                ;
            } else {
                assert((e | 2u64) == e + 2) by (bit_vector)
                    requires
                        e & 31 == 0,
                        e <= 0x1FFFFFFFFFE0u64,
                ;
            }
        } else {
            if hen7 {
                assert((e | 4u64) == e + 4) by (bit_vector)
                    requires
                        e & 31 == 0,
                        e <= 0x1FFFFFFFFFE0u64,
                ;
            }
        }
    }
}

/// Equal arithmetic keys have equal base-32 digits.
proof fn lemma_val_digits_equal(s1: Seq<Piece>, s2: Seq<Piece>, n: int)
    requires
        0 <= n <= 8,
        forall|i: int| 0 <= i < 8 ==> (#[trigger] s1[i]).position <= 12,
        forall|i: int| 0 <= i < 8 ==> (#[trigger] s2[i]).position <= 12,
        val_upto(s1, n) == val_upto(s2, n),
    ensures
        forall|i: int| 0 <= i < n ==> code_of(#[trigger] s1[i]) == code_of(s2[i]),
    decreases n,
{
    if n > 0 {
        let a1 = val_upto(s1, n - 1);
        let a2 = val_upto(s2, n - 1);
        let c1 = code_of(s1[n - 1]);
        let c2 = code_of(s2[n - 1]);
        assert((a1 + c1) * 32 == (a2 + c2) * 32);
        assert(a1 + c1 == a2 + c2);
        let q1: int = if n - 1 == 0 {
            0
        } else {
            val_upto(s1, n - 2) + code_of(s1[n - 2])
        };
        let q2: int = if n - 1 == 0 {
            0
        } else {
            val_upto(s2, n - 2) + code_of(s2[n - 2])
        };
        assert(a1 == q1 * 32);
        assert(a2 == q2 * 32);
        assert(q1 == q2 && c1 == c2) by (nonlinear_arith)
            requires
                q1 * 32 + c1 == q2 * 32 + c2,
                0 <= c1 < 32,
                0 <= c2 < 32,
        ;
        assert(a1 == a2);
        lemma_val_digits_equal(s1, s2, n - 1);
    }
}

/// The encoding is exactly collision-free over game positions. Token kinds
/// outside the two pawn-like slots never change during play, and those two
/// slots only cycle between the pawn-like and promoted kinds, which the two
/// promotion bits record; under that discipline, equal keys mean an equal
/// side to move and equal positions, so a transposition hit is never a
/// false match.
pub proof fn lemma_encode_injective(s1: Seq<Piece>, t1: bool, s2: Seq<Piece>, t2: bool)
    requires
        s1.len() == 8,
        s2.len() == 8,
        forall|i: int| 0 <= i < 8 ==> (#[trigger] s1[i]).position <= 12,
        forall|i: int| 0 <= i < 8 ==> (#[trigger] s2[i]).position <= 12,
        forall|i: int| 0 <= i < 8 && i != 3 && i != 7 ==> (#[trigger] s1[i]).kind == s2[i].kind,
        s1[3].kind == Kind::Chick || s1[3].kind == Kind::Hen,
        s1[7].kind == Kind::Chick || s1[7].kind == Kind::Hen,
        s2[3].kind == Kind::Chick || s2[3].kind == Kind::Hen,
        s2[7].kind == Kind::Chick || s2[7].kind == Kind::Hen,
        spec_encode(s1, t1) == spec_encode(s2, t2),
    ensures
        t1 == t2,
        s1 == s2,
{
    lemma_spec_encode_value(s1, t1);
    lemma_spec_encode_value(s2, t2);
    let x1 = extras_of(s1, t1);
    let x2 = extras_of(s2, t2);
    let q1 = val_upto(s1, 7) + code_of(s1[7]);
    let q2 = val_upto(s2, 7) + code_of(s2[7]);
    assert(val_upto(s1, 8) == q1 * 32);
    assert(val_upto(s2, 8) == q2 * 32);
    assert(q1 == q2 && x1 == x2) by (nonlinear_arith)
        requires
            q1 * 32 + x1 == q2 * 32 + x2,
            0 <= x1 < 8,
            0 <= x2 < 8,
    ;
    assert(val_upto(s1, 8) == val_upto(s2, 8));
    lemma_val_digits_equal(s1, s2, 8);
    assert(t1 == t2);
    assert(s1[3].kind == s2[3].kind);
    assert(s1[7].kind == s2[7].kind);
    assert forall|i: int| 0 <= i < 8 implies s1[i] == s2[i] by {
        assert(code_of(s1[i]) == code_of(s2[i]));
    }
    assert(s1 =~= s2);
}

} // verus!
