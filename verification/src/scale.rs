//! Deterministic binary encoding primitives: little-endian 32-bit words and
//! the variable-length compact encoding of 32-bit counts.
//!
//! Every encoder is specified against a spec-level byte sequence, and every
//! decoder is total: it either returns the unique value whose encoding is a
//! prefix of the input at the given position, or reports that no value has
//! its encoding there.
use vstd::prelude::*;
use vstd::arithmetic::div_mod::lemma_fundamental_div_mod;
use vstd::arithmetic::div_mod::lemma_fundamental_div_mod_converse;
use vstd::arithmetic::div_mod::lemma_div_denominator;
use vstd::arithmetic::div_mod::lemma_div_is_ordered;

verus! {

/// The four little-endian base-256 digits of a 32-bit value.
pub open spec fn u32_le(x: int) -> Seq<u8> {
    seq![
        (x % 256) as u8,
        ((x / 256) % 256) as u8,
        ((x / 65536) % 256) as u8,
        ((x / 16777216) % 256) as u8,
    ]
}

/// Four bytes are the little-endian digits of exactly one 32-bit value.
pub proof fn lemma_u32_le_parts(b0: u8, b1: u8, b2: u8, b3: u8)
    ensures
        ({
            let x = b0 + 256 * b1 + 65536 * b2 + 16777216 * b3;
            0 <= x < 4294967296 && u32_le(x) == seq![b0, b1, b2, b3]
        }),
{
    let x: int = b0 + 256 * b1 + 65536 * b2 + 16777216 * b3;
    let q1: int = b1 + 256 * b2 + 65536 * b3;
    let q2: int = b2 + 256 * b3;
    lemma_fundamental_div_mod_converse(x, 256, q1, b0 as int);
    lemma_fundamental_div_mod_converse(q1, 256, q2, b1 as int);
    lemma_fundamental_div_mod_converse(q2, 256, b3 as int, b2 as int);
    lemma_div_denominator(x, 256, 256);
    lemma_div_denominator(x, 65536, 256);
    assert(u32_le(x) =~= seq![b0, b1, b2, b3]);
}

/// A 32-bit value is the weighted sum of its little-endian digits.
pub proof fn lemma_u32_le_reconstruct(x: int)
    requires
        0 <= x < 4294967296,
    ensures
        x == u32_le(x)[0] + 256 * u32_le(x)[1] + 65536 * u32_le(x)[2] + 16777216 * u32_le(x)[3],
{
    lemma_fundamental_div_mod(x, 256);
    lemma_fundamental_div_mod(x / 256, 256);
    lemma_fundamental_div_mod(x / 65536, 256);
    lemma_div_denominator(x, 256, 256);
    lemma_div_denominator(x, 65536, 256);
    lemma_div_is_ordered(x, 4294967295, 16777216);
}

/// No two 32-bit values share the same little-endian digits.
pub proof fn lemma_u32_le_injective(x: int, y: int)
    requires
        0 <= x < 4294967296,
        0 <= y < 4294967296,
        u32_le(x) == u32_le(y),
    ensures
        x == y,
{
    lemma_u32_le_reconstruct(x);
    lemma_u32_le_reconstruct(y);
    assert(u32_le(x)[0] == u32_le(y)[0]);
    assert(u32_le(x)[1] == u32_le(y)[1]);
    assert(u32_le(x)[2] == u32_le(y)[2]);
    assert(u32_le(x)[3] == u32_le(y)[3]);
}

/// Appends the four little-endian bytes of `x` to `out`.
pub fn write_u32_le(out: &mut Vec<u8>, x: u32)
    ensures
        final(out)@ == old(out)@ + u32_le(x as int),
{
    out.push((x % 256) as u8);
    out.push(((x / 256) % 256) as u8);
    out.push(((x / 65536) % 256) as u8);
    out.push(((x / 16777216) % 256) as u8);
    assert(out@ =~= old(out)@ + u32_le(x as int));
}

/// Reads the 32-bit value whose little-endian bytes stand at `pos`.
pub fn read_u32_le(s: &[u8], pos: usize) -> (r: u32)
    requires
        pos + 4 <= s@.len(),
    ensures
        u32_le(r as int) == s@.subrange(pos as int, pos as int + 4),
{
    let b0 = s[pos];
    let b1 = s[pos + 1];
    let b2 = s[pos + 2];
    let b3 = s[pos + 3];
    let r: u32 = b0 as u32 + 256 * (b1 as u32) + 65536 * (b2 as u32) + 16777216 * (b3 as u32);
    proof {
        lemma_u32_le_parts(b0, b1, b2, b3);
        assert(u32_le(r as int) =~= s@.subrange(pos as int, pos as int + 4));
    }
    r
}

/// Number of bytes in the compact encoding of `v`.
pub open spec fn compact_len(v: u32) -> int {
    if v < 64 {
        1
    } else if v < 16384 {
        2
    } else if v < 1073741824 {
        4
    } else {
        5
    }
}

/// The compact encoding of a 32-bit count: the two low bits of the first byte
/// select among a one-, two-, four- or five-byte form, and each value has
/// exactly one (the shortest) admissible form.
pub open spec fn compact_u32(v: u32) -> Seq<u8> {
    if v < 64 {
        seq![(v * 4) as u8]
    } else if v < 16384 {
        seq![((v * 4 + 1) % 256) as u8, ((v * 4 + 1) / 256) as u8]
    } else if v < 1073741824 {
        u32_le(v * 4 + 2)
    } else {
        seq![3u8] + u32_le(v as int)
    }
}

/// The compact encoding of `v` occupies `s[pos .. pos + compact_len(v)]`.
pub open spec fn compact_prefix_at(s: Seq<u8>, pos: int, v: u32) -> bool {
    &&& pos >= 0
    &&& pos + compact_len(v) <= s.len()
    &&& s.subrange(pos, pos + compact_len(v)) == compact_u32(v)
}

/// Shape of the compact encoding, branch by branch: its length, how its
/// bytes determine `v`, and the mode tag in the low two bits of its first
/// byte.
pub proof fn lemma_compact_shape(v: u32)
    ensures
        compact_u32(v).len() == compact_len(v),
        v < 64 ==> compact_u32(v)[0] == v * 4,
        64 <= v < 16384 ==> compact_u32(v)[0] == 4 * (v % 64) + 1 && compact_u32(v)[1] == v
            / 64,
        16384 <= v < 1073741824 ==> compact_u32(v) == u32_le(v * 4 + 2),
        v >= 1073741824 ==> compact_u32(v)[0] == 3 && compact_u32(v).subrange(1, 5) == u32_le(
            v as int,
        ),
        compact_u32(v)[0] % 4 == (if v < 64 {
            0int
        } else if v < 16384 {
            1int
        } else if v < 1073741824 {
            2int
        } else {
            3int
        }),
{
    if v < 64 {
        lemma_fundamental_div_mod_converse(v * 4, 4, v as int, 0);
    } else if v < 16384 {
        let x: int = v * 4 + 1;
        lemma_fundamental_div_mod(v as int, 64);
        assert(x == 256 * (v as int / 64) + (4 * (v as int % 64) + 1));
        lemma_fundamental_div_mod_converse(x, 256, v as int / 64, 4 * (v as int % 64) + 1);
        lemma_fundamental_div_mod_converse(
            4 * (v as int % 64) + 1,
            4,
            v as int % 64,
            1,
        );
        lemma_div_is_ordered(v as int, 16383, 64);
    } else if v < 1073741824 {
        let x: int = v * 4 + 2;
        lemma_fundamental_div_mod(v as int, 64);
        assert(x == 256 * (v as int / 64) + (4 * (v as int % 64) + 2));
        lemma_fundamental_div_mod_converse(x, 256, v as int / 64, 4 * (v as int % 64) + 2);
        lemma_fundamental_div_mod_converse(
            4 * (v as int % 64) + 2,
            4,
            v as int % 64,
            2,
        );
        assert(compact_u32(v)[0] == (x % 256) as u8);
    } else {
        assert(compact_u32(v).subrange(1, 5) =~= u32_le(v as int));
    }
}

/// At most one value has its compact encoding at a given position.
pub proof fn lemma_compact_prefix_unique(s: Seq<u8>, pos: int, v1: u32, v2: u32)
    requires
        compact_prefix_at(s, pos, v1),
        compact_prefix_at(s, pos, v2),
    ensures
        v1 == v2,
{
    lemma_compact_shape(v1);
    lemma_compact_shape(v2);
    assert(compact_u32(v1)[0] == s.subrange(pos, pos + compact_len(v1))[0]);
    assert(compact_u32(v2)[0] == s.subrange(pos, pos + compact_len(v2))[0]);
    assert(compact_u32(v1)[0] == s[pos]);
    assert(compact_u32(v2)[0] == s[pos]);
    if v1 < 64 {
        assert(v2 < 64);
        assert(v1 * 4 == v2 * 4);
    } else if v1 < 16384 {
        assert(64 <= v2 < 16384);
        assert(compact_u32(v1)[1] == s[pos + 1]);
        assert(compact_u32(v2)[1] == s[pos + 1]);
        assert(v1 % 64 == v2 % 64);
        assert(v1 / 64 == v2 / 64);
        lemma_fundamental_div_mod(v1 as int, 64);
        lemma_fundamental_div_mod(v2 as int, 64);
    } else if v1 < 1073741824 {
        assert(16384 <= v2 < 1073741824);
        assert(compact_u32(v1) =~= compact_u32(v2));
        lemma_u32_le_injective(v1 * 4 + 2, v2 * 4 + 2);
    } else {
        assert(v2 >= 1073741824);
        assert forall|i: int| 0 <= i < 5 implies compact_u32(v1)[i] == compact_u32(v2)[i] by {
            assert(compact_u32(v1)[i] == s.subrange(pos, pos + 5)[i]);
            assert(compact_u32(v2)[i] == s.subrange(pos, pos + 5)[i]);
        }
        assert(compact_u32(v1).subrange(1, 5) =~= compact_u32(v2).subrange(1, 5));
        lemma_u32_le_injective(v1 as int, v2 as int);
    }
}

/// Appends the compact encoding of `v` to `out`.
pub fn write_compact_u32(out: &mut Vec<u8>, v: u32)
    ensures
        final(out)@ == old(out)@ + compact_u32(v),
{
    if v < 64 {
        out.push((v * 4) as u8);
        assert(out@ =~= old(out)@ + compact_u32(v));
    } else if v < 16384 {
        let x: u32 = v * 4 + 1;
        out.push((x % 256) as u8);
        out.push((x / 256) as u8);
        assert(out@ =~= old(out)@ + compact_u32(v));
    } else if v < 1073741824 {
        write_u32_le(out, v * 4 + 2);
        assert(out@ =~= old(out)@ + compact_u32(v));
    } else {
        out.push(3);
        write_u32_le(out, v);
        assert(out@ =~= old(out)@ + compact_u32(v));
    }
}

/// Reads the one value whose compact encoding stands at `pos`, with the
/// count of bytes it occupies; `None` exactly when no value's compact
/// encoding stands there.
pub fn read_compact_u32(s: &[u8], pos: usize) -> (r: Option<(u32, usize)>)
    requires
        pos <= s@.len(),
    ensures
        match r {
            Some(p) => compact_prefix_at(s@, pos as int, p.0) && p.1 == compact_len(p.0),
            None => forall|v: u32| !compact_prefix_at(s@, pos as int, v),
        },
{
    let ghost posi = pos as int;
    if pos >= s.len() {
        assert forall|v: u32| !compact_prefix_at(s@, posi, v) by {
            lemma_compact_shape(v);
        }
        return None;
    }
    let b0 = s[pos];
    let m = b0 % 4;
    if m == 0 {
        let v: u32 = (b0 / 4) as u32;
        proof {
            lemma_fundamental_div_mod(b0 as int, 4);
            lemma_compact_shape(v);
            assert(s@.subrange(posi, posi + 1) =~= compact_u32(v));
        }
        Some((v, 1))
    } else if m == 1 {
        if s.len() - pos < 2 {
            assert forall|v: u32| !compact_prefix_at(s@, posi, v) by {
                if compact_prefix_at(s@, posi, v) {
                    lemma_compact_shape(v);
                    assert(compact_u32(v)[0] == s@.subrange(posi, posi + compact_len(v))[0]);
                    assert(compact_u32(v)[0] == s@[posi]);
                }
            }
            return None;
        }
        let b1 = s[pos + 1];
        let v: u32 = (b0 as u32) / 4 + 64 * (b1 as u32);
        proof {
            lemma_fundamental_div_mod(b0 as int, 4);
            lemma_fundamental_div_mod_converse(
                v as int,
                64,
                b1 as int,
                b0 as int / 4,
            );
        }
        if v < 64 {
            assert forall|w: u32| !compact_prefix_at(s@, posi, w) by {
                if compact_prefix_at(s@, posi, w) {
                    lemma_compact_shape(w);
                    assert(compact_u32(w)[0] == s@.subrange(posi, posi + compact_len(w))[0]);
                    assert(compact_u32(w)[0] == s@[posi]);
                    assert(64 <= w < 16384);
                    assert(compact_u32(w)[1] == s@.subrange(posi, posi + 2)[1]);
                    assert(compact_u32(w)[1] == s@[posi + 1]);
                    assert(4 * (w as int % 64) + 1 == b0);
                    lemma_fundamental_div_mod_converse(
                        b0 as int,
                        4,
                        w as int % 64,
                        1,
                    );
                    assert(w as int % 64 == b0 as int / 4);
                    assert(w as int / 64 == b1);
                    lemma_fundamental_div_mod(w as int, 64);
                    assert(w == v);
                    assert(false);
                }
            }
            None
        } else {
            proof {
                lemma_compact_shape(v);
                assert(v < 16384);
                assert(v as int % 64 == b0 as int / 4);
                assert(v as int / 64 == b1);
                assert(compact_u32(v)[0] == b0);
                assert(compact_u32(v)[1] == b1);
                assert(s@.subrange(posi, posi + 2) =~= compact_u32(v));
            }
            Some((v, 2))
        }
    } else if m == 2 {
        if s.len() - pos < 4 {
            assert forall|v: u32| !compact_prefix_at(s@, posi, v) by {
                if compact_prefix_at(s@, posi, v) {
                    lemma_compact_shape(v);
                    assert(compact_u32(v)[0] == s@.subrange(posi, posi + compact_len(v))[0]);
                    assert(compact_u32(v)[0] == s@[posi]);
                }
            }
            return None;
        }
        let x = read_u32_le(s, pos);
        proof {
            lemma_u32_le_reconstruct(x as int);
            assert(u32_le(x as int)[0] == s@.subrange(posi, posi + 4)[0]);
            assert(u32_le(x as int)[0] == s@[posi]);
            assert(x as int % 256 == b0);
            lemma_fundamental_div_mod(x as int, 256);
            lemma_fundamental_div_mod(b0 as int, 4);
            // x == 4 * (64 * (x / 256) + b0 / 4) + 2
            lemma_fundamental_div_mod_converse(
                x as int,
                4,
                64 * (x as int / 256) + b0 as int / 4,
                2,
            );
        }
        let v: u32 = x / 4;
        if v < 16384 {
            assert forall|w: u32| !compact_prefix_at(s@, posi, w) by {
                if compact_prefix_at(s@, posi, w) {
                    lemma_compact_shape(w);
                    assert(compact_u32(w)[0] == s@.subrange(posi, posi + compact_len(w))[0]);
                    assert(compact_u32(w)[0] == s@[posi]);
                    assert(16384 <= w < 1073741824);
                    assert(compact_u32(w) =~= s@.subrange(posi, posi + 4));
                    lemma_u32_le_injective(w * 4 + 2, x as int);
                    assert(false);
                }
            }
            None
        } else {
            proof {
                lemma_compact_shape(v);
                assert(v * 4 + 2 == x);
                assert(compact_u32(v) == u32_le(x as int));
                assert(s@.subrange(posi, posi + 4) =~= u32_le(x as int));
            }
            Some((v, 4))
        }
    } else {
        if b0 != 3 || s.len() - pos < 5 {
            assert forall|v: u32| !compact_prefix_at(s@, posi, v) by {
                if compact_prefix_at(s@, posi, v) {
                    lemma_compact_shape(v);
                    assert(compact_u32(v)[0] == s@.subrange(posi, posi + compact_len(v))[0]);
                    assert(compact_u32(v)[0] == s@[posi]);
                }
            }
            return None;
        }
        let x = read_u32_le(s, pos + 1);
        if x < 1073741824 {
            assert forall|w: u32| !compact_prefix_at(s@, posi, w) by {
                if compact_prefix_at(s@, posi, w) {
                    lemma_compact_shape(w);
                    assert(compact_u32(w)[0] == s@.subrange(posi, posi + compact_len(w))[0]);
                    assert(compact_u32(w)[0] == s@[posi]);
                    assert(w >= 1073741824);
                    assert forall|i: int| 0 <= i < 4 implies compact_u32(w).subrange(1, 5)[i]
                        == u32_le(x as int)[i] by {
                        assert(compact_u32(w)[i + 1] == s@.subrange(posi, posi + 5)[i + 1]);
                        assert(u32_le(x as int)[i] == s@.subrange(posi + 1, posi + 5)[i]);
                    }
                    assert(compact_u32(w).subrange(1, 5) =~= u32_le(x as int));
                    lemma_u32_le_injective(w as int, x as int);
                    assert(false);
                }
            }
            None
        } else {
            proof {
                lemma_compact_shape(x);
                assert forall|i: int| 0 <= i < 5 implies s@.subrange(posi, posi + 5)[i]
                    == compact_u32(x)[i] by {
                    if i == 0 {
                        assert(compact_u32(x)[0] == 3);
                    } else {
                        assert(compact_u32(x).subrange(1, 5)[i - 1] == compact_u32(x)[i]);
                        assert(u32_le(x as int)[i - 1] == s@.subrange(posi + 1, posi + 5)[i - 1]);
                    }
                }
                assert(s@.subrange(posi, posi + 5) =~= compact_u32(x));
            }
            Some((x, 5))
        }
    }
}

} // verus!
