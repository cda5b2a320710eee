//! The session key bundle codec: a bundle is a concatenation of
//! self-describing records, each a four-byte key-type tag followed by a
//! length-delimited public key payload.
//!
//! `decode_session_keys` is total: every byte sequence either is the encoding
//! of exactly one bundle, which is returned, or of none, and `None` is
//! returned. Together with `encode_session_keys` this yields the round-trip
//! law `decode(encode(k)) == Some(k)` (see `lemma_decode_encode_round_trip`).
use vstd::prelude::*;
use crate::scale::compact_u32;
use crate::scale::compact_len;
use crate::scale::compact_prefix_at;
use crate::scale::lemma_compact_shape;
use crate::scale::lemma_compact_prefix_unique;
use crate::scale::read_compact_u32;
use crate::scale::write_compact_u32;

verus! {

/// A fixed-width tag distinguishing cryptographic key roles within one
/// validator's bundle of session keys.
#[derive(Clone, Copy, Debug, PartialEq, Eq, Hash)]
pub struct KeyTypeId(pub [u8; 4]);

impl View for KeyTypeId {
    type V = Seq<u8>;

    open spec fn view(&self) -> Seq<u8> {
        self.0@
    }
}

/// A payload can be length-delimited only if its length has a compact form.
pub open spec fn bytes_wf(b: Seq<u8>) -> bool {
    b.len() < 4294967296
}

/// Length-delimited encoding of a byte string.
pub open spec fn bytes_enc(b: Seq<u8>) -> Seq<u8> {
    compact_u32(b.len() as u32) + b
}

/// The length-delimited encoding of `b` occupies `s` at `pos`.
pub open spec fn bytes_prefix_at(s: Seq<u8>, pos: int, b: Seq<u8>) -> bool {
    &&& pos >= 0
    &&& pos + bytes_enc(b).len() <= s.len()
    &&& s.subrange(pos, pos + bytes_enc(b).len()) == bytes_enc(b)
}

/// A record pairs a raw public key payload with its key-type tag.
pub open spec fn rec_wf(r: (Seq<u8>, Seq<u8>)) -> bool {
    &&& r.1.len() == 4
    &&& bytes_wf(r.0)
}

/// A record encodes as its tag followed by its length-delimited payload.
pub open spec fn rec_enc(r: (Seq<u8>, Seq<u8>)) -> Seq<u8> {
    r.1 + bytes_enc(r.0)
}

/// The encoding of record `r` occupies `s` at `pos`.
pub open spec fn rec_prefix_at(s: Seq<u8>, pos: int, r: (Seq<u8>, Seq<u8>)) -> bool {
    &&& pos >= 0
    &&& pos + rec_enc(r).len() <= s.len()
    &&& s.subrange(pos, pos + rec_enc(r).len()) == rec_enc(r)
}

/// The mathematical content of an executable key bundle.
pub open spec fn keys_view(ks: Seq<(Vec<u8>, KeyTypeId)>) -> Seq<(Seq<u8>, Seq<u8>)> {
    ks.map_values(|p: (Vec<u8>, KeyTypeId)| (p.0@, p.1@))
}

/// Every record of the bundle is well formed.
pub open spec fn bundle_wf(m: Seq<(Seq<u8>, Seq<u8>)>) -> bool {
    forall|i: int| 0 <= i < m.len() ==> rec_wf(#[trigger] m[i])
}

/// A bundle encodes as the plain concatenation of its records' encodings;
/// the empty bundle encodes as the empty byte sequence.
pub open spec fn bundle_enc(m: Seq<(Seq<u8>, Seq<u8>)>) -> Seq<u8>
    decreases m.len(),
{
    if m.len() == 0 {
        Seq::empty()
    } else {
        rec_enc(m[0]) + bundle_enc(m.drop_first())
    }
}

/// Appending one record appends its encoding.
pub proof fn lemma_bundle_enc_push(m: Seq<(Seq<u8>, Seq<u8>)>, r: (Seq<u8>, Seq<u8>))
    ensures
        bundle_enc(m.push(r)) == bundle_enc(m) + rec_enc(r),
    decreases m.len(),
{
    if m.len() == 0 {
        assert(m.push(r).drop_first() =~= m);
        assert(bundle_enc(m.push(r)) =~= bundle_enc(m) + rec_enc(r));
    } else {
        assert(m.push(r).drop_first() =~= m.drop_first().push(r));
        lemma_bundle_enc_push(m.drop_first(), r);
        assert(bundle_enc(m.push(r)) =~= bundle_enc(m) + rec_enc(r));
    }
}

/// At most one byte string has its length-delimited encoding at a position.
pub proof fn lemma_bytes_prefix_unique(s: Seq<u8>, pos: int, b1: Seq<u8>, b2: Seq<u8>)
    requires
        bytes_wf(b1),
        bytes_wf(b2),
        bytes_prefix_at(s, pos, b1),
        bytes_prefix_at(s, pos, b2),
    ensures
        b1 == b2,
{
    let n1 = b1.len() as u32;
    let n2 = b2.len() as u32;
    lemma_compact_shape(n1);
    lemma_compact_shape(n2);
    assert forall|i: int| 0 <= i < compact_len(n1) implies s[pos + i] == compact_u32(n1)[i] by {
        assert(bytes_enc(b1)[i] == s.subrange(pos, pos + bytes_enc(b1).len())[i]);
    }
    assert(s.subrange(pos, pos + compact_len(n1)) =~= compact_u32(n1));
    assert forall|i: int| 0 <= i < compact_len(n2) implies s[pos + i] == compact_u32(n2)[i] by {
        assert(bytes_enc(b2)[i] == s.subrange(pos, pos + bytes_enc(b2).len())[i]);
    }
    assert(s.subrange(pos, pos + compact_len(n2)) =~= compact_u32(n2));
    lemma_compact_prefix_unique(s, pos, n1, n2);
    let cl = compact_len(n1);
    assert forall|i: int| 0 <= i < b1.len() implies b1[i] == b2[i] by {
        assert(bytes_enc(b1)[cl + i] == s.subrange(pos, pos + bytes_enc(b1).len())[cl + i]);
        assert(bytes_enc(b2)[cl + i] == s.subrange(pos, pos + bytes_enc(b2).len())[cl + i]);
    }
    assert(b1 =~= b2);
}

/// At most one record has its encoding at a position.
pub proof fn lemma_rec_prefix_unique(
    s: Seq<u8>,
    pos: int,
    r1: (Seq<u8>, Seq<u8>),
    r2: (Seq<u8>, Seq<u8>),
)
    requires
        rec_wf(r1),
        rec_wf(r2),
        rec_prefix_at(s, pos, r1),
        rec_prefix_at(s, pos, r2),
    ensures
        r1 == r2,
{
    assert forall|i: int| 0 <= i < 4 implies r1.1[i] == s[pos + i] && r2.1[i] == s[pos + i] by {
        assert(rec_enc(r1)[i] == s.subrange(pos, pos + rec_enc(r1).len())[i]);
        assert(rec_enc(r2)[i] == s.subrange(pos, pos + rec_enc(r2).len())[i]);
    }
    assert(r1.1 =~= r2.1);
    assert forall|i: int| 0 <= i < bytes_enc(r1.0).len() implies s[pos + 4 + i] == bytes_enc(
        r1.0,
    )[i] by {
        assert(rec_enc(r1)[4 + i] == s.subrange(pos, pos + rec_enc(r1).len())[4 + i]);
    }
    assert(s.subrange(pos + 4, pos + 4 + bytes_enc(r1.0).len()) =~= bytes_enc(r1.0));
    assert(bytes_prefix_at(s, pos + 4, r1.0));
    assert forall|i: int| 0 <= i < bytes_enc(r2.0).len() implies s[pos + 4 + i] == bytes_enc(
        r2.0,
    )[i] by {
        assert(rec_enc(r2)[4 + i] == s.subrange(pos, pos + rec_enc(r2).len())[4 + i]);
    }
    assert(s.subrange(pos + 4, pos + 4 + bytes_enc(r2.0).len()) =~= bytes_enc(r2.0));
    assert(bytes_prefix_at(s, pos + 4, r2.0));
    lemma_bytes_prefix_unique(s, pos + 4, r1.0, r2.0);
}

/// If one bundle's encoding extends another's, the longer bundle begins with
/// the shorter one, record for record, and its remaining records encode the
/// remaining bytes.
pub proof fn lemma_bundle_extend(
    acc: Seq<(Seq<u8>, Seq<u8>)>,
    m: Seq<(Seq<u8>, Seq<u8>)>,
    tail: Seq<u8>,
)
    requires
        bundle_wf(acc),
        bundle_wf(m),
        bundle_enc(m) == bundle_enc(acc) + tail,
    ensures
        m.len() >= acc.len(),
        m.subrange(0, acc.len() as int) == acc,
        bundle_enc(m.subrange(acc.len() as int, m.len() as int)) == tail,
    decreases acc.len(),
{
    if acc.len() == 0 {
        assert(bundle_enc(m) =~= tail);
        assert(m.subrange(0, 0) =~= acc);
        assert(m.subrange(0, m.len() as int) =~= m);
    } else {
        let s = bundle_enc(m);
        assert(rec_enc(acc[0]).len() >= 5);
        assert(s.len() > 0);
        assert(m.len() > 0);
        assert(rec_wf(m[0]));
        assert(rec_wf(acc[0]));
        // both m[0] and acc[0] have their record encoding at position 0 of s
        let lm = rec_enc(m[0]).len() as int;
        let la = rec_enc(acc[0]).len() as int;
        assert(s == rec_enc(m[0]) + bundle_enc(m.drop_first()));
        assert(s == rec_enc(acc[0]) + (bundle_enc(acc.drop_first()) + tail));
        assert forall|i: int| 0 <= i < lm implies s[i] == rec_enc(m[0])[i] by {}
        assert(s.subrange(0, lm) =~= rec_enc(m[0]));
        assert(rec_prefix_at(s, 0, m[0]));
        assert forall|i: int| 0 <= i < la implies s[i] == rec_enc(acc[0])[i] by {}
        assert(s.subrange(0, la) =~= rec_enc(acc[0]));
        assert(rec_prefix_at(s, 0, acc[0]));
        lemma_rec_prefix_unique(s, 0, m[0], acc[0]);
        assert(m[0] == acc[0]);
        assert(lm == la);
        assert forall|i: int| 0 <= i < bundle_enc(m.drop_first()).len() implies bundle_enc(
            m.drop_first(),
        )[i] == (bundle_enc(acc.drop_first()) + tail)[i] by {
            assert((rec_enc(m[0]) + bundle_enc(m.drop_first()))[lm + i] == bundle_enc(
                m.drop_first(),
            )[i]);
            assert((rec_enc(acc[0]) + (bundle_enc(acc.drop_first()) + tail))[la + i] == (bundle_enc(
                acc.drop_first(),
            ) + tail)[i]);
        }
        assert(bundle_enc(m.drop_first()) =~= bundle_enc(acc.drop_first()) + tail);
        assert(bundle_wf(m.drop_first())) by {
            assert(forall|i: int|
                0 <= i < m.drop_first().len() ==> #[trigger] m.drop_first()[i] == m[i + 1]);
        }
        assert(bundle_wf(acc.drop_first())) by {
            assert(forall|i: int|
                0 <= i < acc.drop_first().len() ==> #[trigger] acc.drop_first()[i] == acc[i + 1]);
        }
        lemma_bundle_extend(acc.drop_first(), m.drop_first(), tail);
        assert(m.subrange(0, acc.len() as int) =~= acc) by {
            assert(forall|i: int|
                1 <= i < acc.len() ==> #[trigger] m[i] == m.drop_first()[i - 1]
                    && m.drop_first().subrange(0, acc.drop_first().len() as int)[i - 1]
                    == m.drop_first()[i - 1] && acc.drop_first()[i - 1] == acc[i]);
        }
        assert(m.subrange(acc.len() as int, m.len() as int) =~= m.drop_first().subrange(
            acc.drop_first().len() as int,
            m.drop_first().len() as int,
        ));
    }
}

/// Round-trip law: two well-formed bundles with the same encoding are the
/// same bundle. Together with the contracts of `encode_session_keys` and
/// `decode_session_keys`, decoding an encoded bundle reproduces it exactly,
/// element for element, in its original order.
pub proof fn lemma_decode_encode_round_trip(
    k: Seq<(Seq<u8>, Seq<u8>)>,
    d: Seq<(Seq<u8>, Seq<u8>)>,
)
    requires
        bundle_wf(k),
        bundle_wf(d),
        bundle_enc(d) == bundle_enc(k),
    ensures
        d == k,
{
    assert(bundle_enc(d) == bundle_enc(k) + Seq::<u8>::empty()) by {
        assert(bundle_enc(k) + Seq::<u8>::empty() =~= bundle_enc(k));
    }
    lemma_bundle_extend(k, d, Seq::empty());
    let rest = d.subrange(k.len() as int, d.len() as int);
    if rest.len() > 0 {
        assert(rec_wf(d[k.len() as int]));
        assert(rec_enc(rest[0]).len() >= 5);
        assert(bundle_enc(rest).len() > 0);
    }
    assert(d =~= d.subrange(0, k.len() as int));
}

/// No bundle encodes `blob` when a parse that consumed `blob` up to `pos`
/// finds no record encoded there.
proof fn lemma_bundle_no_parse(acc: Seq<(Seq<u8>, Seq<u8>)>, blob: Seq<u8>, pos: int)
    requires
        bundle_wf(acc),
        0 <= pos < blob.len(),
        bundle_enc(acc) == blob.subrange(0, pos),
        forall|rr: (Seq<u8>, Seq<u8>)| rec_wf(rr) ==> !rec_prefix_at(blob, pos, rr),
    ensures
        forall|m: Seq<(Seq<u8>, Seq<u8>)>| bundle_wf(m) ==> bundle_enc(m) != blob,
{
    assert forall|m: Seq<(Seq<u8>, Seq<u8>)>| bundle_wf(m) implies bundle_enc(m) != blob by {
        if bundle_enc(m) == blob {
            let tail = blob.subrange(pos, blob.len() as int);
            assert(bundle_enc(m) == bundle_enc(acc) + tail) by {
                assert(blob =~= blob.subrange(0, pos) + blob.subrange(pos, blob.len() as int));
            }
            lemma_bundle_extend(acc, m, tail);
            let rest = m.subrange(acc.len() as int, m.len() as int);
            assert(bundle_enc(rest) == tail);
            assert(tail.len() > 0);
            assert(rest.len() > 0);
            let r0 = rest[0];
            assert(rec_wf(m[acc.len() as int]));
            assert(rec_wf(r0));
            let l0 = rec_enc(r0).len();
            assert(tail == rec_enc(r0) + bundle_enc(rest.drop_first()));
            assert forall|i: int| 0 <= i < l0 implies blob[pos + i] == rec_enc(r0)[i] by {
                assert(tail[i] == rec_enc(r0)[i]);
            }
            assert(blob.subrange(pos, pos + l0) =~= rec_enc(r0));
            assert(rec_prefix_at(blob, pos, r0));
            assert(false);
        }
    }
}

/// Copies `s[from .. to]` into a fresh vector.
fn copy_range(s: &[u8], from: usize, to: usize) -> (r: Vec<u8>)
    requires
        from <= to <= s@.len(),
    ensures
        r@ == s@.subrange(from as int, to as int),
{
    let mut r: Vec<u8> = Vec::new();
    let mut i: usize = from;
    while i < to
        invariant
            from <= i <= to <= s@.len(),
            r@ == s@.subrange(from as int, i as int),
        decreases to - i,
    {
        r.push(s[i]);
        assert(r@ =~= s@.subrange(from as int, i + 1));
        i += 1;
    }
    r
}

/// Appends all of `b` to `out`.
fn append_bytes(out: &mut Vec<u8>, b: &Vec<u8>)
    ensures
        final(out)@ == old(out)@ + b@,
{
    let mut i: usize = 0;
    while i < b.len()
        invariant
            i <= b@.len(),
            out@ == old(out)@ + b@.subrange(0, i as int),
        decreases b@.len() - i,
    {
        out.push(b[i]);
        assert(out@ =~= old(out)@ + b@.subrange(0, i + 1));
        i += 1;
    }
    assert(out@ =~= old(out)@ + b@);
}

/// Appends the length-delimited encoding of `b` to `out`.
pub(crate) fn write_byte_string(out: &mut Vec<u8>, b: &Vec<u8>)
    requires
        b@.len() < 4294967296,
    ensures
        final(out)@ == old(out)@ + bytes_enc(b@),
{
    write_compact_u32(out, b.len() as u32);
    append_bytes(out, b);
    assert(out@ =~= old(out)@ + bytes_enc(b@));
}

/// Reads the one length-delimited byte string encoded at `pos`, with the
/// count of bytes its encoding occupies.
pub(crate) fn read_bytes(s: &[u8], pos: usize) -> (r: Option<(Vec<u8>, usize)>)
    requires
        pos <= s@.len(),
    ensures
        match r {
            Some(p) => bytes_wf(p.0@) && p.1 == bytes_enc(p.0@).len() && pos + p.1 <= s@.len()
                && s@.subrange(pos as int, pos as int + p.1) == bytes_enc(p.0@),
            None => forall|b: Seq<u8>| bytes_wf(b) ==> !bytes_prefix_at(s@, pos as int, b),
        },
{
    let ghost posi = pos as int;
    match read_compact_u32(s, pos) {
        None => {
            assert forall|b: Seq<u8>| bytes_wf(b) implies !bytes_prefix_at(s@, posi, b) by {
                if bytes_prefix_at(s@, posi, b) {
                    let n0 = b.len() as u32;
                    lemma_compact_shape(n0);
                    assert forall|i: int| 0 <= i < compact_len(n0) implies s@[posi + i]
                        == compact_u32(n0)[i] by {
                        assert(bytes_enc(b)[i] == s@.subrange(
                            posi,
                            posi + bytes_enc(b).len(),
                        )[i]);
                    }
                    assert(s@.subrange(posi, posi + compact_len(n0)) =~= compact_u32(n0));
                    assert(compact_prefix_at(s@, posi, n0));
                    assert(false);
                }
            }
            None
        },
        Some((n, cl)) => {
            let slen = s.len();
            proof {
                lemma_compact_shape(n);
                assert(pos as int + compact_len(n) <= slen as int);
            }
            let pos2 = pos + cl;
            if s.len() - pos2 < n as usize {
                assert forall|b: Seq<u8>| bytes_wf(b) implies !bytes_prefix_at(s@, posi, b) by {
                    if bytes_prefix_at(s@, posi, b) {
                        let n0 = b.len() as u32;
                        lemma_compact_shape(n0);
                        assert forall|i: int| 0 <= i < compact_len(n0) implies s@[posi + i]
                            == compact_u32(n0)[i] by {
                            assert(bytes_enc(b)[i] == s@.subrange(
                                posi,
                                posi + bytes_enc(b).len(),
                            )[i]);
                        }
                        assert(s@.subrange(posi, posi + compact_len(n0)) =~= compact_u32(n0));
                        assert(compact_prefix_at(s@, posi, n0));
                        lemma_compact_prefix_unique(s@, posi, n0, n);
                        assert(false);
                    }
                }
                None
            } else {
                let out = copy_range(s, pos2, pos2 + n as usize);
                proof {
                    assert(out@.len() == n);
                    assert forall|i: int|
                        0 <= i < bytes_enc(out@).len() implies s@.subrange(
                        posi,
                        posi + bytes_enc(out@).len(),
                    )[i] == bytes_enc(out@)[i] by {
                        if i < cl {
                            assert(compact_u32(n)[i] == s@.subrange(
                                posi,
                                posi + compact_len(n),
                            )[i]);
                        } else {
                            assert(out@[i - cl] == s@.subrange(
                                pos2 as int,
                                pos2 + n as int,
                            )[i - cl]);
                        }
                    }
                    assert(s@.subrange(posi, posi + bytes_enc(out@).len()) =~= bytes_enc(out@));
                }
                Some((out, cl + n as usize))
            }
        },
    }
}

/// Reads the one record encoded at `pos`, with the count of bytes its
/// encoding occupies.
fn read_record(s: &[u8], pos: usize) -> (r: Option<((Vec<u8>, KeyTypeId), usize)>)
    requires
        pos <= s@.len(),
    ensures
        match r {
            Some(p) => ({
                let rv = (p.0.0@, p.0.1@);
                rec_wf(rv) && p.1 == rec_enc(rv).len() && pos + p.1 <= s@.len() && s@.subrange(
                    pos as int,
                    pos as int + p.1,
                ) == rec_enc(rv)
            }),
            None => forall|rr: (Seq<u8>, Seq<u8>)|
                rec_wf(rr) ==> !rec_prefix_at(s@, pos as int, rr),
        },
{
    let ghost posi = pos as int;
    if s.len() - pos < 4 {
        assert forall|rr: (Seq<u8>, Seq<u8>)| rec_wf(rr) implies !rec_prefix_at(s@, posi, rr) by {
            if rec_prefix_at(s@, posi, rr) {
                lemma_compact_shape(rr.0.len() as u32);
                assert(rec_enc(rr).len() >= 5);
            }
        }
        return None;
    }
    let tag = KeyTypeId([s[pos], s[pos + 1], s[pos + 2], s[pos + 3]]);
    assert(tag@ =~= s@.subrange(posi, posi + 4));
    match read_bytes(s, pos + 4) {
        None => {
            assert forall|rr: (Seq<u8>, Seq<u8>)| rec_wf(rr) implies !rec_prefix_at(
                s@,
                posi,
                rr,
            ) by {
                if rec_prefix_at(s@, posi, rr) {
                    assert forall|i: int| 0 <= i < bytes_enc(rr.0).len() implies s@[posi + 4 + i]
                        == bytes_enc(rr.0)[i] by {
                        assert(rec_enc(rr)[4 + i] == s@.subrange(
                            posi,
                            posi + rec_enc(rr).len(),
                        )[4 + i]);
                    }
                    assert(s@.subrange(posi + 4, posi + 4 + bytes_enc(rr.0).len()) =~= bytes_enc(
                        rr.0,
                    ));
                    assert(bytes_prefix_at(s@, posi + 4, rr.0));
                    assert(false);
                }
            }
            None
        },
        Some((payload, n)) => {
            proof {
                let rv = (payload@, tag@);
                assert forall|i: int| 0 <= i < rec_enc(rv).len() implies s@.subrange(
                    posi,
                    posi + rec_enc(rv).len(),
                )[i] == rec_enc(rv)[i] by {
                    if i < 4 {
                        assert(tag@[i] == s@.subrange(posi, posi + 4)[i]);
                    } else {
                        assert(bytes_enc(payload@)[i - 4] == s@.subrange(
                            posi + 4,
                            posi + 4 + n,
                        )[i - 4]);
                    }
                }
                assert(s@.subrange(posi, posi + rec_enc(rv).len()) =~= rec_enc(rv));
            }
            Some(((payload, tag), 4 + n))
        },
    }
}

/// Encodes a key bundle deterministically: for each pair its tag, then the
/// compact length of the raw key, then the raw key bytes, all concatenated
/// in order.
pub fn encode_session_keys(keys: &Vec<(Vec<u8>, KeyTypeId)>) -> (r: Vec<u8>)
    requires
        forall|i: int| 0 <= i < keys@.len() ==> (#[trigger] keys@[i]).0@.len() < 4294967296,
    ensures
        bundle_wf(keys_view(keys@)),
        r@ == bundle_enc(keys_view(keys@)),
{
    let mut out: Vec<u8> = Vec::new();
    let mut i: usize = 0;
    assert(out@ =~= bundle_enc(keys_view(keys@).subrange(0, 0)));
    while i < keys.len()
        invariant
            i <= keys@.len(),
            forall|j: int| 0 <= j < keys@.len() ==> (#[trigger] keys@[j]).0@.len() < 4294967296,
            out@ == bundle_enc(keys_view(keys@).subrange(0, i as int)),
        decreases keys@.len() - i,
    {
        let item = &keys[i];
        let ghost pre = out@;
        out.push(item.1.0[0]);
        out.push(item.1.0[1]);
        out.push(item.1.0[2]);
        out.push(item.1.0[3]);
        write_compact_u32(&mut out, item.0.len() as u32);
        append_bytes(&mut out, &item.0);
        proof {
            let rv = (item.0@, item.1@);
            assert(out@ =~= pre + rec_enc(rv));
            let kv = keys_view(keys@);
            assert(kv.subrange(0, i + 1) =~= kv.subrange(0, i as int).push(kv[i as int]));
            lemma_bundle_enc_push(kv.subrange(0, i as int), kv[i as int]);
            assert(kv[i as int] == rv);
        }
        i += 1;
    }
    proof {
        assert(keys_view(keys@).subrange(0, keys@.len() as int) =~= keys_view(keys@));
    }
    out
}

/// Decodes a byte blob back into `(raw key bytes, key type)` pairs.
///
/// Total over all inputs: returns the unique bundle whose encoding is the
/// whole blob, and `None` exactly when no bundle encodes the blob — a
/// malformed or truncated blob is an expected, recoverable outcome, never a
/// fault. The empty blob decodes to the empty bundle.
pub fn decode_session_keys(encoded: Vec<u8>) -> (r: Option<Vec<(Vec<u8>, KeyTypeId)>>)
    ensures
        match r {
            Some(ks) => bundle_wf(keys_view(ks@)) && bundle_enc(keys_view(ks@)) == encoded@,
            None => forall|m: Seq<(Seq<u8>, Seq<u8>)>| bundle_wf(m) ==> bundle_enc(m) != encoded@,
        },
{
    let s = encoded.as_slice();
    let mut out: Vec<(Vec<u8>, KeyTypeId)> = Vec::new();
    let mut pos: usize = 0;
    assert(bundle_enc(keys_view(out@)) =~= s@.subrange(0, 0));
    while pos < s.len()
        invariant
            pos <= s@.len(),
            s@ == encoded@,
            bundle_wf(keys_view(out@)),
            bundle_enc(keys_view(out@)) == s@.subrange(0, pos as int),
        decreases s@.len() - pos,
    {
        match read_record(s, pos) {
            Some((item, n)) => {
                proof {
                    let rv = (item.0@, item.1@);
                    let kv = keys_view(out@);
                    lemma_bundle_enc_push(kv, rv);
                    assert(keys_view(out@.push(item)) =~= kv.push(rv));
                    assert(s@.subrange(0, pos + n) =~= s@.subrange(0, pos as int) + s@.subrange(
                        pos as int,
                        pos + n,
                    ));
                    assert(rec_enc(rv).len() >= 5) by {
                        lemma_compact_shape(rv.0.len() as u32);
                    }
                }
                out.push(item);
                pos = pos + n;
            },
            None => {
                proof {
                    lemma_bundle_no_parse(keys_view(out@), s@, pos as int);
                }
                return None;
            },
        }
    }
    proof {
        assert(s@.subrange(0, s@.len() as int) =~= s@);
    }
    Some(out)
}

} // verus!
