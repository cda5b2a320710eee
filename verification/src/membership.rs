//! Membership proofs: an immutable value naming a session index, a
//! validator-count snapshot and an opaque Merkle path, together with the two
//! capability-restricted accessor traits that generic key-owner-proof code
//! depends on, and the proof's deterministic, bit-stable encoding.
use vstd::prelude::*;
use crate::SessionIndex;
use crate::ValidatorCount;
use crate::scale::u32_le;
use crate::scale::lemma_u32_le_injective;
use crate::scale::write_u32_le;
use crate::scale::read_u32_le;
use crate::scale::compact_u32;
use crate::scale::compact_len;
use crate::scale::compact_prefix_at;
use crate::scale::lemma_compact_shape;
use crate::scale::lemma_compact_prefix_unique;
use crate::scale::write_compact_u32;
use crate::scale::read_compact_u32;
use crate::session_keys::bytes_enc;
use crate::session_keys::bytes_wf;
use crate::session_keys::bytes_prefix_at;
use crate::session_keys::lemma_bytes_prefix_unique;
use crate::session_keys::write_byte_string;
use crate::session_keys::read_bytes;

verus! {

/// Proof of membership of a specific key in a given session.
///
/// `session` and `validator_count` are fixed at construction; the value
/// carries no identity of which key it proves — the leaf being proven is
/// supplied separately by the caller to the external trie verifier.
#[derive(Clone, Debug, PartialEq, Eq)]
pub struct MembershipProof {
    /// The session index on which the specific key is a member.
    pub session: SessionIndex,
    /// Trie nodes of a merkle proof of session membership.
    pub trie_nodes: Vec<Vec<u8>>,
    /// The validator count of the session on which the specific key is a
    /// member.
    pub validator_count: ValidatorCount,
}

impl Default for MembershipProof {
    /// The empty proof: zero fields and no trie nodes.
    fn default() -> (r: Self)
        ensures
            r.session == 0,
            r.trie_nodes@.len() == 0,
            r.validator_count == 0,
    {
        MembershipProof { session: 0, trie_nodes: Vec::new(), validator_count: 0 }
    }
}

/// A utility trait to get a session number, implemented for
/// `MembershipProof` to fetch the session number the membership proof is
/// for. It lets code that deals with key owner proofs generically restrict
/// their capabilities to reading the session number.
pub trait GetSessionNumber {
    /// The session number the value attests to.
    spec fn spec_session(&self) -> SessionIndex;

    /// Returns the session number the value attests to.
    fn session(&self) -> (r: SessionIndex)
        ensures
            r == self.spec_session(),
    ;
}

/// A utility trait to get the validator count of a given session,
/// implemented for `MembershipProof` to fetch the number of validators in
/// the session the membership proof is for.
pub trait GetValidatorCount {
    /// The validator-count snapshot the value attests to.
    spec fn spec_validator_count(&self) -> ValidatorCount;

    /// Returns the validator-count snapshot the value attests to.
    fn validator_count(&self) -> (r: ValidatorCount)
        ensures
            r == self.spec_validator_count(),
    ;
}

/// Placeholder proof type for integrators that opt out of the proof system
/// entirely: both accessors return the default (zero) value, regardless of
/// how the value was constructed.
#[derive(Clone, Copy, Debug, PartialEq, Eq, Default)]
pub struct Void;

impl GetSessionNumber for Void {
    open spec fn spec_session(&self) -> SessionIndex {
        0
    }

    fn session(&self) -> (r: SessionIndex) {
        0
    }
}

impl GetValidatorCount for Void {
    open spec fn spec_validator_count(&self) -> ValidatorCount {
        0
    }

    fn validator_count(&self) -> (r: ValidatorCount) {
        0
    }
}

impl GetSessionNumber for MembershipProof {
    open spec fn spec_session(&self) -> SessionIndex {
        self.session
    }

    fn session(&self) -> (r: SessionIndex) {
        self.session
    }
}

impl GetValidatorCount for MembershipProof {
    open spec fn spec_validator_count(&self) -> ValidatorCount {
        self.validator_count
    }

    fn validator_count(&self) -> (r: ValidatorCount) {
        self.validator_count
    }
}

/// The mathematical content of an executable list of trie nodes.
pub open spec fn nodes_view(ns: Seq<Vec<u8>>) -> Seq<Seq<u8>> {
    ns.map_values(|v: Vec<u8>| v@)
}

/// The node list can be encoded: its count and each node's length have a
/// compact form.
pub open spec fn nodes_wf(ns: Seq<Seq<u8>>) -> bool {
    &&& ns.len() < 4294967296
    &&& forall|i: int| 0 <= i < ns.len() ==> bytes_wf(#[trigger] ns[i])
}

/// The node list encodes as the concatenation of each node's
/// length-delimited encoding.
pub open spec fn nodes_enc(ns: Seq<Seq<u8>>) -> Seq<u8>
    decreases ns.len(),
{
    if ns.len() == 0 {
        Seq::empty()
    } else {
        bytes_enc(ns[0]) + nodes_enc(ns.drop_first())
    }
}

/// Appending one node appends its encoding.
pub proof fn lemma_nodes_enc_push(ns: Seq<Seq<u8>>, b: Seq<u8>)
    ensures
        nodes_enc(ns.push(b)) == nodes_enc(ns) + bytes_enc(b),
    decreases ns.len(),
{
    if ns.len() == 0 {
        assert(ns.push(b).drop_first() =~= ns);
        assert(nodes_enc(ns.push(b)) =~= nodes_enc(ns) + bytes_enc(b));
    } else {
        assert(ns.push(b).drop_first() =~= ns.drop_first().push(b));
        lemma_nodes_enc_push(ns.drop_first(), b);
        assert(nodes_enc(ns.push(b)) =~= nodes_enc(ns) + bytes_enc(b));
    }
}

/// A membership proof is encodable when its node list is.
pub open spec fn membership_proof_wf(p: MembershipProof) -> bool {
    nodes_wf(nodes_view(p.trie_nodes@))
}

/// The deterministic encoding of a membership proof: the session index as a
/// little-endian word, the compact node count, each node length-delimited,
/// and the validator count as a little-endian word. Proofs must be
/// bit-stable to be verifiable against a committed state root, so the
/// encoding of a proof is pinned down byte for byte.
pub open spec fn membership_proof_enc(si: u32, ns: Seq<Seq<u8>>, c: u32) -> Seq<u8> {
    u32_le(si as int) + compact_u32(ns.len() as u32) + nodes_enc(ns) + u32_le(c as int)
}

/// A parse that has consumed some nodes of a longer list agrees with the
/// longer list node for node, and the longer list's remaining nodes encode
/// the remaining bytes.
proof fn lemma_nodes_parse_agree(done: Seq<Seq<u8>>, ns: Seq<Seq<u8>>, blob: Seq<u8>, p0: int)
    requires
        forall|i: int| 0 <= i < done.len() ==> bytes_wf(#[trigger] done[i]),
        forall|i: int| 0 <= i < ns.len() ==> bytes_wf(#[trigger] ns[i]),
        done.len() <= ns.len(),
        p0 >= 0,
        p0 + nodes_enc(done).len() <= blob.len(),
        blob.subrange(p0, p0 + nodes_enc(done).len()) == nodes_enc(done),
        p0 + nodes_enc(ns).len() <= blob.len(),
        blob.subrange(p0, p0 + nodes_enc(ns).len()) == nodes_enc(ns),
    ensures
        ns.subrange(0, done.len() as int) == done,
        nodes_enc(done).len() <= nodes_enc(ns).len(),
        blob.subrange(p0 + nodes_enc(done).len(), p0 + nodes_enc(ns).len()) == nodes_enc(
            ns.subrange(done.len() as int, ns.len() as int),
        ),
    decreases done.len(),
{
    if done.len() == 0 {
        assert(ns.subrange(0, 0) =~= done);
        assert(ns.subrange(0, ns.len() as int) =~= ns);
        assert(blob.subrange(p0, p0 + nodes_enc(ns).len()) =~= nodes_enc(
            ns.subrange(0, ns.len() as int),
        ));
    } else {
        let d0 = done[0];
        let n0 = ns[0];
        let ld = bytes_enc(d0).len() as int;
        let ln = bytes_enc(n0).len() as int;
        assert(nodes_enc(done) == bytes_enc(d0) + nodes_enc(done.drop_first()));
        assert(nodes_enc(ns) == bytes_enc(n0) + nodes_enc(ns.drop_first()));
        assert forall|i: int| 0 <= i < ld implies blob[p0 + i] == bytes_enc(d0)[i] by {
            assert(nodes_enc(done)[i] == blob.subrange(p0, p0 + nodes_enc(done).len())[i]);
        }
        assert(blob.subrange(p0, p0 + ld) =~= bytes_enc(d0));
        assert(bytes_prefix_at(blob, p0, d0));
        assert forall|i: int| 0 <= i < ln implies blob[p0 + i] == bytes_enc(n0)[i] by {
            assert(nodes_enc(ns)[i] == blob.subrange(p0, p0 + nodes_enc(ns).len())[i]);
        }
        assert(blob.subrange(p0, p0 + ln) =~= bytes_enc(n0));
        assert(bytes_prefix_at(blob, p0, n0));
        lemma_bytes_prefix_unique(blob, p0, d0, n0);
        assert(d0 == n0);
        let donet = done.drop_first();
        let nst = ns.drop_first();
        assert(forall|i: int| 0 <= i < donet.len() ==> #[trigger] donet[i] == done[i + 1]);
        assert(forall|i: int| 0 <= i < nst.len() ==> #[trigger] nst[i] == ns[i + 1]);
        let p1 = p0 + ld;
        assert forall|i: int| 0 <= i < nodes_enc(donet).len() implies blob[p1 + i] == nodes_enc(
            donet,
        )[i] by {
            assert(nodes_enc(done)[ld + i] == blob.subrange(p0, p0 + nodes_enc(done).len())[ld
                + i]);
        }
        assert(blob.subrange(p1, p1 + nodes_enc(donet).len()) =~= nodes_enc(donet));
        assert forall|i: int| 0 <= i < nodes_enc(nst).len() implies blob[p1 + i] == nodes_enc(
            nst,
        )[i] by {
            assert(nodes_enc(ns)[ld + i] == blob.subrange(p0, p0 + nodes_enc(ns).len())[ld + i]);
        }
        assert(blob.subrange(p1, p1 + nodes_enc(nst).len()) =~= nodes_enc(nst));
        lemma_nodes_parse_agree(donet, nst, blob, p1);
        assert(ns.subrange(0, done.len() as int) =~= done) by {
            assert(forall|i: int|
                1 <= i < done.len() ==> #[trigger] ns[i] == nst[i - 1] && nst.subrange(
                    0,
                    donet.len() as int,
                )[i - 1] == nst[i - 1] && donet[i - 1] == done[i]);
        }
        assert(ns.subrange(done.len() as int, ns.len() as int) =~= nst.subrange(
            donet.len() as int,
            nst.len() as int,
        ));
    }
}

/// How the four parts of a membership proof encoding lie in the encoded
/// bytes.
proof fn lemma_mp_enc_parts(si: u32, ns: Seq<Seq<u8>>, c: u32, blob: Seq<u8>)
    requires
        nodes_wf(ns),
        membership_proof_enc(si, ns, c) == blob,
    ensures
        ({
            let cl = compact_len(ns.len() as u32);
            let nl = nodes_enc(ns).len() as int;
            &&& blob.len() == 8 + cl + nl
            &&& blob.subrange(0, 4) == u32_le(si as int)
            &&& compact_prefix_at(blob, 4, ns.len() as u32)
            &&& blob.subrange(4 + cl, 4 + cl + nl) == nodes_enc(ns)
            &&& blob.subrange(4 + cl + nl, blob.len() as int) == u32_le(c as int)
        }),
{
    let m = ns.len() as u32;
    lemma_compact_shape(m);
    let cl = compact_len(m);
    let nl = nodes_enc(ns).len() as int;
    assert forall|i: int| 0 <= i < 4 implies blob[i] == u32_le(si as int)[i] by {}
    assert(blob.subrange(0, 4) =~= u32_le(si as int));
    assert forall|i: int| 0 <= i < cl implies blob[4 + i] == compact_u32(m)[i] by {}
    assert(blob.subrange(4, 4 + cl) =~= compact_u32(m));
    assert forall|i: int| 0 <= i < nl implies blob[4 + cl + i] == nodes_enc(ns)[i] by {}
    assert(blob.subrange(4 + cl, 4 + cl + nl) =~= nodes_enc(ns));
    assert forall|i: int| 0 <= i < 4 implies blob[4 + cl + nl + i] == u32_le(c as int)[i] by {}
    assert(blob.subrange(4 + cl + nl, blob.len() as int) =~= u32_le(c as int));
}

/// Round-trip law for proofs: the encoding pins a proof down bit for bit,
/// so two encodable proofs with the same encoding agree in every field.
/// Together with the contracts of `encode_membership_proof` and
/// `decode_membership_proof`, decoding an encoded proof reproduces it
/// exactly.
pub proof fn lemma_membership_proof_round_trip(
    si1: u32,
    ns1: Seq<Seq<u8>>,
    c1: u32,
    si2: u32,
    ns2: Seq<Seq<u8>>,
    c2: u32,
)
    requires
        nodes_wf(ns1),
        nodes_wf(ns2),
        membership_proof_enc(si1, ns1, c1) == membership_proof_enc(si2, ns2, c2),
    ensures
        si1 == si2,
        ns1 == ns2,
        c1 == c2,
{
    let blob = membership_proof_enc(si1, ns1, c1);
    lemma_mp_enc_parts(si1, ns1, c1, blob);
    lemma_mp_enc_parts(si2, ns2, c2, blob);
    lemma_u32_le_injective(si1 as int, si2 as int);
    lemma_compact_prefix_unique(blob, 4, ns1.len() as u32, ns2.len() as u32);
    assert(ns1.len() == ns2.len());
    let cl = compact_len(ns1.len() as u32);
    lemma_nodes_parse_agree(ns1, ns2, blob, 4 + cl);
    assert(ns2.subrange(0, ns2.len() as int) =~= ns2);
    assert(ns1 == ns2);
    lemma_u32_le_injective(c1 as int, c2 as int);
}

/// Encodes a membership proof deterministically.
pub fn encode_membership_proof(p: &MembershipProof) -> (r: Vec<u8>)
    requires
        membership_proof_wf(*p),
    ensures
        r@ == membership_proof_enc(p.session, nodes_view(p.trie_nodes@), p.validator_count),
{
    let ghost nv = nodes_view(p.trie_nodes@);
    let mut out: Vec<u8> = Vec::new();
    write_u32_le(&mut out, p.session);
    write_compact_u32(&mut out, p.trie_nodes.len() as u32);
    let ghost head = out@;
    let mut i: usize = 0;
    assert(out@ =~= head + nodes_enc(nv.subrange(0, 0)));
    while i < p.trie_nodes.len()
        invariant
            i <= p.trie_nodes@.len(),
            nv == nodes_view(p.trie_nodes@),
            nodes_wf(nv),
            out@ == head + nodes_enc(nv.subrange(0, i as int)),
        decreases p.trie_nodes@.len() - i,
    {
        proof {
            assert(nv[i as int] == p.trie_nodes@[i as int]@);
            assert(bytes_wf(nv[i as int]));
        }
        write_byte_string(&mut out, &p.trie_nodes[i]);
        proof {
            assert(nv.subrange(0, i + 1) =~= nv.subrange(0, i as int).push(nv[i as int]));
            lemma_nodes_enc_push(nv.subrange(0, i as int), nv[i as int]);
            assert(out@ =~= head + nodes_enc(nv.subrange(0, i + 1)));
        }
        i += 1;
    }
    assert(nv.subrange(0, nv.len() as int) =~= nv);
    write_u32_le(&mut out, p.validator_count);
    assert(out@ =~= membership_proof_enc(p.session, nv, p.validator_count));
    out
}

/// Decodes a membership proof from its deterministic encoding.
///
/// Total over all inputs: returns the unique proof whose encoding is the
/// whole blob, and `None` exactly when no proof encodes the blob.
pub fn decode_membership_proof(encoded: &Vec<u8>) -> (r: Option<MembershipProof>)
    ensures
        match r {
            Some(p) => membership_proof_wf(p) && membership_proof_enc(
                p.session,
                nodes_view(p.trie_nodes@),
                p.validator_count,
            ) == encoded@,
            None => forall|si: u32, ns: Seq<Seq<u8>>, c: u32|
                nodes_wf(ns) ==> membership_proof_enc(si, ns, c) != encoded@,
        },
{
    let s = encoded.as_slice();
    let slen = s.len();
    if slen < 9 {
        assert forall|si: u32, ns: Seq<Seq<u8>>, c: u32| nodes_wf(ns) implies membership_proof_enc(
            si,
            ns,
            c,
        ) != encoded@ by {
            if membership_proof_enc(si, ns, c) == encoded@ {
                lemma_mp_enc_parts(si, ns, c, encoded@);
                lemma_compact_shape(ns.len() as u32);
            }
        }
        return None;
    }
    let session = read_u32_le(s, 0);
    match read_compact_u32(s, 4) {
        None => {
            assert forall|si: u32, ns: Seq<Seq<u8>>, c: u32|
                nodes_wf(ns) implies membership_proof_enc(si, ns, c) != encoded@ by {
                if membership_proof_enc(si, ns, c) == encoded@ {
                    lemma_mp_enc_parts(si, ns, c, encoded@);
                }
            }
            None
        },
        Some((n, cl)) => {
            proof {
                lemma_compact_shape(n);
                assert(4 + compact_len(n) <= slen as int);
            }
            let p0 = 4 + cl;
            let mut nodes: Vec<Vec<u8>> = Vec::new();
            let mut pos = p0;
            let mut i: u32 = 0;
            assert(nodes_enc(nodes_view(nodes@)) =~= s@.subrange(p0 as int, pos as int));
            while i < n
                invariant
                    i <= n,
                    i as int == nodes@.len(),
                    slen == s@.len(),
                    s@ == encoded@,
                    4 + cl <= slen,
                    p0 == 4 + cl,
                    pos <= slen,
                    cl == compact_len(n),
                    compact_prefix_at(s@, 4, n),
                    u32_le(session as int) == s@.subrange(0, 4),
                    forall|j: int|
                        0 <= j < nodes_view(nodes@).len() ==> bytes_wf(
                            #[trigger] nodes_view(nodes@)[j],
                        ),
                    nodes_enc(nodes_view(nodes@)) == s@.subrange(p0 as int, pos as int),
                    pos as int == p0 + nodes_enc(nodes_view(nodes@)).len(),
                decreases n - i,
            {
                match read_bytes(s, pos) {
                    None => {
                        proof {
                            let done = nodes_view(nodes@);
                            assert forall|si: u32, ns: Seq<Seq<u8>>, c: u32|
                                nodes_wf(ns) implies membership_proof_enc(si, ns, c)
                                != encoded@ by {
                                if membership_proof_enc(si, ns, c) == encoded@ {
                                    lemma_mp_enc_parts(si, ns, c, encoded@);
                                    lemma_compact_prefix_unique(
                                        encoded@,
                                        4,
                                        ns.len() as u32,
                                        n,
                                    );
                                    assert(ns.len() == n);
                                    lemma_nodes_parse_agree(done, ns, encoded@, p0 as int);
                                    let rest = ns.subrange(done.len() as int, ns.len() as int);
                                    assert(rest.len() > 0);
                                    let r0 = rest[0];
                                    assert(bytes_wf(r0)) by {
                                        assert(r0 == ns[done.len() as int]);
                                    }
                                    let lr = bytes_enc(r0).len() as int;
                                    assert(nodes_enc(rest) == bytes_enc(r0) + nodes_enc(
                                        rest.drop_first(),
                                    ));
                                    let tail = encoded@.subrange(
                                        pos as int,
                                        p0 + nodes_enc(ns).len(),
                                    );
                                    assert(tail == nodes_enc(rest));
                                    assert forall|k: int| 0 <= k < lr implies encoded@[pos + k]
                                        == bytes_enc(r0)[k] by {
                                        assert(tail[k] == nodes_enc(rest)[k]);
                                    }
                                    assert(encoded@.subrange(pos as int, pos + lr) =~= bytes_enc(
                                        r0,
                                    ));
                                    assert(bytes_prefix_at(encoded@, pos as int, r0));
                                    assert(false);
                                }
                            }
                        }
                        return None;
                    },
                    Some((node, used)) => {
                        proof {
                            let done = nodes_view(nodes@);
                            lemma_nodes_enc_push(done, node@);
                            assert(nodes_view(nodes@.push(node)) =~= done.push(node@));
                            assert(s@.subrange(p0 as int, pos + used) =~= s@.subrange(
                                p0 as int,
                                pos as int,
                            ) + s@.subrange(pos as int, pos + used));
                        }
                        nodes.push(node);
                        pos = pos + used;
                        i = i + 1;
                    },
                }
            }
            if slen - pos < 4 {
                proof {
                    let done = nodes_view(nodes@);
                    assert forall|si: u32, ns: Seq<Seq<u8>>, c: u32|
                        nodes_wf(ns) implies membership_proof_enc(si, ns, c) != encoded@ by {
                        if membership_proof_enc(si, ns, c) == encoded@ {
                            lemma_mp_enc_parts(si, ns, c, encoded@);
                            lemma_compact_prefix_unique(encoded@, 4, ns.len() as u32, n);
                            assert(ns.len() == n);
                            lemma_nodes_parse_agree(done, ns, encoded@, p0 as int);
                            assert(ns.subrange(0, ns.len() as int) =~= ns);
                            assert(nodes_enc(ns) == nodes_enc(done));
                            assert(encoded@.len() == pos + 4);
                            assert(false);
                        }
                    }
                }
                return None;
            }
            let count = read_u32_le(s, pos);
            if pos + 4 != slen {
                proof {
                    let done = nodes_view(nodes@);
                    assert forall|si: u32, ns: Seq<Seq<u8>>, c: u32|
                        nodes_wf(ns) implies membership_proof_enc(si, ns, c) != encoded@ by {
                        if membership_proof_enc(si, ns, c) == encoded@ {
                            lemma_mp_enc_parts(si, ns, c, encoded@);
                            lemma_compact_prefix_unique(encoded@, 4, ns.len() as u32, n);
                            assert(ns.len() == n);
                            lemma_nodes_parse_agree(done, ns, encoded@, p0 as int);
                            assert(ns.subrange(0, ns.len() as int) =~= ns);
                            assert(nodes_enc(ns) == nodes_enc(done));
                            assert(encoded@.len() == pos + 4);
                            assert(false);
                        }
                    }
                }
                return None;
            }
            let result = MembershipProof { session, trie_nodes: nodes, validator_count: count };
            proof {
                let nv = nodes_view(result.trie_nodes@);
                assert(nv.len() == n);
                assert(encoded@ =~= membership_proof_enc(result.session, nv, result.validator_count))
                    by {
                    assert(compact_u32(n) == s@.subrange(4, 4 + cl as int));
                    assert(u32_le(count as int) == s@.subrange(pos as int, pos + 4));
                }
            }
            Some(result)
        },
    }
}

} // verus!
