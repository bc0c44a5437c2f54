//! The validator-set-change record embedded in a block header's extra field,
//! and the aggregated seal sub-records inside it.
//!
//! The wire layout is owned by this crate: a 32-byte vanity prefix that is
//! skipped unconditionally, then one list with exactly six positional
//! fields: the added validator addresses (20-byte strings), the added
//! validator public keys (byte-strings), the removal count, the block
//! producer's own seal, the aggregated seal over the current block, and the
//! aggregated seal over the parent block. An aggregated seal is a list of
//! exactly three fields: a bitmask integer, the aggregate signature bytes,
//! and the round number.

use crate::bitmap::{
    seal_bits_of_u64, seal_bits_to_u64, spec_bits_value, spec_canonical_digits, spec_digit_bits,
};
use crate::errors::PipelineError;
use crate::rlp::{
    enc_str_list_payload, lemma_be_bytes_len, lemma_be_bytes_value, lemma_parse_list_header_at,
    lemma_parse_scalar_of_enc, lemma_parse_str_seq_of_enc, lemma_parse_string_at,
    lemma_pow256_mono, lemma_pow256_values, parse_list_header, parse_scalar, parse_string,
    parse_str_list, pow256, push_all, push_enc_list, push_enc_scalar, push_enc_str, read_bytes,
    spec_be_bytes, spec_enc_list, spec_enc_scalar, spec_enc_str, spec_enc_str_seq,
    spec_len_header, spec_parse_list_header, spec_parse_scalar, spec_parse_string,
    spec_parse_str_seq,
};
use vstd::prelude::*;

verus! {

/// The length of the vanity prefix that precedes the structured data.
pub const VANITY: usize = 32;

/// The mathematical value of an aggregated seal.
pub struct SealModel {
    /// Variable-width participation bitmap: the binary digits of the
    /// bitmask integer, most significant first.
    pub bitmap: Seq<bool>,
    /// Consensus round number.
    pub round: u64,
    /// Aggregate signature bytes.
    pub signature: Seq<u8>,
}

/// The mathematical value of a decoded header-extra record.
pub struct HeaderExtraModel {
    pub added_validators: Seq<Seq<u8>>,
    pub added_validators_pubkeys: Seq<Seq<u8>>,
    pub removed_validators: u64,
    pub seal: Seq<u8>,
    pub aggregated_seal: SealModel,
    pub parent_aggregated_seal: SealModel,
}

/// A 20-byte account identifier.
pub struct Address {
    pub bytes: Vec<u8>,
}

impl View for Address {
    type V = Seq<u8>;

    open spec fn view(&self) -> Seq<u8> {
        self.bytes@
    }
}

/// An aggregated BLS seal: participation bitmap, signature bytes, and round.
pub struct AggregatedSeal {
    /// Variable-width bitmap: one boolean per binary digit of the encoded
    /// bitmask, most significant first. Not the fixed 256-entry vector.
    pub bitmap: Vec<bool>,
    pub round: u64,
    pub signature: Vec<u8>,
}

impl View for AggregatedSeal {
    type V = SealModel;

    open spec fn view(&self) -> SealModel {
        SealModel { bitmap: self.bitmap@, round: self.round, signature: self.signature@ }
    }
}

/// The validator-set change decoded from one header's extra field.
pub struct HeaderExtra {
    /// Account identifiers added this epoch, in on-chain insertion order.
    pub added_validators: Vec<Address>,
    /// Serialized public keys added this epoch, index-aligned with
    /// `added_validators`.
    pub added_validators_pubkeys: Vec<Vec<u8>>,
    /// How many validators were removed this epoch; no identities are
    /// tracked, only the count.
    pub removed_validators: u64,
    /// The block producer's own seal, passed through unmodified.
    pub seal: Vec<u8>,
    /// The aggregated seal signing the current block.
    pub aggregated_seal: AggregatedSeal,
    /// The aggregated seal signing the parent block.
    pub parent_aggregated_seal: AggregatedSeal,
}

impl View for HeaderExtra {
    type V = HeaderExtraModel;

    open spec fn view(&self) -> HeaderExtraModel {
        HeaderExtraModel {
            added_validators: self.added_validators@.map_values(|a: Address| a@),
            added_validators_pubkeys: self.added_validators_pubkeys.deep_view(),
            removed_validators: self.removed_validators,
            seal: self.seal@,
            aggregated_seal: self.aggregated_seal@,
            parent_aggregated_seal: self.parent_aggregated_seal@,
        }
    }
}

/// Decode an aggregated seal from the payload of its three-field list:
/// bitmask integer, signature string, round integer, filling the payload
/// exactly.
pub open spec fn spec_decode_seal(s: Seq<u8>) -> Option<SealModel> {
    match spec_parse_string(s, 0) {
        None => None,
        Some((bm_bytes, c0)) => match spec_parse_scalar(bm_bytes, 8) {
            None => None,
            Some(bm) => match spec_parse_string(s, c0) {
                None => None,
                Some((sig, c1)) => match spec_parse_string(s, c0 + c1) {
                    None => None,
                    Some((rd_bytes, c2)) => match spec_parse_scalar(rd_bytes, 8) {
                        None => None,
                        Some(rd) => if c0 + c1 + c2 == s.len() {
                            Some(
                                SealModel {
                                    bitmap: spec_digit_bits(bm),
                                    round: rd as u64,
                                    signature: sig,
                                },
                            )
                        } else {
                            None
                        },
                    },
                },
            },
        },
    }
}

/// Decode a header-extra record: skip the 32-byte vanity prefix, then one
/// list whose payload reaches the end of the buffer and holds exactly the
/// six positional fields.
pub open spec fn spec_decode_header_extra(s: Seq<u8>) -> Option<HeaderExtraModel> {
    if s.len() < 32 {
        None
    } else {
        match spec_parse_list_header(s, 32) {
            None => None,
            Some((pl, hl)) => {
                let p0 = 32 + hl;
                if p0 + pl != s.len() {
                    None
                } else {
                    match spec_parse_list_header(s, p0) {
                        None => None,
                        Some((pl0, hl0)) => {
                            let addrs = spec_parse_str_seq(s.subrange(p0 + hl0, p0 + hl0 + pl0));
                            let p1 = p0 + hl0 + pl0;
                            match addrs {
                                None => None,
                                Some(addr_strs) => if !(forall|j: int|
                                    0 <= j < addr_strs.len() ==> (#[trigger] addr_strs[j]).len()
                                        == 20) {
                                    None
                                } else {
                                    match spec_parse_list_header(s, p1) {
                                        None => None,
                                        Some((pl1, hl1)) => {
                                            let keys = spec_parse_str_seq(
                                                s.subrange(p1 + hl1, p1 + hl1 + pl1),
                                            );
                                            let p2 = p1 + hl1 + pl1;
                                            match keys {
                                                None => None,
                                                Some(key_strs) => if key_strs.len()
                                                    != addr_strs.len() {
                                                    None
                                                } else {
                                                    match spec_parse_string(s, p2) {
                                                        None => None,
                                                        Some((rm_bytes, c2)) => match spec_parse_scalar(rm_bytes, 4) {
                                                            None => None,
                                                            Some(rm) => {
                                                                let p3 = p2 + c2;
                                                                spec_decode_tail(
                                                                    s,
                                                                    p3,
                                                                    addr_strs,
                                                                    key_strs,
                                                                    rm as u64,
                                                                )
                                                            },
                                                        },
                                                    }
                                                },
                                            }
                                        },
                                    }
                                },
                            }
                        },
                    }
                }
            },
        }
    }
}

/// The last three fields of a header-extra record: the own seal string and
/// the two aggregated-seal lists, ending exactly at the end of the buffer.
pub open spec fn spec_decode_tail(
    s: Seq<u8>,
    p3: int,
    addr_strs: Seq<Seq<u8>>,
    key_strs: Seq<Seq<u8>>,
    removed: u64,
) -> Option<HeaderExtraModel> {
    match spec_parse_string(s, p3) {
        None => None,
        Some((own_seal, c3)) => {
            let p4 = p3 + c3;
            match spec_parse_list_header(s, p4) {
                None => None,
                Some((pl4, hl4)) => {
                    let agg = spec_decode_seal(s.subrange(p4 + hl4, p4 + hl4 + pl4));
                    let p5 = p4 + hl4 + pl4;
                    match agg {
                        None => None,
                        Some(aggregated) => match spec_parse_list_header(s, p5) {
                            None => None,
                            Some((pl5, hl5)) => {
                                let parent = spec_decode_seal(s.subrange(p5 + hl5, p5 + hl5 + pl5));
                                let p6 = p5 + hl5 + pl5;
                                match parent {
                                    None => None,
                                    Some(parent_seal) => if p6 == s.len() {
                                        Some(
                                            HeaderExtraModel {
                                                added_validators: addr_strs,
                                                added_validators_pubkeys: key_strs,
                                                removed_validators: removed,
                                                seal: own_seal,
                                                aggregated_seal: aggregated,
                                                parent_aggregated_seal: parent_seal,
                                            },
                                        )
                                    } else {
                                        None
                                    },
                                }
                            },
                        },
                    }
                },
            }
        },
    }
}

impl AggregatedSeal {
    /// Decode an aggregated seal from the payload bytes of its list.
    /// Exactly the structural failures of the wire format are rejected, as
    /// `MalformedRecord`.
    pub fn decode(payload: &Vec<u8>) -> (r: Result<AggregatedSeal, PipelineError>)
        ensures
            match spec_decode_seal(payload@) {
                Some(m) => r is Ok && r->Ok_0@ == m,
                None => r is Err && r->Err_0 == PipelineError::MalformedRecord,
            },
    {
        let (bm_bytes, n0) = match parse_string(payload, 0) {
            None => {
                return Err(PipelineError::MalformedRecord);
            },
            Some(x) => x,
        };
        let bm = match parse_scalar(&bm_bytes, 8) {
            None => {
                return Err(PipelineError::MalformedRecord);
            },
            Some(v) => v,
        };
        let (sig, n1) = match parse_string(payload, n0) {
            None => {
                return Err(PipelineError::MalformedRecord);
            },
            Some(x) => x,
        };
        let (rd_bytes, n2) = match parse_string(payload, n1) {
            None => {
                return Err(PipelineError::MalformedRecord);
            },
            Some(x) => x,
        };
        let rd = match parse_scalar(&rd_bytes, 8) {
            None => {
                return Err(PipelineError::MalformedRecord);
            },
            Some(v) => v,
        };
        if n2 != payload.len() {
            return Err(PipelineError::MalformedRecord);
        }
        let bits = seal_bits_of_u64(bm);
        Ok(AggregatedSeal { bitmap: bits, round: rd, signature: sig })
    }
}

impl HeaderExtra {
    /// Decode a header-extra record from the raw bytes of the header's
    /// extra field. A buffer shorter than the vanity prefix, any structural
    /// mismatch with the wire format, an address that is not 20 bytes, or a
    /// public-key list whose length differs from the address list's is
    /// rejected as `MalformedRecord`; nothing panics and nothing is read
    /// out of bounds.
    #[verifier::loop_isolation(false)]
    #[verifier::rlimit(60)]
    pub fn decode(extra: &Vec<u8>) -> (r: Result<HeaderExtra, PipelineError>)
        ensures
            match spec_decode_header_extra(extra@) {
                Some(m) => r is Ok && r->Ok_0@ == m,
                None => r is Err && r->Err_0 == PipelineError::MalformedRecord,
            },
            extra@.len() < 32 ==> r is Err && r->Err_0 == PipelineError::MalformedRecord,
    {
        if extra.len() < VANITY {
            return Err(PipelineError::MalformedRecord);
        }
        let (p0, pl) = match parse_list_header(extra, VANITY) {
            None => {
                return Err(PipelineError::MalformedRecord);
            },
            Some(x) => x,
        };
        if p0 + pl != extra.len() {
            return Err(PipelineError::MalformedRecord);
        }
        // field 0: the added validator addresses
        let (a_start, a_len) = match parse_list_header(extra, p0) {
            None => {
                return Err(PipelineError::MalformedRecord);
            },
            Some(x) => x,
        };
        let addrs_payload = read_bytes(extra, a_start, a_len);
        let addr_strs = match parse_str_list(&addrs_payload) {
            None => {
                return Err(PipelineError::MalformedRecord);
            },
            Some(x) => x,
        };
        let p1 = a_start + a_len;
        let ghost addr_model = spec_parse_str_seq(extra@.subrange(
            a_start as int,
            a_start as int + a_len as int,
        ))->Some_0;
        let mut added_validators: Vec<Address> = Vec::new();
        let ghost addr_seqs = addr_strs@;
        let mut rem_a = addr_strs;
        proof {
            assert(addr_seqs.skip(0) =~= addr_seqs);
        }
        while rem_a.len() > 0
            invariant
                addr_model.len() == addr_seqs.len(),
                forall|j: int|
                    0 <= j < addr_seqs.len() ==> (#[trigger] addr_seqs[j])@ == addr_model[j],
                added_validators@.len() + rem_a@.len() == addr_seqs.len(),
                rem_a@ == addr_seqs.skip(added_validators@.len() as int),
                forall|j: int|
                    0 <= j < added_validators@.len() ==> (#[trigger] addr_model[j]).len() == 20
                        && added_validators@[j]@ == addr_model[j],
            decreases rem_a@.len(),
        {
            let ghost done = added_validators@.len() as int;
            let a = rem_a.remove(0);
            proof {
                assert(a == addr_seqs[done]);
                assert(addr_seqs.skip(done).remove(0) =~= addr_seqs.skip(done + 1));
            }
            if a.len() != 20 {
                proof {
                    assert(addr_model[done].len() != 20);
                }
                return Err(PipelineError::MalformedRecord);
            }
            added_validators.push(Address { bytes: a });
        }
        // field 1: the added validator public keys
        let (k_start, k_len) = match parse_list_header(extra, p1) {
            None => {
                return Err(PipelineError::MalformedRecord);
            },
            Some(x) => x,
        };
        let keys_payload = read_bytes(extra, k_start, k_len);
        let added_validators_pubkeys = match parse_str_list(&keys_payload) {
            None => {
                return Err(PipelineError::MalformedRecord);
            },
            Some(x) => x,
        };
        // a public key is owed for each added address, index-aligned
        if added_validators_pubkeys.len() != added_validators.len() {
            return Err(PipelineError::MalformedRecord);
        }
        let p2 = k_start + k_len;
        // field 2: the removal count
        let (rm_bytes, p3) = match parse_string(extra, p2) {
            None => {
                return Err(PipelineError::MalformedRecord);
            },
            Some(x) => x,
        };
        let removed_validators = match parse_scalar(&rm_bytes, 4) {
            None => {
                return Err(PipelineError::MalformedRecord);
            },
            Some(v) => v,
        };
        // field 3: the block producer's own seal
        let (seal, p4) = match parse_string(extra, p3) {
            None => {
                return Err(PipelineError::MalformedRecord);
            },
            Some(x) => x,
        };
        // field 4: the aggregated seal over the current block
        let (s4_start, s4_len) = match parse_list_header(extra, p4) {
            None => {
                return Err(PipelineError::MalformedRecord);
            },
            Some(x) => x,
        };
        let seal4_payload = read_bytes(extra, s4_start, s4_len);
        let aggregated_seal = match AggregatedSeal::decode(&seal4_payload) {
            Err(_) => {
                return Err(PipelineError::MalformedRecord);
            },
            Ok(v) => v,
        };
        let p5 = s4_start + s4_len;
        // field 5: the aggregated seal over the parent block
        let (s5_start, s5_len) = match parse_list_header(extra, p5) {
            None => {
                return Err(PipelineError::MalformedRecord);
            },
            Some(x) => x,
        };
        let seal5_payload = read_bytes(extra, s5_start, s5_len);
        let parent_aggregated_seal = match AggregatedSeal::decode(&seal5_payload) {
            Err(_) => {
                return Err(PipelineError::MalformedRecord);
            },
            Ok(v) => v,
        };
        let p6 = s5_start + s5_len;
        if p6 != extra.len() {
            return Err(PipelineError::MalformedRecord);
        }
        let result = HeaderExtra {
            added_validators,
            added_validators_pubkeys,
            removed_validators,
            seal,
            aggregated_seal,
            parent_aggregated_seal,
        };
        proof {
            let m = spec_decode_header_extra(extra@)->Some_0;
            assert(result@.added_validators =~= m.added_validators);
            assert(result@.added_validators_pubkeys =~= m.added_validators_pubkeys);
        }
        Ok(result)
    }
}

/// Encode an aggregated seal into the payload of its three-field list.
pub open spec fn spec_enc_seal_payload(m: SealModel) -> Seq<u8> {
    spec_enc_scalar(spec_bits_value(m.bitmap)) + spec_enc_str(m.signature) + spec_enc_scalar(
        m.round as nat,
    )
}

/// Encode a header-extra record: the given 32-byte vanity prefix, then the
/// six-field list.
pub open spec fn spec_enc_header_extra(m: HeaderExtraModel, vanity: Seq<u8>) -> Seq<u8> {
    vanity + spec_enc_list(spec_enc_extra_payload(m))
}

/// The payload of the outer six-field list of a header-extra record.
pub open spec fn spec_enc_extra_payload(m: HeaderExtraModel) -> Seq<u8> {
    spec_enc_list(spec_enc_str_seq(m.added_validators)) + spec_enc_list(
        spec_enc_str_seq(m.added_validators_pubkeys),
    ) + spec_enc_scalar(m.removed_validators as nat) + spec_enc_str(m.seal) + spec_enc_list(
        spec_enc_seal_payload(m.aggregated_seal),
    ) + spec_enc_list(spec_enc_seal_payload(m.parent_aggregated_seal))
}

impl AggregatedSeal {
    /// Encode this seal into the payload bytes of its list, the inverse of
    /// `decode` on canonical bitmaps.
    pub fn encode_payload(&self) -> (r: Vec<u8>)
        requires
            self.bitmap@.len() <= 64,
        ensures
            r@ == spec_enc_seal_payload(self@),
    {
        let bm = seal_bits_to_u64(&self.bitmap);
        let mut out: Vec<u8> = Vec::new();
        push_enc_scalar(&mut out, bm);
        push_enc_str(&mut out, &self.signature);
        push_enc_scalar(&mut out, self.round);
        proof {
            assert(out@ =~= spec_enc_seal_payload(self@));
        }
        out
    }
}

impl HeaderExtra {
    /// Encode this record behind the given 32-byte vanity prefix, the
    /// inverse of `decode` on well-formed records.
    pub fn encode(&self, vanity: &Vec<u8>) -> (r: Vec<u8>)
        requires
            vanity@.len() == 32,
            self.aggregated_seal.bitmap@.len() <= 64,
            self.parent_aggregated_seal.bitmap@.len() <= 64,
        ensures
            r@ == spec_enc_header_extra(self@, vanity@),
    {
        let mut addr_strs: Vec<Vec<u8>> = Vec::new();
        let mut j: usize = 0;
        while j < self.added_validators.len()
            invariant
                j <= self.added_validators@.len(),
                addr_strs@.len() == j as int,
                forall|t: int|
                    0 <= t < j as int ==> (#[trigger] addr_strs@[t])@
                        == self.added_validators@[t]@,
            decreases self.added_validators@.len() - j,
        {
            let a = &self.added_validators[j];
            let copy = read_bytes(&a.bytes, 0, a.bytes.len());
            proof {
                assert(a.bytes@.subrange(0, a.bytes@.len() as int) =~= a.bytes@);
            }
            addr_strs.push(copy);
            j = j + 1;
        }
        proof {
            assert forall|t: int| 0 <= t < addr_strs@.len() implies addr_strs.deep_view()[t]
                == self@.added_validators[t] by {
                assert(addr_strs@[t].deep_view() =~= addr_strs@[t]@);
            }
            assert(addr_strs.deep_view() =~= self@.added_validators);
        }
        let a_payload = enc_str_list_payload(&addr_strs);
        let k_payload = enc_str_list_payload(&self.added_validators_pubkeys);
        let s4 = self.aggregated_seal.encode_payload();
        let s5 = self.parent_aggregated_seal.encode_payload();
        let mut payload: Vec<u8> = Vec::new();
        push_enc_list(&mut payload, &a_payload);
        push_enc_list(&mut payload, &k_payload);
        push_enc_scalar(&mut payload, self.removed_validators);
        push_enc_str(&mut payload, &self.seal);
        push_enc_list(&mut payload, &s4);
        push_enc_list(&mut payload, &s5);
        proof {
            assert(payload@ =~= spec_enc_extra_payload(self@));
        }
        let mut out: Vec<u8> = Vec::new();
        push_all(&mut out, vanity);
        push_enc_list(&mut out, &payload);
        proof {
            assert(out@ =~= spec_enc_header_extra(self@, vanity@));
        }
        out
    }
}

/// A seal whose encoding decodes back to itself: its bitmap is a canonical
/// digit string of at most 64 digits, and its signature is not absurdly
/// long.
pub open spec fn spec_seal_encodable(m: SealModel) -> bool {
    &&& spec_canonical_digits(m.bitmap)
    &&& m.bitmap.len() <= 64
    &&& m.signature.len() < pow256(8)
}

/// A header-extra record whose encoding decodes back to itself: addresses
/// are 20 bytes, the removal count fits the four-byte wire width, both
/// seals are encodable, and every encoded component length fits the
/// eight-byte length fields of the wire format. Everything a decoded record
/// satisfies.
pub open spec fn spec_extra_encodable(m: HeaderExtraModel) -> bool {
    &&& m.added_validators.len() == m.added_validators_pubkeys.len()
    &&& forall|j: int|
        0 <= j < m.added_validators.len() ==> (#[trigger] m.added_validators[j]).len() == 20
    &&& forall|j: int|
        0 <= j < m.added_validators_pubkeys.len() ==> (#[trigger] m.added_validators_pubkeys[j]).len()
            < pow256(8)
    &&& (m.removed_validators as nat) < pow256(4)
    &&& m.seal.len() < pow256(8)
    &&& spec_seal_encodable(m.aggregated_seal)
    &&& spec_seal_encodable(m.parent_aggregated_seal)
    &&& spec_enc_str_seq(m.added_validators).len() < pow256(8)
    &&& spec_enc_str_seq(m.added_validators_pubkeys).len() < pow256(8)
    &&& spec_enc_extra_payload(m).len() < pow256(8)
}

/// Law: an encodable seal's encoding decodes back to the same seal.
pub proof fn lemma_decode_seal_of_enc(m: SealModel)
    requires
        spec_seal_encodable(m),
    ensures
        spec_decode_seal(spec_enc_seal_payload(m)) == Some(m),
{
    lemma_pow256_values();
    let v = spec_bits_value(m.bitmap);
    crate::bitmap::lemma_bits_value_bound(m.bitmap);
    assert(vstd::arithmetic::power2::pow2(64) == 0x10000000000000000) by {
        vstd::arithmetic::power2::lemma2_to64_rest();
    }
    assert(vstd::arithmetic::power2::pow2(m.bitmap.len()) <= vstd::arithmetic::power2::pow2(64))
        by {
        if m.bitmap.len() < 64 {
            vstd::arithmetic::power2::lemma_pow2_strictly_increases(m.bitmap.len(), 64);
        }
    }
    assert(v < pow256(8));
    let e0 = spec_enc_scalar(v);
    let e1 = spec_enc_str(m.signature);
    let e2 = spec_enc_scalar(m.round as nat);
    let s = spec_enc_seal_payload(m);
    assert(s == e0 + e1 + e2);
    lemma_be_bytes_len(v, 8);
    lemma_be_bytes_value(v);
    assert(s.subrange(0, e0.len() as int) =~= e0);
    lemma_parse_string_at(s, 0, spec_be_bytes(v));
    lemma_parse_scalar_of_enc(v, 8);
    crate::bitmap::lemma_value_digit_bits(m.bitmap);
    let c0 = e0.len() as int;
    assert(s.subrange(c0, c0 + e1.len() as int) =~= e1);
    lemma_parse_string_at(s, c0, m.signature);
    let c1 = e1.len() as int;
    assert((m.round as nat) < pow256(8));
    lemma_be_bytes_len(m.round as nat, 8);
    lemma_be_bytes_value(m.round as nat);
    assert(s.subrange(c0 + c1, c0 + c1 + e2.len() as int) =~= e2);
    lemma_parse_string_at(s, c0 + c1, spec_be_bytes(m.round as nat));
    lemma_parse_scalar_of_enc(m.round as nat, 8);
}

/// Law: every decoded seal carries a canonical bitmap of at most 64 digits,
/// so a decoded seal can always be re-encoded.
pub proof fn lemma_decoded_seal_wf(s: Seq<u8>)
    requires
        spec_decode_seal(s) is Some,
    ensures
        spec_canonical_digits(spec_decode_seal(s)->Some_0.bitmap),
        spec_decode_seal(s)->Some_0.bitmap.len() <= 64,
{
    let p0 = spec_parse_string(s, 0);
    assert(p0 is Some);
    let bm_bytes = p0->Some_0.0;
    let sc = spec_parse_scalar(bm_bytes, 8);
    assert(sc is Some);
    let bm = sc->Some_0;
    assert(bm_bytes.len() <= 8);
    crate::rlp::lemma_be_value_bound(bm_bytes);
    lemma_pow256_mono(bm_bytes.len(), 8);
    lemma_pow256_values();
    assert(bm < pow256(8));
    crate::bitmap::lemma_digit_bits_value(bm);
    assert(vstd::arithmetic::power2::pow2(64) == 0x10000000000000000) by {
        vstd::arithmetic::power2::lemma2_to64_rest();
    }
    crate::bitmap::lemma_digit_bits_len(bm, 64);
    assert(spec_decode_seal(s)->Some_0.bitmap == spec_digit_bits(bm));
}

/// Law: every decoded header-extra record is internally consistent: each
/// added address is exactly 20 bytes, the public-key list is index-aligned
/// with the address list, and both seals carry canonical bitmaps.
#[verifier::rlimit(100)]
pub proof fn lemma_decoded_extra_wf(s: Seq<u8>)
    requires
        spec_decode_header_extra(s) is Some,
    ensures
        ({
            let m = spec_decode_header_extra(s)->Some_0;
            &&& forall|j: int|
                0 <= j < m.added_validators.len() ==> (#[trigger] m.added_validators[j]).len()
                    == 20
            &&& m.added_validators.len() == m.added_validators_pubkeys.len()
            &&& spec_canonical_digits(m.aggregated_seal.bitmap)
            &&& m.aggregated_seal.bitmap.len() <= 64
            &&& spec_canonical_digits(m.parent_aggregated_seal.bitmap)
            &&& m.parent_aggregated_seal.bitmap.len() <= 64
        }),
{
    let h = spec_parse_list_header(s, 32);
    assert(h is Some);
    let p0 = 32 + h->Some_0.1;
    let h0 = spec_parse_list_header(s, p0);
    assert(h0 is Some);
    let pl0 = h0->Some_0.0;
    let hl0 = h0->Some_0.1;
    let addrs = spec_parse_str_seq(s.subrange(p0 + hl0, p0 + hl0 + pl0));
    assert(addrs is Some);
    let p1 = p0 + hl0 + pl0;
    let h1 = spec_parse_list_header(s, p1);
    assert(h1 is Some);
    let pl1 = h1->Some_0.0;
    let hl1 = h1->Some_0.1;
    let keys = spec_parse_str_seq(s.subrange(p1 + hl1, p1 + hl1 + pl1));
    assert(keys is Some);
    let p2 = p1 + hl1 + pl1;
    let rms = spec_parse_string(s, p2);
    assert(rms is Some);
    let rm = spec_parse_scalar(rms->Some_0.0, 4);
    assert(rm is Some);
    let p3 = p2 + rms->Some_0.1;
    let own = spec_parse_string(s, p3);
    assert(own is Some);
    let p4 = p3 + own->Some_0.1;
    let h4 = spec_parse_list_header(s, p4);
    assert(h4 is Some);
    let agg = spec_decode_seal(s.subrange(p4 + h4->Some_0.1, p4 + h4->Some_0.1 + h4->Some_0.0));
    assert(agg is Some);
    lemma_decoded_seal_wf(s.subrange(p4 + h4->Some_0.1, p4 + h4->Some_0.1 + h4->Some_0.0));
    let p5 = p4 + h4->Some_0.1 + h4->Some_0.0;
    let h5 = spec_parse_list_header(s, p5);
    assert(h5 is Some);
    let parent = spec_decode_seal(
        s.subrange(p5 + h5->Some_0.1, p5 + h5->Some_0.1 + h5->Some_0.0),
    );
    assert(parent is Some);
    lemma_decoded_seal_wf(s.subrange(p5 + h5->Some_0.1, p5 + h5->Some_0.1 + h5->Some_0.0));
    let m = spec_decode_header_extra(s)->Some_0;
    assert(m.added_validators == addrs->Some_0);
    assert(m.added_validators_pubkeys == keys->Some_0);
    assert(m.aggregated_seal == agg->Some_0);
    assert(m.parent_aggregated_seal == parent->Some_0);
}

/// Law: every seal decoded from a buffer of machine size is encodable, and
/// its re-encoding stays within the wire format's length fields.
pub proof fn lemma_decoded_seal_encodable(s: Seq<u8>)
    requires
        s.len() < pow256(7),
        spec_decode_seal(s) is Some,
    ensures
        spec_seal_encodable(spec_decode_seal(s)->Some_0),
        spec_enc_seal_payload(spec_decode_seal(s)->Some_0).len() <= s.len() + 27,
        spec_enc_seal_payload(spec_decode_seal(s)->Some_0).len() < pow256(8),
{
    lemma_pow256_values();
    lemma_decoded_seal_wf(s);
    let m = spec_decode_seal(s)->Some_0;
    let p0 = spec_parse_string(s, 0)->Some_0;
    let sig = spec_parse_string(s, p0.1)->Some_0;
    crate::rlp::lemma_parse_string_value_len(s, 0);
    crate::rlp::lemma_parse_string_value_len(s, p0.1);
    assert(m.signature == sig.0);
    assert(m.signature.len() <= s.len());
    let v = spec_bits_value(m.bitmap);
    crate::bitmap::lemma_bits_value_bound(m.bitmap);
    assert(vstd::arithmetic::power2::pow2(64) == 0x10000000000000000) by {
        vstd::arithmetic::power2::lemma2_to64_rest();
    }
    assert(vstd::arithmetic::power2::pow2(m.bitmap.len()) <= vstd::arithmetic::power2::pow2(64))
        by {
        if m.bitmap.len() < 64 {
            vstd::arithmetic::power2::lemma_pow2_strictly_increases(m.bitmap.len(), 64);
        }
    }
    crate::rlp::lemma_enc_scalar_len(v);
    crate::rlp::lemma_enc_scalar_len(m.round as nat);
    crate::rlp::lemma_enc_str_len(m.signature);
    assert(spec_enc_seal_payload(m).len() <= s.len() + 27);
}

/// Law: every record decoded from a buffer of machine size is encodable, so
/// decoding and then re-encoding round-trips to an equal record for every
/// buffer the decoder accepts.
#[verifier::rlimit(100)]
pub proof fn lemma_decoded_extra_encodable(s: Seq<u8>)
    requires
        s.len() < pow256(7),
        spec_decode_header_extra(s) is Some,
    ensures
        spec_extra_encodable(spec_decode_header_extra(s)->Some_0),
{
    lemma_pow256_values();
    lemma_decoded_extra_wf(s);
    let m = spec_decode_header_extra(s)->Some_0;
    let h = spec_parse_list_header(s, 32);
    assert(h is Some);
    let p0 = 32 + h->Some_0.1;
    let h0 = spec_parse_list_header(s, p0);
    assert(h0 is Some);
    let pl0 = h0->Some_0.0;
    let hl0 = h0->Some_0.1;
    let a_payload = s.subrange(p0 + hl0, p0 + hl0 + pl0);
    let addrs = spec_parse_str_seq(a_payload);
    assert(addrs is Some);
    assert(a_payload.len() <= s.len());
    crate::rlp::lemma_parse_str_seq_lens(a_payload);
    let p1 = p0 + hl0 + pl0;
    let h1 = spec_parse_list_header(s, p1);
    assert(h1 is Some);
    let pl1 = h1->Some_0.0;
    let hl1 = h1->Some_0.1;
    let k_payload = s.subrange(p1 + hl1, p1 + hl1 + pl1);
    let keys = spec_parse_str_seq(k_payload);
    assert(keys is Some);
    assert(k_payload.len() <= s.len());
    crate::rlp::lemma_parse_str_seq_lens(k_payload);
    let p2 = p1 + hl1 + pl1;
    let rms = spec_parse_string(s, p2);
    assert(rms is Some);
    let rm = spec_parse_scalar(rms->Some_0.0, 4);
    assert(rm is Some);
    crate::rlp::lemma_be_value_bound(rms->Some_0.0);
    lemma_pow256_mono(rms->Some_0.0.len(), 4);
    let p3 = p2 + rms->Some_0.1;
    let own = spec_parse_string(s, p3);
    assert(own is Some);
    crate::rlp::lemma_parse_string_value_len(s, p3);
    let p4 = p3 + own->Some_0.1;
    let h4 = spec_parse_list_header(s, p4);
    assert(h4 is Some);
    let s4_payload = s.subrange(p4 + h4->Some_0.1, p4 + h4->Some_0.1 + h4->Some_0.0);
    let agg = spec_decode_seal(s4_payload);
    assert(agg is Some);
    assert(s4_payload.len() <= s.len());
    lemma_decoded_seal_encodable(s4_payload);
    let p5 = p4 + h4->Some_0.1 + h4->Some_0.0;
    let h5 = spec_parse_list_header(s, p5);
    assert(h5 is Some);
    let s5_payload = s.subrange(p5 + h5->Some_0.1, p5 + h5->Some_0.1 + h5->Some_0.0);
    let parent = spec_decode_seal(s5_payload);
    assert(parent is Some);
    assert(s5_payload.len() <= s.len());
    lemma_decoded_seal_encodable(s5_payload);
    assert(m.added_validators == addrs->Some_0);
    assert(m.added_validators_pubkeys == keys->Some_0);
    assert(m.seal == own->Some_0.0);
    assert(m.aggregated_seal == agg->Some_0);
    assert(m.parent_aggregated_seal == parent->Some_0);
    // the component encodings all fit the eight-byte length fields
    let a_seq = spec_enc_str_seq(m.added_validators);
    let k_seq = spec_enc_str_seq(m.added_validators_pubkeys);
    assert(a_seq.len() <= 10 * a_payload.len());
    assert(k_seq.len() <= 10 * k_payload.len());
    crate::rlp::lemma_enc_list_len(a_seq);
    crate::rlp::lemma_enc_list_len(k_seq);
    crate::rlp::lemma_enc_scalar_len(m.removed_validators as nat);
    crate::rlp::lemma_enc_str_len(m.seal);
    crate::rlp::lemma_enc_list_len(spec_enc_seal_payload(m.aggregated_seal));
    crate::rlp::lemma_enc_list_len(spec_enc_seal_payload(m.parent_aggregated_seal));
    assert(spec_enc_list(a_seq).len() <= 10 * s.len() + 9);
    assert(spec_enc_list(k_seq).len() <= 10 * s.len() + 9);
    assert(spec_enc_scalar(m.removed_validators as nat).len() <= 9);
    assert(spec_enc_str(m.seal).len() <= s.len() + 9);
    assert(spec_enc_list(spec_enc_seal_payload(m.aggregated_seal)).len() <= s.len() + 36);
    assert(spec_enc_list(spec_enc_seal_payload(m.parent_aggregated_seal)).len() <= s.len() + 36);
    assert(spec_enc_extra_payload(m).len() <= 23 * s.len() + 108);
    assert(pow256(8) == 256 * pow256(7));
    assert(spec_enc_extra_payload(m).len() < pow256(8));
}

/// Law: decoding and then re-encoding round-trips to an equal record: for
/// every buffer of machine size that the decoder accepts, re-encoding the
/// decoded record behind any 32-byte vanity prefix yields a buffer that
/// decodes to the very same record.
pub proof fn lemma_decode_then_reencode(s: Seq<u8>, vanity: Seq<u8>)
    requires
        vanity.len() == 32,
        s.len() < pow256(7),
        spec_decode_header_extra(s) is Some,
    ensures
        spec_decode_header_extra(
            spec_enc_header_extra(spec_decode_header_extra(s)->Some_0, vanity),
        ) == Some(spec_decode_header_extra(s)->Some_0),
{
    lemma_decoded_extra_encodable(s);
    lemma_decode_extra_of_enc(spec_decode_header_extra(s)->Some_0, vanity);
}

/// Two halves of a concatenation are its two complementary subranges.
proof fn lemma_cat_both(a: Seq<u8>, b: Seq<u8>)
    ensures
        (a + b).subrange(0, a.len() as int) == a,
        (a + b).subrange(a.len() as int, (a + b).len() as int) == b,
{
    assert((a + b).subrange(0, a.len() as int) =~= a);
    assert((a + b).subrange(a.len() as int, (a + b).len() as int) =~= b);
}

/// A subrange of a subrange is the inner subrange shifted.
proof fn lemma_nested_subrange(s: Seq<u8>, c: int, d: int, u: int, v: int)
    requires
        0 <= c <= d <= s.len(),
        0 <= u <= v <= d - c,
    ensures
        s.subrange(c + u, c + v) == s.subrange(c, d).subrange(u, v),
{
    assert(s.subrange(c + u, c + v) =~= s.subrange(c, d).subrange(u, v));
}

/// Law: an encodable record's encoding, behind any 32-byte vanity prefix,
/// decodes back to the same record. Decoding then re-encoding therefore
/// round-trips to an equal record.
#[verifier::rlimit(100)]
pub proof fn lemma_decode_extra_of_enc(m: HeaderExtraModel, vanity: Seq<u8>)
    requires
        vanity.len() == 32,
        spec_extra_encodable(m),
    ensures
        spec_decode_header_extra(spec_enc_header_extra(m, vanity)) == Some(m),
{
    lemma_pow256_values();
    let pp = spec_enc_extra_payload(m);
    let hh = spec_len_header(pp.len(), 0xc0);
    let s = spec_enc_header_extra(m, vanity);
    let x = hh + pp;
    assert(s == vanity + x);
    let slen = s.len() as int;
    lemma_cat_both(vanity, x);
    lemma_cat_both(hh, pp);
    lemma_nested_subrange(s, 32, slen, 0, hh.len() as int);
    lemma_nested_subrange(s, 32, slen, hh.len() as int, x.len() as int);
    let p0 = 32 + hh.len() as int;
    assert(s.subrange(p0, slen) == pp);
    // the six components of the outer payload
    let a_seq = spec_enc_str_seq(m.added_validators);
    let ha = spec_len_header(a_seq.len(), 0xc0);
    let ea = spec_enc_list(a_seq);
    let k_seq = spec_enc_str_seq(m.added_validators_pubkeys);
    let hk = spec_len_header(k_seq.len(), 0xc0);
    let ek = spec_enc_list(k_seq);
    let er = spec_enc_scalar(m.removed_validators as nat);
    let es = spec_enc_str(m.seal);
    let pay4 = spec_enc_seal_payload(m.aggregated_seal);
    let e4 = spec_enc_list(pay4);
    let pay5 = spec_enc_seal_payload(m.parent_aggregated_seal);
    let e5 = spec_enc_list(pay5);
    let a1 = ea + ek;
    let a2 = a1 + er;
    let a3 = a2 + es;
    let a4 = a3 + e4;
    assert(pp == a4 + e5);
    lemma_cat_both(a4, e5);
    lemma_cat_both(a3, e4);
    lemma_cat_both(a2, es);
    lemma_cat_both(a1, er);
    lemma_cat_both(ea, ek);
    lemma_cat_both(ha, a_seq);
    lemma_cat_both(hk, k_seq);
    // peel prefixes inside the payload, right to left
    lemma_nested_subrange(pp, 0, a4.len() as int, 0, a3.len() as int);
    lemma_nested_subrange(pp, 0, a4.len() as int, a3.len() as int, a4.len() as int);
    lemma_nested_subrange(pp, 0, a3.len() as int, 0, a2.len() as int);
    lemma_nested_subrange(pp, 0, a3.len() as int, a2.len() as int, a3.len() as int);
    lemma_nested_subrange(pp, 0, a2.len() as int, 0, a1.len() as int);
    lemma_nested_subrange(pp, 0, a2.len() as int, a1.len() as int, a2.len() as int);
    lemma_nested_subrange(pp, 0, a1.len() as int, 0, ea.len() as int);
    lemma_nested_subrange(pp, 0, a1.len() as int, ea.len() as int, a1.len() as int);
    assert(pp.subrange(0, ea.len() as int) == ea);
    assert(pp.subrange(ea.len() as int, a1.len() as int) == ek);
    assert(pp.subrange(a1.len() as int, a2.len() as int) == er);
    assert(pp.subrange(a2.len() as int, a3.len() as int) == es);
    assert(pp.subrange(a3.len() as int, a4.len() as int) == e4);
    assert(pp.subrange(a4.len() as int, pp.len() as int) == e5);
    // split the two string-list items into header and payload
    lemma_nested_subrange(pp, 0, ea.len() as int, 0, ha.len() as int);
    lemma_nested_subrange(pp, 0, ea.len() as int, ha.len() as int, ea.len() as int);
    lemma_nested_subrange(pp, ea.len() as int, a1.len() as int, 0, hk.len() as int);
    lemma_nested_subrange(pp, ea.len() as int, a1.len() as int, hk.len() as int, ek.len() as int);
    // lift every component subrange from the payload to the whole buffer
    lemma_nested_subrange(s, p0, slen, 0, ha.len() as int);
    lemma_nested_subrange(s, p0, slen, ha.len() as int, ea.len() as int);
    lemma_nested_subrange(s, p0, slen, ea.len() as int, (ea.len() + hk.len()) as int);
    lemma_nested_subrange(s, p0, slen, (ea.len() + hk.len()) as int, a1.len() as int);
    lemma_nested_subrange(s, p0, slen, a1.len() as int, a2.len() as int);
    lemma_nested_subrange(s, p0, slen, a2.len() as int, a3.len() as int);
    lemma_nested_subrange(s, p0, slen, a3.len() as int, a4.len() as int);
    lemma_nested_subrange(s, p0, slen, a4.len() as int, pp.len() as int);
    assert(s.subrange(p0 + ea.len(), p0 + ea.len() + hk.len()) == pp.subrange(
        ea.len() as int,
        a1.len() as int,
    ).subrange(0, hk.len() as int));
    assert(s.subrange(p0 + ea.len() + hk.len(), p0 + a1.len()) == pp.subrange(
        ea.len() as int,
        a1.len() as int,
    ).subrange(hk.len() as int, ek.len() as int));
    // outer list
    lemma_parse_list_header_at(s, 32, pp.len());
    // field 0
    assert(s.subrange(p0, p0 + ha.len()) == ha);
    lemma_parse_list_header_at(s, p0, a_seq.len());
    let a_start = p0 + ha.len() as int;
    assert(s.subrange(a_start, a_start + a_seq.len()) == a_seq);
    assert(forall|j: int|
        0 <= j < m.added_validators.len() ==> (#[trigger] m.added_validators[j]).len() < pow256(
            8,
        ));
    lemma_parse_str_seq_of_enc(m.added_validators);
    let p1 = a_start + a_seq.len() as int;
    // field 1
    assert(s.subrange(p1, p1 + hk.len()) == hk);
    lemma_parse_list_header_at(s, p1, k_seq.len());
    let k_start = p1 + hk.len() as int;
    assert(s.subrange(k_start, k_start + k_seq.len()) == k_seq);
    lemma_parse_str_seq_of_enc(m.added_validators_pubkeys);
    let p2 = k_start + k_seq.len() as int;
    // field 2
    let rm = m.removed_validators as nat;
    lemma_pow256_mono(4, 8);
    lemma_be_bytes_len(rm, 8);
    lemma_be_bytes_value(rm);
    assert(s.subrange(p2, p2 + er.len()) == er);
    lemma_parse_string_at(s, p2, spec_be_bytes(rm));
    lemma_parse_scalar_of_enc(rm, 4);
    let p3 = p2 + er.len() as int;
    // fields 3 to 5
    assert(s.subrange(p3, p3 + es.len()) == es);
    assert(s.subrange(p3 + es.len(), p3 + es.len() + e4.len()) == e4);
    assert(s.subrange(p3 + es.len() + e4.len(), slen) == e5);
    lemma_decode_tail_at(
        s,
        p3,
        m.added_validators,
        m.added_validators_pubkeys,
        m.removed_validators,
        m.seal,
        m.aggregated_seal,
        m.parent_aggregated_seal,
    );
    assert(spec_decode_header_extra(s) == Some(m));
}

/// The tail of the round-trip argument: given that the own seal string and
/// the two encoded seal lists sit back to back from `p3` to the end of the
/// buffer, the tail decoder recovers exactly those fields.
#[verifier::rlimit(100)]
proof fn lemma_decode_tail_at(
    s: Seq<u8>,
    p3: int,
    addrs: Seq<Seq<u8>>,
    keys: Seq<Seq<u8>>,
    removed: u64,
    own: Seq<u8>,
    m4: SealModel,
    m5: SealModel,
)
    requires
        spec_seal_encodable(m4),
        spec_seal_encodable(m5),
        own.len() < pow256(8),
        spec_enc_seal_payload(m4).len() < pow256(8),
        spec_enc_seal_payload(m5).len() < pow256(8),
        0 <= p3,
        s.len() == p3 + spec_enc_str(own).len() + spec_enc_list(spec_enc_seal_payload(m4)).len()
            + spec_enc_list(spec_enc_seal_payload(m5)).len(),
        s.subrange(p3, p3 + spec_enc_str(own).len()) == spec_enc_str(own),
        s.subrange(
            p3 + spec_enc_str(own).len(),
            p3 + spec_enc_str(own).len() + spec_enc_list(spec_enc_seal_payload(m4)).len(),
        ) == spec_enc_list(spec_enc_seal_payload(m4)),
        s.subrange(
            p3 + spec_enc_str(own).len() + spec_enc_list(spec_enc_seal_payload(m4)).len(),
            s.len() as int,
        ) == spec_enc_list(spec_enc_seal_payload(m5)),
    ensures
        spec_decode_tail(s, p3, addrs, keys, removed) == Some(
            (HeaderExtraModel {
                added_validators: addrs,
                added_validators_pubkeys: keys,
                removed_validators: removed,
                seal: own,
                aggregated_seal: m4,
                parent_aggregated_seal: m5,
            }),
        ),
{
    let es = spec_enc_str(own);
    lemma_parse_string_at(s, p3, own);
    let p4 = p3 + es.len() as int;
    let pay4 = spec_enc_seal_payload(m4);
    let h4 = spec_len_header(pay4.len(), 0xc0);
    let e4 = spec_enc_list(pay4);
    assert(e4 == h4 + pay4);
    assert forall|k: int| 0 <= k < e4.len() implies s[p4 + k] == e4[k] by {
        assert(s.subrange(p4, p4 + e4.len() as int)[k] == s[p4 + k]);
    }
    assert(s.subrange(p4, p4 + h4.len() as int) =~= h4);
    lemma_parse_list_header_at(s, p4, pay4.len());
    let s4_start = p4 + h4.len() as int;
    assert forall|t: int|
        0 <= t < pay4.len() implies s.subrange(s4_start, s4_start + pay4.len() as int)[t]
        == pay4[t] by {
        assert(s[p4 + (h4.len() + t)] == e4[h4.len() + t]);
    }
    assert(s.subrange(s4_start, s4_start + pay4.len() as int) =~= pay4);
    lemma_decode_seal_of_enc(m4);
    let p5 = s4_start + pay4.len() as int;
    let pay5 = spec_enc_seal_payload(m5);
    let h5 = spec_len_header(pay5.len(), 0xc0);
    let e5 = spec_enc_list(pay5);
    assert(e5 == h5 + pay5);
    assert forall|k: int| 0 <= k < e5.len() implies s[p5 + k] == e5[k] by {
        assert(s.subrange(p5, s.len() as int)[k] == s[p5 + k]);
    }
    assert(s.subrange(p5, p5 + h5.len() as int) =~= h5);
    lemma_parse_list_header_at(s, p5, pay5.len());
    let s5_start = p5 + h5.len() as int;
    assert forall|t: int|
        0 <= t < pay5.len() implies s.subrange(s5_start, s5_start + pay5.len() as int)[t]
        == pay5[t] by {
        assert(s[p5 + (h5.len() + t)] == e5[h5.len() + t]);
    }
    assert(s.subrange(s5_start, s5_start + pay5.len() as int) =~= pay5);
    lemma_decode_seal_of_enc(m5);
    let p6 = s5_start + pay5.len() as int;
    assert(p6 == s.len());
}

} // verus!
