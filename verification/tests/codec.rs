use plumo_epochs::errors::PipelineError;
use plumo_epochs::types::{AggregatedSeal, Address, HeaderExtra, VANITY};

fn minimal_record_bytes() -> Vec<u8> {
    // 32-byte vanity prefix, then a six-field list:
    //   [] (no added addresses), [] (no added keys), 2 (removed count),
    //   "" (own seal), seal {bitmap 5, sig [0xaa, 0xbb], round 1},
    //   parent seal {bitmap 0, sig "", round 0}
    let mut buf = vec![0u8; VANITY];
    buf.push(0xce); // outer list, payload length 14
    buf.push(0xc0); // field 0: empty list
    buf.push(0xc0); // field 1: empty list
    buf.push(0x02); // field 2: scalar 2
    buf.push(0x80); // field 3: empty string
    buf.push(0xc5); // field 4: seal list, payload length 5
    buf.push(0x05); //   bitmap integer 5
    buf.push(0x82); //   2-byte signature
    buf.push(0xaa);
    buf.push(0xbb);
    buf.push(0x01); //   round 1
    buf.push(0xc3); // field 5: seal list, payload length 3
    buf.push(0x80); //   bitmap integer 0
    buf.push(0x80); //   empty signature
    buf.push(0x80); //   round 0
    buf
}

#[test]
fn decode_minimal_record() {
    let buf = minimal_record_bytes();
    let rec = HeaderExtra::decode(&buf).unwrap();
    assert_eq!(rec.added_validators.len(), 0);
    assert_eq!(rec.added_validators_pubkeys.len(), 0);
    assert_eq!(rec.removed_validators, 2);
    assert_eq!(rec.seal, Vec::<u8>::new());
    assert_eq!(rec.aggregated_seal.bitmap, vec![true, false, true]);
    assert_eq!(rec.aggregated_seal.signature, vec![0xaa, 0xbb]);
    assert_eq!(rec.aggregated_seal.round, 1);
    assert_eq!(rec.parent_aggregated_seal.bitmap, vec![false]);
    assert_eq!(rec.parent_aggregated_seal.signature, Vec::<u8>::new());
    assert_eq!(rec.parent_aggregated_seal.round, 0);
}

#[test]
fn removal_count_without_added_addresses_fabricates_no_identities() {
    // A removal count of 2 with zero added addresses: the record carries the
    // count and nothing stands in for the removed validators.
    let buf = minimal_record_bytes();
    let rec = HeaderExtra::decode(&buf).unwrap();
    assert_eq!(rec.removed_validators, 2);
    assert_eq!(rec.added_validators.len(), 0);
    assert_eq!(rec.added_validators_pubkeys.len(), 0);
}

#[test]
fn encode_minimal_record_exact_bytes() {
    let rec = HeaderExtra {
        added_validators: Vec::new(),
        added_validators_pubkeys: Vec::new(),
        removed_validators: 2,
        seal: Vec::new(),
        aggregated_seal: AggregatedSeal {
            bitmap: vec![true, false, true],
            round: 1,
            signature: vec![0xaa, 0xbb],
        },
        parent_aggregated_seal: AggregatedSeal {
            bitmap: vec![false],
            round: 0,
            signature: Vec::new(),
        },
    };
    let vanity = vec![0u8; 32];
    let encoded = rec.encode(&vanity);
    assert_eq!(encoded, minimal_record_bytes());
}

#[test]
fn round_trip_full_record() {
    let addr_a: Vec<u8> = (0u8..20).collect();
    let addr_b: Vec<u8> = (100u8..120).collect();
    let key_a: Vec<u8> = (0u8..96).map(|i| i.wrapping_mul(3)).collect();
    let key_b: Vec<u8> = (0u8..96).map(|i| i.wrapping_add(7)).collect();
    let own_seal: Vec<u8> = (0u8..65).collect(); // longer than 55: long-form string
    let rec = HeaderExtra {
        added_validators: vec![
            Address { bytes: addr_a.clone() },
            Address { bytes: addr_b.clone() },
        ],
        added_validators_pubkeys: vec![key_a.clone(), key_b.clone()],
        removed_validators: 7,
        seal: own_seal.clone(),
        aggregated_seal: AggregatedSeal {
            bitmap: vec![true, true, false, true],
            round: 5,
            signature: (0u8..48).collect(),
        },
        parent_aggregated_seal: AggregatedSeal {
            bitmap: vec![true],
            round: 4,
            signature: (50u8..98).collect(),
        },
    };
    let vanity: Vec<u8> = vec![0x11; 32]; // arbitrary vanity bytes are skipped
    let encoded = rec.encode(&vanity);
    let back = HeaderExtra::decode(&encoded).unwrap();
    assert_eq!(back.added_validators.len(), 2);
    assert_eq!(back.added_validators[0].bytes, addr_a);
    assert_eq!(back.added_validators[1].bytes, addr_b);
    assert_eq!(back.added_validators_pubkeys, vec![key_a, key_b]);
    assert_eq!(back.removed_validators, 7);
    assert_eq!(back.seal, own_seal);
    assert_eq!(back.aggregated_seal.bitmap, vec![true, true, false, true]);
    assert_eq!(back.aggregated_seal.round, 5);
    assert_eq!(back.aggregated_seal.signature, (0u8..48).collect::<Vec<u8>>());
    assert_eq!(back.parent_aggregated_seal.bitmap, vec![true]);
    assert_eq!(back.parent_aggregated_seal.round, 4);
    assert_eq!(
        back.parent_aggregated_seal.signature,
        (50u8..98).collect::<Vec<u8>>()
    );
}

#[test]
fn decode_then_reencode_round_trips() {
    let buf = minimal_record_bytes();
    let rec = HeaderExtra::decode(&buf).unwrap();
    let vanity = vec![0x77u8; 32]; // a different vanity prefix is fine
    let reencoded = rec.encode(&vanity);
    let again = HeaderExtra::decode(&reencoded).unwrap();
    assert_eq!(again.removed_validators, rec.removed_validators);
    assert_eq!(again.added_validators.len(), rec.added_validators.len());
    assert_eq!(again.seal, rec.seal);
    assert_eq!(again.aggregated_seal.bitmap, rec.aggregated_seal.bitmap);
    assert_eq!(again.aggregated_seal.signature, rec.aggregated_seal.signature);
    assert_eq!(again.aggregated_seal.round, rec.aggregated_seal.round);
    assert_eq!(
        again.parent_aggregated_seal.bitmap,
        rec.parent_aggregated_seal.bitmap
    );
}

#[test]
fn shorter_than_vanity_is_malformed_not_a_panic() {
    for n in [0usize, 1, 16, 31] {
        let buf = vec![0u8; n];
        let r = HeaderExtra::decode(&buf);
        assert!(matches!(r, Err(PipelineError::MalformedRecord)));
    }
}

#[test]
fn vanity_alone_is_malformed() {
    let buf = vec![0u8; 32];
    assert!(matches!(
        HeaderExtra::decode(&buf),
        Err(PipelineError::MalformedRecord)
    ));
}

#[test]
fn truncated_record_is_malformed() {
    let mut buf = minimal_record_bytes();
    buf.pop();
    assert!(matches!(
        HeaderExtra::decode(&buf),
        Err(PipelineError::MalformedRecord)
    ));
}

#[test]
fn trailing_byte_is_malformed() {
    let mut buf = minimal_record_bytes();
    buf.push(0x00);
    assert!(matches!(
        HeaderExtra::decode(&buf),
        Err(PipelineError::MalformedRecord)
    ));
}

#[test]
fn string_where_list_expected_is_malformed() {
    // outer list whose first field is the string 0x01 instead of a list
    let mut buf = vec![0u8; 32];
    buf.push(0xce);
    buf.push(0x01); // field 0 is a string item: wrong type
    buf.extend_from_slice(&[0xc0, 0x02, 0x80]);
    buf.extend_from_slice(&[0xc5, 0x05, 0x82, 0xaa, 0xbb, 0x01]);
    buf.extend_from_slice(&[0xc3, 0x80, 0x80, 0x80]);
    assert!(matches!(
        HeaderExtra::decode(&buf),
        Err(PipelineError::MalformedRecord)
    ));
}

#[test]
fn address_of_wrong_length_is_malformed() {
    // field 0 holds one 2-byte string: not a 20-byte account identifier
    let mut buf = vec![0u8; 32];
    buf.push(0xc0 + 17);
    buf.push(0xc3); // field 0: list with one 2-byte string
    buf.push(0x82);
    buf.push(0x01);
    buf.push(0x02);
    buf.extend_from_slice(&[0xc0, 0x02, 0x80]);
    buf.extend_from_slice(&[0xc5, 0x05, 0x82, 0xaa, 0xbb, 0x01]);
    buf.extend_from_slice(&[0xc3, 0x80, 0x80, 0x80]);
    assert!(matches!(
        HeaderExtra::decode(&buf),
        Err(PipelineError::MalformedRecord)
    ));
}

#[test]
fn scalar_with_leading_zero_is_malformed() {
    // removal count encoded as the 2-byte string 0x00 0x02: not minimal
    let mut buf = vec![0u8; 32];
    buf.push(0xc0 + 16);
    buf.push(0xc0);
    buf.push(0xc0);
    buf.push(0x82); // field 2: 2-byte string with leading zero
    buf.push(0x00);
    buf.push(0x02);
    buf.push(0x80);
    buf.extend_from_slice(&[0xc5, 0x05, 0x82, 0xaa, 0xbb, 0x01]);
    buf.extend_from_slice(&[0xc3, 0x80, 0x80, 0x80]);
    assert!(matches!(
        HeaderExtra::decode(&buf),
        Err(PipelineError::MalformedRecord)
    ));
}

#[test]
fn mismatched_address_and_key_counts_are_malformed() {
    // one added address but zero added public keys: the lists must be
    // index-aligned, so the record is rejected
    let mut buf = vec![0u8; 32];
    buf.push(0xc0 + 35);
    buf.push(0xc0 + 21); // field 0: list with one 20-byte string
    buf.push(0x94);
    buf.extend_from_slice(&[0x55; 20]);
    buf.push(0xc0); // field 1: empty list
    buf.push(0x02);
    buf.push(0x80);
    buf.extend_from_slice(&[0xc5, 0x05, 0x82, 0xaa, 0xbb, 0x01]);
    buf.extend_from_slice(&[0xc3, 0x80, 0x80, 0x80]);
    assert!(matches!(
        HeaderExtra::decode(&buf),
        Err(PipelineError::MalformedRecord)
    ));
}

#[test]
fn decode_record_with_aligned_address_and_key() {
    let mut buf = vec![0u8; 32];
    buf.push(0xc0 + 39);
    buf.push(0xc0 + 21); // field 0: one 20-byte address
    buf.push(0x94);
    buf.extend_from_slice(&[0x55; 20]);
    buf.push(0xc0 + 4); // field 1: one 3-byte key
    buf.push(0x83);
    buf.extend_from_slice(&[0x01, 0x02, 0x03]);
    buf.push(0x02);
    buf.push(0x80);
    buf.extend_from_slice(&[0xc5, 0x05, 0x82, 0xaa, 0xbb, 0x01]);
    buf.extend_from_slice(&[0xc3, 0x80, 0x80, 0x80]);
    let rec = HeaderExtra::decode(&buf).unwrap();
    assert_eq!(rec.added_validators.len(), 1);
    assert_eq!(rec.added_validators[0].bytes, vec![0x55; 20]);
    assert_eq!(rec.added_validators_pubkeys, vec![vec![0x01, 0x02, 0x03]]);
}

#[test]
fn seal_decode_rejects_extra_field() {
    // a seal payload with a fourth item
    let payload = vec![0x05, 0x82, 0xaa, 0xbb, 0x01, 0x01];
    assert!(matches!(
        AggregatedSeal::decode(&payload),
        Err(PipelineError::MalformedRecord)
    ));
}

#[test]
fn seal_decode_minimal() {
    let payload = vec![0x05, 0x82, 0xaa, 0xbb, 0x01];
    let seal = AggregatedSeal::decode(&payload).unwrap();
    assert_eq!(seal.bitmap, vec![true, false, true]);
    assert_eq!(seal.signature, vec![0xaa, 0xbb]);
    assert_eq!(seal.round, 1);
}
