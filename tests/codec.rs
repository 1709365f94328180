use record_codec::bits::{bits_to_bytes, bytes_to_bits};
use record_codec::{CodecError, DecodedRecord, Record, RecordEncoder};

/// A codec with D = 79, P = 78 and identifiers of 100 bits.
fn small(payload_size: usize) -> RecordEncoder {
    RecordEncoder::new(70, 80, 100, payload_size).expect("widths are consistent")
}

fn record(e: &RecordEncoder, payload: Vec<u8>, value: u64) -> Record {
    let id_len = (e.outer_field_bitsize + 7) / 8;
    let rand_len = (e.inner_field_bitsize - 1 + 7) / 8;
    let mut birth = vec![0u8; id_len];
    let mut death = vec![0u8; id_len];
    for i in 0..id_len - 1 {
        birth[i] = (i as u8).wrapping_mul(37).wrapping_add(11);
        death[i] = (i as u8).wrapping_mul(91).wrapping_add(200);
    }
    // Keep every bit from the outer field's width on clear.
    let top = e.outer_field_bitsize % 8;
    let mask = if top == 0 { 0xff } else { (1u8 << top) - 1 };
    birth[id_len - 1] = 0xa5 & mask;
    death[id_len - 1] = 0x5a & mask;
    let mut randomness = vec![0u8; rand_len];
    let full = e.scalar_field_bitsize / 8;
    for i in 0..full {
        randomness[i] = (i as u8).wrapping_mul(13).wrapping_add(7);
    }
    Record {
        payload,
        value,
        birth_program_id: birth,
        death_program_id: death,
        serial_number_nonce: vec![9, 8, 7, 6],
        commitment_randomness: randomness,
    }
}

fn copy(r: &Record) -> Record {
    Record {
        payload: r.payload.clone(),
        value: r.value,
        birth_program_id: r.birth_program_id.clone(),
        death_program_id: r.death_program_id.clone(),
        serial_number_nonce: r.serial_number_nonce.clone(),
        commitment_randomness: r.commitment_randomness.clone(),
    }
}

fn pattern(len: usize) -> Vec<u8> {
    (0..len).map(|i| (i as u8).wrapping_mul(29).wrapping_add(3)).collect()
}

/// Encodes, hands the bytes back unchanged as a group decoding would, decodes.
fn round_trip(e: &RecordEncoder, r: &Record) -> (usize, DecodedRecord) {
    let body = e.serialize(r).expect("record is valid");
    let signs: Vec<bool> = (0..body.len()).map(|i| i % 3 == 1).collect();
    let tail = e.serialize_tail(r, &signs).expect("one sign per body element");
    let recovered = e.sign_bits(body.len() + 2, &tail).expect("tail is long enough");
    assert_eq!(recovered.len(), body.len() + 1);
    assert!(!recovered[0]);
    assert_eq!(&recovered[1..], &signs[..]);
    let d = e.deserialize(r.serial_number_nonce.clone(), &body, &tail).expect("decodes");
    (body.len() + 2, d)
}

fn assert_same(d: &DecodedRecord, r: &Record) {
    assert_eq!(d.payload, r.payload);
    assert_eq!(d.value, r.value);
    assert_eq!(d.birth_program_id, r.birth_program_id);
    assert_eq!(d.death_program_id, r.death_program_id);
    assert_eq!(d.serial_number_nonce, r.serial_number_nonce);
    assert_eq!(d.commitment_randomness, r.commitment_randomness);
}

#[test]
fn round_trip_standard_widths() {
    let e = RecordEncoder::edwards_bls12();
    let r = record(&e, pattern(128), 0x0123_4567_89ab_cdef);
    let (n, d) = round_trip(&e, &r);
    // 4 full chunks of 251 bits, 20 leftover bits that fit in the tail.
    assert_eq!(n, 10);
    assert!(!e.overflows());
    assert_same(&d, &r);
}

#[test]
fn round_trip_extreme_values() {
    let e = RecordEncoder::edwards_bls12();
    for value in [0u64, 1, u64::MAX] {
        let r = record(&e, vec![0u8; 128], value);
        let (_, d) = round_trip(&e, &r);
        assert_same(&d, &r);
        let r = record(&e, vec![0xffu8; 128], value);
        let (_, d) = round_trip(&e, &r);
        assert_same(&d, &r);
    }
}

#[test]
fn from_record_keeps_fields() {
    let e = RecordEncoder::edwards_bls12();
    let r = record(&e, pattern(128), 42);
    let d = DecodedRecord::from(copy(&r));
    assert_same(&d, &r);
}

#[test]
fn empty_payload_gives_minimum_length() {
    let e = small(0);
    assert_eq!(e.body_count(), 4);
    let r = record(&e, vec![], 77);
    let (n, d) = round_trip(&e, &r);
    assert_eq!(n, 6);
    assert!(d.payload.is_empty());
    assert_eq!(d.value, 77);
    assert_same(&d, &r);
}

#[test]
fn payload_multiple_of_chunk_width() {
    // 39 bytes = 312 bits = 4 chunks of 78 bits, nothing left over.
    let e = small(39);
    assert!(!e.overflows());
    let r = record(&e, pattern(39), 5);
    let (n, d) = round_trip(&e, &r);
    assert_eq!(n, 5 + 4 + 1);
    assert_same(&d, &r);
}

#[test]
fn value_forces_overflow_element() {
    // 16 leftover bits + 5 sign bits + 64 value bits exceed the 78-bit chunk.
    let e = small(2);
    assert!(e.overflows());
    let r = record(&e, vec![0xc3, 0x3c], u64::MAX - 5);
    let (n, d) = round_trip(&e, &r);
    assert_eq!(n, 5 + 0 + 1 + 1);
    assert_same(&d, &r);

    // One byte less: 8 + 5 + 64 = 77 bits fit, no extra element.
    let e = small(1);
    assert!(!e.overflows());
    let r = record(&e, vec![0x81], 12345);
    let (n, d) = round_trip(&e, &r);
    assert_eq!(n, 6);
    assert_same(&d, &r);
}

#[test]
fn guard_bit_follows_each_payload_chunk() {
    let e = small(39);
    let r = record(&e, pattern(39), 5);
    let body = e.serialize(&r).unwrap();
    for element in &body[4..] {
        let bits = bytes_to_bits(element);
        assert!(bits[78]);
    }
    let e = small(2);
    let r = record(&e, vec![0, 0], 0);
    let body = e.serialize(&r).unwrap();
    let bits = bytes_to_bits(&body[4]);
    assert_eq!(&bits[..16], &[false; 16][..]);
    assert!(bits[16]);
}

#[test]
fn length_depends_on_payload_length_only() {
    let e = RecordEncoder::edwards_bls12();
    let a = e.serialize(&record(&e, vec![0u8; 128], 0)).unwrap();
    let b = e.serialize(&record(&e, pattern(128), u64::MAX)).unwrap();
    assert_eq!(a.len(), b.len());
    assert_eq!(a.len(), e.body_count());
}

#[test]
fn short_sequence_is_structural_error() {
    let e = RecordEncoder::edwards_bls12();
    let r = record(&e, pattern(128), 3);
    let body = e.serialize(&r).unwrap();
    let signs = vec![false; body.len()];
    let tail = e.serialize_tail(&r, &signs).unwrap();
    // Nonce, two body elements and the tail: four elements in all.
    let short = vec![body[0].clone(), body[1].clone()];
    let res = e.deserialize(r.serial_number_nonce.clone(), &short, &tail);
    assert!(matches!(res, Err(CodecError::StructuralError)));
}

#[test]
fn short_tail_is_structural_error() {
    let e = RecordEncoder::edwards_bls12();
    let r = record(&e, pattern(128), 3);
    let body = e.serialize(&r).unwrap();
    let tail = vec![0xffu8; 4];
    assert_eq!(e.sign_bits(body.len() + 2, &tail), Err(CodecError::StructuralError));
    let res = e.deserialize(r.serial_number_nonce.clone(), &body, &tail);
    assert!(matches!(res, Err(CodecError::StructuralError)));
}

#[test]
fn short_element_is_format_mismatch() {
    let e = RecordEncoder::edwards_bls12();
    let r = record(&e, pattern(128), 3);
    let mut body = e.serialize(&r).unwrap();
    let signs = vec![true; body.len()];
    let tail = e.serialize_tail(&r, &signs).unwrap();
    body[6] = vec![1, 2, 3];
    let res = e.deserialize(r.serial_number_nonce.clone(), &body, &tail);
    assert!(matches!(res, Err(CodecError::FormatMismatch)));
}

#[test]
fn wrong_sign_count_is_structural_error() {
    let e = RecordEncoder::edwards_bls12();
    let r = record(&e, pattern(128), 3);
    let res = e.serialize_tail(&r, &vec![false; 3]);
    assert_eq!(res, Err(CodecError::StructuralError));
}

#[test]
fn malformed_fields_are_format_mismatch() {
    let e = RecordEncoder::edwards_bls12();
    let good = record(&e, pattern(128), 3);

    let mut r = copy(&good);
    r.payload.pop();
    assert!(matches!(e.serialize(&r), Err(CodecError::FormatMismatch)));
    assert_eq!(e.serialize_tail(&r, &vec![false; 8]), Err(CodecError::FormatMismatch));

    // Bit 377 of the birth identifier lies beyond the outer field's width.
    let mut r = copy(&good);
    r.birth_program_id[47] |= 0x02;
    assert!(matches!(e.serialize(&r), Err(CodecError::FormatMismatch)));

    // Bit 251 of the randomness lies beyond the scalar field's width.
    let mut r = copy(&good);
    r.commitment_randomness[31] |= 0x08;
    assert!(matches!(e.serialize(&r), Err(CodecError::FormatMismatch)));

    let mut r = copy(&good);
    r.death_program_id.push(0);
    assert!(matches!(e.serialize(&r), Err(CodecError::FormatMismatch)));
}

#[test]
fn inconsistent_widths_are_refused() {
    // Scalar field as wide as the inner field.
    assert!(RecordEncoder::new(253, 253, 377, 128).is_none());
    // Identifier remainders 2 * (500 - 252) bits do not fit one element.
    assert!(RecordEncoder::new(251, 253, 500, 128).is_none());
    // A payload of 10000 bytes leaves more sign bits than the tail holds.
    assert!(RecordEncoder::new(251, 253, 377, 10000).is_none());
    let e = RecordEncoder::new(251, 253, 377, 128).unwrap();
    assert_eq!(e.data_element_bitsize(), 252);
    assert_eq!(e.payload_element_bitsize(), 251);
    assert_eq!(e.body_count(), 8);
}

#[test]
fn element_bytes_follow_the_layout() {
    let e = small(0);
    let r = record(&e, vec![], 0x0102_0304_0506_0708);
    let body = e.serialize(&r).unwrap();
    // Randomness: its first 79 bits, in 10 bytes.
    assert_eq!(body[0].len(), 10);
    assert_eq!(body[0], r.commitment_randomness);
    // Birth identifier: the low 79 bits; bit 79 is cleared.
    let mut low = r.birth_program_id[..10].to_vec();
    low[9] &= 0x7f;
    assert_eq!(body[1], low);
    // The tail: guard, six sign bits, then the value's 64 bits.
    let signs = vec![true, false, true, false];
    let tail = e.serialize_tail(&r, &signs).unwrap();
    let bits = bytes_to_bits(&tail);
    assert_eq!(&bits[..6], &[true, false, true, false, true, false][..]);
    let value_bits: Vec<bool> = bits[6..70].to_vec();
    assert_eq!(bits_to_bytes(&value_bits), r.value.to_le_bytes().to_vec());
    assert_eq!(tail.len(), 9);
}

#[test]
fn bit_packing_is_little_endian() {
    assert_eq!(bytes_to_bits(&vec![0x01, 0x80]), {
        let mut v = vec![false; 16];
        v[0] = true;
        v[15] = true;
        v
    });
    assert_eq!(bits_to_bytes(&vec![true, false, true]), vec![0x05]);
    assert_eq!(bits_to_bytes(&vec![false; 9]), vec![0, 0]);
    assert_eq!(bits_to_bytes(&vec![]), Vec::<u8>::new());
}

#[test]
fn element_count_is_checked_before_decoding() {
    let e = RecordEncoder::edwards_bls12();
    assert_eq!(e.check_element_count(4), Err(CodecError::StructuralError));
    assert_eq!(e.check_element_count(11), Err(CodecError::StructuralError));
    assert_eq!(e.check_element_count(10), Ok(()));
    let r = record(&e, pattern(128), 3);
    let body = e.serialize(&r).unwrap();
    let tail = e.serialize_tail(&r, &vec![false; body.len()]).unwrap();
    assert_eq!(e.sign_bits(4, &tail), Err(CodecError::StructuralError));
}

#[test]
fn tail_without_leftover_payload_is_format_mismatch() {
    // 10 elements: 74 bits for the guard, sign bits and value, 20 more for the
    // leftover payload. A 10-byte tail holds 80 bits.
    let e = RecordEncoder::edwards_bls12();
    let r = record(&e, pattern(128), 3);
    let body = e.serialize(&r).unwrap();
    let tail = e.serialize_tail(&r, &vec![false; body.len()]).unwrap();
    assert_eq!(tail.len(), 12);
    let short = tail[..10].to_vec();
    assert!(e.sign_bits(body.len() + 2, &short).is_ok());
    let res = e.deserialize(r.serial_number_nonce.clone(), &body, &short);
    assert!(matches!(res, Err(CodecError::FormatMismatch)));
    // 9 bytes, 72 bits, do not reach the end of the value.
    let res = e.deserialize(r.serial_number_nonce.clone(), &body, &tail[..9].to_vec());
    assert!(matches!(res, Err(CodecError::StructuralError)));
}
