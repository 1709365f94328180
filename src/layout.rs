//! The codec's parameters and the bit layout of an encoded record.
//!
//! An encoded record is a sequence of group elements. Element 0 carries the
//! serial number nonce as it is. Elements 1 .. n-2 (the body) and element n-1
//! (the tail) each carry a bit string, handed to the byte-to-group encoding as
//! its zero-padded bytes:
//!
//! - body 0: the low `D` bits of the commitment randomness;
//! - body 1, 2: the low `D` bits of the birth and death program identifiers;
//! - body 3: the bits `D .. O` of the birth identifier, then those of the death one;
//! - body 4 .. 4+k: each full `P`-bit chunk of the payload, then a guard bit;
//! - body 4+k (only when the value does not fit in the tail): the leftover
//!   payload bits, then a guard bit;
//! - tail: a guard bit, the sign bit of every earlier element (element 0's is
//!   `false`), the 64 bits of the value, then the leftover payload bits if they
//!   were not flushed into a body element.
//!
//! Here `D` is one less than the inner field's bit size, `P = D - 1`, and `O` is
//! the outer field's bit size.
use vstd::prelude::*;
use crate::bits::{bits_of, bytes_from_bits};

verus! {

/// Width in bits of the record's value.
pub const VALUE_BITS: usize = 64;

/// Body elements that precede the payload chunks.
pub const FIXED_BODY_ELEMENTS: usize = 4;

/// The bit widths of the curve and fields that a codec packs records for, and the
/// payload's fixed length in bytes.
pub struct RecordEncoder {
    pub scalar_field_bitsize: usize,
    pub inner_field_bitsize: usize,
    pub outer_field_bitsize: usize,
    pub payload_size: usize,
}

/// A record as handed to the encoder.
pub struct Record {
    pub payload: Vec<u8>,
    pub value: u64,
    pub birth_program_id: Vec<u8>,
    pub death_program_id: Vec<u8>,
    pub serial_number_nonce: Vec<u8>,
    pub commitment_randomness: Vec<u8>,
}

/// The fields recovered from an encoded record.
pub struct DecodedRecord {
    pub payload: Vec<u8>,
    pub value: u64,
    pub birth_program_id: Vec<u8>,
    pub death_program_id: Vec<u8>,
    pub serial_number_nonce: Vec<u8>,
    pub commitment_randomness: Vec<u8>,
}

#[derive(Debug, Clone, Copy, PartialEq, Eq, Structural)]
pub enum CodecError {
    /// The element sequence, the sign-bit list or the tail is shorter or longer
    /// than the layout asks for.
    StructuralError,
    /// A field's bytes do not have the fixed width the layout asks for.
    FormatMismatch,
}

impl DecodedRecord {
    /// Every field of `self` equals the same field of `r`.
    pub open spec fn same_fields(&self, r: &Record) -> bool {
        &&& self.payload@ == r.payload@
        &&& self.value == r.value
        &&& self.birth_program_id@ == r.birth_program_id@
        &&& self.death_program_id@ == r.death_program_id@
        &&& self.serial_number_nonce@ == r.serial_number_nonce@
        &&& self.commitment_randomness@ == r.commitment_randomness@
    }
}

impl From<Record> for DecodedRecord {
    fn from(r: Record) -> (d: DecodedRecord)
        ensures
            d.same_fields(&r),
    {
        DecodedRecord {
            payload: r.payload,
            value: r.value,
            birth_program_id: r.birth_program_id,
            death_program_id: r.death_program_id,
            serial_number_nonce: r.serial_number_nonce,
            commitment_randomness: r.commitment_randomness,
        }
    }
}

impl vstd::std_specs::convert::FromSpecImpl<Record> for DecodedRecord {
    open spec fn obeys_from_spec() -> bool {
        true
    }

    open spec fn from_spec(r: Record) -> DecodedRecord {
        DecodedRecord {
            payload: r.payload,
            value: r.value,
            birth_program_id: r.birth_program_id,
            death_program_id: r.death_program_id,
            serial_number_nonce: r.serial_number_nonce,
            commitment_randomness: r.commitment_randomness,
        }
    }
}

/// The 8 little-endian bytes of a value.
pub open spec fn le_bytes(v: u64) -> Seq<u8> {
    Seq::new(8, |i: int| ((v >> ((8 * i) as u64)) & 0xffu64) as u8)
}

/// The value whose little-endian bytes are `b[0..8]`.
pub open spec fn from_le(b: Seq<u8>) -> u64 {
    (b[0] as u64) | ((b[1] as u64) << 8u64) | ((b[2] as u64) << 16u64) | ((b[3] as u64) << 24u64)
        | ((b[4] as u64) << 32u64) | ((b[5] as u64) << 40u64) | ((b[6] as u64) << 48u64) | ((
    b[7] as u64) << 56u64)
}

/// Whether every bit of `s` from position `from` on is zero.
pub open spec fn zero_from(s: Seq<bool>, from: int) -> bool {
    forall|i: int| from <= i < s.len() ==> !#[trigger] s[i]
}

impl RecordEncoder {
    /// Bits of record data that one element can carry (`D`).
    pub open spec fn data_bits(&self) -> int {
        self.inner_field_bitsize - 1
    }

    /// Payload bits in one payload element, leaving room for its guard bit (`P`).
    pub open spec fn payload_bits(&self) -> int {
        self.inner_field_bitsize - 2
    }

    /// Bits of a program identifier beyond the first `D` (`O - D`).
    pub open spec fn remainder_bits(&self) -> int {
        self.outer_field_bitsize - self.data_bits()
    }

    /// Bit length of the payload.
    pub open spec fn payload_bit_len(&self) -> int {
        8 * self.payload_size
    }

    /// Number of full payload chunks.
    pub open spec fn full_chunks(&self) -> int {
        self.payload_bit_len() / self.payload_bits()
    }

    /// Payload bits left after the full chunks.
    pub open spec fn leftover_bits(&self) -> int {
        self.payload_bit_len() % self.payload_bits()
    }

    /// Whether the leftover bits, the sign bits gathered so far and the value
    /// together exceed one payload element, so that the leftover is flushed into
    /// an element of its own.
    pub open spec fn value_overflows(&self) -> bool {
        self.leftover_bits() + (1 + FIXED_BODY_ELEMENTS + self.full_chunks()) + VALUE_BITS
            > self.payload_bits()
    }

    /// Number of body elements (all elements but the nonce and the tail).
    pub open spec fn body_len(&self) -> int {
        FIXED_BODY_ELEMENTS + self.full_chunks() + if self.value_overflows() {
            1int
        } else {
            0int
        }
    }

    /// Number of elements of an encoded record.
    pub open spec fn element_count(&self) -> int {
        self.body_len() + 2
    }

    /// Bit length of the tail.
    pub open spec fn tail_bit_len(&self) -> int {
        1 + (self.element_count() - 1) + VALUE_BITS + if self.value_overflows() {
            0int
        } else {
            self.leftover_bits()
        }
    }

    /// The widths are related as the layout needs, and small enough that no
    /// length computed from them overflows.
    pub open spec fn wf(&self) -> bool {
        &&& 3 <= self.inner_field_bitsize <= 0x1000
        &&& self.scalar_field_bitsize < self.inner_field_bitsize
        &&& self.data_bits() <= self.outer_field_bitsize <= 0x1000
        &&& 2 * self.remainder_bits() <= self.data_bits()
        &&& self.payload_size <= 0x10_0000
        &&& self.tail_bit_len() <= self.data_bits()
    }

    /// Byte length of a program identifier.
    pub open spec fn program_id_len(&self) -> int {
        (self.outer_field_bitsize + 7) / 8
    }

    /// Byte length of the commitment randomness.
    pub open spec fn randomness_len(&self) -> int {
        (self.data_bits() + 7) / 8
    }

    /// The record's fields have the widths this codec packs: a payload of the
    /// fixed length, program identifiers of `O` bits and a randomness of at most
    /// the scalar field's bit size, each in the fewest bytes that hold them.
    pub open spec fn valid_record(&self, r: &Record) -> bool {
        &&& r.payload@.len() == self.payload_size
        &&& r.birth_program_id@.len() == self.program_id_len()
        &&& r.death_program_id@.len() == self.program_id_len()
        &&& r.commitment_randomness@.len() == self.randomness_len()
        &&& zero_from(bits_of(r.birth_program_id@), self.outer_field_bitsize as int)
        &&& zero_from(bits_of(r.death_program_id@), self.outer_field_bitsize as int)
        &&& zero_from(bits_of(r.commitment_randomness@), self.scalar_field_bitsize as int)
    }

    /// Full payload chunk `j`, with its guard bit.
    pub open spec fn payload_chunk(&self, r: &Record, j: int) -> Seq<bool> {
        bits_of(r.payload@).subrange(j * self.payload_bits(), (j + 1) * self.payload_bits()).push(
            true,
        )
    }

    /// The payload bits after the full chunks.
    pub open spec fn leftover(&self, r: &Record) -> Seq<bool> {
        bits_of(r.payload@).subrange(
            self.full_chunks() * self.payload_bits(),
            self.payload_bit_len(),
        )
    }

    /// The bit string that body element `i` carries.
    pub open spec fn body_chunk(&self, r: &Record, i: int) -> Seq<bool> {
        let d = self.data_bits();
        let o = self.outer_field_bitsize as int;
        if i == 0 {
            bits_of(r.commitment_randomness@).take(d)
        } else if i == 1 {
            bits_of(r.birth_program_id@).take(d)
        } else if i == 2 {
            bits_of(r.death_program_id@).take(d)
        } else if i == 3 {
            bits_of(r.birth_program_id@).subrange(d, o) + bits_of(r.death_program_id@).subrange(d, o)
        } else if i < FIXED_BODY_ELEMENTS + self.full_chunks() {
            self.payload_chunk(r, i - FIXED_BODY_ELEMENTS)
        } else {
            self.leftover(r).push(true)
        }
    }

    /// The bytes handed to the group encoding for body element `i`.
    pub open spec fn body_element(&self, r: &Record, i: int) -> Seq<u8> {
        bytes_from_bits(self.body_chunk(r, i))
    }

    /// The bit string that the tail carries, given the sign bits of the body elements.
    pub open spec fn tail_chunk(&self, r: &Record, signs: Seq<bool>) -> Seq<bool> {
        seq![true, false] + signs + bits_of(le_bytes(r.value)) + if self.value_overflows() {
            Seq::<bool>::empty()
        } else {
            self.leftover(r)
        }
    }
    /// The bytes of every body element of `r`, in order.
    pub open spec fn encoded_body(&self, r: &Record) -> Seq<Seq<u8>> {
        Seq::new(self.body_len() as nat, |i: int| self.body_element(r, i))
    }

    /// Bits that decoding reads from body element `i`.
    pub open spec fn element_demand(&self, i: int) -> int {
        if i < 3 {
            self.data_bits()
        } else if i == 3 {
            2 * self.remainder_bits()
        } else if i < FIXED_BODY_ELEMENTS + self.full_chunks() {
            self.payload_bits()
        } else {
            self.leftover_bits()
        }
    }

    /// Every body element holds at least the bits that decoding reads from it.
    pub open spec fn body_fits(&self, body: Seq<Seq<u8>>) -> bool {
        forall|i: int| 0 <= i < body.len() ==> bits_of(#[trigger] body[i]).len() >= self.element_demand(i)
    }

    /// Why decoding the body elements' and the tail's bytes fails, if it does:
    /// a count of elements other than the layout's, or a tail too short for its
    /// sign bits, value and leftover payload, is a structural error; a body
    /// element too short for the bits read from it is a format mismatch.
    pub open spec fn decode_failure(&self, body: Seq<Seq<u8>>, tail: Seq<u8>) -> Option<
        CodecError,
    > {
        if body.len() != self.body_len() || bits_of(tail).len() < self.element_count()
            + VALUE_BITS {
            Some(CodecError::StructuralError)
        } else if bits_of(tail).len() < self.tail_bit_len() || !self.body_fits(body) {
            Some(CodecError::FormatMismatch)
        } else {
            None
        }
    }

    /// The sign bits held in a tail: one for each element but the tail.
    pub open spec fn tail_signs(&self, tail: Seq<u8>) -> Seq<bool> {
        bits_of(tail).subrange(1, self.element_count())
    }

    /// The decoded commitment randomness.
    pub open spec fn decoded_randomness(&self, body: Seq<Seq<u8>>) -> Seq<u8> {
        bytes_from_bits(bits_of(body[0]).take(self.data_bits()))
    }

    /// The decoded birth program identifier.
    pub open spec fn decoded_birth(&self, body: Seq<Seq<u8>>) -> Seq<u8> {
        bytes_from_bits(
            bits_of(body[1]).take(self.data_bits()) + bits_of(body[3]).take(self.remainder_bits()),
        )
    }

    /// The decoded death program identifier.
    pub open spec fn decoded_death(&self, body: Seq<Seq<u8>>) -> Seq<u8> {
        bytes_from_bits(
            bits_of(body[2]).take(self.data_bits()) + bits_of(body[3]).subrange(
                self.remainder_bits(),
                2 * self.remainder_bits(),
            ),
        )
    }

    /// The decoded value.
    pub open spec fn decoded_value(&self, tail: Seq<u8>) -> u64 {
        from_le(
            bytes_from_bits(
                bits_of(tail).subrange(self.element_count(), self.element_count() + VALUE_BITS),
            ),
        )
    }

    /// The payload bits of the first `j` full payload chunks.
    pub open spec fn chunk_bits(&self, body: Seq<Seq<u8>>, j: int) -> Seq<bool>
        decreases j,
    {
        if j <= 0 {
            Seq::empty()
        } else {
            self.chunk_bits(body, j - 1) + bits_of(body[FIXED_BODY_ELEMENTS + j - 1]).take(
                self.payload_bits(),
            )
        }
    }

    /// The decoded payload bits.
    pub open spec fn decoded_payload_bits(&self, body: Seq<Seq<u8>>, tail: Seq<u8>) -> Seq<bool> {
        let start = self.element_count() + VALUE_BITS;
        self.chunk_bits(body, self.full_chunks()) + if self.value_overflows() {
            bits_of(body[FIXED_BODY_ELEMENTS + self.full_chunks()]).take(self.leftover_bits())
        } else {
            bits_of(tail).subrange(start, start + self.leftover_bits())
        }
    }

    /// The decoded payload.
    pub open spec fn decoded_payload(&self, body: Seq<Seq<u8>>, tail: Seq<u8>) -> Seq<u8> {
        bytes_from_bits(self.decoded_payload_bits(body, tail))
    }
}

/// The bytes of each vector.
pub open spec fn byte_views(v: Seq<Vec<u8>>) -> Seq<Seq<u8>> {
    v.map_values(|b: Vec<u8>| b@)
}

} // verus!
