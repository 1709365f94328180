//! Encoding a record into the bit strings of its elements, and decoding it back.
use vstd::prelude::*;
use crate::bits::{
    append_bits, bit_range, bits_of, bits_prefix, bits_to_bytes, bytes_from_bits, bytes_to_bits,
    zero_from_exec,
};
use crate::layout::{
    byte_views, from_le, le_bytes, CodecError, DecodedRecord, Record, RecordEncoder, FIXED_BODY_ELEMENTS,
    VALUE_BITS,
};

verus! {

impl RecordEncoder {
    /// A codec for the given widths, or `None` where they break the layout's
    /// relations: the scalar field narrower than the inner field, the identifiers'
    /// remainder beyond `D` bits twice over fitting in one element, and the tail
    /// (guard, sign bits, value, leftover payload) fitting in one element.
    pub fn new(
        scalar_field_bitsize: usize,
        inner_field_bitsize: usize,
        outer_field_bitsize: usize,
        payload_size: usize,
    ) -> (r: Option<RecordEncoder>)
        ensures
            r matches Some(e) ==> e.wf() && e.scalar_field_bitsize == scalar_field_bitsize
                && e.inner_field_bitsize == inner_field_bitsize && e.outer_field_bitsize
                == outer_field_bitsize && e.payload_size == payload_size,
            r is None ==> !(RecordEncoder {
                scalar_field_bitsize,
                inner_field_bitsize,
                outer_field_bitsize,
                payload_size,
            }).wf(),
    {
        let e = RecordEncoder {
            scalar_field_bitsize,
            inner_field_bitsize,
            outer_field_bitsize,
            payload_size,
        };
        if inner_field_bitsize < 3 || inner_field_bitsize > 0x1000 {
            return None;
        }
        if scalar_field_bitsize >= inner_field_bitsize {
            return None;
        }
        let d = inner_field_bitsize - 1;
        if outer_field_bitsize < d || outer_field_bitsize > 0x1000 {
            return None;
        }
        if 2 * (outer_field_bitsize - d) > d {
            return None;
        }
        if payload_size > 0x10_0000 {
            return None;
        }
        if e.tail_len() > d {
            return None;
        }
        Some(e)
    }

    /// Widths of the Edwards curve over the BLS12-377 scalar field: a 251-bit
    /// scalar field, a 253-bit inner field, a 377-bit outer field, and a payload
    /// of 128 bytes.
    pub fn edwards_bls12() -> (e: RecordEncoder)
        ensures
            e.wf(),
            e.scalar_field_bitsize == 251,
            e.inner_field_bitsize == 253,
            e.outer_field_bitsize == 377,
            e.payload_size == 128,
    {
        let e = RecordEncoder {
            scalar_field_bitsize: 251,
            inner_field_bitsize: 253,
            outer_field_bitsize: 377,
            payload_size: 128,
        };
        proof {
            vstd::arithmetic::div_mod::lemma_fundamental_div_mod_converse(1024, 251, 4, 20);
        }
        assert(e.full_chunks() == 4 && e.leftover_bits() == 20);
        e
    }

    /// Bits of record data that one element carries: one less than the inner field's bit size.
    pub fn data_element_bitsize(&self) -> (r: usize)
        requires
            3 <= self.inner_field_bitsize,
        ensures
            r == self.data_bits(),
    {
        self.inner_field_bitsize - 1
    }

    /// Payload bits in one payload element: one less than the data bits, for the guard bit.
    pub fn payload_element_bitsize(&self) -> (r: usize)
        requires
            3 <= self.inner_field_bitsize,
        ensures
            r == self.payload_bits(),
    {
        self.inner_field_bitsize - 2
    }

    fn chunk_count(&self) -> (r: usize)
        requires
            3 <= self.inner_field_bitsize,
            self.payload_size <= 0x10_0000,
        ensures
            r == self.full_chunks(),
            r <= 0x80_0000,
    {
        8 * self.payload_size / (self.inner_field_bitsize - 2)
    }

    fn leftover_len(&self) -> (r: usize)
        requires
            3 <= self.inner_field_bitsize,
            self.payload_size <= 0x10_0000,
        ensures
            r == self.leftover_bits(),
            r < self.payload_bits(),
    {
        8 * self.payload_size % (self.inner_field_bitsize - 2)
    }

    /// Whether the leftover payload is flushed into a body element of its own.
    pub fn overflows(&self) -> (r: bool)
        requires
            3 <= self.inner_field_bitsize <= 0x1000,
            self.payload_size <= 0x10_0000,
        ensures
            r == self.value_overflows(),
    {
        self.leftover_len() + (1 + FIXED_BODY_ELEMENTS + self.chunk_count()) + VALUE_BITS
            > self.inner_field_bitsize - 2
    }

    /// Number of body elements of an encoded record.
    pub fn body_count(&self) -> (r: usize)
        requires
            3 <= self.inner_field_bitsize <= 0x1000,
            self.payload_size <= 0x10_0000,
        ensures
            r == self.body_len(),
    {
        FIXED_BODY_ELEMENTS + self.chunk_count() + if self.overflows() {
            1
        } else {
            0
        }
    }

    fn tail_len(&self) -> (r: usize)
        requires
            3 <= self.inner_field_bitsize <= 0x1000,
            self.payload_size <= 0x10_0000,
        ensures
            r == self.tail_bit_len(),
    {
        1 + (self.body_count() + 1) + VALUE_BITS + if self.overflows() {
            0
        } else {
            self.leftover_len()
        }
    }

    fn check_record(&self, r: &Record) -> (ok: bool)
        requires
            self.wf(),
        ensures
            ok == self.valid_record(r),
    {
        let id_len = (self.outer_field_bitsize + 7) / 8;
        let rand_len = (self.inner_field_bitsize - 1 + 7) / 8;
        if r.payload.len() != self.payload_size || r.birth_program_id.len() != id_len
            || r.death_program_id.len() != id_len || r.commitment_randomness.len() != rand_len {
            return false;
        }
        let birth = bytes_to_bits(&r.birth_program_id);
        let death = bytes_to_bits(&r.death_program_id);
        let randomness = bytes_to_bits(&r.commitment_randomness);
        zero_from_exec(&birth, self.outer_field_bitsize) && zero_from_exec(
            &death,
            self.outer_field_bitsize,
        ) && zero_from_exec(&randomness, self.scalar_field_bitsize)
    }

    /// The bytes that the body elements of `r` carry, in order, each to be encoded
    /// into one group element. Fails exactly when the record's fields do not have
    /// the widths this codec packs.
    pub fn serialize(&self, r: &Record) -> (res: Result<Vec<Vec<u8>>, CodecError>)
        requires
            self.wf(),
        ensures
            match res {
                Ok(body) => {
                    &&& self.valid_record(r)
                    &&& body@.len() == self.body_len()
                    &&& forall|i: int|
                        0 <= i < self.body_len() ==> #[trigger] body@[i]@ == self.body_element(
                            r,
                            i,
                        )
                },
                Err(e) => !self.valid_record(r) && e == CodecError::FormatMismatch,
            },
    {
        if !self.check_record(r) {
            return Err(CodecError::FormatMismatch);
        }
        let d = self.data_element_bitsize();
        let p = self.payload_element_bitsize();
        let o = self.outer_field_bitsize;
        let randomness = bytes_to_bits(&r.commitment_randomness);
        let birth = bytes_to_bits(&r.birth_program_id);
        let death = bytes_to_bits(&r.death_program_id);
        let payload = bytes_to_bits(&r.payload);
        let mut body: Vec<Vec<u8>> = Vec::new();

        let c = bit_range(&randomness, 0, d);
        assert(c@ =~= self.body_chunk(r, 0));
        body.push(bits_to_bytes(&c));
        let c = bit_range(&birth, 0, d);
        assert(c@ =~= self.body_chunk(r, 1));
        body.push(bits_to_bytes(&c));
        let c = bit_range(&death, 0, d);
        assert(c@ =~= self.body_chunk(r, 2));
        body.push(bits_to_bytes(&c));
        let mut c = bit_range(&birth, d, o);
        let high = bit_range(&death, d, o);
        append_bits(&mut c, &high);
        assert(c@ =~= self.body_chunk(r, 3));
        body.push(bits_to_bytes(&c));

        let k = self.chunk_count();
        let n = 8 * self.payload_size;
        proof {
            vstd::arithmetic::div_mod::lemma_fundamental_div_mod(
                self.payload_bit_len(),
                self.payload_bits(),
            );
        }
        let mut j: usize = 0;
        while j < k
            invariant
                self.wf(),
                k == self.full_chunks(),
                p == self.payload_bits(),
                n == self.payload_bit_len(),
                payload@ == bits_of(r.payload@),
                self.valid_record(r),
                k * p + self.leftover_bits() == n,
                j <= k,
                body@.len() == FIXED_BODY_ELEMENTS + j,
                forall|i: int|
                    0 <= i < FIXED_BODY_ELEMENTS + j ==> #[trigger] body@[i]@ == self.body_element(
                        r,
                        i,
                    ),
            decreases k - j,
        {
            assert(j * p <= (j + 1) * p <= k * p) by (nonlinear_arith)
                requires
                    j < k,
                    p >= 0,
            ;
            let mut c = bit_range(&payload, j * p, (j + 1) * p);
            c.push(true);
            assert(c@ =~= self.body_chunk(r, FIXED_BODY_ELEMENTS + j));
            body.push(bits_to_bytes(&c));
            j = j + 1;
        }
        if self.overflows() {
            let mut c = bit_range(&payload, k * p, n);
            c.push(true);
            assert(c@ =~= self.body_chunk(r, FIXED_BODY_ELEMENTS + k));
            body.push(bits_to_bytes(&c));
        }
        Ok(body)
    }
    /// The bytes of the tail element of `r`, given the sign bits that the group
    /// encoding returned for the body elements, in order. Fails with a format
    /// mismatch exactly when the record's fields do not have the widths this codec
    /// packs, else with a structural error exactly when there is not one sign bit
    /// per body element.
    pub fn serialize_tail(&self, r: &Record, signs: &Vec<bool>) -> (res: Result<
        Vec<u8>,
        CodecError,
    >)
        requires
            self.wf(),
        ensures
            match res {
                Ok(t) => {
                    &&& self.valid_record(r)
                    &&& signs@.len() == self.body_len()
                    &&& t@ == bytes_from_bits(self.tail_chunk(r, signs@))
                },
                Err(e) => if !self.valid_record(r) {
                    e == CodecError::FormatMismatch
                } else {
                    signs@.len() != self.body_len() && e == CodecError::StructuralError
                },
            },
    {
        if !self.check_record(r) {
            return Err(CodecError::FormatMismatch);
        }
        if signs.len() != self.body_count() {
            return Err(CodecError::StructuralError);
        }
        let mut t: Vec<bool> = Vec::new();
        t.push(true);
        t.push(false);
        append_bits(&mut t, signs);
        let value_bytes = value_to_le_bytes(r.value);
        let value_bits = bytes_to_bits(&value_bytes);
        append_bits(&mut t, &value_bits);
        if !self.overflows() {
            let p = self.payload_element_bitsize();
            let k = self.chunk_count();
            let n = 8 * self.payload_size;
            proof {
                vstd::arithmetic::div_mod::lemma_fundamental_div_mod(
                    self.payload_bit_len(),
                    self.payload_bits(),
                );
            }
            let payload = bytes_to_bits(&r.payload);
            let leftover = bit_range(&payload, k * p, n);
            append_bits(&mut t, &leftover);
        }
        assert(t@ =~= self.tail_chunk(r, signs@));
        Ok(bits_to_bytes(&t))
    }

    /// Whether a sequence of `elements` group elements has the layout's length.
    /// A caller checks this before decoding any element.
    pub fn check_element_count(&self, elements: usize) -> (res: Result<(), CodecError>)
        requires
            self.wf(),
        ensures
            res is Ok <==> elements == self.element_count(),
            res matches Err(e) ==> e == CodecError::StructuralError,
    {
        if elements != self.body_count() + 2 {
            Err(CodecError::StructuralError)
        } else {
            Ok(())
        }
    }

    /// The sign bits that the tail of a sequence of `elements` group elements
    /// holds, one for each element but the tail, in order. Fails with a structural
    /// error exactly when the sequence does not have the layout's length or the
    /// tail is too short for its sign bits and value.
    pub fn sign_bits(&self, elements: usize, tail: &Vec<u8>) -> (res: Result<
        Vec<bool>,
        CodecError,
    >)
        requires
            self.wf(),
        ensures
            match res {
                Ok(s) => {
                    &&& elements == self.element_count()
                    &&& bits_of(tail@).len() >= self.element_count() + VALUE_BITS
                    &&& s@ == self.tail_signs(tail@)
                },
                Err(e) => {
                    &&& elements != self.element_count() || bits_of(tail@).len()
                        < self.element_count() + VALUE_BITS
                    &&& e == CodecError::StructuralError
                },
            },
    {
        if self.check_element_count(elements).is_err() {
            return Err(CodecError::StructuralError);
        }
        let n = self.body_count() + 2;
        let tail_bits = bits_prefix(tail, n + VALUE_BITS);
        if tail_bits.len() < n + VALUE_BITS {
            return Err(CodecError::StructuralError);
        }
        let s = bit_range(&tail_bits, 1, n);
        assert(s@ =~= self.tail_signs(tail@));
        Ok(s)
    }
    fn demand(&self, i: usize) -> (r: usize)
        requires
            self.wf(),
        ensures
            r == self.element_demand(i as int),
    {
        if i < 3 {
            self.data_element_bitsize()
        } else if i == 3 {
            2 * (self.outer_field_bitsize - self.data_element_bitsize())
        } else if i < FIXED_BODY_ELEMENTS + self.chunk_count() {
            self.payload_element_bitsize()
        } else {
            self.leftover_len()
        }
    }

    /// The tail's bits up to the end of its leftover payload, once the element
    /// count, the tail's length and each body element's length are checked.
    fn check_lengths(&self, body: &Vec<Vec<u8>>, tail: &Vec<u8>) -> (res: Result<
        Vec<bool>,
        CodecError,
    >)
        requires
            self.wf(),
        ensures
            match res {
                Ok(t) => self.decode_failure(byte_views(body@), tail@) is None && t@
                    == bits_of(tail@).take(self.tail_bit_len()),
                Err(e) => self.decode_failure(byte_views(body@), tail@) == Some(e),
            },
    {
        let ghost b = byte_views(body@);
        let m = self.body_count();
        if body.len() != m {
            return Err(CodecError::StructuralError);
        }
        let need = self.tail_len();
        let tail_bits = bits_prefix(tail, need);
        if tail_bits.len() < m + 2 + VALUE_BITS {
            return Err(CodecError::StructuralError);
        }
        if tail_bits.len() < need {
            return Err(CodecError::FormatMismatch);
        }
        assert(bits_of(tail@).len() >= self.tail_bit_len());
        let mut i: usize = 0;
        while i < m
            invariant
                self.wf(),
                m == self.body_len(),
                body@.len() == m,
                b == byte_views(body@),
                b.len() == m,
                bits_of(tail@).len() >= self.tail_bit_len(),
                tail_bits@ == bits_of(tail@).take(self.tail_bit_len()),
                i <= m,
                forall|j: int|
                    0 <= j < i ==> bits_of(#[trigger] b[j]).len() >= self.element_demand(j),
            decreases m - i,
        {
            let want = self.demand(i);
            if !holds_bits(&body[i], want) {
                assert(b[i as int] == body@[i as int]@);
                assert(bits_of(b[i as int]).len() < self.element_demand(i as int));
                assert(!self.body_fits(b));
                return Err(CodecError::FormatMismatch);
            }
            i = i + 1;
        }
        assert(self.body_fits(b));
        Ok(tail_bits)
    }

    fn read_payload(&self, body: &Vec<Vec<u8>>, tail: &Vec<u8>, tail_bits: &Vec<bool>) -> (r: Vec<
        u8,
    >)
        requires
            self.wf(),
            body@.len() == self.body_len(),
            self.body_fits(byte_views(body@)),
            bits_of(tail@).len() >= self.tail_bit_len(),
            tail_bits@ == bits_of(tail@).take(self.tail_bit_len()),
        ensures
            r@ == self.decoded_payload(byte_views(body@), tail@),
    {
        let ghost b = byte_views(body@);
        let p = self.payload_element_bitsize();
        let k = self.chunk_count();
        let mut payload: Vec<bool> = Vec::new();
        let mut j: usize = 0;
        while j < k
            invariant
                self.wf(),
                k == self.full_chunks(),
                body@.len() == self.body_len(),
                b == byte_views(body@),
                self.body_fits(b),
                p == self.payload_bits(),
                j <= k,
                payload@ == self.chunk_bits(b, j as int),
            decreases k - j,
        {
            let ghost i = FIXED_BODY_ELEMENTS + j;
            assert(bits_of(b[i]).len() >= self.element_demand(i));
            let c = bits_prefix(&body[FIXED_BODY_ELEMENTS + j], p);
            append_bits(&mut payload, &c);
            j = j + 1;
        }
        let lo = self.leftover_len();
        let n = self.body_count() + 2;
        if self.overflows() {
            let ghost i = FIXED_BODY_ELEMENTS + k;
            assert(bits_of(b[i]).len() >= self.element_demand(i));
            let c = bits_prefix(&body[FIXED_BODY_ELEMENTS + k], lo);
            append_bits(&mut payload, &c);
        } else {
            let c = bit_range(tail_bits, n + VALUE_BITS, n + VALUE_BITS + lo);
            assert(c@ =~= bits_of(tail@).subrange(n + VALUE_BITS, n + VALUE_BITS + lo));
            append_bits(&mut payload, &c);
        }
        bits_to_bytes(&payload)
    }

    /// The commitment randomness and the birth and death program identifiers.
    fn read_fixed(&self, body: &Vec<Vec<u8>>) -> (r: (Vec<u8>, Vec<u8>, Vec<u8>))
        requires
            self.wf(),
            body@.len() == self.body_len(),
            self.body_fits(byte_views(body@)),
        ensures
            r.0@ == self.decoded_randomness(byte_views(body@)),
            r.1@ == self.decoded_birth(byte_views(body@)),
            r.2@ == self.decoded_death(byte_views(body@)),
    {
        let ghost b = byte_views(body@);
        let d = self.data_element_bitsize();
        let rem = self.outer_field_bitsize - d;
        assert(bits_of(b[0]).len() >= self.element_demand(0));
        assert(bits_of(b[1]).len() >= self.element_demand(1));
        assert(bits_of(b[2]).len() >= self.element_demand(2));
        assert(bits_of(b[3]).len() >= self.element_demand(3));

        let randomness = bits_to_bytes(&bits_prefix(&body[0], d));

        let high = bits_prefix(&body[3], 2 * rem);
        let mut birth = bits_prefix(&body[1], d);
        let birth_high = bit_range(&high, 0, rem);
        append_bits(&mut birth, &birth_high);
        assert(birth_high@ =~= bits_of(b[3]).take(rem as int));
        let mut death = bits_prefix(&body[2], d);
        let death_high = bit_range(&high, rem, 2 * rem);
        append_bits(&mut death, &death_high);
        assert(death_high@ =~= bits_of(b[3]).subrange(rem as int, 2 * rem));
        (randomness, bits_to_bytes(&birth), bits_to_bytes(&death))
    }

    /// Rebuilds a record from its serial number nonce (element 0), the bytes that
    /// the group decoding returned for the body elements, in order, and those it
    /// returned for the tail. Fails exactly as `decode_failure` says; otherwise
    /// each field is read from the bit positions the layout gives it.
    pub fn deserialize(&self, nonce: Vec<u8>, body: &Vec<Vec<u8>>, tail: &Vec<u8>) -> (res: Result<
        DecodedRecord,
        CodecError,
    >)
        requires
            self.wf(),
        ensures
            match res {
                Ok(d) => {
                    let b = byte_views(body@);
                    &&& self.decode_failure(b, tail@) is None
                    &&& d.serial_number_nonce@ == nonce@
                    &&& d.commitment_randomness@ == self.decoded_randomness(b)
                    &&& d.birth_program_id@ == self.decoded_birth(b)
                    &&& d.death_program_id@ == self.decoded_death(b)
                    &&& d.value == self.decoded_value(tail@)
                    &&& d.payload@ == self.decoded_payload(b, tail@)
                },
                Err(e) => self.decode_failure(byte_views(body@), tail@) == Some(e),
            },
    {
        let ghost b = byte_views(body@);
        assert(b.len() == body@.len());
        let tail_bits = match self.check_lengths(body, tail) {
            Ok(t) => t,
            Err(e) => {
                return Err(e);
            },
        };
        let (randomness, birth, death) = self.read_fixed(body);
        let n = self.body_count() + 2;
        let value_bits = bit_range(&tail_bits, n, n + VALUE_BITS);
        assert(value_bits@ =~= bits_of(tail@).subrange(n as int, n + VALUE_BITS));
        let value_bytes = bits_to_bytes(&value_bits);
        let value = value_from_le_bytes(&value_bytes);

        let payload = self.read_payload(body, tail, &tail_bits);
        Ok(
            DecodedRecord {
                payload,
                value,
                birth_program_id: birth,
                death_program_id: death,
                serial_number_nonce: nonce,
                commitment_randomness: randomness,
            },
        )
    }
}

/// Whether a byte string holds at least `m` bits.
fn holds_bits(b: &Vec<u8>, m: usize) -> (r: bool)
    ensures
        r == (bits_of(b@).len() >= m),
{
    b.len() >= m / 8 + if m % 8 != 0 {
        1
    } else {
        0
    }
}

/// The 8 little-endian bytes of a value.
fn value_to_le_bytes(v: u64) -> (r: Vec<u8>)
    ensures
        r@ == le_bytes(v),
{
    let mut r: Vec<u8> = Vec::new();
    let mut i: u64 = 0;
    while i < 8
        invariant
            i <= 8,
            r@ == le_bytes(v).take(i as int),
        decreases 8 - i,
    {
        r.push(((v >> (8 * i)) & 0xffu64) as u8);
        i = i + 1;
        assert(r@ =~= le_bytes(v).take(i as int));
    }
    assert(r@ =~= le_bytes(v));
    r
}

/// The value whose little-endian bytes are `b`.
fn value_from_le_bytes(b: &Vec<u8>) -> (r: u64)
    requires
        b@.len() == 8,
    ensures
        r == from_le(b@),
{
    (b[0] as u64) | ((b[1] as u64) << 8u64) | ((b[2] as u64) << 16u64) | ((b[3] as u64) << 24u64)
        | ((b[4] as u64) << 32u64) | ((b[5] as u64) << 40u64) | ((b[6] as u64) << 48u64) | ((
    b[7] as u64) << 56u64)
}

/// Reading back the little-endian bytes of a value gives the value.
pub proof fn lemma_le_round_trip(v: u64)
    ensures
        from_le(le_bytes(v)) == v,
{
    let b = le_bytes(v);
    assert(b[0] == ((v >> 0u64) & 0xffu64) as u8);
    assert(b[1] == ((v >> 8u64) & 0xffu64) as u8);
    assert(b[2] == ((v >> 16u64) & 0xffu64) as u8);
    assert(b[3] == ((v >> 24u64) & 0xffu64) as u8);
    assert(b[4] == ((v >> 32u64) & 0xffu64) as u8);
    assert(b[5] == ((v >> 40u64) & 0xffu64) as u8);
    assert(b[6] == ((v >> 48u64) & 0xffu64) as u8);
    assert(b[7] == ((v >> 56u64) & 0xffu64) as u8);
    assert(((((v >> 0u64) & 0xffu64) as u8) as u64) | (((((v >> 8u64) & 0xffu64) as u8) as u64)
        << 8u64) | (((((v >> 16u64) & 0xffu64) as u8) as u64) << 16u64) | (((((v >> 24u64)
        & 0xffu64) as u8) as u64) << 24u64) | (((((v >> 32u64) & 0xffu64) as u8) as u64) << 32u64)
        | (((((v >> 40u64) & 0xffu64) as u8) as u64) << 40u64) | (((((v >> 48u64) & 0xffu64) as u8)
        as u64) << 48u64) | (((((v >> 56u64) & 0xffu64) as u8) as u64) << 56u64) == v)
        by (bit_vector);
}

} // verus!
