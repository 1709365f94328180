//! What holds of every record that the codec encodes.
use vstd::prelude::*;
use crate::bits::{
    bits_of, bytes_from_bits, byte_count, lemma_bits_of_packed, lemma_packed_bits_of,
    lemma_packed_ext, bit_or_zero, padded,
};
use crate::codec::lemma_le_round_trip;
use crate::layout::{le_bytes, Record, RecordEncoder, FIXED_BODY_ELEMENTS, VALUE_BITS};

verus! {

/// The bits read back from a packed bit string start with that string.
proof fn lemma_packed_prefix(c: Seq<bool>, n: int)
    requires
        0 <= n <= c.len(),
    ensures
        bits_of(bytes_from_bits(c)).len() >= c.len(),
        bits_of(bytes_from_bits(c)).take(n) == c.take(n),
        bits_of(bytes_from_bits(c)).subrange(0, n) == c.subrange(0, n),
{
    lemma_bits_of_packed(c);
    assert(8 * byte_count(c.len()) >= c.len());
    assert(padded(c).take(n) =~= c.take(n));
    assert(padded(c).subrange(0, n) =~= c.subrange(0, n));
}

/// A slice of a sequence inside a prefix it shares with another is the same slice.
proof fn lemma_shared_prefix(tb: Seq<bool>, tc: Seq<bool>, a: int, b: int)
    requires
        tc.len() <= tb.len(),
        tb.take(tc.len() as int) == tc,
        0 <= a <= b <= tc.len(),
    ensures
        tb.subrange(a, b) == tc.subrange(a, b),
        forall|i: int| 0 <= i < tc.len() ==> tb[i] == #[trigger] tc[i],
{
    assert forall|i: int| 0 <= i < tc.len() implies tb[i] == #[trigger] tc[i] by {
        assert(tb.take(tc.len() as int)[i] == tb[i]);
    }
    assert(tb.subrange(a, b) =~= tc.subrange(a, b));
}

/// The parts of a tail-shaped bit string.
proof fn lemma_tail_parts(signs: Seq<bool>, v: Seq<bool>, x: Seq<bool>)
    ensures
        ({
            let t = seq![true, false] + signs + v + x;
            let n = signs.len() + 2int;
            &&& t.len() == n + v.len() as int + x.len()
            &&& t[0] == true
            &&& t.subrange(1, n) == seq![false] + signs
            &&& t.subrange(n, n + v.len() as int) == v
            &&& t.subrange(n + v.len() as int, t.len() as int) == x
        }),
{
    let t = seq![true, false] + signs + v + x;
    let n = signs.len() + 2int;
    assert(t.subrange(1, n) =~= seq![false] + signs);
    assert(t.subrange(n, n + v.len() as int) =~= v);
    assert(t.subrange(n + v.len() as int, t.len() as int) =~= x);
}

/// A byte string whose bits from `w` on are zero is rebuilt from its first `w` bits.
proof fn lemma_rebuild_from_prefix(b: Seq<u8>, w: int)
    requires
        0 <= w <= 8 * b.len(),
        byte_count(w as nat) == b.len(),
        forall|i: int| w <= i < 8 * b.len() ==> !#[trigger] bits_of(b)[i],
    ensures
        bytes_from_bits(bits_of(b).take(w)) == b,
{
    let s = bits_of(b).take(w);
    let t = bits_of(b);
    assert(byte_count(t.len()) == b.len());
    assert forall|i: int| 0 <= i < 8 * byte_count(s.len()) implies bit_or_zero(s, i)
        == bit_or_zero(t, i) by {
        if i >= w {
            assert(!t[i]);
        }
    }
    lemma_packed_ext(s, t);
    lemma_packed_bits_of(b);
}

proof fn lemma_chunk_lens(e: RecordEncoder, r: Record)
    requires
        e.wf(),
        e.valid_record(&r),
    ensures
        e.full_chunks() * e.payload_bits() + e.leftover_bits() == e.payload_bit_len(),
        0 <= e.full_chunks() * e.payload_bits(),
        0 <= e.leftover_bits() < e.payload_bits(),
        e.leftover(&r).len() == e.leftover_bits(),
{
    let p = e.payload_bits();
    let k = e.full_chunks();
    vstd::arithmetic::div_mod::lemma_fundamental_div_mod(e.payload_bit_len(), p);
    assert(0 <= k * p) by (nonlinear_arith)
        requires
            k >= 0,
            p >= 1,
    ;
}

proof fn lemma_payload_chunk_len(e: RecordEncoder, r: Record, j: int)
    requires
        e.wf(),
        e.valid_record(&r),
        0 <= j < e.full_chunks(),
    ensures
        e.payload_chunk(&r, j).len() == e.payload_bits() + 1,
{
    let p = e.payload_bits();
    let k = e.full_chunks();
    lemma_chunk_lens(e, r);
    assert(0 <= j * p && j * p + p == (j + 1) * p && (j + 1) * p <= k * p) by (nonlinear_arith)
        requires
            0 <= j < k,
            p >= 1,
    ;
}

proof fn lemma_chunk_bits(e: RecordEncoder, r: Record, j: int)
    requires
        e.wf(),
        e.valid_record(&r),
        0 <= j <= e.full_chunks(),
    ensures
        e.chunk_bits(e.encoded_body(&r), j) == bits_of(r.payload@).take(j * e.payload_bits()),
    decreases j,
{
    let p = e.payload_bits();
    let k = e.full_chunks();
    let pb = bits_of(r.payload@);
    vstd::arithmetic::div_mod::lemma_fundamental_div_mod(e.payload_bit_len(), p);
    if j == 0 {
        assert(pb.take(0) =~= Seq::<bool>::empty());
    } else {
        lemma_chunk_bits(e, r, j - 1);
        assert((j - 1) * p + p == j * p && j * p <= k * p && 0 <= (j - 1) * p) by (nonlinear_arith)
            requires
                1 <= j <= k,
                p >= 1,
        ;
        let c = e.body_chunk(&r, FIXED_BODY_ELEMENTS + j - 1);
        assert(c == e.payload_chunk(&r, j - 1));
        assert(c.len() == p + 1);
        lemma_packed_prefix(c, p);
        assert(c.take(p) =~= pb.subrange((j - 1) * p, j * p));
        assert(e.encoded_body(&r)[FIXED_BODY_ELEMENTS + j - 1] == bytes_from_bits(c));
        assert(pb.take((j - 1) * p) + pb.subrange((j - 1) * p, j * p) =~= pb.take(j * p));
    }
}

proof fn lemma_body_fits(e: RecordEncoder, r: Record)
    requires
        e.wf(),
        e.valid_record(&r),
    ensures
        e.encoded_body(&r).len() == e.body_len(),
        e.body_fits(e.encoded_body(&r)),
{
    let body = e.encoded_body(&r);
    let d = e.data_bits();
    assert(8 * ((d + 7) / 8) >= d);
    assert(8 * ((e.outer_field_bitsize + 7) / 8) >= e.outer_field_bitsize);
    lemma_chunk_lens(e, r);
    assert forall|i: int| 0 <= i < body.len() implies bits_of(#[trigger] body[i]).len()
        >= e.element_demand(i) by {
        let c = e.body_chunk(&r, i);
        lemma_packed_prefix(c, 0);
        assert(body[i] == bytes_from_bits(c));
        if i < 3 {
            assert(c.len() == d);
        } else if i == 3 {
            assert(c.len() == 2 * e.remainder_bits());
        } else if i < FIXED_BODY_ELEMENTS + e.full_chunks() {
            assert(c == e.payload_chunk(&r, i - FIXED_BODY_ELEMENTS));
            lemma_payload_chunk_len(e, r, i - FIXED_BODY_ELEMENTS);
        } else {
            assert(c.len() == e.leftover_bits() + 1);
        }
    }
}

/// The program identifiers and the randomness come back from the body.
proof fn lemma_fixed_fields(e: RecordEncoder, r: Record)
    requires
        e.wf(),
        e.valid_record(&r),
    ensures
        e.decoded_randomness(e.encoded_body(&r)) == r.commitment_randomness@,
        e.decoded_birth(e.encoded_body(&r)) == r.birth_program_id@,
        e.decoded_death(e.encoded_body(&r)) == r.death_program_id@,
{
    let body = e.encoded_body(&r);
    let d = e.data_bits();
    let o = e.outer_field_bitsize as int;
    let rem = e.remainder_bits();
    assert(8 * ((d + 7) / 8) >= d);
    assert(8 * ((o + 7) / 8) >= o);
    let c0 = e.body_chunk(&r, 0);
    assert(body[0] == bytes_from_bits(c0));
    lemma_packed_prefix(c0, d);
    assert(c0.take(d) =~= c0);
    lemma_rebuild_from_prefix(r.commitment_randomness@, d);

    let c1 = e.body_chunk(&r, 1);
    let c2 = e.body_chunk(&r, 2);
    let c3 = e.body_chunk(&r, 3);
    assert(body[1] == bytes_from_bits(c1));
    assert(body[2] == bytes_from_bits(c2));
    assert(body[3] == bytes_from_bits(c3));
    lemma_packed_prefix(c1, d);
    lemma_packed_prefix(c2, d);
    lemma_packed_prefix(c3, 2 * rem);
    assert(c1.take(d) =~= c1);
    assert(c2.take(d) =~= c2);
    let b3 = bits_of(body[3]);
    assert(b3.take(rem) =~= c3.take(2 * rem).take(rem));
    assert(b3.subrange(rem, 2 * rem) =~= c3.take(2 * rem).subrange(rem, 2 * rem));
    let birth = bits_of(r.birth_program_id@);
    let death = bits_of(r.death_program_id@);
    assert(c1 + b3.take(rem) =~= birth.take(o));
    assert(c2 + b3.subrange(rem, 2 * rem) =~= death.take(o));
    lemma_rebuild_from_prefix(r.birth_program_id@, o);
    lemma_rebuild_from_prefix(r.death_program_id@, o);
}

/// The tail is long enough, and its sign bits and value come back.
proof fn lemma_tail_fields(e: RecordEncoder, r: Record, signs: Seq<bool>)
    requires
        e.wf(),
        e.valid_record(&r),
        signs.len() == e.body_len(),
    ensures
        bits_of(bytes_from_bits(e.tail_chunk(&r, signs))).len() >= e.tail_bit_len(),
        bits_of(bytes_from_bits(e.tail_chunk(&r, signs))).take(e.tail_bit_len()) == e.tail_chunk(
            &r,
            signs,
        ),
        e.tail_signs(bytes_from_bits(e.tail_chunk(&r, signs))) == seq![false] + signs,
        e.decoded_value(bytes_from_bits(e.tail_chunk(&r, signs))) == r.value,
{
    let tc = e.tail_chunk(&r, signs);
    let tail = bytes_from_bits(tc);
    let n = e.element_count();
    let vb = bits_of(le_bytes(r.value));
    let x = if e.value_overflows() {
        Seq::<bool>::empty()
    } else {
        e.leftover(&r)
    };
    lemma_chunk_lens(e, r);
    lemma_tail_parts(signs, vb, x);
    assert(tc.len() == e.tail_bit_len());
    lemma_packed_prefix(tc, tc.len() as int);
    assert(tc.take(tc.len() as int) =~= tc);
    let tb = bits_of(tail);
    lemma_shared_prefix(tb, tc, 1, n);
    lemma_shared_prefix(tb, tc, n, n + VALUE_BITS);
    lemma_packed_bits_of(le_bytes(r.value));
    lemma_le_round_trip(r.value);
}

/// The payload comes back from the body and the tail.
proof fn lemma_payload(e: RecordEncoder, r: Record, signs: Seq<bool>)
    requires
        e.wf(),
        e.valid_record(&r),
        signs.len() == e.body_len(),
    ensures
        e.decoded_payload(e.encoded_body(&r), bytes_from_bits(e.tail_chunk(&r, signs)))
            == r.payload@,
{
    let body = e.encoded_body(&r);
    let tc = e.tail_chunk(&r, signs);
    let tail = bytes_from_bits(tc);
    let p = e.payload_bits();
    let k = e.full_chunks();
    let lo = e.leftover_bits();
    let n = e.element_count();
    let pb = bits_of(r.payload@);
    vstd::arithmetic::div_mod::lemma_fundamental_div_mod(e.payload_bit_len(), p);
    assert(0 <= k * p) by (nonlinear_arith)
        requires
            k >= 0,
            p >= 1,
    ;
    lemma_chunk_bits(e, r, k);
    lemma_chunk_lens(e, r);
    if e.value_overflows() {
        let c = e.body_chunk(&r, FIXED_BODY_ELEMENTS + k);
        assert(body[FIXED_BODY_ELEMENTS + k] == bytes_from_bits(c));
        lemma_packed_prefix(c, lo);
        assert(bits_of(body[FIXED_BODY_ELEMENTS + k]).take(lo) =~= pb.subrange(
            k * p,
            e.payload_bit_len(),
        ));
    } else {
        assert(tc.len() == e.tail_bit_len());
        lemma_packed_prefix(tc, tc.len() as int);
        let tb = bits_of(tail);
        assert(tc.take(tc.len() as int) =~= tc);
        lemma_tail_parts(signs, bits_of(le_bytes(r.value)), e.leftover(&r));
        lemma_shared_prefix(tb, tc, n + VALUE_BITS, n + VALUE_BITS + lo);
    }
    assert(e.decoded_payload_bits(body, tail) =~= pb);
    lemma_packed_bits_of(r.payload@);
}

/// Round trip: where the group encoding gives back the bytes it was handed,
/// decoding the body elements and the tail of a record, under any sign bits
/// that the group encoding returned for the body, gives back every field of the
/// record (the serial number nonce, element 0, passes through unchanged), and
/// the tail holds element 0's `false` sign bit followed by those sign bits.
pub proof fn lemma_round_trip(e: RecordEncoder, r: Record, signs: Seq<bool>)
    requires
        e.wf(),
        e.valid_record(&r),
        signs.len() == e.body_len(),
    ensures
        ({
            let body = e.encoded_body(&r);
            let tail = bytes_from_bits(e.tail_chunk(&r, signs));
            &&& e.decode_failure(body, tail) is None
            &&& e.tail_signs(tail) == seq![false] + signs
            &&& e.decoded_randomness(body) == r.commitment_randomness@
            &&& e.decoded_birth(body) == r.birth_program_id@
            &&& e.decoded_death(body) == r.death_program_id@
            &&& e.decoded_value(tail) == r.value
            &&& e.decoded_payload(body, tail) == r.payload@
        }),
{
    lemma_body_fits(e, r);
    lemma_fixed_fields(e, r);
    lemma_tail_fields(e, r, signs);
    lemma_payload(e, r, signs);
}

/// Sign-bit ledger: the tail of a record holds one sign bit for each element
/// but itself, element 0's is `false`, and the rest are the body's sign bits
/// in order.
pub proof fn lemma_sign_ledger(e: RecordEncoder, r: Record, signs: Seq<bool>)
    requires
        e.wf(),
        e.valid_record(&r),
        signs.len() == e.body_len(),
    ensures
        ({
            let recovered = e.tail_signs(bytes_from_bits(e.tail_chunk(&r, signs)));
            &&& recovered.len() == e.element_count() - 1
            &&& recovered[0] == false
            &&& recovered.subrange(1, recovered.len() as int) == signs
        }),
{
    lemma_tail_fields(e, r, signs);
    let recovered = e.tail_signs(bytes_from_bits(e.tail_chunk(&r, signs)));
    assert(recovered.subrange(1, recovered.len() as int) =~= signs);
}

/// Guard bits: every payload element carries, right after its payload bits, a
/// `true` bit that decoding still sees before it cuts the element to its
/// payload bits; the tail starts with a `true` bit too.
pub proof fn lemma_guard_bits(e: RecordEncoder, r: Record, signs: Seq<bool>)
    requires
        e.wf(),
        e.valid_record(&r),
        signs.len() == e.body_len(),
    ensures
        forall|i: int|
            FIXED_BODY_ELEMENTS <= i < e.body_len() ==> {
                let c = #[trigger] e.body_chunk(&r, i);
                &&& c.last() == true
                &&& bits_of(e.encoded_body(&r)[i])[c.len() - 1] == true
                &&& c.len() - 1 == if i < FIXED_BODY_ELEMENTS + e.full_chunks() {
                    e.payload_bits()
                } else {
                    e.leftover_bits()
                }
            },
        bits_of(bytes_from_bits(e.tail_chunk(&r, signs)))[0] == true,
{
    lemma_chunk_lens(e, r);
    assert forall|i: int| FIXED_BODY_ELEMENTS <= i < e.body_len() implies {
        let c = #[trigger] e.body_chunk(&r, i);
        &&& c.last() == true
        &&& bits_of(e.encoded_body(&r)[i])[c.len() - 1] == true
        &&& c.len() - 1 == if i < FIXED_BODY_ELEMENTS + e.full_chunks() {
            e.payload_bits()
        } else {
            e.leftover_bits()
        }
    } by {
        let c = e.body_chunk(&r, i);
        if i < FIXED_BODY_ELEMENTS + e.full_chunks() {
            assert(c == e.payload_chunk(&r, i - FIXED_BODY_ELEMENTS));
            lemma_payload_chunk_len(e, r, i - FIXED_BODY_ELEMENTS);
        }
        lemma_packed_prefix(c, c.len() as int);
        assert(e.encoded_body(&r)[i] == bytes_from_bits(c));
        assert(bits_of(e.encoded_body(&r)[i]).take(c.len() as int)[c.len() - 1] == c.take(
            c.len() as int,
        )[c.len() - 1]);
    }
    lemma_tail_fields(e, r, signs);
    let tc = e.tail_chunk(&r, signs);
    lemma_tail_parts(
        signs,
        bits_of(le_bytes(r.value)),
        if e.value_overflows() {
            Seq::<bool>::empty()
        } else {
            e.leftover(&r)
        },
    );
    lemma_shared_prefix(bits_of(bytes_from_bits(tc)), tc, 0, 0);
}

/// Every bit string handed to the group encoding, the tail's included, fits in
/// the `D` bits that one element can carry.
pub proof fn lemma_elements_fit(e: RecordEncoder, r: Record, signs: Seq<bool>)
    requires
        e.wf(),
        e.valid_record(&r),
        signs.len() == e.body_len(),
    ensures
        forall|i: int| 0 <= i < e.body_len() ==> (#[trigger] e.body_chunk(&r, i)).len() <= e.data_bits(),
        e.tail_chunk(&r, signs).len() <= e.data_bits(),
{
    lemma_chunk_lens(e, r);
    let d = e.data_bits();
    assert(8 * ((d + 7) / 8) >= d);
    assert(8 * ((e.outer_field_bitsize + 7) / 8) >= e.outer_field_bitsize);
    assert forall|i: int| 0 <= i < e.body_len() implies (#[trigger] e.body_chunk(&r, i)).len()
        <= d by {
        if FIXED_BODY_ELEMENTS <= i < FIXED_BODY_ELEMENTS + e.full_chunks() {
            assert(e.body_chunk(&r, i) == e.payload_chunk(&r, i - FIXED_BODY_ELEMENTS));
            lemma_payload_chunk_len(e, r, i - FIXED_BODY_ELEMENTS);
        }
    }
    lemma_tail_fields(e, r, signs);
}

/// Length determinism: under one codec every record encodes to the same number
/// of elements, six plus one per full payload chunk, plus one where the value
/// does not fit beside the leftover payload.
pub proof fn lemma_length_determined(e: RecordEncoder, r1: Record, r2: Record)
    requires
        e.wf(),
        e.valid_record(&r1),
        e.valid_record(&r2),
    ensures
        e.encoded_body(&r1).len() == e.encoded_body(&r2).len(),
        e.encoded_body(&r1).len() + 2 == e.element_count(),
        e.element_count() == 6 + e.payload_bit_len() / e.payload_bits() + if e.value_overflows() {
            1int
        } else {
            0int
        },
{
}

/// Empty payload: where one payload element has room for the sign bits of the
/// five fixed elements and the value, a record with an empty payload encodes to
/// the six elements of the minimum length, its tail holds the guard bit, the sign
/// bits and the value's bits and no payload bit, and it decodes back to an empty
/// payload and the same value.
pub proof fn lemma_empty_payload(e: RecordEncoder, r: Record, signs: Seq<bool>)
    requires
        e.wf(),
        e.valid_record(&r),
        e.payload_size == 0,
        e.payload_bits() >= 1 + FIXED_BODY_ELEMENTS + VALUE_BITS,
        signs.len() == e.body_len(),
    ensures
        e.body_len() == FIXED_BODY_ELEMENTS,
        e.element_count() == 6,
        e.tail_chunk(&r, signs) == seq![true, false] + signs + bits_of(le_bytes(r.value)),
        ({
            let body = e.encoded_body(&r);
            let tail = bytes_from_bits(e.tail_chunk(&r, signs));
            &&& e.decode_failure(body, tail) is None
            &&& e.decoded_payload(body, tail) == Seq::<u8>::empty()
            &&& e.decoded_value(tail) == r.value
        }),
{
    assert(e.full_chunks() == 0 && e.leftover_bits() == 0);
    assert(e.leftover(&r) =~= Seq::<bool>::empty());
    assert(e.tail_chunk(&r, signs) =~= seq![true, false] + signs + bits_of(le_bytes(r.value)));
    lemma_round_trip(e, r, signs);
    assert(r.payload@ =~= Seq::<u8>::empty());
}

} // verus!
