use vstd::prelude::*;
use crate::byte_map::{lemma_lex_lt_asym, lemma_lex_lt_skip, lex_lt};
use vstd::string::StrSliceExecFns;
use vstd::utf8::{
    decode_utf8, encode_scalar, encode_utf8, has_width_1_encoding, has_width_2_encoding,
    has_width_3_encoding, is_scalar, last_continuation_byte, leading_byte_width_1,
    leading_byte_width_2, leading_byte_width_3, leading_byte_width_4,
    second_last_continuation_byte, third_last_continuation_byte, valid_utf8,
};

verus! {

/// An orderable key: a type whose byte form addresses a record in the
/// store.  The byte form must compare (bytewise, lexicographically) the
/// way the key itself is meant to compare, since the engine keeps its
/// records sorted by these bytes.
pub trait StoreKey: Sized {
    /// The byte form of this key.
    spec fn key_bytes(&self) -> Seq<u8>;

    /// Produce the byte form.
    fn to_bytes(&self) -> (r: Vec<u8>)
        ensures
            r@ == self.key_bytes(),
    ;

    /// Read a key back from its byte form.  Returns `None` when no key
    /// has this byte form.
    fn from_bytes(b: &[u8]) -> (r: Option<Self>)
        ensures
            r matches Some(k) ==> k.key_bytes() == b@,
            forall|k: Self| k.key_bytes() == b@ ==> r is Some,
    ;
}

/// The byte form of a `Long` key: the value's two's complement with the
/// sign bit flipped, most significant byte first.  Flipping the sign bit
/// makes the bytewise order of the forms equal the numeric order of the
/// values, as an orderable key requires.
pub open spec fn spec_long_bytes(v: i64) -> Seq<u8> {
    let u = (v as u64) ^ 0x8000000000000000u64;
    seq![
        (u >> 56) as u8,
        (u >> 48) as u8,
        (u >> 40) as u8,
        (u >> 32) as u8,
        (u >> 24) as u8,
        (u >> 16) as u8,
        (u >> 8) as u8,
        u as u8,
    ]
}

proof fn lemma_long_bytes_roundtrip(u: u64)
    by (bit_vector)
    ensures
        ((((u >> 56) as u8) as u64) << 56) | ((((u >> 48) as u8) as u64) << 48) | ((((u
            >> 40) as u8) as u64) << 40) | ((((u >> 32) as u8) as u64) << 32) | ((((u
            >> 24) as u8) as u64) << 24) | ((((u >> 16) as u8) as u64) << 16) | ((((u >> 8) as u8)
            as u64) << 8) | ((u as u8) as u64) == u,
{
}

proof fn lemma_i64_u64_cast(u: u64)
    by (bit_vector)
    ensures
        ((u as i64) as u64) == u,
{
}

proof fn lemma_sign_flip_cancel(u: u64)
    by (bit_vector)
    ensures
        (u ^ 0x8000000000000000u64) ^ 0x8000000000000000u64 == u,
{
}

/// A signed 64-bit key.  Its byte form orders exactly as the value does:
/// see `lemma_long_key_order`.
pub struct Long(pub i64);

impl StoreKey for Long {
    open spec fn key_bytes(&self) -> Seq<u8> {
        spec_long_bytes(self.0)
    }

    fn to_bytes(&self) -> (r: Vec<u8>)
        ensures
            r@ == self.key_bytes(),
    {
        let u: u64 = (self.0 as u64) ^ 0x8000000000000000u64;
        let mut r: Vec<u8> = Vec::new();
        r.push((u >> 56) as u8);
        r.push((u >> 48) as u8);
        r.push((u >> 40) as u8);
        r.push((u >> 32) as u8);
        r.push((u >> 24) as u8);
        r.push((u >> 16) as u8);
        r.push((u >> 8) as u8);
        r.push(u as u8);
        proof {
            assert(r@ =~= spec_long_bytes(self.0));
        }
        r
    }

    fn from_bytes(b: &[u8]) -> (r: Option<Self>)
        ensures
            r matches Some(k) ==> k.key_bytes() == b@,
            forall|k: Self| k.key_bytes() == b@ ==> r is Some,
    {
        if b.len() != 8 {
            return None;
        }
        let u: u64 = (((b[0] as u64) << 56) | ((b[1] as u64) << 48) | ((b[2] as u64) << 40) | ((
        b[3] as u64) << 32) | ((b[4] as u64) << 24) | ((b[5] as u64) << 16) | ((b[6] as u64) << 8)
            | (b[7] as u64));
        let x: i64 = (u ^ 0x8000000000000000u64) as i64;
        proof {
            lemma_i64_u64_cast(u ^ 0x8000000000000000u64);
            lemma_sign_flip_cancel(u);
            let k = Long(x);
            assert(k.key_bytes() =~= b@) by {
                assert((x as u64) == u ^ 0x8000000000000000u64);
                assert((x as u64) ^ 0x8000000000000000u64 == u);
                lemma_long_bytes_roundtrip(u);
                lemma_long_unpack(b@[0], b@[1], b@[2], b@[3], b@[4], b@[5], b@[6], b@[7]);
            }
        }
        Some(Long(x))
    }
}

proof fn lemma_long_unpack(b0: u8, b1: u8, b2: u8, b3: u8, b4: u8, b5: u8, b6: u8, b7: u8)
    by (bit_vector)
    ensures
        ((((b0 as u64) << 56) | ((b1 as u64) << 48) | ((b2 as u64) << 40) | ((b3 as u64) << 32) | (
        (b4 as u64) << 24) | ((b5 as u64) << 16) | ((b6 as u64) << 8) | (b7 as u64)) >> 56) as u8
            == b0,
        ((((b0 as u64) << 56) | ((b1 as u64) << 48) | ((b2 as u64) << 40) | ((b3 as u64) << 32) | (
        (b4 as u64) << 24) | ((b5 as u64) << 16) | ((b6 as u64) << 8) | (b7 as u64)) >> 48) as u8
            == b1,
        ((((b0 as u64) << 56) | ((b1 as u64) << 48) | ((b2 as u64) << 40) | ((b3 as u64) << 32) | (
        (b4 as u64) << 24) | ((b5 as u64) << 16) | ((b6 as u64) << 8) | (b7 as u64)) >> 40) as u8
            == b2,
        ((((b0 as u64) << 56) | ((b1 as u64) << 48) | ((b2 as u64) << 40) | ((b3 as u64) << 32) | (
        (b4 as u64) << 24) | ((b5 as u64) << 16) | ((b6 as u64) << 8) | (b7 as u64)) >> 32) as u8
            == b3,
        ((((b0 as u64) << 56) | ((b1 as u64) << 48) | ((b2 as u64) << 40) | ((b3 as u64) << 32) | (
        (b4 as u64) << 24) | ((b5 as u64) << 16) | ((b6 as u64) << 8) | (b7 as u64)) >> 24) as u8
            == b4,
        ((((b0 as u64) << 56) | ((b1 as u64) << 48) | ((b2 as u64) << 40) | ((b3 as u64) << 32) | (
        (b4 as u64) << 24) | ((b5 as u64) << 16) | ((b6 as u64) << 8) | (b7 as u64)) >> 16) as u8
            == b5,
        ((((b0 as u64) << 56) | ((b1 as u64) << 48) | ((b2 as u64) << 40) | ((b3 as u64) << 32) | (
        (b4 as u64) << 24) | ((b5 as u64) << 16) | ((b6 as u64) << 8) | (b7 as u64)) >> 8) as u8
            == b6,
        ((((b0 as u64) << 56) | ((b1 as u64) << 48) | ((b2 as u64) << 40) | ((b3 as u64) << 32) | (
        (b4 as u64) << 24) | ((b5 as u64) << 16) | ((b6 as u64) << 8) | (b7 as u64)) as u8) == b7,
{
}


proof fn lemma_lex_head(x: Seq<u8>, y: Seq<u8>)
    requires
        x.len() > 0,
        y.len() > 0,
    ensures
        lex_lt(x, y) == (x[0] < y[0] || (x[0] == y[0] && lex_lt(x.drop_first(), y.drop_first()))),
{
}

/// Lexicographic order of two eight-byte strings, written out bytewise.
proof fn lemma_lex8(
    x0: u8, x1: u8, x2: u8, x3: u8, x4: u8, x5: u8, x6: u8, x7: u8,
    y0: u8, y1: u8, y2: u8, y3: u8, y4: u8, y5: u8, y6: u8, y7: u8,
)
    ensures
        lex_lt(seq![x0, x1, x2, x3, x4, x5, x6, x7], seq![y0, y1, y2, y3, y4, y5, y6, y7]) == (x0 < y0 || (x0 == y0 && (x1 < y1 || (x1 == y1 && (x2 < y2 || (x2 == y2 && (x3 < y3 || (x3 == y3 && (x4 < y4 || (x4 == y4 && (x5 < y5 || (x5 == y5 && (x6 < y6 || (x6 == y6 && (x7 < y7))))))))))))))),
{
    assert(seq![x7].drop_first().len() == 0);
    assert(seq![y7].drop_first().len() == 0);
    lemma_lex_head(seq![x7], seq![y7]);
    assert(lex_lt(seq![x7], seq![y7]) == (x7 < y7));
    assert(seq![x6, x7].drop_first() =~= seq![x7]);
    assert(seq![y6, y7].drop_first() =~= seq![y7]);
    lemma_lex_head(seq![x6, x7], seq![y6, y7]);
    assert(lex_lt(seq![x6, x7], seq![y6, y7]) == (x6 < y6 || (x6 == y6 && (x7 < y7))));
    assert(seq![x5, x6, x7].drop_first() =~= seq![x6, x7]);
    assert(seq![y5, y6, y7].drop_first() =~= seq![y6, y7]);
    lemma_lex_head(seq![x5, x6, x7], seq![y5, y6, y7]);
    assert(lex_lt(seq![x5, x6, x7], seq![y5, y6, y7]) == (x5 < y5 || (x5 == y5 && (x6 < y6 || (x6 == y6 && (x7 < y7))))));
    assert(seq![x4, x5, x6, x7].drop_first() =~= seq![x5, x6, x7]);
    assert(seq![y4, y5, y6, y7].drop_first() =~= seq![y5, y6, y7]);
    lemma_lex_head(seq![x4, x5, x6, x7], seq![y4, y5, y6, y7]);
    assert(lex_lt(seq![x4, x5, x6, x7], seq![y4, y5, y6, y7]) == (x4 < y4 || (x4 == y4 && (x5 < y5 || (x5 == y5 && (x6 < y6 || (x6 == y6 && (x7 < y7))))))));
    assert(seq![x3, x4, x5, x6, x7].drop_first() =~= seq![x4, x5, x6, x7]);
    assert(seq![y3, y4, y5, y6, y7].drop_first() =~= seq![y4, y5, y6, y7]);
    lemma_lex_head(seq![x3, x4, x5, x6, x7], seq![y3, y4, y5, y6, y7]);
    assert(lex_lt(seq![x3, x4, x5, x6, x7], seq![y3, y4, y5, y6, y7]) == (x3 < y3 || (x3 == y3 && (x4 < y4 || (x4 == y4 && (x5 < y5 || (x5 == y5 && (x6 < y6 || (x6 == y6 && (x7 < y7))))))))));
    assert(seq![x2, x3, x4, x5, x6, x7].drop_first() =~= seq![x3, x4, x5, x6, x7]);
    assert(seq![y2, y3, y4, y5, y6, y7].drop_first() =~= seq![y3, y4, y5, y6, y7]);
    lemma_lex_head(seq![x2, x3, x4, x5, x6, x7], seq![y2, y3, y4, y5, y6, y7]);
    assert(lex_lt(seq![x2, x3, x4, x5, x6, x7], seq![y2, y3, y4, y5, y6, y7]) == (x2 < y2 || (x2 == y2 && (x3 < y3 || (x3 == y3 && (x4 < y4 || (x4 == y4 && (x5 < y5 || (x5 == y5 && (x6 < y6 || (x6 == y6 && (x7 < y7))))))))))));
    assert(seq![x1, x2, x3, x4, x5, x6, x7].drop_first() =~= seq![x2, x3, x4, x5, x6, x7]);
    assert(seq![y1, y2, y3, y4, y5, y6, y7].drop_first() =~= seq![y2, y3, y4, y5, y6, y7]);
    lemma_lex_head(seq![x1, x2, x3, x4, x5, x6, x7], seq![y1, y2, y3, y4, y5, y6, y7]);
    assert(lex_lt(seq![x1, x2, x3, x4, x5, x6, x7], seq![y1, y2, y3, y4, y5, y6, y7]) == (x1 < y1 || (x1 == y1 && (x2 < y2 || (x2 == y2 && (x3 < y3 || (x3 == y3 && (x4 < y4 || (x4 == y4 && (x5 < y5 || (x5 == y5 && (x6 < y6 || (x6 == y6 && (x7 < y7))))))))))))));
    assert(seq![x0, x1, x2, x3, x4, x5, x6, x7].drop_first() =~= seq![x1, x2, x3, x4, x5, x6, x7]);
    assert(seq![y0, y1, y2, y3, y4, y5, y6, y7].drop_first() =~= seq![y1, y2, y3, y4, y5, y6, y7]);
    lemma_lex_head(seq![x0, x1, x2, x3, x4, x5, x6, x7], seq![y0, y1, y2, y3, y4, y5, y6, y7]);
    assert(lex_lt(seq![x0, x1, x2, x3, x4, x5, x6, x7], seq![y0, y1, y2, y3, y4, y5, y6, y7]) == (x0 < y0 || (x0 == y0 && (x1 < y1 || (x1 == y1 && (x2 < y2 || (x2 == y2 && (x3 < y3 || (x3 == y3 && (x4 < y4 || (x4 == y4 && (x5 < y5 || (x5 == y5 && (x6 < y6 || (x6 == y6 && (x7 < y7))))))))))))))));
}

proof fn lemma_long_byte_order_bits(a: i64, b: i64)
    by (bit_vector)
    ensures
        (((((a as u64) ^ 0x8000000000000000u64) >> 56) as u8) < ((((b as u64) ^ 0x8000000000000000u64) >> 56) as u8) || (((((a as u64) ^ 0x8000000000000000u64) >> 56) as u8) == ((((b as u64) ^ 0x8000000000000000u64) >> 56) as u8) && (((((a as u64) ^ 0x8000000000000000u64) >> 48) as u8) < ((((b as u64) ^ 0x8000000000000000u64) >> 48) as u8) || (((((a as u64) ^ 0x8000000000000000u64) >> 48) as u8) == ((((b as u64) ^ 0x8000000000000000u64) >> 48) as u8) && (((((a as u64) ^ 0x8000000000000000u64) >> 40) as u8) < ((((b as u64) ^ 0x8000000000000000u64) >> 40) as u8) || (((((a as u64) ^ 0x8000000000000000u64) >> 40) as u8) == ((((b as u64) ^ 0x8000000000000000u64) >> 40) as u8) && (((((a as u64) ^ 0x8000000000000000u64) >> 32) as u8) < ((((b as u64) ^ 0x8000000000000000u64) >> 32) as u8) || (((((a as u64) ^ 0x8000000000000000u64) >> 32) as u8) == ((((b as u64) ^ 0x8000000000000000u64) >> 32) as u8) && (((((a as u64) ^ 0x8000000000000000u64) >> 24) as u8) < ((((b as u64) ^ 0x8000000000000000u64) >> 24) as u8) || (((((a as u64) ^ 0x8000000000000000u64) >> 24) as u8) == ((((b as u64) ^ 0x8000000000000000u64) >> 24) as u8) && (((((a as u64) ^ 0x8000000000000000u64) >> 16) as u8) < ((((b as u64) ^ 0x8000000000000000u64) >> 16) as u8) || (((((a as u64) ^ 0x8000000000000000u64) >> 16) as u8) == ((((b as u64) ^ 0x8000000000000000u64) >> 16) as u8) && (((((a as u64) ^ 0x8000000000000000u64) >> 8) as u8) < ((((b as u64) ^ 0x8000000000000000u64) >> 8) as u8) || (((((a as u64) ^ 0x8000000000000000u64) >> 8) as u8) == ((((b as u64) ^ 0x8000000000000000u64) >> 8) as u8) && ((((a as u64) ^ 0x8000000000000000u64) as u8) < (((b as u64) ^ 0x8000000000000000u64) as u8)))))))))))))))) == (a < b),
{
}

/// Law: a `Long` key's byte form compares exactly as the value does, so
/// iteration in byte order is iteration in numeric order.
pub proof fn lemma_long_key_order(a: i64, b: i64)
    ensures
        lex_lt(spec_long_bytes(a), spec_long_bytes(b)) == (a < b),
{
    assert(spec_long_bytes(a) =~= seq![((((a as u64) ^ 0x8000000000000000u64) >> 56) as u8), ((((a as u64) ^ 0x8000000000000000u64) >> 48) as u8), ((((a as u64) ^ 0x8000000000000000u64) >> 40) as u8), ((((a as u64) ^ 0x8000000000000000u64) >> 32) as u8), ((((a as u64) ^ 0x8000000000000000u64) >> 24) as u8), ((((a as u64) ^ 0x8000000000000000u64) >> 16) as u8), ((((a as u64) ^ 0x8000000000000000u64) >> 8) as u8), (((a as u64) ^ 0x8000000000000000u64) as u8)]);
    assert(spec_long_bytes(b) =~= seq![((((b as u64) ^ 0x8000000000000000u64) >> 56) as u8), ((((b as u64) ^ 0x8000000000000000u64) >> 48) as u8), ((((b as u64) ^ 0x8000000000000000u64) >> 40) as u8), ((((b as u64) ^ 0x8000000000000000u64) >> 32) as u8), ((((b as u64) ^ 0x8000000000000000u64) >> 24) as u8), ((((b as u64) ^ 0x8000000000000000u64) >> 16) as u8), ((((b as u64) ^ 0x8000000000000000u64) >> 8) as u8), (((b as u64) ^ 0x8000000000000000u64) as u8)]);
    lemma_lex8(
        ((((a as u64) ^ 0x8000000000000000u64) >> 56) as u8),
        ((((a as u64) ^ 0x8000000000000000u64) >> 48) as u8),
        ((((a as u64) ^ 0x8000000000000000u64) >> 40) as u8),
        ((((a as u64) ^ 0x8000000000000000u64) >> 32) as u8),
        ((((a as u64) ^ 0x8000000000000000u64) >> 24) as u8),
        ((((a as u64) ^ 0x8000000000000000u64) >> 16) as u8),
        ((((a as u64) ^ 0x8000000000000000u64) >> 8) as u8),
        (((a as u64) ^ 0x8000000000000000u64) as u8),
        ((((b as u64) ^ 0x8000000000000000u64) >> 56) as u8),
        ((((b as u64) ^ 0x8000000000000000u64) >> 48) as u8),
        ((((b as u64) ^ 0x8000000000000000u64) >> 40) as u8),
        ((((b as u64) ^ 0x8000000000000000u64) >> 32) as u8),
        ((((b as u64) ^ 0x8000000000000000u64) >> 24) as u8),
        ((((b as u64) ^ 0x8000000000000000u64) >> 16) as u8),
        ((((b as u64) ^ 0x8000000000000000u64) >> 8) as u8),
        (((b as u64) ^ 0x8000000000000000u64) as u8),
    );
    lemma_long_byte_order_bits(a, b);
}

/// A string key.  Its byte form is the string's UTF-8 encoding, whose
/// bytewise order refines the order of the scalar values.
pub struct StringW(pub String);

/// Relies on `String::from_utf8`: it succeeds exactly on valid UTF-8 and
/// returns the string those bytes encode.
#[verifier::external_body]
fn string_from_utf8(b: &[u8]) -> (r: Option<String>)
    ensures
        r matches Some(s) ==> valid_utf8(b@) && s@ == decode_utf8(b@),
        valid_utf8(b@) ==> r is Some,
{
    match String::from_utf8(b.to_vec()) {
        Ok(s) => Some(s),
        Err(_) => None,
    }
}

impl StoreKey for StringW {
    open spec fn key_bytes(&self) -> Seq<u8> {
        encode_utf8(self.0@)
    }

    fn to_bytes(&self) -> (r: Vec<u8>)
        ensures
            r@ == self.key_bytes(),
    {
        self.0.as_str().as_bytes_vec()
    }

    fn from_bytes(b: &[u8]) -> (r: Option<Self>)
        ensures
            r matches Some(k) ==> k.key_bytes() == b@,
            forall|k: Self| k.key_bytes() == b@ ==> r is Some,
    {
        let s = string_from_utf8(b);
        match s {
            Some(s) => {
                proof {
                    vstd::utf8::decode_utf8_encode_utf8(b@);
                }
                Some(StringW(s))
            },
            None => {
                proof {
                    assert forall|k: StringW| k.key_bytes() == b@ implies false by {
                        vstd::utf8::encode_utf8_valid_utf8(k.0@);
                    }
                }
                None
            },
        }
    }
}


/// Lexicographic order on character sequences, by scalar value: the
/// order string keys are meant to iterate in.
pub open spec fn chars_lt(s: Seq<char>, t: Seq<char>) -> bool
    decreases s.len(),
{
    if t.len() == 0 {
        false
    } else if s.len() == 0 {
        true
    } else if (s[0] as u32) < (t[0] as u32) {
        true
    } else if (s[0] as u32) > (t[0] as u32) {
        false
    } else {
        chars_lt(s.drop_first(), t.drop_first())
    }
}

/// How many bytes the scalar's UTF-8 encoding takes.
spec fn uwidth(a: u32) -> u32 {
    if has_width_1_encoding(a) {
        1
    } else if has_width_2_encoding(a) {
        2
    } else if has_width_3_encoding(a) {
        3
    } else {
        4
    }
}

/// The bytes of a scalar's UTF-8 encoding, by position.
spec fn scalar_byte_0(a: u32) -> u8 {
    if has_width_1_encoding(a) {
        leading_byte_width_1(a)
    } else if has_width_2_encoding(a) {
        leading_byte_width_2(a)
    } else if has_width_3_encoding(a) {
        leading_byte_width_3(a)
    } else {
        leading_byte_width_4(a)
    }
}

spec fn scalar_byte_1(a: u32) -> u8 {
    if has_width_2_encoding(a) {
        last_continuation_byte(a)
    } else if has_width_3_encoding(a) {
        second_last_continuation_byte(a)
    } else {
        third_last_continuation_byte(a)
    }
}

spec fn scalar_byte_2(a: u32) -> u8 {
    if has_width_3_encoding(a) {
        last_continuation_byte(a)
    } else {
        second_last_continuation_byte(a)
    }
}

spec fn scalar_byte_3(a: u32) -> u8 {
    last_continuation_byte(a)
}

/// Of two scalars, the smaller one's UTF-8 bytes are smaller at the first
/// position where the encodings differ; equal leading bytes force equal
/// widths, since the four leading-byte ranges are disjoint.
proof fn lemma_scalar_bytes_lt(a: u32, b: u32)
    by (bit_vector)
    requires
        is_scalar(a),
        is_scalar(b),
        a < b,
    ensures
        scalar_byte_0(a) < scalar_byte_0(b) || (scalar_byte_0(a) == scalar_byte_0(b) && uwidth(a)
            == uwidth(b) && uwidth(a) >= 2 && (scalar_byte_1(a) < scalar_byte_1(b) || (
        scalar_byte_1(a) == scalar_byte_1(b) && uwidth(a) >= 3 && (scalar_byte_2(a)
            < scalar_byte_2(b) || (scalar_byte_2(a) == scalar_byte_2(b) && uwidth(a) == 4
            && scalar_byte_3(a) < scalar_byte_3(b)))))),
{
}

proof fn lemma_encode_scalar_bytes(a: u32)
    requires
        is_scalar(a),
    ensures
        1 <= uwidth(a) <= 4,
        encode_scalar(a).len() == uwidth(a),
        encode_scalar(a)[0] == scalar_byte_0(a),
        uwidth(a) >= 2 ==> encode_scalar(a)[1] == scalar_byte_1(a),
        uwidth(a) >= 3 ==> encode_scalar(a)[2] == scalar_byte_2(a),
        uwidth(a) == 4 ==> encode_scalar(a)[3] == scalar_byte_3(a),
{
}

/// A shared prefix does not decide the order: it is decided by the rests.
proof fn lemma_lex_prefix(p: Seq<u8>, x: Seq<u8>, y: Seq<u8>)
    ensures
        lex_lt(p + x, p + y) == lex_lt(x, y),
{
    lemma_lex_lt_skip(p + x, p + y, p.len() as int);
    assert((p + x).skip(p.len() as int) =~= x);
    assert((p + y).skip(p.len() as int) =~= y);
}

/// The encoding of a smaller scalar sorts first, whatever bytes follow.
proof fn lemma_scalar_lt(a: u32, b: u32, x: Seq<u8>, y: Seq<u8>)
    requires
        is_scalar(a),
        is_scalar(b),
        a < b,
    ensures
        lex_lt(encode_scalar(a) + x, encode_scalar(b) + y),
{
    lemma_scalar_bytes_lt(a, b);
    lemma_encode_scalar_bytes(a);
    lemma_encode_scalar_bytes(b);
    let p = encode_scalar(a) + x;
    let q = encode_scalar(b) + y;
    assert(p[0] == scalar_byte_0(a));
    assert(q[0] == scalar_byte_0(b));
    lemma_lex_head(p, q);
    if scalar_byte_0(a) == scalar_byte_0(b) {
        let p1 = p.drop_first();
        let q1 = q.drop_first();
        assert(p1[0] == p[1]);
        assert(q1[0] == q[1]);
        assert(p1[0] == scalar_byte_1(a));
        assert(q1[0] == scalar_byte_1(b));
        lemma_lex_head(p1, q1);
        if scalar_byte_1(a) == scalar_byte_1(b) {
            let p2 = p1.drop_first();
            let q2 = q1.drop_first();
            assert(p2[0] == p[2]);
            assert(q2[0] == q[2]);
            assert(p2[0] == scalar_byte_2(a));
            assert(q2[0] == scalar_byte_2(b));
            lemma_lex_head(p2, q2);
            if scalar_byte_2(a) == scalar_byte_2(b) {
                let p3 = p2.drop_first();
                let q3 = q2.drop_first();
                assert(p3[0] == p[3]);
                assert(q3[0] == q[3]);
                assert(p3[0] == scalar_byte_3(a));
                assert(q3[0] == scalar_byte_3(b));
                lemma_lex_head(p3, q3);
                assert(scalar_byte_3(a) < scalar_byte_3(b));
            }
        }
    }
}

/// Law: a string key's byte form compares exactly as its characters do,
/// so string keys iterate in the strings' own lexicographic order.
pub proof fn lemma_string_key_order(s: Seq<char>, t: Seq<char>)
    ensures
        lex_lt(encode_utf8(s), encode_utf8(t)) == chars_lt(s, t),
    decreases s.len() + t.len(),
{
    if t.len() == 0 {
        assert(encode_utf8(t).len() == 0);
    } else if s.len() == 0 {
        vstd::utf8::char_is_scalar(t[0]);
        lemma_encode_scalar_bytes(t[0] as u32);
        assert(encode_utf8(t).len() > 0);
        assert(encode_utf8(s).len() == 0);
    } else {
        vstd::utf8::char_is_scalar(s[0]);
        vstd::utf8::char_is_scalar(t[0]);
        let a = s[0] as u32;
        let b = t[0] as u32;
        let xs = encode_utf8(s.drop_first());
        let ys = encode_utf8(t.drop_first());
        assert(encode_utf8(s) == encode_scalar(a) + xs);
        assert(encode_utf8(t) == encode_scalar(b) + ys);
        if a == b {
            lemma_lex_prefix(encode_scalar(a), xs, ys);
            lemma_string_key_order(s.drop_first(), t.drop_first());
        } else if a < b {
            lemma_scalar_lt(a, b, xs, ys);
        } else {
            lemma_scalar_lt(b, a, ys, xs);
            lemma_lex_lt_asym(encode_utf8(s), encode_utf8(t));
        }
    }
}

} // verus!
