use vstd::prelude::*;
use vstd::bytes::{lemma_auto_spec_u64_to_from_le_bytes, spec_u64_from_le_bytes, spec_u64_to_le_bytes};
use vstd::utf8::{decode_utf8, encode_utf8, valid_utf8};
use crate::error::StoreError;

verus! {

/// The byte encoding of an `i64` value: its eight bytes, little endian,
/// two's complement.
pub open spec fn spec_enc_i64(v: i64) -> Seq<u8> {
    spec_u64_to_le_bytes(v as u64)
}

/// The byte encoding of a string value: an eight-byte little-endian
/// length prefix followed by the string's UTF-8 bytes.
pub open spec fn spec_enc_str(s: Seq<char>) -> Seq<u8> {
    spec_u64_to_le_bytes(encode_utf8(s).len() as u64) + encode_utf8(s)
}

/// Whether a byte string decodes as a string value: a full length prefix,
/// enough bytes after it, and those bytes valid UTF-8.  Bytes beyond the
/// announced length are ignored.
pub open spec fn spec_str_dec_ok(b: Seq<u8>) -> bool {
    &&& b.len() >= 8
    &&& {
        let n = spec_u64_from_le_bytes(b.take(8)) as int;
        b.len() >= 8 + n && valid_utf8(b.subrange(8, 8 + n))
    }
}

/// The string a byte string decodes to, when `spec_str_dec_ok` holds.
pub open spec fn spec_str_decoded(b: Seq<u8>) -> Seq<char> {
    let n = spec_u64_from_le_bytes(b.take(8)) as int;
    decode_utf8(b.subrange(8, 8 + n))
}

/// Relies on `bincode::serialize` for `i64`: fixed-width little-endian
/// encoding with no size limit, so it cannot fail.
#[verifier::external_body]
fn bc_encode_i64(v: &i64) -> (r: Result<Vec<u8>, Box<bincode::ErrorKind>>)
    ensures
        r is Ok,
        r matches Ok(b) ==> b@ == spec_enc_i64(*v),
{
    bincode::serialize(v)
}

/// Relies on `bincode::deserialize` for `i64`: it reads exactly eight
/// little-endian bytes, allows trailing bytes, and fails on fewer.
#[verifier::external_body]
fn bc_decode_i64(b: &[u8]) -> (r: Result<i64, Box<bincode::ErrorKind>>)
    ensures
        (r is Ok) == (b@.len() >= 8),
        r matches Ok(v) ==> spec_enc_i64(v) == b@.take(8),
{
    bincode::deserialize(b)
}

/// Relies on `bincode::serialize` for `String`: a `u64` little-endian
/// length prefix then the UTF-8 bytes, with no size limit, so it cannot
/// fail.
#[verifier::external_body]
fn bc_encode_str(v: &String) -> (r: Result<Vec<u8>, Box<bincode::ErrorKind>>)
    ensures
        r is Ok,
        r matches Ok(b) ==> b@ == spec_enc_str(v@),
{
    bincode::serialize(v)
}

/// Relies on `bincode::deserialize` for `String`: it reads the length
/// prefix, takes that many bytes, checks they are valid UTF-8, and allows
/// trailing bytes.
#[verifier::external_body]
fn bc_decode_str(b: &[u8]) -> (r: Result<String, Box<bincode::ErrorKind>>)
    ensures
        (r is Ok) == spec_str_dec_ok(b@),
        r matches Ok(s) ==> s@ == spec_str_decoded(b@),
{
    bincode::deserialize(b)
}

/// A value the store can hold: a type with a byte encoding and a decoder
/// that inverts it.  `M` is the mathematical content of a value, the thing
/// the encoding must preserve.
pub trait StoreValue: Sized {
    /// The mathematical content of a value.
    type M;

    /// The content of this value.
    spec fn vw(&self) -> Self::M;

    /// The byte encoding of this value.
    spec fn enc(&self) -> Seq<u8>;

    /// Whether encoding this value succeeds.
    spec fn enc_ok(&self) -> bool;

    /// The byte strings on which decoding succeeds.
    spec fn dec_ok(b: Seq<u8>) -> bool;

    /// Law: a value's own encoding always decodes.
    proof fn lemma_encoding_decodes(&self)
        requires
            self.enc_ok(),
        ensures
            Self::dec_ok(self.enc()),
    ;

    /// Encode this value.
    fn encode(&self) -> (r: Result<Vec<u8>, StoreError>)
        ensures
            self.enc_ok() ==> r is Ok,
            r matches Ok(b) ==> b@ == self.enc(),
            r matches Err(e) ==> !self.enc_ok() && e is SerDeError,
    ;

    /// Decode a value from bytes.  Succeeds exactly on the byte strings
    /// of `dec_ok`; the result's own encoding is the prefix of the input
    /// that was consumed; and the encoding of any value decodes back to
    /// that value's content.
    fn decode(b: &[u8]) -> (r: Result<Self, StoreError>)
        ensures
            r.is_ok() == Self::dec_ok(b@),
            r matches Ok(v) ==> v.enc() == b@.take(v.enc().len() as int),
            r matches Err(e) ==> e is SerDeError,
            forall|v: Self|
                (v.enc_ok() && v.enc() == b@) ==> (r matches Ok(w) && w.vw() == v.vw()),
    ;
}

proof fn lemma_i64_cast_inj(x: i64, y: i64)
    by (bit_vector)
    ensures
        (x as u64) == (y as u64) ==> x == y,
{
}

impl StoreValue for i64 {
    type M = i64;

    open spec fn vw(&self) -> i64 {
        *self
    }

    open spec fn enc(&self) -> Seq<u8> {
        spec_enc_i64(*self)
    }

    open spec fn enc_ok(&self) -> bool {
        true
    }

    open spec fn dec_ok(b: Seq<u8>) -> bool {
        b.len() >= 8
    }

    proof fn lemma_encoding_decodes(&self)
        ensures
            Self::dec_ok(self.enc()),
    {
        lemma_auto_spec_u64_to_from_le_bytes();
    }

    fn encode(&self) -> (r: Result<Vec<u8>, StoreError>)
        ensures
            self.enc_ok() ==> r is Ok,
            r matches Ok(b) ==> b@ == self.enc(),
            r matches Err(e) ==> !self.enc_ok() && e is SerDeError,
    {
        match bc_encode_i64(self) {
            Ok(b) => Ok(b),
            Err(e) => Err(StoreError::SerDeError(e)),
        }
    }

    fn decode(b: &[u8]) -> (r: Result<Self, StoreError>)
        ensures
            r.is_ok() == Self::dec_ok(b@),
            r matches Ok(v) ==> v.enc() == b@.take(v.enc().len() as int),
            r matches Err(e) ==> e is SerDeError,
            forall|v: Self|
                (v.enc_ok() && v.enc() == b@) ==> (r matches Ok(w) && w.vw() == v.vw()),
    {
        proof {
            lemma_auto_spec_u64_to_from_le_bytes();
        }
        match bc_decode_i64(b) {
            Ok(v) => {
                proof {
                    assert forall|x: i64| x.enc_ok() && x.enc() == b@ implies v.vw() == x.vw() by {
                        assert(b@.len() == 8);
                        assert(b@.take(8) =~= b@);
                        assert(spec_u64_to_le_bytes(v as u64) == spec_u64_to_le_bytes(x as u64));
                        assert(spec_u64_from_le_bytes(spec_u64_to_le_bytes(v as u64))
                            == spec_u64_from_le_bytes(spec_u64_to_le_bytes(x as u64)));
                        lemma_i64_cast_inj(v, x);
                    }
                }
                Ok(v)
            },
            Err(e) => {
                proof {
                    assert forall|x: i64| x.enc_ok() && x.enc() == b@ implies false by {
                        assert(x.enc().len() == 8);
                    }
                }
                Err(StoreError::SerDeError(e))
            },
        }
    }
}

/// The shape of a string's encoding: it always decodes, back to the same
/// string.
proof fn lemma_enc_str_shape(s: Seq<char>)
    requires
        encode_utf8(s).len() <= u64::MAX,
    ensures
        spec_str_dec_ok(spec_enc_str(s)),
        spec_str_decoded(spec_enc_str(s)) == s,
        spec_enc_str(s).len() == 8 + encode_utf8(s).len(),
{
    lemma_auto_spec_u64_to_from_le_bytes();
    let u = encode_utf8(s);
    let n = u.len() as int;
    let p = spec_u64_to_le_bytes(n as u64);
    let b = spec_enc_str(s);
    assert(p.len() == 8);
    assert(b.len() == 8 + n);
    assert(b.take(8) =~= p);
    assert(spec_u64_from_le_bytes(b.take(8)) == n as u64);
    assert(spec_u64_from_le_bytes(b.take(8)) as int == n);
    assert(b.subrange(8, 8 + n) =~= u);
    vstd::utf8::encode_utf8_valid_utf8(s);
    vstd::utf8::encode_utf8_decode_utf8(s);
}

impl StoreValue for String {
    type M = Seq<char>;

    open spec fn vw(&self) -> Seq<char> {
        self@
    }

    open spec fn enc(&self) -> Seq<u8> {
        spec_enc_str(self@)
    }

    open spec fn enc_ok(&self) -> bool {
        encode_utf8(self@).len() <= u64::MAX
    }

    open spec fn dec_ok(b: Seq<u8>) -> bool {
        spec_str_dec_ok(b)
    }

    proof fn lemma_encoding_decodes(&self)
        ensures
            Self::dec_ok(self.enc()),
    {
        lemma_enc_str_shape(self@);
    }

    fn encode(&self) -> (r: Result<Vec<u8>, StoreError>)
        ensures
            self.enc_ok() ==> r is Ok,
            r matches Ok(b) ==> b@ == self.enc(),
            r matches Err(e) ==> !self.enc_ok() && e is SerDeError,
    {
        match bc_encode_str(self) {
            Ok(b) => Ok(b),
            Err(e) => Err(StoreError::SerDeError(e)),
        }
    }

    fn decode(b: &[u8]) -> (r: Result<Self, StoreError>)
        ensures
            r.is_ok() == Self::dec_ok(b@),
            r matches Ok(v) ==> v.enc() == b@.take(v.enc().len() as int),
            r matches Err(e) ==> e is SerDeError,
            forall|v: Self|
                (v.enc_ok() && v.enc() == b@) ==> (r matches Ok(w) && w.vw() == v.vw()),
    {
        match bc_decode_str(b) {
            Ok(s) => {
                proof {
                    lemma_auto_spec_u64_to_from_le_bytes();
                    let n = spec_u64_from_le_bytes(b@.take(8)) as int;
                    let sub = b@.subrange(8, 8 + n);
                    vstd::utf8::decode_utf8_encode_utf8(sub);
                    assert(encode_utf8(s@) == sub);
                    assert(s.enc() =~= b@.take(8 + n));
                    assert(s.enc().len() == 8 + n);
                    assert forall|v: String| v.enc_ok() && v.enc() == b@ implies s.vw() == v.vw() by {
                        lemma_enc_str_shape(v@);
                    }
                }
                Ok(s)
            },
            Err(e) => {
                proof {
                    assert forall|v: String| v.enc_ok() && v.enc() == b@ implies false by {
                        lemma_enc_str_shape(v@);
                    }
                }
                Err(StoreError::SerDeError(e))
            },
        }
    }
}

} // verus!
