//! The byte encoding of the plain values that a canvas file is made of.
//!
//! The encoding is bincode's with fixed-width integers: an integer is its
//! bytes, least significant first, and a `bool` is one byte, 0 or 1. The
//! functions `encode_..` and `decode_..` hand single values to bincode and
//! state what comes back; their contracts are taken on trust, and everything
//! else in the crate is proved from them.

use vstd::bytes::*;
use vstd::prelude::*;

verus! {

/// Why bincode refused a value. Nothing is read from it.
#[verifier::external_type_specification]
#[verifier::external_body]
pub struct ExErrorKind(bincode::ErrorKind);

/// The byte that stands for a `bool`.
pub open spec fn bool_byte(b: bool) -> u8 {
    if b {
        1
    } else {
        0
    }
}

/// Whether a byte stands for a `bool`.
pub open spec fn is_bool_byte(b: u8) -> bool {
    b == 0 || b == 1
}

/// Whether some bytes start with one that stands for a `bool`.
pub open spec fn starts_with_bool(bytes: Seq<u8>) -> bool {
    bytes.len() >= 1 && is_bool_byte(bytes[0])
}

/// The `bool` that a byte stands for.
pub open spec fn byte_bool(b: u8) -> bool {
    b == 1
}

/// `bincode::serialize` of a `u64`: eight bytes, least significant first.
/// It writes to a vector without a size limit, which cannot fail.
#[verifier::external_body]
pub(crate) fn encode_u64(v: u64) -> (r: Result<Vec<u8>, Box<bincode::ErrorKind>>)
    ensures
        r is Ok,
        r->Ok_0@ == spec_u64_to_le_bytes(v),
{
    bincode::serialize(&v)
}

/// `bincode::serialize` of a `u32`: four bytes, least significant first.
/// It writes to a vector without a size limit, which cannot fail.
#[verifier::external_body]
pub(crate) fn encode_u32(v: u32) -> (r: Result<Vec<u8>, Box<bincode::ErrorKind>>)
    ensures
        r is Ok,
        r->Ok_0@ == spec_u32_to_le_bytes(v),
{
    bincode::serialize(&v)
}

/// `bincode::serialize` of a `u8`: the byte itself.
#[verifier::external_body]
pub(crate) fn encode_u8(v: u8) -> (r: Result<Vec<u8>, Box<bincode::ErrorKind>>)
    ensures
        r is Ok,
        r->Ok_0@ == seq![v],
{
    bincode::serialize(&v)
}

/// `bincode::serialize` of a `bool`: one byte, 1 for `true` and 0 for `false`.
#[verifier::external_body]
pub(crate) fn encode_bool(v: bool) -> (r: Result<Vec<u8>, Box<bincode::ErrorKind>>)
    ensures
        r is Ok,
        r->Ok_0@ == seq![bool_byte(v)],
{
    bincode::serialize(&v)
}

/// `bincode::deserialize` to a `u64`: reads the first eight bytes, least
/// significant first, and ignores what follows them. It fails exactly when
/// fewer than eight bytes are given.
#[verifier::external_body]
pub(crate) fn decode_u64(bytes: &[u8]) -> (r: Result<u64, Box<bincode::ErrorKind>>)
    ensures
        r is Ok <==> bytes@.len() >= 8,
        r is Ok ==> r->Ok_0 == spec_u64_from_le_bytes(bytes@.subrange(0, 8)),
{
    bincode::deserialize::<u64>(bytes)
}

/// `bincode::deserialize` to a `u32`: reads the first four bytes, least
/// significant first, and ignores what follows them. It fails exactly when
/// fewer than four bytes are given.
#[verifier::external_body]
pub(crate) fn decode_u32(bytes: &[u8]) -> (r: Result<u32, Box<bincode::ErrorKind>>)
    ensures
        r is Ok <==> bytes@.len() >= 4,
        r is Ok ==> r->Ok_0 == spec_u32_from_le_bytes(bytes@.subrange(0, 4)),
{
    bincode::deserialize::<u32>(bytes)
}

/// `bincode::deserialize` to a `u8`: the first byte. It fails exactly when
/// no byte is given.
#[verifier::external_body]
pub(crate) fn decode_u8(bytes: &[u8]) -> (r: Result<u8, Box<bincode::ErrorKind>>)
    ensures
        r is Ok <==> bytes@.len() >= 1,
        r is Ok ==> r->Ok_0 == bytes@[0],
{
    bincode::deserialize::<u8>(bytes)
}

/// `bincode::deserialize` to a `bool`: the first byte, which must be 0 or 1.
/// It fails when no byte is given or the byte is another one.
#[verifier::external_body]
pub(crate) fn decode_bool(bytes: &[u8]) -> (r: Result<bool, Box<bincode::ErrorKind>>)
    ensures
        r is Ok <==> starts_with_bool(bytes@),
        r is Ok ==> r->Ok_0 == byte_bool(bytes@[0]),
{
    bincode::deserialize::<bool>(bytes)
}

/// Appends the encoding of a `u64`.
pub(crate) fn put_u64(out: &mut Vec<u8>, v: u64)
    ensures
        final(out)@ == old(out)@ + spec_u64_to_le_bytes(v),
{
    match encode_u64(v) {
        Ok(mut b) => out.append(&mut b),
        Err(_) => {},
    }
}

/// Appends the encoding of a `u32`.
pub(crate) fn put_u32(out: &mut Vec<u8>, v: u32)
    ensures
        final(out)@ == old(out)@ + spec_u32_to_le_bytes(v),
{
    match encode_u32(v) {
        Ok(mut b) => out.append(&mut b),
        Err(_) => {},
    }
}

/// Appends the encoding of a `u8`.
pub(crate) fn put_u8(out: &mut Vec<u8>, v: u8)
    ensures
        final(out)@ == old(out)@ + seq![v],
{
    match encode_u8(v) {
        Ok(mut b) => out.append(&mut b),
        Err(_) => {},
    }
}

/// Appends the encoding of a `bool`.
pub(crate) fn put_bool(out: &mut Vec<u8>, v: bool)
    ensures
        final(out)@ == old(out)@ + seq![bool_byte(v)],
{
    match encode_bool(v) {
        Ok(mut b) => out.append(&mut b),
        Err(_) => {},
    }
}

/// The `u64` that starts at byte `at`.
pub open spec fn u64_at(bytes: Seq<u8>, at: int) -> u64 {
    spec_u64_from_le_bytes(bytes.subrange(at, at + 8))
}

/// The `u32` that starts at byte `at`.
pub open spec fn u32_at(bytes: Seq<u8>, at: int) -> u32 {
    spec_u32_from_le_bytes(bytes.subrange(at, at + 4))
}

/// Reads the `u64` that starts at byte `at`.
pub(crate) fn get_u64(bytes: &[u8], at: usize) -> (v: u64)
    requires
        at + 8 <= bytes@.len(),
    ensures
        v == u64_at(bytes@, at as int),
{
    let n = bytes.len();
    let part = &bytes[at..at + 8];
    assert(part@.subrange(0, 8) == part@);
    match decode_u64(part) {
        Ok(v) => v,
        Err(_) => 0,
    }
}

/// Reads the `u32` that starts at byte `at`.
pub(crate) fn get_u32(bytes: &[u8], at: usize) -> (v: u32)
    requires
        at + 4 <= bytes@.len(),
    ensures
        v == u32_at(bytes@, at as int),
{
    let n = bytes.len();
    let part = &bytes[at..at + 4];
    assert(part@.subrange(0, 4) == part@);
    match decode_u32(part) {
        Ok(v) => v,
        Err(_) => 0,
    }
}

/// Reads the byte at `at`.
pub(crate) fn get_u8(bytes: &[u8], at: usize) -> (v: u8)
    requires
        at < bytes@.len(),
    ensures
        v == bytes@[at as int],
{
    let n = bytes.len();
    let part = &bytes[at..at + 1];
    match decode_u8(part) {
        Ok(v) => v,
        Err(_) => 0,
    }
}

/// Reads the `bool` at `at`, if the byte there stands for one.
pub(crate) fn get_bool(bytes: &[u8], at: usize) -> (v: Option<bool>)
    requires
        at < bytes@.len(),
    ensures
        v is Some <==> is_bool_byte(bytes@[at as int]),
        v is Some ==> v->Some_0 == byte_bool(bytes@[at as int]),
{
    let n = bytes.len();
    let part = &bytes[at..at + 1];
    match decode_bool(part) {
        Ok(v) => Some(v),
        Err(_) => None,
    }
}

/// Bytes that hold the bytes of a `u64` at `at` hold the `u64` there.
pub proof fn lemma_u64_at(bytes: Seq<u8>, at: int, v: u64)
    requires
        bytes.subrange(at, at + 8) == spec_u64_to_le_bytes(v),
    ensures
        u64_at(bytes, at) == v,
{
    lemma_auto_spec_u64_to_from_le_bytes();
}

/// Bytes that hold the bytes of a `u32` at `at` hold the `u32` there.
pub proof fn lemma_u32_at(bytes: Seq<u8>, at: int, v: u32)
    requires
        bytes.subrange(at, at + 4) == spec_u32_to_le_bytes(v),
    ensures
        u32_at(bytes, at) == v,
{
    lemma_auto_spec_u32_to_from_le_bytes();
    assert(spec_u32_to_le_bytes(v).len() == 4);
}

/// The bytes of a `u64` are eight, those of a `u32` four.
pub proof fn lemma_le_bytes_len(a: u64, b: u32)
    ensures
        spec_u64_to_le_bytes(a).len() == 8,
        spec_u32_to_le_bytes(b).len() == 4,
{
    lemma_auto_spec_u64_to_from_le_bytes();
    lemma_auto_spec_u32_to_from_le_bytes();
}

} // verus!
