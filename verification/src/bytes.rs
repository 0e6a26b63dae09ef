//! Little-endian scalars in byte sequences.
use vstd::prelude::*;

verus! {

pub open spec fn le16(value: u16) -> Seq<u8> {
    vstd::bytes::spec_u16_to_le_bytes(value)
}

pub open spec fn le32(value: u32) -> Seq<u8> {
    vstd::bytes::spec_u32_to_le_bytes(value)
}

pub open spec fn le64(value: u64) -> Seq<u8> {
    vstd::bytes::spec_u64_to_le_bytes(value)
}

pub open spec fn lei64(value: i64) -> Seq<u8> {
    le64(value as u64)
}

pub open spec fn un16(bytes: Seq<u8>) -> u16 {
    vstd::bytes::spec_u16_from_le_bytes(bytes)
}

pub open spec fn un32(bytes: Seq<u8>) -> u32 {
    vstd::bytes::spec_u32_from_le_bytes(bytes)
}

pub open spec fn un64(bytes: Seq<u8>) -> u64 {
    vstd::bytes::spec_u64_from_le_bytes(bytes)
}

pub open spec fn uni64(bytes: Seq<u8>) -> i64 {
    un64(bytes) as i64
}

/// A scalar occupies its width and reads back as it was written, and every byte string of that
/// width is the writing of exactly one scalar.
pub proof fn scalars_round_trip()
    ensures
        forall|v: u16| #[trigger] le16(v).len() == 2,
        forall|v: u16| un16(#[trigger] le16(v)) == v,
        forall|s: Seq<u8>| s.len() == 2 ==> le16(#[trigger] un16(s)) == s,
        forall|v: u32| #[trigger] le32(v).len() == 4,
        forall|v: u32| un32(#[trigger] le32(v)) == v,
        forall|s: Seq<u8>| s.len() == 4 ==> le32(#[trigger] un32(s)) == s,
        forall|v: u64| #[trigger] le64(v).len() == 8,
        forall|v: u64| un64(#[trigger] le64(v)) == v,
        forall|s: Seq<u8>| s.len() == 8 ==> le64(#[trigger] un64(s)) == s,
        forall|v: i64| #[trigger] lei64(v).len() == 8,
        forall|v: i64| uni64(#[trigger] lei64(v)) == v,
        forall|s: Seq<u8>| s.len() == 8 ==> lei64(#[trigger] uni64(s)) == s,
{
    vstd::bytes::lemma_auto_spec_u16_to_from_le_bytes();
    vstd::bytes::lemma_auto_spec_u32_to_from_le_bytes();
    vstd::bytes::lemma_auto_spec_u64_to_from_le_bytes();
    assert forall|v: u16| un16(#[trigger] le16(v)) == v by {
        assert(vstd::bytes::spec_u16_to_le_bytes(v).len() == 2);
    }
    assert forall|v: u32| un32(#[trigger] le32(v)) == v by {
        assert(vstd::bytes::spec_u32_to_le_bytes(v).len() == 4);
    }
    assert forall|v: i64| uni64(#[trigger] lei64(v)) == v by {
        assert((v as u64) as i64 == v) by (bit_vector);
    }
    assert forall|s: Seq<u8>| s.len() == 8 implies lei64(#[trigger] uni64(s)) == s by {
        let u = un64(s);
        assert((u as i64) as u64 == u) by (bit_vector);
    }
}

pub fn put_u16(output: &mut Vec<u8>, value: u16)
    ensures
        final(output)@ == old(output)@ + le16(value),
{
    let bytes = vstd::bytes::u16_to_le_bytes(value);
    put_slice(output, bytes.as_slice());
}

pub fn put_u32(output: &mut Vec<u8>, value: u32)
    ensures
        final(output)@ == old(output)@ + le32(value),
{
    let bytes = vstd::bytes::u32_to_le_bytes(value);
    put_slice(output, bytes.as_slice());
}

pub fn put_u64(output: &mut Vec<u8>, value: u64)
    ensures
        final(output)@ == old(output)@ + le64(value),
{
    let bytes = vstd::bytes::u64_to_le_bytes(value);
    put_slice(output, bytes.as_slice());
}

pub fn put_i64(output: &mut Vec<u8>, value: i64)
    ensures
        final(output)@ == old(output)@ + lei64(value),
{
    put_u64(output, value as u64);
}

pub fn put_slice(output: &mut Vec<u8>, bytes: &[u8])
    ensures
        final(output)@ == old(output)@ + bytes@,
{
    output.extend_from_slice(bytes);
    assert(output@ =~= old(output)@ + bytes@);
}

/// The scalar that starts at `offset`.
pub fn u16_at(bytes: &[u8], offset: usize) -> (value: u16)
    requires
        offset + 2 <= bytes@.len(),
    ensures
        value == un16(bytes@.subrange(offset as int, offset + 2)),
{
    let length: usize = bytes.len();
    assert(offset + 2 <= length);
    vstd::bytes::u16_from_le_bytes(vstd::slice::slice_subrange(bytes, offset, offset + 2))
}

/// The scalar that starts at `offset`.
pub fn u32_at(bytes: &[u8], offset: usize) -> (value: u32)
    requires
        offset + 4 <= bytes@.len(),
    ensures
        value == un32(bytes@.subrange(offset as int, offset + 4)),
{
    let length: usize = bytes.len();
    assert(offset + 4 <= length);
    vstd::bytes::u32_from_le_bytes(vstd::slice::slice_subrange(bytes, offset, offset + 4))
}

/// The scalar that starts at `offset`.
pub fn u64_at(bytes: &[u8], offset: usize) -> (value: u64)
    requires
        offset + 8 <= bytes@.len(),
    ensures
        value == un64(bytes@.subrange(offset as int, offset + 8)),
{
    let length: usize = bytes.len();
    assert(offset + 8 <= length);
    vstd::bytes::u64_from_le_bytes(vstd::slice::slice_subrange(bytes, offset, offset + 8))
}

/// The scalar that starts at `offset`.
pub fn i64_at(bytes: &[u8], offset: usize) -> (value: i64)
    requires
        offset + 8 <= bytes@.len(),
    ensures
        value == uni64(bytes@.subrange(offset as int, offset + 8)),
{
    u64_at(bytes, offset) as i64
}

/// Whether two byte strings hold the same bytes.
pub fn same_bytes(left: &[u8], right: &[u8]) -> (same: bool)
    ensures
        same == (left@ == right@),
{
    if left.len() != right.len() {
        return false;
    }
    let mut index: usize = 0;
    while index < left.len()
        invariant
            index <= left@.len(),
            left@.len() == right@.len(),
            forall|k: int| 0 <= k < index ==> left@[k] == right@[k],
        decreases left@.len() - index,
    {
        if left[index] != right[index] {
            return false;
        }
        index += 1;
    }
    assert(left@ =~= right@);
    true
}

/// Whether every byte is zero.
pub fn all_zero(bytes: &[u8]) -> (zero: bool)
    ensures
        zero == (forall|k: int| 0 <= k < bytes@.len() ==> bytes@[k] == 0),
{
    let mut index: usize = 0;
    while index < bytes.len()
        invariant
            index <= bytes@.len(),
            forall|k: int| 0 <= k < index ==> bytes@[k] == 0,
        decreases bytes@.len() - index,
    {
        if bytes[index] != 0 {
            return false;
        }
        index += 1;
    }
    true
}

/// The sixteen bytes that start at `offset`.
pub fn array16_at(bytes: &[u8], offset: usize) -> (value: [u8; 16])
    requires
        offset + 16 <= bytes@.len(),
    ensures
        value@ == bytes@.subrange(offset as int, offset + 16),
{
    let length: usize = bytes.len();
    let mut value: [u8; 16] = [0u8; 16];
    let mut index: usize = 0;
    while index < 16
        invariant
            index <= 16,
            offset + 16 <= length,
            length == bytes@.len(),
            value@.len() == 16,
            forall|k: int| 0 <= k < index ==> value@[k] == bytes@[offset + k],
        decreases 16 - index,
    {
        value[index] = bytes[offset + index];
        index += 1;
    }
    assert(value@ =~= bytes@.subrange(offset as int, offset + 16));
    value
}

} // verus!
