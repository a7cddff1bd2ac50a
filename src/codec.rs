//! The record format: a 12-byte little-endian header (checksum, key length,
//! value length) followed by the key and the value.

use byteorder::{ByteOrder, LittleEndian};
use vstd::bytes::{spec_u32_from_le_bytes, spec_u32_to_le_bytes, lemma_auto_spec_u32_to_from_le_bytes};
use vstd::prelude::*;
use vstd::slice::{slice_subrange, slice_to_vec};

verus! {

/// Bytes in a record header.
pub const HEADER_LEN: usize = 12;

/// The CRC-32 (IEEE) of a byte sequence.
pub uninterp spec fn crc32_ieee(data: Seq<u8>) -> u32;

/// Relies on crc::crc32::checksum_ieee: the IEEE CRC-32 of the bytes, which
/// depends on the bytes alone.
#[verifier::external_body]
fn checksum(data: &[u8]) -> (r: u32)
    ensures
        r == crc32_ieee(data@),
{
    crc::crc32::checksum_ieee(data)
}

/// Relies on byteorder's LittleEndian::read_u32: the little-endian value of
/// the first four bytes (it panics on fewer than four).
#[verifier::external_body]
fn read_le_u32(b: &[u8]) -> (r: u32)
    requires
        b@.len() == 4,
    ensures
        r == spec_u32_from_le_bytes(b@),
{
    LittleEndian::read_u32(b)
}

/// Relies on byteorder's LittleEndian::write_u32: it stores `n` in the
/// first four bytes of the buffer, least significant byte first.
#[verifier::external_body]
fn le_bytes_of(n: u32) -> (r: Vec<u8>)
    ensures
        r@ == spec_u32_to_le_bytes(n),
{
    let mut b = vec![0u8; 4];
    LittleEndian::write_u32(&mut b, n);
    b
}

/// Why no record could be read.
#[derive(Clone, Copy, Debug, PartialEq, Eq, Structural)]
pub enum RecordError {
    /// No byte at all is left: the normal end of a log.
    EndOfLog,
    /// Fewer bytes are left than the header, or than the header announces.
    Truncated,
    /// The stored checksum differs from the checksum of the payload.
    Corrupt,
}

/// A decoded record.
#[derive(Debug)]
pub struct KeyValuePair {
    pub key: Vec<u8>,
    pub value: Vec<u8>,
}

/// The bytes of the record for `key` and `value`.
pub open spec fn frame_bytes(key: Seq<u8>, value: Seq<u8>) -> Seq<u8> {
    spec_u32_to_le_bytes(crc32_ieee(key + value)) + spec_u32_to_le_bytes(key.len() as u32)
        + spec_u32_to_le_bytes(value.len() as u32) + key + value
}

/// The checksum that the header at the start of `d` holds.
pub open spec fn stored_checksum(d: Seq<u8>) -> u32 {
    spec_u32_from_le_bytes(d.subrange(0, 4))
}

/// The key length that the header at the start of `d` holds.
pub open spec fn stored_key_len(d: Seq<u8>) -> nat {
    spec_u32_from_le_bytes(d.subrange(4, 8)) as nat
}

/// The value length that the header at the start of `d` holds.
pub open spec fn stored_value_len(d: Seq<u8>) -> nat {
    spec_u32_from_le_bytes(d.subrange(8, 12)) as nat
}

/// The length of the record at the start of `d`, header included.
pub open spec fn stored_frame_len(d: Seq<u8>) -> nat {
    HEADER_LEN as nat + stored_key_len(d) + stored_value_len(d)
}

/// The key and value bytes of the record at the start of `d`.
pub open spec fn stored_payload(d: Seq<u8>) -> Seq<u8> {
    d.subrange(HEADER_LEN as int, stored_frame_len(d) as int)
}

/// The key of the record at the start of `d`.
pub open spec fn decoded_key(d: Seq<u8>) -> Seq<u8> {
    d.subrange(HEADER_LEN as int, HEADER_LEN as int + stored_key_len(d))
}

/// The value of the record at the start of `d`.
pub open spec fn decoded_value(d: Seq<u8>) -> Seq<u8> {
    d.subrange(HEADER_LEN as int + stored_key_len(d), stored_frame_len(d) as int)
}

/// Why no record can be read from the start of `d`; `None` when one can.
pub open spec fn decode_error(d: Seq<u8>) -> Option<RecordError> {
    if d.len() == 0 {
        Some(RecordError::EndOfLog)
    } else if d.len() < HEADER_LEN || d.len() < stored_frame_len(d) {
        Some(RecordError::Truncated)
    } else if crc32_ieee(stored_payload(d)) != stored_checksum(d) {
        Some(RecordError::Corrupt)
    } else {
        None
    }
}

/// Appends `b` to `out`.
fn append_bytes(out: &mut Vec<u8>, b: &[u8])
    ensures
        final(out)@ == old(out)@ + b@,
{
    let mut i: usize = 0;
    while i < b.len()
        invariant
            i <= b@.len(),
            out@ == old(out)@ + b@.subrange(0, i as int),
        decreases b@.len() - i,
    {
        out.push(b[i]);
        i = i + 1;
        assert(out@ =~= old(out)@ + b@.subrange(0, i as int));
    }
    assert(b@.subrange(0, b@.len() as int) =~= b@);
}

/// The record for `key` and `value`: checksum, key length and value length
/// as little-endian 32-bit integers, then the key, then the value.
pub fn encode(key: &[u8], value: &[u8]) -> (r: Vec<u8>)
    requires
        key@.len() <= u32::MAX,
        value@.len() <= u32::MAX,
    ensures
        r@ == frame_bytes(key@, value@),
{
    let mut payload: Vec<u8> = Vec::new();
    append_bytes(&mut payload, key);
    append_bytes(&mut payload, value);
    let crc = checksum(payload.as_slice());
    let mut r = le_bytes_of(crc);
    let kl = le_bytes_of(key.len() as u32);
    let vl = le_bytes_of(value.len() as u32);
    append_bytes(&mut r, kl.as_slice());
    append_bytes(&mut r, vl.as_slice());
    append_bytes(&mut r, payload.as_slice());
    assert(r@ =~= frame_bytes(key@, value@));
    r
}

/// Decodes the record that starts at `pos` in `log`, and returns it with its
/// length in bytes, header included.
pub fn process_record(log: &[u8], pos: usize) -> (r: Result<(KeyValuePair, usize), RecordError>)
    requires
        pos <= log@.len(),
    ensures
        ({
            let d = log@.skip(pos as int);
            match r {
                Ok((kv, n)) => decode_error(d) is None && n == stored_frame_len(d)
                    && kv.key@ == decoded_key(d) && kv.value@ == decoded_value(d),
                Err(e) => decode_error(d) == Some(e),
            }
        }),
{
    let ghost d = log@.skip(pos as int);
    let avail = log.len() - pos;
    if avail == 0 {
        return Err(RecordError::EndOfLog);
    }
    if avail < HEADER_LEN {
        return Err(RecordError::Truncated);
    }
    let crc = read_le_u32(slice_subrange(log, pos, pos + 4));
    let kl = read_le_u32(slice_subrange(log, pos + 4, pos + 8));
    let vl = read_le_u32(slice_subrange(log, pos + 8, pos + 12));
    assert(d.subrange(0, 4) =~= log@.subrange(pos as int, pos + 4));
    assert(d.subrange(4, 8) =~= log@.subrange(pos + 4, pos + 8));
    assert(d.subrange(8, 12) =~= log@.subrange(pos + 8, pos + 12));
    let need: u64 = HEADER_LEN as u64 + kl as u64 + vl as u64;
    if (avail as u64) < need {
        return Err(RecordError::Truncated);
    }
    let n = need as usize;
    let key_end = pos + HEADER_LEN + kl as usize;
    let payload = slice_subrange(log, pos + HEADER_LEN, pos + n);
    assert(payload@ =~= stored_payload(d));
    if checksum(payload) != crc {
        return Err(RecordError::Corrupt);
    }
    let key = slice_to_vec(slice_subrange(log, pos + HEADER_LEN, key_end));
    let value = slice_to_vec(slice_subrange(log, key_end, pos + n));
    assert(key@ =~= decoded_key(d));
    assert(value@ =~= decoded_value(d));
    Ok((KeyValuePair { key, value }, n))
}

/// Decoding what `encode` wrote gives back the key and the value, with a
/// checksum that matches, whatever bytes follow the record.
pub proof fn lemma_round_trip(key: Seq<u8>, value: Seq<u8>, rest: Seq<u8>)
    requires
        key.len() <= u32::MAX,
        value.len() <= u32::MAX,
    ensures
        ({
            let d = frame_bytes(key, value) + rest;
            &&& decode_error(d) is None
            &&& stored_frame_len(d) == frame_bytes(key, value).len()
            &&& stored_checksum(d) == crc32_ieee(key + value)
            &&& decoded_key(d) == key
            &&& decoded_value(d) == value
        }),
{
    lemma_frame_header(key, value, rest);
    let d = frame_bytes(key, value) + rest;
    assert(stored_payload(d) =~= key + value);
    assert(decoded_key(d) =~= key);
    assert(decoded_value(d) =~= value);
}

/// The header of a record reads back the lengths and checksum it was
/// written with.
pub proof fn lemma_frame_header(key: Seq<u8>, value: Seq<u8>, rest: Seq<u8>)
    requires
        key.len() <= u32::MAX,
        value.len() <= u32::MAX,
    ensures
        ({
            let d = frame_bytes(key, value) + rest;
            &&& frame_bytes(key, value).len() == HEADER_LEN + key.len() + value.len()
            &&& stored_checksum(d) == crc32_ieee(key + value)
            &&& stored_key_len(d) == key.len()
            &&& stored_value_len(d) == value.len()
        }),
{
    lemma_auto_spec_u32_to_from_le_bytes();
    let c = spec_u32_to_le_bytes(crc32_ieee(key + value));
    let k = spec_u32_to_le_bytes(key.len() as u32);
    let v = spec_u32_to_le_bytes(value.len() as u32);
    let d = frame_bytes(key, value) + rest;
    assert(d.subrange(0, 4) =~= c);
    assert(d.subrange(4, 8) =~= k);
    assert(d.subrange(8, 12) =~= v);
}

/// A record whose payload was altered so that its checksum no longer
/// matches the stored one decodes as `Corrupt`, never as a record.
pub proof fn lemma_checksum_mismatch_is_corrupt(
    key: Seq<u8>,
    value: Seq<u8>,
    i: int,
    b: u8,
    rest: Seq<u8>,
)
    requires
        key.len() <= u32::MAX,
        value.len() <= u32::MAX,
        HEADER_LEN <= i < frame_bytes(key, value).len(),
        crc32_ieee(frame_bytes(key, value).update(i, b).subrange(
            HEADER_LEN as int,
            frame_bytes(key, value).len() as int,
        )) != crc32_ieee(key + value),
    ensures
        decode_error(frame_bytes(key, value).update(i, b) + rest) == Some(RecordError::Corrupt),
{
    let f = frame_bytes(key, value);
    let g = f.update(i, b);
    lemma_frame_header(key, value, rest);
    let d = f + rest;
    let e = g + rest;
    assert(e.subrange(0, 12) =~= d.subrange(0, 12));
    assert(e.subrange(0, 4) =~= d.subrange(0, 4));
    assert(e.subrange(4, 8) =~= d.subrange(4, 8));
    assert(e.subrange(8, 12) =~= d.subrange(8, 12));
    assert(stored_payload(e) =~= g.subrange(HEADER_LEN as int, f.len() as int));
}

} // verus!
