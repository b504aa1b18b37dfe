//! The record codec.
//!
//! One record is laid out as
//!
//! ```text
//! key_len   : 4 bytes, little-endian
//! value_len : 4 bytes, little-endian
//! key       : key_len bytes
//! value     : value_len bytes
//! ```
//!
//! and a log is zero or more records, one after the other.

use byteorder::{ByteOrder, LittleEndian};
use vstd::prelude::*;

verus! {

/// The number of bytes in front of a record's key: the two length fields.
pub const HEADER_LEN: usize = 8;

/// The number that the first four bytes of `b` spell in little-endian order.
pub open spec fn u32_from_le(b: Seq<u8>) -> u32
    recommends
        b.len() >= 4,
{
    (b[0] as int + b[1] as int * 0x100 + b[2] as int * 0x1_0000 + b[3] as int * 0x100_0000) as u32
}

/// The four bytes that spell `n` in little-endian order.
pub open spec fn u32_to_le(n: u32) -> Seq<u8> {
    seq![
        (n as int % 0x100) as u8,
        (n as int / 0x100 % 0x100) as u8,
        (n as int / 0x1_0000 % 0x100) as u8,
        (n as int / 0x100_0000 % 0x100) as u8,
    ]
}

/// Reading back the bytes of a number gives the number.
pub proof fn lemma_u32_le_round_trip(n: u32)
    ensures
        u32_to_le(n).len() == 4,
        u32_from_le(u32_to_le(n)) == n,
{
}

/// `byteorder::LittleEndian::read_u32`, a method of the `ByteOrder` trait.
/// It panics on fewer than four bytes and otherwise returns the number
/// that the first four spell, least significant byte first.
#[verifier::external_body]
pub(crate) fn read_u32_le(buf: &[u8]) -> (n: u32)
    requires
        buf@.len() >= 4,
    ensures
        n == u32_from_le(buf@),
{
    LittleEndian::read_u32(buf)
}

/// `byteorder::LittleEndian::write_u32`, a method of the `ByteOrder` trait,
/// on a buffer of exactly four bytes: it fills the buffer with the bytes
/// of `n`, least significant first.
#[verifier::external_body]
fn le_bytes_of_u32(n: u32) -> (buf: [u8; 4])
    ensures
        buf@ == u32_to_le(n),
{
    let mut buf = [0u8; 4];
    LittleEndian::write_u32(&mut buf, n);
    buf
}

/// One key with its value, as a record holds them.
#[derive(Debug, PartialEq, Eq)]
pub struct KeyValuePair {
    pub key: Vec<u8>,
    pub value: Vec<u8>,
}

/// Why no record could be read at a position of the log.
#[derive(Debug, Clone, Copy, PartialEq, Eq, Structural)]
pub enum RecordError {
    /// The position is the end of the log: no byte is left to read.
    EndOfStream,
    /// Bytes are left, but they do not make up a whole record.
    Corrupt,
}

/// What stands at a position of a log.
pub enum Decoded {
    /// A whole record, and the position right behind it.
    Record { key: Seq<u8>, value: Seq<u8>, next: nat },
    /// Nothing: the position is at or beyond the end of the log.
    EndOfStream,
    /// Some bytes, but fewer than the record's header or its lengths call for.
    Corrupt,
}

/// Whether both lengths fit into the 32-bit fields of a record's header.
pub open spec fn encodable(key: Seq<u8>, value: Seq<u8>) -> bool {
    key.len() <= u32::MAX && value.len() <= u32::MAX
}

/// The bytes of the record that holds `key` and `value`.
pub open spec fn encoding(key: Seq<u8>, value: Seq<u8>) -> Seq<u8>
    recommends
        encodable(key, value),
{
    u32_to_le(key.len() as u32) + u32_to_le(value.len() as u32) + key + value
}

/// The number of bytes in the record that holds `key` and `value`.
pub open spec fn encoded_len(key: Seq<u8>, value: Seq<u8>) -> nat {
    HEADER_LEN as nat + key.len() + value.len()
}

/// What a reader finds at position `pos` of `log`.
pub open spec fn decode_at(log: Seq<u8>, pos: nat) -> Decoded {
    if pos >= log.len() {
        Decoded::EndOfStream
    } else if log.len() - pos < HEADER_LEN {
        Decoded::Corrupt
    } else {
        let at = pos as int;
        let key_len = u32_from_le(log.subrange(at, at + 4)) as int;
        let value_len = u32_from_le(log.subrange(at + 4, at + 8)) as int;
        let key_end = at + HEADER_LEN + key_len;
        if log.len() < key_end + value_len {
            Decoded::Corrupt
        } else {
            Decoded::Record {
                key: log.subrange(at + HEADER_LEN, key_end),
                value: log.subrange(key_end, key_end + value_len),
                next: (key_end + value_len) as nat,
            }
        }
    }
}

/// A position in a log from which records are read one after the other.
pub struct LogReader<'a> {
    /// The whole log.
    pub data: &'a [u8],
    /// The offset of the next byte to read; it may lie beyond the end.
    pub pos: u64,
}

impl<'a> LogReader<'a> {
    /// A reader at the start of `data`.
    pub fn new(data: &'a [u8]) -> (f: Self)
        ensures
            f.data@ == data@,
            f.pos == 0,
    {
        LogReader { data, pos: 0 }
    }

    /// The offset of the next byte to read.
    pub fn position(&self) -> (pos: u64)
        ensures
            pos == self.pos,
    {
        self.pos
    }

    /// Moves to the offset `pos`, which may lie beyond the end of the log.
    pub fn seek(&mut self, pos: u64)
        ensures
            final(self).data@ == old(self).data@,
            final(self).pos == pos,
    {
        self.pos = pos;
    }
}

/// The record for `key` and `value`, or `None` where a length does not fit
/// into its 32-bit field.
pub fn encode(key: &[u8], value: &[u8]) -> (record: Option<Vec<u8>>)
    ensures
        match record {
            Some(bytes) => encodable(key@, value@) && bytes@ == encoding(key@, value@),
            None => !encodable(key@, value@),
        },
{
    if key.len() > u32::MAX as usize || value.len() > u32::MAX as usize {
        return None;
    }
    let key_len = le_bytes_of_u32(key.len() as u32);
    let value_len = le_bytes_of_u32(value.len() as u32);
    let mut bytes: Vec<u8> = Vec::new();
    bytes.extend_from_slice(key_len.as_slice());
    bytes.extend_from_slice(value_len.as_slice());
    bytes.extend_from_slice(key);
    bytes.extend_from_slice(value);
    assert(bytes@ =~= encoding(key@, value@));
    Some(bytes)
}

} // verus!
