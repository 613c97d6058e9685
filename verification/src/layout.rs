//! The on-disk shape of an archive: field widths, byte order, and the
//! encodings of the header and of a table entry.
//!
//! ```text
//! offset 0  : magic        4 bytes, `PAKT`
//! offset 4  : version      4 bytes, = 1
//! offset 8  : reserved     80 bytes, written as zero, ignored on read
//! offset 88 : entry count  4 bytes
//! offset 92 : entries      { name length: 4, name, offset: 4, size: 4 } ...
//! then      : member data  concatenated in table order
//! ```
//!
//! Every integer is an unsigned 32-bit value stored least significant byte
//! first.

use crate::error::ErrorKind;
use vstd::prelude::*;

verus! {

/// The four bytes that open every archive: the ASCII letters `PAKT`.
pub const MAGIC: [u8; 4] = [0x50, 0x41, 0x4b, 0x54];

/// The only version this library writes and accepts.
pub const VERSION: u32 = 1;

/// Width in bytes of every integer field.
pub const FIELD_SIZE: usize = 4;

/// Width in bytes of the reserved region of the header.
pub const RESERVED_SIZE: usize = 80;

/// Width in bytes of the whole header: magic, version, reserved region and
/// entry count.
pub const HEADER_SIZE: usize = 92;

/// The fields of a header that carry information.
#[derive(Debug, Clone, Copy, PartialEq, Eq)]
pub struct Header {
    pub version: u32,
    pub entry_count: u32,
}

/// One record of the file table.
#[derive(Debug, PartialEq, Eq)]
pub struct TableEntry {
    /// The member's name, as raw bytes.
    pub name: Vec<u8>,
    /// Position of the member's first byte, counted from the start of the
    /// archive.
    pub offset: u32,
    /// Length of the member in bytes.
    pub size: u32,
}

/// The mathematical content of a [`TableEntry`].
pub struct EntryView {
    pub name: Seq<u8>,
    pub offset: nat,
    pub size: nat,
}

impl EntryView {
    /// Each of the entry's three fields fits its 32 bits.
    pub open spec fn encodable(self) -> bool {
        &&& self.name.len() <= u32::MAX
        &&& self.offset <= u32::MAX
        &&& self.size <= u32::MAX
    }

    /// The position of the first byte after the member.
    pub open spec fn end(self) -> nat {
        self.offset + self.size
    }
}

/// The bytes of `archive` that `entry` points at: `entry.size` bytes from
/// `entry.offset` on.
pub open spec fn member_bytes(archive: Seq<u8>, entry: EntryView) -> Seq<u8>
    recommends
        entry.end() <= archive.len(),
{
    archive.subrange(entry.offset as int, entry.end() as int)
}

impl View for TableEntry {
    type V = EntryView;

    open spec fn view(&self) -> EntryView {
        EntryView { name: self.name@, offset: self.offset as nat, size: self.size as nat }
    }
}

/// The number that four bytes denote when read least significant byte first.
pub open spec fn le_value(bytes: Seq<u8>) -> nat
    recommends
        bytes.len() == 4,
{
    (bytes[0] as nat) + 256 * (bytes[1] as nat) + 65536 * (bytes[2] as nat) + 16777216 * (
    bytes[3] as nat)
}

/// The four bytes that denote `value`, least significant byte first.
pub open spec fn le_bytes(value: nat) -> Seq<u8>
    recommends
        value <= u32::MAX,
{
    seq![
        (value % 256) as u8,
        ((value / 256) % 256) as u8,
        ((value / 65536) % 256) as u8,
        ((value / 16777216) % 256) as u8,
    ]
}

/// Encoding a 32-bit value and reading it back gives the value.
pub proof fn lemma_le_value_of_bytes(value: nat)
    requires
        value <= u32::MAX,
    ensures
        le_bytes(value).len() == 4,
        le_value(le_bytes(value)) == value,
{
}

/// Splitting a number into its lowest base-256 digit and the rest.
proof fn lemma_split_digit(low: nat, high: nat)
    requires
        low < 256,
    ensures
        (low + 256 * high) % 256 == low,
        (low + 256 * high) / 256 == high,
{
}

/// Four bytes denote a 32-bit value, and encoding that value gives back the
/// same four bytes.
pub proof fn lemma_le_bytes_of_value(bytes: Seq<u8>)
    requires
        bytes.len() == 4,
    ensures
        le_value(bytes) <= u32::MAX,
        le_bytes(le_value(bytes)) == bytes,
{
    let b0 = bytes[0] as nat;
    let b1 = bytes[1] as nat;
    let b2 = bytes[2] as nat;
    let b3 = bytes[3] as nat;
    lemma_split_digit(b0, b1 + 256 * (b2 + 256 * b3));
    lemma_split_digit(b1, b2 + 256 * b3);
    lemma_split_digit(b2, b3);
}

/// The integer field that starts at `start`, if `bytes` holds all four of its
/// bytes.
pub open spec fn field_at(bytes: Seq<u8>, start: int) -> Option<nat> {
    if 0 <= start && start + 4 <= bytes.len() {
        Some(le_value(bytes.subrange(start, start + 4)))
    } else {
        None
    }
}

/// The reserved region as it is written: eighty zero bytes.
pub open spec fn reserved_bytes() -> Seq<u8> {
    Seq::new(RESERVED_SIZE as nat, |i: int| 0u8)
}

/// The header of an archive with `entry_count` table entries.
pub open spec fn header_bytes(entry_count: nat) -> Seq<u8>
    recommends
        entry_count <= u32::MAX,
{
    MAGIC@ + le_bytes(VERSION as nat) + reserved_bytes() + le_bytes(entry_count)
}

/// What reading a header from the front of `bytes` yields. Fields are read
/// in order, and a field is looked at only once all of its bytes are there:
/// the magic number is checked before the version is read, the version
/// before the rest.
pub open spec fn parse_header(bytes: Seq<u8>) -> Result<Header, ErrorKind> {
    if bytes.len() < 4 {
        Err(ErrorKind::UnexpectedEndOfData)
    } else if bytes.subrange(0, 4) != MAGIC@ {
        Err(ErrorKind::InvalidMagicNumber)
    } else if bytes.len() < 8 {
        Err(ErrorKind::UnexpectedEndOfData)
    } else if le_value(bytes.subrange(4, 8)) != VERSION {
        Err(ErrorKind::InvalidVersion)
    } else if bytes.len() < HEADER_SIZE {
        Err(ErrorKind::UnexpectedEndOfData)
    } else {
        Ok(Header { version: VERSION, entry_count: le_value(bytes.subrange(88, 92)) as u32 })
    }
}

/// The number of bytes a table entry occupies when its name has `name_len`
/// bytes: the name's length field, the name, the offset and the size.
pub open spec fn spec_entry_size(name_len: nat) -> nat {
    4 + name_len + 4 + 4
}

/// The bytes of one table entry.
pub open spec fn entry_bytes(entry: EntryView) -> Seq<u8>
    recommends
        entry.encodable(),
{
    le_bytes(entry.name.len()) + entry.name + le_bytes(entry.offset) + le_bytes(entry.size)
}

/// The table entry that starts at `start`, if `bytes` holds all of it.
pub open spec fn parse_entry(bytes: Seq<u8>, start: int) -> Option<EntryView> {
    match field_at(bytes, start) {
        None => None,
        Some(name_len) => {
            let name_end = start + 4 + name_len;
            if name_end + 8 <= bytes.len() {
                Some(
                    EntryView {
                        name: bytes.subrange(start + 4, name_end),
                        offset: le_value(bytes.subrange(name_end, name_end + 4)),
                        size: le_value(bytes.subrange(name_end + 4, name_end + 8)),
                    },
                )
            } else {
                None
            }
        },
    }
}

/// A header that is written can be read back, whatever follows it.
pub proof fn lemma_parse_header_bytes(entry_count: nat, rest: Seq<u8>)
    requires
        entry_count <= u32::MAX,
    ensures
        header_bytes(entry_count).len() == HEADER_SIZE,
        parse_header(header_bytes(entry_count) + rest) == Ok::<Header, ErrorKind>(
            Header { version: VERSION, entry_count: entry_count as u32 },
        ),
{
    let bytes = header_bytes(entry_count) + rest;
    lemma_le_value_of_bytes(VERSION as nat);
    lemma_le_value_of_bytes(entry_count);
    assert(bytes.subrange(0, 4) =~= MAGIC@);
}

/// A table entry that is written can be read back from where it was put,
/// whatever stands before and after it.
pub proof fn lemma_parse_entry_bytes(before: Seq<u8>, entry: EntryView, after: Seq<u8>)
    requires
        entry.encodable(),
    ensures
        entry_bytes(entry).len() == spec_entry_size(entry.name.len()),
        parse_entry(before + entry_bytes(entry) + after, before.len() as int) == Some(entry),
{
    let bytes = before + entry_bytes(entry) + after;
    let start = before.len() as int;
    let name_end = start + 4 + entry.name.len();
    lemma_le_value_of_bytes(entry.name.len());
    lemma_le_value_of_bytes(entry.offset);
    lemma_le_value_of_bytes(entry.size);
    assert(bytes.subrange(start + 4, name_end) =~= entry.name);
}

/// Appends the four bytes of `value` to `sink`.
pub fn write_u32(sink: &mut Vec<u8>, value: u32)
    ensures
        final(sink)@ == old(sink)@ + le_bytes(value as nat),
{
    sink.push((value % 256) as u8);
    sink.push(((value / 256) % 256) as u8);
    sink.push(((value / 65536) % 256) as u8);
    sink.push(((value / 16777216) % 256) as u8);
}

/// Reads the integer field that starts at `start`.
fn read_u32(bytes: &[u8], start: usize) -> (value: u32)
    requires
        start + 4 <= bytes@.len(),
    ensures
        value == le_value(bytes@.subrange(start as int, start + 4)),
{
    let b0 = bytes[start] as u32;
    let b1 = bytes[start + 1] as u32;
    let b2 = bytes[start + 2] as u32;
    let b3 = bytes[start + 3] as u32;
    b0 + 256 * b1 + 65536 * b2 + 16777216 * b3
}

/// Reads the integer field that starts at `start`, or fails where `bytes`
/// ends before the field does.
pub fn decode_u32(bytes: &[u8], start: usize) -> (r: Result<u32, ErrorKind>)
    ensures
        match field_at(bytes@, start as int) {
            Some(value) => r is Ok && r->Ok_0 == value,
            None => r == Err::<u32, ErrorKind>(ErrorKind::UnexpectedEndOfData),
        },
{
    if bytes.len() < 4 || start > bytes.len() - 4 {
        return Err(ErrorKind::UnexpectedEndOfData);
    }
    Ok(read_u32(bytes, start))
}

/// The bytes of the header of an archive with `entry_count` table entries.
pub fn encode_header(entry_count: u32) -> (bytes: Vec<u8>)
    ensures
        bytes@ == header_bytes(entry_count as nat),
{
    let mut bytes: Vec<u8> = Vec::new();
    bytes.extend_from_slice(&MAGIC);
    write_u32(&mut bytes, VERSION);
    let mut written: usize = 0;
    while written < RESERVED_SIZE
        invariant
            written <= RESERVED_SIZE,
            bytes@ == MAGIC@ + le_bytes(VERSION as nat) + Seq::new(written as nat, |i: int| 0u8),
        decreases RESERVED_SIZE - written,
    {
        bytes.push(0);
        written += 1;
    }
    write_u32(&mut bytes, entry_count);
    bytes
}

/// Reads a header from the front of `bytes`: checks the magic number, then
/// the version, skips the reserved region and reads the entry count.
pub fn decode_header(bytes: &[u8]) -> (r: Result<Header, ErrorKind>)
    ensures
        r == parse_header(bytes@),
{
    let len = bytes.len();
    if len < 4 {
        return Err(ErrorKind::UnexpectedEndOfData);
    }
    if !same_bytes(&bytes[0..4], &MAGIC) {
        return Err(ErrorKind::InvalidMagicNumber);
    }
    if len < 8 {
        return Err(ErrorKind::UnexpectedEndOfData);
    }
    let version = read_u32(bytes, 4);
    if version != VERSION {
        return Err(ErrorKind::InvalidVersion);
    }
    if len < HEADER_SIZE {
        return Err(ErrorKind::UnexpectedEndOfData);
    }
    let entry_count = read_u32(bytes, 88);
    Ok(Header { version, entry_count })
}

/// The number of bytes a table entry occupies when its name has `name_len`
/// bytes.
pub fn entry_size(name_len: u32) -> (size: u64)
    ensures
        size == spec_entry_size(name_len as nat),
{
    name_len as u64 + 3 * (FIELD_SIZE as u64)
}

/// Appends to `sink` the table entry of a member called `name` that starts
/// at `offset` and is `size` bytes long.
pub fn write_entry(sink: &mut Vec<u8>, name: &[u8], offset: u32, size: u32)
    requires
        name@.len() <= u32::MAX,
    ensures
        final(sink)@ == old(sink)@ + entry_bytes(
            EntryView { name: name@, offset: offset as nat, size: size as nat },
        ),
{
    write_u32(sink, name.len() as u32);
    sink.extend_from_slice(name);
    write_u32(sink, offset);
    write_u32(sink, size);
}

/// The bytes of the table entry of a member called `name` that starts at
/// `offset` and is `size` bytes long.
pub fn encode_entry(name: &[u8], offset: u32, size: u32) -> (bytes: Vec<u8>)
    requires
        name@.len() <= u32::MAX,
    ensures
        bytes@ == entry_bytes(
            EntryView { name: name@, offset: offset as nat, size: size as nat },
        ),
{
    let mut bytes: Vec<u8> = Vec::new();
    write_entry(&mut bytes, name, offset, size);
    bytes
}

/// Reads the table entry that starts at `start`, or fails where `bytes` ends
/// before the entry does.
pub fn decode_entry(bytes: &[u8], start: usize) -> (r: Result<TableEntry, ErrorKind>)
    ensures
        match parse_entry(bytes@, start as int) {
            Some(entry) => r is Ok && r->Ok_0@ == entry,
            None => r == Err::<TableEntry, ErrorKind>(ErrorKind::UnexpectedEndOfData),
        },
{
    let len = bytes.len();
    if len < 4 || start > len - 4 {
        return Err(ErrorKind::UnexpectedEndOfData);
    }
    let name_len = read_u32(bytes, start) as usize;
    let name_start = start + 4;
    let remaining = len - name_start;
    if remaining < 8 || name_len > remaining - 8 {
        return Err(ErrorKind::UnexpectedEndOfData);
    }
    let name_end = name_start + name_len;
    let name = vstd::slice::slice_to_vec(&bytes[name_start..name_end]);
    let offset = read_u32(bytes, name_end);
    let size = read_u32(bytes, name_end + 4);
    Ok(TableEntry { name, offset, size })
}

/// Whether two byte strings are the same.
pub fn same_bytes(left: &[u8], right: &[u8]) -> (same: bool)
    ensures
        same == (left@ == right@),
{
    if left.len() != right.len() {
        return false;
    }
    let mut i: usize = 0;
    while i < left.len()
        invariant
            i <= left@.len(),
            left@.len() == right@.len(),
            forall|j: int| 0 <= j < i ==> left@[j] == right@[j],
        decreases left@.len() - i,
    {
        if left[i] != right[i] {
            return false;
        }
        i += 1;
    }
    assert(left@ =~= right@);
    true
}

} // verus!
