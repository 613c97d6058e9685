//! Opening an archive and extracting its members by name.

use crate::error::ErrorKind;
use crate::layout::{
    decode_entry, decode_header, le_value, member_bytes, parse_entry, parse_header, same_bytes,
    spec_entry_size, EntryView, Header, TableEntry, HEADER_SIZE, MAGIC, VERSION,
};
use vstd::prelude::*;
use vstd::string::StringSliceAdditionalSpecFns;

verus! {

/// A file table as it is read: its entries in file order, and the position
/// of the first byte after the last of them.
pub struct Table {
    pub entries: Seq<EntryView>,
    pub end: int,
}

/// What opening an archive finds in it.
pub struct Opened {
    /// The entry count that the header records.
    pub total_files: nat,
    /// The file table.
    pub table: Table,
}

/// The mathematical content of a [`Decoder`].
pub struct DecoderView {
    /// The bytes of the archive.
    pub bytes: Seq<u8>,
    /// Where the read cursor of the archive stands.
    pub position: nat,
    /// The entry count that the header records.
    pub total_files: nat,
    /// The table entry that each member name leads to.
    pub index: Map<Seq<u8>, EntryView>,
}

/// The first `count` entries of the file table of `bytes`, read one after
/// the other from the end of the header on; `None` where the bytes end
/// before the last of them does.
pub open spec fn parse_table(bytes: Seq<u8>, count: nat) -> Option<Table>
    decreases count,
{
    if count == 0 {
        Some(Table { entries: Seq::empty(), end: HEADER_SIZE as int })
    } else {
        match parse_table(bytes, (count - 1) as nat) {
            None => None,
            Some(table) => match parse_entry(bytes, table.end) {
                None => None,
                Some(entry) => Some(
                    Table {
                        entries: table.entries.push(entry),
                        end: table.end + spec_entry_size(entry.name.len()),
                    },
                ),
            },
        }
    }
}

/// What opening `bytes` as an archive yields: the header is validated first,
/// then as many table entries are read as it announces.
pub open spec fn parse_archive(bytes: Seq<u8>) -> Result<Opened, ErrorKind> {
    match parse_header(bytes) {
        Err(error) => Err(error),
        Ok(header) => match parse_table(bytes, header.entry_count as nat) {
            None => Err(ErrorKind::UnexpectedEndOfData),
            Some(table) => Ok(Opened { total_files: header.entry_count as nat, table }),
        },
    }
}

/// The lookup table that a sequence of entries builds when each is filed
/// under its name in turn: of two entries with one name the later stands.
pub open spec fn index_of(entries: Seq<EntryView>) -> Map<Seq<u8>, EntryView>
    decreases entries.len(),
{
    if entries.len() == 0 {
        Map::empty()
    } else {
        index_of(entries.drop_last()).insert(entries.last().name, entries.last())
    }
}

/// The views of the entries of `table`, in order.
spec fn entry_views(table: Seq<TableEntry>) -> Seq<EntryView> {
    Seq::new(table.len(), |i: int| table[i]@)
}

/// Once the table cannot be read up to some entry, it cannot be read
/// further either.
pub proof fn lemma_parse_table_fails_later(bytes: Seq<u8>, failed: nat, count: nat)
    requires
        parse_table(bytes, failed) is None,
        failed <= count,
    ensures
        parse_table(bytes, count) is None,
    decreases count,
{
    if failed < count {
        lemma_parse_table_fails_later(bytes, failed, (count - 1) as nat);
    }
}

/// A table that can be read from some bytes reads the same whatever follows
/// those bytes.
proof fn lemma_parse_table_extends(bytes: Seq<u8>, rest: Seq<u8>, count: nat)
    requires
        parse_table(bytes, count) is Some,
    ensures
        parse_table(bytes + rest, count) == parse_table(bytes, count),
    decreases count,
{
    if count > 0 {
        let before = (count - 1) as nat;
        lemma_parse_table_extends(bytes, rest, before);
        let start = parse_table(bytes, before)->Some_0.end;
        let entry = parse_entry(bytes, start)->Some_0;
        let name_end = start + 4 + entry.name.len();
        assert((bytes + rest).subrange(start, start + 4) =~= bytes.subrange(start, start + 4));
        assert((bytes + rest).subrange(start + 4, name_end) =~= bytes.subrange(
            start + 4,
            name_end,
        ));
        assert((bytes + rest).subrange(name_end, name_end + 4) =~= bytes.subrange(
            name_end,
            name_end + 4,
        ));
        assert((bytes + rest).subrange(name_end + 4, name_end + 8) =~= bytes.subrange(
            name_end + 4,
            name_end + 8,
        ));
    }
}

/// Opening an archive looks at its header and its file table and at nothing
/// behind them: an archive that opens still opens, and to the same result,
/// whatever bytes are put behind it; and one that is rejected for its magic
/// number or its version is rejected for the same reason whatever follows.
pub proof fn theorem_open_ignores_what_follows(bytes: Seq<u8>, rest: Seq<u8>)
    ensures
        parse_archive(bytes) is Ok ==> parse_archive(bytes + rest) == parse_archive(bytes),
        parse_archive(bytes) == Err::<Opened, ErrorKind>(ErrorKind::InvalidMagicNumber)
            ==> parse_archive(bytes + rest) == parse_archive(bytes),
        parse_archive(bytes) == Err::<Opened, ErrorKind>(ErrorKind::InvalidVersion)
            ==> parse_archive(bytes + rest) == parse_archive(bytes),
{
    let longer = bytes + rest;
    if bytes.len() >= 4 {
        assert(longer.subrange(0, 4) =~= bytes.subrange(0, 4));
    }
    if bytes.len() >= 8 {
        assert(longer.subrange(4, 8) =~= bytes.subrange(4, 8));
    }
    if bytes.len() >= HEADER_SIZE {
        assert(longer.subrange(88, 92) =~= bytes.subrange(88, 92));
    }
    if parse_archive(bytes) is Ok {
        lemma_parse_table_extends(bytes, rest, parse_header(bytes)->Ok_0.entry_count as nat);
    }
}

/// A name is in the lookup table exactly when some entry carries it, and it
/// then leads to the last entry that does.
pub proof fn lemma_index_of_last(entries: Seq<EntryView>, name: Seq<u8>, last: int)
    requires
        0 <= last < entries.len(),
        entries[last].name == name,
        forall|j: int| last < j < entries.len() ==> entries[j].name != name,
    ensures
        index_of(entries).dom().contains(name),
        index_of(entries)[name] == entries[last],
    decreases entries.len(),
{
    if last < entries.len() - 1 {
        lemma_index_of_last(entries.drop_last(), name, last);
    }
}

/// A name that no entry carries is not in the lookup table.
pub proof fn lemma_index_of_absent(entries: Seq<EntryView>, name: Seq<u8>)
    requires
        forall|j: int| 0 <= j < entries.len() ==> entries[j].name != name,
    ensures
        !index_of(entries).dom().contains(name),
    decreases entries.len(),
{
    if entries.len() > 0 {
        lemma_index_of_absent(entries.drop_last(), name);
    }
}

/// An open archive: its bytes, a read cursor into them, and the index built
/// from its file table. The index is built once, when the archive is
/// opened, and never changes afterwards.
#[derive(Debug)]
pub struct Decoder {
    buffer: Vec<u8>,
    position: usize,
    total_files: u32,
    contents: Vec<TableEntry>,
}

impl View for Decoder {
    type V = DecoderView;

    closed spec fn view(&self) -> DecoderView {
        DecoderView {
            bytes: self.buffer@,
            position: self.position as nat,
            total_files: self.total_files as nat,
            index: index_of(entry_views(self.contents@)),
        }
    }
}

impl Decoder {
    /// Opens the archive held in `buffer`.
    ///
    /// The magic number is read and checked first, then the version; the
    /// reserved region is skipped; then the entry count is read and that
    /// many table entries after it. Nothing is checked of the offsets and
    /// sizes that the entries record. On success the cursor stands behind
    /// the last table entry.
    pub fn from(buffer: Vec<u8>) -> (r: Result<Decoder, ErrorKind>)
        ensures
            match parse_archive(buffer@) {
                Ok(opened) => r is Ok && r->Ok_0@ == (DecoderView {
                    bytes: buffer@,
                    position: opened.table.end as nat,
                    total_files: opened.total_files,
                    index: index_of(opened.table.entries),
                }),
                Err(error) => r is Err && r->Err_0 == error,
            },
            buffer@.len() >= 4 && buffer@.subrange(0, 4) != MAGIC@ ==> r is Err && r->Err_0
                == ErrorKind::InvalidMagicNumber,
            buffer@.len() >= 8 && buffer@.subrange(0, 4) == MAGIC@ && le_value(
                buffer@.subrange(4, 8),
            ) != VERSION ==> r is Err && r->Err_0 == ErrorKind::InvalidVersion,
    {
        let header = match decode_header(buffer.as_slice()) {
            Ok(header) => header,
            Err(error) => {
                return Err(error);
            },
        };
        let mut contents: Vec<TableEntry> = Vec::new();
        let mut position: usize = HEADER_SIZE;
        let mut read: u32 = 0;
        assert(buffer@.len() == buffer.len());
        assert(entry_views(contents@) =~= Seq::<EntryView>::empty());
        while read < header.entry_count
            invariant
                read <= header.entry_count,
                HEADER_SIZE <= position <= buffer@.len() <= usize::MAX,
                parse_header(buffer@) == Ok::<Header, ErrorKind>(header),
                parse_table(buffer@, read as nat) == Some(
                    Table { entries: entry_views(contents@), end: position as int },
                ),
            decreases header.entry_count - read,
        {
            match decode_entry(buffer.as_slice(), position) {
                Err(error) => {
                    proof {
                        lemma_parse_table_fails_later(
                            buffer@,
                            (read + 1) as nat,
                            header.entry_count as nat,
                        );
                    }
                    return Err(error);
                },
                Ok(entry) => {
                    assert(entry_views(contents@.push(entry)) =~= entry_views(contents@).push(
                        entry@,
                    ));
                    position = position + 12 + entry.name.len();
                    contents.push(entry);
                },
            }
            read += 1;
        }
        Ok(Decoder { buffer, position, total_files: header.entry_count, contents })
    }

    /// The entry count that the archive's header records.
    pub fn total_files(&self) -> (count: u32)
        ensures
            count == self@.total_files,
    {
        self.total_files
    }

    /// Where the read cursor of the archive stands.
    pub fn position(&self) -> (position: usize)
        ensures
            position == self@.position,
    {
        self.position
    }

    /// The table entry of the member called `path`, if there is one.
    pub fn lookup(&self, path: &str) -> (r: Option<&TableEntry>)
        ensures
            match r {
                Some(entry) => self@.index.dom().contains(path.spec_bytes()) && entry@
                    == self@.index[path.spec_bytes()],
                None => !self@.index.dom().contains(path.spec_bytes()),
            },
    {
        let name = path.as_bytes();
        let ghost entries = entry_views(self.contents@);
        let mut i: usize = self.contents.len();
        while i > 0
            invariant
                i <= self.contents@.len(),
                name@ == path.spec_bytes(),
                entries == entry_views(self.contents@),
                forall|j: int| i <= j < entries.len() ==> entries[j].name != name@,
            decreases i,
        {
            i -= 1;
            if same_bytes(self.contents[i].name.as_slice(), name) {
                proof {
                    lemma_index_of_last(entries, name@, i as int);
                }
                return Some(&self.contents[i]);
            }
        }
        proof {
            lemma_index_of_absent(entries, name@);
        }
        None
    }

    /// Appends the bytes of the member called `path` to `sink`.
    ///
    /// The cursor is moved to the offset that the member's table entry
    /// records, and as many bytes as the entry records are copied from
    /// there; the cursor then stands behind them. Where the archive ends
    /// before that many bytes, nothing is copied and the cursor stays at the
    /// member's offset. Where no member has that name, neither the decoder
    /// nor `sink` changes.
    pub fn extract(&mut self, path: &str, sink: &mut Vec<u8>) -> (r: Result<(), ErrorKind>)
        ensures
            final(self)@.bytes == old(self)@.bytes,
            final(self)@.total_files == old(self)@.total_files,
            final(self)@.index == old(self)@.index,
            !old(self)@.index.dom().contains(path.spec_bytes()) ==> {
                &&& r == Err::<(), ErrorKind>(ErrorKind::MemberNotFound)
                &&& *final(self) == *old(self)
                &&& final(sink)@ == old(sink)@
            },
            old(self)@.index.dom().contains(path.spec_bytes()) ==> {
                let entry = old(self)@.index[path.spec_bytes()];
                if entry.end() <= old(self)@.bytes.len() {
                    &&& r == Ok::<(), ErrorKind>(())
                    &&& final(sink)@ == old(sink)@ + member_bytes(old(self)@.bytes, entry)
                    &&& final(self)@.position == entry.end()
                } else {
                    &&& r == Err::<(), ErrorKind>(ErrorKind::UnexpectedEndOfData)
                    &&& final(sink)@ == old(sink)@
                    &&& final(self)@.position == entry.offset
                }
            },
    {
        let (offset, size) = match self.lookup(path) {
            None => {
                return Err(ErrorKind::MemberNotFound);
            },
            Some(entry) => (entry.offset as usize, entry.size as usize),
        };
        self.position = offset;
        let len = self.buffer.len();
        if offset > len || size > len - offset {
            return Err(ErrorKind::UnexpectedEndOfData);
        }
        let end = offset + size;
        sink.extend_from_slice(&self.buffer.as_slice()[offset..end]);
        self.position = end;
        Ok(())
    }
}

} // verus!
