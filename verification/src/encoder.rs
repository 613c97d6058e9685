//! Collecting named members and writing them out as one archive.
//!
//! Members are kept in the order in which their names were first added. The
//! file table and the member data are both written in that order, so the
//! offsets that the table records are the places where the data lands.

use crate::layout::{
    encode_header, entry_bytes, entry_size, header_bytes, same_bytes, spec_entry_size, write_entry,
    EntryView, HEADER_SIZE,
};
use vstd::prelude::*;
use vstd::string::StringSliceAdditionalSpecFns;

verus! {

/// The mathematical content of one member: its name and its bytes.
pub struct MemberView {
    pub name: Seq<u8>,
    pub content: Seq<u8>,
}

/// The length of the file table of `members`: the sizes of their table
/// entries, added up.
pub open spec fn table_len(members: Seq<MemberView>) -> nat
    decreases members.len(),
{
    if members.len() == 0 {
        0
    } else {
        table_len(members.drop_last()) + spec_entry_size(members.last().name.len())
    }
}

/// The lengths of the contents of `members`, added up.
pub open spec fn contents_len(members: Seq<MemberView>) -> nat
    decreases members.len(),
{
    if members.len() == 0 {
        0
    } else {
        contents_len(members.drop_last()) + members.last().content.len()
    }
}

/// Where the member data begins: behind the header and the file table.
pub open spec fn data_start(members: Seq<MemberView>) -> nat {
    HEADER_SIZE as nat + table_len(members)
}

/// The length of the archive that holds `members`.
pub open spec fn archive_len(members: Seq<MemberView>) -> nat {
    data_start(members) + contents_len(members)
}

/// Where the data of member `i` begins: at the start of the data, moved on
/// by the sizes of the members before it.
pub open spec fn member_offset(members: Seq<MemberView>, i: int) -> nat
    recommends
        0 <= i <= members.len(),
{
    data_start(members) + contents_len(members.take(i))
}

/// The table entry of member `i`.
pub open spec fn table_entry(members: Seq<MemberView>, i: int) -> EntryView
    recommends
        0 <= i < members.len(),
{
    EntryView {
        name: members[i].name,
        offset: member_offset(members, i),
        size: members[i].content.len(),
    }
}

/// The file table of the archive that holds `members`.
pub open spec fn table_entries(members: Seq<MemberView>) -> Seq<EntryView> {
    Seq::new(members.len(), |i: int| table_entry(members, i))
}

/// The bytes of a file table: those of its entries, one after the other.
pub open spec fn table_bytes(entries: Seq<EntryView>) -> Seq<u8>
    decreases entries.len(),
{
    if entries.len() == 0 {
        Seq::empty()
    } else {
        table_bytes(entries.drop_last()) + entry_bytes(entries.last())
    }
}

/// The member data: the contents of `members`, one after the other.
pub open spec fn data_bytes(members: Seq<MemberView>) -> Seq<u8>
    decreases members.len(),
{
    if members.len() == 0 {
        Seq::empty()
    } else {
        data_bytes(members.drop_last()) + members.last().content
    }
}

/// The archive that holds `members`: header, file table, member data.
pub open spec fn archive_bytes(members: Seq<MemberView>) -> Seq<u8> {
    header_bytes(members.len()) + table_bytes(table_entries(members)) + data_bytes(members)
}

/// Whether some member is called `name`.
pub open spec fn has_name(members: Seq<MemberView>, name: Seq<u8>) -> bool {
    exists|i: int| 0 <= i < members.len() && (#[trigger] members[i]).name == name
}

/// The place of a member called `name`.
pub open spec fn position_of(members: Seq<MemberView>, name: Seq<u8>) -> int
    recommends
        has_name(members, name),
{
    choose|i: int| 0 <= i < members.len() && (#[trigger] members[i]).name == name
}

/// `members` after `member` is added: it takes the place of the member of
/// the same name if there is one, and goes to the end otherwise.
pub open spec fn put(members: Seq<MemberView>, member: MemberView) -> Seq<MemberView> {
    if has_name(members, member.name) {
        members.update(position_of(members, member.name), member)
    } else {
        members.push(member)
    }
}

/// The length of the archive once a member called `name` with `size` bytes
/// of content is added to `members`.
pub open spec fn len_after_put(members: Seq<MemberView>, name: Seq<u8>, size: nat) -> int {
    if has_name(members, name) {
        archive_len(members) - members[position_of(members, name)].content.len() + size
    } else {
        (archive_len(members) + spec_entry_size(name.len()) + size) as int
    }
}

/// No two members have the same name.
pub open spec fn distinct_names(members: Seq<MemberView>) -> bool {
    forall|i: int, j: int|
        0 <= i < j < members.len() ==> (#[trigger] members[i]).name != (
        #[trigger] members[j]).name
}

/// Every field of the header and of the file table fits its 32 bits: the
/// number of members, and the name length, offset and size of each.
pub open spec fn representable(members: Seq<MemberView>) -> bool {
    &&& members.len() <= u32::MAX
    &&& forall|i: int| 0 <= i < members.len() ==> (#[trigger] table_entry(members, i)).encodable()
}

/// What an [`Encoder`] holds at any time: members with distinct, non-empty
/// names, whose archive is no longer than 32-bit offsets can address.
pub open spec fn valid_members(members: Seq<MemberView>) -> bool {
    &&& forall|i: int| 0 <= i < members.len() ==> (#[trigger] members[i]).name.len() > 0
    &&& distinct_names(members)
    &&& archive_len(members) <= u32::MAX
}

/// Whether a member called `name` with `size` bytes of content can be added
/// to `members`: the name is not empty, and the archive stays within what
/// 32-bit offsets can address.
pub open spec fn fits(members: Seq<MemberView>, name: Seq<u8>, size: nat) -> bool {
    name.len() > 0 && len_after_put(members, name, size) <= u32::MAX
}

/// Taking one item more adds that item at the end.
pub(crate) proof fn lemma_take_next<A>(items: Seq<A>, i: int)
    requires
        0 <= i < items.len(),
    ensures
        items.take(i + 1).drop_last() == items.take(i),
        items.take(i + 1).last() == items[i],
        items.take(i + 1) == items.take(i).push(items[i]),
{
}

/// The contents of the first members, and of one more, are no longer than
/// those of all.
pub(crate) proof fn lemma_contents_len_take(members: Seq<MemberView>, i: int)
    requires
        0 <= i <= members.len(),
    ensures
        contents_len(members.take(i)) <= contents_len(members),
        i < members.len() ==> contents_len(members.take(i)) + members[i].content.len()
            <= contents_len(members),
    decreases members.len() - i,
{
    if i == members.len() {
        assert(members.take(i) =~= members);
    } else {
        lemma_take_next(members, i);
        lemma_contents_len_take(members, i + 1);
    }
}

/// The table entries of the first members, and of one more, are no longer
/// than those of all; and every entry takes twelve bytes at least.
pub(crate) proof fn lemma_table_len_take(members: Seq<MemberView>, i: int)
    requires
        0 <= i <= members.len(),
    ensures
        12 * i <= table_len(members.take(i)) <= table_len(members),
        i < members.len() ==> table_len(members.take(i)) + spec_entry_size(members[i].name.len())
            <= table_len(members),
    decreases members.len() - i,
{
    if i == members.len() {
        assert(members.take(i) =~= members);
        lemma_table_len_lower(members);
    } else {
        lemma_take_next(members, i);
        lemma_table_len_take(members, i + 1);
        lemma_table_len_lower(members.take(i));
    }
}

/// Every table entry takes twelve bytes at least.
pub(crate) proof fn lemma_table_len_lower(members: Seq<MemberView>)
    ensures
        12 * members.len() <= table_len(members),
    decreases members.len(),
{
    if members.len() > 0 {
        lemma_table_len_lower(members.drop_last());
    }
}

/// Every member of an archive lies within it, and so does its name; and the
/// archive has more bytes than members.
pub(crate) proof fn lemma_member_within_archive(members: Seq<MemberView>, i: int)
    requires
        0 <= i < members.len(),
    ensures
        members[i].name.len() <= archive_len(members),
        member_offset(members, i) + members[i].content.len() <= archive_len(members),
        members.len() <= archive_len(members),
{
    lemma_contents_len_take(members, i);
    lemma_table_len_take(members, i);
    lemma_table_len_lower(members);
}

/// An archive that 32-bit offsets can address has no field that overflows.
pub proof fn lemma_valid_representable(members: Seq<MemberView>)
    requires
        archive_len(members) <= u32::MAX,
    ensures
        representable(members),
{
    assert forall|i: int| 0 <= i < members.len() implies (#[trigger] table_entry(
        members,
        i,
    )).encodable() by {
        lemma_member_within_archive(members, i);
    }
    lemma_table_len_lower(members);
}

/// The member data is as long as the sizes of the members add up to.
pub(crate) proof fn lemma_data_bytes_len(members: Seq<MemberView>)
    ensures
        data_bytes(members).len() == contents_len(members),
    decreases members.len(),
{
    if members.len() > 0 {
        lemma_data_bytes_len(members.drop_last());
    }
}

/// The first entries of the file table take as many bytes as their sizes
/// add up to.
pub(crate) proof fn lemma_table_bytes_len(members: Seq<MemberView>, i: int)
    requires
        0 <= i <= members.len(),
    ensures
        table_bytes(table_entries(members).take(i)).len() == table_len(members.take(i)),
    decreases i,
{
    let entries = table_entries(members);
    if i > 0 {
        lemma_table_bytes_len(members, i - 1);
        lemma_take_next(entries, i - 1);
        lemma_take_next(members, i - 1);
    }
}

/// Adding a member at the end adds its table entry and its content to the
/// sums.
pub(crate) proof fn lemma_len_push(members: Seq<MemberView>, member: MemberView)
    ensures
        table_len(members.push(member)) == table_len(members) + spec_entry_size(
            member.name.len(),
        ),
        contents_len(members.push(member)) == contents_len(members) + member.content.len(),
{
    assert(members.push(member).drop_last() =~= members);
}

/// Replacing a member by one of the same name changes the sum of the sizes
/// by the difference of the two contents, and leaves the file table as long
/// as it is.
pub(crate) proof fn lemma_len_update(members: Seq<MemberView>, i: int, member: MemberView)
    requires
        0 <= i < members.len(),
        members[i].name == member.name,
    ensures
        table_len(members.update(i, member)) == table_len(members),
        contents_len(members.update(i, member)) + members[i].content.len() == contents_len(
            members,
        ) + member.content.len(),
    decreases members.len(),
{
    let updated = members.update(i, member);
    if i == members.len() - 1 {
        assert(updated.drop_last() =~= members.drop_last());
    } else {
        lemma_len_update(members.drop_last(), i, member);
        assert(updated.drop_last() =~= members.drop_last().update(i, member));
    }
}

/// The bytes of one member, with their length as the file table records it.
#[derive(Debug)]
pub struct BufferInfo {
    buffer: Vec<u8>,
    size: u32,
}

impl View for BufferInfo {
    type V = Seq<u8>;

    closed spec fn view(&self) -> Seq<u8> {
        self.buffer@
    }
}

impl BufferInfo {
    /// The recorded size is the length of the bytes.
    pub closed spec fn wf(&self) -> bool {
        self.size == self.buffer@.len()
    }
}

/// A member waiting to be written.
#[derive(Debug)]
struct PendingMember {
    name: Vec<u8>,
    info: BufferInfo,
}

impl View for PendingMember {
    type V = MemberView;

    closed spec fn view(&self) -> MemberView {
        MemberView { name: self.name@, content: self.info@ }
    }
}

/// Collects members and writes them out as one archive.
#[derive(Debug)]
pub struct Encoder {
    contents: Vec<PendingMember>,
    paths_len: u32,
    data_len: u32,
}

impl View for Encoder {
    type V = Seq<MemberView>;

    closed spec fn view(&self) -> Seq<MemberView> {
        Seq::new(self.contents@.len(), |i: int| self.contents@[i]@)
    }
}

impl Encoder {
    /// The bookkeeping agrees with the members held: each recorded size is
    /// that of its member, and the running totals are those of the names
    /// and of the contents.
    pub closed spec fn consistent(&self) -> bool {
        &&& forall|i: int|
            0 <= i < self.contents@.len() ==> (#[trigger] self.contents@[i]).info.wf()
        &&& 12 * self.contents@.len() + self.paths_len == table_len(self@)
        &&& self.data_len == contents_len(self@)
    }

    /// The encoder is in order: its bookkeeping is consistent and its members
    /// are valid.
    pub open spec fn wf(&self) -> bool {
        self.consistent() && valid_members(self@)
    }

    /// An encoder with no members.
    pub fn new() -> (encoder: Encoder)
        ensures
            encoder.wf(),
            encoder@ == Seq::<MemberView>::empty(),
            archive_len(encoder@) == HEADER_SIZE,
    {
        Encoder { contents: Vec::new(), paths_len: 0, data_len: 0 }
    }

    /// The place of the member called `name`, if there is one.
    fn find(&self, name: &[u8]) -> (r: Option<usize>)
        requires
            self.wf(),
        ensures
            match r {
                Some(i) => has_name(self@, name@) && i == position_of(self@, name@) && i
                    < self.contents@.len(),
                None => !has_name(self@, name@),
            },
    {
        let mut i: usize = 0;
        while i < self.contents.len()
            invariant
                i <= self.contents@.len(),
                self.wf(),
                forall|j: int| 0 <= j < i ==> (#[trigger] self@[j]).name != name@,
            decreases self.contents@.len() - i,
        {
            if same_bytes(self.contents[i].name.as_slice(), name) {
                assert(self@[i as int].name == name@);
                return Some(i);
            }
            i += 1;
        }
        None
    }

    /// Whether [`Encoder::add_file`] takes a member called `path` with `size`
    /// bytes of content.
    pub fn accepts(&self, path: &str, size: usize) -> (b: bool)
        requires
            self.wf(),
        ensures
            b == fits(self@, path.spec_bytes(), size as nat),
    {
        let name = path.as_bytes();
        if name.len() == 0 {
            return false;
        }
        let count = self.contents.len();
        proof {
            lemma_table_len_lower(self@);
        }
        let used: u64 = HEADER_SIZE as u64 + 12 * (count as u64) + self.paths_len as u64
            + self.data_len as u64;
        let limit: u64 = u32::MAX as u64;
        match self.find(name) {
            Some(i) => {
                let freed = self.contents[i].info.size as u64;
                proof {
                    lemma_member_within_archive(self@, i as int);
                }
                size as u64 <= limit && used - freed + size as u64 <= limit
            },
            None => {
                name.len() as u64 <= limit && size as u64 <= limit && used + entry_size(
                    name.len() as u32,
                ) + size as u64 <= limit
            },
        }
    }

    /// Adds a member called `path` whose bytes are `buffer`.
    ///
    /// The name must not be empty, and the archive must stay within what
    /// its 32-bit offsets can address: [`Encoder::accepts`] tests both.
    ///
    /// A member that is added under a name already in use takes the place of
    /// the earlier one: the archive holds the later content, at the earlier
    /// member's place in the order.
    pub fn add_file(&mut self, path: &str, buffer: Vec<u8>)
        requires
            old(self).wf(),
            fits(old(self)@, path.spec_bytes(), buffer@.len()),
        ensures
            final(self).wf(),
            final(self)@ == put(
                old(self)@,
                MemberView { name: path.spec_bytes(), content: buffer@ },
            ),
            archive_len(final(self)@) == len_after_put(
                old(self)@,
                path.spec_bytes(),
                buffer@.len(),
            ),
    {
        let name = vstd::slice::slice_to_vec(path.as_bytes());
        let ghost member = MemberView { name: path.spec_bytes(), content: buffer@ };
        let ghost before = self@;
        let size = buffer.len() as u32;
        match self.find(name.as_slice()) {
            Some(i) => {
                let freed = self.contents[i].info.size;
                proof {
                    lemma_member_within_archive(before, i as int);
                    lemma_len_update(before, i as int, member);
                }
                self.data_len = self.data_len - freed + size;
                self.contents.set(i, PendingMember { name, info: BufferInfo { buffer, size } });
                assert(self@ =~= before.update(i as int, member));
            },
            None => {
                proof {
                    lemma_len_push(before, member);
                }
                self.paths_len = self.paths_len + name.len() as u32;
                self.data_len = self.data_len + size;
                self.contents.push(PendingMember { name, info: BufferInfo { buffer, size } });
                assert(self@ =~= before.push(member));
            },
        }
    }

    /// Appends to `sink` the file table: one entry for each member, in order.
    fn write_table(&self, sink: &mut Vec<u8>)
        requires
            self.wf(),
        ensures
            final(sink)@ == old(sink)@ + table_bytes(table_entries(self@)),
    {
        let ghost members = self@;
        let ghost entries = table_entries(members);
        let count = self.contents.len();
        proof {
            lemma_table_len_lower(members);
        }
        let mut pad: u32 = HEADER_SIZE as u32 + 12 * (count as u32) + self.paths_len;
        let mut i: usize = 0;
        while i < count
            invariant
                i <= count == self.contents@.len(),
                self.wf(),
                members == self@,
                entries == table_entries(members),
                pad == member_offset(members, i as int),
                sink@ == old(sink)@ + table_bytes(entries.take(i as int)),
            decreases count - i,
        {
            let member = &self.contents[i];
            proof {
                lemma_take_next(entries, i as int);
                lemma_take_next(members, i as int);
                lemma_member_within_archive(members, i as int);
            }
            write_entry(sink, member.name.as_slice(), pad, member.info.size);
            pad = pad + member.info.size;
            i += 1;
        }
        assert(entries.take(count as int) =~= entries);
    }

    /// Appends to `sink` the contents of the members, in order.
    fn write_data(&self, sink: &mut Vec<u8>)
        ensures
            final(sink)@ == old(sink)@ + data_bytes(self@),
    {
        let ghost members = self@;
        let count = self.contents.len();
        let mut i: usize = 0;
        while i < count
            invariant
                i <= count == self.contents@.len(),
                members == self@,
                sink@ == old(sink)@ + data_bytes(members.take(i as int)),
            decreases count - i,
        {
            proof {
                lemma_take_next(members, i as int);
            }
            sink.extend_from_slice(self.contents[i].info.buffer.as_slice());
            i += 1;
        }
        assert(members.take(count as int) =~= members);
    }

    /// Appends to `sink` the archive that holds the members added so far:
    /// the header, then one table entry for each member, then the contents
    /// of the members, table and contents in the same order.
    pub fn write(&self, sink: &mut Vec<u8>)
        requires
            self.wf(),
        ensures
            final(sink)@ == old(sink)@ + archive_bytes(self@),
    {
        let count = self.contents.len();
        proof {
            lemma_table_len_lower(self@);
        }
        let header = encode_header(count as u32);
        sink.extend_from_slice(header.as_slice());
        self.write_table(sink);
        self.write_data(sink);
    }
}

} // verus!
