//! What holds between writing an archive and reading it back.
//!
//! The theorems speak of [`archive_bytes`], the bytes that
//! [`Encoder::write`](crate::encoder::Encoder::write) appends, and of
//! [`parse_archive`], [`index_of`] and [`member_bytes`], in terms of which
//! [`Decoder::from`](crate::decoder::Decoder::from) and
//! [`Decoder::extract`](crate::decoder::Decoder::extract) state what they
//! return. Whatever an encoder holds meets their premises: see
//! [`valid_members`](crate::encoder::valid_members) and
//! [`lemma_valid_representable`](crate::encoder::lemma_valid_representable).

use crate::decoder::{
    index_of, lemma_index_of_absent, lemma_index_of_last, parse_archive, parse_table, Opened,
    Table,
};
use crate::encoder::{
    archive_bytes, archive_len, data_bytes, data_start, distinct_names, has_name,
    lemma_data_bytes_len, lemma_table_bytes_len, lemma_take_next, representable,
    table_bytes, table_entries, table_entry, MemberView,
};
use crate::error::ErrorKind;
use crate::layout::{
    entry_bytes, header_bytes, lemma_parse_entry_bytes, lemma_parse_header_bytes, member_bytes,
    parse_entry, spec_entry_size, EntryView, HEADER_SIZE,
};
use vstd::prelude::*;

verus! {

/// Writing members and opening the result gives their names back: the
/// header records the number of members, and a name is in the index exactly
/// when a member carries it.
///
/// Every field of the header and the file table must fit its 32 bits.
pub proof fn theorem_names_round_trip(members: Seq<MemberView>, name: Seq<u8>)
    requires
        representable(members),
    ensures
        parse_archive(archive_bytes(members)) is Ok,
        parse_archive(archive_bytes(members))->Ok_0.total_files == members.len(),
        index_of(parse_archive(archive_bytes(members))->Ok_0.table.entries).dom().contains(name)
            <==> has_name(members, name),
{
    lemma_written_archive_opens(members);
    lemma_index_names(members, name);
}

/// Writing members and opening the result gives their contents back: the
/// name of each member leads to an entry that lies within the archive, and
/// the bytes that the entry points at are the member's bytes, unchanged.
///
/// The members must have distinct names, and every field of the header and
/// the file table must fit its 32 bits.
pub proof fn theorem_content_round_trip(members: Seq<MemberView>, i: int)
    requires
        distinct_names(members),
        representable(members),
        0 <= i < members.len(),
    ensures
        parse_archive(archive_bytes(members)) is Ok,
        ({
            let archive = archive_bytes(members);
            let index = index_of(parse_archive(archive)->Ok_0.table.entries);
            &&& index.dom().contains(members[i].name)
            &&& index[members[i].name].end() <= archive.len()
            &&& member_bytes(archive, index[members[i].name]) == members[i].content
        }),
{
    lemma_written_archive_opens(members);
    lemma_index_of_written_table(members, i);
    theorem_offsets_consistent(members, i);
}

/// Every table entry of a written archive points at its member's bytes: the
/// bytes from the entry's offset on, as many as its size, are the member's
/// content.
pub proof fn theorem_offsets_consistent(members: Seq<MemberView>, i: int)
    requires
        0 <= i < members.len(),
    ensures
        table_entry(members, i).end() <= archive_bytes(members).len(),
        member_bytes(archive_bytes(members), table_entry(members, i)) == members[i].content,
{
    // The member data is that of the members before `i`, then the content of
    // member `i`, then the data of the members behind it; and the data of the
    // members before `i` is as long as their sizes add up to.
    lemma_archive_bytes_len(members);
    lemma_data_bytes_split(members, i + 1);
    lemma_take_next(members, i);
    lemma_data_bytes_len(members.take(i));
}

/// Opening a written archive succeeds, and finds the number of members and
/// the file table that were written; the table ends where the member data
/// begins.
pub proof fn lemma_written_archive_opens(members: Seq<MemberView>)
    requires
        representable(members),
    ensures
        parse_archive(archive_bytes(members)) == Ok::<Opened, ErrorKind>(
            Opened {
                total_files: members.len(),
                table: Table {
                    entries: table_entries(members),
                    end: data_start(members) as int,
                },
            },
        ),
{
    let entries = table_entries(members);
    let rest = table_bytes(entries) + data_bytes(members);
    lemma_parse_header_bytes(members.len(), rest);
    assert(archive_bytes(members) =~= header_bytes(members.len()) + rest);
    lemma_written_table_parses(members, members.len() as int);
    assert(entries.take(members.len() as int) =~= entries);
    lemma_archive_bytes_len(members);
}

/// The archive is as long as its parts: the member data begins at
/// [`data_start`], and the archive ends at [`archive_len`].
pub proof fn lemma_archive_bytes_len(members: Seq<MemberView>)
    ensures
        header_bytes(members.len()).len() == HEADER_SIZE,
        HEADER_SIZE + table_bytes(table_entries(members)).len() == data_start(members),
        archive_bytes(members).len() == archive_len(members),
{
    let entries = table_entries(members);
    lemma_table_bytes_len(members, members.len() as int);
    assert(entries.take(members.len() as int) =~= entries);
    assert(members.take(members.len() as int) =~= members);
    lemma_data_bytes_len(members);
}

/// Reading the first `count` entries of a written archive gives the first
/// `count` entries of its file table.
proof fn lemma_written_table_parses(members: Seq<MemberView>, count: int)
    requires
        representable(members),
        0 <= count <= members.len(),
    ensures
        parse_table(archive_bytes(members), count as nat) == Some(
            Table {
                entries: table_entries(members).take(count),
                end: HEADER_SIZE + table_bytes(table_entries(members).take(count)).len(),
            },
        ),
    decreases count,
{
    let entries = table_entries(members);
    let archive = archive_bytes(members);
    if count == 0 {
        assert(entries.take(0) =~= Seq::<EntryView>::empty());
    } else {
        let i = count - 1;
        let entry = entries[i];
        let header = header_bytes(members.len());
        let read = table_bytes(entries.take(i));
        let unread = table_bytes(entries.skip(count));
        let before = header + read;
        let after = unread + data_bytes(members);
        lemma_written_table_parses(members, i);
        assert(table_bytes(entries.take(count)) == read + entry_bytes(entry)) by {
            lemma_take_next(entries, i);
        }
        assert(archive == before + entry_bytes(entry) + after) by {
            lemma_table_bytes_split(entries, count);
            lemma_concat_five(header, read, entry_bytes(entry), unread, data_bytes(members));
        }
        assert(before.len() == HEADER_SIZE + read.len()) by {
            lemma_archive_bytes_len(members);
        }
        assert(parse_entry(archive, before.len() as int) == Some(entry) && entry_bytes(
            entry,
        ).len() == spec_entry_size(entry.name.len())) by {
            lemma_parse_entry_bytes(before, entry, after);
        }
        assert(entries.take(count) == entries.take(i).push(entry)) by {
            lemma_take_next(entries, i);
        }
    }
}

/// The index built from a written file table leads from each member's name
/// to that member's entry, where no two members share a name.
proof fn lemma_index_of_written_table(members: Seq<MemberView>, i: int)
    requires
        distinct_names(members),
        0 <= i < members.len(),
    ensures
        index_of(table_entries(members)).dom().contains(members[i].name),
        index_of(table_entries(members))[members[i].name] == table_entry(members, i),
{
    let entries = table_entries(members);
    lemma_index_of_last(entries, members[i].name, i);
}

/// The index built from a written file table holds the names of the members
/// and no others.
proof fn lemma_index_names(members: Seq<MemberView>, name: Seq<u8>)
    ensures
        index_of(table_entries(members)).dom().contains(name) <==> has_name(members, name),
{
    let entries = table_entries(members);
    if has_name(members, name) {
        let first = choose|i: int| 0 <= i < members.len() && (#[trigger] members[i]).name == name;
        lemma_index_has_name(entries, name, first);
    } else {
        lemma_index_of_absent(entries, name);
    }
}

/// A name that some entry carries is in the index.
proof fn lemma_index_has_name(entries: Seq<EntryView>, name: Seq<u8>, i: int)
    requires
        0 <= i < entries.len(),
        entries[i].name == name,
    ensures
        index_of(entries).dom().contains(name),
    decreases entries.len(),
{
    if i < entries.len() - 1 {
        lemma_index_has_name(entries.drop_last(), name, i);
    }
}

/// The bytes of a file table are those of its first entries followed by
/// those of the rest.
proof fn lemma_table_bytes_split(entries: Seq<EntryView>, i: int)
    requires
        0 <= i <= entries.len(),
    ensures
        table_bytes(entries) == table_bytes(entries.take(i)) + table_bytes(entries.skip(i)),
    decreases entries.len(),
{
    if i == entries.len() {
        assert(entries.take(i) =~= entries);
    } else {
        lemma_table_bytes_split(entries.drop_last(), i);
        assert(entries.drop_last().take(i) =~= entries.take(i));
        assert(entries.skip(i).drop_last() =~= entries.drop_last().skip(i));
    }
}

/// The member data is that of the first members followed by that of the
/// rest.
proof fn lemma_data_bytes_split(members: Seq<MemberView>, i: int)
    requires
        0 <= i <= members.len(),
    ensures
        data_bytes(members) == data_bytes(members.take(i)) + data_bytes(members.skip(i)),
    decreases members.len(),
{
    if i == members.len() {
        assert(members.take(i) =~= members);
    } else {
        lemma_data_bytes_split(members.drop_last(), i);
        assert(members.drop_last().take(i) =~= members.take(i));
        assert(members.skip(i).drop_last() =~= members.drop_last().skip(i));
    }
}

/// Five byte strings in a row, bracketed in two ways.
proof fn lemma_concat_five(a: Seq<u8>, b: Seq<u8>, c: Seq<u8>, d: Seq<u8>, e: Seq<u8>)
    ensures
        a + ((b + c) + d) + e == (a + b) + c + (d + e),
{
}

} // verus!
