use pakt::{Decoder, Encoder, ErrorKind};

fn add(encoder: &mut Encoder, name: &str, content: &[u8]) {
    assert!(encoder.accepts(name, content.len()));
    encoder.add_file(name, content.to_vec());
}

fn written(encoder: &Encoder) -> Vec<u8> {
    let mut archive = Vec::new();
    encoder.write(&mut archive);
    archive
}

fn extracted(decoder: &mut Decoder, name: &str) -> Result<Vec<u8>, ErrorKind> {
    let mut sink = Vec::new();
    decoder.extract(name, &mut sink)?;
    Ok(sink)
}

fn picture() -> Vec<u8> {
    let mut bytes = vec![0xff, 0xd8, 0xff, 0xe0];
    for i in 0..1000u32 {
        bytes.push((i * 7 % 251) as u8);
    }
    bytes
}

fn music() -> Vec<u8> {
    let mut bytes = b"OggS".to_vec();
    for i in 0..3000u32 {
        bytes.push((i * 13 % 256) as u8);
    }
    bytes
}

#[test]
fn encode() {
    let mut encoder = Encoder::new();
    add(&mut encoder, "tempeh.jpg", &picture());
    let archive = written(&encoder);
    assert_eq!(archive.len(), 92 + 4 + 10 + 4 + 4 + 1004);
    assert_eq!(&archive[..4], b"PAKT");
    assert_eq!(&archive[114..], &picture()[..]);
}

#[test]
fn encode_and_extract() {
    let mut encoder = Encoder::new();
    add(&mut encoder, "tempeh.jpg", &picture());
    add(&mut encoder, "imperial.ogg", &music());
    let archive = written(&encoder);

    let mut decoder = Decoder::from(archive).unwrap();
    assert_eq!(decoder.total_files(), 2);
    assert_eq!(extracted(&mut decoder, "tempeh.jpg").unwrap(), picture());
    assert_eq!(extracted(&mut decoder, "imperial.ogg").unwrap(), music());
}

#[test]
fn two_members_give_the_expected_bytes() {
    let mut encoder = Encoder::new();
    add(&mut encoder, "a.txt", b"hi");
    add(&mut encoder, "b.bin", &[0x00, 0x01, 0x02]);
    let archive = written(&encoder);

    let mut expected = Vec::new();
    expected.extend_from_slice(b"PAKT");
    expected.extend_from_slice(&[1, 0, 0, 0]);
    expected.extend_from_slice(&[0u8; 80]);
    expected.extend_from_slice(&[2, 0, 0, 0]);
    expected.extend_from_slice(&[5, 0, 0, 0]);
    expected.extend_from_slice(b"a.txt");
    expected.extend_from_slice(&[126, 0, 0, 0]);
    expected.extend_from_slice(&[2, 0, 0, 0]);
    expected.extend_from_slice(&[5, 0, 0, 0]);
    expected.extend_from_slice(b"b.bin");
    expected.extend_from_slice(&[128, 0, 0, 0]);
    expected.extend_from_slice(&[3, 0, 0, 0]);
    expected.extend_from_slice(b"hi");
    expected.extend_from_slice(&[0x00, 0x01, 0x02]);
    assert_eq!(archive.len(), 131);
    assert_eq!(archive, expected);
}

#[test]
fn two_members_round_trip() {
    let mut encoder = Encoder::new();
    add(&mut encoder, "a.txt", b"hi");
    add(&mut encoder, "b.bin", &[0x00, 0x01, 0x02]);
    let mut decoder = Decoder::from(written(&encoder)).unwrap();
    assert_eq!(decoder.total_files(), 2);
    assert_eq!(extracted(&mut decoder, "a.txt").unwrap(), b"hi".to_vec());
    assert_eq!(extracted(&mut decoder, "b.bin").unwrap(), vec![0x00, 0x01, 0x02]);
}

#[test]
fn members_can_be_extracted_in_any_order_and_again() {
    let mut encoder = Encoder::new();
    add(&mut encoder, "a.txt", b"hi");
    add(&mut encoder, "b.bin", &[0x00, 0x01, 0x02]);
    let mut decoder = Decoder::from(written(&encoder)).unwrap();
    assert_eq!(extracted(&mut decoder, "b.bin").unwrap(), vec![0x00, 0x01, 0x02]);
    assert_eq!(extracted(&mut decoder, "a.txt").unwrap(), b"hi".to_vec());
    assert_eq!(extracted(&mut decoder, "b.bin").unwrap(), vec![0x00, 0x01, 0x02]);
}

#[test]
fn empty_archive_round_trips() {
    let encoder = Encoder::new();
    let archive = written(&encoder);
    assert_eq!(archive.len(), 92);
    assert_eq!(&archive[88..], &[0, 0, 0, 0]);
    let mut decoder = Decoder::from(archive).unwrap();
    assert_eq!(decoder.total_files(), 0);
    assert!(matches!(extracted(&mut decoder, "a.txt"), Err(ErrorKind::MemberNotFound)));
    assert!(matches!(extracted(&mut decoder, ""), Err(ErrorKind::MemberNotFound)));
    assert!(decoder.lookup("a.txt").is_none());
}

#[test]
fn member_of_size_zero_round_trips() {
    let mut encoder = Encoder::new();
    add(&mut encoder, "empty", &[]);
    add(&mut encoder, "after", b"x");
    let archive = written(&encoder);
    let mut decoder = Decoder::from(archive).unwrap();
    assert_eq!(decoder.total_files(), 2);
    assert_eq!(decoder.lookup("empty").unwrap().size, 0);
    assert_eq!(extracted(&mut decoder, "empty").unwrap(), Vec::<u8>::new());
    assert_eq!(extracted(&mut decoder, "after").unwrap(), b"x".to_vec());
}

#[test]
fn only_member_of_size_zero_round_trips() {
    let mut encoder = Encoder::new();
    add(&mut encoder, "empty", &[]);
    let archive = written(&encoder);
    assert_eq!(archive.len(), 92 + 12 + 5);
    let mut decoder = Decoder::from(archive).unwrap();
    assert_eq!(decoder.lookup("empty").unwrap().offset, 109);
    assert_eq!(extracted(&mut decoder, "empty").unwrap(), Vec::<u8>::new());
}

#[test]
fn extraction_appends_to_the_sink() {
    let mut encoder = Encoder::new();
    add(&mut encoder, "a.txt", b"hi");
    let mut decoder = Decoder::from(written(&encoder)).unwrap();
    let mut sink = b">> ".to_vec();
    decoder.extract("a.txt", &mut sink).unwrap();
    assert_eq!(sink, b">> hi".to_vec());
}

#[test]
fn write_appends_to_the_sink_and_can_be_repeated() {
    let mut encoder = Encoder::new();
    add(&mut encoder, "a.txt", b"hi");
    let once = written(&encoder);
    let mut sink = vec![9u8, 9];
    encoder.write(&mut sink);
    assert_eq!(&sink[..2], &[9, 9]);
    assert_eq!(&sink[2..], &once[..]);
    assert_eq!(written(&encoder), once);
}

#[test]
fn offsets_point_at_the_member_bytes() {
    let members: Vec<(&str, Vec<u8>)> = vec![
        ("one", vec![1]),
        ("two", vec![2, 2]),
        ("none", vec![]),
        ("three", vec![3, 3, 3]),
        ("tempeh.jpg", picture()),
    ];
    let mut encoder = Encoder::new();
    for (name, content) in &members {
        add(&mut encoder, name, content);
    }
    let archive = written(&encoder);
    let decoder = Decoder::from(archive.clone()).unwrap();
    let mut expected_offset = 92 + 12 * 5 + 3 + 3 + 4 + 5 + 10;
    for (name, content) in &members {
        let entry = decoder.lookup(name).unwrap();
        assert_eq!(entry.name, name.as_bytes().to_vec());
        assert_eq!(entry.offset as usize, expected_offset);
        assert_eq!(entry.size as usize, content.len());
        let start = entry.offset as usize;
        assert_eq!(&archive[start..start + entry.size as usize], &content[..]);
        expected_offset += content.len();
    }
    assert_eq!(expected_offset, archive.len());
}

#[test]
fn wrong_magic_is_rejected_whatever_follows() {
    let mut encoder = Encoder::new();
    add(&mut encoder, "a.txt", b"hi");
    let good = written(&encoder);
    for position in 0..4 {
        let mut bad = good.clone();
        bad[position] ^= 0x20;
        assert!(matches!(Decoder::from(bad), Err(ErrorKind::InvalidMagicNumber)));
    }
    assert!(matches!(Decoder::from(b"PAKX".to_vec()), Err(ErrorKind::InvalidMagicNumber)));
    assert!(matches!(Decoder::from(b"pakt".to_vec()), Err(ErrorKind::InvalidMagicNumber)));
    assert!(matches!(Decoder::from(vec![0u8; 200]), Err(ErrorKind::InvalidMagicNumber)));
    let mut wrong_version_too = good.clone();
    wrong_version_too[0] = 0;
    wrong_version_too[4] = 9;
    assert!(matches!(Decoder::from(wrong_version_too), Err(ErrorKind::InvalidMagicNumber)));
}

#[test]
fn unsupported_version_is_rejected() {
    let mut encoder = Encoder::new();
    add(&mut encoder, "a.txt", b"hi");
    let good = written(&encoder);
    for version in [0u32, 2, 256, 0x0100_0000, u32::MAX] {
        let mut bad = good.clone();
        bad[4..8].copy_from_slice(&version.to_le_bytes());
        assert!(matches!(Decoder::from(bad), Err(ErrorKind::InvalidVersion)));
    }
    let mut short = b"PAKT".to_vec();
    short.extend_from_slice(&[2, 0, 0, 0]);
    assert!(matches!(Decoder::from(short), Err(ErrorKind::InvalidVersion)));
}

#[test]
fn truncated_archives_are_rejected() {
    let mut encoder = Encoder::new();
    add(&mut encoder, "a.txt", b"hi");
    add(&mut encoder, "b.bin", &[0x00, 0x01, 0x02]);
    let good = written(&encoder);
    let table_end = 92 + 17 + 17;
    for len in 0..table_end {
        let cut = good[..len].to_vec();
        assert!(
            matches!(Decoder::from(cut), Err(ErrorKind::UnexpectedEndOfData)),
            "a prefix of {} bytes",
            len
        );
    }
    assert!(Decoder::from(good[..table_end].to_vec()).is_ok());
}

#[test]
fn opening_ignores_what_follows_the_table() {
    let mut encoder = Encoder::new();
    add(&mut encoder, "a.txt", b"hi");
    add(&mut encoder, "b.bin", &[0x00, 0x01, 0x02]);
    let whole = written(&encoder);
    let table_only = whole[..126].to_vec();
    let mut longer = whole.clone();
    longer.extend_from_slice(b"trailing bytes");

    let from_table = Decoder::from(table_only).unwrap();
    let from_whole = Decoder::from(whole).unwrap();
    let from_longer = Decoder::from(longer).unwrap();
    for decoder in [&from_table, &from_longer] {
        assert_eq!(decoder.total_files(), from_whole.total_files());
        assert_eq!(decoder.position(), from_whole.position());
        for name in ["a.txt", "b.bin", "c.dat"] {
            assert_eq!(decoder.lookup(name), from_whole.lookup(name));
        }
    }
}

#[test]
fn reserved_region_is_ignored_on_read() {
    let mut encoder = Encoder::new();
    add(&mut encoder, "a.txt", b"hi");
    let mut archive = written(&encoder);
    for position in 8..88 {
        archive[position] = 0xa5;
    }
    let mut decoder = Decoder::from(archive).unwrap();
    assert_eq!(decoder.total_files(), 1);
    assert_eq!(extracted(&mut decoder, "a.txt").unwrap(), b"hi".to_vec());
}

#[test]
fn unknown_name_is_not_found_and_changes_nothing() {
    let mut encoder = Encoder::new();
    add(&mut encoder, "a.txt", b"hi");
    add(&mut encoder, "b.bin", &[0x00, 0x01, 0x02]);
    let mut decoder = Decoder::from(written(&encoder)).unwrap();

    assert_eq!(extracted(&mut decoder, "a.txt").unwrap(), b"hi".to_vec());
    let cursor = decoder.position();
    let mut sink = vec![7u8];
    let missed = decoder.extract("c.dat", &mut sink);
    assert!(matches!(missed, Err(ErrorKind::MemberNotFound)));
    assert_eq!(sink, vec![7u8]);
    assert_eq!(decoder.position(), cursor);
    assert_eq!(decoder.total_files(), 2);

    assert!(matches!(extracted(&mut decoder, "A.TXT"), Err(ErrorKind::MemberNotFound)));
    assert!(matches!(extracted(&mut decoder, "a.tx"), Err(ErrorKind::MemberNotFound)));
    assert!(matches!(extracted(&mut decoder, "a.txt "), Err(ErrorKind::MemberNotFound)));
    assert_eq!(extracted(&mut decoder, "b.bin").unwrap(), vec![0x00, 0x01, 0x02]);
    assert_eq!(extracted(&mut decoder, "a.txt").unwrap(), b"hi".to_vec());
}

#[test]
fn cursor_follows_the_reads() {
    let mut encoder = Encoder::new();
    add(&mut encoder, "a.txt", b"hi");
    add(&mut encoder, "b.bin", &[0x00, 0x01, 0x02]);
    let mut decoder = Decoder::from(written(&encoder)).unwrap();
    assert_eq!(decoder.position(), 126);
    extracted(&mut decoder, "b.bin").unwrap();
    assert_eq!(decoder.position(), 131);
    extracted(&mut decoder, "a.txt").unwrap();
    assert_eq!(decoder.position(), 128);
}

#[test]
fn member_beyond_the_end_is_an_unexpected_end() {
    let mut encoder = Encoder::new();
    add(&mut encoder, "a.txt", b"hi");
    add(&mut encoder, "b.bin", &[0x00, 0x01, 0x02]);
    let mut archive = written(&encoder);
    archive.pop();
    let mut decoder = Decoder::from(archive).unwrap();
    assert_eq!(extracted(&mut decoder, "a.txt").unwrap(), b"hi".to_vec());
    let mut sink = vec![7u8];
    let cut = decoder.extract("b.bin", &mut sink);
    assert!(matches!(cut, Err(ErrorKind::UnexpectedEndOfData)));
    assert_eq!(sink, vec![7u8]);
    assert_eq!(decoder.position(), 128);
    assert_eq!(extracted(&mut decoder, "a.txt").unwrap(), b"hi".to_vec());
}

#[test]
fn offsets_and_sizes_are_taken_as_given() {
    let mut archive = pakt::layout::encode_header(2);
    archive.extend_from_slice(&pakt::layout::encode_entry(b"head", 0, 4));
    archive.extend_from_slice(&pakt::layout::encode_entry(b"far", 0xffff_fff0, 0x20));
    let mut decoder = Decoder::from(archive).unwrap();
    assert_eq!(extracted(&mut decoder, "head").unwrap(), b"PAKT".to_vec());
    assert!(matches!(extracted(&mut decoder, "far"), Err(ErrorKind::UnexpectedEndOfData)));
    assert_eq!(decoder.position(), 0xffff_fff0);
}

#[test]
fn later_table_entry_of_the_same_name_stands() {
    let mut archive = pakt::layout::encode_header(3);
    archive.extend_from_slice(&pakt::layout::encode_entry(b"x", 0, 1));
    archive.extend_from_slice(&pakt::layout::encode_entry(b"y", 1, 1));
    archive.extend_from_slice(&pakt::layout::encode_entry(b"x", 2, 2));
    let mut decoder = Decoder::from(archive).unwrap();
    assert_eq!(decoder.total_files(), 3);
    assert_eq!(decoder.lookup("x").unwrap().offset, 2);
    assert_eq!(extracted(&mut decoder, "x").unwrap(), b"KT".to_vec());
    assert_eq!(extracted(&mut decoder, "y").unwrap(), b"A".to_vec());
}

#[test]
fn names_need_not_be_text() {
    let mut archive = pakt::layout::encode_header(2);
    archive.extend_from_slice(&pakt::layout::encode_entry(&[0xff, 0xfe, 0x00], 0, 1));
    archive.extend_from_slice(&pakt::layout::encode_entry("né".as_bytes(), 1, 2));
    let mut decoder = Decoder::from(archive).unwrap();
    assert_eq!(decoder.total_files(), 2);
    assert_eq!(extracted(&mut decoder, "né").unwrap(), b"AK".to_vec());
    assert!(matches!(extracted(&mut decoder, "ne"), Err(ErrorKind::MemberNotFound)));
}

#[test]
fn entry_count_larger_than_the_table_is_an_unexpected_end() {
    let mut archive = pakt::layout::encode_header(u32::MAX);
    archive.extend_from_slice(&pakt::layout::encode_entry(b"x", 0, 1));
    assert!(matches!(Decoder::from(archive), Err(ErrorKind::UnexpectedEndOfData)));
}

#[test]
fn name_length_larger_than_the_archive_is_an_unexpected_end() {
    let mut archive = pakt::layout::encode_header(1);
    archive.extend_from_slice(&[0xff, 0xff, 0xff, 0xff]);
    archive.extend_from_slice(b"name");
    archive.extend_from_slice(&[0u8; 8]);
    assert!(matches!(Decoder::from(archive), Err(ErrorKind::UnexpectedEndOfData)));
}

#[test]
fn adding_a_name_again_replaces_the_member_in_place() {
    let mut encoder = Encoder::new();
    add(&mut encoder, "a.txt", b"first");
    add(&mut encoder, "b.bin", &[1, 2, 3]);
    add(&mut encoder, "a.txt", b"hi");
    let archive = written(&encoder);
    assert_eq!(archive.len(), 131);
    assert_eq!(&archive[96..101], b"a.txt");
    let mut decoder = Decoder::from(archive).unwrap();
    assert_eq!(decoder.total_files(), 2);
    assert_eq!(decoder.lookup("a.txt").unwrap().offset, 126);
    assert_eq!(decoder.lookup("b.bin").unwrap().offset, 128);
    assert_eq!(extracted(&mut decoder, "a.txt").unwrap(), b"hi".to_vec());
    assert_eq!(extracted(&mut decoder, "b.bin").unwrap(), vec![1, 2, 3]);
}

#[test]
fn empty_name_is_not_accepted() {
    let encoder = Encoder::new();
    assert!(!encoder.accepts("", 0));
    assert!(!encoder.accepts("", 10));
    assert!(encoder.accepts("a", 0));
}

#[test]
fn archive_may_not_outgrow_its_offsets() {
    let mut encoder = Encoder::new();
    let limit = u32::MAX as usize;
    assert!(encoder.accepts("x", limit - 92 - 13));
    assert!(!encoder.accepts("x", limit - 92 - 13 + 1));
    assert!(!encoder.accepts("x", limit));
    assert!(!encoder.accepts("x", usize::MAX));

    add(&mut encoder, "x", b"12345");
    assert!(encoder.accepts("y", limit - 92 - 13 - 5 - 13));
    assert!(!encoder.accepts("y", limit - 92 - 13 - 5 - 13 + 1));
    assert!(encoder.accepts("x", limit - 92 - 13));
    assert!(!encoder.accepts("x", limit - 92 - 13 + 1));
    assert!(encoder.accepts("yy", limit - 92 - 13 - 5 - 14));
    assert!(!encoder.accepts("yy", limit - 92 - 13 - 5 - 13));
}

#[test]
fn many_members_round_trip() {
    let mut encoder = Encoder::new();
    let mut members = Vec::new();
    for i in 0..200u32 {
        let name = format!("dir/file-{}.dat", i);
        let content: Vec<u8> = (0..(i * 3 % 50)).map(|k| (k + i) as u8).collect();
        add(&mut encoder, &name, &content);
        members.push((name, content));
    }
    let mut decoder = Decoder::from(written(&encoder)).unwrap();
    assert_eq!(decoder.total_files(), 200);
    for (name, content) in members.iter().rev() {
        assert_eq!(&extracted(&mut decoder, name).unwrap(), content);
    }
    assert!(matches!(extracted(&mut decoder, "dir/file-200.dat"), Err(ErrorKind::MemberNotFound)));
}

#[test]
fn io_error_becomes_an_error_kind() {
    let error = std::io::Error::new(std::io::ErrorKind::UnexpectedEof, "short read");
    match ErrorKind::from(error) {
        ErrorKind::IOError(inner) => assert_eq!(inner.kind(), std::io::ErrorKind::UnexpectedEof),
        other => panic!("unexpected {:?}", other),
    }
}
