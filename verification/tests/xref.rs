use ipdf::document::{find_xref_table_offset, parse_xref, resolve_xrefs};
use ipdf::error::ErrorKind;
use ipdf::objects::{Entry, EntryState};
use ipdf::sequence::MemorySequence;

#[test]
fn entry_line_in_use() {
    // The 20-byte record `0000000123 00000 n\r\n`, its terminator stripped.
    let e = Entry::from_line(&b"0000000123 00000 n".to_vec()).unwrap();
    assert_eq!(e.gen_num, 0);
    assert_eq!(e.state, EntryState::Using(123));
}

#[test]
fn entry_line_free() {
    let e = Entry::from_line(&b"0000000000 65535 f".to_vec()).unwrap();
    assert_eq!(e.gen_num, 65535);
    assert_eq!(e.state, EntryState::Deleted(0));
}

#[test]
fn entry_line_with_pad_space() {
    // The single-byte terminator convention pads the record with a space.
    let e = Entry::from_line(&b"0000000042 00007 n ".to_vec()).unwrap();
    assert_eq!(e.gen_num, 7);
    assert_eq!(e.state, EntryState::Using(42));
}

#[test]
fn entry_line_bad_shapes() {
    for bad in [
        &b"000000123 00000 n"[..],      // nine digits
        &b"0000000123 0000 n"[..],      // four digits
        &b"0000000123 00000 x"[..],     // bad flag
        &b"0000000123-00000 n"[..],     // missing space
        &b"0000000123 00000 n  "[..],   // two pad bytes
        &b"0000000123 99999 n"[..],     // generation above 65535
        &b""[..],
    ] {
        let e = Entry::from_line(&bad.to_vec()).unwrap_err();
        assert_eq!(e.kind(), ErrorKind::InvalidCrossTableEntry);
    }
}

#[test]
fn backward_scan_extracts_offset() {
    // A standard file tail: the resolver must extract 9876 exactly.
    let mut seq = MemorySequence::new(b"lots of content...startxref\n9876\n%%EOF".to_vec());
    assert_eq!(find_xref_table_offset(&mut seq).unwrap(), 9876);
}

#[test]
fn backward_scan_with_crlf() {
    let mut seq = MemorySequence::new(b"x\nstartxref\r\n120\r\n%%EOF\r\n".to_vec());
    assert_eq!(find_xref_table_offset(&mut seq).unwrap(), 120);
}

#[test]
fn backward_scan_without_digits_fails() {
    let mut seq = MemorySequence::new(b"startxref\n%%EOF".to_vec());
    let e = find_xref_table_offset(&mut seq).unwrap_err();
    assert_eq!(e.kind(), ErrorKind::NoXrefTableFound);
}

#[test]
fn section_parses_entries_and_trailer() {
    let bytes = b"xref\n0 2\n0000000000 65535 f\r\n0000000017 00000 n\r\ntrailer\n<< /Size 2 >>\n".to_vec();
    let mut seq = MemorySequence::new(bytes);
    let (x, tr) = parse_xref(0, &mut seq).unwrap();
    assert_eq!(x.obj_num, 0);
    assert_eq!(x.length, 2);
    assert_eq!(x.entries.len(), 2);
    assert_eq!(x.entries[0].state, EntryState::Deleted(0));
    assert_eq!(x.entries[1].state, EntryState::Using(17));
    assert!(tr.prev.is_none());
    assert!(tr.xref_stm.is_none());
}

#[test]
fn section_reads_prev_and_xrefstm() {
    let bytes =
        b"xref\n3 1\n0000000099 00001 n \ntrailer\n<< /Prev 12 /XRefStm 34 >>\n".to_vec();
    let mut seq = MemorySequence::new(bytes);
    let (x, tr) = parse_xref(0, &mut seq).unwrap();
    assert_eq!(x.obj_num, 3);
    assert_eq!(tr.prev, Some(12));
    assert_eq!(tr.xref_stm, Some(34));
}

#[test]
fn section_needs_trailer_keyword() {
    let bytes = b"xref\n0 1\n0000000000 65535 f\r\nnotatrailer\n<< >>\n".to_vec();
    let mut seq = MemorySequence::new(bytes);
    let e = parse_xref(0, &mut seq).unwrap_err();
    assert_eq!(e.kind(), ErrorKind::ExpectedTrailer);
}

#[test]
fn section_bad_entry_width() {
    let bytes = b"xref\n0 1\n00000 0 n\r\ntrailer\n<< >>\n".to_vec();
    let mut seq = MemorySequence::new(bytes);
    let e = parse_xref(0, &mut seq).unwrap_err();
    assert_eq!(e.kind(), ErrorKind::InvalidCrossTableEntry);
}

#[test]
fn trailer_body_must_be_a_dictionary() {
    // A trailer that parses to an array fails, and nothing is returned.
    let bytes = b"xref\n0 1\n0000000000 65535 f\r\ntrailer\n[ 1 2 ]\n".to_vec();
    let mut seq = MemorySequence::new(bytes);
    let e = parse_xref(0, &mut seq).unwrap_err();
    assert_eq!(e.kind(), ErrorKind::TrailerMustBeDictionary);
}

#[test]
fn chain_follows_prev_newest_first() {
    let mut bytes = Vec::new();
    let off_old = bytes.len();
    bytes.extend_from_slice(b"xref\n5 1\n0000000111 00000 n\r\ntrailer\n<< /Size 6 >>\n");
    let off_new = bytes.len();
    bytes.extend_from_slice(
        format!(
            "xref\n5 1\n0000000222 00000 n\r\ntrailer\n<< /Size 6 /Prev {} >>\n",
            off_old
        )
        .as_bytes(),
    );
    let mut seq = MemorySequence::new(bytes);
    let (xrefs, trailers, offsets) = resolve_xrefs(&mut seq, off_new as u64).unwrap();
    assert_eq!(xrefs.len(), 2);
    assert_eq!(offsets, vec![off_new as u64, off_old as u64]);
    assert_eq!(xrefs[0].entries[0].state, EntryState::Using(222));
    assert_eq!(xrefs[1].entries[0].state, EntryState::Using(111));
    assert_eq!(trailers[0].prev, Some(off_old as u64));
    assert!(trailers[1].prev.is_none());
}

#[test]
fn chain_of_three_sections() {
    let mut bytes = Vec::new();
    let off_a = bytes.len();
    bytes.extend_from_slice(b"xref\n1 1\n0000000001 00000 n\r\ntrailer\n<< >>\n");
    let off_b = bytes.len();
    bytes.extend_from_slice(
        format!("xref\n2 1\n0000000002 00000 n\r\ntrailer\n<< /Prev {} >>\n", off_a).as_bytes(),
    );
    let off_c = bytes.len();
    bytes.extend_from_slice(
        format!("xref\n3 1\n0000000003 00000 n\r\ntrailer\n<< /Prev {} >>\n", off_b).as_bytes(),
    );
    let mut seq = MemorySequence::new(bytes);
    let (xrefs, trailers, offsets) = resolve_xrefs(&mut seq, off_c as u64).unwrap();
    assert_eq!(offsets, vec![off_c as u64, off_b as u64, off_a as u64]);
    assert_eq!(xrefs[0].obj_num, 3);
    assert_eq!(xrefs[1].obj_num, 2);
    assert_eq!(xrefs[2].obj_num, 1);
    assert!(trailers[2].prev.is_none());
}

#[test]
fn chain_pointing_at_itself_is_circular() {
    // Section A's `Prev` points back at A's own offset.
    let bytes = b"xref\n0 1\n0000000000 65535 f\r\ntrailer\n<< /Prev 0 >>\n".to_vec();
    let mut seq = MemorySequence::new(bytes);
    let e = resolve_xrefs(&mut seq, 0).unwrap_err();
    assert_eq!(e.kind(), ErrorKind::CircularXrefChain);
}

#[test]
fn chain_cycle_of_two_is_circular() {
    let mut bytes = Vec::new();
    bytes.extend_from_slice(b"xref\n0 1\n0000000000 65535 f\r\ntrailer\n<< /Prev 52 >>\n");
    let off_b = bytes.len();
    assert_eq!(off_b, 52, "the second section must sit at offset 52");
    bytes.extend_from_slice(b"xref\n0 1\n0000000000 65535 f\r\ntrailer\n<< /Prev 0 >>\n");
    let mut seq = MemorySequence::new(bytes);
    let e = resolve_xrefs(&mut seq, 0).unwrap_err();
    assert_eq!(e.kind(), ErrorKind::CircularXrefChain);
}
