use ipdf::document::PDFDocument;
use ipdf::error::{Error, ErrorKind};
use ipdf::objects::{EntryState, PDFObject};
use ipdf::parser::parse;
use ipdf::sequence::{MemorySequence, Sequence};
use ipdf::vpdf::PDFVersion;

type Result<T> = std::result::Result<T, Error>;

/// A minimal well-formed PDF, held in memory: a header, one body object,
/// one cross-reference section and its trailer, and the standard tail.
fn mini_pdf() -> Vec<u8> {
    let mut d = Vec::new();
    d.extend_from_slice(b"%PDF-1.0\n");
    let obj_off = d.len();
    d.extend_from_slice(b"1 0 obj << /Type /Catalog >> endobj\n");
    let xref_off = d.len();
    d.extend_from_slice(b"xref\n0 2\n0000000000 65535 f\r\n");
    d.extend_from_slice(format!("{:010} 00000 n\r\n", obj_off).as_bytes());
    d.extend_from_slice(b"trailer\n<< /Size 2 /Root 1 0 R >>\n");
    d.extend_from_slice(format!("startxref\n{}\n%%EOF", xref_off).as_bytes());
    d
}

#[test]
fn document() -> Result<()> {
    let sequence = MemorySequence::new(mini_pdf());
    let document = PDFDocument::new(sequence)?;
    assert_eq!(*document.get_version(), PDFVersion::V1_0);
    Ok(())
}

#[test]
fn parse_pdf() -> Result<()> {
    let mut sequence = MemorySequence::new(b"1 0 obj << /Kind /Test >> endobj".to_vec());
    let t = parse(&mut sequence)?;
    assert!(matches!(t, PDFObject::DirectObject(_)));
    Ok(())
}

#[test]
fn document_resolves_entries() {
    let doc = PDFDocument::new(MemorySequence::new(mini_pdf())).unwrap();
    assert_eq!(doc.get_xref().len(), 1);
    assert_eq!(doc.get_xref()[0].obj_num, 0);
    assert_eq!(doc.get_xref()[0].length, 2);
    let free = doc.get_entry(0).unwrap();
    assert_eq!(free.gen_num, 65535);
    assert_eq!(free.state, EntryState::Deleted(0));
    let live = doc.get_entry(1).unwrap();
    assert_eq!(live.gen_num, 0);
    assert!(matches!(live.state, EntryState::Using(_)));
    assert!(doc.get_entry(2).is_none());
    assert!(doc.get_trailers()[0].prev.is_none());
}

#[test]
fn newest_section_wins_for_shared_object() {
    // Two chained sections both define object 5; the newer entry wins.
    let mut d = Vec::new();
    d.extend_from_slice(b"%PDF-1.7\n");
    let off_old = d.len();
    d.extend_from_slice(b"xref\n5 1\n0000000111 00000 n\r\ntrailer\n<< /Size 6 >>\n");
    let off_new = d.len();
    d.extend_from_slice(
        format!(
            "xref\n5 1\n0000000222 00000 n\r\ntrailer\n<< /Size 6 /Prev {} >>\n",
            off_old
        )
        .as_bytes(),
    );
    d.extend_from_slice(format!("startxref\n{}\n%%EOF", off_new).as_bytes());
    let doc = PDFDocument::new(MemorySequence::new(d)).unwrap();
    assert_eq!(doc.get_xref().len(), 2);
    let e = doc.get_entry(5).unwrap();
    assert_eq!(e.state, EntryState::Using(222));
}

#[test]
fn document_with_array_trailer_fails() {
    // No partial index comes back: the whole open fails.
    let mut d = Vec::new();
    d.extend_from_slice(b"%PDF-1.3\n");
    let xref_off = d.len();
    d.extend_from_slice(b"xref\n0 1\n0000000000 65535 f\r\ntrailer\n[ 1 2 ]\n");
    d.extend_from_slice(format!("startxref\n{}\n%%EOF", xref_off).as_bytes());
    let e = match PDFDocument::new(MemorySequence::new(d)) {
        Err(e) => e,
        Ok(_) => panic!("the open should fail"),
    };
    assert_eq!(e.kind(), ErrorKind::TrailerMustBeDictionary);
}

#[test]
fn document_with_circular_chain_fails() {
    let mut d = Vec::new();
    d.extend_from_slice(b"%PDF-1.5\n");
    let xref_off = d.len();
    d.extend_from_slice(
        format!(
            "xref\n0 1\n0000000000 65535 f\r\ntrailer\n<< /Prev {} >>\n",
            xref_off
        )
        .as_bytes(),
    );
    d.extend_from_slice(format!("startxref\n{}\n%%EOF", xref_off).as_bytes());
    let e = match PDFDocument::new(MemorySequence::new(d)) {
        Err(e) => e,
        Ok(_) => panic!("the open should fail"),
    };
    assert_eq!(e.kind(), ErrorKind::CircularXrefChain);
}

#[test]
fn document_without_header_fails() {
    let e = match PDFDocument::new(MemorySequence::new(b"not a pdf at all".to_vec())) {
        Err(e) => e,
        Ok(_) => panic!("the open should fail"),
    };
    assert_eq!(e.kind(), ErrorKind::InvalidPdfFile);
}

#[test]
fn document_without_tail_offset_fails() {
    let e = match PDFDocument::new(MemorySequence::new(b"%PDF-1.2\nno tail here".to_vec())) {
        Err(e) => e,
        Ok(_) => panic!("the open should fail"),
    };
    assert_eq!(e.kind(), ErrorKind::NoXrefTableFound);
}

#[test]
fn memory_sequence_reads_lines() {
    let mut seq = MemorySequence::new(b"first\r\nsecond\nthird".to_vec());
    assert_eq!(seq.read_line().unwrap(), b"first".to_vec());
    assert_eq!(seq.read_line().unwrap(), b"second".to_vec());
    // The final line has no terminator, so it cannot be read as a line.
    let e = seq.read_line().unwrap_err();
    assert_eq!(e.kind(), ErrorKind::EndOfInput);
}

#[test]
fn memory_sequence_seek_and_read() {
    let mut seq = MemorySequence::new(b"abcdef".to_vec());
    assert_eq!(seq.seek(2).unwrap(), 2);
    assert_eq!(seq.read(3).unwrap(), b"cde".to_vec());
    assert_eq!(seq.read(10).unwrap(), b"f".to_vec());
    assert_eq!(seq.read(10).unwrap(), b"".to_vec());
    assert_eq!(seq.size().unwrap(), 6);
    // A seek past the end clamps to the length.
    assert_eq!(seq.seek(100).unwrap(), 6);
}

#[test]
fn byte_helpers_agree_with_examples() {
    assert_eq!(ipdf::bytes::literal_to_u64(b"0009876"), 9876);
    assert_eq!(ipdf::bytes::literal_to_u64_checked(b"18446744073709551615"), Some(u64::MAX));
    assert_eq!(ipdf::bytes::literal_to_u64_checked(b"18446744073709551616"), None);
    assert_eq!(ipdf::bytes::count_leading_line_endings(b"\r\n\nabc\n"), 3);
    assert_eq!(ipdf::bytes::count_leading_line_endings(b"abc"), 0);
    assert!(ipdf::bytes::line_ending(10));
    assert!(ipdf::bytes::line_ending(13));
    assert!(!ipdf::bytes::line_ending(32));
}
