use ipdf::error::{Error, ErrorKind};
use ipdf::sequence::MemorySequence;
use ipdf::vpdf::PDFVersion;

type Result<T> = std::result::Result<T, Error>;

#[test]
fn vpdf_test() -> Result<()> {
    assert_eq!(PDFVersion::V1_0, PDFVersion::from_text("1.0")?);
    assert_eq!(PDFVersion::V1_1, PDFVersion::from_text("1.1")?);
    assert_eq!(PDFVersion::V1_2, PDFVersion::from_text("1.2")?);
    assert_eq!(PDFVersion::V1_3, PDFVersion::from_text("1.3")?);
    assert_eq!(PDFVersion::V1_4, PDFVersion::from_text("1.4")?);
    assert_eq!(PDFVersion::V1_5, PDFVersion::from_text("1.5")?);
    assert_eq!(PDFVersion::V1_6, PDFVersion::from_text("1.6")?);
    assert_eq!(PDFVersion::V1_7, PDFVersion::from_text("1.7")?);
    assert_eq!(PDFVersion::V2_0, PDFVersion::from_text("2.0")?);
    Ok(())
}

#[test]
fn version_rejects_other_texts() {
    for bad in ["0.9", "1.8", "2.1", "3.0", "1.", "1.00", "", "one"] {
        let e = PDFVersion::from_text(bad).unwrap_err();
        assert_eq!(e.kind(), ErrorKind::InvalidPdfFile);
    }
}

#[test]
fn header_round_trips_every_version() {
    let texts = [
        ("1.0", PDFVersion::V1_0),
        ("1.1", PDFVersion::V1_1),
        ("1.2", PDFVersion::V1_2),
        ("1.3", PDFVersion::V1_3),
        ("1.4", PDFVersion::V1_4),
        ("1.5", PDFVersion::V1_5),
        ("1.6", PDFVersion::V1_6),
        ("1.7", PDFVersion::V1_7),
        ("2.0", PDFVersion::V2_0),
    ];
    for (text, want) in texts {
        let mut bytes = b"%PDF-".to_vec();
        bytes.extend_from_slice(text.as_bytes());
        bytes.extend_from_slice(b"\nrest of the file");
        let mut seq = MemorySequence::new(bytes);
        let got = ipdf::document::parse_version(&mut seq).unwrap();
        assert_eq!(got, want);
    }
}

#[test]
fn header_rejects_unknown_suffix() {
    let mut seq = MemorySequence::new(b"%PDF-9.9\n".to_vec());
    let e = ipdf::document::parse_version(&mut seq).unwrap_err();
    assert_eq!(e.kind(), ErrorKind::InvalidPdfFile);
}

#[test]
fn header_rejects_bad_magic() {
    let mut seq = MemorySequence::new(b"%PDX-1.4\n".to_vec());
    let e = ipdf::document::parse_version(&mut seq).unwrap_err();
    assert_eq!(e.kind(), ErrorKind::InvalidPdfFile);
}

#[test]
fn header_rejects_short_file() {
    let mut seq = MemorySequence::new(b"%PDF-".to_vec());
    let e = ipdf::document::parse_version(&mut seq).unwrap_err();
    assert_eq!(e.kind(), ErrorKind::InvalidPdfFile);
}
