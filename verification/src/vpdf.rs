use vstd::prelude::*;

use crate::error::{Error, ErrorKind};
use vstd::string::StringSliceAdditionalSpecFns;

verus! {

/// The closed set of supported PDF versions.
#[derive(Clone, Copy, PartialEq, Eq, Structural, Debug)]
pub enum PDFVersion {
    V1_0,
    V1_1,
    V1_2,
    V1_3,
    V1_4,
    V1_5,
    V1_6,
    V1_7,
    V2_0,
}

/// The three ASCII bytes that spell a version after the `%PDF-` magic.
pub open spec fn spec_version_bytes(v: PDFVersion) -> Seq<u8> {
    match v {
        PDFVersion::V1_0 => seq![49u8, 46u8, 48u8],
        PDFVersion::V1_1 => seq![49u8, 46u8, 49u8],
        PDFVersion::V1_2 => seq![49u8, 46u8, 50u8],
        PDFVersion::V1_3 => seq![49u8, 46u8, 51u8],
        PDFVersion::V1_4 => seq![49u8, 46u8, 52u8],
        PDFVersion::V1_5 => seq![49u8, 46u8, 53u8],
        PDFVersion::V1_6 => seq![49u8, 46u8, 54u8],
        PDFVersion::V1_7 => seq![49u8, 46u8, 55u8],
        PDFVersion::V2_0 => seq![50u8, 46u8, 48u8],
    }
}

/// The version a three-byte text denotes, or `None` for any other text.
pub open spec fn spec_version_of(s: Seq<u8>) -> Option<PDFVersion> {
    if s == spec_version_bytes(PDFVersion::V1_0) {
        Some(PDFVersion::V1_0)
    } else if s == spec_version_bytes(PDFVersion::V1_1) {
        Some(PDFVersion::V1_1)
    } else if s == spec_version_bytes(PDFVersion::V1_2) {
        Some(PDFVersion::V1_2)
    } else if s == spec_version_bytes(PDFVersion::V1_3) {
        Some(PDFVersion::V1_3)
    } else if s == spec_version_bytes(PDFVersion::V1_4) {
        Some(PDFVersion::V1_4)
    } else if s == spec_version_bytes(PDFVersion::V1_5) {
        Some(PDFVersion::V1_5)
    } else if s == spec_version_bytes(PDFVersion::V1_6) {
        Some(PDFVersion::V1_6)
    } else if s == spec_version_bytes(PDFVersion::V1_7) {
        Some(PDFVersion::V1_7)
    } else if s == spec_version_bytes(PDFVersion::V2_0) {
        Some(PDFVersion::V2_0)
    } else {
        None
    }
}

impl PDFVersion {
    /// The version the three bytes after the magic denote, as
    /// [`spec_version_of`] describes.
    pub fn from_bytes(b5: u8, b6: u8, b7: u8) -> (r: Result<PDFVersion, Error>)
        ensures
            match r {
                Ok(v) => spec_version_of(seq![b5, b6, b7]) == Some(v),
                Err(e) => e.kind == ErrorKind::InvalidPdfFile && spec_version_of(seq![b5, b6, b7])
                    is None,
            },
    {
        let v = if b5 == 49 && b6 == 46 && b7 == 48 {
            PDFVersion::V1_0
        } else if b5 == 49 && b6 == 46 && b7 == 49 {
            PDFVersion::V1_1
        } else if b5 == 49 && b6 == 46 && b7 == 50 {
            PDFVersion::V1_2
        } else if b5 == 49 && b6 == 46 && b7 == 51 {
            PDFVersion::V1_3
        } else if b5 == 49 && b6 == 46 && b7 == 52 {
            PDFVersion::V1_4
        } else if b5 == 49 && b6 == 46 && b7 == 53 {
            PDFVersion::V1_5
        } else if b5 == 49 && b6 == 46 && b7 == 54 {
            PDFVersion::V1_6
        } else if b5 == 49 && b6 == 46 && b7 == 55 {
            PDFVersion::V1_7
        } else if b5 == 50 && b6 == 46 && b7 == 48 {
            PDFVersion::V2_0
        } else {
            proof {
                assert(forall|v: PDFVersion| seq![b5, b6, b7] != #[trigger] spec_version_bytes(v))
                    by {
                    assert(seq![b5, b6, b7][0] == b5 && seq![b5, b6, b7][1] == b6 && seq![
                        b5,
                        b6,
                        b7,
                    ][2] == b7);
                };
            }
            return Err(Error::new(ErrorKind::InvalidPdfFile));
        };
        proof {
            assert(seq![b5, b6, b7] =~= spec_version_bytes(v));
            lemma_version_round_trip(v);
        }
        Ok(v)
    }

    /// The version a text such as `1.4` denotes.
    pub fn from_text(s: &str) -> (r: Result<PDFVersion, Error>)
        ensures
            match r {
                Ok(v) => spec_version_of(s.spec_bytes()) == Some(v),
                Err(e) => e.kind == ErrorKind::InvalidPdfFile && spec_version_of(s.spec_bytes())
                    is None,
            },
    {
        let b = s.as_bytes();
        if b.len() != 3 {
            proof {
                assert(forall|v: PDFVersion| #[trigger] spec_version_bytes(v).len() == 3);
            }
            return Err(Error::new(ErrorKind::InvalidPdfFile));
        }
        let r = PDFVersion::from_bytes(b[0], b[1], b[2]);
        proof {
            assert(s.spec_bytes() =~= seq![b@[0], b@[1], b@[2]]);
        }
        r
    }
}

/// Every supported version's three-byte text parses back to it.
pub proof fn lemma_version_round_trip(v: PDFVersion)
    ensures
        spec_version_of(spec_version_bytes(v)) == Some(v),
{
    assert(forall|a: PDFVersion, b: PDFVersion|
        spec_version_bytes(a) == spec_version_bytes(b) ==> a == b) by {
        assert forall|a: PDFVersion, b: PDFVersion|
            a != b implies #[trigger] spec_version_bytes(a) != #[trigger] spec_version_bytes(
            b,
        ) by {
            assert(spec_version_bytes(a)[0] == spec_version_bytes(b)[0] && spec_version_bytes(a)[2]
                == spec_version_bytes(b)[2] ==> a == b);
        }
    }
}

/// A three-byte text that spells no supported version parses to `None`.
pub proof fn lemma_version_rejects(s: Seq<u8>)
    requires
        forall|v: PDFVersion| s != #[trigger] spec_version_bytes(v),
    ensures
        spec_version_of(s) is None,
{
}

} // verus!
