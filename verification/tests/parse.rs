use ipdf::error::ErrorKind;
use ipdf::objects::{PDFNumber, PDFObject, PDFString};
use ipdf::parser::parse;
use ipdf::sequence::MemorySequence;

fn parse_bytes(input: &[u8]) -> Result<PDFObject, ipdf::error::Error> {
    let mut seq = MemorySequence::new(input.to_vec());
    parse(&mut seq)
}

#[test]
fn reference_from_three_tokens() {
    // `12 0 R` is one indirect reference, consuming exactly three tokens.
    let obj = parse_bytes(b"12 0 R").unwrap();
    match obj {
        PDFObject::IndirectObject(r) => {
            assert_eq!(r.obj_num, 12);
            assert_eq!(r.gen_num, 0);
        }
        _ => panic!("expected a reference"),
    }
}

#[test]
fn definition_with_empty_dict_body() {
    let obj = parse_bytes(b"12 0 obj << >> endobj").unwrap();
    match obj {
        PDFObject::DirectObject(d) => {
            assert_eq!(d.obj_num, 12);
            assert_eq!(d.gen_num, 0);
            match *d.metadata {
                PDFObject::Dict(ref dict) => assert_eq!(dict.entries.len(), 0),
                _ => panic!("expected a dictionary body"),
            }
        }
        _ => panic!("expected a definition"),
    }
}

#[test]
fn name_followed_by_name_maps_to_none() {
    // `/Key /NextKey /Val >>`: Key has no value; NextKey takes Val.
    let obj = parse_bytes(b"<< /Key /NextKey /Val >>").unwrap();
    match obj {
        PDFObject::Dict(dict) => {
            assert_eq!(dict.entries.len(), 2);
            assert_eq!(dict.entries[0].key.name, b"Key".to_vec());
            assert!(dict.entries[0].value.is_none());
            assert_eq!(dict.entries[1].key.name, b"NextKey".to_vec());
            match dict.entries[1].value {
                Some(PDFObject::Named(ref nm)) => assert_eq!(nm.name, b"Val".to_vec()),
                _ => panic!("NextKey should map to the name Val"),
            }
        }
        _ => panic!("expected a dictionary"),
    }
}

#[test]
fn key_before_close_maps_to_none() {
    let obj = parse_bytes(b"<< /Only >>").unwrap();
    match obj {
        PDFObject::Dict(dict) => {
            assert_eq!(dict.entries.len(), 1);
            assert_eq!(dict.entries[0].key.name, b"Only".to_vec());
            assert!(dict.entries[0].value.is_none());
        }
        _ => panic!("expected a dictionary"),
    }
}

#[test]
fn dict_with_number_value() {
    let obj = parse_bytes(b"<< /A 5 >>").unwrap();
    match obj {
        PDFObject::Dict(dict) => {
            assert_eq!(dict.entries.len(), 1);
            assert_eq!(dict.entries[0].key.name, b"A".to_vec());
            match dict.entries[0].value {
                Some(PDFObject::Number(ref n)) => assert_eq!(*n, PDFNumber::Unsigned(5)),
                _ => panic!("A should map to 5"),
            }
        }
        _ => panic!("expected a dictionary"),
    }
}

#[test]
fn dict_repeated_key_keeps_last_value_in_place() {
    let obj = parse_bytes(b"<< /K 1 /K 2 >>").unwrap();
    match obj {
        PDFObject::Dict(dict) => {
            assert_eq!(dict.entries.len(), 1);
            assert_eq!(dict.entries[0].key.name, b"K".to_vec());
            match dict.entries[0].value {
                Some(PDFObject::Number(ref n)) => assert_eq!(*n, PDFNumber::Unsigned(2)),
                _ => panic!("K should map to 2"),
            }
        }
        _ => panic!("expected a dictionary"),
    }
}

#[test]
fn nested_array() {
    let obj = parse_bytes(b"[ 1 [ 2 ] ]").unwrap();
    match obj {
        PDFObject::Array(a) => {
            assert_eq!(a.elements.len(), 2);
            assert!(matches!(
                a.elements[0],
                PDFObject::Number(PDFNumber::Unsigned(1))
            ));
            match a.elements[1] {
                PDFObject::Array(ref inner) => {
                    assert_eq!(inner.elements.len(), 1);
                    assert!(matches!(
                        inner.elements[0],
                        PDFObject::Number(PDFNumber::Unsigned(2))
                    ));
                }
                _ => panic!("expected a nested array"),
            }
        }
        _ => panic!("expected an array"),
    }
}

#[test]
fn literal_string_keeps_raw_bytes() {
    let obj = parse_bytes(b"(hello)").unwrap();
    match obj {
        PDFObject::String(PDFString::Literal(bytes)) => assert_eq!(bytes, b"hello".to_vec()),
        _ => panic!("expected a literal string"),
    }
}

#[test]
fn literal_string_escape_suppresses_close() {
    // The backslash keeps the `)` inside the string; bytes stay raw.
    let obj = parse_bytes(b"(a\\)b)").unwrap();
    match obj {
        PDFObject::String(PDFString::Literal(bytes)) => assert_eq!(bytes, b"a\\)b".to_vec()),
        _ => panic!("expected a literal string"),
    }
}

#[test]
fn hex_string_closes_on_angle() {
    let obj = parse_bytes(b"<48AF>").unwrap();
    match obj {
        PDFObject::String(PDFString::Hex(bytes)) => assert_eq!(bytes, b"48AF".to_vec()),
        _ => panic!("expected a hex string"),
    }
}

#[test]
fn unterminated_string_is_a_lexical_error() {
    let e = parse_bytes(b"(never closed").unwrap_err();
    assert_eq!(e.kind(), ErrorKind::LexicalError);
}

#[test]
fn bare_number_stands_alone() {
    let obj = parse_bytes(b"7").unwrap();
    assert!(matches!(obj, PDFObject::Number(PDFNumber::Unsigned(7))));
    let obj = parse_bytes(b"-3").unwrap();
    assert!(matches!(obj, PDFObject::Number(PDFNumber::Signed(-3))));
    let obj = parse_bytes(b"2.5").unwrap();
    match obj {
        PDFObject::Number(PDFNumber::Real(text)) => assert_eq!(text, b"2.5".to_vec()),
        _ => panic!("expected a real"),
    }
}

#[test]
fn number_then_non_number_stays_a_number() {
    // The peeked `/` is not consumed as part of the number.
    let obj = parse_bytes(b"7 /Name").unwrap();
    assert!(matches!(obj, PDFObject::Number(PDFNumber::Unsigned(7))));
}

#[test]
fn two_numbers_and_stray_identifier_fail() {
    let e = parse_bytes(b"12 0 foo").unwrap_err();
    assert_eq!(e.kind(), ErrorKind::ExpectedReferenceOrDefinition);
}

#[test]
fn identifier_at_top_level_is_unexpected() {
    let e = parse_bytes(b"hello").unwrap_err();
    assert_eq!(e.kind(), ErrorKind::UnexpectedToken);
}

#[test]
fn dict_key_must_be_a_name() {
    let e = parse_bytes(b"<< 5 >>").unwrap_err();
    assert_eq!(e.kind(), ErrorKind::MalformedDictionary);
}

#[test]
fn slash_needs_an_identifier() {
    let e = parse_bytes(b"/]").unwrap_err();
    assert_eq!(e.kind(), ErrorKind::ExpectedIdentifier);
}

#[test]
fn empty_input_is_end_of_input() {
    let e = parse_bytes(b"").unwrap_err();
    assert_eq!(e.kind(), ErrorKind::EndOfInput);
    let e = parse_bytes(b"   \r\n ").unwrap_err();
    assert_eq!(e.kind(), ErrorKind::EndOfInput);
}

#[test]
fn empty_strings() {
    match parse_bytes(b"()").unwrap() {
        PDFObject::String(PDFString::Literal(bytes)) => assert_eq!(bytes, Vec::<u8>::new()),
        _ => panic!("expected a literal string"),
    }
    match parse_bytes(b"<>").unwrap() {
        PDFObject::String(PDFString::Hex(bytes)) => assert_eq!(bytes, Vec::<u8>::new()),
        _ => panic!("expected a hex string"),
    }
}

#[test]
fn string_straddles_the_chunk_boundary() {
    let mut input = vec![b' '; 1020];
    input.extend_from_slice(b"(0123456789)");
    match parse_bytes(&input).unwrap() {
        PDFObject::String(PDFString::Literal(bytes)) => assert_eq!(bytes, b"0123456789".to_vec()),
        _ => panic!("expected a literal string"),
    }
}

#[test]
fn dict_value_can_be_a_reference() {
    let obj = parse_bytes(b"<< /Root 3 1 R >>").unwrap();
    match obj {
        PDFObject::Dict(dict) => {
            assert_eq!(dict.entries.len(), 1);
            match dict.entries[0].value {
                Some(PDFObject::IndirectObject(r)) => {
                    assert_eq!(r.obj_num, 3);
                    assert_eq!(r.gen_num, 1);
                }
                _ => panic!("Root should map to a reference"),
            }
        }
        _ => panic!("expected a dictionary"),
    }
}

#[test]
fn array_inside_dict_inside_array() {
    let obj = parse_bytes(b"[ << /K [ 1 ] >> 2 ]").unwrap();
    match obj {
        PDFObject::Array(a) => {
            assert_eq!(a.elements.len(), 2);
            assert!(matches!(a.elements[0], PDFObject::Dict(_)));
            assert!(matches!(
                a.elements[1],
                PDFObject::Number(PDFNumber::Unsigned(2))
            ));
        }
        _ => panic!("expected an array"),
    }
}

#[test]
fn definition_with_array_body() {
    let obj = parse_bytes(b"3 1 obj [ 4 5 ] endobj").unwrap();
    match obj {
        PDFObject::DirectObject(d) => {
            assert_eq!(d.obj_num, 3);
            assert_eq!(d.gen_num, 1);
            assert!(matches!(*d.metadata, PDFObject::Array(_)));
        }
        _ => panic!("expected a definition"),
    }
}
