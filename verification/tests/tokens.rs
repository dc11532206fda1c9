use ipdf::error::ErrorKind;
use ipdf::objects::PDFNumber;
use ipdf::sequence::MemorySequence;
use ipdf::tokenizer::{Delim, Token, Tokenizer};

fn tokens_of(input: &[u8]) -> Vec<Token> {
    let mut seq = MemorySequence::new(input.to_vec());
    let mut t = Tokenizer::new();
    let mut out = Vec::new();
    loop {
        match t.next_token(&mut seq) {
            Ok(tok) => out.push(tok),
            Err(e) => {
                assert_eq!(e.kind(), ErrorKind::EndOfInput);
                return out;
            }
        }
    }
}

#[test]
fn double_open_dict_is_one_token() {
    let toks = tokens_of(b"<<");
    assert_eq!(toks, vec![Token::Delimiter(Delim::DictOpen)]);
    let toks = tokens_of(b"  <<");
    assert_eq!(toks, vec![Token::Delimiter(Delim::DictOpen)]);
}

#[test]
fn double_close_dict_is_one_token() {
    assert_eq!(tokens_of(b">>"), vec![Token::Delimiter(Delim::DictClose)]);
}

#[test]
fn lone_angle_brackets() {
    assert_eq!(
        tokens_of(b"< >"),
        vec![
            Token::Delimiter(Delim::HexOpen),
            Token::Delimiter(Delim::HexClose)
        ]
    );
}

#[test]
fn unsigned_number_token() {
    assert_eq!(tokens_of(b"42"), vec![Token::Number(PDFNumber::Unsigned(42))]);
    assert_eq!(tokens_of(b"+5"), vec![Token::Number(PDFNumber::Unsigned(5))]);
}

#[test]
fn signed_number_token() {
    assert_eq!(tokens_of(b"-7"), vec![Token::Number(PDFNumber::Signed(-7))]);
}

#[test]
fn real_number_keeps_its_text() {
    assert_eq!(
        tokens_of(b"3.14"),
        vec![Token::Number(PDFNumber::Real(b"3.14".to_vec()))]
    );
    assert_eq!(
        tokens_of(b"-0.5"),
        vec![Token::Number(PDFNumber::Real(b"-0.5".to_vec()))]
    );
}

#[test]
fn number_directly_before_delimiter() {
    // `12/Name` is valid: the delimiter ends the number without whitespace.
    assert_eq!(
        tokens_of(b"12/Name"),
        vec![
            Token::Number(PDFNumber::Unsigned(12)),
            Token::Delimiter(Delim::NameStart),
            Token::Id(b"Name".to_vec()),
        ]
    );
}

#[test]
fn identifier_token() {
    assert_eq!(
        tokens_of(b"obj endobj"),
        vec![Token::Id(b"obj".to_vec()), Token::Id(b"endobj".to_vec())]
    );
}

#[test]
fn whitespace_is_never_emitted() {
    assert_eq!(
        tokens_of(b" \r\n [ \n ] "),
        vec![
            Token::Delimiter(Delim::ArrayOpen),
            Token::Delimiter(Delim::ArrayClose)
        ]
    );
}

#[test]
fn bad_number_is_a_lexical_error() {
    let mut seq = MemorySequence::new(b"12a".to_vec());
    let mut t = Tokenizer::new();
    let e = t.next_token(&mut seq).unwrap_err();
    assert_eq!(e.kind(), ErrorKind::LexicalError);
}

#[test]
fn two_dots_are_a_lexical_error() {
    let mut seq = MemorySequence::new(b"1.2.3".to_vec());
    let mut t = Tokenizer::new();
    let e = t.next_token(&mut seq).unwrap_err();
    assert_eq!(e.kind(), ErrorKind::LexicalError);
}

#[test]
fn bare_sign_is_a_lexical_error() {
    let mut seq = MemorySequence::new(b"-".to_vec());
    let mut t = Tokenizer::new();
    let e = t.next_token(&mut seq).unwrap_err();
    assert_eq!(e.kind(), ErrorKind::LexicalError);
}

#[test]
fn number_overflow_is_a_lexical_error() {
    let mut seq = MemorySequence::new(b"99999999999999999999".to_vec());
    let mut t = Tokenizer::new();
    let e = t.next_token(&mut seq).unwrap_err();
    assert_eq!(e.kind(), ErrorKind::LexicalError);
}

#[test]
fn invalid_utf8_identifier_is_rejected() {
    let mut seq = MemorySequence::new(vec![0xFF, 0xFE]);
    let mut t = Tokenizer::new();
    let e = t.next_token(&mut seq).unwrap_err();
    assert_eq!(e.kind(), ErrorKind::InvalidText);
}

#[test]
fn multibyte_utf8_identifier_is_accepted() {
    // A two-byte UTF-8 scalar inside an identifier.
    let toks = tokens_of(&[0xC3, 0xA9]);
    assert_eq!(toks, vec![Token::Id(vec![0xC3, 0xA9])]);
}

#[test]
fn utf8_checker_agrees_with_known_vectors() {
    assert!(ipdf::bytes::utf8_check(&b"plain ascii".to_vec()));
    assert!(ipdf::bytes::utf8_check(&vec![0xE2, 0x82, 0xAC])); // three-byte scalar
    assert!(ipdf::bytes::utf8_check(&vec![0xF0, 0x9F, 0x92, 0xA1])); // four-byte scalar
    assert!(!ipdf::bytes::utf8_check(&vec![0x80])); // lone continuation
    assert!(!ipdf::bytes::utf8_check(&vec![0xC0, 0xAF])); // overlong
    assert!(!ipdf::bytes::utf8_check(&vec![0xED, 0xA0, 0x80])); // surrogate
    assert!(!ipdf::bytes::utf8_check(&vec![0xE2, 0x82])); // truncated
}

#[test]
fn token_buffer_refills_mid_token() {
    // An identifier that straddles the 1024-byte chunk boundary.
    let mut bytes = vec![b' '; 1020];
    bytes.extend_from_slice(b"abcdefghij");
    let toks = tokens_of(&bytes);
    assert_eq!(toks, vec![Token::Id(b"abcdefghij".to_vec())]);
}
