use vstd::prelude::*;

use crate::error::{Error, ErrorKind};
use crate::objects::{
    view_entries, view_objs, DictEntry, PDFArray, PDFDict, PDFDirectObject, PDFIndirectObject,
    PDFNamed, PDFNumber, PDFObject, PDFString, SpecDictEntry, SpecNumber, SpecObject,
};
use crate::sequence::Sequence;
use crate::tokenizer::{
    rem, seq_rest, spec_next, spec_scan_string, Delim, SpecNext, SpecToken, Token, Tokenizer,
};

verus! {

/// The identifier text `R` of an indirect reference.
pub open spec fn r_keyword() -> Seq<u8> {
    seq![82u8]
}

/// The identifier text `obj` of an indirect object definition.
pub open spec fn obj_keyword() -> Seq<u8> {
    seq![111u8, 98u8, 106u8]
}

/// Inserts `key` into `entries`: the first slot with that key is replaced,
/// keeping its place; a new key goes at the end.
pub open spec fn spec_dict_insert(
    entries: Seq<SpecDictEntry>,
    key: Seq<u8>,
    value: Option<SpecObject>,
) -> Seq<SpecDictEntry>
    decreases entries.len(),
{
    if entries.len() == 0 {
        seq![SpecDictEntry { key, value }]
    } else if entries[0].key == key {
        seq![SpecDictEntry { key, value }] + entries.skip(1)
    } else {
        seq![entries[0]] + spec_dict_insert(entries.skip(1), key, value)
    }
}

/// What parsing a name (after its `/`) yields: the identifier's bytes and
/// the remaining input.
pub open spec fn spec_parse_name(input: Seq<u8>) -> Result<(Seq<u8>, Seq<u8>), ErrorKind> {
    match spec_next(input) {
        SpecNext::Tok(SpecToken::Id(text), n) => Ok((text, input.skip(n))),
        SpecNext::Tok(_, _) => Err(ErrorKind::ExpectedIdentifier),
        SpecNext::Eof => Err(ErrorKind::EndOfInput),
        SpecNext::Fail(k) => Err(k),
    }
}

/// What parsing one object out of `input` yields: the object and the
/// remaining input.  `fuel` bounds the recursion; [`spec_parse`] supplies
/// enough of it, and [`lemma_parse_object_fuel`] shows any amount at least
/// that large gives the same answer.
pub open spec fn spec_parse_object(input: Seq<u8>, fuel: nat) -> Result<
    (SpecObject, Seq<u8>),
    ErrorKind,
>
    decreases fuel,
{
    if fuel == 0 {
        Err(ErrorKind::UnexpectedToken)
    } else {
        match spec_next(input) {
            SpecNext::Eof => Err(ErrorKind::EndOfInput),
            SpecNext::Fail(k) => Err(k),
            SpecNext::Tok(t, n) => {
                let rest = input.skip(n);
                match t {
                    SpecToken::Delimiter(Delim::DictOpen) => {
                        match spec_parse_dict_entries(rest, Seq::empty(), (fuel - 1) as nat) {
                            Ok((entries, rest2)) => Ok((SpecObject::Dict(entries), rest2)),
                            Err(k) => Err(k),
                        }
                    },
                    SpecToken::Delimiter(Delim::ArrayOpen) => {
                        match spec_parse_array_items(rest, Seq::empty(), (fuel - 1) as nat) {
                            Ok((items, rest2)) => Ok((SpecObject::Array(items), rest2)),
                            Err(k) => Err(k),
                        }
                    },
                    SpecToken::Delimiter(Delim::NameStart) => {
                        match spec_parse_name(rest) {
                            Ok((text, rest2)) => Ok((SpecObject::Named(text), rest2)),
                            Err(k) => Err(k),
                        }
                    },
                    SpecToken::Delimiter(Delim::HexOpen) => {
                        match spec_scan_string(rest, 62) {
                            Some((content, m)) => Ok(
                                (SpecObject::HexString(content), rest.skip(m)),
                            ),
                            None => Err(ErrorKind::LexicalError),
                        }
                    },
                    SpecToken::Delimiter(Delim::LiteralOpen) => {
                        match spec_scan_string(rest, 41) {
                            Some((content, m)) => Ok(
                                (SpecObject::LiteralString(content), rest.skip(m)),
                            ),
                            None => Err(ErrorKind::LexicalError),
                        }
                    },
                    SpecToken::Number(SpecNumber::Unsigned(u)) => {
                        spec_parse_after_unsigned(u, rest, (fuel - 1) as nat)
                    },
                    SpecToken::Number(other) => Ok((SpecObject::Number(other), rest)),
                    _ => Err(ErrorKind::UnexpectedToken),
                }
            },
        }
    }
}

/// The lookahead after an unsigned integer `u`: a second unsigned integer
/// and `R` make a reference, a second one and `obj` start a definition
/// whose body is the object that follows.  Any other second token, or a
/// third that is no identifier, leaves `u` standing alone as a number with
/// the peeked tokens unconsumed; a third identifier that is neither `R`
/// nor `obj` is an error.
pub open spec fn spec_parse_after_unsigned(u: u64, rest: Seq<u8>, fuel: nat) -> Result<
    (SpecObject, Seq<u8>),
    ErrorKind,
>
    decreases fuel,
{
    if fuel == 0 {
        Err(ErrorKind::UnexpectedToken)
    } else {
        match spec_next(rest) {
            SpecNext::Tok(SpecToken::Number(SpecNumber::Unsigned(g)), n2) => {
                let rest2 = rest.skip(n2);
                match spec_next(rest2) {
                    SpecNext::Tok(SpecToken::Id(text), n3) => {
                        if text == r_keyword() {
                            Ok(
                                (
                                    SpecObject::Reference { obj_num: u, gen_num: g },
                                    rest2.skip(n3),
                                ),
                            )
                        } else if text == obj_keyword() {
                            match spec_parse_object(rest2.skip(n3), (fuel - 1) as nat) {
                                Ok((body, rest4)) => Ok(
                                    (
                                        SpecObject::Definition {
                                            obj_num: u,
                                            gen_num: g,
                                            body: Box::new(body),
                                        },
                                        rest4,
                                    ),
                                ),
                                Err(k) => Err(k),
                            }
                        } else {
                            Err(ErrorKind::ExpectedReferenceOrDefinition)
                        }
                    },
                    SpecNext::Tok(_, _) => Ok((SpecObject::Number(SpecNumber::Unsigned(u)), rest)),
                    SpecNext::Eof => Err(ErrorKind::EndOfInput),
                    SpecNext::Fail(k) => Err(k),
                }
            },
            _ => Ok((SpecObject::Number(SpecNumber::Unsigned(u)), rest)),
        }
    }
}

/// What parsing dictionary entries (after the `<<`) yields, `acc` being the
/// entries gathered so far.  A key whose lookahead is `>>` or another name
/// maps to `None`; in the latter case that name is the next key, which
/// takes the object that follows as its value — unless `>>` follows it,
/// which leaves it valueless too and closes the dictionary.
pub open spec fn spec_parse_dict_entries(input: Seq<u8>, acc: Seq<SpecDictEntry>, fuel: nat) -> Result<
    (Seq<SpecDictEntry>, Seq<u8>),
    ErrorKind,
>
    decreases fuel,
{
    if fuel == 0 {
        Err(ErrorKind::UnexpectedToken)
    } else {
        match spec_next(input) {
            SpecNext::Eof => Err(ErrorKind::EndOfInput),
            SpecNext::Fail(k) => Err(k),
            SpecNext::Tok(t, n) => {
                let rest = input.skip(n);
                match t {
                    SpecToken::Delimiter(Delim::DictClose) => Ok((acc, rest)),
                    SpecToken::Delimiter(Delim::NameStart) => {
                        match spec_parse_name(rest) {
                            Err(k) => Err(k),
                            Ok((key, rest2)) => {
                                match spec_next(rest2) {
                                    SpecNext::Tok(SpecToken::Delimiter(Delim::DictClose), n3) => Ok(
                                        (spec_dict_insert(acc, key, None), rest2.skip(n3)),
                                    ),
                                    SpecNext::Tok(SpecToken::Delimiter(Delim::NameStart), n3) => {
                                        match spec_parse_name(rest2.skip(n3)) {
                                            Err(k) => Err(k),
                                            Ok((key2, rest4)) => {
                                                let acc1 = spec_dict_insert(acc, key, None);
                                                match spec_next(rest4) {
                                                    SpecNext::Tok(
                                                        SpecToken::Delimiter(Delim::DictClose),
                                                        n5,
                                                    ) => Ok(
                                                        (
                                                            spec_dict_insert(acc1, key2, None),
                                                            rest4.skip(n5),
                                                        ),
                                                    ),
                                                    _ => {
                                                        match spec_parse_object(
                                                            rest4,
                                                            (fuel - 1) as nat,
                                                        ) {
                                                            Err(k) => Err(k),
                                                            Ok((v, rest5)) => spec_parse_dict_entries(
                                                                rest5,
                                                                spec_dict_insert(
                                                                    acc1,
                                                                    key2,
                                                                    Some(v),
                                                                ),
                                                                (fuel - 1) as nat,
                                                            ),
                                                        }
                                                    },
                                                }
                                            },
                                        }
                                    },
                                    _ => {
                                        match spec_parse_object(rest2, (fuel - 1) as nat) {
                                            Err(k) => Err(k),
                                            Ok((v, rest3)) => spec_parse_dict_entries(
                                                rest3,
                                                spec_dict_insert(acc, key, Some(v)),
                                                (fuel - 1) as nat,
                                            ),
                                        }
                                    },
                                }
                            },
                        }
                    },
                    _ => Err(ErrorKind::MalformedDictionary),
                }
            },
        }
    }
}

/// What parsing array items (after the `[`) yields, `acc` being the items
/// gathered so far.
pub open spec fn spec_parse_array_items(input: Seq<u8>, acc: Seq<SpecObject>, fuel: nat) -> Result<
    (Seq<SpecObject>, Seq<u8>),
    ErrorKind,
>
    decreases fuel,
{
    if fuel == 0 {
        Err(ErrorKind::UnexpectedToken)
    } else {
        match spec_next(input) {
            SpecNext::Eof => Err(ErrorKind::EndOfInput),
            SpecNext::Fail(k) => Err(k),
            SpecNext::Tok(SpecToken::Delimiter(Delim::ArrayClose), n) => Ok((acc, input.skip(n))),
            SpecNext::Tok(_, _) => {
                match spec_parse_object(input, (fuel - 1) as nat) {
                    Err(k) => Err(k),
                    Ok((v, rest)) => spec_parse_array_items(rest, acc.push(v), (fuel - 1) as nat),
                }
            },
        }
    }
}

/// What parsing one object out of `input` yields.
pub open spec fn spec_parse(input: Seq<u8>) -> Result<(SpecObject, Seq<u8>), ErrorKind> {
    spec_parse_object(input, (2 * input.len() + 1) as nat)
}

/// The canonical form of [`spec_parse_dict_entries`].
pub open spec fn spec_parse_entries(input: Seq<u8>, acc: Seq<SpecDictEntry>) -> Result<
    (Seq<SpecDictEntry>, Seq<u8>),
    ErrorKind,
> {
    spec_parse_dict_entries(input, acc, (2 * input.len() + 2) as nat)
}

/// The canonical form of [`spec_parse_array_items`].
pub open spec fn spec_parse_items(input: Seq<u8>, acc: Seq<SpecObject>) -> Result<
    (Seq<SpecObject>, Seq<u8>),
    ErrorKind,
> {
    spec_parse_array_items(input, acc, (2 * input.len() + 2) as nat)
}

/// The canonical form of [`spec_parse_after_unsigned`].
pub open spec fn spec_parse_lookahead(u: u64, rest: Seq<u8>) -> Result<
    (SpecObject, Seq<u8>),
    ErrorKind,
> {
    spec_parse_after_unsigned(u, rest, (2 * rest.len() + 2) as nat)
}

/// Any fuel of at least `2 * input.len() + 1` gives [`spec_parse_object`]
/// its canonical answer, and a parsed object consumes at least one byte.
pub proof fn lemma_parse_object_fuel(input: Seq<u8>, fuel: nat)
    requires
        fuel >= 2 * input.len() + 1,
    ensures
        spec_parse_object(input, fuel) == spec_parse(input),
        spec_parse_object(input, fuel) matches Ok(p) ==> p.1.len() < input.len(),
    decreases fuel,
{
    let c: nat = (2 * input.len() + 1) as nat;
    crate::tokenizer::lemma_spec_next_consumes(input);
    match spec_next(input) {
        SpecNext::Eof => {},
        SpecNext::Fail(_) => {},
        SpecNext::Tok(t, n) => {
            let rest = input.skip(n);
            match t {
                SpecToken::Delimiter(Delim::DictOpen) => {
                    lemma_parse_entries_fuel(rest, Seq::empty(), (fuel - 1) as nat);
                    lemma_parse_entries_fuel(rest, Seq::empty(), (c - 1) as nat);
                },
                SpecToken::Delimiter(Delim::ArrayOpen) => {
                    lemma_parse_items_fuel(rest, Seq::empty(), (fuel - 1) as nat);
                    lemma_parse_items_fuel(rest, Seq::empty(), (c - 1) as nat);
                },
                SpecToken::Delimiter(Delim::NameStart) => {
                    crate::tokenizer::lemma_spec_next_consumes(rest);
                },
                SpecToken::Delimiter(Delim::HexOpen) => {
                    crate::tokenizer::lemma_scan_string_bounds(rest, 62);
                },
                SpecToken::Delimiter(Delim::LiteralOpen) => {
                    crate::tokenizer::lemma_scan_string_bounds(rest, 41);
                },
                SpecToken::Number(SpecNumber::Unsigned(u)) => {
                    lemma_parse_lookahead_fuel(u, rest, (fuel - 1) as nat);
                    lemma_parse_lookahead_fuel(u, rest, (c - 1) as nat);
                },
                _ => {},
            }
        },
    }
}

/// Any fuel of at least `2 * rest.len() + 2` gives
/// [`spec_parse_after_unsigned`] its canonical answer; it never consumes
/// more than `rest`.
pub proof fn lemma_parse_lookahead_fuel(u: u64, rest: Seq<u8>, fuel: nat)
    requires
        fuel >= 2 * rest.len() + 2,
    ensures
        spec_parse_after_unsigned(u, rest, fuel) == spec_parse_lookahead(u, rest),
        spec_parse_after_unsigned(u, rest, fuel) matches Ok(p) ==> p.1.len() <= rest.len(),
    decreases fuel,
{
    let c: nat = (2 * rest.len() + 2) as nat;
    crate::tokenizer::lemma_spec_next_consumes(rest);
    match spec_next(rest) {
        SpecNext::Tok(SpecToken::Number(SpecNumber::Unsigned(_)), n2) => {
            let rest2 = rest.skip(n2);
            crate::tokenizer::lemma_spec_next_consumes(rest2);
            match spec_next(rest2) {
                SpecNext::Tok(SpecToken::Id(text), n3) => {
                    if text == obj_keyword() {
                        let rest3 = rest2.skip(n3);
                        lemma_parse_object_fuel(rest3, (fuel - 1) as nat);
                        lemma_parse_object_fuel(rest3, (c - 1) as nat);
                    }
                },
                _ => {},
            }
        },
        _ => {},
    }
}

/// Any fuel of at least `2 * input.len() + 2` gives
/// [`spec_parse_dict_entries`] its canonical answer, and a parsed entry
/// block consumes at least one byte.
pub proof fn lemma_parse_entries_fuel(input: Seq<u8>, acc: Seq<SpecDictEntry>, fuel: nat)
    requires
        fuel >= 2 * input.len() + 2,
    ensures
        spec_parse_dict_entries(input, acc, fuel) == spec_parse_entries(input, acc),
        spec_parse_dict_entries(input, acc, fuel) matches Ok(p) ==> p.1.len() < input.len(),
    decreases fuel,
{
    let c: nat = (2 * input.len() + 2) as nat;
    crate::tokenizer::lemma_spec_next_consumes(input);
    match spec_next(input) {
        SpecNext::Eof => {},
        SpecNext::Fail(_) => {},
        SpecNext::Tok(t, n) => {
            let rest = input.skip(n);
            match t {
                SpecToken::Delimiter(Delim::NameStart) => {
                    crate::tokenizer::lemma_spec_next_consumes(rest);
                    match spec_parse_name(rest) {
                        Err(_) => {},
                        Ok((key, rest2)) => {
                            crate::tokenizer::lemma_spec_next_consumes(rest2);
                            match spec_next(rest2) {
                                SpecNext::Tok(SpecToken::Delimiter(Delim::DictClose), _) => {},
                                SpecNext::Tok(SpecToken::Delimiter(Delim::NameStart), n3) => {
                                    let rest3 = rest2.skip(n3);
                                    crate::tokenizer::lemma_spec_next_consumes(rest3);
                                    match spec_parse_name(rest3) {
                                        Err(_) => {},
                                        Ok((key2, rest4)) => {
                                            crate::tokenizer::lemma_spec_next_consumes(rest4);
                                            match spec_next(rest4) {
                                                SpecNext::Tok(
                                                    SpecToken::Delimiter(Delim::DictClose),
                                                    _,
                                                ) => {},
                                                _ => {
                                                    lemma_parse_object_fuel(
                                                        rest4,
                                                        (fuel - 1) as nat,
                                                    );
                                                    lemma_parse_object_fuel(rest4, (c - 1) as nat);
                                                    match spec_parse_object(
                                                        rest4,
                                                        (fuel - 1) as nat,
                                                    ) {
                                                        Err(_) => {},
                                                        Ok((v, rest5)) => {
                                                            let acc2 = spec_dict_insert(
                                                                spec_dict_insert(acc, key, None),
                                                                key2,
                                                                Some(v),
                                                            );
                                                            lemma_parse_entries_fuel(
                                                                rest5,
                                                                acc2,
                                                                (fuel - 1) as nat,
                                                            );
                                                            lemma_parse_entries_fuel(
                                                                rest5,
                                                                acc2,
                                                                (c - 1) as nat,
                                                            );
                                                        },
                                                    }
                                                },
                                            }
                                        },
                                    }
                                },
                                _ => {
                                    lemma_parse_object_fuel(rest2, (fuel - 1) as nat);
                                    lemma_parse_object_fuel(rest2, (c - 1) as nat);
                                    match spec_parse_object(rest2, (fuel - 1) as nat) {
                                        Err(_) => {},
                                        Ok((v, rest3)) => {
                                            let acc2 = spec_dict_insert(acc, key, Some(v));
                                            lemma_parse_entries_fuel(rest3, acc2, (fuel - 1) as nat);
                                            lemma_parse_entries_fuel(rest3, acc2, (c - 1) as nat);
                                        },
                                    }
                                },
                            }
                        },
                    }
                },
                _ => {},
            }
        },
    }
}

/// Any fuel of at least `2 * input.len() + 2` gives
/// [`spec_parse_array_items`] its canonical answer, and a parsed item block
/// consumes at least one byte.
pub proof fn lemma_parse_items_fuel(input: Seq<u8>, acc: Seq<SpecObject>, fuel: nat)
    requires
        fuel >= 2 * input.len() + 2,
    ensures
        spec_parse_array_items(input, acc, fuel) == spec_parse_items(input, acc),
        spec_parse_array_items(input, acc, fuel) matches Ok(p) ==> p.1.len() < input.len(),
    decreases fuel,
{
    let c: nat = (2 * input.len() + 2) as nat;
    crate::tokenizer::lemma_spec_next_consumes(input);
    match spec_next(input) {
        SpecNext::Eof => {},
        SpecNext::Fail(_) => {},
        SpecNext::Tok(SpecToken::Delimiter(Delim::ArrayClose), _) => {},
        SpecNext::Tok(_, _) => {
            lemma_parse_object_fuel(input, (fuel - 1) as nat);
            lemma_parse_object_fuel(input, (c - 1) as nat);
            match spec_parse_object(input, (fuel - 1) as nat) {
                Err(_) => {},
                Ok((v, rest)) => {
                    lemma_parse_items_fuel(rest, acc.push(v), (fuel - 1) as nat);
                    lemma_parse_items_fuel(rest, acc.push(v), (c - 1) as nat);
                },
            }
        },
    }
}

/// The image of an optional object value.
pub open spec fn view_value(v: Option<PDFObject>) -> Option<SpecObject> {
    match v {
        Some(o) => Some(o.view()),
        None => None,
    }
}

/// Whether two byte vectors hold the same bytes.
pub(crate) fn bytes_eq(a: &Vec<u8>, b: &Vec<u8>) -> (r: bool)
    ensures
        r == (a@ == b@),
{
    if a.len() != b.len() {
        return false;
    }
    let len = a.len();
    let mut i: usize = 0;
    while i < len
        invariant
            0 <= i <= len,
            len == a@.len() == b@.len(),
            forall|j: int| 0 <= j < i ==> a@[j] == b@[j],
        decreases len - i,
    {
        if a[i] != b[i] {
            return false;
        }
        i = i + 1;
    }
    proof {
        assert(a@ =~= b@);
    }
    true
}

/// Replacing the first slot that holds `key` is an update in place.
proof fn lemma_dict_insert_at(
    s: Seq<SpecDictEntry>,
    key: Seq<u8>,
    value: Option<SpecObject>,
    i: int,
)
    requires
        0 <= i < s.len(),
        s[i].key == key,
        forall|j: int| 0 <= j < i ==> s[j].key != key,
    ensures
        spec_dict_insert(s, key, value) == s.update(i, SpecDictEntry { key, value }),
    decreases i,
{
    if i == 0 {
        assert(seq![SpecDictEntry { key, value }] + s.skip(1) =~= s.update(
            0,
            SpecDictEntry { key, value },
        ));
    } else {
        lemma_dict_insert_at(s.skip(1), key, value, i - 1);
        assert(seq![s[0]] + s.skip(1).update(i - 1, SpecDictEntry { key, value }) =~= s.update(
            i,
            SpecDictEntry { key, value },
        ));
    }
}

/// Inserting a key that is absent appends a slot at the end.
proof fn lemma_dict_insert_missing(s: Seq<SpecDictEntry>, key: Seq<u8>, value: Option<SpecObject>)
    requires
        forall|j: int| 0 <= j < s.len() ==> s[j].key != key,
    ensures
        spec_dict_insert(s, key, value) == s.push(SpecDictEntry { key, value }),
    decreases s.len(),
{
    if s.len() == 0 {
        assert(seq![SpecDictEntry { key, value }] =~= s.push(SpecDictEntry { key, value }));
    } else {
        lemma_dict_insert_missing(s.skip(1), key, value);
        assert(seq![s[0]] + s.skip(1).push(SpecDictEntry { key, value }) =~= s.push(
            SpecDictEntry { key, value },
        ));
    }
}

/// Inserts an entry into a dictionary's slots: the first slot with the
/// same key is replaced in place; a new key goes at the end.
fn dict_insert_entry(entries: &mut Vec<DictEntry>, key: PDFNamed, value: Option<PDFObject>)
    ensures
        view_entries(final(entries)@) == spec_dict_insert(
            view_entries(old(entries)@),
            key.name@,
            view_value(value),
        ),
{
    let len = entries.len();
    let mut i: usize = 0;
    while i < len
        invariant
            0 <= i <= len,
            len == entries@.len(),
            entries@ == old(entries)@,
            forall|j: int| 0 <= j < i ==> view_entries(old(entries)@)[j].key != key.name@,
        decreases len - i,
    {
        if bytes_eq(&entries[i].key.name, &key.name) {
            let ghost s = view_entries(entries@);
            let ghost e = SpecDictEntry { key: key.name@, value: view_value(value) };
            entries.set(i, DictEntry { key, value });
            proof {
                lemma_dict_insert_at(s, e.key, e.value, i as int);
                assert(view_entries(entries@) =~= s.update(i as int, e));
            }
            return ;
        }
        i = i + 1;
    }
    let ghost s = view_entries(entries@);
    let ghost e = SpecDictEntry { key: key.name@, value: view_value(value) };
    entries.push(DictEntry { key, value });
    proof {
        lemma_dict_insert_missing(s, e.key, e.value);
        assert(view_entries(entries@) =~= s.push(e));
    }
}

/// Parses the identifier of a name object, the `/` being already consumed.
fn parse_name<S: Sequence>(t: &mut Tokenizer, seq: &mut S) -> (r: Result<PDFNamed, Error>)
    requires
        old(t).wf(),
        old(seq).inv(),
    ensures
        final(t).wf(),
        final(seq).inv(),
        final(seq).data() == old(seq).data(),
        match r {
            Ok(nm) => spec_parse_name(rem(old(t), old(seq))) == Ok::<_, ErrorKind>(
                (nm.name@, rem(final(t), final(seq))),
            ),
            Err(e) => e.kind == ErrorKind::Io || spec_parse_name(rem(old(t), old(seq)))
                == Err::<(Seq<u8>, Seq<u8>), _>(e.kind),
        },
{
    match t.next_token(seq) {
        Ok(Token::Id(text)) => Ok(PDFNamed { name: text }),
        Ok(_) => Err(Error::new(ErrorKind::ExpectedIdentifier)),
        Err(e) => Err(e),
    }
}

/// Parses one object: the entry point reads one token and dispatches, as
/// [`spec_parse`] describes.
pub fn parse_object<S: Sequence>(t: &mut Tokenizer, seq: &mut S) -> (r: Result<PDFObject, Error>)
    requires
        old(t).wf(),
        old(seq).inv(),
    ensures
        final(t).wf(),
        final(seq).inv(),
        final(seq).data() == old(seq).data(),
        match r {
            Ok(obj) => spec_parse(rem(old(t), old(seq))) == Ok::<_, ErrorKind>(
                (obj.view(), rem(final(t), final(seq))),
            ),
            Err(e) => e.kind == ErrorKind::Io || spec_parse(rem(old(t), old(seq)))
                == Err::<(SpecObject, Seq<u8>), _>(e.kind),
        },
    decreases rem(t, seq).len(), 0int,
{
    let ghost r0 = rem(t, seq);
    let ghost c0: nat = (2 * r0.len() + 1) as nat;
    proof {
        crate::tokenizer::lemma_spec_next_consumes(r0);
    }
    let tok = match t.next_token(seq) {
        Ok(tok) => tok,
        Err(e) => {
            return Err(e);
        },
    };
    let ghost n = spec_next(r0).consumed();
    let ghost rest = r0.skip(n);
    match tok {
        Token::Delimiter(Delim::DictOpen) => {
            proof {
                lemma_parse_entries_fuel(rest, Seq::empty(), (c0 - 1) as nat);
            }
            match parse_dict_body(t, seq) {
                Ok(d) => {
                    proof {
                        assert(view_entries(d.entries@) =~= (PDFObject::Dict(d).view())->Dict_0);
                    }
                    Ok(PDFObject::Dict(d))
                },
                Err(e) => Err(e),
            }
        },
        Token::Delimiter(Delim::ArrayOpen) => {
            proof {
                lemma_parse_items_fuel(rest, Seq::empty(), (c0 - 1) as nat);
            }
            match parse_array_body(t, seq) {
                Ok(a) => {
                    proof {
                        assert(view_objs(a.elements@) =~= (PDFObject::Array(a).view())->Array_0);
                    }
                    Ok(PDFObject::Array(a))
                },
                Err(e) => Err(e),
            }
        },
        Token::Delimiter(Delim::NameStart) => {
            match parse_name(t, seq) {
                Ok(nm) => Ok(PDFObject::Named(nm)),
                Err(e) => Err(e),
            }
        },
        Token::Delimiter(Delim::HexOpen) => {
            match t.scan_string(seq, true) {
                Ok(content) => Ok(PDFObject::String(PDFString::Hex(content))),
                Err(e) => Err(e),
            }
        },
        Token::Delimiter(Delim::LiteralOpen) => {
            match t.scan_string(seq, false) {
                Ok(content) => Ok(PDFObject::String(PDFString::Literal(content))),
                Err(e) => Err(e),
            }
        },
        Token::Number(PDFNumber::Unsigned(u)) => {
            proof {
                lemma_parse_lookahead_fuel(u, rest, (c0 - 1) as nat);
            }
            parse_reference_or_number(t, seq, u, Ghost(rest))
        },
        Token::Number(num) => Ok(PDFObject::Number(num)),
        _ => Err(Error::new(ErrorKind::UnexpectedToken)),
    }
}

/// The two-token lookahead after an unsigned integer, as
/// [`spec_parse_lookahead`] describes: `u g R` makes a reference, `u g obj`
/// a definition whose body follows; any other second token leaves `u`
/// standing alone, the lookahead unconsumed.
#[verifier::rlimit(60)]
fn parse_reference_or_number<S: Sequence>(
    t: &mut Tokenizer,
    seq: &mut S,
    u: u64,
    rest: Ghost<Seq<u8>>,
) -> (r: Result<PDFObject, Error>)
    requires
        old(t).wf(),
        old(seq).inv(),
        rest@ == rem(old(t), old(seq)),
    ensures
        final(t).wf(),
        final(seq).inv(),
        final(seq).data() == old(seq).data(),
        match r {
            Ok(obj) => spec_parse_lookahead(u, rest@) == Ok::<_, ErrorKind>(
                (obj.view(), rem(final(t), final(seq))),
            ),
            Err(e) => e.kind == ErrorKind::Io || spec_parse_lookahead(u, rest@)
                == Err::<(SpecObject, Seq<u8>), _>(e.kind),
        },
    decreases rem(t, seq).len(), 1int,
{
    let ghost fc: nat = (2 * rest@.len() + 2) as nat;
    proof {
        crate::tokenizer::lemma_spec_next_consumes(rest@);
    }
    let p0 = t.pos;
    let (tok2, p2, n2) = match t.peek_token(seq) {
        Ok(p) => p,
        Err(e) => {
            if matches!(e.kind, ErrorKind::Io) {
                return Err(e);
            }
            return Ok(PDFObject::Number(PDFNumber::Unsigned(u)));
        },
    };
    match tok2 {
        Token::Number(PDFNumber::Unsigned(g)) => {
            t.commit(p2);
            let ghost buf2 = t.buf@;
            let ghost rest2s = seq_rest(seq);
            let ghost rest2 = rest@.skip(spec_next(rest@).consumed());
            proof {
                crate::tokenizer::lemma_spec_next_consumes(rest2);
            }
            let (tok3, p3, n3) = match t.peek_token(seq) {
                Ok(p) => p,
                Err(e) => {
                    return Err(e);
                },
            };
            match tok3 {
                Token::Id(text) => {
                    let is_r = text.len() == 1 && text[0] == 82;
                    let is_obj = text.len() == 3 && text[0] == 111 && text[1] == 98 && text[2]
                        == 106;
                    proof {
                        if is_r {
                            assert(text@ =~= r_keyword());
                        }
                        if is_obj {
                            assert(text@ =~= obj_keyword());
                        }
                    }
                    if is_r {
                        t.commit(p3);
                        Ok(PDFObject::IndirectObject(PDFIndirectObject { obj_num: u, gen_num: g }))
                    } else if is_obj {
                        t.commit(p3);
                        let ghost rest3 = rest2.skip(spec_next(rest2).consumed());
                        proof {
                            lemma_parse_object_fuel(rest3, (fc - 1) as nat);
                        }
                        match parse_object(t, seq) {
                            Ok(body) => Ok(
                                PDFObject::DirectObject(
                                    PDFDirectObject {
                                        obj_num: u,
                                        gen_num: g,
                                        metadata: Box::new(body),
                                    },
                                ),
                            ),
                            Err(e) => Err(e),
                        }
                    } else {
                        proof {
                            assert(text@.len() == r_keyword().len() ==> !is_r ==> text@
                                != r_keyword());
                        }
                        Err(Error::new(ErrorKind::ExpectedReferenceOrDefinition))
                    }
                },
                _ => {
                    proof {
                        let x = buf2.subrange(p0 as int, p2 as int);
                        let a = t.buf@.skip(p2 as int) + seq_rest(seq);
                        let b = buf2.skip(p2 as int) + rest2s;
                        assert(a == b);
                        assert(t.buf@.subrange(p0 as int, p2 as int) =~= x);
                        assert(t.buf@.skip(p0 as int) + seq_rest(seq) =~= x + a);
                        assert(buf2.skip(p0 as int) + rest2s =~= x + b);
                        assert(buf2.skip(p0 as int) + rest2s == rest@);
                    }
                    t.pos = p0;
                    Ok(PDFObject::Number(PDFNumber::Unsigned(u)))
                },
            }
        },
        _ => Ok(PDFObject::Number(PDFNumber::Unsigned(u))),
    }
}

/// Parses the entries of a dictionary, the `<<` being already consumed, as
/// [`spec_parse_entries`] describes.
#[verifier::rlimit(50)]
fn parse_dict_body<S: Sequence>(t: &mut Tokenizer, seq: &mut S) -> (r: Result<PDFDict, Error>)
    requires
        old(t).wf(),
        old(seq).inv(),
    ensures
        final(t).wf(),
        final(seq).inv(),
        final(seq).data() == old(seq).data(),
        match r {
            Ok(d) => spec_parse_entries(rem(old(t), old(seq)), Seq::empty()) == Ok::<_, ErrorKind>(
                (view_entries(d.entries@), rem(final(t), final(seq))),
            ),
            Err(e) => e.kind == ErrorKind::Io || spec_parse_entries(
                rem(old(t), old(seq)),
                Seq::empty(),
            ) == Err::<(Seq<SpecDictEntry>, Seq<u8>), _>(e.kind),
        },
    decreases rem(t, seq).len(), 2int,
{
    let ghost rem0 = rem(t, seq);
    let mut acc: Vec<DictEntry> = Vec::new();
    proof {
        assert(view_entries(acc@) =~= Seq::<SpecDictEntry>::empty());
    }
    loop
        invariant
            t.wf(),
            seq.inv(),
            seq.data() == old(seq).data(),
            rem0 == rem(old(t), old(seq)),
            rem(t, seq).len() <= rem0.len(),
            spec_parse_entries(rem0, Seq::empty()) == spec_parse_entries(
                rem(t, seq),
                view_entries(acc@),
            ),
        decreases rem(t, seq).len(),
    {
        let ghost cur = rem(t, seq);
        let ghost accv = view_entries(acc@);
        let ghost fc: nat = (2 * cur.len() + 2) as nat;
        proof {
            crate::tokenizer::lemma_spec_next_consumes(cur);
        }
        let tok = match t.next_token(seq) {
            Ok(tok) => tok,
            Err(e) => {
                return Err(e);
            },
        };
        let ghost n = spec_next(cur).consumed();
        let ghost rest = cur.skip(n);
        match tok {
            Token::Delimiter(Delim::DictClose) => {
                return Ok(PDFDict { entries: acc });
            },
            Token::Delimiter(Delim::NameStart) => {
                proof {
                    crate::tokenizer::lemma_spec_next_consumes(rest);
                }
                let key = match parse_name(t, seq) {
                    Ok(k) => k,
                    Err(e) => {
                        return Err(e);
                    },
                };
                let ghost key_v = key.name@;
                let ghost rest2 = rest.skip(spec_next(rest).consumed());
                proof {
                    crate::tokenizer::lemma_spec_next_consumes(rest2);
                }
                let (tok2, p2, n2) = match t.peek_token(seq) {
                    Ok(p) => p,
                    Err(e) => {
                        if matches!(e.kind, ErrorKind::Io) {
                            return Err(e);
                        }
                        proof {
                            lemma_parse_object_fuel(rest2, (fc - 1) as nat);
                        }
                        return Err(e);
                    },
                };
                match tok2 {
                    Token::Delimiter(Delim::DictClose) => {
                        t.commit(p2);
                        dict_insert_entry(&mut acc, key, None);
                        proof {
                            lemma_parse_entries_fuel(rem0, Seq::empty(), (2 * rem0.len() + 2) as nat);
                        }
                        return Ok(PDFDict { entries: acc });
                    },
                    Token::Delimiter(Delim::NameStart) => {
                        t.commit(p2);
                        dict_insert_entry(&mut acc, key, None);
                        let ghost rest3 = rest2.skip(spec_next(rest2).consumed());
                        proof {
                            crate::tokenizer::lemma_spec_next_consumes(rest3);
                        }
                        let key2 = match parse_name(t, seq) {
                            Ok(k) => k,
                            Err(e) => {
                                return Err(e);
                            },
                        };
                        let ghost key2_v = key2.name@;
                        let ghost rest4 = rest3.skip(spec_next(rest3).consumed());
                        proof {
                            crate::tokenizer::lemma_spec_next_consumes(rest4);
                        }
                        let (tok5, p5, n5) = match t.peek_token(seq) {
                            Ok(p) => p,
                            Err(e) => {
                                if matches!(e.kind, ErrorKind::Io) {
                                    return Err(e);
                                }
                                proof {
                                    lemma_parse_object_fuel(rest4, (fc - 1) as nat);
                                }
                                return Err(e);
                            },
                        };
                        if matches!(tok5, Token::Delimiter(Delim::DictClose)) {
                            t.commit(p5);
                            dict_insert_entry(&mut acc, key2, None);
                            return Ok(PDFDict { entries: acc });
                        }
                        proof {
                            lemma_parse_object_fuel(rest4, (fc - 1) as nat);
                        }
                        let v = match parse_object(t, seq) {
                            Ok(v) => v,
                            Err(e) => {
                                return Err(e);
                            },
                        };
                        let ghost v_v = v.view();
                        let ghost rest5 = rem(t, seq);
                        dict_insert_entry(&mut acc, key2, Some(v));
                        proof {
                            let acc2 = spec_dict_insert(
                                spec_dict_insert(accv, key_v, None),
                                key2_v,
                                Some(v_v),
                            );
                            lemma_parse_entries_fuel(rest5, acc2, (fc - 1) as nat);
                        }
                    },
                    _ => {
                        proof {
                            lemma_parse_object_fuel(rest2, (fc - 1) as nat);
                        }
                        let v = match parse_object(t, seq) {
                            Ok(v) => v,
                            Err(e) => {
                                return Err(e);
                            },
                        };
                        let ghost v_v = v.view();
                        let ghost rest3 = rem(t, seq);
                        dict_insert_entry(&mut acc, key, Some(v));
                        proof {
                            let acc2 = spec_dict_insert(accv, key_v, Some(v_v));
                            lemma_parse_entries_fuel(rest3, acc2, (fc - 1) as nat);
                        }
                    },
                }
            },
            _ => {
                return Err(Error::new(ErrorKind::MalformedDictionary));
            },
        }
    }
}

/// Parses the items of an array, the `[` being already consumed, as
/// [`spec_parse_items`] describes.
fn parse_array_body<S: Sequence>(t: &mut Tokenizer, seq: &mut S) -> (r: Result<PDFArray, Error>)
    requires
        old(t).wf(),
        old(seq).inv(),
    ensures
        final(t).wf(),
        final(seq).inv(),
        final(seq).data() == old(seq).data(),
        match r {
            Ok(a) => spec_parse_items(rem(old(t), old(seq)), Seq::empty()) == Ok::<_, ErrorKind>(
                (view_objs(a.elements@), rem(final(t), final(seq))),
            ),
            Err(e) => e.kind == ErrorKind::Io || spec_parse_items(
                rem(old(t), old(seq)),
                Seq::empty(),
            ) == Err::<(Seq<SpecObject>, Seq<u8>), _>(e.kind),
        },
    decreases rem(t, seq).len(), 2int,
{
    let ghost rem0 = rem(t, seq);
    let mut acc: Vec<PDFObject> = Vec::new();
    proof {
        assert(view_objs(acc@) =~= Seq::<SpecObject>::empty());
    }
    loop
        invariant
            t.wf(),
            seq.inv(),
            seq.data() == old(seq).data(),
            rem0 == rem(old(t), old(seq)),
            rem(t, seq).len() <= rem0.len(),
            spec_parse_items(rem0, Seq::empty()) == spec_parse_items(rem(t, seq), view_objs(acc@)),
        decreases rem(t, seq).len(),
    {
        let ghost cur = rem(t, seq);
        let ghost accv = view_objs(acc@);
        let ghost fc: nat = (2 * cur.len() + 2) as nat;
        proof {
            crate::tokenizer::lemma_spec_next_consumes(cur);
        }
        let (tok2, p2, n2) = match t.peek_token(seq) {
            Ok(p) => p,
            Err(e) => {
                if matches!(e.kind, ErrorKind::Io) {
                    return Err(e);
                }
                proof {
                    lemma_parse_object_fuel(cur, (fc - 1) as nat);
                }
                return Err(e);
            },
        };
        if matches!(tok2, Token::Delimiter(Delim::ArrayClose)) {
            t.commit(p2);
            return Ok(PDFArray { elements: acc });
        }
        proof {
            lemma_parse_object_fuel(cur, (fc - 1) as nat);
        }
        let v = match parse_object(t, seq) {
            Ok(v) => v,
            Err(e) => {
                return Err(e);
            },
        };
        let ghost v_v = v.view();
        let ghost rest = rem(t, seq);
        acc.push(v);
        proof {
            assert(view_objs(acc@) =~= accv.push(v_v));
            lemma_parse_items_fuel(rest, accv.push(v_v), (fc - 1) as nat);
        }
    }
}

/// Parses one object out of `seq`: a fresh tokenizer is laid over the
/// source, used for this one call, and discarded.
pub fn parse<S: Sequence>(seq: &mut S) -> (r: Result<PDFObject, Error>)
    requires
        old(seq).inv(),
    ensures
        final(seq).inv(),
        final(seq).data() == old(seq).data(),
        match r {
            Ok(obj) => spec_parse(seq_rest(old(seq))) matches Ok(p) && p.0 == obj.view(),
            Err(e) => e.kind == ErrorKind::Io || spec_parse(seq_rest(old(seq)))
                == Err::<(SpecObject, Seq<u8>), _>(e.kind),
        },
{
    let mut t = Tokenizer::new();
    proof {
        assert(rem(&t, seq) =~= seq_rest(seq));
    }
    parse_object(&mut t, seq)
}

} // verus!
