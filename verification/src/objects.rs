use vstd::prelude::*;

verus! {

broadcast use vstd::std_specs::vec::axiom_vec_index_decreases;

/// A PDF boolean object.
#[derive(Clone, Copy, PartialEq, Eq, Structural, Debug)]
pub struct PDFBool {
    pub value: bool,
}

/// A PDF name object; the bytes after the `/` are well-formed UTF-8.
#[derive(Clone, PartialEq, Eq, Debug)]
pub struct PDFNamed {
    pub name: Vec<u8>,
}

/// A PDF numeric literal.  The three kinds are lexically distinct and never
/// compare equal to one another: an unsigned `1` is not a real `1.0`.  A
/// real is kept in its lexical form; this engine never computes with it.
#[derive(Clone, PartialEq, Eq, Debug)]
pub enum PDFNumber {
    Signed(i64),
    Unsigned(u64),
    Real(Vec<u8>),
}

/// A PDF string object, tagged by the delimiter that opened it.
#[derive(Clone, PartialEq, Eq, Debug)]
pub enum PDFString {
    Literal(Vec<u8>),
    Hex(Vec<u8>),
}

/// An ordered sequence of objects.
#[derive(Debug)]
pub struct PDFArray {
    pub elements: Vec<PDFObject>,
}

/// One dictionary slot: a name key and its value, where `None` records a
/// key whose value was elided by the writer (distinct from a value of
/// `Null`).
#[derive(Debug)]
pub struct DictEntry {
    pub key: PDFNamed,
    pub value: Option<PDFObject>,
}

/// A dictionary: name-keyed entries with unique keys, in insertion order.
#[derive(Debug)]
pub struct PDFDict {
    pub entries: Vec<DictEntry>,
}

/// A top-level definition `obj_num gen_num obj <body>`.
#[derive(Debug)]
pub struct PDFDirectObject {
    pub obj_num: u64,
    pub gen_num: u64,
    pub metadata: Box<PDFObject>,
}

/// A non-owning reference `obj_num gen_num R` to an indirect object.
#[derive(Clone, Copy, PartialEq, Eq, Structural, Debug)]
pub struct PDFIndirectObject {
    pub obj_num: u64,
    pub gen_num: u64,
}

/// A stream placeholder; payload decoding is out of scope.
#[derive(Clone, Copy, PartialEq, Eq, Structural, Debug)]
pub struct PDFStream;

/// The structured PDF value tree.
#[derive(Debug)]
pub enum PDFObject {
    Bool(PDFBool),
    Number(PDFNumber),
    Named(PDFNamed),
    String(PDFString),
    Array(PDFArray),
    Dict(PDFDict),
    Null,
    DirectObject(PDFDirectObject),
    IndirectObject(PDFIndirectObject),
    Stream(PDFStream),
}

/// The mathematical image of a [`PDFNumber`].
pub enum SpecNumber {
    Signed(i64),
    Unsigned(u64),
    Real(Seq<u8>),
}

/// The mathematical image of a dictionary slot.
pub struct SpecDictEntry {
    pub key: Seq<u8>,
    pub value: Option<SpecObject>,
}

/// The mathematical image of a [`PDFObject`], over `Seq` instead of `Vec`.
pub enum SpecObject {
    Bool(bool),
    Number(SpecNumber),
    Named(Seq<u8>),
    LiteralString(Seq<u8>),
    HexString(Seq<u8>),
    Array(Seq<SpecObject>),
    Dict(Seq<SpecDictEntry>),
    Null,
    Definition { obj_num: u64, gen_num: u64, body: Box<SpecObject> },
    Reference { obj_num: u64, gen_num: u64 },
    Stream,
}

impl View for PDFNumber {
    type V = SpecNumber;

    open spec fn view(&self) -> SpecNumber {
        match self {
            PDFNumber::Signed(v) => SpecNumber::Signed(*v),
            PDFNumber::Unsigned(v) => SpecNumber::Unsigned(*v),
            PDFNumber::Real(text) => SpecNumber::Real(text@),
        }
    }
}

impl PDFObject {
    /// The mathematical image of this object.
    pub open spec fn view(&self) -> SpecObject
        decreases self,
    {
        match self {
            PDFObject::Bool(b) => SpecObject::Bool(b.value),
            PDFObject::Number(n) => SpecObject::Number(n@),
            PDFObject::Named(n) => SpecObject::Named(n.name@),
            PDFObject::String(PDFString::Literal(bytes)) => SpecObject::LiteralString(bytes@),
            PDFObject::String(PDFString::Hex(bytes)) => SpecObject::HexString(bytes@),
            PDFObject::Array(a) => SpecObject::Array(
                Seq::new(
                    a.elements@.len(),
                    |i: int|
                        if 0 <= i < a.elements.len() {
                            a.elements[i].view()
                        } else {
                            SpecObject::Null
                        },
                ),
            ),
            PDFObject::Dict(d) => SpecObject::Dict(
                Seq::new(
                    d.entries@.len(),
                    |i: int|
                        if 0 <= i < d.entries.len() {
                            SpecDictEntry {
                                key: d.entries[i].key.name@,
                                value: match d.entries[i].value {
                                    Some(o) => Some(o.view()),
                                    None => None,
                                },
                            }
                        } else {
                            SpecDictEntry { key: Seq::empty(), value: None }
                        },
                ),
            ),
            PDFObject::Null => SpecObject::Null,
            PDFObject::DirectObject(d) => SpecObject::Definition {
                obj_num: d.obj_num,
                gen_num: d.gen_num,
                body: Box::new((*d.metadata).view()),
            },
            PDFObject::IndirectObject(r) => SpecObject::Reference {
                obj_num: r.obj_num,
                gen_num: r.gen_num,
            },
            PDFObject::Stream(_) => SpecObject::Stream,
        }
    }
}

impl DictEntry {
    /// The mathematical image of this dictionary slot.
    pub open spec fn view(&self) -> SpecDictEntry {
        SpecDictEntry {
            key: self.key.name@,
            value: match self.value {
                Some(o) => Some(o.view()),
                None => None,
            },
        }
    }
}

/// The state of one cross-reference slot: `Using` carries the byte offset
/// of a live object, `Deleted` the object number of the next slot on the
/// free list (terminated by object 0).
#[derive(Clone, Copy, PartialEq, Eq, Structural, Debug)]
pub enum EntryState {
    Using(u64),
    Deleted(u64),
}

/// One cross-reference slot.  The generation number saturates at 65535:
/// once there, the object number is retired and never reused.
#[derive(Clone, Copy, PartialEq, Eq, Structural, Debug)]
pub struct Entry {
    pub gen_num: u16,
    pub state: EntryState,
}

/// A contiguous cross-reference section: entry `i` describes object number
/// `obj_num + i`.
#[derive(Debug)]
pub struct Xref {
    pub obj_num: u64,
    pub length: u64,
    pub entries: Vec<Entry>,
}

/// The trailer of a cross-reference section: its metadata dictionary, the
/// optional `Prev` offset of the next older section, and the optional
/// `XRefStm` offset of a hybrid file (carried, not resolved).
#[derive(Debug)]
pub struct Trailer {
    pub metadata: PDFDict,
    pub prev: Option<u64>,
    pub xref_stm: Option<u64>,
}

/// The mathematical image of an [`Xref`].
pub struct SpecSection {
    pub obj_num: u64,
    pub length: u64,
    pub entries: Seq<Entry>,
}

/// The mathematical image of a [`Trailer`].
pub struct SpecTrailer {
    pub metadata: Seq<SpecDictEntry>,
    pub prev: Option<u64>,
    pub xref_stm: Option<u64>,
}

impl Xref {
    /// The mathematical image of this section.
    pub open spec fn view(&self) -> SpecSection {
        SpecSection { obj_num: self.obj_num, length: self.length, entries: self.entries@ }
    }

    /// A section is well formed when it holds as many entries as its
    /// header announced.
    pub open spec fn wf(&self) -> bool {
        self.length == self.entries@.len()
    }
}

impl Trailer {
    /// The mathematical image of this trailer.
    pub open spec fn view(&self) -> SpecTrailer {
        SpecTrailer {
            metadata: view_entries(self.metadata.entries@),
            prev: self.prev,
            xref_stm: self.xref_stm,
        }
    }
}

/// The value mapped to `key`, looked up at the first slot that holds it:
/// `None` for an absent key, `Some(None)` for a key with an elided value.
pub open spec fn spec_dict_get(entries: Seq<SpecDictEntry>, key: Seq<u8>) -> Option<
    Option<SpecObject>,
>
    decreases entries.len(),
{
    if entries.len() == 0 {
        None
    } else if entries[0].key == key {
        Some(entries[0].value)
    } else {
        spec_dict_get(entries.skip(1), key)
    }
}

impl PDFDict {
    /// Looks `key` up, as [`spec_dict_get`] describes.
    pub fn get(&self, key: &Vec<u8>) -> (r: Option<&Option<PDFObject>>)
        ensures
            match r {
                Some(v) => spec_dict_get(view_entries(self.entries@), key@) == Some(
                    crate::parser::view_value(*v),
                ),
                None => spec_dict_get(view_entries(self.entries@), key@) is None,
            },
    {
        let len = self.entries.len();
        let mut i: usize = 0;
        proof {
            assert(view_entries(self.entries@).skip(0) =~= view_entries(self.entries@));
        }
        while i < len
            invariant
                0 <= i <= len,
                len == self.entries@.len(),
                forall|j: int|
                    0 <= j < i ==> view_entries(self.entries@)[j].key != key@,
                spec_dict_get(view_entries(self.entries@), key@) == spec_dict_get(
                    view_entries(self.entries@).skip(i as int),
                    key@,
                ),
            decreases len - i,
        {
            let ghost s = view_entries(self.entries@);
            if crate::parser::bytes_eq(&self.entries[i].key.name, key) {
                proof {
                    assert(s.skip(i as int)[0] == s[i as int]);
                }
                return Some(&self.entries[i].value);
            }
            proof {
                assert(s.skip(i as int).skip(1) =~= s.skip(i + 1));
                assert(s.skip(i as int)[0] == s[i as int]);
            }
            i = i + 1;
        }
        proof {
            assert(view_entries(self.entries@).skip(len as int).len() == 0);
        }
        None
    }
}

/// What one fixed-width cross-reference line decodes to: ten digits of
/// offset or next-free pointer, a space, five digits of generation, a
/// space, and an `n` (in use) or `f` (free) flag; a trailing pad space is
/// accepted for the single-byte line-terminator convention.  `None` for
/// any other shape, and for a generation above 65535.
pub open spec fn spec_entry_line(line: Seq<u8>) -> Option<Entry> {
    let shape_ok = (line.len() == 18 || (line.len() == 19 && line[18] == 32))
        && crate::bytes::all_digits(line.subrange(0, 10)) && line[10] == 32
        && crate::bytes::all_digits(line.subrange(11, 16)) && line[16] == 32 && (line[17] == 110
        || line[17] == 102);
    if !shape_ok {
        None
    } else {
        let value = crate::bytes::digits_value(line.subrange(0, 10));
        let gen = crate::bytes::digits_value(line.subrange(11, 16));
        if gen > 65535 {
            None
        } else {
            Some(
                Entry {
                    gen_num: gen as u16,
                    state: if line[17] == 110 {
                        EntryState::Using(value as u64)
                    } else {
                        EntryState::Deleted(value as u64)
                    },
                },
            )
        }
    }
}

impl Entry {
    /// Decodes one cross-reference line, as [`spec_entry_line`] describes.
    pub fn from_line(line: &Vec<u8>) -> (r: Result<Entry, crate::error::Error>)
        ensures
            match r {
                Ok(e) => spec_entry_line(line@) == Some(e),
                Err(er) => er.kind == crate::error::ErrorKind::InvalidCrossTableEntry
                    && spec_entry_line(line@) is None,
            },
    {
        let len = line.len();
        if !(len == 18 || (len == 19 && line[18] == 32)) {
            return Err(crate::error::Error::new(crate::error::ErrorKind::InvalidCrossTableEntry));
        }
        if line[10] != 32 || line[16] != 32 {
            return Err(crate::error::Error::new(crate::error::ErrorKind::InvalidCrossTableEntry));
        }
        let flag = line[17];
        if !(flag == 110 || flag == 102) {
            return Err(crate::error::Error::new(crate::error::ErrorKind::InvalidCrossTableEntry));
        }
        if !digits_in_range(line, 0, 10) || !digits_in_range(line, 11, 16) {
            return Err(crate::error::Error::new(crate::error::ErrorKind::InvalidCrossTableEntry));
        }
        proof {
            crate::bytes::lemma_digits_value_bound(line@.subrange(0, 10));
            crate::bytes::lemma_digits_value_bound(line@.subrange(11, 16));
            assert(crate::bytes::pow10(10) == 10000000000) by {
                reveal_with_fuel(crate::bytes::pow10, 11);
            }
            assert(crate::bytes::pow10(5) == 100000) by {
                reveal_with_fuel(crate::bytes::pow10, 6);
            }
        }
        let value = crate::bytes::literal_to_u64(byte_range(line, 0, 10));
        let gen = crate::bytes::literal_to_u64(byte_range(line, 11, 16));
        if gen > 65535 {
            return Err(crate::error::Error::new(crate::error::ErrorKind::InvalidCrossTableEntry));
        }
        let state = if flag == 110 {
            EntryState::Using(value)
        } else {
            EntryState::Deleted(value)
        };
        Ok(Entry { gen_num: gen as u16, state })
    }
}

/// Whether the bytes of `line` from `a` to `b` are all decimal digits.
fn digits_in_range(line: &Vec<u8>, a: usize, b: usize) -> (r: bool)
    requires
        a <= b <= line@.len(),
    ensures
        r == crate::bytes::all_digits(line@.subrange(a as int, b as int)),
{
    let mut i: usize = a;
    while i < b
        invariant
            a <= i <= b <= line@.len(),
            forall|j: int|
                0 <= j < i - a ==> crate::bytes::is_digit(
                    #[trigger] line@.subrange(a as int, b as int)[j],
                ),
        decreases b - i,
    {
        let c = line[i];
        if !(48 <= c && c <= 57) {
            proof {
                assert(line@.subrange(a as int, b as int)[i - a] == c);
            }
            return false;
        }
        i = i + 1;
    }
    true
}

/// The subslice of `v` from `from` to `to`.
pub(crate) fn byte_range(v: &Vec<u8>, from: usize, to: usize) -> (r: &[u8])
    requires
        from <= to <= v@.len(),
    ensures
        r@ == v@.subrange(from as int, to as int),
{
    &v[from..to]
}

/// The pointwise image of a sequence of objects.
pub open spec fn view_objs(s: Seq<PDFObject>) -> Seq<SpecObject> {
    Seq::new(
        s.len(),
        |i: int|
            if 0 <= i < s.len() {
                s[i].view()
            } else {
                SpecObject::Null
            },
    )
}

/// The pointwise image of a sequence of dictionary slots.
pub open spec fn view_entries(s: Seq<DictEntry>) -> Seq<SpecDictEntry> {
    Seq::new(
        s.len(),
        |i: int|
            if 0 <= i < s.len() {
                s[i].view()
            } else {
                SpecDictEntry { key: Seq::empty(), value: None }
            },
    )
}


} // verus!
