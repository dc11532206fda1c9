use vstd::prelude::*;

use crate::bytes::{all_digits, digits_value, is_digit, literal_to_u64_checked};
use crate::error::{Error, ErrorKind};
use crate::objects::{spec_entry_line, Entry, SpecSection, SpecTrailer, Trailer, Xref};
use crate::sequence::{spec_read_line, Sequence};
use crate::vpdf::{spec_version_bytes, spec_version_of, PDFVersion};

verus! {

/// The five magic bytes `%PDF-` that open a PDF file.
pub open spec fn magic_bytes() -> Seq<u8> {
    seq![37u8, 80u8, 68u8, 70u8, 45u8]
}

/// The version the file header denotes: the magic, then three version
/// bytes.  `None` where the header is malformed.
pub open spec fn spec_header_version(data: Seq<u8>) -> Option<PDFVersion> {
    if data.len() >= 8 && data.subrange(0, 5) == magic_bytes() {
        spec_version_of(data.subrange(5, 8))
    } else {
        None
    }
}

/// A file that opens with the magic and a supported version's bytes parses
/// to that version, whatever follows.
pub proof fn lemma_header_round_trip(v: PDFVersion, tail: Seq<u8>)
    ensures
        spec_header_version(magic_bytes() + spec_version_bytes(v) + tail) == Some(v),
{
    let data = magic_bytes() + spec_version_bytes(v) + tail;
    assert(data.subrange(0, 5) =~= magic_bytes());
    assert(data.subrange(5, 8) =~= spec_version_bytes(v));
    crate::vpdf::lemma_version_round_trip(v);
}

/// A file whose three version bytes spell no supported version is
/// rejected, whatever follows.
pub proof fn lemma_header_rejects(s: Seq<u8>, tail: Seq<u8>)
    requires
        s.len() == 3,
        forall|v: PDFVersion| s != #[trigger] spec_version_bytes(v),
    ensures
        spec_header_version(magic_bytes() + s + tail) is None,
{
    let data = magic_bytes() + s + tail;
    assert(data.subrange(5, 8) =~= s);
    crate::vpdf::lemma_version_rejects(s);
}

/// Reads the file header, as [`spec_header_version`] describes.
pub fn parse_version<S: Sequence>(seq: &mut S) -> (r: Result<PDFVersion, Error>)
    requires
        old(seq).inv(),
    ensures
        final(seq).inv(),
        final(seq).data() == old(seq).data(),
        match r {
            Ok(v) => spec_header_version(old(seq).data()) == Some(v),
            Err(e) => e.kind == ErrorKind::Io || (e.kind == ErrorKind::InvalidPdfFile
                && spec_header_version(old(seq).data()) is None),
        },
{
    let ghost data = seq.data();
    match seq.seek(0) {
        Ok(_) => (),
        Err(e) => {
            return Err(e);
        },
    }
    let buf = match seq.read(1024) {
        Ok(b) => b,
        Err(e) => {
            return Err(e);
        },
    };
    if buf.len() < 8 {
        return Err(Error::new(ErrorKind::InvalidPdfFile));
    }
    proof {
        assert(forall|i: int| 0 <= i < buf@.len() ==> buf@[i] == data[i]);
    }
    if buf[0] != 37 || buf[1] != 80 || buf[2] != 68 || buf[3] != 70 || buf[4] != 45 {
        proof {
            assert(data.subrange(0, 5) != magic_bytes()) by {
                assert(data.subrange(0, 5)[0] == data[0] && data.subrange(0, 5)[1] == data[1]
                    && data.subrange(0, 5)[2] == data[2] && data.subrange(0, 5)[3] == data[3]
                    && data.subrange(0, 5)[4] == data[4]);
            }
        }
        return Err(Error::new(ErrorKind::InvalidPdfFile));
    }
    proof {
        assert(data.subrange(0, 5) =~= magic_bytes());
        assert(data.subrange(5, 8) =~= seq![buf@[5], buf@[6], buf@[7]]);
    }
    PDFVersion::from_bytes(buf[5], buf[6], buf[7])
}

/// The decimal digits of the cross-reference offset, read out of the file
/// tail backward: scanning from the end, digits are collected (here in
/// forward order), line endings and other bytes are skipped, and a `t` —
/// the last byte of `startxref` read in reverse — stops the scan.
pub open spec fn offset_digits(tail: Seq<u8>) -> Seq<u8>
    decreases tail.len(),
{
    if tail.len() == 0 {
        Seq::empty()
    } else if tail.last() == 116 {
        Seq::empty()
    } else if is_digit(tail.last()) {
        offset_digits(tail.drop_last()).push(tail.last())
    } else {
        offset_digits(tail.drop_last())
    }
}

/// The byte offset of the first cross-reference section, extracted from
/// the final `min(1024, size)` bytes of the file.  `None` where no digit
/// is collected or the digits exceed `u64::MAX`.
pub open spec fn spec_xref_offset(data: Seq<u8>) -> Option<int> {
    let tail = data.skip(
        if data.len() > 1024 {
            data.len() - 1024
        } else {
            0
        },
    );
    let ds = offset_digits(tail);
    if ds.len() == 0 || digits_value(ds) > u64::MAX {
        None
    } else {
        Some(digits_value(ds))
    }
}

/// Locates the first cross-reference offset by the backward tail scan, as
/// [`spec_xref_offset`] describes.
pub fn find_xref_table_offset<S: Sequence>(seq: &mut S) -> (r: Result<u64, Error>)
    requires
        old(seq).inv(),
    ensures
        final(seq).inv(),
        final(seq).data() == old(seq).data(),
        match r {
            Ok(off) => spec_xref_offset(old(seq).data()) == Some(off as int),
            Err(e) => e.kind == ErrorKind::Io || (e.kind == ErrorKind::NoXrefTableFound
                && spec_xref_offset(old(seq).data()) is None),
        },
{
    let ghost data = seq.data();
    let size = match seq.size() {
        Ok(s) => s,
        Err(e) => {
            return Err(e);
        },
    };
    let pos = if size > 1024 {
        size - 1024
    } else {
        0
    };
    match seq.seek(pos) {
        Ok(_) => (),
        Err(e) => {
            return Err(e);
        },
    }
    let buf = match seq.read(1024) {
        Ok(b) => b,
        Err(e) => {
            return Err(e);
        },
    };
    let ghost tail = data.skip(
        if data.len() > 1024 {
            data.len() - 1024
        } else {
            0
        },
    );
    proof {
        assert(buf@ =~= tail);
    }
    let n = buf.len();
    let mut backward: Vec<u8> = Vec::new();
    let ghost mut fwd: Seq<u8> = Seq::empty();
    let mut i: usize = n;
    proof {
        assert(tail.take(n as int) =~= tail);
    }
    while i > 0
        invariant
            0 <= i <= n,
            n == tail.len(),
            buf@ == tail,
            offset_digits(tail) == offset_digits(tail.take(i as int)) + fwd,
            all_digits(fwd),
            backward@.len() == fwd.len(),
            forall|t: int| 0 <= t < fwd.len() ==> fwd[t] == backward@[fwd.len() - 1 - t],
        decreases i,
    {
        let b = buf[i - 1];
        proof {
            assert(tail.take(i as int).last() == tail[i - 1]);
            assert(tail.take(i as int).drop_last() =~= tail.take(i - 1));
        }
        if b == 116 {
            proof {
                assert(offset_digits(tail.take(i as int)) == Seq::<u8>::empty());
                assert(tail.take(0).len() == 0);
                assert(Seq::<u8>::empty() + fwd =~= offset_digits(tail.take(0)) + fwd);
            }
            i = 0;
        } else {
            if 48 <= b && b <= 57 {
                backward.push(b);
                proof {
                    let prev = fwd;
                    fwd = seq![b] + prev;
                    assert(offset_digits(tail.take(i - 1)).push(b) + prev =~= offset_digits(
                        tail.take(i - 1),
                    ) + fwd);
                }
            }
            i = i - 1;
        }
    }
    proof {
        assert(tail.take(0).len() == 0);
        assert(offset_digits(tail.take(0)) + fwd =~= fwd);
        assert(offset_digits(tail) == fwd);
    }
    let count = backward.len();
    let mut forward: Vec<u8> = Vec::new();
    let mut j: usize = 0;
    while j < count
        invariant
            0 <= j <= count,
            count == backward@.len() == fwd.len(),
            forall|t: int| 0 <= t < fwd.len() ==> fwd[t] == backward@[fwd.len() - 1 - t],
            forward@.len() == j,
            forall|t: int| 0 <= t < j ==> forward@[t] == fwd[t],
        decreases count - j,
    {
        forward.push(backward[count - 1 - j]);
        j = j + 1;
    }
    proof {
        assert(forward@ =~= fwd);
    }
    if forward.len() == 0 {
        return Err(Error::new(ErrorKind::NoXrefTableFound));
    }
    match literal_to_u64_checked(forward.as_slice()) {
        Some(v) => Ok(v),
        None => Err(Error::new(ErrorKind::NoXrefTableFound)),
    }
}

/// The index of the first byte at or after `i` that is not a space, or
/// `line.len()`.
pub open spec fn skip_spaces(line: Seq<u8>, i: int) -> int
    decreases line.len() - i,
{
    if i < 0 || i >= line.len() {
        line.len() as int
    } else if line[i] == 32 {
        skip_spaces(line, i + 1)
    } else {
        i
    }
}

/// The index of the first byte at or after `i` that is not a decimal
/// digit, or `line.len()`.
pub open spec fn digits_end(line: Seq<u8>, i: int) -> int
    decreases line.len() - i,
{
    if i < 0 || i >= line.len() {
        line.len() as int
    } else if is_digit(line[i]) {
        digits_end(line, i + 1)
    } else {
        i
    }
}

/// `digits_end` lands in bounds; every byte it passed is a digit.
pub proof fn lemma_digits_end(line: Seq<u8>, i: int)
    requires
        0 <= i <= line.len(),
    ensures
        i <= digits_end(line, i) <= line.len(),
        forall|j: int| i <= j < digits_end(line, i) ==> is_digit(#[trigger] line[j]),
    decreases line.len() - i,
{
    if i < line.len() && is_digit(line[i]) {
        lemma_digits_end(line, i + 1);
    }
}

/// What the section header line under the `xref` keyword decodes to: two
/// space-separated decimals — the starting object number and the entry
/// count — with spaces allowed around them and each value fitting `u64`.
pub open spec fn spec_parse_meta(line: Seq<u8>) -> Option<(u64, u64)> {
    let a = skip_spaces(line, 0);
    let b = digits_end(line, a);
    let c = skip_spaces(line, b);
    let d = digits_end(line, c);
    let e = skip_spaces(line, d);
    if b > a && c > b && d > c && e == line.len() && digits_value(line.subrange(a, b)) <= u64::MAX
        && digits_value(line.subrange(c, d)) <= u64::MAX {
        Some(
            (
                digits_value(line.subrange(a, b)) as u64,
                digits_value(line.subrange(c, d)) as u64,
            ),
        )
    } else {
        None
    }
}

/// The first index at or after `from` holding no space.
fn skip_spaces_at(line: &Vec<u8>, from: usize) -> (r: usize)
    requires
        from <= line@.len(),
    ensures
        r == skip_spaces(line@, from as int),
        from <= r <= line@.len(),
{
    let len = line.len();
    let mut i = from;
    while i < len && line[i] == 32
        invariant
            from <= i <= len,
            len == line@.len(),
            skip_spaces(line@, from as int) == skip_spaces(line@, i as int),
        decreases len - i,
    {
        i = i + 1;
    }
    proof {
        assert(skip_spaces(line@, i as int) == i);
    }
    i
}

/// The first index at or after `from` holding no digit.
fn digits_end_at(line: &Vec<u8>, from: usize) -> (r: usize)
    requires
        from <= line@.len(),
    ensures
        r == digits_end(line@, from as int),
        from <= r <= line@.len(),
{
    let len = line.len();
    let mut i = from;
    while i < len && 48 <= line[i] && line[i] <= 57
        invariant
            from <= i <= len,
            len == line@.len(),
            digits_end(line@, from as int) == digits_end(line@, i as int),
        decreases len - i,
    {
        i = i + 1;
    }
    proof {
        assert(digits_end(line@, i as int) == i);
    }
    i
}

/// Decodes the section header line, as [`spec_parse_meta`] describes.
fn parse_meta_line(line: &Vec<u8>) -> (r: Result<(u64, u64), Error>)
    ensures
        match r {
            Ok(p) => spec_parse_meta(line@) == Some(p),
            Err(e) => e.kind == ErrorKind::InvalidCrossTableEntry && spec_parse_meta(line@)
                is None,
        },
{
    let a = skip_spaces_at(line, 0);
    let b = digits_end_at(line, a);
    let c = skip_spaces_at(line, b);
    let d = digits_end_at(line, c);
    let e = skip_spaces_at(line, d);
    if !(b > a && c > b && d > c && e == line.len()) {
        return Err(Error::new(ErrorKind::InvalidCrossTableEntry));
    }
    proof {
        lemma_digits_end(line@, a as int);
        lemma_digits_end(line@, c as int);
        assert(all_digits(line@.subrange(a as int, b as int)));
        assert(all_digits(line@.subrange(c as int, d as int)));
    }
    let v1 = match literal_to_u64_checked(crate::objects::byte_range(line, a, b)) {
        Some(v) => v,
        None => {
            return Err(Error::new(ErrorKind::InvalidCrossTableEntry));
        },
    };
    let v2 = match literal_to_u64_checked(crate::objects::byte_range(line, c, d)) {
        Some(v) => v,
        None => {
            return Err(Error::new(ErrorKind::InvalidCrossTableEntry));
        },
    };
    Ok((v1, v2))
}

/// What reading `count` fixed-width entry lines from `pos` yields: the
/// entries after those of `acc`, and the position past them.
pub open spec fn spec_read_entries(data: Seq<u8>, pos: int, count: nat, acc: Seq<Entry>) -> Result<
    (Seq<Entry>, int),
    ErrorKind,
>
    decreases count,
{
    if count == 0 {
        Ok((acc, pos))
    } else {
        match spec_read_line(data, pos) {
            None => Err(ErrorKind::EndOfInput),
            Some((line, pos2)) => match spec_entry_line(line) {
                None => Err(ErrorKind::InvalidCrossTableEntry),
                Some(e) => spec_read_entries(data, pos2, (count - 1) as nat, acc.push(e)),
            },
        }
    }
}

/// The keyword `trailer` that follows an entry block.
pub open spec fn trailer_keyword() -> Seq<u8> {
    seq![116u8, 114u8, 97u8, 105u8, 108u8, 101u8, 114u8]
}

/// The dictionary key `Prev`.
pub open spec fn prev_keyword() -> Seq<u8> {
    seq![80u8, 114u8, 101u8, 118u8]
}

/// The dictionary key `XRefStm`.
pub open spec fn xrefstm_keyword() -> Seq<u8> {
    seq![88u8, 82u8, 101u8, 102u8, 83u8, 116u8, 109u8]
}

/// The `Prev` offset a trailer dictionary carries: only an unsigned
/// integer value continues the chain.
pub open spec fn spec_prev_of(md: Seq<crate::objects::SpecDictEntry>) -> Option<u64> {
    match crate::objects::spec_dict_get(md, prev_keyword()) {
        Some(Some(crate::objects::SpecObject::Number(crate::objects::SpecNumber::Unsigned(p)))) => Some(
            p,
        ),
        _ => None,
    }
}

/// The `XRefStm` offset a trailer dictionary carries.
pub open spec fn spec_xrefstm_of(md: Seq<crate::objects::SpecDictEntry>) -> Option<u64> {
    match crate::objects::spec_dict_get(md, xrefstm_keyword()) {
        Some(Some(crate::objects::SpecObject::Number(crate::objects::SpecNumber::Unsigned(p)))) => Some(
            p,
        ),
        _ => None,
    }
}

/// What parsing one cross-reference section at `offset` yields: the `xref`
/// line is skipped, the header line gives start and count, exactly `count`
/// fixed-width entries follow, then the keyword `trailer` and a dictionary
/// parsed by the object parser, out of which `Prev` and `XRefStm` are read.
pub open spec fn spec_parse_section(data: Seq<u8>, offset: int) -> Result<
    (SpecSection, SpecTrailer),
    ErrorKind,
> {
    let pos0 = vstd::math::min(offset, data.len() as int);
    match spec_read_line(data, pos0) {
        None => Err(ErrorKind::EndOfInput),
        Some((_, pos1)) => match spec_read_line(data, pos1) {
            None => Err(ErrorKind::EndOfInput),
            Some((meta, pos2)) => match spec_parse_meta(meta) {
                None => Err(ErrorKind::InvalidCrossTableEntry),
                Some((start, count)) => match spec_read_entries(
                    data,
                    pos2,
                    count as nat,
                    Seq::empty(),
                ) {
                    Err(k) => Err(k),
                    Ok((entries, pos3)) => match spec_read_line(data, pos3) {
                        None => Err(ErrorKind::EndOfInput),
                        Some((kw, pos4)) => if kw != trailer_keyword() {
                            Err(ErrorKind::ExpectedTrailer)
                        } else {
                            match crate::parser::spec_parse(data.skip(pos4)) {
                                Err(k) => Err(k),
                                Ok((obj, _)) => match obj {
                                    crate::objects::SpecObject::Dict(metadata) => Ok(
                                        (
                                            SpecSection { obj_num: start, length: count, entries },
                                            SpecTrailer {
                                                metadata,
                                                prev: spec_prev_of(metadata),
                                                xref_stm: spec_xrefstm_of(metadata),
                                            },
                                        ),
                                    ),
                                    _ => Err(ErrorKind::TrailerMustBeDictionary),
                                },
                            }
                        },
                    },
                },
            },
        },
    }
}

/// Whether `line` spells the keyword `trailer`.
fn is_trailer_line(line: &Vec<u8>) -> (r: bool)
    ensures
        r == (line@ == trailer_keyword()),
{
    let r = line.len() == 7 && line[0] == 116 && line[1] == 114 && line[2] == 97 && line[3] == 105
        && line[4] == 108 && line[5] == 101 && line[6] == 114;
    proof {
        if r {
            assert(line@ =~= trailer_keyword());
        }
    }
    r
}

/// The `Prev` and `XRefStm` offsets out of a trailer dictionary, as
/// [`spec_prev_of`] and [`spec_xrefstm_of`] describe.
fn trailer_fields(dict: &crate::objects::PDFDict) -> (r: (Option<u64>, Option<u64>))
    ensures
        r.0 == spec_prev_of(crate::objects::view_entries(dict.entries@)),
        r.1 == spec_xrefstm_of(crate::objects::view_entries(dict.entries@)),
{
    let mut prev_key: Vec<u8> = Vec::new();
    prev_key.push(80);
    prev_key.push(114);
    prev_key.push(101);
    prev_key.push(118);
    proof {
        assert(prev_key@ =~= prev_keyword());
    }
    let prev = match dict.get(&prev_key) {
        Some(v) => match v {
            Some(crate::objects::PDFObject::Number(crate::objects::PDFNumber::Unsigned(p))) => Some(
                *p,
            ),
            _ => None,
        },
        None => None,
    };
    let mut stm_key: Vec<u8> = Vec::new();
    stm_key.push(88);
    stm_key.push(82);
    stm_key.push(101);
    stm_key.push(102);
    stm_key.push(83);
    stm_key.push(116);
    stm_key.push(109);
    proof {
        assert(stm_key@ =~= xrefstm_keyword());
    }
    let xref_stm = match dict.get(&stm_key) {
        Some(v) => match v {
            Some(crate::objects::PDFObject::Number(crate::objects::PDFNumber::Unsigned(p))) => Some(
                *p,
            ),
            _ => None,
        },
        None => None,
    };
    (prev, xref_stm)
}

/// Parses one cross-reference section and its trailer, as
/// [`spec_parse_section`] describes.
#[verifier::loop_isolation(false)]
pub fn parse_xref<S: Sequence>(offset: u64, seq: &mut S) -> (r: Result<(Xref, Trailer), Error>)
    requires
        old(seq).inv(),
    ensures
        final(seq).inv(),
        final(seq).data() == old(seq).data(),
        match r {
            Ok(p) => p.0.wf() && spec_parse_section(old(seq).data(), offset as int)
                == Ok::<_, ErrorKind>((p.0.view(), p.1.view())),
            Err(e) => e.kind == ErrorKind::Io || spec_parse_section(old(seq).data(), offset as int)
                == Err::<(SpecSection, SpecTrailer), _>(e.kind),
        },
{
    let ghost data = seq.data();
    match seq.seek(offset) {
        Ok(_) => (),
        Err(e) => {
            return Err(e);
        },
    }
    match seq.read_line() {
        Ok(_) => (),
        Err(e) => {
            return Err(e);
        },
    }
    let meta = match seq.read_line() {
        Ok(l) => l,
        Err(e) => {
            return Err(e);
        },
    };
    let (start, count) = match parse_meta_line(&meta) {
        Ok(p) => p,
        Err(e) => {
            return Err(e);
        },
    };
    let ghost pos2 = seq.cursor();
    let mut entries: Vec<Entry> = Vec::new();
    let mut k: u64 = 0;
    while k < count
        invariant
            seq.inv(),
            seq.data() == data,
            data == old(seq).data(),
            0 <= k <= count,
            entries@.len() == k,
            spec_read_entries(data, pos2, count as nat, Seq::empty()) == spec_read_entries(
                data,
                seq.cursor(),
                (count - k) as nat,
                entries@,
            ),
        decreases count - k,
    {
        let line = match seq.read_line() {
            Ok(l) => l,
            Err(e) => {
                return Err(e);
            },
        };
        let entry = match Entry::from_line(&line) {
            Ok(en) => en,
            Err(e) => {
                return Err(e);
            },
        };
        entries.push(entry);
        k = k + 1;
    }
    let kw = match seq.read_line() {
        Ok(l) => l,
        Err(e) => {
            return Err(e);
        },
    };
    if !is_trailer_line(&kw) {
        return Err(Error::new(ErrorKind::ExpectedTrailer));
    }
    let obj = match crate::parser::parse(seq) {
        Ok(o) => o,
        Err(e) => {
            return Err(e);
        },
    };
    match obj {
        crate::objects::PDFObject::Dict(dict) => {
            proof {
                assert(crate::objects::view_entries(dict.entries@)
                    =~= (crate::objects::PDFObject::Dict(dict).view())->Dict_0);
            }
            let (prev, xref_stm) = trailer_fields(&dict);
            Ok(
                (
                    Xref { obj_num: start, length: count, entries },
                    Trailer { metadata: dict, prev, xref_stm },
                ),
            )
        },
        _ => Err(Error::new(ErrorKind::TrailerMustBeDictionary)),
    }
}

/// The pointwise image of a sequence of sections.
pub open spec fn view_sections(s: Seq<Xref>) -> Seq<SpecSection> {
    Seq::new(s.len(), |i: int| s[i].view())
}

/// The pointwise image of a sequence of trailers.
pub open spec fn view_trailers(s: Seq<Trailer>) -> Seq<SpecTrailer> {
    Seq::new(s.len(), |i: int| s[i].view())
}

/// Whether `offs`, `secs` and `trs` form a cross-reference chain of `data`:
/// each offset parses to its section and trailer, each trailer's `Prev`
/// names the next offset, and no offset repeats.
pub open spec fn chain_links(
    data: Seq<u8>,
    offs: Seq<u64>,
    secs: Seq<SpecSection>,
    trs: Seq<SpecTrailer>,
) -> bool {
    &&& offs.len() == secs.len()
    &&& offs.len() == trs.len()
    &&& offs.no_duplicates()
    &&& forall|i: int|
        0 <= i < offs.len() ==> spec_parse_section(data, (#[trigger] offs[i]) as int)
            == Ok::<_, ErrorKind>((secs[i], trs[i]))
    &&& forall|i: int| 0 <= i < offs.len() - 1 ==> (#[trigger] trs[i]).prev == Some(offs[i + 1])
}

/// The offset a chain still has to visit: the start where nothing is
/// resolved yet, else the last trailer's `Prev`.
pub open spec fn chain_next(start: u64, offs: Seq<u64>, trs: Seq<SpecTrailer>) -> Option<u64> {
    if offs.len() == 0 {
        Some(start)
    } else {
        trs.last().prev
    }
}

/// Whether resolution of the chain at `start` runs aground with `kind`:
/// some prefix chain either points back into itself (`CircularXrefChain`)
/// or at an offset whose section fails to parse with that kind.
pub open spec fn chain_failure(data: Seq<u8>, start: u64, kind: ErrorKind) -> bool {
    exists|offs: Seq<u64>, secs: Seq<SpecSection>, trs: Seq<SpecTrailer>|
        {
            &&& #[trigger] chain_links(data, offs, secs, trs)
            &&& (offs.len() > 0 ==> offs[0] == start)
            &&& match chain_next(start, offs, trs) {
                Some(o) => (kind == ErrorKind::CircularXrefChain && offs.contains(o)) || (
                !offs.contains(o) && spec_parse_section(data, o as int) == Err::<
                    (SpecSection, SpecTrailer),
                    _,
                >(kind)),
                None => false,
            }
        }
}

/// A section that parses starts inside the file.
proof fn lemma_section_offset_in_range(data: Seq<u8>, off: u64)
    ensures
        spec_parse_section(data, off as int) is Ok ==> 0 <= (off as int) < data.len(),
{
    let pos0 = vstd::math::min(off as int, data.len() as int);
    if spec_parse_section(data, off as int) is Ok {
        crate::sequence::lemma_skip_eols(data, pos0);
        crate::sequence::lemma_find_eol(data, crate::sequence::skip_eols(data, pos0));
    }
}

/// Distinct values below `n` cannot number more than `n`.
proof fn lemma_distinct_bounded(s: Seq<u64>, n: int)
    requires
        s.no_duplicates(),
        forall|i: int| 0 <= i < s.len() ==> (#[trigger] s[i]) < n,
        n >= 0,
    ensures
        s.len() <= n,
{
    broadcast use vstd::set::group_set_axioms;

    let si = Seq::new(s.len(), |i: int| s[i] as int);
    assert(si.no_duplicates());
    si.unique_seq_to_set();
    let range = vstd::set_lib::set_int_range(0, n);
    vstd::set_lib::lemma_int_range(0, n);
    assert(si.to_set().subset_of(range)) by {
        assert forall|x: int| si.to_set().contains(x) implies range.contains(x) by {
            assert(si.contains(x));
            let i = choose|i: int| 0 <= i < si.len() && si[i] == x;
            assert(s[i] < n);
        }
    }
    vstd::set_lib::lemma_len_subset(si.to_set(), range);
}

/// Whether `v` holds `x`.
fn contains_u64(v: &Vec<u64>, x: u64) -> (r: bool)
    ensures
        r == v@.contains(x),
{
    let len = v.len();
    let mut i: usize = 0;
    while i < len
        invariant
            0 <= i <= len,
            len == v@.len(),
            forall|j: int| 0 <= j < i ==> v@[j] != x,
        decreases len - i,
    {
        if v[i] == x {
            return true;
        }
        i = i + 1;
    }
    false
}

/// Resolves the whole cross-reference chain at `start`: sections are
/// parsed newest first, each trailer's `Prev` leads to the next older one,
/// and an offset seen twice is a `CircularXrefChain` error.  Returns the
/// sections, their trailers, and the offsets they were parsed at.
#[verifier::loop_isolation(false)]
#[verifier::rlimit(50)]
pub fn resolve_xrefs<S: Sequence>(seq: &mut S, start: u64) -> (r: Result<
    (Vec<Xref>, Vec<Trailer>, Vec<u64>),
    Error,
>)
    requires
        old(seq).inv(),
    ensures
        final(seq).inv(),
        final(seq).data() == old(seq).data(),
        match r {
            Ok((xrefs, trailers, offsets)) => {
                &&& xrefs@.len() == trailers@.len()
                &&& xrefs@.len() == offsets@.len()
                &&& offsets@.len() >= 1
                &&& offsets@[0] == start
                &&& chain_links(
                    old(seq).data(),
                    offsets@,
                    view_sections(xrefs@),
                    view_trailers(trailers@),
                )
                &&& view_trailers(trailers@).last().prev is None
                &&& forall|i: int| 0 <= i < xrefs@.len() ==> (#[trigger] xrefs@[i]).wf()
            },
            Err(e) => e.kind == ErrorKind::Io || chain_failure(old(seq).data(), start, e.kind),
        },
{
    let ghost data = seq.data();
    let mut xrefs: Vec<Xref> = Vec::new();
    let mut trailers: Vec<Trailer> = Vec::new();
    let mut offsets: Vec<u64> = Vec::new();
    let mut next: u64 = start;
    loop
        invariant
            seq.inv(),
            seq.data() == data,
            xrefs@.len() == trailers@.len(),
            xrefs@.len() == offsets@.len(),
            offsets@.len() > 0 ==> offsets@[0] == start,
            chain_links(data, offsets@, view_sections(xrefs@), view_trailers(trailers@)),
            chain_next(start, offsets@, view_trailers(trailers@)) == Some(next),
            forall|i: int| 0 <= i < offsets@.len() ==> (#[trigger] offsets@[i] as int) < data.len(),
            forall|i: int| 0 <= i < xrefs@.len() ==> (#[trigger] xrefs@[i]).wf(),
        decreases data.len() + 1 - offsets@.len(),
    {
        proof {
            lemma_distinct_bounded(offsets@, data.len() as int);
        }
        if contains_u64(&offsets, next) {
            proof {
                assert(chain_links(data, offsets@, view_sections(xrefs@), view_trailers(trailers@)));
            }
            return Err(Error::new(ErrorKind::CircularXrefChain));
        }
        let (x, tr) = match parse_xref(next, seq) {
            Ok(p) => p,
            Err(e) => {
                proof {
                    assert(chain_links(
                        data,
                        offsets@,
                        view_sections(xrefs@),
                        view_trailers(trailers@),
                    ));
                }
                return Err(e);
            },
        };
        proof {
            lemma_section_offset_in_range(data, next);
        }
        let prev = tr.prev;
        let ghost offs0 = offsets@;
        let ghost secs0 = view_sections(xrefs@);
        let ghost trs0 = view_trailers(trailers@);
        xrefs.push(x);
        trailers.push(tr);
        offsets.push(next);
        proof {
            assert(view_sections(xrefs@) =~= secs0.push(xrefs@.last().view()));
            assert(view_trailers(trailers@) =~= trs0.push(trailers@.last().view()));
            assert(offsets@ =~= offs0.push(next));
            assert(offsets@.no_duplicates());
        }
        match prev {
            None => {
                return Ok((xrefs, trailers, offsets));
            },
            Some(p) => {
                next = p;
            },
        }
    }
}

/// Whether `s` describes the object number `obj`.
pub open spec fn section_covers(s: SpecSection, obj: u64) -> bool {
    s.obj_num <= obj && obj - s.obj_num < s.entries.len()
}

/// The entry `s` holds for the object number `obj`.
pub open spec fn section_entry(s: SpecSection, obj: u64) -> Entry {
    s.entries[obj - s.obj_num]
}

/// The merged view of chained sections, newest first: the entry for `obj`
/// out of the first section that covers it, newer sections winning over
/// older ones.
pub open spec fn spec_lookup(sections: Seq<SpecSection>, obj: u64) -> Option<Entry>
    decreases sections.len(),
{
    if sections.len() == 0 {
        None
    } else if section_covers(sections[0], obj) {
        Some(section_entry(sections[0], obj))
    } else {
        spec_lookup(sections.skip(1), obj)
    }
}

/// The newest section that covers an object number decides its entry,
/// whatever older sections hold for the same number.
pub proof fn lemma_newest_wins(sections: Seq<SpecSection>, obj: u64)
    requires
        sections.len() >= 1,
        section_covers(sections[0], obj),
    ensures
        spec_lookup(sections, obj) == Some(section_entry(sections[0], obj)),
{
}

/// An object number the newest section does not cover falls through to
/// the older sections unchanged.
pub proof fn lemma_older_sections_visible(sections: Seq<SpecSection>, obj: u64)
    requires
        sections.len() >= 1,
        !section_covers(sections[0], obj),
    ensures
        spec_lookup(sections, obj) == spec_lookup(sections.skip(1), obj),
{
}

/// The document-lifetime object-location index: the resolved sections,
/// newest first, read through the newest-wins merge of [`spec_lookup`].
pub struct XrefIndex {
    sections: Vec<Xref>,
}

impl XrefIndex {
    /// The sections the index merges, newest first.
    pub closed spec fn spec_sections(&self) -> Seq<SpecSection> {
        view_sections(self.sections@)
    }

    /// Builds the index over resolved sections.
    pub fn new(sections: Vec<Xref>) -> (r: XrefIndex)
        ensures
            r.spec_sections() == view_sections(sections@),
    {
        XrefIndex { sections }
    }

    /// The sections the index was built over.
    pub fn sections(&self) -> (r: &Vec<Xref>)
        ensures
            view_sections(r@) == self.spec_sections(),
    {
        &self.sections
    }

    /// The most recent entry for `obj`, as [`spec_lookup`] describes.
    pub fn get_entry(&self, obj: u64) -> (r: Option<Entry>)
        ensures
            r == spec_lookup(self.spec_sections(), obj),
    {
        let len = self.sections.len();
        let mut i: usize = 0;
        proof {
            assert(self.spec_sections().skip(0) =~= self.spec_sections());
        }
        while i < len
            invariant
                0 <= i <= len,
                len == self.sections@.len(),
                spec_lookup(self.spec_sections(), obj) == spec_lookup(
                    self.spec_sections().skip(i as int),
                    obj,
                ),
            decreases len - i,
        {
            let x = &self.sections[i];
            let elen = x.entries.len() as u64;
            proof {
                assert(self.spec_sections().skip(i as int)[0] == self.sections@[i as int].view());
                assert(self.spec_sections().skip(i as int).skip(1) =~= self.spec_sections().skip(
                    i + 1,
                ));
            }
            if x.obj_num <= obj && obj - x.obj_num < elen {
                let e = x.entries[(obj - x.obj_num) as usize];
                return Some(e);
            }
            i = i + 1;
        }
        proof {
            assert(self.spec_sections().skip(len as int).len() == 0);
        }
        None
    }
}

/// A parsed PDF document: its version, the resolved cross-reference
/// chain merged into an index, and the byte source it owns.
pub struct PDFDocument<S: Sequence> {
    version: PDFVersion,
    index: XrefIndex,
    trailers: Vec<Trailer>,
    offsets: Vec<u64>,
    sequence: S,
}

impl<S: Sequence> PDFDocument<S> {
    /// The version the file header declared.
    pub closed spec fn spec_version(&self) -> PDFVersion {
        self.version
    }

    /// The resolved sections, newest first.
    pub closed spec fn spec_sections(&self) -> Seq<SpecSection> {
        self.index.spec_sections()
    }

    /// The trailers of the resolved sections, newest first.
    pub closed spec fn spec_trailers(&self) -> Seq<SpecTrailer> {
        view_trailers(self.trailers@)
    }

    /// The byte offsets the sections were parsed at, newest first.
    pub closed spec fn spec_offsets(&self) -> Seq<u64> {
        self.offsets@
    }

    /// Opens a document over `sequence`: the header gives the version, the
    /// backward tail scan the first cross-reference offset, and the chain
    /// at that offset the sections merged into the document's index.
    pub fn new(sequence: S) -> (r: Result<PDFDocument<S>, Error>)
        requires
            sequence.inv(),
        ensures
            match r {
                Ok(doc) => {
                    &&& spec_header_version(sequence.data()) == Some(doc.spec_version())
                    &&& spec_xref_offset(sequence.data()) matches Some(off)
                    &&& doc.spec_offsets().len() >= 1
                    &&& doc.spec_offsets().len() == doc.spec_sections().len()
                    &&& doc.spec_offsets().len() == doc.spec_trailers().len()
                    &&& spec_xref_offset(sequence.data()) == Some(doc.spec_offsets()[0] as int)
                    &&& chain_links(
                        sequence.data(),
                        doc.spec_offsets(),
                        doc.spec_sections(),
                        doc.spec_trailers(),
                    )
                    &&& doc.spec_trailers().last().prev is None
                },
                Err(e) => {
                    ||| e.kind == ErrorKind::Io
                    ||| (e.kind == ErrorKind::InvalidPdfFile && spec_header_version(
                        sequence.data(),
                    ) is None)
                    ||| (e.kind == ErrorKind::NoXrefTableFound && spec_xref_offset(sequence.data())
                        is None)
                    ||| (spec_xref_offset(sequence.data()) matches Some(off) && chain_failure(
                        sequence.data(),
                        off as u64,
                        e.kind,
                    ))
                },
            },
    {
        let mut sequence = sequence;
        let version = match parse_version(&mut sequence) {
            Ok(v) => v,
            Err(e) => {
                return Err(e);
            },
        };
        let offset = match find_xref_table_offset(&mut sequence) {
            Ok(o) => o,
            Err(e) => {
                return Err(e);
            },
        };
        let (xrefs, trailers, offsets) = match resolve_xrefs(&mut sequence, offset) {
            Ok(t) => t,
            Err(e) => {
                return Err(e);
            },
        };
        Ok(PDFDocument { version, index: XrefIndex::new(xrefs), trailers, offsets, sequence })
    }

    /// The resolved cross-reference sections, newest first.
    pub fn get_xref(&self) -> (r: &Vec<Xref>)
        ensures
            view_sections(r@) == self.spec_sections(),
    {
        self.index.sections()
    }

    /// The version of the file header.
    pub fn get_version(&self) -> (r: &PDFVersion)
        ensures
            *r == self.spec_version(),
    {
        &self.version
    }

    /// The trailers of the resolved sections, newest first.
    pub fn get_trailers(&self) -> (r: &Vec<Trailer>)
        ensures
            view_trailers(r@) == self.spec_trailers(),
    {
        &self.trailers
    }

    /// The most recent cross-reference entry for `obj`, newest section
    /// winning, as [`spec_lookup`] describes.
    pub fn get_entry(&self, obj: u64) -> (r: Option<Entry>)
        ensures
            r == spec_lookup(self.spec_sections(), obj),
    {
        self.index.get_entry(obj)
    }
}

} // verus!
