use vstd::prelude::*;

use crate::bytes::is_line_ending;
use crate::error::{Error, ErrorKind};

verus! {

/// The index of the first byte at or after `i` that is not a line ending,
/// or `data.len()` where every remaining byte is one.
pub open spec fn skip_eols(data: Seq<u8>, i: int) -> int
    decreases data.len() - i,
{
    if i < 0 || i >= data.len() {
        data.len() as int
    } else if is_line_ending(data[i]) {
        skip_eols(data, i + 1)
    } else {
        i
    }
}

/// The index of the first line-ending byte at or after `i`, or `data.len()`.
pub open spec fn find_eol(data: Seq<u8>, i: int) -> int
    decreases data.len() - i,
{
    if i < 0 || i >= data.len() {
        data.len() as int
    } else if is_line_ending(data[i]) {
        i
    } else {
        find_eol(data, i + 1)
    }
}

/// What reading one line from position `pos` of `data` yields: the line's
/// bytes (line-ending bytes at `pos` are first skipped; the line runs to the
/// next line ending, which is consumed together with the line-ending run
/// that follows it) and the position after it.  `None` where no terminated
/// line remains.
pub open spec fn spec_read_line(data: Seq<u8>, pos: int) -> Option<(Seq<u8>, int)> {
    let start = skip_eols(data, pos);
    let end = find_eol(data, start);
    if end >= data.len() {
        None
    } else {
        Some((data.subrange(start, end), skip_eols(data, end)))
    }
}

/// `skip_eols` lands between `i` and the length, on a byte that is not a
/// line ending, and every byte it skipped is one.
pub proof fn lemma_skip_eols(data: Seq<u8>, i: int)
    requires
        0 <= i <= data.len(),
    ensures
        i <= skip_eols(data, i) <= data.len(),
        skip_eols(data, i) < data.len() ==> !is_line_ending(data[skip_eols(data, i)]),
        forall|j: int| i <= j < skip_eols(data, i) ==> is_line_ending(#[trigger] data[j]),
    decreases data.len() - i,
{
    if i < data.len() && is_line_ending(data[i]) {
        lemma_skip_eols(data, i + 1);
    }
}

/// `find_eol` lands between `i` and the length, on a line ending where it is
/// within bounds, and every byte it passed is not one.
pub proof fn lemma_find_eol(data: Seq<u8>, i: int)
    requires
        0 <= i <= data.len(),
    ensures
        i <= find_eol(data, i) <= data.len(),
        find_eol(data, i) < data.len() ==> is_line_ending(data[find_eol(data, i)]),
        forall|j: int| i <= j < find_eol(data, i) ==> !is_line_ending(#[trigger] data[j]),
    decreases data.len() - i,
{
    if i < data.len() && !is_line_ending(data[i]) {
        lemma_find_eol(data, i + 1);
    }
}

/// A random-access byte source: the capability the engine reads PDF files
/// through.  `data` is the whole content, `cursor` the read position, and
/// `inv` the implementation's well-formedness; implementations that cannot
/// fail simply never return `Err`.
pub trait Sequence: Sized {
    /// The whole byte content of the source.
    spec fn data(&self) -> Seq<u8>;

    /// The current read position.
    spec fn cursor(&self) -> int;

    /// The implementation's well-formedness.
    spec fn inv(&self) -> bool;

    /// A well-formed source keeps its cursor inside its content.
    proof fn lemma_inv_bounds(&self)
        requires
            self.inv(),
        ensures
            0 <= self.cursor() <= self.data().len(),
    ;

    /// Reads up to `count` bytes at the cursor; fewer only at end of input.
    fn read(&mut self, count: usize) -> (r: Result<Vec<u8>, Error>)
        requires
            old(self).inv(),
        ensures
            final(self).inv(),
            final(self).data() == old(self).data(),
            match r {
                Ok(bytes) => {
                    &&& bytes@.len() == vstd::math::min(
                        count as int,
                        old(self).data().len() - old(self).cursor(),
                    )
                    &&& bytes@ == old(self).data().subrange(
                        old(self).cursor(),
                        old(self).cursor() + bytes@.len(),
                    )
                    &&& final(self).cursor() == old(self).cursor() + bytes@.len()
                },
                Err(e) => e.kind == ErrorKind::Io,
            },
    ;

    /// Reads one line as [`spec_read_line`] describes.
    fn read_line(&mut self) -> (r: Result<Vec<u8>, Error>)
        requires
            old(self).inv(),
        ensures
            final(self).inv(),
            final(self).data() == old(self).data(),
            match r {
                Ok(line) => {
                    &&& spec_read_line(old(self).data(), old(self).cursor()) matches Some(p)
                    &&& line@ == spec_read_line(old(self).data(), old(self).cursor()).unwrap().0
                    &&& final(self).cursor() == spec_read_line(
                        old(self).data(),
                        old(self).cursor(),
                    ).unwrap().1
                },
                Err(e) => e.kind == ErrorKind::Io || (e.kind == ErrorKind::EndOfInput
                    && spec_read_line(old(self).data(), old(self).cursor()) is None),
            },
    ;

    /// Positions the cursor at `pos`, clamped to the content's length.
    fn seek(&mut self, pos: u64) -> (r: Result<u64, Error>)
        requires
            old(self).inv(),
        ensures
            final(self).inv(),
            final(self).data() == old(self).data(),
            match r {
                Ok(p) => final(self).cursor() == vstd::math::min(
                    pos as int,
                    old(self).data().len() as int,
                ) && p as int == final(self).cursor(),
                Err(e) => e.kind == ErrorKind::Io,
            },
    ;

    /// The total byte length of the content.
    fn size(&self) -> (r: Result<u64, Error>)
        requires
            self.inv(),
        ensures
            match r {
                Ok(n) => n as int == self.data().len(),
                Err(e) => e.kind == ErrorKind::Io,
            },
    ;
}

/// An in-memory byte source; every operation succeeds.
pub struct MemorySequence {
    bytes: Vec<u8>,
    pos: usize,
}

impl MemorySequence {
    /// Wraps a byte vector into a source whose cursor starts at zero.
    pub fn new(bytes: Vec<u8>) -> (s: MemorySequence)
        ensures
            s.inv(),
            s.data() == bytes@,
            s.cursor() == 0,
    {
        MemorySequence { bytes, pos: 0 }
    }
}

impl Sequence for MemorySequence {
    closed spec fn data(&self) -> Seq<u8> {
        self.bytes@
    }

    closed spec fn cursor(&self) -> int {
        self.pos as int
    }

    closed spec fn inv(&self) -> bool {
        self.pos <= self.bytes@.len()
    }

    proof fn lemma_inv_bounds(&self) {
    }

    fn read(&mut self, count: usize) -> (r: Result<Vec<u8>, Error>) {
        let len = self.bytes.len();
        let avail = len - self.pos;
        let n = if count < avail {
            count
        } else {
            avail
        };
        let mut out: Vec<u8> = Vec::new();
        let mut j: usize = 0;
        while j < n
            invariant
                len == self.bytes@.len(),
                self.pos + n <= len,
                0 <= j <= n,
                out@.len() == j,
                out@ == self.bytes@.subrange(self.pos as int, self.pos + j),
            decreases n - j,
        {
            out.push(self.bytes[self.pos + j]);
            proof {
                assert(out@ =~= self.bytes@.subrange(self.pos as int, self.pos + j + 1));
            }
            j = j + 1;
        }
        self.pos = self.pos + n;
        Ok(out)
    }

    fn read_line(&mut self) -> (r: Result<Vec<u8>, Error>) {
        let ghost data = self.bytes@;
        let ghost pos0 = self.pos as int;
        let len = self.bytes.len();
        while self.pos < len && line_ending_at(&self.bytes, self.pos)
            invariant
                self.bytes@ == data,
                len == data.len(),
                pos0 <= self.pos <= len,
                skip_eols(data, pos0) == skip_eols(data, self.pos as int),
            decreases len - self.pos,
        {
            self.pos = self.pos + 1;
        }
        let start = self.pos;
        proof {
            assert(skip_eols(data, start as int) == start);
        }
        if start == len {
            return Err(Error::new(ErrorKind::EndOfInput));
        }
        let mut end: usize = start;
        while end < len && !line_ending_at(&self.bytes, end)
            invariant
                self.bytes@ == data,
                len == data.len(),
                start <= end <= len,
                self.pos == start,
                find_eol(data, start as int) == find_eol(data, end as int),
            decreases len - end,
        {
            end = end + 1;
        }
        proof {
            assert(find_eol(data, end as int) == end);
        }
        if end == len {
            self.pos = end;
            return Err(Error::new(ErrorKind::EndOfInput));
        }
        let mut line: Vec<u8> = Vec::new();
        let mut j: usize = start;
        while j < end
            invariant
                self.bytes@ == data,
                start <= j <= end <= len,
                len == data.len(),
                line@ == data.subrange(start as int, j as int),
            decreases end - j,
        {
            line.push(self.bytes[j]);
            proof {
                assert(line@ =~= data.subrange(start as int, j + 1));
            }
            j = j + 1;
        }
        self.pos = end;
        while self.pos < len && line_ending_at(&self.bytes, self.pos)
            invariant
                self.bytes@ == data,
                len == data.len(),
                end <= self.pos <= len,
                skip_eols(data, end as int) == skip_eols(data, self.pos as int),
            decreases len - self.pos,
        {
            self.pos = self.pos + 1;
        }
        proof {
            assert(skip_eols(data, self.pos as int) == self.pos);
        }
        Ok(line)
    }

    fn seek(&mut self, pos: u64) -> (r: Result<u64, Error>) {
        let len = self.bytes.len() as u64;
        let p = if pos < len {
            pos
        } else {
            len
        };
        self.pos = p as usize;
        Ok(p)
    }

    fn size(&self) -> (r: Result<u64, Error>) {
        Ok(self.bytes.len() as u64)
    }
}

/// Whether the byte of `bytes` at `i` is a line ending.
fn line_ending_at(bytes: &Vec<u8>, i: usize) -> (r: bool)
    requires
        i < bytes@.len(),
    ensures
        r == is_line_ending(bytes@[i as int]),
{
    let b = bytes[i];
    b == 10 || b == 13
}

} // verus!
