use vstd::prelude::*;

verus! {

/// CR and LF are the line-ending bytes of PDF files.
pub open spec fn is_line_ending(b: u8) -> bool {
    b == 10 || b == 13
}

/// Whether `b` is an ASCII decimal digit.
pub open spec fn is_digit(b: u8) -> bool {
    48 <= b <= 57
}

/// Every byte of `s` is an ASCII decimal digit.
pub open spec fn all_digits(s: Seq<u8>) -> bool {
    forall|i: int| 0 <= i < s.len() ==> is_digit(#[trigger] s[i])
}

/// The value of the big-endian decimal digit string `s`.
pub open spec fn digits_value(s: Seq<u8>) -> int
    decreases s.len(),
{
    if s.len() == 0 {
        0
    } else {
        digits_value(s.drop_last()) * 10 + (s.last() - 48)
    }
}

/// The number of line-ending bytes at the front of `s`.
pub open spec fn leading_line_endings(s: Seq<u8>) -> int
    decreases s.len(),
{
    if s.len() == 0 || !is_line_ending(s[0]) {
        0
    } else {
        1 + leading_line_endings(s.skip(1))
    }
}

/// A digit string's value is not negative.
pub proof fn lemma_digits_value_nonneg(s: Seq<u8>)
    requires
        all_digits(s),
    ensures
        digits_value(s) >= 0,
    decreases s.len(),
{
    if s.len() > 0 {
        assert(all_digits(s.drop_last()));
        lemma_digits_value_nonneg(s.drop_last());
    }
}

/// Dropping trailing digits never makes the value larger.
pub proof fn lemma_digits_value_prefix(s: Seq<u8>, i: int)
    requires
        all_digits(s),
        0 <= i <= s.len(),
    ensures
        digits_value(s.take(i)) <= digits_value(s),
    decreases s.len() - i,
{
    if i < s.len() {
        lemma_digits_value_prefix(s, i + 1);
        let t = s.take(i + 1);
        assert(t.drop_last() =~= s.take(i));
        lemma_digits_value_nonneg(s.take(i));
        assert(all_digits(t)) by {
            assert(forall|j: int| 0 <= j < t.len() ==> t[j] == s[j]);
        }
        lemma_digits_value_nonneg(t);
    } else {
        assert(s.take(i) =~= s);
    }
}

/// Ten to the `n`.
pub open spec fn pow10(n: nat) -> int
    decreases n,
{
    if n == 0 {
        1
    } else {
        10 * pow10((n - 1) as nat)
    }
}

/// A digit string's value lies below ten to its length.
pub proof fn lemma_digits_value_bound(s: Seq<u8>)
    requires
        all_digits(s),
    ensures
        0 <= digits_value(s) < pow10(s.len()),
    decreases s.len(),
{
    if s.len() > 0 {
        assert(all_digits(s.drop_last()));
        lemma_digits_value_bound(s.drop_last());
    }
}

/// Whether `b` is a UTF-8 continuation byte.
pub open spec fn is_utf8_continuation(b: u8) -> bool {
    0x80 <= b <= 0xBF
}

/// Whether `s` is well-formed UTF-8: every scalar is shortest-encoded, no
/// surrogate is encoded, and no sequence is truncated.
pub open spec fn utf8_well_formed(s: Seq<u8>) -> bool
    decreases s.len(),
{
    if s.len() == 0 {
        true
    } else {
        let b0 = s[0];
        if b0 < 0x80 {
            utf8_well_formed(s.skip(1))
        } else if 0xC2 <= b0 <= 0xDF {
            s.len() >= 2 && is_utf8_continuation(s[1]) && utf8_well_formed(s.skip(2))
        } else if b0 == 0xE0 {
            s.len() >= 3 && 0xA0 <= s[1] <= 0xBF && is_utf8_continuation(s[2])
                && utf8_well_formed(s.skip(3))
        } else if 0xE1 <= b0 <= 0xEC || b0 == 0xEE || b0 == 0xEF {
            s.len() >= 3 && is_utf8_continuation(s[1]) && is_utf8_continuation(s[2])
                && utf8_well_formed(s.skip(3))
        } else if b0 == 0xED {
            s.len() >= 3 && 0x80 <= s[1] <= 0x9F && is_utf8_continuation(s[2])
                && utf8_well_formed(s.skip(3))
        } else if b0 == 0xF0 {
            s.len() >= 4 && 0x90 <= s[1] <= 0xBF && is_utf8_continuation(s[2])
                && is_utf8_continuation(s[3]) && utf8_well_formed(s.skip(4))
        } else if 0xF1 <= b0 <= 0xF3 {
            s.len() >= 4 && is_utf8_continuation(s[1]) && is_utf8_continuation(s[2])
                && is_utf8_continuation(s[3]) && utf8_well_formed(s.skip(4))
        } else if b0 == 0xF4 {
            s.len() >= 4 && 0x80 <= s[1] <= 0x8F && is_utf8_continuation(s[2])
                && is_utf8_continuation(s[3]) && utf8_well_formed(s.skip(4))
        } else {
            false
        }
    }
}

/// Whether the bytes of `v` are well-formed UTF-8.
pub fn utf8_check(v: &Vec<u8>) -> (r: bool)
    ensures
        r == utf8_well_formed(v@),
{
    let len = v.len();
    let mut i: usize = 0;
    proof {
        assert(v@.skip(0) =~= v@);
    }
    while i < len
        invariant
            0 <= i <= len,
            len == v@.len(),
            utf8_well_formed(v@) == utf8_well_formed(v@.skip(i as int)),
        decreases len - i,
    {
        let b0 = v[i];
        let width: usize = if b0 < 0x80 {
            1
        } else if 0xC2 <= b0 && b0 <= 0xDF {
            if !(i + 1 < len && is_cont(v[i + 1])) {
                return false;
            }
            2
        } else if 0xE0 <= b0 && b0 <= 0xEF {
            if !(len - i > 2 && is_cont(v[i + 2])) {
                return false;
            }
            let b1 = v[i + 1];
            let ok = if b0 == 0xE0 {
                0xA0 <= b1 && b1 <= 0xBF
            } else if b0 == 0xED {
                0x80 <= b1 && b1 <= 0x9F
            } else {
                is_cont(b1)
            };
            if !ok {
                return false;
            }
            3
        } else if 0xF0 <= b0 && b0 <= 0xF4 {
            if !(len - i > 3 && is_cont(v[i + 2]) && is_cont(v[i + 3])) {
                return false;
            }
            let b1 = v[i + 1];
            let ok = if b0 == 0xF0 {
                0x90 <= b1 && b1 <= 0xBF
            } else if b0 == 0xF4 {
                0x80 <= b1 && b1 <= 0x8F
            } else {
                is_cont(b1)
            };
            if !ok {
                return false;
            }
            4
        } else {
            return false;
        };
        proof {
            assert(v@.skip(i as int).skip(width as int) =~= v@.skip(i + width));
        }
        i = i + width;
    }
    proof {
        assert(v@.skip(len as int).len() == 0);
    }
    true
}

/// Whether `b` is a UTF-8 continuation byte.
fn is_cont(b: u8) -> (r: bool)
    ensures
        r == is_utf8_continuation(b),
{
    0x80 <= b && b <= 0xBF
}

/// Whether `b` is a line-ending byte.
pub fn line_ending(b: u8) -> (r: bool)
    ensures
        r == is_line_ending(b),
{
    b == 10 || b == 13
}

/// The value of a decimal digit string that is known to fit in a `u64`.
pub fn literal_to_u64(bytes: &[u8]) -> (value: u64)
    requires
        all_digits(bytes@),
        digits_value(bytes@) <= u64::MAX,
    ensures
        value == digits_value(bytes@),
{
    let len = bytes.len();
    let mut value: u64 = 0;
    let mut i: usize = 0;
    while i < len
        invariant
            all_digits(bytes@),
            digits_value(bytes@) <= u64::MAX,
            0 <= i <= len,
            len == bytes@.len(),
            value == digits_value(bytes@.take(i as int)),
        decreases len - i,
    {
        let b = bytes[i];
        proof {
            lemma_digits_value_prefix(bytes@, i + 1);
            assert(bytes@.take(i + 1).drop_last() =~= bytes@.take(i as int));
            lemma_digits_value_nonneg(bytes@.take(i as int));
        }
        value = value * 10 + ((b - 48) as u64);
        i = i + 1;
    }
    proof {
        assert(bytes@.take(len as int) =~= bytes@);
    }
    value
}

/// The value of a decimal digit string, or `None` where it exceeds `u64::MAX`.
pub fn literal_to_u64_checked(bytes: &[u8]) -> (r: Option<u64>)
    requires
        all_digits(bytes@),
    ensures
        match r {
            Some(value) => value == digits_value(bytes@) && digits_value(bytes@) <= u64::MAX,
            None => digits_value(bytes@) > u64::MAX,
        },
{
    let len = bytes.len();
    let mut value: u64 = 0;
    let mut i: usize = 0;
    while i < len
        invariant
            all_digits(bytes@),
            0 <= i <= len,
            len == bytes@.len(),
            value == digits_value(bytes@.take(i as int)),
        decreases len - i,
    {
        let b = bytes[i];
        proof {
            assert(bytes@.take(i + 1).drop_last() =~= bytes@.take(i as int));
            lemma_digits_value_nonneg(bytes@.take(i as int));
        }
        let shifted = match value.checked_mul(10) {
            Some(s) => s,
            None => {
                proof {
                    lemma_digits_value_prefix(bytes@, i + 1);
                }
                return None;
            },
        };
        value = match shifted.checked_add((b - 48) as u64) {
            Some(s) => s,
            None => {
                proof {
                    lemma_digits_value_prefix(bytes@, i + 1);
                }
                return None;
            },
        };
        i = i + 1;
    }
    proof {
        assert(bytes@.take(len as int) =~= bytes@);
    }
    Some(value)
}

/// How many line-ending bytes stand at the front of `bytes`.
pub fn count_leading_line_endings(bytes: &[u8]) -> (count: u64)
    ensures
        count == leading_line_endings(bytes@),
{
    let len = bytes.len();
    let mut count: u64 = 0;
    let mut i: usize = 0;
    proof {
        assert(bytes@.skip(0) =~= bytes@);
    }
    while i < len
        invariant
            0 <= i <= len,
            len == bytes@.len(),
            count == i,
            leading_line_endings(bytes@) == i as int + leading_line_endings(bytes@.skip(i as int)),
        decreases len - i,
    {
        if !line_ending(bytes[i]) {
            proof {
                assert(leading_line_endings(bytes@.skip(i as int)) == 0);
            }
            return count;
        }
        proof {
            assert(bytes@.skip(i as int).skip(1) =~= bytes@.skip(i + 1));
            assert(leading_line_endings(bytes@.skip(i as int)) == 1 + leading_line_endings(
                bytes@.skip(i + 1),
            ));
        }
        count = count + 1;
        i = i + 1;
    }
    proof {
        assert(bytes@.skip(len as int).len() == 0);
    }
    count
}

} // verus!
