//! Reading the rating out of a packet's text.
//!
//! The extractor works on the packet's bytes. Every byte it looks for (the
//! marker, line breaks, `=`, `>`, `<`, digits) is ASCII, and in UTF-8 no byte
//! of a multi-byte character is ASCII, so bytes that are not valid UTF-8 are
//! simply passed over, as a lossy decode would pass over its replacement
//! characters.
use vstd::prelude::*;
use vstd::slice::slice_to_vec;

verus! {

/// The rating field's marker, `xmp:Rating`.
pub open spec fn marker() -> Seq<u8> {
    seq![120u8, 109u8, 112u8, 58u8, 82u8, 97u8, 116u8, 105u8, 110u8, 103u8]
}

/// `\n`
pub const NEWLINE: u8 = 10;

/// `\r`
pub const CARRIAGE_RETURN: u8 = 13;

/// `=`
pub const EQUALS: u8 = 61;

/// `>`
pub const GREATER: u8 = 62;

/// `<`
pub const LESS: u8 = 60;

/// The marker starts at position `i` of `s`.
pub open spec fn marker_at(s: Seq<u8>, i: int) -> bool {
    0 <= i && i + marker().len() <= s.len() && s.subrange(i, i + marker().len()) == marker()
}

/// The first start of the marker at or after `from`.
pub open spec fn find_marker(s: Seq<u8>, from: int) -> Option<int>
    decreases s.len() - from,
{
    if from < 0 || from + marker().len() > s.len() {
        None
    } else if marker_at(s, from) {
        Some(from)
    } else {
        find_marker(s, from + 1)
    }
}

/// The first position at or after `from` holding `b`, or `s.len()`.
pub open spec fn find_byte(s: Seq<u8>, b: u8, from: int) -> int
    decreases s.len() - from,
{
    if from >= s.len() {
        s.len() as int
    } else if s[from] == b {
        from
    } else {
        find_byte(s, b, from + 1)
    }
}

/// Where the line holding position `i` starts: just after the last line
/// break before `i`, or at 0.
pub open spec fn line_start(s: Seq<u8>, i: int) -> int
    decreases i,
{
    if i <= 0 {
        0
    } else if s[i - 1] == NEWLINE {
        i
    } else {
        line_start(s, i - 1)
    }
}

/// Where the line holding position `i` ends: at the next line break, or
/// before the carriage return of a `\r\n` break, or at the end of `s`.
pub open spec fn line_end(s: Seq<u8>, i: int) -> int {
    let e = find_byte(s, NEWLINE, i);
    if e < s.len() && e > i && s[e - 1] == CARRIAGE_RETURN {
        e - 1
    } else {
        e
    }
}

/// The first line of `s` that holds the marker, without its line break.
pub open spec fn rating_line(s: Seq<u8>) -> Option<Seq<u8>> {
    match find_marker(s, 0) {
        Some(m) => Some(s.subrange(line_start(s, m), line_end(s, m))),
        None => None,
    }
}

/// The text of a line that holds the value: everything after the first `=`
/// when there is one, else what lies between the first `>` and the next `<`
/// (or the line's end), else nothing.
pub open spec fn value_text(line: Seq<u8>) -> Seq<u8> {
    let eq = find_byte(line, EQUALS, 0);
    if eq < line.len() {
        line.subrange(eq + 1, line.len() as int)
    } else {
        let gt = find_byte(line, GREATER, 0);
        if gt < line.len() {
            line.subrange(gt + 1, find_byte(line, LESS, gt + 1))
        } else {
            Seq::empty()
        }
    }
}

pub open spec fn is_digit(b: u8) -> bool {
    48 <= b <= 57
}

/// The decimal digits of `t`, in order.
pub open spec fn digits(t: Seq<u8>) -> Seq<u8>
    decreases t.len(),
{
    if t.len() == 0 {
        t
    } else if is_digit(t.last()) {
        digits(t.drop_last()).push(t.last())
    } else {
        digits(t.drop_last())
    }
}

/// The number that a string of decimal digits spells.
pub open spec fn decimal(d: Seq<u8>) -> nat
    decreases d.len(),
{
    if d.len() == 0 {
        0
    } else {
        decimal(d.drop_last()) * 10 + (d.last() - 48) as nat
    }
}

/// The largest rating, `i32::MAX`.
pub const MAX_RATING: u32 = 2147483647;

/// The rating of a packet: 0 when no line holds the marker; else the digits
/// of that line's value read as a number, or that line as the error when
/// there are no digits or the number is larger than `MAX_RATING`.
pub open spec fn rating_of(packet: Seq<u8>) -> Result<int, Seq<u8>> {
    match rating_line(packet) {
        None => Ok(0),
        Some(line) => {
            let d = digits(value_text(line));
            if d.len() > 0 && decimal(d) <= MAX_RATING {
                Ok(decimal(d) as int)
            } else {
                Err(line)
            }
        },
    }
}

/// A rating line whose value could not be read.
#[derive(Debug, PartialEq, Eq)]
pub struct ParseError {
    pub line: Vec<u8>,
}

/// The rating or the offending line, as plain values.
pub open spec fn result_view(r: Result<i32, ParseError>) -> Result<int, Seq<u8>> {
    match r {
        Ok(v) => Ok(v as int),
        Err(e) => Err(e.line@),
    }
}

/// Equal packets have equal ratings: the extractor depends on the packet's
/// bytes alone.
pub proof fn extraction_is_deterministic(a: Seq<u8>, b: Seq<u8>)
    requires
        a == b,
    ensures
        rating_of(a) == rating_of(b),
{
}

proof fn lemma_marker_len()
    ensures
        marker().len() == 10,
{
}

/// Whether the marker starts at `i`.
fn marker_at_exec(s: &[u8], i: usize) -> (r: bool)
    requires
        i + 10 <= s@.len(),
    ensures
        r == marker_at(s@, i as int),
{
    proof {
        lemma_marker_len();
    }
    let m: [u8; 10] = [120u8, 109u8, 112u8, 58u8, 82u8, 97u8, 116u8, 105u8, 110u8, 103u8];
    assert(m@ =~= marker());
    let len = s.len();
    let mut j: usize = 0;
    while j < 10
        invariant
            len == s@.len(),
            i + 10 <= s@.len(),
            m@ == marker(),
            j <= 10,
            forall|k: int| 0 <= k < j ==> s@[i + k] == marker()[k],
        decreases 10 - j,
    {
        if s[i + j] != m[j] {
            assert(s@.subrange(i as int, i + 10)[j as int] != marker()[j as int]);
            return false;
        }
        j += 1;
    }
    assert(s@.subrange(i as int, i + 10) =~= marker());
    true
}

/// The first start of the marker in `s`.
fn find_marker_exec(s: &[u8]) -> (r: Option<usize>)
    ensures
        match r {
            Some(m) => find_marker(s@, 0) == Some(m as int) && m + 10 <= s@.len(),
            None => find_marker(s@, 0) is None,
        },
{
    proof {
        lemma_marker_len();
    }
    let len = s.len();
    if len < 10 {
        return None;
    }
    let mut m: usize = 0;
    while m <= len - 10
        invariant
            len == s@.len(),
            len >= 10,
            m <= len - 9,
            find_marker(s@, 0) == find_marker(s@, m as int),
        decreases len - m,
    {
        if marker_at_exec(s, m) {
            return Some(m);
        }
        m += 1;
    }
    None
}

/// The first position at or after `from` holding `b`, or `s.len()`.
fn find_byte_exec(s: &[u8], b: u8, from: usize) -> (r: usize)
    requires
        from <= s@.len(),
    ensures
        r == find_byte(s@, b, from as int),
        from <= r <= s@.len(),
{
    let mut i = from;
    while i < s.len()
        invariant
            from <= i <= s@.len(),
            find_byte(s@, b, from as int) == find_byte(s@, b, i as int),
        decreases s@.len() - i,
    {
        if s[i] == b {
            return i;
        }
        i += 1;
    }
    i
}

/// The digits of `t` read as a number; `None` when there are none or the
/// number is larger than `MAX_RATING`.
fn parse_digits(t: &[u8]) -> (r: Option<i32>)
    ensures
        match r {
            Some(v) => digits(t@).len() > 0 && decimal(digits(t@)) <= MAX_RATING && v == decimal(
                digits(t@),
            ),
            None => digits(t@).len() == 0 || decimal(digits(t@)) > MAX_RATING,
        },
{
    let mut value: u32 = 0;
    let mut any = false;
    let mut too_large = false;
    let mut i: usize = 0;
    assert(t@.take(0) =~= Seq::<u8>::empty());
    while i < t.len()
        invariant
            i <= t@.len(),
            any == (digits(t@.take(i as int)).len() > 0),
            too_large ==> decimal(digits(t@.take(i as int))) > MAX_RATING,
            !too_large ==> value == decimal(digits(t@.take(i as int))) && value <= MAX_RATING,
        decreases t@.len() - i,
    {
        let b = t[i];
        let ghost before = t@.take(i as int);
        let ghost after = t@.take(i + 1int);
        assert(after.drop_last() =~= before);
        assert(after.last() == b);
        if 48 <= b && b <= 57 {
            let ghost d0 = digits(before);
            assert(digits(after) == d0.push(b));
            assert(d0.push(b).drop_last() =~= d0);
            assert(decimal(d0.push(b)) == decimal(d0) * 10 + (b - 48) as nat);
            any = true;
            let d = (b - 48) as u32;
            if !too_large {
                if value > (MAX_RATING - d) / 10 {
                    too_large = true;
                    assert(value * 10 + d > MAX_RATING) by (nonlinear_arith)
                        requires
                            value > (MAX_RATING - d) / 10,
                            d <= 9,
                    ;
                } else {
                    assert(value * 10 + d <= MAX_RATING) by (nonlinear_arith)
                        requires
                            value <= (MAX_RATING - d) / 10,
                            d <= 9,
                    ;
                    value = value * 10 + d;
                }
            }
        } else {
            assert(digits(after) == digits(before));
        }
        i += 1;
    }
    assert(t@.take(t@.len() as int) =~= t@);
    if any && !too_large {
        Some(value as i32)
    } else {
        None
    }
}

/// The rating of a packet, or the line whose value could not be read.
pub fn extract_rating(packet: &[u8]) -> (r: Result<i32, ParseError>)
    ensures
        result_view(r) == rating_of(packet@),
{
    proof {
        lemma_marker_len();
    }
    let len = packet.len();
    let m = match find_marker_exec(packet) {
        Some(m) => m,
        None => {
            return Ok(0);
        },
    };
    let mut start = m;
    while start > 0 && packet[start - 1] != NEWLINE
        invariant
            start <= m,
            m < len == packet@.len(),
            line_start(packet@, start as int) == line_start(packet@, m as int),
        decreases start,
    {
        start -= 1;
    }
    let nl = find_byte_exec(packet, NEWLINE, m);
    let end = if nl < len && nl > m && packet[nl - 1] == CARRIAGE_RETURN {
        nl - 1
    } else {
        nl
    };
    let line = vstd::slice::slice_subrange(packet, start, end);
    let eq = find_byte_exec(line, EQUALS, 0);
    let value: &[u8] = if eq < line.len() {
        vstd::slice::slice_subrange(line, eq + 1, line.len())
    } else {
        let gt = find_byte_exec(line, GREATER, 0);
        if gt < line.len() {
            let lt = find_byte_exec(line, LESS, gt + 1);
            vstd::slice::slice_subrange(line, gt + 1, lt)
        } else {
            vstd::slice::slice_subrange(line, 0, 0)
        }
    };
    match parse_digits(value) {
        Some(v) => Ok(v),
        None => Err(ParseError { line: slice_to_vec(line) }),
    }
}

} // verus!
