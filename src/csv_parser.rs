//! Quote-aware splitting of CSV bytes into lines and of a line into fields.
//! Both splitters hand out sub-slices of their input and never allocate.
use vstd::prelude::*;
use vstd::slice::slice_subrange;
use vstd::utf8::{decode_utf8, valid_utf8};

use crate::text::utf8_str;

verus! {

pub const QUOTE: u8 = 34;

pub const NEWLINE: u8 = 10;

pub const COMMA: u8 = 44;

/// Position of the first newline at or after `i` that stands outside quotes,
/// where `quoted` says whether a quote is open at `i`; `b.len()` if none.
pub open spec fn line_break(b: Seq<u8>, i: int, quoted: bool) -> int
    decreases b.len() - i,
{
    if i >= b.len() {
        b.len() as int
    } else if b[i] == QUOTE {
        line_break(b, i + 1, !quoted)
    } else if b[i] == NEWLINE && !quoted {
        i
    } else {
        line_break(b, i + 1, quoted)
    }
}

/// The lines of `b`, terminators excluded; an unterminated tail is the last
/// line, and empty input has no lines.
pub open spec fn lines_of(b: Seq<u8>) -> Seq<Seq<u8>>
    decreases b.len(),
{
    if b.len() == 0 {
        seq![]
    } else {
        let k = line_break(b, 0, false);
        if 0 <= k < b.len() {
            seq![b.subrange(0, k)] + lines_of(b.subrange(k + 1, b.len() as int))
        } else {
            seq![b]
        }
    }
}

/// Scans one field from `i`: the position of the first delimiter outside
/// quotes (or `b.len()`), and the number of quoted stretches closed by then.
pub open spec fn field_scan(b: Seq<u8>, del: u8, i: int, quoted: bool, closed: int) -> (int, int)
    decreases b.len() - i,
{
    if i >= b.len() {
        (b.len() as int, closed)
    } else if b[i] == QUOTE {
        field_scan(b, del, i + 1, !quoted, if quoted { closed + 1 } else { closed })
    } else if b[i] == del && !quoted {
        (i, closed)
    } else {
        field_scan(b, del, i + 1, quoted, closed)
    }
}

/// The first field of `b`: its bytes up to the delimiter, with as many bytes
/// cut from each end as quoted stretches were closed in it.
pub open spec fn first_field(b: Seq<u8>, del: u8) -> Seq<u8> {
    let (e, closed) = field_scan(b, del, 0, false, 0);
    b.subrange(closed, e - closed)
}

/// The fields of one line; the last field has no delimiter after it, so even
/// empty input has one (empty) field.
pub open spec fn fields_of(b: Seq<u8>, del: u8) -> Seq<Seq<u8>>
    decreases b.len(),
{
    let (e, closed) = field_scan(b, del, 0, false, 0);
    if 0 <= e < b.len() {
        seq![first_field(b, del)] + fields_of(b.subrange(e + 1, b.len() as int), del)
    } else {
        seq![first_field(b, del)]
    }
}

proof fn lemma_field_scan_bounds(b: Seq<u8>, del: u8, i: int, quoted: bool, closed: int)
    requires
        0 <= i <= b.len(),
    ensures
        i <= field_scan(b, del, i, quoted, closed).0 <= b.len(),
    decreases b.len() - i,
{
    if i < b.len() {
        if b[i] == QUOTE {
            lemma_field_scan_bounds(b, del, i + 1, !quoted, if quoted { closed + 1 } else { closed });
        } else if !(b[i] == del && !quoted) {
            lemma_field_scan_bounds(b, del, i + 1, quoted, closed);
        }
    }
}

/// A line of `n` bytes has between one and `n + 1` fields.
pub proof fn lemma_fields_len(b: Seq<u8>, del: u8)
    ensures
        1 <= fields_of(b, del).len() <= b.len() + 1,
    decreases b.len(),
{
    lemma_field_scan_bounds(b, del, 0, false, 0);
    let (e, closed) = field_scan(b, del, 0, false, 0);
    if 0 <= e < b.len() {
        lemma_fields_len(b.subrange(e + 1, b.len() as int), del);
    }
}

/// Finds where the first line of `b` ends.
fn find_line_break(b: &[u8]) -> (k: usize)
    ensures
        k == line_break(b@, 0, false),
        k <= b@.len(),
{
    let n = b.len();
    let mut i: usize = 0;
    let mut quoted = false;
    loop
        invariant
            i <= n,
            n == b@.len(),
            line_break(b@, i as int, quoted) == line_break(b@, 0, false),
        decreases n - i,
    {
        if i == n {
            return n;
        }
        let byte = b[i];
        if byte == NEWLINE && !quoted {
            return i;
        }
        if byte == QUOTE {
            quoted = !quoted;
        }
        i += 1;
    }
}

/// Finds where the first field of `b` ends and how many quoted stretches
/// were closed in it.
fn scan_field(b: &[u8], del: u8) -> (r: (usize, usize))
    ensures
        (r.0 as int, r.1 as int) == field_scan(b@, del, 0, false, 0),
        2 * r.1 <= r.0 <= b@.len(),
{
    let n = b.len();
    let mut i: usize = 0;
    let mut quoted = false;
    let mut closed: usize = 0;
    loop
        invariant
            i <= n,
            n == b@.len(),
            2 * closed + (if quoted { 1int } else { 0int }) <= i,
            field_scan(b@, del, i as int, quoted, closed as int) == field_scan(b@, del, 0, false, 0),
        decreases n - i,
    {
        if i == n {
            return (n, closed);
        }
        let byte = b[i];
        if byte == QUOTE {
            if quoted {
                closed += 1;
            }
            quoted = !quoted;
        } else if byte == del && !quoted {
            return (i, closed);
        }
        i += 1;
    }
}

/// The bytes of a field ending at `end`, with `border` bytes cut from each end.
fn slice_bytes<'a>(bytes: &'a [u8], border: usize, end: usize) -> (r: &'a [u8])
    requires
        2 * border <= end <= bytes@.len(),
    ensures
        r@ == bytes@.subrange(border as int, end - border),
{
    slice_subrange(bytes, border, end - border)
}

/// Decodes `bytes` as UTF-8 text; `None` when there are no bytes or they are
/// not valid UTF-8.
pub fn to_str(bytes: Option<&[u8]>) -> (r: Option<&str>)
    ensures
        r is Some <==> (bytes matches Some(b) && valid_utf8(b@)),
        r matches Some(s) ==> bytes matches Some(b) && s@ == decode_utf8(b@),
{
    match bytes {
        Some(b) => utf8_str(b),
        None => None,
    }
}

/// Hands out the lines of a byte slice one at a time.
pub struct LineSplitter<'a> {
    bytes: &'a [u8],
    finish: bool,
}

impl<'a> LineSplitter<'a> {
    /// The lines that are still to come.
    pub closed spec fn pending(&self) -> Seq<Seq<u8>> {
        if self.finish {
            seq![]
        } else {
            lines_of(self.bytes@)
        }
    }

    pub fn from_bytes(bytes: &'a [u8]) -> (r: Self)
        ensures
            r.pending() == lines_of(bytes@),
    {
        let finish = false;
        Self { bytes, finish }
    }

    /// The next line, without its terminator; `None` once all are out.
    pub fn next(&mut self) -> (r: Option<&'a [u8]>)
        ensures
            old(self).pending().len() == 0 ==> r is None && final(self).pending() == old(self).pending(),
            old(self).pending().len() > 0 ==> (r matches Some(line) && line@ == old(self).pending()[0]),
            old(self).pending().len() > 0 ==> final(self).pending() == old(self).pending().drop_first(),
    {
        if self.finish {
            return None;
        }
        let b = self.bytes;
        if b.len() == 0 {
            return None;
        }
        let k = find_line_break(b);
        if k == b.len() {
            self.finish = true;
            return Some(b);
        }
        let line = slice_subrange(b, 0, k);
        self.bytes = slice_subrange(b, k + 1, b.len());
        proof {
            assert(lines_of(b@) == seq![line@] + lines_of(self.bytes@));
            assert((seq![line@] + lines_of(self.bytes@)).drop_first() =~= lines_of(self.bytes@));
        }
        Some(line)
    }
}

/// Hands out the fields of one line one at a time, stripping the quotes
/// that wrap a quoted field.
pub struct FieldSplitter<'a> {
    bytes: &'a [u8],
    del: u8,
    finish: bool,
}

impl<'a> FieldSplitter<'a> {
    /// The fields that are still to come.
    pub closed spec fn pending(&self) -> Seq<Seq<u8>> {
        if self.finish {
            seq![]
        } else {
            fields_of(self.bytes@, self.del)
        }
    }

    pub fn from_bytes(bytes: &'a [u8]) -> (r: Self)
        ensures
            r.pending() == fields_of(bytes@, COMMA),
    {
        Self { bytes, del: COMMA, finish: false }
    }

    /// The next field; `None` once all are out.
    pub fn next(&mut self) -> (r: Option<&'a [u8]>)
        ensures
            old(self).pending().len() == 0 ==> r is None && final(self).pending() == old(self).pending(),
            old(self).pending().len() > 0 ==> (r matches Some(field) && field@ == old(self).pending()[0]),
            old(self).pending().len() > 0 ==> final(self).pending() == old(self).pending().drop_first(),
    {
        if self.finish {
            return None;
        }
        let b = self.bytes;
        let (e, closed) = scan_field(b, self.del);
        let field = slice_bytes(b, closed, e);
        if e == b.len() {
            self.finish = true;
        } else {
            self.bytes = slice_subrange(b, e + 1, b.len());
            proof {
                let rest = fields_of(self.bytes@, self.del);
                assert(fields_of(b@, self.del) == seq![field@] + rest);
                assert((seq![field@] + rest).drop_first() =~= rest);
            }
        }
        Some(field)
    }
}

/// The text of a field, or empty text where the field is not valid UTF-8.
pub open spec fn field_text(b: Seq<u8>) -> Seq<char> {
    if valid_utf8(b) {
        decode_utf8(b)
    } else {
        seq![]
    }
}

/// Hands out the fields of one line as text.
pub struct FieldIter<'a>(pub FieldSplitter<'a>);

impl<'a> FieldIter<'a> {
    pub fn from_bytes(bytes: &'a [u8]) -> (r: Self)
        ensures
            r.0.pending() == fields_of(bytes@, COMMA),
    {
        Self(FieldSplitter::from_bytes(bytes))
    }

    /// The text of the next field; `None` once all are out.
    pub fn next(&mut self) -> (r: Option<&'a str>)
        ensures
            old(self).0.pending().len() == 0 ==> r is None && final(self).0.pending() == old(self).0.pending(),
            old(self).0.pending().len() > 0 ==> (r matches Some(s) && s@ == field_text(old(self).0.pending()[0])),
            old(self).0.pending().len() > 0 ==> final(self).0.pending() == old(self).0.pending().drop_first(),
    {
        match self.0.next() {
            Some(b) => match utf8_str(b) {
                Some(s) => Some(s),
                None => {
                    let empty = "";
                    proof {
                        reveal_strlit("");
                    }
                    Some(empty)
                },
            },
            None => None,
        }
    }
}

} // verus!
