//! The command language typed by a user: `Filter <column> = <value>`
//! builds an equality filter; `Average` and the `<` and `>` comparisons are
//! recognised but not carried out.
use vstd::prelude::*;
use vstd::slice::slice_subrange;
use vstd::string::StringSliceAdditionalSpecFns;
use vstd::utf8::encode_utf8;

use crate::cells::MAX_MASK_BITS;
use crate::csv_parser::field_text;
use crate::filter::{equality_mask, Filter};
use crate::frame::{Frame, FrameError};
use crate::series::hashable;
use crate::text::text_or_empty;

verus! {

pub const SPACE: u8 = 32;

pub const EQUALS: u8 = 61;

pub const LESS: u8 = 60;

pub const GREATER: u8 = 62;

pub open spec fn is_space(c: u8) -> bool {
    c == 32 || c == 9 || c == 10 || c == 13
}

/// The number of whitespace bytes at the start of `s`.
pub open spec fn space_run(s: Seq<u8>) -> int
    decreases s.len(),
{
    if s.len() > 0 && is_space(s[0]) {
        1 + space_run(s.drop_first())
    } else {
        0
    }
}

pub open spec fn trim_start(s: Seq<u8>) -> Seq<u8> {
    s.skip(space_run(s))
}

/// The first position from `i` where `a` is followed by `b`; `s.len()` if none.
pub open spec fn find_pair(s: Seq<u8>, a: u8, b: u8, i: int) -> int
    decreases s.len() - i,
{
    if i < 0 || i + 1 >= s.len() {
        s.len() as int
    } else if s[i] == a && s[i + 1] == b {
        i
    } else {
        find_pair(s, a, b, i + 1)
    }
}

/// Where the comparison starts: the first ` =`, or else the first ` <`, or
/// else the first ` >`; `t.len()` if there is none.
pub open spec fn symbol_at(t: Seq<u8>) -> int {
    if find_pair(t, SPACE, EQUALS, 0) < t.len() {
        find_pair(t, SPACE, EQUALS, 0)
    } else if find_pair(t, SPACE, LESS, 0) < t.len() {
        find_pair(t, SPACE, LESS, 0)
    } else {
        find_pair(t, SPACE, GREATER, 0)
    }
}

/// The column and the value of an equality filter: after optional
/// whitespace, the column runs up to the comparison, and the value follows
/// `= ` after optional whitespace. `None` for anything else.
pub open spec fn filter_parts(input: Seq<u8>) -> Option<(Seq<u8>, Seq<u8>)> {
    let t = trim_start(input);
    let p = symbol_at(t);
    if p >= t.len() {
        None
    } else {
        let after = trim_start(t.skip(p));
        if after.len() >= 2 && after[0] == EQUALS && after[1] == SPACE {
            Some((t.take(p), after.skip(2)))
        } else {
            None
        }
    }
}

pub open spec fn filter_keyword() -> Seq<u8> {
    seq![70u8, 105u8, 108u8, 116u8, 101u8, 114u8]
}

pub open spec fn average_keyword() -> Seq<u8> {
    seq![65u8, 118u8, 101u8, 114u8, 97u8, 103u8, 101u8]
}

pub open spec fn starts_with(s: Seq<u8>, p: Seq<u8>) -> bool {
    p.len() <= s.len() && s.take(p.len() as int) == p
}

/// The frame has a column of that name (the first one is taken) that an
/// equality mask can be built on.
pub open spec fn filterable(frame: Frame, name: Seq<char>) -> bool {
    exists|i: int|
        0 <= i < frame.cols().len() && (#[trigger] frame.cols()[i]).name_view() == name && hashable(
            frame.cols()[i].code(),
        ) && frame.cols()[i].values().len() <= MAX_MASK_BITS && forall|k: int|
            0 <= k < i ==> (#[trigger] frame.cols()[k]).name_view() != name
}

/// A parsed command.
#[derive(Debug, PartialEq, Eq)]
pub enum ParsedCommand {
    EqualFilter(String, String),
    LessFilter(String, String),
    GreaterFilter(String, String),
    Average,
}

/// Input that the command language does not accept, from where it failed.
#[derive(Debug, PartialEq, Eq)]
pub struct CommandError {
    pub input: String,
}

fn skip_spaces(s: &[u8], from: usize) -> (r: usize)
    requires
        from <= s@.len(),
    ensures
        r == from + space_run(s@.skip(from as int)),
        r <= s@.len(),
{
    let n = s.len();
    let mut i = from;
    loop
        invariant
            n == s@.len(),
            from <= i <= n,
            space_run(s@.skip(from as int)) == (i - from) + space_run(s@.skip(i as int)),
        decreases n - i,
    {
        if i == n || !(s[i] == 32 || s[i] == 9 || s[i] == 10 || s[i] == 13) {
            proof {
                if i < n {
                    assert(s@.skip(i as int)[0] == s@[i as int]);
                }
            }
            return i;
        }
        proof {
            assert(s@.skip(i as int).drop_first() =~= s@.skip(i + 1));
        }
        i += 1;
    }
}

fn find_pair_in(s: &[u8], a: u8, b: u8) -> (r: usize)
    ensures
        r == find_pair(s@, a, b, 0),
        r <= s@.len(),
{
    let n = s.len();
    let mut i: usize = 0;
    loop
        invariant
            n == s@.len(),
            i <= n,
            find_pair(s@, a, b, i as int) == find_pair(s@, a, b, 0),
        decreases n - i,
    {
        if n - i <= 1 {
            return n;
        }
        if s[i] == a && s[i + 1] == b {
            return i;
        }
        i += 1;
    }
}

fn has_prefix(s: &[u8], p: &[u8]) -> (r: bool)
    ensures
        r == starts_with(s@, p@),
{
    if p.len() > s.len() {
        return false;
    }
    let mut i: usize = 0;
    while i < p.len()
        invariant
            p@.len() <= s@.len(),
            i <= p@.len(),
            forall|k: int| 0 <= k < i ==> s@[k] == p@[k],
        decreases p@.len() - i,
    {
        if s[i] != p[i] {
            assert(s@.take(p@.len() as int)[i as int] != p@[i as int]);
            return false;
        }
        i += 1;
    }
    assert(s@.take(p@.len() as int) =~= p@);
    true
}

/// The column and value of a filter, as bytes.
fn split_filter(input: &[u8]) -> (r: Option<(&[u8], &[u8])>)
    ensures
        filter_parts(input@) is None ==> r is None,
        filter_parts(input@) matches Some((c, v)) ==> (r matches Some((rc, rv)) && rc@ == c && rv@ == v),
{
    let start = skip_spaces(input, 0);
    let t = slice_subrange(input, start, input.len());
    proof {
        assert(input@.skip(0) =~= input@);
        assert(t@ =~= trim_start(input@));
    }
    let eq = find_pair_in(t, SPACE, EQUALS);
    let p = if eq < t.len() {
        eq
    } else {
        let lt = find_pair_in(t, SPACE, LESS);
        if lt < t.len() {
            lt
        } else {
            find_pair_in(t, SPACE, GREATER)
        }
    };
    if p >= t.len() {
        return None;
    }
    let rest = slice_subrange(t, p, t.len());
    let q = skip_spaces(rest, 0);
    proof {
        assert(rest@ =~= t@.skip(p as int));
        assert(rest@.skip(0) =~= rest@);
    }
    let after = slice_subrange(rest, q, rest.len());
    assert(after@ =~= trim_start(t@.skip(p as int)));
    if after.len() >= 2 && after[0] == EQUALS && after[1] == SPACE {
        let column = slice_subrange(t, 0, p);
        let value = slice_subrange(after, 2, after.len());
        assert(column@ =~= t@.take(p as int));
        assert(value@ =~= after@.skip(2));
        Some((column, value))
    } else {
        None
    }
}

/// Reads `Filter` or `Average` at the start of the input and returns the
/// rest of the input and the keyword.
pub fn parse_instruction(input: &str) -> (r: Result<(String, String), CommandError>)
    ensures
        starts_with(input.spec_bytes(), filter_keyword()) ==> (r matches Ok((rest, keyword)) && keyword@ == field_text(
            filter_keyword(),
        ) && rest@ == field_text(input.spec_bytes().skip(6))),
        !starts_with(input.spec_bytes(), filter_keyword()) && starts_with(input.spec_bytes(), average_keyword()) ==> (r matches Ok(
            (rest, keyword),
        ) && keyword@ == field_text(average_keyword()) && rest@ == field_text(input.spec_bytes().skip(7))),
        !starts_with(input.spec_bytes(), filter_keyword()) && !starts_with(input.spec_bytes(), average_keyword()) ==> (r matches Err(
            e,
        ) && e.input@ == input@),
{
    let b = input.as_bytes();
    let f: [u8; 6] = [70, 105, 108, 116, 101, 114];
    let a: [u8; 7] = [65, 118, 101, 114, 97, 103, 101];
    assert(f@ =~= filter_keyword());
    assert(a@ =~= average_keyword());
    if has_prefix(b, f.as_slice()) {
        let rest = text_or_empty(slice_subrange(b, 6, b.len()));
        let keyword = text_or_empty(f.as_slice());
        Ok((rest, keyword))
    } else if has_prefix(b, a.as_slice()) {
        let rest = text_or_empty(slice_subrange(b, 7, b.len()));
        let keyword = text_or_empty(a.as_slice());
        Ok((rest, keyword))
    } else {
        Err(CommandError { input: input.to_owned() })
    }
}

/// Reads `<column> = <value>`; the other comparisons are not accepted.
pub fn parse_filter(input: &str) -> (r: Result<(String, ParsedCommand), CommandError>)
    ensures
        r is Ok <==> filter_parts(input.spec_bytes()) is Some,
        filter_parts(input.spec_bytes()) matches Some((c, v)) ==> (r matches Ok((rest, ParsedCommand::EqualFilter(rc, rv)))
            && rest@.len() == 0 && rc@ == field_text(c) && rv@ == field_text(v)),
{
    match split_filter(input.as_bytes()) {
        Some((c, v)) => {
            let column = text_or_empty(c);
            let value = text_or_empty(v);
            Ok((String::new(), ParsedCommand::EqualFilter(column, value)))
        },
        None => {
            let msg = String::from_str("Unknown command");
            Err(CommandError { input: msg })
        },
    }
}

/// Reads a whole command: only `Filter <column> = <value>` is accepted.
pub fn parse_command(input: &str) -> (r: Result<ParsedCommand, CommandError>)
    ensures
        r is Ok <==> starts_with(input.spec_bytes(), filter_keyword()) && filter_parts(input.spec_bytes().skip(6)) is Some,
        r is Ok ==> (filter_parts(input.spec_bytes().skip(6)) matches Some((c, v)) && r matches Ok(
            ParsedCommand::EqualFilter(rc, rv),
        ) && rc@ == field_text(c) && rv@ == field_text(v)),
{
    let b = input.as_bytes();
    let f: [u8; 6] = [70, 105, 108, 116, 101, 114];
    assert(f@ =~= filter_keyword());
    if !has_prefix(b, f.as_slice()) {
        return Err(CommandError { input: input.to_owned() });
    }
    match split_filter(slice_subrange(b, 6, b.len())) {
        Some((c, v)) => Ok(ParsedCommand::EqualFilter(text_or_empty(c), text_or_empty(v))),
        None => {
            let msg = String::from_str("Unknown command");
            Err(CommandError { input: msg })
        },
    }
}

/// What a command produces.
pub enum Slice {
    FilterSlice(Filter),
}

/// Why a command could not be carried out.
#[derive(Debug, PartialEq, Eq)]
pub enum ExecError {
    /// The text is not a command.
    CannotParse,
    /// The filter could not be built on the frame.
    Frame(FrameError),
}

/// Parses a command and builds what it asks for on the frame.
pub fn exec(input: &str, frame: &Frame) -> (r: Result<Slice, ExecError>)
    requires
        frame.wf(),
    ensures
        (r is Err && r != Err::<Slice, ExecError>(ExecError::CannotParse)) ==> starts_with(input.spec_bytes(), filter_keyword())
            && filter_parts(input.spec_bytes().skip(6)) is Some,
        !(starts_with(input.spec_bytes(), filter_keyword()) && filter_parts(input.spec_bytes().skip(6)) is Some) ==> r
            == Err::<Slice, ExecError>(ExecError::CannotParse),
        starts_with(input.spec_bytes(), filter_keyword()) ==> (filter_parts(input.spec_bytes().skip(6)) matches Some(
            (c, v),
        ) ==> (filterable(*frame, field_text(c)) ==> r is Ok)),
        r matches Ok(Slice::FilterSlice(f)) ==> (filter_parts(input.spec_bytes().skip(6)) matches Some((c, v))
            && equality_mask(*frame, field_text(c), encode_utf8(field_text(v)), f.bits())),
{
    match parse_command(input) {
        Ok(ParsedCommand::EqualFilter(column, value)) => {
            let mut filter = Filter::new();
            match filter.add_equalto_filter(frame, value.as_str().as_bytes(), column.as_str()) {
                Ok(()) => Ok(Slice::FilterSlice(filter)),
                Err(e) => Err(ExecError::Frame(e)),
            }
        },
        Ok(_) => Err(ExecError::CannotParse),
        Err(_) => Err(ExecError::CannotParse),
    }
}

} // verus!
