//! Properties that relate several functions of the library, proved once
//! for all inputs.
use vstd::prelude::*;

use crate::cells::{dedup, value_text, Value};
use crate::csv_parser::{field_scan, fields_of, first_field, line_break, lines_of, COMMA, NEWLINE, QUOTE};
use crate::frame::{complete_lines, tail_of, tail_start};
use crate::series::word_value;
use crate::type_parser::{code_rank, is_float_text, is_signed_digits, sample_code, word_code, Codes};

verus! {

/// A field as written in a line: bare, or wrapped in one pair of quotes.
pub open spec fn encode_part(part: (Seq<u8>, bool)) -> Seq<u8> {
    if part.1 {
        seq![QUOTE] + part.0 + seq![QUOTE]
    } else {
        part.0
    }
}

/// A field that can be written so: it holds no quote, and a bare one holds
/// no delimiter either.
pub open spec fn writable(part: (Seq<u8>, bool)) -> bool {
    quote_free(part.0) && (!part.1 ==> !part.0.contains(COMMA))
}

/// The parts joined with one delimiter byte between each two of them.
pub open spec fn join_fields(parts: Seq<Seq<u8>>) -> Seq<u8>
    decreases parts.len(),
{
    if parts.len() <= 1 {
        if parts.len() == 1 {
            parts[0]
        } else {
            seq![]
        }
    } else {
        parts[0] + seq![COMMA] + join_fields(parts.drop_first())
    }
}

pub open spec fn quote_free(f: Seq<u8>) -> bool {
    !f.contains(QUOTE)
}

/// Scanning over bytes that hold no quote, and no delimiter unless inside
/// quotes, changes nothing but the position.
proof fn lemma_scan_skips(b: Seq<u8>, i: int, j: int, quoted: bool, closed: int)
    requires
        0 <= i <= j <= b.len(),
        forall|k: int| i <= k < j ==> b[k] != QUOTE && (quoted || b[k] != COMMA),
    ensures
        field_scan(b, COMMA, i, quoted, closed) == field_scan(b, COMMA, j, quoted, closed),
    decreases j - i,
{
    if i < j {
        lemma_scan_skips(b, i + 1, j, quoted, closed);
    }
}

/// The first field of a written field followed by a delimiter (or by
/// nothing) is the field, and the scan stops right after it.
proof fn lemma_first_encoded(part: (Seq<u8>, bool), rest: Seq<u8>)
    requires
        writable(part),
        rest.len() == 0 || rest[0] == COMMA,
    ensures
        ({
            let b = encode_part(part) + rest;
            &&& field_scan(b, COMMA, 0, false, 0).0 == encode_part(part).len()
            &&& first_field(b, COMMA) == part.0
        }),
{
    let f = part.0;
    let e = encode_part(part);
    let b = e + rest;
    let n = e.len() as int;
    if part.1 {
        let m = f.len() as int;
        assert(b[0] == QUOTE);
        assert forall|k: int| 1 <= k < m + 1 implies b[k] != QUOTE && (true || b[k] != COMMA) by {
            assert(b[k] == f[k - 1]);
            if b[k] == QUOTE {
                assert(f.contains(QUOTE));
            }
        }
        lemma_scan_skips(b, 1, m + 1, true, 0);
        assert(b[m + 1] == QUOTE);
        if rest.len() > 0 {
            assert(b[m + 2] == COMMA);
        }
        assert(field_scan(b, COMMA, 0, false, 0) == field_scan(b, COMMA, 1, true, 0));
        assert(field_scan(b, COMMA, m + 1, true, 0) == field_scan(b, COMMA, m + 2, false, 1));
        assert(field_scan(b, COMMA, m + 2, false, 1) == (n, 1int));
        assert(field_scan(b, COMMA, 0, false, 0) == (n, 1int));
        assert(b.subrange(1, n - 1) =~= f);
    } else {
        assert forall|k: int| 0 <= k < n implies b[k] != QUOTE && (false || b[k] != COMMA) by {
            assert(b[k] == f[k]);
            if b[k] == QUOTE {
                assert(f.contains(QUOTE));
            }
            if b[k] == COMMA {
                assert(f.contains(COMMA));
            }
        }
        lemma_scan_skips(b, 0, n, false, 0);
        if rest.len() > 0 {
            assert(b[n] == COMMA);
        }
        assert(field_scan(b, COMMA, 0, false, 0) == (n, 0int));
        assert(b.subrange(0, n) =~= f);
    }
}

/// Splitting a line made of written fields gives the fields back, in
/// order: each wrapping quote pair is taken off exactly once, and
/// delimiters inside quotes stay in their field.
pub proof fn lemma_split_round_trip(parts: Seq<(Seq<u8>, bool)>)
    requires
        parts.len() > 0,
        forall|k: int| 0 <= k < parts.len() ==> writable(#[trigger] parts[k]),
    ensures
        fields_of(join_fields(parts.map_values(|p: (Seq<u8>, bool)| encode_part(p))), COMMA) == parts.map_values(
            |p: (Seq<u8>, bool)| p.0,
        ),
    decreases parts.len(),
{
    let es = parts.map_values(|p: (Seq<u8>, bool)| encode_part(p));
    let fs = parts.map_values(|p: (Seq<u8>, bool)| p.0);
    let line = join_fields(es);
    assert(writable(parts[0]));
    if parts.len() == 1 {
        assert(line == encode_part(parts[0]));
        lemma_first_encoded(parts[0], seq![]);
        assert(encode_part(parts[0]) + seq![] =~= line);
        assert(fields_of(line, COMMA) =~= seq![parts[0].0]);
        assert(fs =~= seq![parts[0].0]);
    } else {
        let tail = parts.drop_first();
        let tail_line = join_fields(tail.map_values(|p: (Seq<u8>, bool)| encode_part(p)));
        assert(es.drop_first() =~= tail.map_values(|p: (Seq<u8>, bool)| encode_part(p)));
        let rest = seq![COMMA] + tail_line;
        assert(line =~= encode_part(parts[0]) + rest);
        lemma_first_encoded(parts[0], rest);
        let n = encode_part(parts[0]).len() as int;
        assert(line.subrange(n + 1, line.len() as int) =~= tail_line);
        assert forall|k: int| 0 <= k < tail.len() implies writable(#[trigger] tail[k]) by {
            assert(tail[k] == parts[k + 1]);
        }
        lemma_split_round_trip(tail);
        assert(fields_of(line, COMMA) == seq![parts[0].0] + tail.map_values(|p: (Seq<u8>, bool)| p.0));
        assert(fs =~= seq![parts[0].0] + tail.map_values(|p: (Seq<u8>, bool)| p.0));
    }
}

/// The number of delimiter bytes in `b`.
pub open spec fn comma_count(b: Seq<u8>) -> int
    decreases b.len(),
{
    if b.len() == 0 {
        0
    } else {
        (if b[0] == COMMA { 1int } else { 0int }) + comma_count(b.drop_first())
    }
}

proof fn lemma_scan_quote_free(b: Seq<u8>, i: int)
    requires
        quote_free(b),
        0 <= i <= b.len(),
    ensures
        field_scan(b, COMMA, i, false, 0).1 == 0,
        i <= field_scan(b, COMMA, i, false, 0).0 <= b.len(),
        field_scan(b, COMMA, i, false, 0).0 < b.len() ==> b[field_scan(b, COMMA, i, false, 0).0] == COMMA,
        forall|k: int| i <= k < field_scan(b, COMMA, i, false, 0).0 ==> b[k] != COMMA,
    decreases b.len() - i,
{
    if i < b.len() {
        if b[i] == QUOTE {
            assert(b.contains(QUOTE));
        }
        if b[i] != COMMA {
            lemma_scan_quote_free(b, i + 1);
        }
    }
}

proof fn lemma_count_skip(b: Seq<u8>, i: int)
    requires
        0 <= i <= b.len(),
        forall|k: int| 0 <= k < i ==> b[k] != COMMA,
    ensures
        comma_count(b) == comma_count(b.skip(i)),
    decreases i,
{
    if i > 0 {
        let t = b.drop_first();
        assert forall|k: int| 0 <= k < i - 1 implies t[k] != COMMA by {
            assert(t[k] == b[k + 1]);
        }
        lemma_count_skip(t, i - 1);
        assert(t.skip(i - 1) =~= b.skip(i));
    } else {
        assert(b.skip(0) =~= b);
    }
}

/// Splitting a line without quote bytes and joining the fields with the
/// delimiter gives the line back, and the line has one field more than it
/// has delimiters.
pub proof fn lemma_split_rejoin(b: Seq<u8>)
    requires
        quote_free(b),
    ensures
        join_fields(fields_of(b, COMMA)) == b,
        fields_of(b, COMMA).len() == comma_count(b) + 1,
    decreases b.len(),
{
    lemma_scan_quote_free(b, 0);
    let e = field_scan(b, COMMA, 0, false, 0).0;
    assert(first_field(b, COMMA) =~= b.subrange(0, e));
    lemma_count_skip(b, e);
    if e < b.len() {
        let rest = b.subrange(e + 1, b.len() as int);
        assert forall|k: int| 0 <= k < rest.len() implies rest[k] != QUOTE by {
            assert(rest[k] == b[e + 1 + k]);
            if rest[k] == QUOTE {
                assert(b.contains(QUOTE));
            }
        }
        assert(!rest.contains(QUOTE));
        lemma_split_rejoin(rest);
        crate::csv_parser::lemma_fields_len(rest, COMMA);
        let fs = fields_of(b, COMMA);
        assert(fs == seq![b.subrange(0, e)] + fields_of(rest, COMMA));
        assert(fs.drop_first() =~= fields_of(rest, COMMA));
        assert(join_fields(fs) == fs[0] + seq![COMMA] + join_fields(fs.drop_first()));
        assert(join_fields(fs) =~= b);
        assert(b.skip(e).drop_first() =~= rest);
    } else {
        assert(b.subrange(0, e) =~= b);
        assert(fields_of(b, COMMA) =~= seq![b]);
        assert(b.skip(e) =~= Seq::<u8>::empty());
    }
}

/// A line break found inside `a` is found at the same place whatever
/// follows `a`.
proof fn lemma_break_in_prefix(a: Seq<u8>, c: Seq<u8>, i: int, quoted: bool)
    requires
        0 <= i <= a.len(),
        line_break(a, i, quoted) < a.len(),
    ensures
        line_break(a + c, i, quoted) == line_break(a, i, quoted),
    decreases a.len() - i,
{
    let b = a + c;
    if i < a.len() {
        assert(b[i] == a[i]);
        if a[i] == QUOTE {
            lemma_break_in_prefix(a, c, i + 1, !quoted);
        } else if !(a[i] == NEWLINE && !quoted) {
            lemma_break_in_prefix(a, c, i + 1, quoted);
        }
    }
}

proof fn lemma_tail_start_bounds(b: Seq<u8>)
    ensures
        0 <= tail_start(b) <= b.len(),
    decreases b.len(),
{
    let k = line_break(b, 0, false);
    if 0 <= k && k + 1 < b.len() {
        lemma_tail_start_bounds(b.subrange(k + 1, b.len() as int));
    }
}

/// Reading a stream in two chunks, with the first chunk's remainder put in
/// front of the second, gives the lines of the whole stream: the complete
/// lines of the first chunk, then the lines of the remainder and the
/// second chunk together.
pub proof fn lemma_chunk_split_lines(a: Seq<u8>, c: Seq<u8>)
    ensures
        lines_of(a + c) == complete_lines(lines_of(a), false) + lines_of(tail_of(a) + c),
    decreases a.len(),
{
    if a.len() == 0 {
        assert(a + c =~= c);
        assert(tail_of(a) =~= Seq::<u8>::empty());
        assert(tail_of(a) + c =~= c);
        assert(complete_lines(lines_of(a), false) =~= Seq::<Seq<u8>>::empty());
        assert(lines_of(a + c) =~= complete_lines(lines_of(a), false) + lines_of(tail_of(a) + c));
    } else {
        crate::frame::lemma_next_line(a);
        let k = line_break(a, 0, false);
        if k + 1 < a.len() {
            let rest = a.subrange(k + 1, a.len() as int);
            lemma_break_in_prefix(a, c, 0, false);
            let b = a + c;
            assert(b.len() > 0);
            assert(b.subrange(0, k) =~= a.subrange(0, k));
            assert(b.subrange(k + 1, b.len() as int) =~= rest + c);
            assert(lines_of(b) == seq![a.subrange(0, k)] + lines_of(rest + c));
            lemma_chunk_split_lines(rest, c);
            lemma_tail_start_bounds(rest);
            assert(tail_start(a) == k + 1 + tail_start(rest));
            assert(tail_of(a) =~= tail_of(rest));
            crate::frame::lemma_next_line(rest);
            assert(lines_of(a) == seq![a.subrange(0, k)] + lines_of(rest));
            assert(complete_lines(lines_of(a), false) =~= seq![a.subrange(0, k)] + complete_lines(lines_of(rest), false));
            assert(lines_of(b) =~= complete_lines(lines_of(a), false) + lines_of(tail_of(a) + c));
        } else {
            assert(tail_start(a) == 0);
            assert(tail_of(a) =~= a);
            if k < a.len() {
                assert(a.subrange(k + 1, a.len() as int) =~= Seq::<u8>::empty());
                assert(lines_of(a) =~= seq![a.subrange(0, k)] + lines_of(Seq::<u8>::empty()));
            }
            assert(lines_of(a).len() == 1);
            assert(complete_lines(lines_of(a), false) =~= Seq::<Seq<u8>>::empty());
            assert(lines_of(a + c) =~= complete_lines(lines_of(a), false) + lines_of(tail_of(a) + c));
        }
    }
}

/// The tag inferred from a sample is at least as wide as the tag of every
/// sampled word, and it is the tag of one of them (or `Null` for no words).
pub proof fn lemma_inferred_is_widest(ws: Seq<Seq<u8>>)
    ensures
        forall|k: int| 0 <= k < ws.len() ==> code_rank(sample_code(ws)) >= code_rank(#[trigger] word_code(ws[k])),
        ws.len() == 0 ==> sample_code(ws) == Codes::Null,
        ws.len() > 0 ==> exists|k: int| 0 <= k < ws.len() && sample_code(ws) == #[trigger] word_code(ws[k]),
    decreases ws.len(),
{
    if ws.len() > 0 {
        let init = ws.drop_last();
        lemma_inferred_is_widest(init);
        assert forall|k: int| 0 <= k < ws.len() implies code_rank(sample_code(ws)) >= code_rank(
            #[trigger] word_code(ws[k]),
        ) by {
            if k < ws.len() - 1 {
                assert(ws[k] == init[k]);
            }
        }
        if init.len() == 0 {
            assert(word_code(ws[0]) == word_code(ws.last()));
            if code_rank(word_code(ws.last())) > code_rank(Codes::Null) {
                assert(sample_code(ws) == word_code(ws[ws.len() - 1]));
            } else {
                assert(word_code(ws.last()) == Codes::Null);
                assert(sample_code(ws) == word_code(ws[ws.len() - 1]));
            }
        } else {
            let k0 = choose|k: int| 0 <= k < init.len() && sample_code(init) == #[trigger] word_code(init[k]);
            assert(init[k0] == ws[k0]);
            if code_rank(word_code(ws.last())) > code_rank(sample_code(init)) {
                assert(sample_code(ws) == word_code(ws[ws.len() - 1]));
            } else {
                assert(sample_code(ws) == word_code(ws[k0]));
            }
        }
    }
}

/// A word that is not a number reads as a missing value in a 32-bit,
/// 64-bit or floating-point column, and a missing value renders as empty
/// text. (A 128-bit column reads words through `lexical_i128`, of which only
/// what its call site shows is known.)
pub proof fn lemma_unparsable_is_missing(code: Codes, w: Seq<u8>)
    requires
        (code == Codes::Int32 || code == Codes::Int64) && !is_signed_digits(w) || (code == Codes::Float32 || code
            == Codes::Float64) && !is_float_text(w),
    ensures
        word_value(code, w) == Value::Missing,
        value_text(word_value(code, w)).len() == 0,
{
}

/// Distinct values hold every value of the sequence, and each only once.
pub proof fn lemma_distinct_once<A>(s: Seq<A>)
    ensures
        forall|x: A| s.contains(x) <==> dedup(s).contains(x),
        forall|i: int, j: int| 0 <= i < j < dedup(s).len() ==> dedup(s)[i] != dedup(s)[j],
    decreases s.len(),
{
    if s.len() > 0 {
        let init = s.drop_last();
        lemma_distinct_once(init);
        let d = dedup(init);
        assert forall|x: A| s.contains(x) implies dedup(s).contains(x) by {
            let k = choose|k: int| 0 <= k < s.len() && s[k] == x;
            if 0 <= k < s.len() - 1 {
                assert(init[k] == x);
                assert(init.contains(x));
                assert(d.contains(x));
                let q = choose|q: int| 0 <= q < d.len() && d[q] == x;
                if !d.contains(s.last()) {
                    assert(d.push(s.last())[q] == x);
                }
            } else {
                assert(s.last() == x);
                if !d.contains(s.last()) {
                    assert(d.push(s.last())[d.len() as int] == x);
                }
            }
        }
        assert forall|x: A| dedup(s).contains(x) implies s.contains(x) by {
            let q = choose|q: int| 0 <= q < dedup(s).len() && dedup(s)[q] == x;
            if q < d.len() {
                assert(d[q] == x);
                assert(d.contains(x));
                assert(init.contains(x));
                let k = choose|k: int| 0 <= k < init.len() && init[k] == x;
                assert(s[k] == x);
            } else {
                assert(s[s.len() - 1] == x);
            }
        }
        assert forall|i: int, j: int| 0 <= i < j < dedup(s).len() implies dedup(s)[i] != dedup(s)[j] by {
            if j == d.len() && !d.contains(s.last()) {
                assert(dedup(s)[j] == s.last());
                assert(dedup(s)[i] == d[i]);
            }
        }
    }
}

} // verus!
