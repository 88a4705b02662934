//! Chunked ingestion of a CSV byte stream into a table of typed columns.
//!
//! The bytes left over from the previous chunk are put in front of the new
//! ones, the result is split into lines, an optional header line is taken
//! off, and every other line becomes a row of exactly `width` words (short
//! rows are padded with empty words, long ones cut). The last line may have
//! been cut by the chunk boundary, so it is never trusted: its words are
//! taken back out and its bytes, terminator included, become the remainder
//! that goes in front of the next chunk.
use vstd::prelude::*;
use vstd::slice::{slice_subrange, slice_to_vec};

use vstd::string::StringSliceAdditionalSpecFns;
use vstd::utf8::encode_utf8_decode_utf8;

use crate::cells::{rendered, window, Value};
use crate::column::Column;
use crate::csv_parser::{field_text, fields_of, line_break, lines_of, FieldSplitter, LineSplitter, COMMA};
use crate::parsed_bytes::ParsedBytes;
use crate::series::{hashable, int_total, storage_code, sum_fits, summable, word_value, SeriesEnum, SumError};
use crate::text::text_or_empty;
use crate::type_parser::{infer_code, sample_code, Codes};
use crate::utils::{filler_label, latin_pairs, HeaderFillerGenerator};

verus! {

/// The words of one row: the fields of the line, padded with empty words
/// or cut to `width`.
pub open spec fn row_words(line: Seq<u8>, width: int) -> Seq<Seq<u8>> {
    Seq::new(
        width as nat,
        |j: int|
            if j < fields_of(line, COMMA).len() {
                fields_of(line, COMMA)[j]
            } else {
                seq![]
            },
    )
}

/// Word `j` of each row.
pub open spec fn column_words(rows: Seq<Seq<u8>>, width: int, j: int) -> Seq<Seq<u8>> {
    rows.map_values(|l: Seq<u8>| row_words(l, width)[j])
}

/// Whether a header line is taken off: only when one is wanted and another
/// line follows it, so that it is known to be complete.
pub open spec fn takes_header(ls: Seq<Seq<u8>>, want_header: bool) -> bool {
    want_header && ls.len() >= 2
}

/// The lines after the header, the last (untrusted) one included.
pub open spec fn body_lines(ls: Seq<Seq<u8>>, want_header: bool) -> Seq<Seq<u8>> {
    if takes_header(ls, want_header) {
        ls.drop_first()
    } else {
        ls
    }
}

/// The lines that become rows: the body without its last line.
pub open spec fn complete_lines(ls: Seq<Seq<u8>>, want_header: bool) -> Seq<Seq<u8>> {
    if body_lines(ls, want_header).len() == 0 {
        seq![]
    } else {
        body_lines(ls, want_header).drop_last()
    }
}

/// Where the last line of `b` starts.
pub open spec fn tail_start(b: Seq<u8>) -> int
    decreases b.len(),
{
    let k = line_break(b, 0, false);
    if 0 <= k && k + 1 < b.len() {
        k + 1 + tail_start(b.subrange(k + 1, b.len() as int))
    } else {
        0
    }
}

/// The bytes of the last line of `b`, terminator included.
pub open spec fn tail_of(b: Seq<u8>) -> Seq<u8> {
    b.subrange(tail_start(b), b.len() as int)
}

/// The width of the rows read from a chunk: the known width, or else the
/// wider of the header and the first body line.
pub open spec fn chunk_width(ls: Seq<Seq<u8>>, want_header: bool, n_cols: int) -> int {
    if n_cols > 0 {
        n_cols
    } else {
        let h = if takes_header(ls, want_header) { fields_of(ls[0], COMMA).len() as int } else { 0 };
        let f = if body_lines(ls, want_header).len() > 0 {
            fields_of(body_lines(ls, want_header)[0], COMMA).len() as int
        } else {
            0
        };
        if h < f {
            f
        } else {
            h
        }
    }
}

proof fn lemma_line_break_bounds(b: Seq<u8>, i: int, quoted: bool)
    requires
        0 <= i <= b.len(),
    ensures
        i <= line_break(b, i, quoted) <= b.len(),
    decreases b.len() - i,
{
    if i < b.len() {
        if b[i] == crate::csv_parser::QUOTE {
            lemma_line_break_bounds(b, i + 1, !quoted);
        } else if !(b[i] == crate::csv_parser::NEWLINE && !quoted) {
            lemma_line_break_bounds(b, i + 1, quoted);
        }
    }
}

/// One step of splitting: the first line of `rest` and what follows it.
pub proof fn lemma_next_line(rest: Seq<u8>)
    requires
        rest.len() > 0,
    ensures
        0 <= line_break(rest, 0, false) <= rest.len(),
        lines_of(rest).len() > 0,
        lines_of(rest)[0] == if line_break(rest, 0, false) < rest.len() {
            rest.subrange(0, line_break(rest, 0, false))
        } else {
            rest
        },
        line_break(rest, 0, false) < rest.len() ==> lines_of(rest).drop_first() == lines_of(
            rest.subrange(line_break(rest, 0, false) + 1, rest.len() as int),
        ),
        line_break(rest, 0, false) == rest.len() ==> lines_of(rest).drop_first().len() == 0,
        tail_start(rest) == if line_break(rest, 0, false) + 1 < rest.len() {
            line_break(rest, 0, false) + 1 + tail_start(
                rest.subrange(line_break(rest, 0, false) + 1, rest.len() as int),
            )
        } else {
            0
        },
{
    lemma_line_break_bounds(rest, 0, false);
    let k = line_break(rest, 0, false);
    if k < rest.len() {
        let tail = lines_of(rest.subrange(k + 1, rest.len() as int));
        assert(lines_of(rest) == seq![rest.subrange(0, k)] + tail);
        assert((seq![rest.subrange(0, k)] + tail).drop_first() =~= tail);
    } else {
        assert(lines_of(rest) == seq![rest]);
    }
}

/// The lines of a chunk, collected, and where the last one starts.
fn collect_lines(b: &[u8]) -> (r: (Vec<&[u8]>, usize))
    ensures
        r.0@.map_values(|l: &[u8]| l@) == lines_of(b@),
        r.1 == tail_start(b@),
        r.1 <= b@.len(),
{
    let n = b.len();
    let mut lines: Vec<&[u8]> = Vec::new();
    let mut sp = LineSplitter::from_bytes(b);
    let mut start: usize = 0;
    let mut last_start: usize = 0;
    let ghost all = lines_of(b@);
    proof {
        assert(b@.subrange(0, n as int) =~= b@);
        assert(lines@.map_values(|l: &[u8]| l@) + sp.pending() =~= all);
    }
    loop
        invariant
            n == b@.len(),
            all == lines_of(b@),
            lines@.map_values(|l: &[u8]| l@) + sp.pending() == all,
            start <= n,
            last_start <= n,
            sp.pending() == lines_of(b@.subrange(start as int, n as int)),
            sp.pending().len() > 0 ==> tail_start(b@) == start + tail_start(b@.subrange(start as int, n as int)),
            sp.pending().len() == 0 && lines@.len() > 0 ==> tail_start(b@) == last_start,
            sp.pending().len() == 0 && lines@.len() == 0 ==> n == 0,
        decreases sp.pending().len(),
    {
        let ghost rest = b@.subrange(start as int, n as int);
        let ghost before = sp.pending();
        let ghost old_lines = lines@;
        match sp.next() {
            Some(line) => {
                proof {
                    lemma_next_line(rest);
                }
                let ghost k = line_break(rest, 0, false);
                lines.push(line);
                last_start = start;
                proof {
                    assert(lines@.map_values(|l: &[u8]| l@) =~= old_lines.map_values(|l: &[u8]| l@).push(line@));
                    assert(lines@.map_values(|l: &[u8]| l@) + sp.pending() =~= old_lines.map_values(|l: &[u8]| l@)
                        + before);
                }
                if line.len() < n - start {
                    proof {
                        assert(line@.len() == k);
                        assert(rest.subrange(k + 1, rest.len() as int) =~= b@.subrange(start + k + 1, n as int));
                    }
                    start = start + line.len() + 1;
                } else {
                    proof {
                        assert(b@.subrange(n as int, n as int) =~= Seq::<u8>::empty());
                    }
                    start = n;
                }
            },
            None => {
                proof {
                    assert(lines@.map_values(|l: &[u8]| l@) =~= all);
                    if lines@.len() == 0 {
                        assert(b@ =~= b@.subrange(0, n as int));
                    }
                }
                return (lines, last_start);
            },
        }
    }
}

/// The bytes of each slice.
pub open spec fn views(s: Seq<&[u8]>) -> Seq<Seq<u8>> {
    s.map_values(|f: &[u8]| f@)
}

/// The words of one row, padded with empty words or cut to `width`.
fn row_fields<'a>(line: &'a [u8], width: usize) -> (r: Vec<&'a [u8]>)
    ensures
        r@.map_values(|f: &[u8]| f@) == row_words(line@, width as int),
{
    let ghost fs = fields_of(line@, COMMA);
    let mut out: Vec<&'a [u8]> = Vec::new();
    let mut sp = FieldSplitter::from_bytes(line);
    let mut j: usize = 0;
    proof {
        assert(fs.skip(0) =~= fs);
    }
    while j < width
        invariant
            fs == fields_of(line@, COMMA),
            j <= width,
            j <= fs.len() ==> sp.pending() == fs.skip(j as int),
            j > fs.len() ==> sp.pending().len() == 0,
            out@.map_values(|f: &[u8]| f@) == row_words(line@, width as int).take(j as int),
        decreases width - j,
    {
        let ghost prev = out@;
        let ghost want = row_words(line@, width as int);
        match sp.next() {
            Some(f) => {
                out.push(f);
                proof {
                    assert(fs.skip(j as int)[0] == fs[j as int]);
                    assert(fs.skip(j as int).drop_first() =~= fs.skip(j + 1));
                    assert(f@ == want[j as int]);
                }
            },
            None => {
                let empty = slice_subrange(line, 0, 0);
                out.push(empty);
                proof {
                    assert(empty@ =~= want[j as int]);
                }
            },
        }
        proof {
            assert(out@.map_values(|f: &[u8]| f@) =~= prev.map_values(|f: &[u8]| f@).push(out@.last()@));
            assert(want.take(j + 1) =~= want.take(j as int).push(want[j as int]));
        }
        j += 1;
    }
    proof {
        assert(row_words(line@, width as int).take(width as int) =~= row_words(line@, width as int));
    }
    out
}

/// The number of fields of a line.
fn count_fields(line: &[u8]) -> (r: usize)
    requires
        line@.len() < usize::MAX,
    ensures
        r == fields_of(line@, COMMA).len(),
{
    let ghost fs = fields_of(line@, COMMA);
    proof {
        crate::csv_parser::lemma_fields_len(line@, COMMA);
        assert(fs.skip(0) =~= fs);
    }
    let mut sp = FieldSplitter::from_bytes(line);
    let mut n: usize = 0;
    loop
        invariant
            fs == fields_of(line@, COMMA),
            fs.len() <= line@.len() + 1,
            line@.len() < usize::MAX,
            n <= fs.len(),
            sp.pending() == fs.skip(n as int),
        decreases fs.len() - n,
    {
        match sp.next() {
            Some(_) => {
                proof {
                    assert(fs.skip(n as int).drop_first() =~= fs.skip(n + 1));
                }
                n += 1;
            },
            None => {
                return n;
            },
        }
    }
}

/// All fields of a line, as a word store.
fn words_of(line: &[u8]) -> (r: ParsedBytes)
    ensures
        r.wf(),
        r@ == fields_of(line@, COMMA),
{
    let ghost fs = fields_of(line@, COMMA);
    proof {
        crate::csv_parser::lemma_fields_len(line@, COMMA);
        assert(fs.skip(0) =~= fs);
    }
    let mut sp = FieldSplitter::from_bytes(line);
    let mut words = ParsedBytes::new();
    loop
        invariant
            fs == fields_of(line@, COMMA),
            words.wf(),
            words@.len() <= fs.len(),
            sp.pending() == fs.skip(words@.len() as int),
            words@ == fs.take(words@.len() as int),
        decreases fs.len() - words@.len(),
    {
        let ghost n = words@.len() as int;
        match sp.next() {
            Some(f) => {
                words.extend(f);
                proof {
                    assert(fs.skip(n as int).drop_first() =~= fs.skip(n + 1));
                    assert(fs.take(n + 1) =~= fs.take(n as int).push(f@));
                }
            },
            None => {
                proof {
                    assert(fs.take(n as int) =~= fs);
                }
                return words;
            },
        }
    }
}

/// Every line is no longer than the bytes it was read from.
proof fn lemma_lines_short(b: Seq<u8>)
    ensures
        forall|i: int| 0 <= i < lines_of(b).len() ==> #[trigger] lines_of(b)[i].len() <= b.len(),
    decreases b.len(),
{
    if b.len() > 0 {
        lemma_next_line(b);
        let k = line_break(b, 0, false);
        if k < b.len() {
            let rest = b.subrange(k + 1, b.len() as int);
            lemma_lines_short(rest);
            assert forall|i: int| 0 <= i < lines_of(b).len() implies #[trigger] lines_of(b)[i].len() <= b.len() by {
                if i > 0 {
                    assert(lines_of(b)[i] == lines_of(b).drop_first()[i - 1]);
                }
            }
        }
    }
}

/// The words of one chunk, column by column, before and after its last row
/// is taken back out.
pub struct ChunkFromJsBytes {
    buffers: Vec<ParsedBytes>,
    remainder: Option<Vec<u8>>,
    header: Option<ParsedBytes>,
    last_line: Vec<u8>,
}

/// The settings for reading one chunk.
pub struct ChunkBuilder {
    bytes: Vec<u8>,
    missing_bytes: Option<Vec<u8>>,
    skip_header: bool,
    n_cols: usize,
}

/// The bytes a chunk is read from: the remainder of the previous chunk,
/// then the chunk itself.
pub open spec fn stitched(missing: Option<Seq<u8>>, bytes: Seq<u8>) -> Seq<u8> {
    match missing {
        Some(m) => m + bytes,
        None => bytes,
    }
}

impl ChunkBuilder {
    pub closed spec fn input(&self) -> Seq<u8> {
        stitched(
            match self.missing_bytes {
                Some(m) => Some(m@),
                None => None,
            },
            self.bytes@,
        )
    }

    pub closed spec fn chunk_bytes(&self) -> Seq<u8> {
        self.bytes@
    }

    pub closed spec fn wants_header(&self) -> bool {
        self.skip_header
    }

    pub closed spec fn known_width(&self) -> int {
        self.n_cols as int
    }

    pub fn with_header(self, val: bool) -> (r: Self)
        ensures
            r.input() == self.input(),
            r.chunk_bytes() == self.chunk_bytes(),
            r.wants_header() == val,
            r.known_width() == self.known_width(),
    {
        ChunkBuilder { skip_header: val, ..self }
    }

    pub fn with_missing_bytes(self, bytes: Option<Vec<u8>>) -> (r: Self)
        ensures
            r.input() == stitched(
                match bytes {
                    Some(m) => Some(m@),
                    None => None,
                },
                self.chunk_bytes(),
            ),
            r.chunk_bytes() == self.chunk_bytes(),
            r.wants_header() == self.wants_header(),
            r.known_width() == self.known_width(),
    {
        ChunkBuilder { missing_bytes: bytes, ..self }
    }

    pub fn with_column_number(self, n_cols: usize) -> (r: Self)
        ensures
            r.input() == self.input(),
            r.chunk_bytes() == self.chunk_bytes(),
            r.wants_header() == self.wants_header(),
            r.known_width() == n_cols,
    {
        ChunkBuilder { n_cols, ..self }
    }

    /// Splits the input into lines, takes off the header line if one is
    /// wanted, and reads every other line as a row of words.
    pub fn read(&self) -> (r: ChunkFromJsBytes)
        requires
            self.input().len() < usize::MAX,
        ensures
            r.wf(),
            r.remainder_bytes() is None,
            r.last_line_bytes() == tail_of(self.input()),
            r.header_words() == if takes_header(lines_of(self.input()), self.wants_header()) {
                Some(fields_of(lines_of(self.input())[0], COMMA))
            } else {
                None
            },
            r.words().len() == chunk_width(lines_of(self.input()), self.wants_header(), self.known_width()),
            forall|j: int|
                0 <= j < r.words().len() ==> #[trigger] r.words()[j] == column_words(
                    body_lines(lines_of(self.input()), self.wants_header()),
                    r.words().len() as int,
                    j,
                ),
    {
        let mut input: Vec<u8> = match &self.missing_bytes {
            Some(m) => m.clone(),
            None => Vec::new(),
        };
        input.extend_from_slice(self.bytes.as_slice());
        assert(input@ =~= self.input());
        let (lines, last_start) = collect_lines(input.as_slice());
        let ghost ls = lines_of(input@);
        proof {
            lemma_lines_short(input@);
            assert forall|i: int| 0 <= i < lines@.len() implies #[trigger] lines@[i]@ == ls[i] by {
                assert(lines@.map_values(|l: &[u8]| l@)[i] == lines@[i]@);
            }
        }
        let nl = lines.len();
        let take_header = self.skip_header && nl >= 2;
        let first: usize = if take_header {
            1
        } else {
            0
        };
        let ghost body = body_lines(ls, self.skip_header);
        assert(body =~= ls.subrange(first as int, nl as int));
        let width = if self.n_cols > 0 {
            self.n_cols
        } else {
            let h = if take_header {
                count_fields(lines[0])
            } else {
                0
            };
            let f = if nl > first {
                count_fields(lines[first])
            } else {
                0
            };
            if h < f {
                f
            } else {
                h
            }
        };
        let mut rows: Vec<Vec<&[u8]>> = Vec::new();
        let mut i = first;
        while i < nl
            invariant
                first <= i <= nl,
                nl == lines@.len(),
                nl == ls.len(),
                body == ls.subrange(first as int, nl as int),
                forall|q: int| 0 <= q < nl ==> #[trigger] lines@[q]@ == ls[q],
                rows@.len() == i - first,
                forall|q: int|
                    0 <= q < rows@.len() ==> views((#[trigger] rows@[q])@) == row_words(
                        body[q],
                        width as int,
                    ),
            decreases nl - i,
        {
            let row = row_fields(lines[i], width);
            rows.push(row);
            i += 1;
        }
        let mut buffers: Vec<ParsedBytes> = Vec::new();
        let mut j: usize = 0;
        while j < width
            invariant
                j <= width,
                rows@.len() == body.len(),
                forall|q: int|
                    0 <= q < rows@.len() ==> views((#[trigger] rows@[q])@) == row_words(
                        body[q],
                        width as int,
                    ),
                buffers@.len() == j,
                forall|c: int|
                    0 <= c < j ==> #[trigger] buffers@[c].wf() && buffers@[c]@ == column_words(body, width as int, c),
            decreases width - j,
        {
            let mut pb = ParsedBytes::new();
            let mut q: usize = 0;
            while q < rows.len()
                invariant
                    j < width,
                    q <= rows@.len(),
                    rows@.len() == body.len(),
                    forall|p: int|
                        0 <= p < rows@.len() ==> views((#[trigger] rows@[p])@) == row_words(
                            body[p],
                            width as int,
                        ),
                    pb.wf(),
                    pb@ == column_words(body.take(q as int), width as int, j as int),
                decreases rows@.len() - q,
            {
                proof {
                    assert(views(rows@[q as int]@)[j as int] == rows@[q as int]@[j as int]@);
                }
                pb.extend(rows[q][j]);
                proof {
                    assert(column_words(body.take(q + 1), width as int, j as int) =~= column_words(
                        body.take(q as int),
                        width as int,
                        j as int,
                    ).push(row_words(body[q as int], width as int)[j as int]));
                }
                q += 1;
            }
            proof {
                assert(body.take(rows@.len() as int) =~= body);
            }
            let ghost old_b = buffers@;
            buffers.push(pb);
            proof {
                assert forall|c: int| 0 <= c < j + 1 implies #[trigger] buffers@[c].wf() && buffers@[c]@ == column_words(
                    body,
                    width as int,
                    c,
                ) by {
                    if c < j {
                        assert(buffers@[c] == old_b[c]);
                        assert(old_b[c].wf());
                    }
                }
            }
            j += 1;
        }
        let last_line = slice_to_vec(slice_subrange(input.as_slice(), last_start, input.len()));
        let header = if take_header {
            Some(words_of(lines[0]))
        } else {
            None
        };
        let ghost bufs = buffers@;
        assert(forall|c: int| 0 <= c < width ==> #[trigger] bufs[c].wf() && bufs[c]@ == column_words(body, width as int, c));
        let r = ChunkFromJsBytes { buffers, remainder: None, header, last_line };
        proof {
            assert(r.words().len() == width);
            assert forall|c: int| 0 <= c < width implies #[trigger] r.words()[c] == column_words(body, width as int, c)
                && r.buffers@[c].wf() && r.buffers@[c]@.len() == body.len() by {
                assert(r.buffers@[c] == bufs[c]);
                assert(bufs[c].wf());
                assert(r.words()[c] == r.buffers@[c]@);
            }
            if width > 0 {
                assert(r.buffers@[0] == bufs[0]);
                assert(bufs[0].wf());
                assert(bufs[0]@ == column_words(body, width as int, 0));
                assert(r.buffers@[0]@.len() == body.len());
                assert forall|c: int| 0 <= c < width implies (#[trigger] r.buffers@[c]).wf() && r.buffers@[c]@.len()
                    == r.buffers@[0]@.len() by {
                    assert(r.buffers@[c] == bufs[c]);
                    assert(bufs[c].wf());
                }
            }
        }
        r
    }
}

impl ChunkFromJsBytes {
    /// Every word store is well formed and all hold the same number of words.
    pub closed spec fn wf(&self) -> bool {
        &&& forall|j: int|
            0 <= j < self.buffers@.len() ==> (#[trigger] self.buffers@[j]).wf() && self.buffers@[j]@.len()
                == self.buffers@[0]@.len()
        &&& self.header matches Some(h) ==> h.wf()
    }

    /// The words of each column.
    pub closed spec fn words(&self) -> Seq<Seq<Seq<u8>>> {
        self.buffers@.map_values(|b: ParsedBytes| b@)
    }

    pub closed spec fn header_words(&self) -> Option<Seq<Seq<u8>>> {
        match self.header {
            Some(h) => Some(h@),
            None => None,
        }
    }

    pub closed spec fn remainder_bytes(&self) -> Option<Seq<u8>> {
        match self.remainder {
            Some(r) => Some(r@),
            None => None,
        }
    }

    pub closed spec fn last_line_bytes(&self) -> Seq<u8> {
        self.last_line@
    }

    /// The word store of each column.
    pub fn buffers(&self) -> (r: &Vec<ParsedBytes>)
        ensures
            r@.map_values(|b: ParsedBytes| b@) == self.words(),
    {
        &self.buffers
    }

    /// The words of the header line, if one was taken off.
    pub fn header(&self) -> (r: Option<&ParsedBytes>)
        ensures
            self.header_words() is None ==> r is None,
            self.header_words() matches Some(h) ==> (r matches Some(p) && p@ == h),
    {
        match &self.header {
            Some(h) => Some(h),
            None => None,
        }
    }

    /// The bytes kept for the next chunk, once the last row was taken out.
    pub fn remainder(&self) -> (r: Option<&Vec<u8>>)
        ensures
            self.remainder_bytes() is None ==> r is None,
            self.remainder_bytes() matches Some(b) ==> (r matches Some(v) && v@ == b),
    {
        match &self.remainder {
            Some(v) => Some(v),
            None => None,
        }
    }

    /// Starts reading a chunk of bytes.
    pub fn from_bytes(bytes: &[u8]) -> (r: ChunkBuilder)
        ensures
            r.input() == bytes@,
            r.chunk_bytes() == bytes@,
            !r.wants_header(),
            r.known_width() == 0,
    {
        let mut v: Vec<u8> = Vec::with_capacity(bytes.len());
        v.extend_from_slice(bytes);
        assert(v@ =~= bytes@);
        ChunkBuilder { bytes: v, missing_bytes: None, skip_header: false, n_cols: 0 }
    }

    /// Takes the last row back out of every column and keeps the bytes of
    /// the last line as the remainder.
    pub fn pull_last_line(self) -> (r: Self)
        requires
            self.wf(),
        ensures
            r.wf(),
            r.header_words() == self.header_words(),
            r.remainder_bytes() == Some(self.last_line_bytes()),
            r.words().len() == self.words().len(),
            forall|j: int|
                0 <= j < r.words().len() ==> #[trigger] r.words()[j] == if self.words()[j].len() > 0 {
                    self.words()[j].drop_last()
                } else {
                    self.words()[j]
                },
    {
        let mut this = self;
        let n = this.buffers.len();
        let ghost old_words = this.words();
        let mut j: usize = 0;
        while j < n
            invariant
                n == this.buffers@.len(),
                n == old_words.len(),
                j <= n,
                forall|c: int| 0 <= c < n ==> #[trigger] this.buffers@[c].wf(),
                forall|c: int|
                    0 <= c < n ==> #[trigger] this.buffers@[c]@.len() == if old_words[0].len() > 0 && c < j {
                        old_words[0].len() - 1
                    } else {
                        old_words[0].len() as int
                    },
                forall|c: int|
                    0 <= c < n ==> #[trigger] this.buffers@[c]@ == if c < j && old_words[c].len() > 0 {
                        old_words[c].drop_last()
                    } else {
                        old_words[c]
                    },
                this.header matches Some(h) ==> h.wf(),
                this.last_line@ == self.last_line@,
                this.header == self.header,
                old_words == self.words(),
            decreases n - j,
        {
            proof {
                assert(this.buffers@[j as int]@ == old_words[j as int]);
            }
            if this.buffers[j].len() > 0 {
                let _ = this.buffers[j].pop_at_last_offset();
            }
            j += 1;
        }
        let rem = this.last_line.clone();
        assert(rem@ == this.last_line@);
        let r = ChunkFromJsBytes { buffers: this.buffers, remainder: Some(rem), header: this.header, last_line: this.last_line };
        proof {
            assert forall|c: int| 0 <= c < n implies #[trigger] r.words()[c] == if old_words[c].len() > 0 {
                old_words[c].drop_last()
            } else {
                old_words[c]
            } by {
                assert(r.words()[c] == r.buffers@[c]@);
            }
        }
        r
    }

    /// One complete row, read as `n_cols` words (or as many as it has fields,
    /// when `n_cols` is zero).
    fn single_line(bytes: &[u8], n_cols: usize) -> (r: Self)
        requires
            bytes@.len() < usize::MAX,
        ensures
            r.wf(),
            r.header_words() is None,
            r.words().len() == if n_cols > 0 { n_cols as int } else { fields_of(bytes@, COMMA).len() as int },
            forall|j: int|
                0 <= j < r.words().len() ==> #[trigger] r.words()[j] == column_words(
                    seq![bytes@],
                    r.words().len() as int,
                    j,
                ),
    {
        let width = if n_cols > 0 {
            n_cols
        } else {
            count_fields(bytes)
        };
        let row = row_fields(bytes, width);
        assert(views(row@).len() == row@.len());
        let mut buffers: Vec<ParsedBytes> = Vec::new();
        let mut j: usize = 0;
        while j < width
            invariant
                j <= width,
                views(row@) == row_words(bytes@, width as int),
                row@.len() == width,
                buffers@.len() == j,
                forall|c: int|
                    0 <= c < j ==> (#[trigger] buffers@[c]).wf() && buffers@[c]@ == column_words(
                        seq![bytes@],
                        width as int,
                        c,
                    ),
            decreases width - j,
        {
            let mut pb = ParsedBytes::new();
            proof {
                assert(views(row@)[j as int] == row@[j as int]@);
            }
            pb.extend(row[j]);
            let ghost old_b = buffers@;
            buffers.push(pb);
            proof {
                assert forall|c: int| 0 <= c < j + 1 implies (#[trigger] buffers@[c]).wf() && buffers@[c]@
                    == column_words(seq![bytes@], width as int, c) by {
                    if c < j {
                        assert(buffers@[c] == old_b[c]);
                    } else {
                        assert(buffers@[c]@ =~= column_words(seq![bytes@], width as int, c));
                    }
                }
            }
            j += 1;
        }
        let r = ChunkFromJsBytes { buffers, remainder: None, header: None, last_line: Vec::new() };
        proof {
            assert forall|c: int| 0 <= c < width implies #[trigger] r.words()[c] == column_words(
                seq![bytes@],
                width as int,
                c,
            ) by {
                assert(r.words()[c] == r.buffers@[c]@);
            }
            if width > 0 {
                assert(r.buffers@[0].wf());
                assert forall|c: int| 0 <= c < width implies (#[trigger] r.buffers@[c]).wf() && r.buffers@[c]@.len()
                    == r.buffers@[0]@.len() by {}
            }
        }
        r
    }
}

/// How many words of a column are sampled to infer its tag: a tenth of the
/// rows, and at least one.
pub open spec fn sample_size(rows: int) -> int {
    if rows / 10 > 1 {
        rows / 10
    } else {
        1
    }
}

/// The tag inferred for a column from the words read for it.
pub open spec fn inferred_code(words: Seq<Seq<u8>>) -> Codes {
    storage_code(
        sample_code(
            words.take(
                if sample_size(words.len() as int) < words.len() {
                    sample_size(words.len() as int)
                } else {
                    words.len() as int
                },
            ),
        ),
    )
}

/// The name of column `j`: its header field, or else its fallback label.
pub open spec fn column_name(header: Option<Seq<Seq<u8>>>, j: int) -> Seq<char> {
    match header {
        Some(h) => if j < h.len() {
            field_text(h[j])
        } else {
            seq![]
        },
        None => match filler_label(latin_pairs(), j) {
            Some(l) => field_text(l),
            None => seq![],
        },
    }
}

pub open spec fn header_view(h: Option<ParsedBytes>) -> Option<Seq<Seq<u8>>> {
    match h {
        Some(h) => Some(h@),
        None => None,
    }
}

fn bytes_eq(a: &[u8], b: &[u8]) -> (r: bool)
    ensures
        r == (a@ == b@),
{
    if a.len() != b.len() {
        return false;
    }
    let mut i: usize = 0;
    while i < a.len()
        invariant
            a@.len() == b@.len(),
            i <= a@.len(),
            forall|k: int| 0 <= k < i ==> a@[k] == b@[k],
        decreases a@.len() - i,
    {
        if a[i] != b[i] {
            return false;
        }
        i += 1;
    }
    assert(a@ =~= b@);
    true
}

/// Whether two texts are equal.
fn str_eq(a: &str, b: &str) -> (r: bool)
    ensures
        r == (a@ == b@),
{
    let r = bytes_eq(a.as_bytes(), b.as_bytes());
    proof {
        encode_utf8_decode_utf8(a@);
        encode_utf8_decode_utf8(b@);
    }
    r
}

/// Why a query on a frame failed.
#[derive(Debug, PartialEq, Eq, Structural, Clone, Copy)]
pub enum FrameError {
    /// No column has the given name, or the index is past the last column.
    NoSuchColumn,
    /// The column's representation does not offer the operation.
    WrongType,
    /// The column's values have no hashing rule.
    NonHashable,
    /// The column has more rows than a mask can hold.
    TooManyRows,
    /// The sum does not fit the column's integer type.
    Overflow,
}

/// A table: columns of equal length, bound to their tags and names once the
/// first rows have arrived.
pub struct Frame {
    index: Vec<usize>,
    columns: Vec<Column>,
    n_chunks: usize,
    names: Option<ParsedBytes>,
    header_wanted: bool,
}

impl Frame {
    pub closed spec fn cols(&self) -> Seq<Column> {
        self.columns@
    }

    /// How many chunks were ingested (it stops counting at `usize::MAX`).
    pub closed spec fn chunks(&self) -> int {
        self.n_chunks as int
    }

    /// The header read before any row arrived.
    pub closed spec fn pending_header(&self) -> Option<Seq<Seq<u8>>> {
        match self.names {
            Some(h) => Some(h@),
            None => None,
        }
    }

    /// Whether a header line is still expected at the start of the stream.
    pub closed spec fn awaits_header(&self) -> bool {
        self.header_wanted
    }

    /// The number of rows: the length of every column.
    pub open spec fn rows(&self) -> int {
        if self.cols().len() == 0 {
            0
        } else {
            self.cols()[0].values().len() as int
        }
    }

    /// Every column is well formed, all have the same length, and the row
    /// index counts the rows.
    pub closed spec fn wf(&self) -> bool {
        &&& forall|j: int|
            0 <= j < self.columns@.len() ==> (#[trigger] self.columns@[j]).wf() && self.columns@[j].values().len()
                == self.index@.len()
        &&& forall|i: int| 0 <= i < self.index@.len() ==> #[trigger] self.index@[i] == i
        &&& self.columns@.len() == 0 ==> self.index@.len() == 0
        &&& self.names matches Some(h) ==> h.wf()
    }

    pub fn new() -> (r: Self)
        ensures
            r.wf(),
            r.cols().len() == 0,
            r.chunks() == 0,
            r.pending_header() is None,
            !r.awaits_header(),
    {
        Self { index: Vec::new(), columns: Vec::new(), n_chunks: 0, names: None, header_wanted: false }
    }

    /// Extends the row index to the current number of rows.
    fn extend_index(&mut self, height: usize)
        requires
            forall|i: int| 0 <= i < old(self).index@.len() ==> #[trigger] old(self).index@[i] == i,
            old(self).index@.len() <= height,
        ensures
            final(self).index@.len() == height,
            forall|i: int| 0 <= i < final(self).index@.len() ==> #[trigger] final(self).index@[i] == i,
            final(self).columns == old(self).columns,
            final(self).n_chunks == old(self).n_chunks,
            final(self).names == old(self).names,
            final(self).header_wanted == old(self).header_wanted,
    {
        let mut i = self.index.len();
        while i < height
            invariant
                i == self.index@.len(),
                i <= height,
                forall|k: int| 0 <= k < self.index@.len() ==> #[trigger] self.index@[k] == k,
                self.columns == old(self).columns,
                self.n_chunks == old(self).n_chunks,
                self.names == old(self).names,
                self.header_wanted == old(self).header_wanted,
            decreases height - i,
        {
            self.index.push(i);
            i += 1;
        }
    }

    /// Makes the columns from the first rows: infers each column's tag from
    /// a sample of its words and names it from the header or with a fallback
    /// label.
    pub fn new_from_entry(&mut self, entry: ChunkFromJsBytes)
        requires
            old(self).wf(),
            old(self).cols().len() == 0,
            entry.wf(),
            entry.words().len() > 0,
        ensures
            final(self).wf(),
            final(self).cols().len() == entry.words().len(),
            forall|j: int|
                0 <= j < final(self).cols().len() ==> (#[trigger] final(self).cols()[j]).code() == inferred_code(
                    entry.words()[j],
                ) && final(self).cols()[j].values() == entry.words()[j].map_values(
                    |w: Seq<u8>| word_value(final(self).cols()[j].code(), w),
                ) && final(self).cols()[j].name_view() == column_name(
                    if entry.header_words() is Some {
                        entry.header_words()
                    } else {
                        old(self).pending_header()
                    },
                    j,
                ),
            final(self).chunks() == old(self).chunks(),
            final(self).pending_header() is None,
            final(self).awaits_header() == old(self).awaits_header(),
    {
        let header = match entry.header {
            Some(h) => Some(h),
            None => self.names.take(),
        };
        let ghost hw = header_view(header);
        assert(hw == if entry.header_words() is Some { entry.header_words() } else { old(self).pending_header() });
        let buffers = entry.buffers;
        let width = buffers.len();
        let rows = buffers[0].len();
        let n_words = if rows / 10 > 1 {
            rows / 10
        } else {
            1
        };
        let mut filler = HeaderFillerGenerator::default();
        let mut columns: Vec<Column> = Vec::new();
        let mut j: usize = 0;
        while j < width
            invariant
                width == buffers@.len(),
                width > 0,
                rows == buffers@[0]@.len(),
                n_words == sample_size(rows as int),
                forall|c: int|
                    0 <= c < width ==> (#[trigger] buffers@[c]).wf() && buffers@[c]@.len() == buffers@[0]@.len(),
                forall|c: int| 0 <= c < width ==> #[trigger] entry.words()[c] == buffers@[c]@,
                header matches Some(h) ==> h.wf(),
                hw == header_view(header),
                j <= width,
                columns@.len() == j,
                filler.wf(),
                filler.alphabet() == latin_pairs(),
                filler.position() == if j < 702 { j as int } else { 702 },
                forall|c: int|
                    0 <= c < j ==> (#[trigger] columns@[c]).wf() && columns@[c].code() == inferred_code(buffers@[c]@)
                        && columns@[c].values() == buffers@[c]@.map_values(
                        |w: Seq<u8>| word_value(columns@[c].code(), w),
                    ) && columns@[c].name_view() == column_name(hw, c),
            decreases width - j,
        {
            let words = &buffers[j];
            let code = storage_code_of(infer_code(words, n_words));
            let series = SeriesEnum::from_words(code, words);
            proof {
                assert(latin_pairs().len() == 26);
                if j < 702 {
                    assert(filler_label(latin_pairs(), j as int) is Some);
                } else {
                    assert(filler_label(latin_pairs(), 702) is None);
                }
            }
            let label = filler.next();
            let name = match &header {
                Some(h) => {
                    if j < h.len() {
                        text_or_empty(h.get(j))
                    } else {
                        String::new()
                    }
                },
                None => match label {
                    Some(l) => text_or_empty(l.as_slice()),
                    None => String::new(),
                },
            };
            let column = Column::new(series, name, code);
            let ghost old_cols = columns@;
            columns.push(column);
            proof {
                assert forall|c: int| 0 <= c < j + 1 implies (#[trigger] columns@[c]).wf() && columns@[c].code()
                    == inferred_code(buffers@[c]@) && columns@[c].values() == buffers@[c]@.map_values(
                    |w: Seq<u8>| word_value(columns@[c].code(), w),
                ) && columns@[c].name_view() == column_name(hw, c) by {
                    if c < j {
                        assert(columns@[c] == old_cols[c]);
                    } else {
                        assert(buffers@[c].wf());
                    }
                }
            }
            j += 1;
        }
        self.columns = columns;
        self.names = None;
        self.extend_index(rows);
        proof {
            assert forall|c: int| 0 <= c < width implies #[trigger] entry.words()[c] == buffers@[c]@ by {}
            assert forall|c: int|
                0 <= c < self.columns@.len() implies (#[trigger] self.columns@[c]).wf() && self.columns@[c].values().len()
                == self.index@.len() by {
                assert(buffers@[c].wf());
            }
        }
    }

    /// Appends the rows read from a chunk to the existing columns.
    fn extend_from_buffers(&mut self, entry: ChunkFromJsBytes)
        requires
            old(self).wf(),
            old(self).cols().len() > 0,
            entry.wf(),
            entry.words().len() == old(self).cols().len(),
        ensures
            final(self).wf(),
            final(self).cols().len() == old(self).cols().len(),
            forall|j: int|
                0 <= j < final(self).cols().len() ==> (#[trigger] final(self).cols()[j]).code() == old(
                    self,
                ).cols()[j].code() && final(self).cols()[j].name_view() == old(self).cols()[j].name_view()
                    && final(self).cols()[j].values() == old(self).cols()[j].values() + entry.words()[j].map_values(
                    |w: Seq<u8>| word_value(old(self).cols()[j].code(), w),
                ),
            final(self).chunks() == old(self).chunks(),
            final(self).pending_header() == old(self).pending_header(),
            final(self).awaits_header() == old(self).awaits_header(),
    {
        let buffers = entry.buffers;
        let width = self.columns.len();
        let ghost old_cols = self.columns@;
        let ghost h = old(self).index@.len();
        let added = buffers[0].len();
        let mut j: usize = 0;
        while j < width
            invariant
                width == self.columns@.len(),
                width == buffers@.len(),
                width == old_cols.len(),
                added == buffers@[0]@.len(),
                h == old(self).index@.len(),
                forall|c: int|
                    0 <= c < width ==> (#[trigger] buffers@[c]).wf() && buffers@[c]@.len() == buffers@[0]@.len(),
                forall|c: int| 0 <= c < width ==> #[trigger] entry.words()[c] == buffers@[c]@,
                forall|c: int| 0 <= c < width ==> (#[trigger] old_cols[c]).wf() && old_cols[c].values().len() == h,
                j <= width,
                forall|c: int|
                    0 <= c < width ==> (#[trigger] self.columns@[c]).wf() && self.columns@[c].code() == old_cols[c].code()
                        && self.columns@[c].name_view() == old_cols[c].name_view() && self.columns@[c].values() == if c
                        < j {
                        old_cols[c].values() + buffers@[c]@.map_values(|w: Seq<u8>| word_value(old_cols[c].code(), w))
                    } else {
                        old_cols[c].values()
                    },
                self.index == old(self).index,
                self.n_chunks == old(self).n_chunks,
                self.names == old(self).names,
                self.header_wanted == old(self).header_wanted,
            decreases width - j,
        {
            let ghost before = self.columns@;
            assert(before[j as int].wf());
            assert(buffers@[j as int].wf());
            self.columns[j].extend_from_words(&buffers[j]);
            proof {
                assert forall|c: int| 0 <= c < width implies (#[trigger] self.columns@[c]).wf() && self.columns@[c].code()
                    == old_cols[c].code() && self.columns@[c].name_view() == old_cols[c].name_view()
                    && self.columns@[c].values() == if c < j + 1 {
                    old_cols[c].values() + buffers@[c]@.map_values(|w: Seq<u8>| word_value(old_cols[c].code(), w))
                } else {
                    old_cols[c].values()
                } by {
                    if c != j {
                        assert(self.columns@[c] == before[c]);
                    }
                }
            }
            j += 1;
        }
        let ghost mid = self.columns@;
        proof {
            assert(old_cols[0].wf());
            assert(buffers@[0].wf());
            assert(mid[0].wf());
        }
        let new_height = self.columns[0].len();
        self.extend_index(new_height);
        proof {
            assert forall|c: int|
                0 <= c < self.columns@.len() implies (#[trigger] self.columns@[c]).wf() && self.columns@[c].values().len()
                == self.index@.len() by {
                assert(mid[c].wf());
                assert(buffers@[c].wf());
                assert(old_cols[c].wf());
            }
        }
    }

    /// Ingests one chunk of the stream. The remainder of the previous chunk
    /// is put in front of it; the header line is taken off when one is
    /// wanted and no column exists yet; every line but the last becomes a
    /// row. While no column exists, the first rows make the columns. The
    /// bytes of the last line are returned, to be handed back with the next
    /// chunk or, at the end of the stream, to `append_remainder`.
    pub fn append(&mut self, bytes: &[u8], skip_header: bool, remaining_bytes: &[u8]) -> (r: Vec<u8>)
        requires
            old(self).wf(),
            remaining_bytes@.len() + bytes@.len() < usize::MAX,
        ensures
            final(self).wf(),
            r@ == tail_of(remaining_bytes@ + bytes@),
            final(self).chunks() == if old(self).chunks() < usize::MAX {
                old(self).chunks() + 1
            } else {
                old(self).chunks()
            },
            old(self).cols().len() > 0 ==> grown_by(
                *old(self),
                *final(self),
                complete_lines(lines_of(remaining_bytes@ + bytes@), false),
            ),
            old(self).cols().len() > 0 ==> final(self).pending_header() == old(self).pending_header(),
            old(self).cols().len() == 0 ==> ({
                let want = skip_header && old(self).pending_header() is None;
                let ls = lines_of(remaining_bytes@ + bytes@);
                let rows = complete_lines(ls, want);
                let header = if takes_header(ls, want) {
                    Some(fields_of(ls[0], COMMA))
                } else {
                    old(self).pending_header()
                };
                &&& rows.len() > 0 ==> bound_by(*final(self), rows, chunk_width(ls, want, 0), header)
                &&& rows.len() == 0 ==> final(self).cols().len() == 0 && final(self).pending_header() == header
                &&& final(self).awaits_header() == skip_header
            }),
    {
        let unbound = self.columns.len() == 0;
        let want = skip_header && unbound && self.names.is_none();
        if unbound {
            self.header_wanted = skip_header;
        }
        let old_rem = if remaining_bytes.len() > 0 {
            Some(slice_to_vec(remaining_bytes))
        } else {
            None
        };
        let builder = ChunkFromJsBytes::from_bytes(bytes).with_missing_bytes(old_rem).with_header(want).with_column_number(
            self.columns.len(),
        );
        proof {
            assert(builder.input() =~= remaining_bytes@ + bytes@);
        }
        let read = builder.read();
        let ghost ls = lines_of(remaining_bytes@ + bytes@);
        let ghost body = body_lines(ls, want);
        let ghost width = read.words().len() as int;
        let chunk = read.pull_last_line();
        let ret = match &chunk.remainder {
            Some(r) => r.clone(),
            None => Vec::new(),
        };
        proof {
            assert forall|j: int| 0 <= j < width implies #[trigger] chunk.words()[j] == column_words(
                complete_lines(ls, want),
                width,
                j,
            ) by {
                assert(read.words()[j] == column_words(body, width, j));
                if body.len() > 0 {
                    lemma_column_words_drop_last(body, width, j);
                } else {
                    assert(column_words(body, width, j) =~= column_words(complete_lines(ls, want), width, j));
                }
            }
            if body.len() > 0 && !(self.columns.len() > 0) {
                crate::csv_parser::lemma_fields_len(body[0], COMMA);
            }
        }
        if self.columns.len() == 0 {
            if chunk.buffers.len() > 0 && chunk.buffers[0].len() > 0 {
                proof {
                    assert(chunk.words()[0] == chunk.buffers@[0]@);
                    assert(complete_lines(ls, want).len() > 0);
                }
                self.new_from_entry(chunk);
            } else {
                proof {
                    if chunk.buffers@.len() > 0 {
                        assert(chunk.words()[0] == chunk.buffers@[0]@);
                    }
                }
                match chunk.header {
                    Some(h) => {
                        self.names = Some(h);
                    },
                    None => {},
                }
            }
        } else {
            self.extend_from_buffers(chunk);
        }
        if self.n_chunks < usize::MAX {
            self.n_chunks += 1;
        }
        ret
    }

    /// Appends one complete row. While no column exists, the row makes the
    /// columns, named from the header read so far or with fallback labels.
    pub fn append_line(&mut self, bytes: &[u8])
        requires
            old(self).wf(),
            bytes@.len() < usize::MAX,
        ensures
            final(self).wf(),
            final(self).chunks() == old(self).chunks(),
            final(self).awaits_header() == old(self).awaits_header(),
            old(self).cols().len() > 0 ==> grown_by(*old(self), *final(self), seq![bytes@]),
            old(self).cols().len() > 0 ==> final(self).pending_header() == old(self).pending_header(),
            old(self).cols().len() == 0 ==> bound_by(
                *final(self),
                seq![bytes@],
                fields_of(bytes@, COMMA).len() as int,
                old(self).pending_header(),
            ),
    {
        let chunk = ChunkFromJsBytes::single_line(bytes, self.columns.len());
        if self.columns.len() == 0 {
            proof {
                crate::csv_parser::lemma_fields_len(bytes@, COMMA);
            }
            self.new_from_entry(chunk);
        } else {
            self.extend_from_buffers(chunk);
        }
    }

    /// Takes in what was left over when the stream ended: its first line is
    /// the last row (or, when a header is still expected, the header).
    pub fn append_remainder(&mut self, line: &[u8])
        requires
            old(self).wf(),
            line@.len() < usize::MAX,
        ensures
            final(self).wf(),
            final(self).chunks() == old(self).chunks(),
            lines_of(line@).len() == 0 ==> final(self).cols() == old(self).cols() && final(self).pending_header()
                == old(self).pending_header(),
            lines_of(line@).len() > 0 && old(self).cols().len() == 0 && old(self).awaits_header()
                && old(self).pending_header() is None ==> final(self).cols().len() == 0 && final(self).pending_header()
                == Some(fields_of(lines_of(line@)[0], COMMA)),
            lines_of(line@).len() > 0 && old(self).cols().len() > 0 ==> grown_by(
                *old(self),
                *final(self),
                seq![lines_of(line@)[0]],
            ),
            lines_of(line@).len() > 0 && old(self).cols().len() == 0 && !(old(self).awaits_header()
                && old(self).pending_header() is None) ==> bound_by(
                *final(self),
                seq![lines_of(line@)[0]],
                fields_of(lines_of(line@)[0], COMMA).len() as int,
                old(self).pending_header(),
            ),
    {
        let mut sp = LineSplitter::from_bytes(line);
        match sp.next() {
            None => {},
            Some(first) => {
                proof {
                    lemma_lines_short(line@);
                }
                if self.columns.len() == 0 && self.header_wanted && self.names.is_none() {
                    self.names = Some(words_of(first));
                } else {
                    self.append_line(first);
                }
            },
        }
    }

    /// How many chunks were ingested.
    pub fn n_chunks(&self) -> (r: usize)
        ensures
            r == self.chunks(),
    {
        self.n_chunks
    }

    /// Column `i`.
    pub fn column_at(&self, i: usize) -> (r: &Column)
        requires
            i < self.cols().len(),
        ensures
            *r == self.cols()[i as int],
            self.wf() ==> r.wf(),
    {
        &self.columns[i]
    }

    /// The number of columns.
    pub fn width(&self) -> (r: usize)
        ensures
            r == self.cols().len(),
    {
        self.columns.len()
    }

    /// The number of rows: the length of the first column, or zero.
    pub fn height(&self) -> (r: usize)
        ensures
            r == self.rows(),
    {
        if self.columns.len() == 0 {
            0
        } else {
            self.columns[0].len()
        }
    }

    /// The names of the columns.
    pub fn header(&self) -> (r: Vec<String>)
        ensures
            r@.len() == self.cols().len(),
            forall|j: int| 0 <= j < r@.len() ==> #[trigger] r@[j]@ == self.cols()[j].name_view(),
    {
        let mut out: Vec<String> = Vec::new();
        let mut j: usize = 0;
        while j < self.columns.len()
            invariant
                j <= self.cols().len(),
                out@.len() == j,
                forall|c: int| 0 <= c < j ==> #[trigger] out@[c]@ == self.cols()[c].name_view(),
            decreases self.cols().len() - j,
        {
            let name = self.columns[j].name();
            let owned = name.to_owned();
            out.push(owned);
            j += 1;
        }
        out
    }

    /// The tags of the columns.
    pub fn dtypes(&self) -> (r: Vec<Codes>)
        ensures
            r@.len() == self.cols().len(),
            forall|j: int| 0 <= j < r@.len() ==> #[trigger] r@[j] == self.cols()[j].code(),
    {
        let mut out: Vec<Codes> = Vec::new();
        let mut j: usize = 0;
        while j < self.columns.len()
            invariant
                j <= self.cols().len(),
                out@.len() == j,
                forall|c: int| 0 <= c < j ==> #[trigger] out@[c] == self.cols()[c].code(),
            decreases self.cols().len() - j,
        {
            out.push(self.columns[j].dtype());
            j += 1;
        }
        out
    }

    /// Renders the rows `[offset, offset + size)` of every column.
    pub fn get_chunk(&self, offset: usize, size: usize) -> (r: Vec<String>)
        ensures
            r@.len() == self.cols().len(),
            forall|j: int|
                0 <= j < r@.len() ==> #[trigger] r@[j]@ == rendered(
                    window(self.cols()[j].values(), offset as int, size as int),
                ),
    {
        let mut out: Vec<String> = Vec::new();
        let mut j: usize = 0;
        while j < self.columns.len()
            invariant
                j <= self.cols().len(),
                out@.len() == j,
                forall|c: int|
                    0 <= c < j ==> #[trigger] out@[c]@ == rendered(
                        window(self.cols()[c].values(), offset as int, size as int),
                    ),
            decreases self.cols().len() - j,
        {
            out.push(self.columns[j].join(offset, size));
            j += 1;
        }
        out
    }

    /// The position of the first column with the given name.
    pub fn position_of(&self, name: &str) -> (r: Option<usize>)
        ensures
            r matches Some(i) ==> i < self.cols().len() && self.cols()[i as int].name_view() == name@ && forall|
                k: int,
            | 0 <= k < i ==> (#[trigger] self.cols()[k]).name_view() != name@,
            r is None ==> forall|k: int| 0 <= k < self.cols().len() ==> (#[trigger] self.cols()[k]).name_view() != name@,
    {
        let mut j: usize = 0;
        while j < self.columns.len()
            invariant
                j <= self.cols().len(),
                forall|k: int| 0 <= k < j ==> (#[trigger] self.cols()[k]).name_view() != name@,
            decreases self.cols().len() - j,
        {
            if str_eq(self.columns[j].name(), name) {
                return Some(j);
            }
            j += 1;
        }
        None
    }

    /// The first column with the given name.
    pub fn find_by_name(&self, name: &str) -> (r: Option<&Column>)
        ensures
            r matches Some(c) ==> exists|i: int|
                0 <= i < self.cols().len() && self.cols()[i] == *c && c.name_view() == name@ && forall|k: int|
                    0 <= k < i ==> (#[trigger] self.cols()[k]).name_view() != name@,
            r is None ==> forall|k: int| 0 <= k < self.cols().len() ==> (#[trigger] self.cols()[k]).name_view() != name@,
    {
        match self.position_of(name) {
            Some(i) => Some(&self.columns[i]),
            None => None,
        }
    }

    /// The sum of column `index`, rendered.
    pub fn sum_column(&self, index: usize) -> (r: Result<String, FrameError>)
        requires
            self.wf(),
        ensures
            index >= self.cols().len() ==> r == Err::<String, FrameError>(FrameError::NoSuchColumn),
            index < self.cols().len() && !summable(self.cols()[index as int].code()) ==> r == Err::<String, FrameError>(
                FrameError::WrongType,
            ),
            index < self.cols().len() && summable(self.cols()[index as int].code()) && !sum_fits(
                self.cols()[index as int].code(),
                self.cols()[index as int].values(),
            ) ==> r == Err::<String, FrameError>(FrameError::Overflow),
            index < self.cols().len() && summable(self.cols()[index as int].code()) && sum_fits(
                self.cols()[index as int].code(),
                self.cols()[index as int].values(),
            ) ==> (r matches Ok(s) && s@ == rendered(seq![Value::Int(int_total(self.cols()[index as int].values()))])),
    {
        if index >= self.columns.len() {
            return Err(FrameError::NoSuchColumn);
        }
        proof {
            assert(self.cols()[index as int].wf());
        }
        match self.columns[index].sum() {
            Ok(c) => {
                let s = c.first();
                proof {
                    assert(window(c.values(), 0, 1) =~= c.values());
                }
                Ok(s)
            },
            Err(SumError::WrongType) => Err(FrameError::WrongType),
            Err(SumError::Overflow) => Err(FrameError::Overflow),
        }
    }

    /// The distinct values of the named column, rendered.
    pub fn distinct(&self, column: &str) -> (r: Result<String, FrameError>)
        requires
            self.wf(),
        ensures
            (forall|k: int| 0 <= k < self.cols().len() ==> (#[trigger] self.cols()[k]).name_view() != column@) ==> r
                == Err::<String, FrameError>(FrameError::NoSuchColumn),
            r matches Ok(s) ==> exists|i: int|
                0 <= i < self.cols().len() && (#[trigger] self.cols()[i]).name_view() == column@ && hashable(
                    self.cols()[i].code(),
                ) && s@ == rendered(crate::cells::dedup(self.cols()[i].values())),
            r == Err::<String, FrameError>(FrameError::NonHashable) ==> exists|i: int|
                0 <= i < self.cols().len() && (#[trigger] self.cols()[i]).name_view() == column@ && !hashable(
                    self.cols()[i].code(),
                ),
            r is Err ==> r == Err::<String, FrameError>(FrameError::NoSuchColumn) || r == Err::<String, FrameError>(
                FrameError::NonHashable,
            ),
            (exists|i: int|
                0 <= i < self.cols().len() && (#[trigger] self.cols()[i]).name_view() == column@ && hashable(
                    self.cols()[i].code(),
                ) && forall|k: int| 0 <= k < i ==> (#[trigger] self.cols()[k]).name_view() != column@) ==> r is Ok,
    {
        match self.position_of(column) {
            None => Err(FrameError::NoSuchColumn),
            Some(i) => {
                proof {
                    assert(self.cols()[i as int].wf());
                }
                match self.columns[i].distinct() {
                    Ok(s) => Ok(s),
                    Err(_) => Err(FrameError::NonHashable),
                }
            },
        }
    }
}

/// The tag a column is stored under.
fn storage_code_of(code: Codes) -> (r: Codes)
    ensures
        r == storage_code(code),
{
    match code {
        Codes::Boolean => Codes::Boolean,
        Codes::Int32 => Codes::Int32,
        Codes::Int64 => Codes::Int64,
        Codes::Int128 => Codes::Int128,
        Codes::Float32 => Codes::Float32,
        Codes::Float64 => Codes::Float64,
        _ => Codes::Any,
    }
}

/// `new` holds the columns of `old`, each grown by its word of each row.
pub open spec fn grown_by(old: Frame, new: Frame, rows: Seq<Seq<u8>>) -> bool {
    &&& new.cols().len() == old.cols().len()
    &&& forall|j: int|
        0 <= j < new.cols().len() ==> (#[trigger] new.cols()[j]).code() == old.cols()[j].code()
            && new.cols()[j].name_view() == old.cols()[j].name_view() && new.cols()[j].values()
            == old.cols()[j].values() + column_words(rows, old.cols().len() as int, j).map_values(
            |w: Seq<u8>| word_value(old.cols()[j].code(), w),
        )
}

/// `new` holds `width` columns made from the rows: each column's tag is
/// inferred from its words, and its name comes from `header`.
pub open spec fn bound_by(new: Frame, rows: Seq<Seq<u8>>, width: int, header: Option<Seq<Seq<u8>>>) -> bool {
    &&& new.cols().len() == width
    &&& forall|j: int|
        0 <= j < width ==> (#[trigger] new.cols()[j]).code() == inferred_code(column_words(rows, width, j))
            && new.cols()[j].values() == column_words(rows, width, j).map_values(
            |w: Seq<u8>| word_value(new.cols()[j].code(), w),
        ) && new.cols()[j].name_view() == column_name(header, j)
}

proof fn lemma_column_words_drop_last(body: Seq<Seq<u8>>, width: int, j: int)
    requires
        body.len() > 0,
    ensures
        column_words(body, width, j).drop_last() == column_words(body.drop_last(), width, j),
{
    assert(column_words(body, width, j).drop_last() =~= column_words(body.drop_last(), width, j));
}

} // verus!
