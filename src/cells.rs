//! The value model of one cell, its rendered text, and the algorithms that
//! every column representation shares: parsing words, rendering a window,
//! rendering the rows a mask keeps, equality masks and distinct values.
use vstd::prelude::*;
use vstd::string::StringExecFns;
use vstd::utf8::{decode_utf8, valid_utf8};

use bitvec::vec::BitVec;

use crate::parsed_bytes::ParsedBytes;
use crate::text::utf8_string;
use crate::type_parser::{bool_of_word, bytes_to_bool, int_in_range, is_float_text, lexical_i128, parse_i128, parse_i32, parse_i64};

verus! {

/// The separator between rendered cells; it does not occur in ordinary data.
pub const DELIMITER_TOKEN: &'static str = "DELIMITER_TOKEN";

/// What one cell holds, whatever the column's representation.
pub enum Value {
    Missing,
    Flag(bool),
    Int(int),
    Text(Seq<char>),
}

pub open spec fn delimiter() -> Seq<char> {
    DELIMITER_TOKEN@
}

pub open spec fn digit_char(d: int) -> char {
    ((d + 48) as u8) as char
}

/// The decimal digits of a natural number.
pub open spec fn digits_text(n: nat) -> Seq<char>
    decreases n,
{
    if n < 10 {
        seq![digit_char(n as int)]
    } else {
        digits_text(n / 10) + seq![digit_char((n % 10) as int)]
    }
}

/// An integer in decimal, with a leading minus sign when negative.
pub open spec fn int_text(v: int) -> Seq<char> {
    if v < 0 {
        seq!['-'] + digits_text((-v) as nat)
    } else {
        digits_text(v as nat)
    }
}

/// The rendered text of a value; a missing value renders as empty text.
pub open spec fn value_text(v: Value) -> Seq<char> {
    match v {
        Value::Missing => seq![],
        Value::Flag(b) => if b {
            seq!['t', 'r', 'u', 'e']
        } else {
            seq!['f', 'a', 'l', 's', 'e']
        },
        Value::Int(i) => int_text(i),
        Value::Text(s) => s,
    }
}

pub open spec fn texts(vs: Seq<Value>) -> Seq<Seq<char>> {
    vs.map_values(|v: Value| value_text(v))
}

/// The parts joined with `sep` between each two of them.
pub open spec fn join(parts: Seq<Seq<char>>, sep: Seq<char>) -> Seq<char>
    decreases parts.len(),
{
    if parts.len() == 0 {
        seq![]
    } else if parts.len() == 1 {
        parts[0]
    } else {
        join(parts.drop_last(), sep) + sep + parts.last()
    }
}

/// The values rendered one after another, separated by the delimiter token.
pub open spec fn rendered(vs: Seq<Value>) -> Seq<char> {
    join(texts(vs), delimiter())
}

pub open spec fn min_int(a: int, b: int) -> int {
    if a < b {
        a
    } else {
        b
    }
}

/// The part of `s` from position `offset`, at most `count` items long.
pub open spec fn window<A>(s: Seq<A>, offset: int, count: int) -> Seq<A> {
    s.subrange(min_int(offset, s.len() as int), min_int(offset + count, s.len() as int))
}

/// The items among the first `n` of `s` whose bit is set.
pub open spec fn select<A>(s: Seq<A>, bits: Seq<bool>, n: int) -> Seq<A>
    decreases n,
{
    if n <= 0 {
        seq![]
    } else if bits[n - 1] {
        select(s, bits, n - 1).push(s[n - 1])
    } else {
        select(s, bits, n - 1)
    }
}

/// The items of `s` whose bit is set; items past the end of `bits` are dropped.
pub open spec fn kept<A>(s: Seq<A>, bits: Seq<bool>) -> Seq<A> {
    select(s, bits, min_int(s.len() as int, bits.len() as int))
}

/// The items of `s` in order of first occurrence, each once.
pub open spec fn dedup<A>(s: Seq<A>) -> Seq<A>
    decreases s.len(),
{
    if s.len() == 0 {
        seq![]
    } else if dedup(s.drop_last()).contains(s.last()) {
        dedup(s.drop_last())
    } else {
        dedup(s.drop_last()).push(s.last())
    }
}

/// Relies on `ToString` for `i128`, that is on its `Display`: the value in
/// decimal digits, with a leading minus sign when it is negative.
#[verifier::external_body]
pub(crate) fn decimal_string(v: i128) -> (r: String)
    ensures
        r@ == int_text(v as int),
{
    v.to_string()
}

/// One cell of a column: how a word is read into it, what value it holds,
/// and how it renders.
pub trait Cell: Sized {
    spec fn value(&self) -> Value;

    /// The value a word reads as.
    spec fn value_of_word(w: Seq<u8>) -> Value;

    fn parse(w: &[u8]) -> (r: Self)
        ensures
            r.value() == Self::value_of_word(w@),
    ;

    fn text(&self) -> (r: String)
        ensures
            r@ == value_text(self.value()),
    ;

    fn same(&self, other: &Self) -> (r: bool)
        ensures
            r == (self.value() == other.value()),
    ;
}

pub open spec fn values_of<C: Cell>(cells: Seq<C>) -> Seq<Value> {
    cells.map_values(|c: C| c.value())
}

fn bool_text(b: bool) -> (r: String)
    ensures
        r@ == value_text(Value::Flag(b)),
{
    if b {
        let s = String::from_str("true");
        proof {
            reveal_strlit("true");
        }
        assert(s@ =~= seq!['t', 'r', 'u', 'e']);
        s
    } else {
        let s = String::from_str("false");
        proof {
            reveal_strlit("false");
        }
        assert(s@ =~= seq!['f', 'a', 'l', 's', 'e']);
        s
    }
}

fn empty_text() -> (r: String)
    ensures
        r@ == value_text(Value::Missing),
{
    String::new()
}

impl Cell for Option<bool> {
    open spec fn value(&self) -> Value {
        match self {
            Some(b) => Value::Flag(*b),
            None => Value::Missing,
        }
    }

    open spec fn value_of_word(w: Seq<u8>) -> Value {
        match bool_of_word(w) {
            Some(b) => Value::Flag(b),
            None => Value::Missing,
        }
    }

    fn parse(w: &[u8]) -> (r: Self) {
        bytes_to_bool(w)
    }

    fn text(&self) -> (r: String) {
        match self {
            Some(b) => bool_text(*b),
            None => empty_text(),
        }
    }

    fn same(&self, other: &Self) -> (r: bool) {
        match (self, other) {
            (Some(a), Some(b)) => *a == *b,
            (None, None) => true,
            _ => false,
        }
    }
}

/// The value of a word read into an integer column whose range is `[lo, hi]`.
pub open spec fn int_value_of_word(w: Seq<u8>, lo: int, hi: int) -> Value {
    match int_in_range(w, lo, hi) {
        Some(v) => Value::Int(v),
        None => Value::Missing,
    }
}

impl Cell for Option<i32> {
    open spec fn value(&self) -> Value {
        match self {
            Some(v) => Value::Int(*v as int),
            None => Value::Missing,
        }
    }

    open spec fn value_of_word(w: Seq<u8>) -> Value {
        int_value_of_word(w, i32::MIN as int, i32::MAX as int)
    }

    fn parse(w: &[u8]) -> (r: Self) {
        parse_i32(w)
    }

    fn text(&self) -> (r: String) {
        match self {
            Some(v) => decimal_string(*v as i128),
            None => empty_text(),
        }
    }

    fn same(&self, other: &Self) -> (r: bool) {
        match (self, other) {
            (Some(a), Some(b)) => *a == *b,
            (None, None) => true,
            _ => false,
        }
    }
}

impl Cell for Option<i64> {
    open spec fn value(&self) -> Value {
        match self {
            Some(v) => Value::Int(*v as int),
            None => Value::Missing,
        }
    }

    open spec fn value_of_word(w: Seq<u8>) -> Value {
        int_value_of_word(w, i64::MIN as int, i64::MAX as int)
    }

    fn parse(w: &[u8]) -> (r: Self) {
        parse_i64(w)
    }

    fn text(&self) -> (r: String) {
        match self {
            Some(v) => decimal_string(*v as i128),
            None => empty_text(),
        }
    }

    fn same(&self, other: &Self) -> (r: bool) {
        match (self, other) {
            (Some(a), Some(b)) => *a == *b,
            (None, None) => true,
            _ => false,
        }
    }
}

impl Cell for Option<i128> {
    open spec fn value(&self) -> Value {
        match self {
            Some(v) => Value::Int(*v as int),
            None => Value::Missing,
        }
    }

    open spec fn value_of_word(w: Seq<u8>) -> Value {
        match lexical_i128(w) {
            Some(v) => Value::Int(v as int),
            None => Value::Missing,
        }
    }

    fn parse(w: &[u8]) -> (r: Self) {
        parse_i128(w)
    }

    fn text(&self) -> (r: String) {
        match self {
            Some(v) => decimal_string(*v),
            None => empty_text(),
        }
    }

    fn same(&self, other: &Self) -> (r: bool) {
        match (self, other) {
            (Some(a), Some(b)) => *a == *b,
            (None, None) => true,
            _ => false,
        }
    }
}

/// The value of a word read as text: its UTF-8 decoding, or missing.
pub open spec fn text_value_of_word(w: Seq<u8>) -> Value {
    if valid_utf8(w) {
        Value::Text(decode_utf8(w))
    } else {
        Value::Missing
    }
}

fn clone_text(s: &String) -> (r: String)
    ensures
        r@ == s@,
{
    s.clone()
}

impl Cell for Option<String> {
    open spec fn value(&self) -> Value {
        match self {
            Some(s) => Value::Text(s@),
            None => Value::Missing,
        }
    }

    open spec fn value_of_word(w: Seq<u8>) -> Value {
        text_value_of_word(w)
    }

    fn parse(w: &[u8]) -> (r: Self) {
        utf8_string(w)
    }

    fn text(&self) -> (r: String) {
        match self {
            Some(s) => clone_text(s),
            None => empty_text(),
        }
    }

    fn same(&self, other: &Self) -> (r: bool) {
        match (self, other) {
            (Some(a), Some(b)) => *a == *b,
            (None, None) => true,
            _ => false,
        }
    }
}

/// A cell of a floating-point column, held as the text it was read from; a
/// word that the float grammar (`is_float_text`) does not accept reads as
/// missing.
pub struct DecimalText(pub Option<String>);

/// The value of a word read into a floating-point column.
pub open spec fn decimal_value_of_word(w: Seq<u8>) -> Value {
    if is_float_text(w) && valid_utf8(w) {
        Value::Text(decode_utf8(w))
    } else {
        Value::Missing
    }
}

impl Cell for DecimalText {
    open spec fn value(&self) -> Value {
        match self.0 {
            Some(s) => Value::Text(s@),
            None => Value::Missing,
        }
    }

    open spec fn value_of_word(w: Seq<u8>) -> Value {
        decimal_value_of_word(w)
    }

    fn parse(w: &[u8]) -> (r: Self) {
        let b = crate::type_parser::is_float_text_bytes(w);
        if b {
            DecimalText(utf8_string(w))
        } else {
            DecimalText(None)
        }
    }

    fn text(&self) -> (r: String) {
        match &self.0 {
            Some(s) => clone_text(s),
            None => empty_text(),
        }
    }

    fn same(&self, other: &Self) -> (r: bool) {
        match (&self.0, &other.0) {
            (Some(a), Some(b)) => *a == *b,
            (None, None) => true,
            _ => false,
        }
    }
}

/// Reads each word into a cell and appends the cells.
pub fn append_words<C: Cell>(cells: &mut Vec<C>, words: &ParsedBytes)
    requires
        words.wf(),
    ensures
        values_of(final(cells)@) == values_of(old(cells)@) + words@.map_values(|w: Seq<u8>| C::value_of_word(w)),
{
    let n = words.len();
    let mut i: usize = 0;
    while i < n
        invariant
            words.wf(),
            n == words@.len(),
            i <= n,
            values_of(cells@) == values_of(old(cells)@) + words@.take(i as int).map_values(
                |w: Seq<u8>| C::value_of_word(w),
            ),
        decreases n - i,
    {
        let c = C::parse(words.get(i));
        let ghost prev = cells@;
        cells.push(c);
        proof {
            assert(values_of(cells@) =~= values_of(prev).push(c.value()));
            let f = |w: Seq<u8>| C::value_of_word(w);
            assert(words@.take(i + 1).map_values(f) =~= words@.take(i as int).map_values(f).push(
                C::value_of_word(words@[i as int]),
            ));
            assert(values_of(cells@) =~= values_of(old(cells)@) + words@.take(i + 1).map_values(f));
        }
        i += 1;
    }
    proof {
        assert(words@.take(n as int) =~= words@);
    }
}

/// Appends `sep` (unless `out` is the first part) and then `part`.
fn push_part(out: &mut String, part: &String, first: bool, Ghost(parts): Ghost<Seq<Seq<char>>>)
    requires
        first ==> parts.len() == 0,
        !first ==> parts.len() > 0,
        old(out)@ == join(parts, delimiter()),
    ensures
        final(out)@ == join(parts.push(part@), delimiter()),
{
    proof {
        reveal_strlit("DELIMITER_TOKEN");
        assert(parts.push(part@).drop_last() =~= parts);
    }
    if !first {
        out.append(DELIMITER_TOKEN);
    }
    out.append(part.as_str());
}

/// Renders the cells in `[offset, offset + count)`, cut at the end of the column.
pub fn render_window<C: Cell>(cells: &Vec<C>, offset: usize, count: usize) -> (r: String)
    ensures
        r@ == rendered(window(values_of(cells@), offset as int, count as int)),
{
    let n = cells.len();
    let start = if offset < n {
        offset
    } else {
        n
    };
    let end = if count < n - start {
        start + count
    } else {
        n
    };
    let ghost vs = values_of(cells@);
    let mut out = String::new();
    let mut i = start;
    while i < end
        invariant
            n == cells@.len(),
            vs == values_of(cells@),
            start <= i <= end <= n,
            out@ == rendered(vs.subrange(start as int, i as int)),
        decreases end - i,
    {
        let t = cells[i].text();
        push_part(&mut out, &t, i == start, Ghost(texts(vs.subrange(start as int, i as int))));
        proof {
            assert(texts(vs.subrange(start as int, i as int)).push(t@) =~= texts(
                vs.subrange(start as int, i + 1),
            ));
        }
        i += 1;
    }
    out
}

/// The number of bits a mask can hold (`BitSlice::MAX_BITS` for `usize` storage).
pub const MAX_MASK_BITS: usize = usize::MAX >> 3;

/// A bit per row, held in a `bitvec` bit-vector; Verus does not take the
/// declaration of `BitVec` itself (its parameters are bound by `bitvec`'s
/// own traits), so the vector stands in a field that Verus does not see.
#[verifier::external_body]
pub struct Mask {
    bits: BitVec,
}

/// The bits a bit-vector holds, in order.
pub uninterp spec fn mask_bits(m: Mask) -> Seq<bool>;

/// Relies on `BitVec::new`: an empty bit-vector.
#[verifier::external_body]
pub(crate) fn mask_new() -> (r: Mask)
    ensures
        mask_bits(r) == Seq::<bool>::empty(),
{
    Mask { bits: BitVec::new() }
}

/// Relies on `BitVec::push`: appends one bit; it panics only when the
/// length would pass `BitSlice::MAX_BITS`.
#[verifier::external_body]
pub(crate) fn mask_push(m: &mut Mask, bit: bool)
    requires
        mask_bits(*old(m)).len() < MAX_MASK_BITS,
    ensures
        mask_bits(*final(m)) == mask_bits(*old(m)).push(bit),
{
    m.bits.push(bit)
}

/// Relies on `BitVec::len`: the number of bits held.
#[verifier::external_body]
pub(crate) fn mask_len(m: &Mask) -> (r: usize)
    ensures
        r == mask_bits(*m).len(),
{
    m.bits.len()
}

/// Relies on indexing a `BitSlice` (reached through `BitVec`'s `Deref`): the
/// bit at `i`, which must be below the length.
#[verifier::external_body]
pub(crate) fn mask_get(m: &Mask, i: usize) -> (r: bool)
    requires
        i < mask_bits(*m).len(),
    ensures
        r == mask_bits(*m)[i as int],
{
    m.bits[i]
}

/// Renders the cells whose bit is set, then keeps the window
/// `[offset, offset + count)` of those.
pub fn render_masked<C: Cell>(cells: &Vec<C>, mask: &Mask, offset: usize, count: usize) -> (r: String)
    ensures
        r@ == rendered(window(kept(values_of(cells@), mask_bits(*mask)), offset as int, count as int)),
{
    let n = cells.len();
    let m = mask_len(mask);
    let stop = if n < m {
        n
    } else {
        m
    };
    let ghost vs = values_of(cells@);
    let ghost bits = mask_bits(*mask);
    let mut out = String::new();
    let mut seen: usize = 0;
    let mut i: usize = 0;
    while i < stop
        invariant
            n == cells@.len(),
            vs == values_of(cells@),
            bits == mask_bits(*mask),
            stop == min_int(n as int, bits.len() as int),
            i <= stop,
            seen <= i,
            seen == select(vs, bits, i as int).len(),
            out@ == rendered(window(select(vs, bits, i as int), offset as int, count as int)),
        decreases stop - i,
    {
        let ghost before = select(vs, bits, i as int);
        if mask_get(mask, i) {
            let ghost w = window(before, offset as int, count as int);
            proof {
                assert(select(vs, bits, i + 1) == before.push(vs[i as int]));
            }
            if seen >= offset && seen - offset < count {
                let t = cells[i].text();
                push_part(&mut out, &t, seen == offset, Ghost(texts(w)));
                proof {
                    assert(window(before.push(vs[i as int]), offset as int, count as int) =~= w.push(vs[i as int]));
                    assert(texts(w).push(t@) =~= texts(w.push(vs[i as int])));
                }
            } else {
                proof {
                    assert(window(before.push(vs[i as int]), offset as int, count as int) =~= w);
                }
            }
            seen += 1;
        }
        i += 1;
    }
    out
}

/// Whether some cell of `probe` holds the same value as `c`.
fn contains_value<C: Cell>(probe: &Vec<C>, c: &C) -> (r: bool)
    ensures
        r == values_of(probe@).contains(c.value()),
{
    let mut j: usize = 0;
    while j < probe.len()
        invariant
            j <= probe@.len(),
            forall|k: int| 0 <= k < j ==> probe@[k].value() != c.value(),
        decreases probe@.len() - j,
    {
        if probe[j].same(c) {
            proof {
                assert(values_of(probe@)[j as int] == c.value());
            }
            return true;
        }
        j += 1;
    }
    proof {
        if values_of(probe@).contains(c.value()) {
            let k = choose|k: int| 0 <= k < values_of(probe@).len() && values_of(probe@)[k] == c.value();
            assert(probe@[k].value() == c.value());
        }
    }
    false
}

/// One bit per cell: set where the cell's value is among the values of `probe`.
pub fn member_mask<C: Cell>(cells: &Vec<C>, probe: &Vec<C>) -> (r: Mask)
    requires
        cells@.len() <= MAX_MASK_BITS,
    ensures
        mask_bits(r) == Seq::new(cells@.len(), |i: int| values_of(probe@).contains(values_of(cells@)[i])),
{
    let mut mask = mask_new();
    let mut i: usize = 0;
    while i < cells.len()
        invariant
            cells@.len() <= MAX_MASK_BITS,
            i <= cells@.len(),
            mask_bits(mask) =~= Seq::new(i as nat, |k: int| values_of(probe@).contains(values_of(cells@)[k])),
        decreases cells@.len() - i,
    {
        let hit = contains_value(probe, &cells[i]);
        mask_push(&mut mask, hit);
        i += 1;
    }
    mask
}

/// Renders each distinct value once, in order of first occurrence.
pub fn distinct_text<C: Cell>(cells: &Vec<C>) -> (r: String)
    ensures
        r@ == rendered(dedup(values_of(cells@))),
{
    let ghost vs = values_of(cells@);
    let mut firsts: Vec<usize> = Vec::new();
    let mut i: usize = 0;
    while i < cells.len()
        invariant
            vs == values_of(cells@),
            i <= cells@.len(),
            forall|k: int| 0 <= k < firsts@.len() ==> firsts@[k] < i,
            firsts@.map_values(|p: usize| vs[p as int]) == dedup(vs.take(i as int)),
        decreases cells@.len() - i,
    {
        let ghost d = firsts@.map_values(|p: usize| vs[p as int]);
        let mut found = false;
        let mut j: usize = 0;
        while j < firsts.len()
            invariant
                vs == values_of(cells@),
                i < cells@.len(),
                j <= firsts@.len(),
                d == firsts@.map_values(|p: usize| vs[p as int]),
                forall|k: int| 0 <= k < firsts@.len() ==> firsts@[k] < i,
                found == d.take(j as int).contains(vs[i as int]),
            decreases firsts@.len() - j,
        {
            let same = cells[firsts[j]].same(&cells[i]);
            proof {
                let x = vs[i as int];
                let t0 = d.take(j as int);
                let t1 = d.take(j + 1);
                assert(t1 =~= t0.push(d[j as int]));
                assert(d[j as int] == vs[firsts@[j as int] as int]);
                if same {
                    assert(t1[j as int] == x);
                }
                if t0.contains(x) {
                    let k = choose|k: int| 0 <= k < t0.len() && t0[k] == x;
                    assert(t1[k] == x);
                }
                if t1.contains(x) && !same {
                    let k = choose|k: int| 0 <= k < t1.len() && t1[k] == x;
                    assert(k < j);
                    assert(t0[k] == x);
                }
            }
            found = found || same;
            j += 1;
        }
        proof {
            assert(d.take(firsts@.len() as int) =~= d);
            assert(vs.take(i + 1).drop_last() =~= vs.take(i as int));
        }
        if !found {
            firsts.push(i);
            proof {
                assert(firsts@.map_values(|p: usize| vs[p as int]) =~= d.push(vs[i as int]));
            }
        }
        i += 1;
    }
    proof {
        assert(vs.take(cells@.len() as int) =~= vs);
    }
    let ghost ds = dedup(vs);
    let mut out = String::new();
    let mut k: usize = 0;
    while k < firsts.len()
        invariant
            vs == values_of(cells@),
            k <= firsts@.len(),
            forall|q: int| 0 <= q < firsts@.len() ==> firsts@[q] < cells@.len(),
            firsts@.map_values(|p: usize| vs[p as int]) == ds,
            out@ == rendered(ds.take(k as int)),
        decreases firsts@.len() - k,
    {
        let t = cells[firsts[k]].text();
        proof {
            assert(ds[k as int] == vs[firsts@[k as int] as int]);
        }
        push_part(&mut out, &t, k == 0, Ghost(texts(ds.take(k as int))));
        proof {
            assert(texts(ds.take(k as int)).push(t@) =~= texts(ds.take(k + 1)));
        }
        k += 1;
    }
    proof {
        assert(ds.take(firsts@.len() as int) =~= ds);
    }
    out
}

} // verus!
