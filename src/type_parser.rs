//! Type tags, the classification of single words, number parsing, and the
//! sample-based choice of one tag per column.
use vstd::prelude::*;

use vstd::string::StringSliceAdditionalSpecFns;
use vstd::utf8::{encode_utf8, encode_utf8_valid_utf8, is_ascii_chars_encode_utf8, valid_utf8};

use crate::cells::{append_words, values_of, Cell};
use crate::parsed_bytes::ParsedBytes;

verus! {

pub const MINUS: u8 = 45;

pub const PLUS: u8 = 43;

pub const DOT: u8 = 46;

/// The type tags, ordered from narrowest to widest; `TmpInt` and `TmpFloat`
/// only stand for a number whose width is not chosen yet.
#[derive(PartialEq, Eq, Structural, PartialOrd, Ord, Debug, Clone, Copy)]
pub enum Codes {
    Null,
    Boolean,
    Int32,
    Int64,
    Int128,
    Float32,
    Float64,
    Any,
    TmpInt,
    TmpFloat,
}

/// The place of a tag in the order of tags.
pub open spec fn code_rank(c: Codes) -> int {
    match c {
        Codes::Null => 0,
        Codes::Boolean => 1,
        Codes::Int32 => 2,
        Codes::Int64 => 3,
        Codes::Int128 => 4,
        Codes::Float32 => 5,
        Codes::Float64 => 6,
        Codes::Any => 7,
        Codes::TmpInt => 8,
        Codes::TmpFloat => 9,
    }
}

/// The wider of two tags (the first on a tie).
pub open spec fn wider(a: Codes, b: Codes) -> Codes {
    if code_rank(b) > code_rank(a) {
        b
    } else {
        a
    }
}

impl Codes {
    pub fn rank(&self) -> (r: u8)
        ensures
            r as int == code_rank(*self),
    {
        match self {
            Codes::Null => 0,
            Codes::Boolean => 1,
            Codes::Int32 => 2,
            Codes::Int64 => 3,
            Codes::Int128 => 4,
            Codes::Float32 => 5,
            Codes::Float64 => 6,
            Codes::Any => 7,
            Codes::TmpInt => 8,
            Codes::TmpFloat => 9,
        }
    }

    /// The wider of two tags (`self` on a tie).
    pub fn max_with(self, other: Codes) -> (r: Codes)
        ensures
            r == wider(self, other),
    {
        if other.rank() > self.rank() {
            other
        } else {
            self
        }
    }
}

pub open spec fn is_digit(c: u8) -> bool {
    48 <= c <= 57
}

pub open spec fn all_digits(s: Seq<u8>) -> bool {
    forall|i: int| 0 <= i < s.len() ==> is_digit(#[trigger] s[i])
}

/// The word without one leading minus sign.
pub open spec fn unsigned_part(w: Seq<u8>) -> Seq<u8> {
    if w.len() > 0 && w[0] == MINUS {
        w.drop_first()
    } else {
        w
    }
}

/// An optional minus sign and one or more digits.
pub open spec fn is_int_word(w: Seq<u8>) -> bool {
    unsigned_part(w).len() > 0 && all_digits(unsigned_part(w))
}

/// The number of digits at the start of `s`.
pub open spec fn digit_run(s: Seq<u8>) -> int
    decreases s.len(),
{
    if s.len() > 0 && is_digit(s[0]) {
        1 + digit_run(s.drop_first())
    } else {
        0
    }
}

/// An optional minus sign, zero or more digits, a dot, and one or more digits.
pub open spec fn is_float_word(w: Seq<u8>) -> bool {
    let u = unsigned_part(w);
    let k = digit_run(u);
    &&& k + 1 < u.len()
    &&& u[k] == DOT
    &&& all_digits(u.skip(k + 1))
}

pub open spec fn ascii_lower(c: u8) -> u8 {
    if 65 <= c <= 90 {
        (c + 32) as u8
    } else {
        c
    }
}

/// Equal bytes when ASCII letters are compared without regard to case.
pub open spec fn same_ignoring_case(a: Seq<u8>, b: Seq<u8>) -> bool {
    a.len() == b.len() && forall|i: int| 0 <= i < a.len() ==> ascii_lower(#[trigger] a[i]) == ascii_lower(b[i])
}

pub open spec fn true_word() -> Seq<u8> {
    seq![116u8, 114u8, 117u8, 101u8]
}

pub open spec fn false_word() -> Seq<u8> {
    seq![102u8, 97u8, 108u8, 115u8, 101u8]
}

pub open spec fn quoted_word(w: Seq<u8>) -> Seq<u8> {
    seq![34u8] + w + seq![34u8]
}

/// `true` or `false` in any case.
pub open spec fn is_bool_word(w: Seq<u8>) -> bool {
    same_ignoring_case(w, true_word()) || same_ignoring_case(w, false_word())
}

/// What a word reads as in a boolean column: `true` or `false` in any case,
/// bare or wrapped in double quotes; anything else is missing.
pub open spec fn bool_of_word(w: Seq<u8>) -> Option<bool> {
    if same_ignoring_case(w, true_word()) || same_ignoring_case(w, quoted_word(true_word())) {
        Some(true)
    } else if same_ignoring_case(w, false_word()) || same_ignoring_case(w, quoted_word(false_word())) {
        Some(false)
    } else {
        None
    }
}

/// The value of a string of decimal digits.
pub open spec fn digits_value(d: Seq<u8>) -> int
    decreases d.len(),
{
    if d.len() == 0 {
        0
    } else {
        10 * digits_value(d.drop_last()) + (d.last() - 48)
    }
}

/// An optional `+` or `-` sign followed by one or more decimal digits.
pub open spec fn is_signed_digits(w: Seq<u8>) -> bool {
    let d = if w.len() > 0 && (w[0] == PLUS || w[0] == MINUS) { w.drop_first() } else { w };
    d.len() > 0 && all_digits(d)
}

/// The value of a word that `is_signed_digits` accepts.
pub open spec fn signed_value(w: Seq<u8>) -> int {
    if w.len() > 0 && w[0] == MINUS {
        -digits_value(w.drop_first())
    } else if w.len() > 0 && w[0] == PLUS {
        digits_value(w.drop_first())
    } else {
        digits_value(w)
    }
}

/// The integer a word denotes, if it is one and lies in `[lo, hi]`.
pub open spec fn int_in_range(w: Seq<u8>, lo: int, hi: int) -> Option<int> {
    if is_signed_digits(w) && lo <= signed_value(w) <= hi {
        Some(signed_value(w))
    } else {
        None
    }
}

/// Relies on `lexical::parse::<i64>`: in its default format it accepts an
/// optional sign and one or more decimal digits whose value fits, and
/// rejects anything else (empty input, other bytes, overflow; a 19-digit
/// number cannot wrap past its overflow check in 64 bits).
#[verifier::external_body]
pub(crate) fn parse_i64(w: &[u8]) -> (r: Option<i64>)
    ensures
        r matches Some(v) ==> int_in_range(w@, i64::MIN as int, i64::MAX as int) == Some(v as int),
        r is None ==> int_in_range(w@, i64::MIN as int, i64::MAX as int) is None,
{
    lexical::parse::<i64, _>(w).ok()
}

/// Reads a 32-bit integer cell: the word is read as a 64-bit integer and
/// kept only when its value fits 32 bits.
pub fn parse_i32(w: &[u8]) -> (r: Option<i32>)
    ensures
        r matches Some(v) ==> int_in_range(w@, i32::MIN as int, i32::MAX as int) == Some(v as int),
        r is None ==> int_in_range(w@, i32::MIN as int, i32::MAX as int) is None,
{
    match parse_i64(w) {
        Some(v) => {
            if i32::MIN as i64 <= v && v <= i32::MAX as i64 {
                Some(v as i32)
            } else {
                None
            }
        },
        None => None,
    }
}

/// What `lexical::parse::<i128>` returns for a word.
pub uninterp spec fn lexical_i128(w: Seq<u8>) -> Option<i128>;

/// Relies on `lexical::parse::<i128>`: the result depends on the bytes
/// alone; a word that `int_in_range` accepts is read exactly, and nothing
/// but a sign and decimal digits is accepted. (A 39-digit number past the
/// range may wrap in its 128-bit accumulator and still be accepted.)
#[verifier::external_body]
pub(crate) fn parse_i128(w: &[u8]) -> (r: Option<i128>)
    ensures
        r == lexical_i128(w@),
        int_in_range(w@, i128::MIN as int, i128::MAX as int) matches Some(x) ==> r == Some(x as i128),
        r is Some ==> is_signed_digits(w@),
{
    lexical::parse::<i128, _>(w).ok()
}

/// Relies on `str::parse::<i32>` (`i32::from_str`): an optional `+` or `-`
/// followed by decimal digits is read when the value fits; anything else,
/// overflow included, is an error.
#[verifier::external_body]
fn std_parse_i32(s: &str) -> (r: Option<i32>)
    ensures
        r matches Some(v) ==> int_in_range(s.spec_bytes(), i32::MIN as int, i32::MAX as int) == Some(v as int),
        r is None ==> int_in_range(s.spec_bytes(), i32::MIN as int, i32::MAX as int) is None,
{
    s.parse::<i32>().ok()
}

/// Relies on `str::parse::<i64>` (`i64::from_str`), with the grammar of
/// `std_parse_i32` and the range of `i64`.
#[verifier::external_body]
fn std_parse_i64(s: &str) -> (r: Option<i64>)
    ensures
        r matches Some(v) ==> int_in_range(s.spec_bytes(), i64::MIN as int, i64::MAX as int) == Some(v as int),
        r is None ==> int_in_range(s.spec_bytes(), i64::MIN as int, i64::MAX as int) is None,
{
    s.parse::<i64>().ok()
}

/// Relies on `str::parse::<i128>` (`i128::from_str`), with the grammar of
/// `std_parse_i32` and the range of `i128`.
#[verifier::external_body]
fn std_parse_i128(s: &str) -> (r: Option<i128>)
    ensures
        r matches Some(v) ==> int_in_range(s.spec_bytes(), i128::MIN as int, i128::MAX as int) == Some(v as int),
        r is None ==> int_in_range(s.spec_bytes(), i128::MIN as int, i128::MAX as int) is None,
{
    s.parse::<i128>().ok()
}

/// The first classification of a word.
#[derive(Debug, PartialEq)]
pub enum StageOne<'a> {
    Int(&'a str),
    Float(&'a str),
    Boolean(&'a str),
    Any(&'a str),
}

impl<'a> StageOne<'a> {
    /// The tag of a classification, before any width is chosen.
    pub fn code(&self) -> (r: Codes)
        ensures
            r == match self {
                StageOne::Int(_) => Codes::TmpInt,
                StageOne::Float(_) => Codes::TmpFloat,
                StageOne::Boolean(_) => Codes::Boolean,
                StageOne::Any(_) => Codes::Any,
            },
    {
        match self {
            StageOne::Float(_) => Codes::TmpFloat,
            StageOne::Int(_) => Codes::TmpInt,
            StageOne::Boolean(_) => Codes::Boolean,
            StageOne::Any(_) => Codes::Any,
        }
    }
}

/// The narrowest integer type that holds a value.
pub enum IntegerTypes {
    Int32(i32),
    Int64(i64),
    Int128(i128),
}

impl IntegerTypes {
    pub fn code(&self) -> (r: Codes)
        ensures
            r == match self {
                IntegerTypes::Int32(_) => Codes::Int32,
                IntegerTypes::Int64(_) => Codes::Int64,
                IntegerTypes::Int128(_) => Codes::Int128,
            },
    {
        match self {
            IntegerTypes::Int32(_) => Codes::Int32,
            IntegerTypes::Int64(_) => Codes::Int64,
            IntegerTypes::Int128(_) => Codes::Int128,
        }
    }

    /// Parses a word as 32-bit, then 64-bit, then 128-bit integer and keeps
    /// the first that succeeds; `None` when none does.
    pub fn from_word(s: &str) -> (r: Option<IntegerTypes>)
        ensures
            r matches Some(IntegerTypes::Int32(v)) ==> int_in_range(s.spec_bytes(), i32::MIN as int, i32::MAX as int)
                == Some(v as int),
            r matches Some(IntegerTypes::Int64(v)) ==> int_in_range(s.spec_bytes(), i32::MIN as int, i32::MAX as int) is None
                && int_in_range(s.spec_bytes(), i64::MIN as int, i64::MAX as int) == Some(v as int),
            r matches Some(IntegerTypes::Int128(v)) ==> int_in_range(s.spec_bytes(), i64::MIN as int, i64::MAX as int) is None
                && int_in_range(s.spec_bytes(), i128::MIN as int, i128::MAX as int) == Some(v as int),
            r is None ==> int_in_range(s.spec_bytes(), i128::MIN as int, i128::MAX as int) is None,
    {
        if let Some(v) = std_parse_i32(s) {
            Some(IntegerTypes::Int32(v))
        } else if let Some(v) = std_parse_i64(s) {
            Some(IntegerTypes::Int64(v))
        } else if let Some(v) = std_parse_i128(s) {
            Some(IntegerTypes::Int128(v))
        } else {
            None
        }
    }
}

impl From<IntegerTypes> for Codes {
    fn from(itype: IntegerTypes) -> (r: Codes) {
        itype.code()
    }
}

impl vstd::std_specs::convert::FromSpecImpl<IntegerTypes> for Codes {
    open spec fn obeys_from_spec() -> bool {
        true
    }

    open spec fn from_spec(v: IntegerTypes) -> Codes {
        match v {
            IntegerTypes::Int32(_) => Codes::Int32,
            IntegerTypes::Int64(_) => Codes::Int64,
            IntegerTypes::Int128(_) => Codes::Int128,
        }
    }
}

impl<'a> From<StageOne<'a>> for Codes {
    fn from(general_type: StageOne<'a>) -> (r: Codes) {
        general_type.code()
    }
}

impl<'a> vstd::std_specs::convert::FromSpecImpl<StageOne<'a>> for Codes {
    open spec fn obeys_from_spec() -> bool {
        true
    }

    open spec fn from_spec(v: StageOne<'a>) -> Codes {
        match v {
            StageOne::Int(_) => Codes::TmpInt,
            StageOne::Float(_) => Codes::TmpFloat,
            StageOne::Boolean(_) => Codes::Boolean,
            StageOne::Any(_) => Codes::Any,
        }
    }
}

/// The tag of an integer word: the narrowest width whose range holds it,
/// or `Any` when even 128 bits do not.
pub open spec fn int_code(w: Seq<u8>) -> Codes {
    if int_in_range(w, i32::MIN as int, i32::MAX as int) is Some {
        Codes::Int32
    } else if int_in_range(w, i64::MIN as int, i64::MAX as int) is Some {
        Codes::Int64
    } else if int_in_range(w, i128::MIN as int, i128::MAX as int) is Some {
        Codes::Int128
    } else {
        Codes::Any
    }
}

/// The tag of one sampled word. A word of the float shape always reads as a
/// 32-bit float: the standard float parser rounds such input, it does not
/// reject it.
pub open spec fn word_code(w: Seq<u8>) -> Codes {
    if is_float_word(w) {
        Codes::Float32
    } else if is_int_word(w) {
        int_code(w)
    } else if is_bool_word(w) {
        Codes::Boolean
    } else if w.len() == 0 {
        Codes::Null
    } else {
        Codes::Any
    }
}

/// The widest tag over a sample of words (`Null` for no words).
pub open spec fn sample_code(ws: Seq<Seq<u8>>) -> Codes
    decreases ws.len(),
{
    if ws.len() == 0 {
        Codes::Null
    } else {
        wider(sample_code(ws.drop_last()), word_code(ws.last()))
    }
}

fn lower(c: u8) -> (r: u8)
    ensures
        r == ascii_lower(c),
{
    if 65 <= c && c <= 90 {
        c + 32
    } else {
        c
    }
}

/// Compares bytes with a fixed word, ignoring the case of ASCII letters.
pub fn eq_ignore_ascii_case(a: &[u8], b: &[u8]) -> (r: bool)
    ensures
        r == same_ignoring_case(a@, b@),
{
    if a.len() != b.len() {
        return false;
    }
    let mut i: usize = 0;
    while i < a.len()
        invariant
            a@.len() == b@.len(),
            i <= a@.len(),
            forall|j: int| 0 <= j < i ==> ascii_lower(#[trigger] a@[j]) == ascii_lower(b@[j]),
        decreases a@.len() - i,
    {
        if lower(a[i]) != lower(b[i]) {
            return false;
        }
        i += 1;
    }
    true
}

/// The number of digits at the start of `s[from..]`.
fn count_digits(s: &[u8], from: usize) -> (k: usize)
    requires
        from <= s@.len(),
    ensures
        k as int == digit_run(s@.skip(from as int)),
        from + k <= s@.len(),
{
    let n = s.len();
    let mut k: usize = 0;
    loop
        invariant
            n == s@.len(),
            from + k <= s@.len(),
            digit_run(s@.skip(from as int)) == k + digit_run(s@.skip(from + k)),
        decreases s@.len() - from - k,
    {
        if from + k == n || !(48 <= s[from + k] && s[from + k] <= 57) {
            proof {
                if from + k < s@.len() {
                    assert(s@.skip(from + k)[0] == s@[from + k]);
                }
            }
            return k;
        }
        proof {
            assert(s@.skip(from + k).drop_first() =~= s@.skip(from + k + 1));
        }
        k += 1;
    }
}

/// Reads a word as `-?\d+`, `-?\d*\.\d+`, `true`/`false` in any case, or
/// anything else, in that order of precedence.
pub fn first_phase<'a>(word: &'a str) -> (r: StageOne<'a>)
    ensures
        is_float_word(word.spec_bytes()) ==> r == StageOne::Float(word),
        !is_float_word(word.spec_bytes()) && is_int_word(word.spec_bytes()) ==> r == StageOne::Int(word),
        !is_float_word(word.spec_bytes()) && !is_int_word(word.spec_bytes()) && is_bool_word(word.spec_bytes())
            ==> r == StageOne::Boolean(word),
        !is_float_word(word.spec_bytes()) && !is_int_word(word.spec_bytes()) && !is_bool_word(word.spec_bytes())
            ==> r == StageOne::Any(word),
{
    let b = word.as_bytes();
    if is_float_bytes(b) {
        StageOne::Float(word)
    } else if is_int_bytes(b) {
        StageOne::Int(word)
    } else if is_bool_bytes(b) {
        StageOne::Boolean(word)
    } else {
        StageOne::Any(word)
    }
}

fn is_float_bytes(b: &[u8]) -> (r: bool)
    ensures
        r == is_float_word(b@),
{
    let from: usize = if b.len() > 0 && b[0] == MINUS {
        1
    } else {
        0
    };
    let ghost u = b@.skip(from as int);
    assert(unsigned_part(b@) =~= u);
    let k = count_digits(b, from);
    assert(from + k < b@.len() ==> u[k as int] == b@[from + k]);
    if from + k >= b.len() || b[from + k] != DOT || from + k + 1 >= b.len() {
        return false;
    }
    let start = from + k + 1;
    assert(u.skip(k + 1) =~= b@.skip(start as int));
    let mut i = start;
    while i < b.len()
        invariant
            start <= i <= b@.len(),
            start == from + k + 1,
            k == digit_run(u),
            unsigned_part(b@) == u,
            u.skip(k + 1) == b@.skip(start as int),
            u[k as int] == DOT,
            forall|j: int| start <= j < i ==> is_digit(#[trigger] b@[j]),
        decreases b@.len() - i,
    {
        if !(48 <= b[i] && b[i] <= 57) {
            assert(b@.skip(start as int)[i - start] == b@[i as int]);
            return false;
        }
        i += 1;
    }
    assert forall|j: int| 0 <= j < b@.skip(start as int).len() implies is_digit(#[trigger] b@.skip(start as int)[j]) by {
        assert(b@.skip(start as int)[j] == b@[start + j]);
    }
    true
}

fn is_int_bytes(b: &[u8]) -> (r: bool)
    ensures
        r == is_int_word(b@),
{
    let from: usize = if b.len() > 0 && b[0] == MINUS {
        1
    } else {
        0
    };
    let ghost u = b@.skip(from as int);
    assert(unsigned_part(b@) =~= u);
    if from >= b.len() {
        return false;
    }
    let mut i = from;
    while i < b.len()
        invariant
            from <= i <= b@.len(),
            u == b@.skip(from as int),
            unsigned_part(b@) == u,
            forall|j: int| from <= j < i ==> is_digit(#[trigger] b@[j]),
        decreases b@.len() - i,
    {
        if !(48 <= b[i] && b[i] <= 57) {
            assert(u[i - from] == b@[i as int]);
            return false;
        }
        i += 1;
    }
    assert forall|j: int| 0 <= j < u.len() implies is_digit(#[trigger] u[j]) by {
        assert(u[j] == b@[from + j]);
    }
    true
}

/// The length of an optional leading `+` or `-`.
pub open spec fn sign_len(w: Seq<u8>) -> int {
    if w.len() > 0 && (w[0] == PLUS || w[0] == MINUS) {
        1
    } else {
        0
    }
}

/// `e` or `E`, an optional sign, and one or more digits, and nothing more.
pub open spec fn is_exponent(r: Seq<u8>) -> bool {
    &&& r.len() > 0
    &&& (r[0] == 101 || r[0] == 69)
    &&& r.drop_first().skip(sign_len(r.drop_first())).len() > 0
    &&& all_digits(r.drop_first().skip(sign_len(r.drop_first())))
}

/// An optional sign, digits with at most one dot among or after them (at
/// least one digit in all), and an optional exponent.
pub open spec fn is_decimal_number(w: Seq<u8>) -> bool {
    let s = sign_len(w);
    let a = digit_run(w.skip(s));
    let p = s + a;
    let has_dot = p < w.len() && w[p] == DOT;
    let b = if has_dot { digit_run(w.skip(p + 1)) } else { 0 };
    let q = if has_dot { p + 1 + b } else { p };
    a + b >= 1 && (q == w.len() || is_exponent(w.skip(q)))
}

pub open spec fn nan_word() -> Seq<u8> {
    seq![110u8, 97u8, 110u8]
}

pub open spec fn inf_word() -> Seq<u8> {
    seq![105u8, 110u8, 102u8]
}

pub open spec fn infinity_word() -> Seq<u8> {
    seq![105u8, 110u8, 102u8, 105u8, 110u8, 105u8, 116u8, 121u8]
}

/// An optional sign and `nan`, `inf` or `infinity`, in any case.
pub open spec fn is_special_float(w: Seq<u8>) -> bool {
    let u = w.skip(sign_len(w));
    same_ignoring_case(u, nan_word()) || same_ignoring_case(u, inf_word()) || same_ignoring_case(u, infinity_word())
}

/// The words that a floating-point column reads as numbers: the grammar of
/// `lexical`'s float parser in its default format.
pub open spec fn is_float_text(w: Seq<u8>) -> bool {
    is_decimal_number(w) || is_special_float(w)
}

proof fn lemma_digit_run_bounds(s: Seq<u8>)
    ensures
        0 <= digit_run(s) <= s.len(),
        digit_run(s) < s.len() ==> !is_digit(s[digit_run(s)]),
        forall|k: int| 0 <= k < digit_run(s) ==> is_digit(#[trigger] s[k]),
    decreases s.len(),
{
    if s.len() > 0 && is_digit(s[0]) {
        lemma_digit_run_bounds(s.drop_first());
        assert forall|k: int| 0 <= k < digit_run(s) implies is_digit(#[trigger] s[k]) by {
            if k > 0 {
                assert(s[k] == s.drop_first()[k - 1]);
            }
        }
    }
}

proof fn lemma_all_digits_run(s: Seq<u8>)
    ensures
        all_digits(s) <==> digit_run(s) == s.len(),
{
    lemma_digit_run_bounds(s);
}

fn sign_at(w: &[u8], from: usize) -> (r: usize)
    requires
        from <= w@.len(),
    ensures
        r == sign_len(w@.skip(from as int)),
        from + r <= w@.len(),
{
    if from < w.len() && (w[from] == PLUS || w[from] == MINUS) {
        assert(w@.skip(from as int)[0] == w@[from as int]);
        1
    } else {
        0
    }
}

/// Whether the bytes from `from` to the end are an exponent.
fn exponent_at(w: &[u8], from: usize) -> (r: bool)
    requires
        from <= w@.len(),
    ensures
        r == is_exponent(w@.skip(from as int)),
{
    let ghost r = w@.skip(from as int);
    if from >= w.len() || !(w[from] == 101 || w[from] == 69) {
        return false;
    }
    assert(r[0] == w@[from as int]);
    assert(r.drop_first() =~= w@.skip(from + 1));
    let len = w.len();
    let s = sign_at(w, from + 1);
    let start = from + 1 + s;
    assert(r.drop_first().skip(s as int) =~= w@.skip(start as int));
    let k = count_digits(w, start);
    proof {
        lemma_all_digits_run(w@.skip(start as int));
    }
    start < w.len() && start + k == w.len()
}

fn ignoring_case_from(w: &[u8], from: usize, word: &[u8]) -> (r: bool)
    requires
        from <= w@.len(),
    ensures
        r == same_ignoring_case(w@.skip(from as int), word@),
{
    let rest = vstd::slice::slice_subrange(w, from, w.len());
    assert(rest@ =~= w@.skip(from as int));
    eq_ignore_ascii_case(rest, word)
}

/// Whether a word is one that a floating-point column reads as a number.
pub fn is_float_text_bytes(w: &[u8]) -> (r: bool)
    ensures
        r == is_float_text(w@),
{
    let len = w.len();
    let s = sign_at(w, 0);
    assert(w@.skip(0) =~= w@);
    let a = count_digits(w, s);
    let p = s + a;
    let has_dot = p < w.len() && w[p] == DOT;
    let (b, q) = if has_dot {
        let b = count_digits(w, p + 1);
        (b, p + 1 + b)
    } else {
        (0, p)
    };
    let decimal = a + b >= 1 && (q == w.len() || exponent_at(w, q));
    let n: [u8; 3] = [110, 97, 110];
    let i3: [u8; 3] = [105, 110, 102];
    let i8: [u8; 8] = [105, 110, 102, 105, 110, 105, 116, 121];
    assert(n@ =~= nan_word());
    assert(i3@ =~= inf_word());
    assert(i8@ =~= infinity_word());
    let special = ignoring_case_from(w, s, n.as_slice()) || ignoring_case_from(w, s, i3.as_slice())
        || ignoring_case_from(w, s, i8.as_slice());
    decimal || special
}

fn is_bool_bytes(b: &[u8]) -> (r: bool)
    ensures
        r == is_bool_word(b@),
{
    let t: [u8; 4] = [116, 114, 117, 101];
    let f: [u8; 5] = [102, 97, 108, 115, 101];
    assert(t@ =~= true_word());
    assert(f@ =~= false_word());
    eq_ignore_ascii_case(b, t.as_slice()) || eq_ignore_ascii_case(b, f.as_slice())
}

/// What a word reads as in a boolean column.
pub fn bytes_to_bool(bytes: &[u8]) -> (r: Option<bool>)
    ensures
        r == bool_of_word(bytes@),
{
    let t: [u8; 4] = [116, 114, 117, 101];
    let qt: [u8; 6] = [34, 116, 114, 117, 101, 34];
    let f: [u8; 5] = [102, 97, 108, 115, 101];
    let qf: [u8; 7] = [34, 102, 97, 108, 115, 101, 34];
    assert(t@ =~= true_word());
    assert(qt@ =~= quoted_word(true_word()));
    assert(f@ =~= false_word());
    assert(qf@ =~= quoted_word(false_word()));
    if eq_ignore_ascii_case(bytes, t.as_slice()) || eq_ignore_ascii_case(bytes, qt.as_slice()) {
        Some(true)
    } else if eq_ignore_ascii_case(bytes, f.as_slice()) || eq_ignore_ascii_case(bytes, qf.as_slice()) {
        Some(false)
    } else {
        None
    }
}

/// Reads each word as a boolean cell.
pub fn parse_bool(words: &ParsedBytes) -> (r: Vec<Option<bool>>)
    requires
        words.wf(),
    ensures
        values_of(r@) == words@.map_values(|w: Seq<u8>| <Option<bool> as Cell>::value_of_word(w)),
{
    let mut ret: Vec<Option<bool>> = Vec::new();
    append_words(&mut ret, words);
    assert(values_of(ret@) =~= words@.map_values(|w: Seq<u8>| <Option<bool> as Cell>::value_of_word(w)));
    ret
}

/// Reads each word as a text cell.
pub fn parse_utf8(words: &ParsedBytes) -> (r: Vec<Option<String>>)
    requires
        words.wf(),
    ensures
        values_of(r@) == words@.map_values(|w: Seq<u8>| <Option<String> as Cell>::value_of_word(w)),
{
    let mut ret: Vec<Option<String>> = Vec::new();
    append_words(&mut ret, words);
    assert(values_of(ret@) =~= words@.map_values(|w: Seq<u8>| <Option<String> as Cell>::value_of_word(w)));
    ret
}

/// A word of digits, with an optional minus sign, is valid UTF-8.
proof fn lemma_int_word_is_text(w: Seq<u8>)
    requires
        is_int_word(w),
    ensures
        valid_utf8(w),
{
    let chars = Seq::new(w.len(), |i: int| (w[i] as u32) as char);
    assert forall|i: int| 0 <= i < w.len() implies w[i] < 128 by {
        if i == 0 && w[0] == MINUS {
        } else if w.len() > 0 && w[0] == MINUS {
            assert(unsigned_part(w)[i - 1] == w[i]);
        } else {
            assert(unsigned_part(w)[i] == w[i]);
        }
    }
    assert forall|i: int| 0 <= i < chars.len() implies '\0' <= #[trigger] chars[i] <= '\u{7f}' by {
        assert(w[i] < 128);
    }
    is_ascii_chars_encode_utf8(chars);
    encode_utf8_valid_utf8(chars);
    assert forall|i: int| 0 <= i < w.len() implies encode_utf8(chars)[i] == w[i] by {
        assert(chars[i] as u8 == encode_utf8(chars)[i]);
        assert(((w[i] as u32) as char) as u8 == w[i]);
    }
    assert(encode_utf8(chars) =~= w);
}

/// The tag of one sampled word.
pub fn code_of_word(w: &[u8]) -> (r: Codes)
    ensures
        r == word_code(w@),
{
    if is_float_bytes(w) {
        Codes::Float32
    } else if is_int_bytes(w) {
        proof {
            lemma_int_word_is_text(w@);
        }
        match crate::text::utf8_str(w) {
            Some(s) => match IntegerTypes::from_word(s) {
                Some(t) => Codes::from(t),
                None => Codes::Any,
            },
            None => Codes::Any,
        }
    } else if is_bool_bytes(w) {
        Codes::Boolean
    } else if w.len() == 0 {
        Codes::Null
    } else {
        Codes::Any
    }
}

/// The widest tag over the first `n` words of a column (all of them when
/// it holds fewer).
pub fn infer_code(words: &ParsedBytes, n: usize) -> (r: Codes)
    requires
        words.wf(),
    ensures
        r == sample_code(words@.take(if n < words@.len() { n as int } else { words@.len() as int })),
{
    let m = if n < words.len() {
        n
    } else {
        words.len()
    };
    let mut code = Codes::Null;
    let mut i: usize = 0;
    while i < m
        invariant
            words.wf(),
            m <= words@.len(),
            i <= m,
            code == sample_code(words@.take(i as int)),
        decreases m - i,
    {
        let w = words.get(i);
        code = code.max_with(code_of_word(w));
        proof {
            assert(words@.take(i + 1).drop_last() =~= words@.take(i as int));
        }
        i += 1;
    }
    code
}

} // verus!
