//! The typed storage of one column: a closed set of representations, each a
//! sequence of optional cells, and the operations every column offers.
use vstd::prelude::*;

use crate::cells::{
    append_words, decimal_value_of_word, dedup, distinct_text, int_value_of_word, kept, mask_bits,
    member_mask, render_masked, render_window, rendered, text_value_of_word, values_of, window,
    Cell, DecimalText, Mask, Value, MAX_MASK_BITS,
};
use crate::parsed_bytes::ParsedBytes;
use crate::type_parser::{bool_of_word, lexical_i128, Codes};

verus! {

/// An operation was asked of a column whose representation does not offer it.
#[derive(Debug, PartialEq, Eq, Structural, Clone, Copy)]
pub struct WrongType;

/// Distinct values were asked of a column whose values have no hashing rule.
#[derive(Debug, PartialEq, Eq, Structural, Clone, Copy)]
pub struct NonHashable;

/// The value a word reads as in a column of the given tag.
pub open spec fn word_value(code: Codes, w: Seq<u8>) -> Value {
    match code {
        Codes::Boolean => match bool_of_word(w) {
            Some(b) => Value::Flag(b),
            None => Value::Missing,
        },
        Codes::Int32 => int_value_of_word(w, i32::MIN as int, i32::MAX as int),
        Codes::Int64 => int_value_of_word(w, i64::MIN as int, i64::MAX as int),
        Codes::Int128 => match lexical_i128(w) {
            Some(v) => Value::Int(v as int),
            None => Value::Missing,
        },
        Codes::Float32 => decimal_value_of_word(w),
        Codes::Float64 => decimal_value_of_word(w),
        _ => text_value_of_word(w),
    }
}

/// The tag under which a column is stored: a column whose sample held only
/// empty cells, or an unresolved tag, is stored as text.
pub open spec fn storage_code(code: Codes) -> Codes {
    match code {
        Codes::Boolean => Codes::Boolean,
        Codes::Int32 => Codes::Int32,
        Codes::Int64 => Codes::Int64,
        Codes::Int128 => Codes::Int128,
        Codes::Float32 => Codes::Float32,
        Codes::Float64 => Codes::Float64,
        _ => Codes::Any,
    }
}

/// Tags whose columns can be summed.
pub open spec fn summable(code: Codes) -> bool {
    code == Codes::Int32 || code == Codes::Int64 || code == Codes::Int128
}

/// Tags whose values have a hashing rule: integers and text.
pub open spec fn hashable(code: Codes) -> bool {
    summable(code) || code == Codes::Any
}

/// The sum of the integer values, missing values counting as zero.
pub open spec fn int_total(vs: Seq<Value>) -> int
    decreases vs.len(),
{
    if vs.len() == 0 {
        0
    } else {
        int_total(vs.drop_last()) + match vs.last() {
            Value::Int(v) => v,
            _ => 0,
        }
    }
}

/// Whether an integer column of tag `code` can hold the sum of its values.
pub open spec fn sum_fits(code: Codes, vs: Seq<Value>) -> bool {
    match code {
        Codes::Int32 => i32::MIN <= int_total(vs) <= i32::MAX,
        Codes::Int64 => i64::MIN <= int_total(vs) <= i64::MAX,
        _ => i128::MIN <= int_total(vs) <= i128::MAX,
    }
}

/// Why a column could not be summed.
#[derive(Debug, PartialEq, Eq, Structural, Clone, Copy)]
pub enum SumError {
    /// Only integer columns have a sum.
    WrongType,
    /// The sum does not fit the column's integer type.
    Overflow,
}

proof fn lemma_total_step(vs: Seq<Value>, i: int)
    requires
        0 <= i < vs.len(),
    ensures
        int_total(vs.take(i + 1)) == int_total(vs.take(i)) + match vs[i] {
            Value::Int(v) => v,
            _ => 0,
        },
{
    assert(vs.take(i + 1).drop_last() =~= vs.take(i));
}

/// The sum of a 32-bit column, added up in 128 bits; `None` when it does
/// not fit 32 bits.
fn sum_i32(cells: &Vec<Option<i32>>) -> (r: Option<i32>)
    ensures
        r is Some <==> i32::MIN <= int_total(values_of(cells@)) <= i32::MAX,
        r matches Some(v) ==> v as int == int_total(values_of(cells@)),
{
    let ghost vs = values_of(cells@);
    let mut acc: i128 = 0;
    let mut i: usize = 0;
    while i < cells.len()
        invariant
            vs == values_of(cells@),
            i <= cells@.len(),
            acc as int == int_total(vs.take(i as int)),
            -(i as int) * 0x8000_0000 <= acc <= (i as int) * 0x8000_0000,
        decreases cells@.len() - i,
    {
        let x: i32 = match cells[i] {
            Some(v) => v,
            None => 0,
        };
        proof {
            lemma_total_step(vs, i as int);
        }
        acc = acc + x as i128;
        i += 1;
    }
    proof {
        assert(vs.take(cells@.len() as int) =~= vs);
    }
    if i32::MIN as i128 <= acc && acc <= i32::MAX as i128 {
        Some(acc as i32)
    } else {
        None
    }
}

/// The sum of a 64-bit column, added up in 128 bits; `None` when it does
/// not fit 64 bits.
fn sum_i64(cells: &Vec<Option<i64>>) -> (r: Option<i64>)
    ensures
        r is Some <==> i64::MIN <= int_total(values_of(cells@)) <= i64::MAX,
        r matches Some(v) ==> v as int == int_total(values_of(cells@)),
{
    let ghost vs = values_of(cells@);
    let mut acc: i128 = 0;
    let mut i: usize = 0;
    while i < cells.len()
        invariant
            vs == values_of(cells@),
            i <= cells@.len(),
            acc as int == int_total(vs.take(i as int)),
            -(i as int) * 0x8000_0000_0000_0000 <= acc <= (i as int) * 0x7fff_ffff_ffff_ffff,
        decreases cells@.len() - i,
    {
        let x: i64 = match cells[i] {
            Some(v) => v,
            None => 0,
        };
        proof {
            lemma_total_step(vs, i as int);
        }
        acc = acc + x as i128;
        i += 1;
    }
    proof {
        assert(vs.take(cells@.len() as int) =~= vs);
    }
    if i64::MIN as i128 <= acc && acc <= i64::MAX as i128 {
        Some(acc as i64)
    } else {
        None
    }
}

/// The sum of a 128-bit column; `None` when it does not fit 128 bits. The
/// running total wraps, and the number of wraps in each direction is
/// counted, so that a total that fits is found even when a running total
/// did not.
fn sum_i128(cells: &Vec<Option<i128>>) -> (r: Option<i128>)
    ensures
        r is Some <==> i128::MIN <= int_total(values_of(cells@)) <= i128::MAX,
        r matches Some(v) ==> v as int == int_total(values_of(cells@)),
{
    let ghost vs = values_of(cells@);
    let mut acc: i128 = 0;
    let mut carries: i128 = 0;
    let mut i: usize = 0;
    while i < cells.len()
        invariant
            vs == values_of(cells@),
            i <= cells@.len(),
            int_total(vs.take(i as int)) == acc as int + (carries as int) * 0x1_0000_0000_0000_0000_0000_0000_0000_0000int,
            -(i as int) <= carries <= i as int,
        decreases cells@.len() - i,
    {
        let x: i128 = match cells[i] {
            Some(v) => v,
            None => 0,
        };
        proof {
            lemma_total_step(vs, i as int);
        }
        match acc.checked_add(x) {
            Some(next) => {
                acc = next;
            },
            None => {
                acc = acc.wrapping_add(x);
                if x > 0 {
                    carries = carries + 1;
                } else {
                    carries = carries - 1;
                }
            },
        }
        i += 1;
    }
    proof {
        assert(vs.take(cells@.len() as int) =~= vs);
    }
    if carries == 0 {
        Some(acc)
    } else {
        None
    }
}

/// The cells of one column, in one of seven representations. Floating-point
/// columns keep the decimal text of each cell.
pub enum SeriesEnum {
    I32(Vec<Option<i32>>),
    I64(Vec<Option<i64>>),
    I128(Vec<Option<i128>>),
    F32(Vec<DecimalText>),
    F64(Vec<DecimalText>),
    Bool(Vec<Option<bool>>),
    Any(Vec<Option<String>>),
}

impl SeriesEnum {
    /// The values of the cells, in row order.
    pub open spec fn values(&self) -> Seq<Value> {
        match self {
            SeriesEnum::I32(v) => values_of(v@),
            SeriesEnum::I64(v) => values_of(v@),
            SeriesEnum::I128(v) => values_of(v@),
            SeriesEnum::F32(v) => values_of(v@),
            SeriesEnum::F64(v) => values_of(v@),
            SeriesEnum::Bool(v) => values_of(v@),
            SeriesEnum::Any(v) => values_of(v@),
        }
    }

    /// The tag of the representation.
    pub open spec fn code(&self) -> Codes {
        match self {
            SeriesEnum::I32(_) => Codes::Int32,
            SeriesEnum::I64(_) => Codes::Int64,
            SeriesEnum::I128(_) => Codes::Int128,
            SeriesEnum::F32(_) => Codes::Float32,
            SeriesEnum::F64(_) => Codes::Float64,
            SeriesEnum::Bool(_) => Codes::Boolean,
            SeriesEnum::Any(_) => Codes::Any,
        }
    }

    /// An empty column stored under `storage_code(code)`.
    pub fn empty(code: Codes) -> (r: SeriesEnum)
        ensures
            r.code() == storage_code(code),
            r.values() == Seq::<Value>::empty(),
    {
        let r = match code {
            Codes::Boolean => SeriesEnum::Bool(Vec::new()),
            Codes::Int32 => SeriesEnum::I32(Vec::new()),
            Codes::Int64 => SeriesEnum::I64(Vec::new()),
            Codes::Int128 => SeriesEnum::I128(Vec::new()),
            Codes::Float32 => SeriesEnum::F32(Vec::new()),
            Codes::Float64 => SeriesEnum::F64(Vec::new()),
            _ => SeriesEnum::Any(Vec::new()),
        };
        assert(r.values() =~= Seq::<Value>::empty());
        r
    }

    /// A column of the words read under `storage_code(code)`.
    pub fn from_words(code: Codes, words: &ParsedBytes) -> (r: SeriesEnum)
        requires
            words.wf(),
        ensures
            r.code() == storage_code(code),
            r.values() == words@.map_values(|w: Seq<u8>| word_value(r.code(), w)),
    {
        let mut r = SeriesEnum::empty(code);
        r.extend_from_words(words);
        assert(r.values() =~= words@.map_values(|w: Seq<u8>| word_value(r.code(), w)));
        r
    }

    pub fn len(&self) -> (r: usize)
        ensures
            r == self.values().len(),
    {
        match self {
            SeriesEnum::I32(v) => v.len(),
            SeriesEnum::I64(v) => v.len(),
            SeriesEnum::I128(v) => v.len(),
            SeriesEnum::F32(v) => v.len(),
            SeriesEnum::F64(v) => v.len(),
            SeriesEnum::Bool(v) => v.len(),
            SeriesEnum::Any(v) => v.len(),
        }
    }

    pub fn is_empty(&self) -> (r: bool)
        ensures
            r == (self.values().len() == 0),
    {
        self.len() == 0
    }

    /// Reads each word under the column's tag and appends it; a word that
    /// does not parse becomes a missing value.
    pub fn extend_from_words(&mut self, words: &ParsedBytes)
        requires
            words.wf(),
        ensures
            final(self).code() == old(self).code(),
            final(self).values() == old(self).values() + words@.map_values(
                |w: Seq<u8>| word_value(old(self).code(), w),
            ),
    {
        let ghost code = self.code();
        match self {
            SeriesEnum::I32(v) => append_words(v, words),
            SeriesEnum::I64(v) => append_words(v, words),
            SeriesEnum::I128(v) => append_words(v, words),
            SeriesEnum::F32(v) => append_words(v, words),
            SeriesEnum::F64(v) => append_words(v, words),
            SeriesEnum::Bool(v) => append_words(v, words),
            SeriesEnum::Any(v) => append_words(v, words),
        }
        proof {
            assert(words@.map_values(|w: Seq<u8>| word_value(code, w)) =~= match code {
                Codes::Int32 => words@.map_values(|w: Seq<u8>| <Option<i32> as Cell>::value_of_word(w)),
                Codes::Int64 => words@.map_values(|w: Seq<u8>| <Option<i64> as Cell>::value_of_word(w)),
                Codes::Int128 => words@.map_values(|w: Seq<u8>| <Option<i128> as Cell>::value_of_word(w)),
                Codes::Float32 => words@.map_values(|w: Seq<u8>| <DecimalText as Cell>::value_of_word(w)),
                Codes::Float64 => words@.map_values(|w: Seq<u8>| <DecimalText as Cell>::value_of_word(w)),
                Codes::Boolean => words@.map_values(|w: Seq<u8>| <Option<bool> as Cell>::value_of_word(w)),
                _ => words@.map_values(|w: Seq<u8>| <Option<String> as Cell>::value_of_word(w)),
            });
        }
    }

    /// Renders the rows `[offset, offset + size)`, cut at the end of the column.
    pub fn join(&self, offset: usize, size: usize) -> (r: String)
        ensures
            r@ == rendered(window(self.values(), offset as int, size as int)),
    {
        match self {
            SeriesEnum::I32(v) => render_window(v, offset, size),
            SeriesEnum::I64(v) => render_window(v, offset, size),
            SeriesEnum::I128(v) => render_window(v, offset, size),
            SeriesEnum::F32(v) => render_window(v, offset, size),
            SeriesEnum::F64(v) => render_window(v, offset, size),
            SeriesEnum::Bool(v) => render_window(v, offset, size),
            SeriesEnum::Any(v) => render_window(v, offset, size),
        }
    }

    /// Keeps the rows whose bit is set, then renders `[offset, offset + size)`
    /// of those.
    pub fn filter_join(&self, mask: &Mask, offset: usize, size: usize) -> (r: String)
        ensures
            r@ == rendered(window(kept(self.values(), mask_bits(*mask)), offset as int, size as int)),
    {
        match self {
            SeriesEnum::I32(v) => render_masked(v, mask, offset, size),
            SeriesEnum::I64(v) => render_masked(v, mask, offset, size),
            SeriesEnum::I128(v) => render_masked(v, mask, offset, size),
            SeriesEnum::F32(v) => render_masked(v, mask, offset, size),
            SeriesEnum::F64(v) => render_masked(v, mask, offset, size),
            SeriesEnum::Bool(v) => render_masked(v, mask, offset, size),
            SeriesEnum::Any(v) => render_masked(v, mask, offset, size),
        }
    }

    /// A one-row column of the same tag holding the sum of the values,
    /// missing values counting as zero. Only integer columns can be summed
    /// (floating-point ones hold decimal text, and booleans and text have no
    /// sum), and a sum that does not fit the integer type is reported.
    pub fn sum(&self) -> (r: Result<SeriesEnum, SumError>)
        ensures
            r is Ok <==> summable(self.code()) && sum_fits(self.code(), self.values()),
            r == Err::<SeriesEnum, SumError>(SumError::WrongType) <==> !summable(self.code()),
            r matches Ok(s) ==> s.code() == self.code() && s.values() == seq![Value::Int(int_total(self.values()))],
    {
        match self {
            SeriesEnum::I32(v) => match sum_i32(v) {
                Some(total) => {
                    let s = SeriesEnum::I32(vec![Some(total)]);
                    assert(s.values() =~= seq![Value::Int(total as int)]);
                    Ok(s)
                },
                None => Err(SumError::Overflow),
            },
            SeriesEnum::I64(v) => match sum_i64(v) {
                Some(total) => {
                    let s = SeriesEnum::I64(vec![Some(total)]);
                    assert(s.values() =~= seq![Value::Int(total as int)]);
                    Ok(s)
                },
                None => Err(SumError::Overflow),
            },
            SeriesEnum::I128(v) => match sum_i128(v) {
                Some(total) => {
                    let s = SeriesEnum::I128(vec![Some(total)]);
                    assert(s.values() =~= seq![Value::Int(total as int)]);
                    Ok(s)
                },
                None => Err(SumError::Overflow),
            },
            _ => Err(SumError::WrongType),
        }
    }

    /// One bit per row: set where the row's value is among the values of
    /// `other`. Both columns must have the same hashable representation.
    pub fn equal_to(&self, other: &SeriesEnum) -> (r: Result<Mask, WrongType>)
        requires
            self.values().len() <= MAX_MASK_BITS,
        ensures
            r is Ok <==> hashable(self.code()) && other.code() == self.code(),
            r matches Ok(m) ==> mask_bits(m) == Seq::new(
                self.values().len(),
                |i: int| other.values().contains(self.values()[i]),
            ),
    {
        match (self, other) {
            (SeriesEnum::I32(a), SeriesEnum::I32(b)) => Ok(member_mask(a, b)),
            (SeriesEnum::I64(a), SeriesEnum::I64(b)) => Ok(member_mask(a, b)),
            (SeriesEnum::I128(a), SeriesEnum::I128(b)) => Ok(member_mask(a, b)),
            (SeriesEnum::Any(a), SeriesEnum::Any(b)) => Ok(member_mask(a, b)),
            _ => Err(WrongType),
        }
    }

    /// Each distinct value once, in order of first occurrence, rendered and
    /// joined; a missing value counts as one value.
    pub fn distinct(&self) -> (r: Result<String, NonHashable>)
        ensures
            r is Ok <==> hashable(self.code()),
            r matches Ok(s) ==> s@ == rendered(dedup(self.values())),
    {
        match self {
            SeriesEnum::I32(v) => Ok(distinct_text(v)),
            SeriesEnum::I64(v) => Ok(distinct_text(v)),
            SeriesEnum::I128(v) => Ok(distinct_text(v)),
            SeriesEnum::Any(v) => Ok(distinct_text(v)),
            _ => Err(NonHashable),
        }
    }
}

} // verus!
