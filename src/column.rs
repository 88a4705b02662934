//! A named column: typed cells under a tag that is fixed when it is made.
use vstd::prelude::*;
use vstd::string::StringExecFns;

use crate::cells::{dedup, kept, mask_bits, rendered, window, Mask, Value, MAX_MASK_BITS};
use crate::parsed_bytes::ParsedBytes;
use crate::series::{hashable, int_total, storage_code, sum_fits, summable, word_value, NonHashable, SeriesEnum, SumError, WrongType};
use crate::type_parser::Codes;

verus! {

pub struct Column {
    series: SeriesEnum,
    name: String,
    dtype: Codes,
}

/// The name of the one-row column that holds the sum of column `name`.
pub open spec fn sum_name(name: Seq<char>) -> Seq<char> {
    seq!['S', 'u', 'm', '_', 'o', 'f', '_'] + name
}

impl Column {
    /// The tag matches the representation of the cells.
    pub closed spec fn wf(&self) -> bool {
        self.series.code() == self.dtype
    }

    /// The values of the cells, in row order.
    pub closed spec fn values(&self) -> Seq<Value> {
        self.series.values()
    }

    pub closed spec fn name_view(&self) -> Seq<char> {
        self.name@
    }

    pub closed spec fn code(&self) -> Codes {
        self.dtype
    }

    pub fn new(buffer: SeriesEnum, name: String, dtype: Codes) -> (r: Self)
        requires
            buffer.code() == dtype,
        ensures
            r.wf(),
            r.values() == buffer.values(),
            r.name_view() == name@,
            r.code() == dtype,
    {
        Self { series: buffer, name, dtype }
    }

    pub fn len(&self) -> (r: usize)
        ensures
            r == self.values().len(),
    {
        self.series.len()
    }

    pub fn is_empty(&self) -> (r: bool)
        ensures
            r == (self.values().len() == 0),
    {
        self.series.is_empty()
    }

    /// The cells.
    pub fn series(&self) -> (r: &SeriesEnum)
        ensures
            r.values() == self.values(),
            self.wf() ==> r.code() == self.code(),
    {
        &self.series
    }

    /// Reads each word under the column's tag and appends it; a word that
    /// does not parse becomes a missing value.
    pub fn extend_from_words(&mut self, words: &ParsedBytes)
        requires
            old(self).wf(),
            words.wf(),
        ensures
            final(self).wf(),
            final(self).code() == old(self).code(),
            final(self).name_view() == old(self).name_view(),
            final(self).values() == old(self).values() + words@.map_values(|w: Seq<u8>| word_value(old(self).code(), w)),
    {
        self.series.extend_from_words(words);
    }

    /// Renders the rows `[offset, offset + size)`, cut at the end of the column.
    pub fn join(&self, offset: usize, size: usize) -> (r: String)
        ensures
            r@ == rendered(window(self.values(), offset as int, size as int)),
    {
        self.series.join(offset, size)
    }

    /// A one-row column holding the sum of the values (missing values count
    /// as zero), named `Sum_of_` and the column's name. Only integer columns
    /// can be summed, and a sum that does not fit the type is reported.
    pub fn sum(&self) -> (r: Result<Column, SumError>)
        requires
            self.wf(),
        ensures
            r is Ok <==> summable(self.code()) && sum_fits(self.code(), self.values()),
            r == Err::<Column, SumError>(SumError::WrongType) <==> !summable(self.code()),
            r matches Ok(c) ==> c.wf() && c.code() == self.code() && c.name_view() == sum_name(self.name_view())
                && c.values() == seq![Value::Int(int_total(self.values()))],
    {
        match self.series.sum() {
            Ok(series) => {
                let mut name = String::from_str("Sum_of_");
                proof {
                    reveal_strlit("Sum_of_");
                }
                name.append(self.name.as_str());
                assert(name@ =~= sum_name(self.name@));
                Ok(Column { series, name, dtype: self.dtype })
            },
            Err(e) => Err(e),
        }
    }

    /// The first value, rendered.
    pub fn first(&self) -> (r: String)
        ensures
            r@ == rendered(window(self.values(), 0, 1)),
    {
        self.series.join(0, 1)
    }

    pub fn name(&self) -> (r: &str)
        ensures
            r@ == self.name_view(),
    {
        self.name.as_str()
    }

    pub fn dtype(&self) -> (r: Codes)
        ensures
            r == self.code(),
            self.wf() ==> storage_code(r) == r,
    {
        self.dtype
    }

    /// One bit per row: set where the row's value is among the values of
    /// `other`, which must have the same hashable representation.
    pub fn equal_to(&self, other: &SeriesEnum) -> (r: Result<Mask, WrongType>)
        requires
            self.wf(),
            self.values().len() <= MAX_MASK_BITS,
        ensures
            r is Ok <==> hashable(self.code()) && other.code() == self.code(),
            r matches Ok(m) ==> mask_bits(m) == Seq::new(
                self.values().len(),
                |i: int| other.values().contains(self.values()[i]),
            ),
    {
        self.series.equal_to(other)
    }

    /// Keeps the rows whose bit is set, then renders `[offset, offset + size)`
    /// of those.
    pub fn filter_join(&self, mask: &Mask, offset: usize, size: usize) -> (r: String)
        ensures
            r@ == rendered(window(kept(self.values(), mask_bits(*mask)), offset as int, size as int)),
    {
        self.series.filter_join(mask, offset, size)
    }

    /// Each distinct value once, in order of first occurrence, rendered and
    /// joined; only integer and text columns have distinct values.
    pub fn distinct(&self) -> (r: Result<String, NonHashable>)
        requires
            self.wf(),
        ensures
            r is Ok <==> hashable(self.code()),
            r matches Ok(s) ==> s@ == rendered(dedup(self.values())),
    {
        self.series.distinct()
    }
}

} // verus!
