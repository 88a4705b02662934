//! Row filters: a mask built from an equality test on one column, applied
//! to every column when rendering.
use vstd::prelude::*;

use crate::cells::{kept, mask_bits, mask_get, mask_len, mask_new, rendered, window, Mask, Value, MAX_MASK_BITS};
use crate::csv_parser::{fields_of, COMMA};
use crate::frame::Frame;
use crate::frame::FrameError;
use crate::parsed_bytes::ParsedBytes;
use crate::series::{hashable, storage_code, word_value, SeriesEnum};
use crate::type_parser::Codes;

verus! {

/// The values a literal reads as in a column of the given tag: one per field.
pub open spec fn literal_values(bytes: Seq<u8>, code: Codes) -> Seq<Value> {
    fields_of(bytes, COMMA).map_values(|w: Seq<u8>| word_value(storage_code(code), w))
}

/// `bits` is the mask of the first column named `name`: one bit per row,
/// set where the row's value is among the values `literal` reads as under
/// the column's tag.
pub open spec fn equality_mask(frame: Frame, name: Seq<char>, literal: Seq<u8>, bits: Seq<bool>) -> bool {
    exists|i: int|
        0 <= i < frame.cols().len() && (#[trigger] frame.cols()[i]).name_view() == name && (forall|k: int|
            0 <= k < i ==> (#[trigger] frame.cols()[k]).name_view() != name) && bits == Seq::new(
            frame.cols()[i].values().len(),
            |q: int| literal_values(literal, frame.cols()[i].code()).contains(frame.cols()[i].values()[q]),
        )
}

/// A one-column series read from the fields of `bytes` under `code`.
pub fn single_buffer_into_col_trait(bytes: &[u8], code: Codes) -> (r: SeriesEnum)
    ensures
        r.code() == storage_code(code),
        r.values() == literal_values(bytes@, code),
{
    let mut words = ParsedBytes::new();
    let mut sp = crate::csv_parser::FieldSplitter::from_bytes(bytes);
    let ghost fs = fields_of(bytes@, COMMA);
    proof {
        crate::csv_parser::lemma_fields_len(bytes@, COMMA);
        assert(fs.skip(0) =~= fs);
    }
    loop
        invariant
            fs == fields_of(bytes@, COMMA),
            words.wf(),
            words@.len() <= fs.len(),
            sp.pending() == fs.skip(words@.len() as int),
            words@ == fs.take(words@.len() as int),
        decreases fs.len() - words@.len(),
    {
        let ghost n = words@.len() as int;
        match sp.next() {
            Some(f) => {
                words.extend(f);
                proof {
                    assert(fs.skip(n).drop_first() =~= fs.skip(n + 1));
                    assert(fs.take(n + 1) =~= fs.take(n).push(f@));
                }
            },
            None => {
                proof {
                    assert(fs.take(n) =~= fs);
                }
                let r = SeriesEnum::from_words(code, &words);
                assert(r.values() =~= literal_values(bytes@, code));
                return r;
            },
        }
    }
}

/// A bit per row of a frame: set where the row passes.
pub struct Filter {
    filter: Mask,
}

impl Filter {
    pub closed spec fn bits(&self) -> Seq<bool> {
        mask_bits(self.filter)
    }

    /// A filter that keeps no row.
    pub fn new() -> (r: Filter)
        ensures
            r.bits() == Seq::<bool>::empty(),
    {
        Filter { filter: mask_new() }
    }

    /// Sets the mask to the rows of the named column whose value equals one
    /// of the values the literal reads as under the column's tag. A frame
    /// without such a column, a column without hashing rule, or one with
    /// more rows than a mask holds, leaves the filter as it was.
    pub fn add_equalto_filter(&mut self, frame: &Frame, bytes: &[u8], column: &str) -> (r: Result<(), FrameError>)
        requires
            frame.wf(),
        ensures
            r is Err ==> final(self).bits() == old(self).bits(),
            (exists|i: int|
                0 <= i < frame.cols().len() && (#[trigger] frame.cols()[i]).name_view() == column@ && hashable(
                    frame.cols()[i].code(),
                ) && frame.cols()[i].values().len() <= MAX_MASK_BITS && forall|k: int|
                    0 <= k < i ==> (#[trigger] frame.cols()[k]).name_view() != column@) ==> r is Ok,
            (forall|k: int| 0 <= k < frame.cols().len() ==> (#[trigger] frame.cols()[k]).name_view() != column@) ==> r
                == Err::<(), FrameError>(FrameError::NoSuchColumn),
            r is Ok ==> equality_mask(*frame, column@, bytes@, final(self).bits()),
            r == Err::<(), FrameError>(FrameError::WrongType) ==> exists|i: int|
                0 <= i < frame.cols().len() && (#[trigger] frame.cols()[i]).name_view() == column@ && !hashable(
                    frame.cols()[i].code(),
                ),
            r is Err ==> r == Err::<(), FrameError>(FrameError::NoSuchColumn) || r == Err::<(), FrameError>(
                FrameError::WrongType,
            ) || r == Err::<(), FrameError>(FrameError::TooManyRows),
    {
        let i = match frame.position_of(column) {
            Some(i) => i,
            None => {
                return Err(FrameError::NoSuchColumn);
            },
        };
        let col = frame.column_at(i);
        let probe = single_buffer_into_col_trait(bytes, col.dtype());
        if col.len() > MAX_MASK_BITS {
            return Err(FrameError::TooManyRows);
        }
        proof {
            assert(storage_code(col.code()) == col.code());
        }
        match col.equal_to(&probe) {
            Ok(mask) => {
                self.filter = mask;
                Ok(())
            },
            Err(_) => Err(FrameError::WrongType),
        }
    }

    /// The bits of the mask, in row order.
    pub fn to_bools(&self) -> (r: Vec<bool>)
        ensures
            r@ == self.bits(),
    {
        let n = mask_len(&self.filter);
        let mut out: Vec<bool> = Vec::new();
        let mut i: usize = 0;
        while i < n
            invariant
                n == self.bits().len(),
                i <= n,
                out@ == self.bits().take(i as int),
            decreases n - i,
        {
            out.push(mask_get(&self.filter, i));
            proof {
                assert(self.bits().take(i + 1) =~= self.bits().take(i as int).push(self.bits()[i as int]));
            }
            i += 1;
        }
        assert(self.bits().take(n as int) =~= self.bits());
        out
    }

    /// The mask.
    pub fn get(&self) -> (r: &Mask)
        ensures
            mask_bits(*r) == self.bits(),
    {
        &self.filter
    }

    /// Renders, for every column, the rows `[offset, offset + size)` of
    /// those the mask keeps.
    pub fn slice(&self, frame: &Frame, offset: usize, size: usize) -> (r: Vec<String>)
        ensures
            r@.len() == frame.cols().len(),
            forall|j: int|
                0 <= j < r@.len() ==> #[trigger] r@[j]@ == rendered(
                    window(kept(frame.cols()[j].values(), self.bits()), offset as int, size as int),
                ),
    {
        let mut out: Vec<String> = Vec::new();
        let mut j: usize = 0;
        while j < frame.width()
            invariant
                j <= frame.cols().len(),
                out@.len() == j,
                forall|c: int|
                    0 <= c < j ==> #[trigger] out@[c]@ == rendered(
                        window(kept(frame.cols()[c].values(), self.bits()), offset as int, size as int),
                    ),
            decreases frame.cols().len() - j,
        {
            out.push(frame.column_at(j).filter_join(&self.filter, offset, size));
            j += 1;
        }
        out
    }
}

impl Default for Filter {
    fn default() -> (r: Filter)
        ensures
            r.bits() == Seq::<bool>::empty(),
    {
        Filter::new()
    }
}

} // verus!
