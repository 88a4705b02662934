//! An append-only store of words: one byte buffer and the cumulative end
//! offset of each word in it.
use vstd::prelude::*;
use vstd::slice::{slice_subrange, slice_to_vec};

verus! {

/// Total number of bytes in a sequence of words.
pub open spec fn total_len(ws: Seq<Seq<u8>>) -> int
    decreases ws.len(),
{
    if ws.len() == 0 {
        0
    } else {
        total_len(ws.drop_last()) + ws.last().len()
    }
}

#[derive(Clone, Debug, PartialEq, Eq)]
pub struct ParsedBytes {
    buff: Vec<u8>,
    offsets: Vec<usize>,
}

impl View for ParsedBytes {
    type V = Seq<Seq<u8>>;

    /// The words in the order they were appended.
    closed spec fn view(&self) -> Seq<Seq<u8>> {
        Seq::new(self.offsets@.len(), |i: int| self.buff@.subrange(self.start_of(i), self.offsets@[i] as int))
    }
}

impl ParsedBytes {
    /// Where word `i` begins in the buffer.
    closed spec fn start_of(&self, i: int) -> int {
        if i == 0 {
            0
        } else {
            self.offsets@[i - 1] as int
        }
    }

    /// The offsets never decrease and the last one is the buffer's length.
    pub closed spec fn wf(&self) -> bool {
        &&& forall|i: int, j: int| 0 <= i <= j < self.offsets@.len() ==> self.offsets@[i] <= self.offsets@[j]
        &&& self.offsets@.len() == 0 ==> self.buff@.len() == 0
        &&& self.offsets@.len() > 0 ==> self.offsets@.last() == self.buff@.len()
        &&& self.buff@.len() == total_len(self@)
    }

    pub fn new() -> (r: Self)
        ensures
            r.wf(),
            r@ == Seq::<Seq<u8>>::empty(),
    {
        let r = Self { buff: Vec::new(), offsets: Vec::new() };
        assert(r@ =~= Seq::<Seq<u8>>::empty());
        r
    }

    /// The end offset of the last word, which is the number of bytes held;
    /// `None` when no word was appended.
    pub fn last(&self) -> (r: Option<usize>)
        requires
            self.wf(),
        ensures
            self@.len() == 0 ==> r is None,
            self@.len() > 0 ==> r == Some(total_len(self@) as usize),
    {
        let n = self.offsets.len();
        if n == 0 {
            None
        } else {
            Some(self.offsets[n - 1])
        }
    }

    /// Appends one word.
    pub fn extend(&mut self, data: &[u8])
        requires
            old(self).wf(),
        ensures
            final(self).wf(),
            final(self)@ == old(self)@.push(data@),
    {
        let ghost old_words = self@;
        let ghost old_buff = self.buff@;
        let ghost old_offsets = self.offsets@;
        self.buff.extend_from_slice(data);
        let end = self.buff.len();
        self.offsets.push(end);
        proof {
            assert(self.buff@ =~= old_buff + data@);
            let n = old_offsets.len() as int;
            assert forall|i: int| 0 <= i < n + 1 implies #[trigger] self@[i] == old_words.push(data@)[i] by {
                if i < n {
                    assert(old_offsets[i] <= old_buff.len());
                    if i > 0 {
                        assert(old_offsets[i - 1] <= old_offsets[i]);
                    }
                    assert(self@[i] =~= old_words[i]);
                } else {
                    assert(self@[i] =~= data@);
                }
            }
            assert(self@ =~= old_words.push(data@));
            assert(self@.drop_last() =~= old_words);
        }
    }

    /// The number of words.
    pub fn len(&self) -> (r: usize)
        ensures
            r == self@.len(),
    {
        self.offsets.len()
    }

    pub fn is_empty(&self) -> (r: bool)
        ensures
            r == (self@.len() == 0),
    {
        self.offsets.len() == 0
    }

    /// The bytes of word `i`.
    pub fn get(&self, i: usize) -> (r: &[u8])
        requires
            self.wf(),
            i < self@.len(),
        ensures
            r@ == self@[i as int],
    {
        let start = if i == 0 {
            0
        } else {
            self.offsets[i - 1]
        };
        proof {
            if i > 0 {
                assert(self.offsets@[i - 1] <= self.offsets@[i as int]);
            }
            assert(self.offsets@[i as int] <= self.offsets@.last());
        }
        slice_subrange(self.buff.as_slice(), start, self.offsets[i])
    }

    /// Removes the last word and returns its bytes.
    pub fn pop_at_last_offset(&mut self) -> (r: Vec<u8>)
        requires
            old(self).wf(),
            old(self)@.len() > 0,
        ensures
            final(self).wf(),
            r@ == old(self)@.last(),
            final(self)@ == old(self)@.drop_last(),
    {
        let ghost old_words = self@;
        let ghost old_offsets = self.offsets@;
        let n = self.offsets.len();
        let word = slice_to_vec(self.get(n - 1));
        let start = if n == 1 {
            0
        } else {
            self.offsets[n - 2]
        };
        proof {
            if n > 1 {
                assert(self.offsets@[n - 2] <= self.offsets@[n - 1]);
            }
        }
        self.offsets.pop();
        self.buff.truncate(start);
        proof {
            assert forall|i: int| 0 <= i < n - 1 implies self.offsets@[i] <= start by {
                assert(old_offsets[i] <= old_offsets[n - 2]);
            }
            assert forall|i: int| 0 <= i < n - 1 implies #[trigger] self@[i] == old_words.drop_last()[i] by {
                assert(old_offsets[i] <= start);
                if i > 0 {
                    assert(old_offsets[i - 1] <= old_offsets[i]);
                }
                assert(self@[i] =~= old_words[i]);
            }
            assert(self@ =~= old_words.drop_last());
        }
        word
    }

    /// An iterator over the words, in the order they were appended.
    pub fn into_iter(&self) -> (r: ParsedBytesIter<'_>)
        requires
            self.wf(),
        ensures
            r.wf(),
            r.remaining() == self@,
    {
        let r = ParsedBytesIter { iter: self, cursor: 0 };
        assert(r.remaining() =~= self@);
        r
    }
}

impl Default for ParsedBytes {
    fn default() -> (r: Self)
        ensures
            r.wf(),
            r@ == Seq::<Seq<u8>>::empty(),
    {
        Self::new()
    }
}

/// Hands out the words of a `ParsedBytes` one at a time.
pub struct ParsedBytesIter<'a> {
    iter: &'a ParsedBytes,
    cursor: usize,
}

impl<'a> ParsedBytesIter<'a> {
    /// The words that are still to come.
    pub closed spec fn remaining(&self) -> Seq<Seq<u8>> {
        self.iter@.skip(self.cursor as int)
    }

    pub closed spec fn wf(&self) -> bool {
        self.iter.wf() && self.cursor <= self.iter@.len()
    }

    /// The next word; `None` once all are out.
    pub fn next(&mut self) -> (r: Option<&'a [u8]>)
        requires
            old(self).wf(),
        ensures
            final(self).wf(),
            old(self).remaining().len() == 0 ==> r is None && final(self).remaining() == old(self).remaining(),
            old(self).remaining().len() > 0 ==> (r matches Some(w) && w@ == old(self).remaining()[0]),
            old(self).remaining().len() > 0 ==> final(self).remaining() == old(self).remaining().drop_first(),
    {
        if self.cursor >= self.iter.len() {
            return None;
        }
        let w = self.iter.get(self.cursor);
        self.cursor += 1;
        assert(self.remaining() =~= old(self).remaining().drop_first());
        Some(w)
    }
}

} // verus!
