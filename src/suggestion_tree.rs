//! Completion of typed command words: the stored words that continue a
//! prefix, stopping at the first stored word along each path.
use vstd::prelude::*;
use vstd::utf8::{decode_utf8, encode_utf8_valid_utf8, is_ascii_chars, is_ascii_chars_encode_utf8, valid_utf8};
use vstd::string::StringSliceAdditionalSpecFns;

use crate::text::utf8_string;

verus! {

pub open spec fn has_prefix(w: Seq<u8>, p: Seq<u8>) -> bool {
    p.len() <= w.len() && w.take(p.len() as int) == p
}

/// `w` continues `p`, and no shorter stored word that continues `p` is a
/// prefix of `w`.
pub open spec fn suggested(ws: Seq<Seq<u8>>, p: Seq<u8>, w: Seq<u8>) -> bool {
    has_prefix(w, p) && forall|k: int|
        0 <= k < ws.len() && has_prefix(#[trigger] ws[k], p) && ws[k].len() < w.len() ==> !has_prefix(w, ws[k])
}

/// The stored words, each once, in the order they were first added.
pub struct SuggestionTree {
    words: Vec<Vec<u8>>,
}

impl SuggestionTree {
    /// The bytes of the stored words.
    pub closed spec fn stored(&self) -> Seq<Seq<u8>> {
        self.words@.map_values(|w: Vec<u8>| w@)
    }

    /// Every stored word is valid UTF-8.
    pub closed spec fn wf(&self) -> bool {
        forall|k: int| 0 <= k < self.stored().len() ==> valid_utf8(#[trigger] self.stored()[k])
    }

    pub fn new() -> (r: Self)
        ensures
            r.wf(),
            r.stored() == Seq::<Seq<u8>>::empty(),
    {
        let r = SuggestionTree { words: Vec::new() };
        assert(r.stored() =~= Seq::<Seq<u8>>::empty());
        r
    }

    fn holds(&self, w: &[u8]) -> (r: bool)
        ensures
            r == self.stored().contains(w@),
    {
        let mut k: usize = 0;
        while k < self.words.len()
            invariant
                k <= self.words@.len(),
                forall|q: int| 0 <= q < k ==> self.stored()[q] != w@,
            decreases self.words@.len() - k,
        {
            if bytes_equal(self.words[k].as_slice(), w) {
                proof {
                    assert(self.stored()[k as int] == w@);
                }
                return true;
            }
            k += 1;
        }
        false
    }

    /// Adds a word; a word that is already stored is not added again.
    pub fn append(&mut self, word: &str)
        requires
            old(self).wf(),
        ensures
            final(self).wf(),
            old(self).stored().contains(word.spec_bytes()) ==> final(self).stored() == old(self).stored(),
            !old(self).stored().contains(word.spec_bytes()) ==> final(self).stored() == old(self).stored().push(
                word.spec_bytes(),
            ),
    {
        let b = word.as_bytes();
        if !self.holds(b) {
            let v = vstd::slice::slice_to_vec(b);
            self.words.push(v);
            assert(self.stored() =~= old(self).stored().push(word.spec_bytes()));
            proof {
                encode_utf8_valid_utf8(word@);
                assert forall|k: int| 0 <= k < self.stored().len() implies valid_utf8(#[trigger] self.stored()[k]) by {
                    if k < old(self).stored().len() {
                        assert(self.stored()[k] == old(self).stored()[k]);
                    }
                }
            }
        }
    }

    /// The stored words that `suggested` admits for the prefix, in the order
    /// they were added.
    pub fn suggest(&self, word: &str) -> (r: Vec<String>)
        requires
            self.wf(),
        ensures
            r@.map_values(|s: String| s@) == self.stored().filter(|w: Seq<u8>| suggested(self.stored(), word.spec_bytes(), w)).map_values(
                |w: Seq<u8>| decode_utf8(w),
            ),
    {
        let p = word.as_bytes();
        let ghost ws = self.stored();
        let ghost pred = |w: Seq<u8>| suggested(ws, p@, w);
        let mut out: Vec<String> = Vec::new();
        let mut i: usize = 0;
        while i < self.words.len()
            invariant
                ws == self.stored(),
                p@ == word.spec_bytes(),
                pred == (|w: Seq<u8>| suggested(ws, p@, w)),
                i <= self.words@.len(),
                self.wf(),
                out@.map_values(|s: String| s@) == ws.take(i as int).filter(pred).map_values(|w: Seq<u8>| decode_utf8(w)),
            decreases self.words@.len() - i,
        {
            let w = self.words[i].as_slice();
            let mut keep = starts_with(w, p);
            let mut k: usize = 0;
            while k < self.words.len()
                invariant
                    ws == self.stored(),
                    i < self.words@.len(),
                    k <= self.words@.len(),
                    w@ == ws[i as int],
                    keep == (has_prefix(w@, p@) && forall|q: int|
                        0 <= q < k && has_prefix(#[trigger] ws[q], p@) && ws[q].len() < w@.len() ==> !has_prefix(
                            w@,
                            ws[q],
                        )),
                decreases self.words@.len() - k,
            {
                let v = self.words[k].as_slice();
                if keep && starts_with(v, p) && v.len() < w.len() && starts_with(w, v) {
                    keep = false;
                }
                proof {
                    assert(v@ == ws[k as int]);
                }
                k += 1;
            }
            let ghost before = out@;
            proof {
                assert(valid_utf8(ws[i as int]));
                assert(ws.take(i + 1).drop_last() =~= ws.take(i as int));
                assert(ws.take(i + 1).last() == ws[i as int]);
                assert(k == self.words@.len());
                assert(suggested(ws, p@, ws[i as int]) == keep);
                assert(pred(ws[i as int]) == keep);
                let t = ws.take(i + 1);
                assert(t.len() > 0);
                assert(t.filter(pred) == if pred(t.last()) {
                    t.drop_last().filter(pred).push(t.last())
                } else {
                    t.drop_last().filter(pred)
                }) by {
                    reveal_with_fuel(Seq::filter, 1);
                }
                assert(ws.take(i + 1).filter(pred) == if keep {
                    ws.take(i as int).filter(pred).push(ws[i as int])
                } else {
                    ws.take(i as int).filter(pred)
                });
                if keep {
                    assert(ws.take(i as int).filter(pred).push(ws[i as int]).map_values(|w: Seq<u8>| decode_utf8(w))
                        =~= ws.take(i as int).filter(pred).map_values(|w: Seq<u8>| decode_utf8(w)).push(
                        decode_utf8(ws[i as int]),
                    ));
                }
            }
            if keep {
                match utf8_string(w) {
                    Some(s) => {
                        out.push(s);
                        proof {
                            assert(out@.map_values(|s: String| s@) =~= before.map_values(|s: String| s@).push(
                                decode_utf8(w@),
                            ));
                        }
                    },
                    None => {},
                }
            }
            i += 1;
        }
        proof {
            assert(ws.take(self.words@.len() as int) =~= ws);
        }
        out
    }

    /// The tree of the command keywords.
    pub fn base_tree() -> (r: Self)
        ensures
            r.wf(),
            r.stored() == seq!["Filter".spec_bytes(), "Average".spec_bytes(), "Sum".spec_bytes()],
    {
        proof {
            reveal_strlit("Filter");
            reveal_strlit("Average");
            reveal_strlit("Sum");
            assert(is_ascii_chars("Filter"@));
            assert(is_ascii_chars("Average"@));
            assert(is_ascii_chars("Sum"@));
            is_ascii_chars_encode_utf8("Filter"@);
            is_ascii_chars_encode_utf8("Average"@);
            is_ascii_chars_encode_utf8("Sum"@);
        }
        let mut tree = Self::new();
        tree.append("Filter");
        assert(tree.stored() =~= seq!["Filter".spec_bytes()]);
        tree.append("Average");
        assert(tree.stored() =~= seq!["Filter".spec_bytes(), "Average".spec_bytes()]);
        tree.append("Sum");
        assert(tree.stored() =~= seq!["Filter".spec_bytes(), "Average".spec_bytes(), "Sum".spec_bytes()]);
        tree
    }
}

impl Default for SuggestionTree {
    fn default() -> (r: Self)
        ensures
            r.wf(),
            r.stored() == Seq::<Seq<u8>>::empty(),
    {
        Self::new()
    }
}

fn bytes_equal(a: &[u8], b: &[u8]) -> (r: bool)
    ensures
        r == (a@ == b@),
{
    if a.len() != b.len() {
        return false;
    }
    let mut i: usize = 0;
    while i < a.len()
        invariant
            a@.len() == b@.len(),
            i <= a@.len(),
            forall|k: int| 0 <= k < i ==> a@[k] == b@[k],
        decreases a@.len() - i,
    {
        if a[i] != b[i] {
            return false;
        }
        i += 1;
    }
    assert(a@ =~= b@);
    true
}

fn starts_with(w: &[u8], p: &[u8]) -> (r: bool)
    ensures
        r == has_prefix(w@, p@),
{
    if p.len() > w.len() {
        return false;
    }
    let mut i: usize = 0;
    while i < p.len()
        invariant
            p@.len() <= w@.len(),
            i <= p@.len(),
            forall|k: int| 0 <= k < i ==> w@[k] == p@[k],
        decreases p@.len() - i,
    {
        if w[i] != p[i] {
            assert(w@.take(p@.len() as int)[i as int] != p@[i as int]);
            return false;
        }
        i += 1;
    }
    assert(w@.take(p@.len() as int) =~= p@);
    true
}

} // verus!
