//! Fallback column names for a table without a header row.
use vstd::prelude::*;

verus! {

/// Label `i` over an alphabet of symbol pairs: the first byte of each
/// symbol in turn, then two-byte labels made of the second byte of symbol
/// `c` followed by the second byte of each symbol in turn, for `c` in order.
/// There are `n + n * n` labels for `n` symbols.
pub open spec fn filler_label(symbols: Seq<[u8; 2]>, i: int) -> Option<Seq<u8>> {
    let n = symbols.len() as int;
    if n == 0 || i < 0 {
        None
    } else if i < n {
        Some(seq![symbols[i][0]])
    } else if i - n < n * n {
        Some(seq![symbols[(i - n) / n][1], symbols[(i - n) % n][1]])
    } else {
        None
    }
}

/// The standard alphabet: `AA`, `BB`, ..., `ZZ`, which labels columns `A` to
/// `Z`, then `AA` to `AZ`, `BA` to `BZ`, and so on up to `ZZ`.
pub open spec fn latin_pairs() -> Seq<[u8; 2]> {
    Seq::new(26, |i: int| [(65 + i) as u8, (65 + i) as u8])
}

/// Hands out the labels of an alphabet one at a time.
pub struct HeaderFillerGenerator {
    symbols: Vec<[u8; 2]>,
    current: [u8; 2],
    index: usize,
}

impl HeaderFillerGenerator {
    pub closed spec fn alphabet(&self) -> Seq<[u8; 2]> {
        self.symbols@
    }

    /// There are fewer labels than `usize` can count, and no more were handed out.
    pub closed spec fn wf(&self) -> bool {
        let n = self.symbols@.len() as int;
        &&& n + n * n <= usize::MAX
        &&& self.index <= n + n * n
    }

    /// How many labels were handed out.
    pub closed spec fn position(&self) -> int {
        self.index as int
    }

    pub fn new(slice: &[[u8; 2]], init: [u8; 2]) -> (r: Self)
        requires
            slice@.len() + slice@.len() * slice@.len() <= usize::MAX,
        ensures
            r.wf(),
            r.alphabet() == slice@,
            r.position() == 0,
    {
        let mut symbols: Vec<[u8; 2]> = Vec::with_capacity(slice.len());
        let mut i: usize = 0;
        while i < slice.len()
            invariant
                i <= slice@.len(),
                symbols@ == slice@.take(i as int),
            decreases slice@.len() - i,
        {
            symbols.push(slice[i]);
            proof {
                assert(slice@.take(i + 1) =~= slice@.take(i as int).push(slice@[i as int]));
            }
            i += 1;
        }
        proof {
            assert(slice@.take(slice@.len() as int) =~= slice@);
        }
        Self { symbols, current: init, index: 0 }
    }

    /// The next label; `None` once all were handed out.
    pub fn next(&mut self) -> (r: Option<Vec<u8>>)
        requires
            old(self).wf(),
        ensures
            final(self).wf(),
            final(self).alphabet() == old(self).alphabet(),
            filler_label(old(self).alphabet(), old(self).position()) is None ==> r is None
                && final(self).position() == old(self).position(),
            filler_label(old(self).alphabet(), old(self).position()) matches Some(l) ==> (r matches Some(v)
                && v@ == l),
            filler_label(old(self).alphabet(), old(self).position()) is Some ==> final(self).position()
                == old(self).position() + 1,
    {
        let n = self.symbols.len();
        if n == 0 {
            return None;
        }
        let label: Vec<u8>;
        if self.index < n {
            self.current = self.symbols[self.index];
            label = vec![self.current[0]];
            proof {
                assert(label@ =~= seq![self.symbols@[self.index as int][0]]);
            }
        } else {
            let j = self.index - n;
            let c = j / n;
            if c >= n {
                proof {
                    assert(j >= n * n) by (nonlinear_arith)
                        requires
                            c == j / n,
                            c >= n,
                            n > 0,
                    ;
                }
                return None;
            }
            let k = j % n;
            proof {
                assert(j < n * n) by (nonlinear_arith)
                    requires
                        c == j / n,
                        c < n,
                        n > 0,
                ;
                assert(k < n) by (nonlinear_arith)
                    requires
                        k == j % n,
                        n > 0,
                ;
            }
            self.current = [self.symbols[c][1], self.symbols[k][1]];
            label = vec![self.current[0], self.current[1]];
            proof {
                assert(label@ =~= seq![self.symbols@[c as int][1], self.symbols@[k as int][1]]);
            }
        }
        self.index += 1;
        Some(label)
    }
}

impl Default for HeaderFillerGenerator {
    /// The generator over the standard alphabet.
    fn default() -> (r: Self)
        ensures
            r.wf(),
            r.alphabet() == latin_pairs(),
            r.position() == 0,
    {
        let init: [u8; 2] = [65, 65];
        let symbols: [[u8; 2]; 26] = [
            [65, 65],
            [66, 66],
            [67, 67],
            [68, 68],
            [69, 69],
            [70, 70],
            [71, 71],
            [72, 72],
            [73, 73],
            [74, 74],
            [75, 75],
            [76, 76],
            [77, 77],
            [78, 78],
            [79, 79],
            [80, 80],
            [81, 81],
            [82, 82],
            [83, 83],
            [84, 84],
            [85, 85],
            [86, 86],
            [87, 87],
            [88, 88],
            [89, 89],
            [90, 90],
        ];
        let slice = symbols.as_slice();
        assert(slice@.len() == 26);
        let r = Self::new(slice, init);
        assert(r.alphabet() =~= latin_pairs());
        r
    }
}

} // verus!
