use crate::alphabet::{lemma_symbol_index, symbol_index, wf_alphabet, Alphabet, Symbol};
use vstd::prelude::*;

verus! {

/// A symbol type that wraps an integer, so alphabets of any size can be built
/// from a vector of interval widths. The terminator is the value zero.
#[derive(Copy, Clone, PartialEq, Eq, Structural, Debug)]
pub struct NumSymbol(pub usize);

impl Symbol for NumSymbol {
    fn sym_eq(&self, other: &Self) -> (r: bool)
        ensures
            r == (*self == *other),
    {
        self.0 == other.0
    }
}

impl NumSymbol {
    /// The terminator symbol of every [`NumAlphabet`].
    pub fn eof() -> (r: Self)
        ensures
            r == NumSymbol(0),
    {
        NumSymbol(0)
    }
}

/// An alphabet over `NumSymbol(0) .. NumSymbol(n - 1)` with caller-supplied
/// interval widths; `NumSymbol(0)` is the terminator.
pub struct NumAlphabet {
    symbols: Vec<NumSymbol>,
    interval_widths: Vec<usize>,
}

impl NumAlphabet {
    /// Builds the alphabet for the given widths. The widths must be non-empty
    /// and positive: an empty or zero-width alphabet cannot partition any
    /// interval.
    pub fn new(interval_widths: Vec<usize>) -> (r: Self)
        requires
            interval_widths@.len() >= 1,
            forall|i: int| 0 <= i < interval_widths@.len() ==> interval_widths@[i] >= 1,
        ensures
            wf_alphabet(&r),
            r.spec_widths() == interval_widths@.map_values(|w: usize| w as int),
            r.spec_symbols().len() == interval_widths@.len(),
            forall|i: int|
                0 <= i < interval_widths@.len() ==> r.spec_symbols()[i] == NumSymbol(i as usize),
            r.spec_eof() == NumSymbol(0),
    {
        let n = interval_widths.len();
        let mut symbols: Vec<NumSymbol> = Vec::new();
        let mut i: usize = 0;
        while i < n
            invariant
                i <= n,
                symbols@.len() == i as int,
                forall|k: int| 0 <= k < i as int ==> symbols@[k] == NumSymbol(k as usize),
            decreases n - i,
        {
            symbols.push(NumSymbol(i));
            i = i + 1;
        }
        let r = NumAlphabet { symbols, interval_widths };
        proof {
            assert forall|p: int, q: int|
                0 <= p < q < r.spec_symbols().len() implies r.spec_symbols()[p]
                != r.spec_symbols()[q] by {
            }
            assert(r.spec_symbols().contains(NumSymbol(0))) by {
                assert(r.spec_symbols()[0] == NumSymbol(0));
            }
        }
        r
    }
}

impl Alphabet for NumAlphabet {
    type S = NumSymbol;

    closed spec fn spec_symbols(&self) -> Seq<NumSymbol> {
        self.symbols@
    }

    closed spec fn spec_widths(&self) -> Seq<int> {
        self.interval_widths@.map_values(|w: usize| w as int)
    }

    open spec fn spec_eof(&self) -> NumSymbol {
        NumSymbol(0)
    }

    fn symbols(&self) -> (r: &Vec<NumSymbol>) {
        &self.symbols
    }

    fn eof(&self) -> (r: NumSymbol) {
        NumSymbol(0)
    }

    fn interval_width(&self, symbol: &NumSymbol) -> (r: usize) {
        let n = self.symbols.len();
        let mut i: usize = 0;
        while i < n
            invariant
                forall|p: int, q: int|
                    0 <= p < q < self.symbols@.len() ==> self.symbols@[p] != self.symbols@[q],
                self.interval_widths@.len() == self.symbols@.len(),
                self.symbols@.contains(*symbol),
                n == self.symbols@.len(),
                i <= n,
                forall|k: int| 0 <= k < i as int ==> self.symbols@[k] != *symbol,
            decreases n - i,
        {
            if self.symbols[i].sym_eq(symbol) {
                proof {
                    lemma_symbol_index(self.spec_symbols(), *symbol, i as int);
                }
                return self.interval_widths[i];
            }
            i = i + 1;
        }
        proof {
            let w = choose|k: int|
                0 <= k < self.spec_symbols().len() && self.spec_symbols()[k] == *symbol;
            assert(false);
        }
        0
    }
}

} // verus!
