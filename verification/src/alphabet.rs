use vstd::prelude::*;

verus! {

/// A symbol of a message alphabet: an opaque, equality-comparable, freely
/// copyable value. One symbol per alphabet is distinguished as the terminator
/// ("end of file"), which must end every message handed to the encoder.
pub trait Symbol: Sized + Copy {
    /// Decides equality of two symbols, agreeing with spec-level equality.
    fn sym_eq(&self, other: &Self) -> (r: bool)
        ensures
            r == (*self == *other),
    ;
}

/// A well-formed symbol table: non-empty, duplicate-free, one width of at
/// least one per symbol, and the terminator among the symbols.
pub open spec fn wf_symbols<S>(symbols: Seq<S>, widths: Seq<int>, eof: S) -> bool {
    &&& symbols.len() > 0
    &&& widths.len() == symbols.len()
    &&& forall|i: int, j: int| 0 <= i < j < symbols.len() ==> symbols[i] != symbols[j]
    &&& forall|i: int| 0 <= i < widths.len() ==> #[trigger] widths[i] >= 1
    &&& symbols.contains(eof)
}

/// The sum of the first `n` interval widths.
pub open spec fn width_sum(widths: Seq<int>, n: int) -> int
    decreases n,
{
    if n <= 0 {
        0
    } else {
        width_sum(widths, n - 1) + widths[n - 1]
    }
}

/// The sum of all interval widths (`R`).
pub open spec fn total_width(widths: Seq<int>) -> int {
    width_sum(widths, widths.len() as int)
}

/// The cumulative lower bound of the symbol at index `j` (`c_j`).
pub open spec fn lower_bound_at(widths: Seq<int>, j: int) -> int {
    width_sum(widths, j)
}

/// The cumulative upper bound of the symbol at index `j` (`d_j`).
pub open spec fn upper_bound_at(widths: Seq<int>, j: int) -> int {
    width_sum(widths, j + 1)
}

/// The position of a symbol in the enumeration order.
pub open spec fn symbol_index<S>(symbols: Seq<S>, symbol: S) -> int {
    choose|i: int| 0 <= i < symbols.len() && symbols[i] == symbol
}

/// A finite, ordered, non-empty collection of symbols with a fixed enumeration
/// order and an integer interval width per symbol. Both coding machines
/// traverse the enumeration identically, so the order must be stable for the
/// lifetime of a coding operation.
pub trait Alphabet: Sized {
    type S: Symbol;

    /// The symbols in enumeration order.
    spec fn spec_symbols(&self) -> Seq<Self::S>;

    /// The interval widths, indexed in enumeration order.
    spec fn spec_widths(&self) -> Seq<int>;

    /// The terminator symbol.
    spec fn spec_eof(&self) -> Self::S;

    /// The symbols in enumeration order.
    fn symbols(&self) -> (r: &Vec<Self::S>)
        ensures
            r@ == self.spec_symbols(),
    ;

    /// The "end of file" symbol, which terminates the input stream.
    fn eof(&self) -> (r: Self::S)
        ensures
            r == self.spec_eof(),
    ;

    /// The probability that this symbol is the next symbol in the input
    /// stream, represented as an integer such that dividing it by the sum of
    /// all integer probabilities in the symbol set yields the probability.
    ///
    /// This is `r_i`.
    fn interval_width(&self, symbol: &Self::S) -> (r: usize)
        requires
            wf_symbols(self.spec_symbols(), self.spec_widths(), self.spec_eof()),
            self.spec_symbols().contains(*symbol),
        ensures
            r as int == self.spec_widths()[symbol_index(self.spec_symbols(), *symbol)],
    ;

    /// The sum of all interval widths.
    /// This is `R`.
    fn total_interval_width(&self) -> (r: usize)
        requires
            wf_symbols(self.spec_symbols(), self.spec_widths(), self.spec_eof()),
            total_width(self.spec_widths()) <= usize::MAX,
        ensures
            r as int == total_width(self.spec_widths()),
    {
        let syms = self.symbols();
        let n = syms.len();
        let mut sum: usize = 0;
        let mut i: usize = 0;
        while i < n
            invariant
                wf_symbols(self.spec_symbols(), self.spec_widths(), self.spec_eof()),
                total_width(self.spec_widths()) <= usize::MAX,
                syms@ == self.spec_symbols(),
                n == syms@.len(),
                i <= n,
                sum as int == width_sum(self.spec_widths(), i as int),
            decreases n - i,
        {
            proof {
                lemma_width_sum_bounds(self.spec_widths(), i + 1, n as int);
                lemma_symbol_index(self.spec_symbols(), syms@[i as int], i as int);
            }
            sum = sum + self.interval_width(&syms[i]);
            i = i + 1;
        }
        sum
    }

    /// The sum of the widths of all symbols strictly preceding `symbol` in
    /// enumeration order.
    /// This is `c_j`.
    fn interval_lower_bound(&self, symbol: &Self::S) -> (r: usize)
        requires
            wf_symbols(self.spec_symbols(), self.spec_widths(), self.spec_eof()),
            self.spec_symbols().contains(*symbol),
            total_width(self.spec_widths()) <= usize::MAX,
        ensures
            r as int == lower_bound_at(self.spec_widths(), symbol_index(self.spec_symbols(), *symbol)),
    {
        let syms = self.symbols();
        let n = syms.len();
        let mut sum: usize = 0;
        let mut i: usize = 0;
        while i < n
            invariant
                wf_symbols(self.spec_symbols(), self.spec_widths(), self.spec_eof()),
                self.spec_symbols().contains(*symbol),
                total_width(self.spec_widths()) <= usize::MAX,
                syms@ == self.spec_symbols(),
                n == syms@.len(),
                i <= n,
                sum as int == width_sum(self.spec_widths(), i as int),
                forall|k: int| 0 <= k < i ==> self.spec_symbols()[k] != *symbol,
            decreases n - i,
        {
            if syms[i].sym_eq(symbol) {
                proof {
                    lemma_symbol_index(self.spec_symbols(), *symbol, i as int);
                }
                return sum;
            }
            proof {
                lemma_width_sum_bounds(self.spec_widths(), i + 1, n as int);
                lemma_symbol_index(self.spec_symbols(), syms@[i as int], i as int);
            }
            sum = sum + self.interval_width(&syms[i]);
            i = i + 1;
        }
        proof {
            let w = choose|k: int|
                0 <= k < self.spec_symbols().len() && self.spec_symbols()[k] == *symbol;
            assert(false);
        }
        sum
    }

    /// The lower bound plus the symbol's own width.
    /// This is `d_j`.
    fn interval_upper_bound(&self, symbol: &Self::S) -> (r: usize)
        requires
            wf_symbols(self.spec_symbols(), self.spec_widths(), self.spec_eof()),
            self.spec_symbols().contains(*symbol),
            total_width(self.spec_widths()) <= usize::MAX,
        ensures
            r as int == upper_bound_at(self.spec_widths(), symbol_index(self.spec_symbols(), *symbol)),
    {
        proof {
            lemma_symbol_index_in_range(self.spec_symbols(), *symbol);
            lemma_width_sum_bounds(
                self.spec_widths(),
                symbol_index(self.spec_symbols(), *symbol) + 1,
                self.spec_symbols().len() as int,
            );
        }
        self.interval_lower_bound(symbol) + self.interval_width(symbol)
    }
}

/// A well-formed alphabet implementation.
pub open spec fn wf_alphabet<A: Alphabet>(alphabet: &A) -> bool {
    wf_symbols(alphabet.spec_symbols(), alphabet.spec_widths(), alphabet.spec_eof())
}

/// Width sums grow by at least one per symbol: `width_sum(i) + (j - i) <= width_sum(j)`.
pub proof fn lemma_width_sum_bounds(widths: Seq<int>, i: int, j: int)
    requires
        forall|k: int| 0 <= k < widths.len() ==> #[trigger] widths[k] >= 1,
        0 <= i <= j <= widths.len(),
    ensures
        width_sum(widths, i) + (j - i) <= width_sum(widths, j),
    decreases j - i,
{
    if i < j {
        lemma_width_sum_bounds(widths, i, j - 1);
        assert(widths[j - 1] >= 1);
    }
}

/// In a duplicate-free symbol sequence, any index holding `symbol` is its index.
pub proof fn lemma_symbol_index<S>(symbols: Seq<S>, symbol: S, i: int)
    requires
        forall|p: int, q: int| 0 <= p < q < symbols.len() ==> symbols[p] != symbols[q],
        0 <= i < symbols.len(),
        symbols[i] == symbol,
    ensures
        symbol_index(symbols, symbol) == i,
{
    assert(0 <= i < symbols.len() && symbols[i] == symbol);
    let c = symbol_index(symbols, symbol);
    assert(0 <= c < symbols.len() && symbols[c] == symbol) by {
        assert(exists|k: int| 0 <= k < symbols.len() && symbols[k] == symbol);
    }
    if c < i {
        assert(symbols[c] != symbols[i]);
    } else if i < c {
        assert(symbols[i] != symbols[c]);
    }
}

/// A contained symbol's index is in range and holds the symbol.
pub proof fn lemma_symbol_index_in_range<S>(symbols: Seq<S>, symbol: S)
    requires
        forall|p: int, q: int| 0 <= p < q < symbols.len() ==> symbols[p] != symbols[q],
        symbols.contains(symbol),
    ensures
        0 <= symbol_index(symbols, symbol) < symbols.len(),
        symbols[symbol_index(symbols, symbol)] == symbol,
{
    let w = choose|k: int| 0 <= k < symbols.len() && symbols[k] == symbol;
    lemma_symbol_index(symbols, symbol, w);
}

/// Law: for every well-formed alphabet, the computed `[lowerBound, upperBound)`
/// ranges, in enumeration order, exactly tile `[0, totalWidth)`: the first
/// lower bound is zero, each range is non-empty, each upper bound equals the
/// next lower bound (no gap, no overlap), and the last upper bound is the
/// total width.
pub proof fn lemma_interval_partition(widths: Seq<int>, j: int)
    requires
        forall|k: int| 0 <= k < widths.len() ==> #[trigger] widths[k] >= 1,
        0 <= j < widths.len(),
    ensures
        lower_bound_at(widths, 0) == 0,
        0 <= lower_bound_at(widths, j),
        lower_bound_at(widths, j) < upper_bound_at(widths, j),
        upper_bound_at(widths, j) == lower_bound_at(widths, j) + widths[j],
        upper_bound_at(widths, j) == lower_bound_at(widths, j + 1),
        upper_bound_at(widths, j) <= total_width(widths),
        upper_bound_at(widths, widths.len() - 1) == total_width(widths),
{
    lemma_width_sum_bounds(widths, 0, j);
    lemma_width_sum_bounds(widths, j + 1, widths.len() as int);
    assert(widths[j] >= 1);
}

} // verus!
