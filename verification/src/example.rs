use crate::alphabet::{
    lemma_symbol_index_in_range, symbol_index, total_width, wf_alphabet, width_sum, Alphabet,
    Symbol,
};
use vstd::prelude::*;

verus! {

/// A small four-symbol alphabet used by the tests and as a model
/// implementation of the [`Alphabet`] trait.
#[derive(Copy, Clone, PartialEq, Eq, Structural, Debug)]
pub enum ExampleSymbol {
    A,
    B,
    C,
    Eof,
}

impl Symbol for ExampleSymbol {
    fn sym_eq(&self, other: &Self) -> (r: bool)
        ensures
            r == (*self == *other),
    {
        *self == *other
    }
}

/// The interval width of each example symbol. These correspond to the
/// following probabilities: A: 0.25, B: 0.50, C: 0.15, EOF: 0.10.
pub open spec fn example_width(symbol: ExampleSymbol) -> int {
    match symbol {
        ExampleSymbol::A => 25,
        ExampleSymbol::B => 50,
        ExampleSymbol::C => 15,
        ExampleSymbol::Eof => 10,
    }
}

pub struct ExampleAlphabet {
    symbols: Vec<ExampleSymbol>,
}

impl ExampleAlphabet {
    pub fn new() -> (r: Self)
        ensures
            wf_alphabet(&r),
            r.spec_symbols() == seq![
                ExampleSymbol::A,
                ExampleSymbol::B,
                ExampleSymbol::C,
                ExampleSymbol::Eof,
            ],
            r.spec_widths() == seq![25int, 50int, 15int, 10int],
            total_width(r.spec_widths()) == 100,
            r.spec_eof() == ExampleSymbol::Eof,
    {
        let symbols = vec![
            ExampleSymbol::A,
            ExampleSymbol::B,
            ExampleSymbol::C,
            ExampleSymbol::Eof,
        ];
        let r = ExampleAlphabet { symbols };
        proof {
            assert(r.spec_symbols() =~= seq![
                ExampleSymbol::A,
                ExampleSymbol::B,
                ExampleSymbol::C,
                ExampleSymbol::Eof,
            ]);
            assert(r.spec_widths() =~= seq![25int, 50int, 15int, 10int]);
            assert(r.spec_symbols().contains(r.spec_eof())) by {
                assert(r.spec_symbols()[3] == ExampleSymbol::Eof);
            }
            assert(total_width(r.spec_widths()) == 100) by {
                reveal_with_fuel(width_sum, 5);
            }
        }
        r
    }
}

impl Alphabet for ExampleAlphabet {
    type S = ExampleSymbol;

    closed spec fn spec_symbols(&self) -> Seq<ExampleSymbol> {
        self.symbols@
    }

    closed spec fn spec_widths(&self) -> Seq<int> {
        self.symbols@.map_values(|s: ExampleSymbol| example_width(s))
    }

    open spec fn spec_eof(&self) -> ExampleSymbol {
        ExampleSymbol::Eof
    }

    fn symbols(&self) -> (r: &Vec<ExampleSymbol>) {
        &self.symbols
    }

    fn eof(&self) -> (r: ExampleSymbol) {
        ExampleSymbol::Eof
    }

    fn interval_width(&self, symbol: &ExampleSymbol) -> (r: usize) {
        proof {
            lemma_symbol_index_in_range(self.spec_symbols(), *symbol);
            let j = symbol_index(self.spec_symbols(), *symbol);
            assert(self.spec_widths()[j] == example_width(*symbol));
        }
        match symbol {
            ExampleSymbol::A => 25,
            ExampleSymbol::B => 50,
            ExampleSymbol::C => 15,
            ExampleSymbol::Eof => 10,
        }
    }
}

} // verus!
