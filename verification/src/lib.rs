pub mod ast;
pub mod parse;
pub mod runtime;
pub mod symbols;
pub mod tokenizer;

use vstd::prelude::*;

verus! {

/// A parser for the default symbol set of the language.
pub fn parser() -> (r: parse::Parser)
    ensures
        r.wf(),
        symbols::default_table(r.table.entries@),
{
    parse::Parser::new(symbols::default_symbols())
}

} // verus!
