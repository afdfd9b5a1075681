//! What a parser of source files offers.
use crate::types::{FileSymbols, FileSymbolsView};
use vstd::prelude::*;

verus! {

/// Reads the symbols of one source file.
pub trait Parser: Send + Sync {
    /// What the parser makes of a text: the symbols, or why there are none.
    spec fn parsed(&self, path: Seq<char>, source: Seq<char>) -> Result<FileSymbolsView, Seq<char>>;

    /// The name of the language that the parser reads.
    spec fn language_name(&self) -> Seq<char>;

    /// Reads the symbols of a text that stands in the file at `path`.
    fn parse_file(&self, path: &str, source: &str) -> (r: Result<FileSymbols, String>)
        ensures
            match (r, self.parsed(path@, source@)) {
                (Ok(f), Ok(v)) => f@ == v,
                (Err(e), Err(m)) => e@ == m,
                _ => false,
            },
    ;

    /// The name of the language that the parser reads.
    fn language(&self) -> (r: &'static str)
        ensures
            r@ == self.language_name(),
    ;
}

} // verus!
