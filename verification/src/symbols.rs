use vstd::prelude::*;

verus! {

/// The eight primitive operations of the language. A token is one of these
/// kinds; the tokenizer classifies matched symbol strings into them.
#[derive(Clone, Copy, Debug, PartialEq, Eq, Structural)]
pub enum OpKind {
    PtrInc,
    PtrDec,
    DataInc,
    DataDec,
    Output,
    Input,
    LoopHead,
    LoopEnd,
}

/// One entry of a symbol table: the character string that triggers an
/// operation, and the operation it triggers.
#[derive(Debug)]
pub struct SymbolEntry {
    pub pattern: Vec<char>,
    pub kind: OpKind,
}

/// An ordered set of exactly eight (pattern, kind) pairs. Patterns are tried
/// in order at each scan position, so a pattern that is a proper prefix of
/// another must come after the longer one for the longer match to win; that
/// ordering is a documented obligation on whoever builds a table, not a
/// checked one.
#[derive(Debug)]
pub struct SymbolTable {
    pub entries: Vec<SymbolEntry>,
}

/// What every symbol table must satisfy: exactly eight entries, none with an
/// empty pattern (an empty pattern would match everywhere and the scan would
/// never advance), and each operation kind appearing exactly once.
pub open spec fn table_wf(t: Seq<SymbolEntry>) -> bool {
    &&& t.len() == 8
    &&& forall|i: int| 0 <= i < t.len() ==> (#[trigger] t[i].pattern)@.len() >= 1
    &&& forall|i: int, j: int|
        0 <= i < t.len() && 0 <= j < t.len() && i != j ==> (#[trigger] t[i].kind) != (#[trigger] t[j].kind)
}

impl SymbolTable {
    pub open spec fn wf(self) -> bool {
        table_wf(self.entries@)
    }

    /// Builds a table from entries supplied in matching order. The caller is
    /// responsible for the eight-entry shape and for the prefix ordering.
    pub fn new(entries: Vec<SymbolEntry>) -> (r: SymbolTable)
        requires
            table_wf(entries@),
        ensures
            r.wf(),
            r.entries@ == entries@,
    {
        SymbolTable { entries }
    }
}

/// Pins down the default symbol set, entry by entry: which character string
/// maps to which operation, and in which order the tokenizer tries them.
/// The one prefix collision of this set is handled by the order: the pattern
/// for `DataInc` is a proper prefix of the one for `PtrInc`, and the longer
/// pattern stands earlier.
pub open spec fn default_table(t: Seq<SymbolEntry>) -> bool {
    &&& t.len() == 8
    &&& t[0].pattern@ == seq!['に', 'ゃ', 'う', 'ね'] && t[0].kind == OpKind::PtrInc
    &&& t[1].pattern@ == seq!['に', 'ゃ', 'ん'] && t[1].kind == OpKind::PtrDec
    &&& t[2].pattern@ == seq!['に', 'ゃ', 'う'] && t[2].kind == OpKind::DataInc
    &&& t[3].pattern@ == seq!['に', 'ゃ', '？'] && t[3].kind == OpKind::DataDec
    &&& t[4].pattern@ == seq!['こ', 'れ', 'に', 'な', 'り', 'た', 'い'] && t[4].kind == OpKind::Output
    &&& t[5].pattern@ == seq!['こ', 'れ', 'す', 'き'] && t[5].kind == OpKind::Input
    &&& t[6].pattern@ == seq!['ポ', 'チ', 'っ', 'た'] && t[6].kind == OpKind::LoopHead
    &&& t[7].pattern@ == seq!['ね', 'る'] && t[7].kind == OpKind::LoopEnd
}

/// The default symbol set of the language.
pub fn default_symbols() -> (r: SymbolTable)
    ensures
        r.wf(),
        default_table(r.entries@),
{
    let mut entries: Vec<SymbolEntry> = Vec::new();
    entries.push(SymbolEntry { pattern: vec!['に', 'ゃ', 'う', 'ね'], kind: OpKind::PtrInc });
    entries.push(SymbolEntry { pattern: vec!['に', 'ゃ', 'ん'], kind: OpKind::PtrDec });
    entries.push(SymbolEntry { pattern: vec!['に', 'ゃ', 'う'], kind: OpKind::DataInc });
    entries.push(SymbolEntry { pattern: vec!['に', 'ゃ', '？'], kind: OpKind::DataDec });
    entries.push(SymbolEntry {
        pattern: vec!['こ', 'れ', 'に', 'な', 'り', 'た', 'い'],
        kind: OpKind::Output,
    });
    entries.push(SymbolEntry { pattern: vec!['こ', 'れ', 'す', 'き'], kind: OpKind::Input });
    entries.push(SymbolEntry { pattern: vec!['ポ', 'チ', 'っ', 'た'], kind: OpKind::LoopHead });
    entries.push(SymbolEntry { pattern: vec!['ね', 'る'], kind: OpKind::LoopEnd });
    SymbolTable { entries }
}

} // verus!
