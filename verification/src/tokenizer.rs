use vstd::prelude::*;

use crate::symbols::{table_wf, OpKind, SymbolEntry, SymbolTable};

verus! {

/// `p` occurs at the start of `s`.
pub open spec fn is_prefix(p: Seq<char>, s: Seq<char>) -> bool {
    p.len() <= s.len() && forall|k: int| 0 <= k < p.len() ==> p[k] == s[k]
}

/// Index of the first table entry, at or after `i`, whose pattern is a prefix
/// of `s`; the table's length when none is.
pub open spec fn match_from(t: Seq<SymbolEntry>, s: Seq<char>, i: int) -> int
    decreases t.len() - i,
{
    if i < 0 || i >= t.len() {
        t.len() as int
    } else if is_prefix(t[i].pattern@, s) {
        i
    } else {
        match_from(t, s, i + 1)
    }
}

/// The token stream that a left-to-right scan of `s` produces: at each
/// position the first matching pattern, in table order, is consumed and its
/// kind emitted; a position with no match is skipped one character.
pub open spec fn tokenize(t: Seq<SymbolEntry>, s: Seq<char>) -> Seq<OpKind>
    decreases s.len(),
    via tokenize_decreases
{
    if s.len() == 0 {
        Seq::empty()
    } else {
        let m = match_from(t, s, 0);
        if 0 <= m < t.len() {
            let n = t[m].pattern@.len();
            let step: int = if n >= 1 {
                n as int
            } else {
                1
            };
            seq![t[m].kind] + tokenize(t, s.skip(step))
        } else {
            tokenize(t, s.skip(1))
        }
    }
}

#[via_fn]
proof fn tokenize_decreases(t: Seq<SymbolEntry>, s: Seq<char>) {
    if s.len() > 0 {
        let m = match_from(t, s, 0);
        if 0 <= m < t.len() {
            lemma_match_from_prefix(t, s, 0);
        }
    }
}

/// A match index returned by `match_from` really carries a prefix match.
pub proof fn lemma_match_from_prefix(t: Seq<SymbolEntry>, s: Seq<char>, i: int)
    requires
        0 <= i,
        match_from(t, s, i) < t.len(),
    ensures
        i <= match_from(t, s, i),
        is_prefix(t[match_from(t, s, i)].pattern@, s),
    decreases t.len() - i,
{
    if i < t.len() && !is_prefix(t[i].pattern@, s) {
        lemma_match_from_prefix(t, s, i + 1);
    }
}

/// The token stream never holds more tokens than the source has characters.
pub proof fn lemma_tokenize_len(t: Seq<SymbolEntry>, s: Seq<char>)
    ensures
        tokenize(t, s).len() <= s.len(),
    decreases s.len(),
{
    if s.len() > 0 {
        let m = match_from(t, s, 0);
        if 0 <= m < t.len() {
            lemma_match_from_prefix(t, s, 0);
            let n = t[m].pattern@.len();
            let step: int = if n >= 1 {
                n as int
            } else {
                1
            };
            lemma_tokenize_len(t, s.skip(step));
        } else {
            lemma_tokenize_len(t, s.skip(1));
        }
    }
}

/// Scans a source text for tokens, with a single-slot pushback buffer.
pub struct Tokenizer<'a> {
    pub table: &'a SymbolTable,
    pub source: &'a Vec<char>,
    pub pos: usize,
    pub pending: Option<OpKind>,
}

impl<'a> Tokenizer<'a> {
    pub open spec fn wf(self) -> bool {
        &&& table_wf(self.table.entries@)
        &&& self.pos <= self.source@.len()
    }

    /// The tokens still to come: a pushed-back token first, then whatever the
    /// scan of the remaining source yields.
    pub open spec fn stream(self) -> Seq<OpKind> {
        let rest = tokenize(self.table.entries@, self.source@.skip(self.pos as int));
        match self.pending {
            Some(k) => seq![k] + rest,
            None => rest,
        }
    }

    pub fn new(table: &'a SymbolTable, source: &'a Vec<char>) -> (r: Tokenizer<'a>)
        requires
            table_wf(table.entries@),
        ensures
            r.wf(),
            r.stream() == tokenize(table.entries@, source@),
            r.table.entries@ == table.entries@,
            r.source@ == source@,
    {
        let r = Tokenizer { table, source, pos: 0, pending: None };
        assert(r.source@.skip(0) =~= r.source@);
        r
    }

    /// Pushes one token back; the next `next_token` returns it first. At most
    /// one token can be pending, so a second push before a take is ruled out.
    pub fn unget_token(&mut self, k: OpKind)
        requires
            old(self).wf(),
            old(self).pending is None,
        ensures
            final(self).wf(),
            final(self).stream() == seq![k] + old(self).stream(),
            final(self).table == old(self).table,
            final(self).source == old(self).source,
    {
        self.pending = Some(k);
    }

    /// Takes the next token of the stream, or nothing when the remaining
    /// source holds no further match.
    pub fn next_token(&mut self) -> (r: Option<OpKind>)
        requires
            old(self).wf(),
        ensures
            final(self).wf(),
            final(self).table == old(self).table,
            final(self).source == old(self).source,
            final(self).pending is None,
            match r {
                Some(k) => {
                    &&& old(self).stream().len() > 0
                    &&& k == old(self).stream()[0]
                    &&& final(self).stream() == old(self).stream().drop_first()
                },
                None => old(self).stream().len() == 0 && final(self).stream().len() == 0,
            },
    {
        match self.pending {
            Some(k) => {
                self.pending = None;
                assert(self.stream() =~= old(self).stream().drop_first());
                return Some(k);
            },
            None => {},
        }
        loop
            invariant
                self.wf(),
                self.pending is None,
                self.table == old(self).table,
                self.source == old(self).source,
                self.pos >= old(self).pos,
                self.stream() == old(self).stream(),
            decreases self.source@.len() - self.pos,
        {
            let ghost rest = self.source@.skip(self.pos as int);
            if self.pos >= self.source.len() {
                assert(rest.len() == 0);
                return None;
            }
            assert(rest.len() > 0);
            match try_match(&self.table, &self.source, self.pos) {
                Some((k, n)) => {
                    proof {
                        let m = match_from(self.table.entries@, rest, 0);
                        assert(tokenize(self.table.entries@, rest) == seq![
                            self.table.entries@[m].kind,
                        ] + tokenize(self.table.entries@, rest.skip(n as int)));
                    }
                    assert(n <= rest.len());
                    let new_pos = self.pos + n;
                    proof {
                        assert(self.source@.skip(new_pos as int) =~= rest.skip(n as int));
                    }
                    self.pos = new_pos;
                    assert(seq![k] + self.stream() =~= old(self).stream());
                    assert(self.stream() =~= old(self).stream().drop_first());
                    return Some(k);
                },
                None => {
                    proof {
                        assert(tokenize(self.table.entries@, rest) == tokenize(
                            self.table.entries@,
                            rest.skip(1),
                        ));
                        assert(self.source@.skip(self.pos + 1) =~= rest.skip(1));
                    }
                    self.pos = self.pos + 1;
                },
            }
        }
    }
}

/// Compares one pattern against the source at `pos`.
fn pattern_matches(p: &Vec<char>, s: &Vec<char>, pos: usize) -> (r: bool)
    requires
        pos <= s@.len(),
    ensures
        r == is_prefix(p@, s@.skip(pos as int)),
{
    let slen: usize = s.len();
    let plen: usize = p.len();
    if plen > slen - pos {
        assert(!is_prefix(p@, s@.skip(pos as int)));
        return false;
    }
    let mut j: usize = 0;
    while j < plen
        invariant
            pos <= slen,
            slen == s@.len(),
            plen == p@.len(),
            j <= plen,
            plen <= slen - pos,
            forall|k: int| 0 <= k < j ==> p@[k] == s@.skip(pos as int)[k],
        decreases plen - j,
    {
        if p[j] != s[pos + j] {
            assert(p@[j as int] != s@.skip(pos as int)[j as int]);
            return false;
        }
        j = j + 1;
    }
    true
}

/// Tries every table entry in order at `pos`; returns the kind and pattern
/// length of the first match.
fn try_match(table: &SymbolTable, s: &Vec<char>, pos: usize) -> (r: Option<(OpKind, usize)>)
    requires
        table_wf(table.entries@),
        pos < s@.len(),
    ensures
        ({
            let m = match_from(table.entries@, s@.skip(pos as int), 0);
            match r {
                Some((k, n)) => 0 <= m < table.entries@.len() && k == table.entries@[m].kind && n
                    == table.entries@[m].pattern@.len() && n >= 1 && is_prefix(
                    table.entries@[m].pattern@,
                    s@.skip(pos as int),
                ),
                None => m == table.entries@.len(),
            }
        }),
{
    let ghost rest = s@.skip(pos as int);
    let mut i: usize = 0;
    while i < table.entries.len()
        invariant
            table_wf(table.entries@),
            pos < s@.len(),
            rest == s@.skip(pos as int),
            i <= table.entries@.len(),
            match_from(table.entries@, rest, 0) == match_from(table.entries@, rest, i as int),
        decreases table.entries@.len() - i,
    {
        if pattern_matches(&table.entries[i].pattern, s, pos) {
            assert(match_from(table.entries@, rest, i as int) == i);
            return Some((table.entries[i].kind, table.entries[i].pattern.len()));
        }
        i = i + 1;
    }
    None
}

} // verus!
