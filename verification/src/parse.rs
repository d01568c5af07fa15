use vstd::prelude::*;

use crate::ast::{
    deltas_nonzero_instr, deltas_nonzero_seq, lemma_view_instrs_push, mag, view_instr,
    view_instrs, weight_seq, Instr, Program, SpecInstr,
};
use crate::symbols::{table_wf, OpKind, SymbolEntry, SymbolTable};
use crate::tokenizer::{tokenize, Tokenizer};

verus! {

/// Why parsing failed: the source ended while a loop was still open, or a
/// loop-close token appeared with no open loop at that nesting level.
#[derive(Clone, Copy, Debug, PartialEq, Eq, Structural)]
pub enum ParseError {
    UnexpectedEndOfSource,
    UnexpectedEndOfLoop,
}

/// Tokens of the pointer axis (`axis` true) or the data axis (`axis` false).
pub open spec fn axis_token(axis: bool, k: OpKind) -> bool {
    if axis {
        k == OpKind::PtrInc || k == OpKind::PtrDec
    } else {
        k == OpKind::DataInc || k == OpKind::DataDec
    }
}

/// The contribution of one token to a coalesced delta.
pub open spec fn token_delta(k: OpKind) -> int {
    match k {
        OpKind::PtrInc => 1,
        OpKind::DataInc => 1,
        OpKind::PtrDec => -1,
        OpKind::DataDec => -1,
        _ => 0,
    }
}

/// Length of the maximal leading run of same-axis tokens.
pub open spec fn run_len(axis: bool, ts: Seq<OpKind>) -> nat
    decreases ts.len(),
{
    if ts.len() > 0 && axis_token(axis, ts[0]) {
        1 + run_len(axis, ts.drop_first())
    } else {
        0
    }
}

/// Net delta of the maximal leading run of same-axis tokens.
pub open spec fn run_delta(axis: bool, ts: Seq<OpKind>) -> int
    decreases ts.len(),
{
    if ts.len() > 0 && axis_token(axis, ts[0]) {
        token_delta(ts[0]) + run_delta(axis, ts.drop_first())
    } else {
        0
    }
}

pub proof fn lemma_run_len_le(axis: bool, ts: Seq<OpKind>)
    ensures
        run_len(axis, ts) <= ts.len(),
    decreases ts.len(),
{
    if ts.len() > 0 && axis_token(axis, ts[0]) {
        lemma_run_len_le(axis, ts.drop_first());
    }
}

/// Every token inside the leading run is a token of that axis.
pub proof fn lemma_run_prefix(axis: bool, ts: Seq<OpKind>, j: int)
    requires
        0 <= j < run_len(axis, ts),
    ensures
        axis_token(axis, ts[j]),
    decreases ts.len(),
{
    lemma_run_len_le(axis, ts);
    if j > 0 {
        lemma_run_prefix(axis, ts.drop_first(), j - 1);
    }
}

/// The grammar, walked over a token stream with an explicit stack of open
/// loops. `stk` holds the instruction sequences of the enclosing loops, `cur`
/// the one being filled. A loop-head pushes, a loop-end pops and wraps; a run
/// of same-axis increment and decrement tokens becomes one adjust instruction
/// carrying the net delta, or nothing when the net delta is zero.
pub open spec fn parse_loop(
    ts: Seq<OpKind>,
    stk: Seq<Seq<SpecInstr>>,
    cur: Seq<SpecInstr>,
) -> Result<Seq<SpecInstr>, ParseError>
    decreases ts.len(),
    via parse_loop_decreases
{
    if ts.len() == 0 {
        if stk.len() == 0 {
            Ok(cur)
        } else {
            Err(ParseError::UnexpectedEndOfSource)
        }
    } else {
        let k = ts[0];
        if k == OpKind::LoopHead {
            parse_loop(ts.drop_first(), stk.push(cur), Seq::empty())
        } else if k == OpKind::LoopEnd {
            if stk.len() == 0 {
                Err(ParseError::UnexpectedEndOfLoop)
            } else {
                parse_loop(ts.drop_first(), stk.drop_last(), stk.last().push(SpecInstr::Loop(cur)))
            }
        } else if k == OpKind::Output {
            parse_loop(ts.drop_first(), stk, cur.push(SpecInstr::Output))
        } else if k == OpKind::Input {
            parse_loop(ts.drop_first(), stk, cur.push(SpecInstr::Input))
        } else {
            let axis = k == OpKind::PtrInc || k == OpKind::PtrDec;
            let n = run_len(axis, ts);
            let d = run_delta(axis, ts);
            let cur2 = if d != 0 {
                cur.push(
                    if axis {
                        SpecInstr::PtrAdjust(d)
                    } else {
                        SpecInstr::DataAdjust(d)
                    },
                )
            } else {
                cur
            };
            parse_loop(ts.skip(n as int), stk, cur2)
        }
    }
}

#[via_fn]
proof fn parse_loop_decreases(ts: Seq<OpKind>, stk: Seq<Seq<SpecInstr>>, cur: Seq<SpecInstr>) {
    if ts.len() > 0 {
        let k = ts[0];
        if k != OpKind::LoopHead && k != OpKind::LoopEnd && k != OpKind::Output && k
            != OpKind::Input {
            let axis = k == OpKind::PtrInc || k == OpKind::PtrDec;
            lemma_run_len_le(axis, ts);
            assert(axis_token(axis, ts[0]));
            assert(run_len(axis, ts) >= 1);
        }
    }
}

/// What a whole token stream parses to.
pub open spec fn parse_tokens(ts: Seq<OpKind>) -> Result<Seq<SpecInstr>, ParseError> {
    parse_loop(ts, Seq::empty(), Seq::empty())
}

/// What a source text parses to under a symbol table: tokenize, then parse.
pub open spec fn parse_source(t: Seq<SymbolEntry>, s: Seq<char>) -> Result<
    Seq<SpecInstr>,
    ParseError,
> {
    parse_tokens(tokenize(t, s))
}

/// The mathematical reading of a stack of partly built instruction sequences.
pub open spec fn view_stack(s: Seq<Vec<Instr>>) -> Seq<Seq<SpecInstr>>
    decreases s,
{
    if s.len() == 0 {
        Seq::empty()
    } else {
        view_stack(s.drop_last()).push(view_instrs(s.last()@))
    }
}

pub proof fn lemma_view_stack_len(s: Seq<Vec<Instr>>)
    ensures
        view_stack(s).len() == s.len(),
    decreases s,
{
    if s.len() > 0 {
        lemma_view_stack_len(s.drop_last());
    }
}

pub proof fn lemma_view_stack_push(s: Seq<Vec<Instr>>, x: Vec<Instr>)
    ensures
        view_stack(s.push(x)) == view_stack(s).push(view_instrs(x@)),
{
    assert(s.push(x).drop_last() =~= s);
    assert(s.push(x).last() == x);
}

/// Turns a source text into an instruction tree under a fixed symbol table.
pub struct Parser {
    pub table: SymbolTable,
}

impl Parser {
    pub open spec fn wf(self) -> bool {
        table_wf(self.table.entries@)
    }

    pub fn new(table: SymbolTable) -> (r: Parser)
        requires
            table_wf(table.entries@),
        ensures
            r.wf(),
            r.table.entries@ == table.entries@,
    {
        Parser { table }
    }

    /// Recursive-descent parse of `source`, realized with an explicit stack
    /// of open loops. Succeeds exactly when the token stream closes every
    /// loop it opens and closes none it never opened, and then returns the
    /// tree that `parse_source` describes.
    pub fn parse(&self, source: &Vec<char>) -> (r: Result<Program, ParseError>)
        requires
            self.wf(),
        ensures
            ({
                let sr = parse_source(self.table.entries@, source@);
                match r {
                    Ok(p) => sr is Ok && p@ == sr->Ok_0,
                    Err(e) => sr is Err && e == sr->Err_0,
                }
            }),
            r matches Ok(p) ==> weight_seq(p@) <= 2 * source@.len(),
            r matches Ok(p) ==> deltas_nonzero_seq(p@),
    {
        let srclen: usize = source.len();
        let mut tk = Tokenizer::new(&self.table, source);
        let mut stack: Vec<Vec<Instr>> = Vec::new();
        let mut cur: Vec<Instr> = Vec::new();
        let ghost full = tk.stream();
        proof {
            crate::tokenizer::lemma_tokenize_len(self.table.entries@, source@);
            assert(view_stack(stack@) =~= Seq::<Seq<SpecInstr>>::empty());
            assert(view_instrs(cur@) =~= Seq::<SpecInstr>::empty());
        }
        loop
            invariant
                tk.wf(),
                tk.table.entries@ == self.table.entries@,
                tk.source@ == source@,
                self.wf(),
                source@.len() == srclen,
                tk.stream().len() <= full.len(),
                full.len() <= source@.len(),
                parse_loop(tk.stream(), view_stack(stack@), view_instrs(cur@)) == parse_tokens(
                    full,
                ),
                full == tokenize(self.table.entries@, source@),
            decreases tk.stream().len(),
        {
            let ghost ts = tk.stream();
            let ghost stkv = view_stack(stack@);
            let ghost curv = view_instrs(cur@);
            match tk.next_token() {
                None => {
                    proof {
                        lemma_view_stack_len(stack@);
                        assert(tk.stream() =~= ts);
                        lemma_parsed_program_weight(full);
                        lemma_parsed_deltas_nonzero(full);
                    }
                    if stack.len() == 0 {
                        return Ok(Program { instrs: cur });
                    } else {
                        return Err(ParseError::UnexpectedEndOfSource);
                    }
                },
                Some(k) => {
                    if k == OpKind::LoopHead {
                        proof {
                            lemma_view_stack_push(stack@, cur);
                        }
                        stack.push(cur);
                        cur = Vec::new();
                        assert(view_instrs(cur@) =~= Seq::<SpecInstr>::empty());
                    } else if k == OpKind::LoopEnd {
                        proof {
                            lemma_view_stack_len(stack@);
                        }
                        if stack.len() == 0 {
                            return Err(ParseError::UnexpectedEndOfLoop);
                        }
                        let ghost pre_stack = stack@;
                        let mut parent = stack.pop().unwrap();
                        proof {
                            assert(pre_stack =~= stack@.push(parent));
                            lemma_view_stack_push(stack@, parent);
                            assert(stkv == view_stack(stack@).push(view_instrs(parent@)));
                            assert(stkv.drop_last() =~= view_stack(stack@));
                            assert(stkv.last() == view_instrs(parent@));
                        }
                        let body = cur;
                        proof {
                            lemma_view_instrs_push(parent@, Instr::Loop(body));
                        }
                        parent.push(Instr::Loop(body));
                        cur = parent;
                    } else if k == OpKind::Output {
                        proof {
                            lemma_view_instrs_push(cur@, Instr::Output);
                        }
                        cur.push(Instr::Output);
                    } else if k == OpKind::Input {
                        proof {
                            lemma_view_instrs_push(cur@, Instr::Input);
                        }
                        cur.push(Instr::Input);
                    } else {
                        let axis: bool = k == OpKind::PtrInc || k == OpKind::PtrDec;
                        let mut delta: i128 = if k == OpKind::PtrInc || k == OpKind::DataInc {
                            1
                        } else {
                            -1
                        };
                        let ghost mut consumed: int = 1;
                        proof {
                            assert(axis_token(axis, ts[0]));
                            assert(tk.stream() =~= ts.skip(1));
                        }
                        loop
                            invariant
                                tk.wf(),
                                tk.table.entries@ == self.table.entries@,
                                tk.source@ == source@,
                                self.wf(),
                                source@.len() == srclen,
                                1 <= consumed <= ts.len(),
                                ts.len() <= srclen,
                                tk.stream() == ts.skip(consumed),
                                run_len(axis, ts) == consumed + run_len(axis, tk.stream()),
                                run_delta(axis, ts) == delta + run_delta(axis, tk.stream()),
                                -consumed <= delta <= consumed,
                            ensures
                                run_len(axis, tk.stream()) == 0,
                            decreases tk.stream().len(),
                        {
                            let ghost s_in = tk.stream();
                            match tk.next_token() {
                                None => {
                                    proof {
                                        assert(tk.stream() =~= s_in);
                                    }
                                    break ;
                                },
                                Some(k2) => {
                                    let hit: bool = if axis {
                                        k2 == OpKind::PtrInc || k2 == OpKind::PtrDec
                                    } else {
                                        k2 == OpKind::DataInc || k2 == OpKind::DataDec
                                    };
                                    if hit {
                                        if k2 == OpKind::PtrInc || k2 == OpKind::DataInc {
                                            delta = delta + 1;
                                        } else {
                                            delta = delta - 1;
                                        }
                                        proof {
                                            consumed = consumed + 1;
                                            assert(tk.stream() =~= ts.skip(consumed));
                                        }
                                    } else {
                                        tk.unget_token(k2);
                                        proof {
                                            assert(tk.stream() =~= s_in);
                                            assert(run_len(axis, tk.stream()) == 0);
                                        }
                                        break ;
                                    }
                                },
                            }
                        }
                        proof {
                            assert(run_len(axis, tk.stream()) == 0);
                            assert(run_len(axis, ts) == consumed);
                            assert(run_delta(axis, ts) == delta as int);
                            assert(tk.stream() == ts.skip(run_len(axis, ts) as int));
                        }
                        if delta != 0 {
                            let instr = if axis {
                                Instr::PtrAdjust(delta)
                            } else {
                                Instr::DataAdjust(delta)
                            };
                            proof {
                                lemma_view_instrs_push(cur@, instr);
                            }
                            cur.push(instr);
                        }
                    }
                },
            }
        }
    }

    /// `parse`, taking the source as a text string.
    pub fn parse_str(&self, source: &str) -> (r: Result<Program, ParseError>)
        requires
            self.wf(),
        ensures
            ({
                let sr = parse_source(self.table.entries@, source@);
                match r {
                    Ok(p) => sr is Ok && p@ == sr->Ok_0,
                    Err(e) => sr is Err && e == sr->Err_0,
                }
            }),
            r matches Ok(p) ==> weight_seq(p@) <= 2 * source@.len(),
            r matches Ok(p) ==> deltas_nonzero_seq(p@),
    {
        let cs = str_chars(source);
        self.parse(&cs)
    }
}

/// Collects the characters of a text, in order.
pub fn str_chars(s: &str) -> (r: Vec<char>)
    ensures
        r@ == s@,
{
    broadcast use vstd::string::axiom_spec_iter;

    let mut r: Vec<char> = Vec::new();
    for c in it: s.chars()
        invariant
            r@ == it.seq().take(it.index() as int),
    {
        r.push(c);
        assert(r@ =~= it.seq().take(it.index() as int + 1));
    }
    assert(r@ =~= s@);
    r
}

/// A coalesced delta never outweighs the run it came from.
pub proof fn lemma_run_delta_bounded(axis: bool, ts: Seq<OpKind>)
    ensures
        mag(run_delta(axis, ts)) <= run_len(axis, ts),
    decreases ts.len(),
{
    if ts.len() > 0 && axis_token(axis, ts[0]) {
        lemma_run_delta_bounded(axis, ts.drop_first());
    }
}

/// Total weight of the instruction sequences stacked up for open loops.
pub open spec fn weight_stack(stk: Seq<Seq<SpecInstr>>) -> nat
    decreases stk,
{
    if stk.len() == 0 {
        0
    } else {
        weight_stack(stk.drop_last()) + weight_seq(stk.last())
    }
}

proof fn lemma_parse_loop_weight(ts: Seq<OpKind>, stk: Seq<Seq<SpecInstr>>, cur: Seq<SpecInstr>)
    ensures
        match parse_loop(ts, stk, cur) {
            Ok(r) => weight_seq(r) <= weight_stack(stk) + weight_seq(cur) + stk.len() + 2 * ts.len(),
            Err(_) => true,
        },
    decreases ts.len(),
{
    if ts.len() == 0 {
    } else {
        let k = ts[0];
        let rest = ts.drop_first();
        if k == OpKind::LoopHead {
            assert(stk.push(cur).drop_last() =~= stk);
            assert(weight_stack(stk.push(cur)) == weight_stack(stk) + weight_seq(cur));
            lemma_parse_loop_weight(rest, stk.push(cur), Seq::empty());
        } else if k == OpKind::LoopEnd {
            if stk.len() > 0 {
                let top = stk.last();
                let cur2 = top.push(SpecInstr::Loop(cur));
                crate::ast::lemma_weight_seq_push(top, SpecInstr::Loop(cur));
                assert(stk =~= stk.drop_last().push(top));
                assert(stk.drop_last().push(top).drop_last() =~= stk.drop_last());
                assert(weight_stack(stk) == weight_stack(stk.drop_last()) + weight_seq(top));
                lemma_parse_loop_weight(rest, stk.drop_last(), cur2);
            }
        } else if k == OpKind::Output {
            crate::ast::lemma_weight_seq_push(cur, SpecInstr::Output);
            lemma_parse_loop_weight(rest, stk, cur.push(SpecInstr::Output));
        } else if k == OpKind::Input {
            crate::ast::lemma_weight_seq_push(cur, SpecInstr::Input);
            lemma_parse_loop_weight(rest, stk, cur.push(SpecInstr::Input));
        } else {
            let axis = k == OpKind::PtrInc || k == OpKind::PtrDec;
            let n = run_len(axis, ts);
            let d = run_delta(axis, ts);
            lemma_run_len_le(axis, ts);
            lemma_run_delta_bounded(axis, ts);
            assert(axis_token(axis, ts[0]));
            assert(n >= 1);
            let cur2 = if d != 0 {
                cur.push(
                    if axis {
                        SpecInstr::PtrAdjust(d)
                    } else {
                        SpecInstr::DataAdjust(d)
                    },
                )
            } else {
                cur
            };
            if d != 0 {
                crate::ast::lemma_weight_seq_push(
                    cur,
                    if axis {
                        SpecInstr::PtrAdjust(d)
                    } else {
                        SpecInstr::DataAdjust(d)
                    },
                );
            }
            assert(weight_seq(cur2) <= weight_seq(cur) + 1 + n);
            lemma_parse_loop_weight(ts.skip(n as int), stk, cur2);
        }
    }
}

/// A parsed program weighs at most twice its token stream: each token adds
/// one node or one unit of delta, plus at most one node per run. So any
/// program that came out of the parser is far inside the machine bound that
/// `run` asks for.
pub proof fn lemma_parsed_program_weight(ts: Seq<OpKind>)
    ensures
        match parse_tokens(ts) {
            Ok(r) => weight_seq(r) <= 2 * ts.len(),
            Err(_) => true,
        },
{
    lemma_parse_loop_weight(ts, Seq::empty(), Seq::empty());
}

proof fn lemma_parse_loop_nonzero(ts: Seq<OpKind>, stk: Seq<Seq<SpecInstr>>, cur: Seq<SpecInstr>)
    requires
        forall|j: int| 0 <= j < stk.len() ==> deltas_nonzero_seq(#[trigger] stk[j]),
        deltas_nonzero_seq(cur),
    ensures
        match parse_loop(ts, stk, cur) {
            Ok(r) => deltas_nonzero_seq(r),
            Err(_) => true,
        },
    decreases ts.len(),
{
    if ts.len() == 0 {
    } else {
        let k = ts[0];
        let rest = ts.drop_first();
        if k == OpKind::LoopHead {
            assert(forall|j: int|
                0 <= j < stk.push(cur).len() ==> deltas_nonzero_seq(#[trigger] stk.push(cur)[j]));
            lemma_parse_loop_nonzero(rest, stk.push(cur), Seq::empty());
        } else if k == OpKind::LoopEnd {
            if stk.len() > 0 {
                let cur2 = stk.last().push(SpecInstr::Loop(cur));
                assert(deltas_nonzero_seq(stk.last()));
                assert(forall|j: int|
                    0 <= j < cur2.len() ==> deltas_nonzero_instr(#[trigger] cur2[j]));
                lemma_parse_loop_nonzero(rest, stk.drop_last(), cur2);
            }
        } else if k == OpKind::Output || k == OpKind::Input {
            let x = if k == OpKind::Output {
                SpecInstr::Output
            } else {
                SpecInstr::Input
            };
            assert(forall|j: int|
                0 <= j < cur.push(x).len() ==> deltas_nonzero_instr(#[trigger] cur.push(x)[j]));
            lemma_parse_loop_nonzero(rest, stk, cur.push(x));
        } else {
            let axis = k == OpKind::PtrInc || k == OpKind::PtrDec;
            let n = run_len(axis, ts);
            let d = run_delta(axis, ts);
            lemma_run_len_le(axis, ts);
            assert(axis_token(axis, ts[0]));
            assert(n >= 1);
            let cur2 = if d != 0 {
                cur.push(
                    if axis {
                        SpecInstr::PtrAdjust(d)
                    } else {
                        SpecInstr::DataAdjust(d)
                    },
                )
            } else {
                cur
            };
            assert(forall|j: int|
                0 <= j < cur2.len() ==> deltas_nonzero_instr(#[trigger] cur2[j]));
            lemma_parse_loop_nonzero(ts.skip(n as int), stk, cur2);
        }
    }
}

/// Zero-net coalescing really elides: no instruction of a parsed program,
/// however deeply nested, carries a zero delta.
pub proof fn lemma_parsed_deltas_nonzero(ts: Seq<OpKind>)
    ensures
        match parse_tokens(ts) {
            Ok(r) => deltas_nonzero_seq(r),
            Err(_) => true,
        },
{
    lemma_parse_loop_nonzero(ts, Seq::empty(), Seq::empty());
}

/// The stream holds at least one token of kind `k`.
pub open spec fn has_kind(ts: Seq<OpKind>, k: OpKind) -> bool {
    exists|i: int| 0 <= i < ts.len() && ts[i] == k
}

/// A stream of same-axis tokens parses to its maximal run in one step.
proof fn lemma_full_run(axis: bool, ts: Seq<OpKind>)
    requires
        forall|i: int| 0 <= i < ts.len() ==> axis_token(axis, #[trigger] ts[i]),
    ensures
        run_len(axis, ts) == ts.len(),
    decreases ts.len(),
{
    if ts.len() > 0 {
        assert(axis_token(axis, ts[0]));
        lemma_full_run(axis, ts.drop_first());
    }
}

/// Coalescing: a token stream that is one run of `N` same-axis increment and
/// decrement tokens with net delta `D` parses to exactly one adjust
/// instruction carrying `D`, and to no instruction at all when `D` is zero.
pub proof fn lemma_coalescing(axis: bool, ts: Seq<OpKind>)
    requires
        ts.len() > 0,
        forall|i: int| 0 <= i < ts.len() ==> axis_token(axis, #[trigger] ts[i]),
    ensures
        ({
            let d = run_delta(axis, ts);
            if d != 0 {
                parse_tokens(ts) == Ok::<_, ParseError>(
                    seq![
                        if axis {
                            SpecInstr::PtrAdjust(d)
                        } else {
                            SpecInstr::DataAdjust(d)
                        },
                    ],
                )
            } else {
                parse_tokens(ts) == Ok::<_, ParseError>(Seq::<SpecInstr>::empty())
            }
        }),
{
    lemma_full_run(axis, ts);
    let d = run_delta(axis, ts);
    assert(axis_token(axis, ts[0]));
    assert(ts[0] != OpKind::LoopHead && ts[0] != OpKind::LoopEnd && ts[0] != OpKind::Output && ts[0]
        != OpKind::Input);
    assert((ts[0] == OpKind::PtrInc || ts[0] == OpKind::PtrDec) == axis);
    assert(ts.skip(ts.len() as int).len() == 0);
    let cur2 = if d != 0 {
        Seq::<SpecInstr>::empty().push(
            if axis {
                SpecInstr::PtrAdjust(d)
            } else {
                SpecInstr::DataAdjust(d)
            },
        )
    } else {
        Seq::<SpecInstr>::empty()
    };
    assert(parse_loop(ts.skip(ts.len() as int), Seq::<Seq<SpecInstr>>::empty(), cur2)
        == Ok::<_, ParseError>(cur2));
    assert(parse_tokens(ts) == Ok::<_, ParseError>(cur2));
    if d != 0 {
        assert(Seq::<SpecInstr>::empty().push(
            if axis {
                SpecInstr::PtrAdjust(d)
            } else {
                SpecInstr::DataAdjust(d)
            },
        ) =~= seq![
            if axis {
                SpecInstr::PtrAdjust(d)
            } else {
                SpecInstr::DataAdjust(d)
            },
        ]);
    }
}

proof fn lemma_unterminated_rec(ts: Seq<OpKind>, stk: Seq<Seq<SpecInstr>>, cur: Seq<SpecInstr>)
    requires
        !has_kind(ts, OpKind::LoopEnd),
        stk.len() > 0 || has_kind(ts, OpKind::LoopHead),
    ensures
        parse_loop(ts, stk, cur) == Err::<Seq<SpecInstr>, _>(ParseError::UnexpectedEndOfSource),
    decreases ts.len(),
{
    if ts.len() == 0 {
        assert(stk.len() > 0);
    } else {
        let k = ts[0];
        let rest = ts.drop_first();
        assert(k != OpKind::LoopEnd);
        assert forall|j: int| 0 <= j < rest.len() implies rest[j] != OpKind::LoopEnd by {
            assert(ts[j + 1] == rest[j]);
        }
        if k == OpKind::LoopHead {
            lemma_unterminated_rec(rest, stk.push(cur), Seq::empty());
        } else if k == OpKind::Output || k == OpKind::Input {
            if stk.len() == 0 {
                let i = choose|i: int| 0 <= i < ts.len() && ts[i] == OpKind::LoopHead;
                assert(rest[i - 1] == OpKind::LoopHead);
            }
            lemma_unterminated_rec(
                rest,
                stk,
                cur.push(
                    if k == OpKind::Output {
                        SpecInstr::Output
                    } else {
                        SpecInstr::Input
                    },
                ),
            );
        } else {
            let axis = k == OpKind::PtrInc || k == OpKind::PtrDec;
            let n = run_len(axis, ts) as int;
            lemma_run_len_le(axis, ts);
            assert(axis_token(axis, ts[0]));
            assert(n >= 1);
            let tail = ts.skip(n);
            assert forall|j: int| 0 <= j < tail.len() implies tail[j] != OpKind::LoopEnd by {
                assert(ts[j + n] == tail[j]);
            }
            if stk.len() == 0 {
                let i = choose|i: int| 0 <= i < ts.len() && ts[i] == OpKind::LoopHead;
                assert(!axis_token(axis, ts[i]));
                if i < n {
                    lemma_run_prefix(axis, ts, i);
                }
                assert(i >= n);
                assert(tail[i - n] == OpKind::LoopHead);
            }
            let d = run_delta(axis, ts);
            let cur2 = if d != 0 {
                cur.push(
                    if axis {
                        SpecInstr::PtrAdjust(d)
                    } else {
                        SpecInstr::DataAdjust(d)
                    },
                )
            } else {
                cur
            };
            lemma_unterminated_rec(tail, stk, cur2);
        }
    }
}

/// Unterminated loop: a token stream that opens a loop and holds no
/// loop-close token anywhere fails with `UnexpectedEndOfSource`. (A close
/// token standing before the open can make parsing fail earlier with
/// `UnexpectedEndOfLoop`; such streams are outside this statement.)
pub proof fn lemma_unterminated_loop(ts: Seq<OpKind>)
    requires
        has_kind(ts, OpKind::LoopHead),
        !has_kind(ts, OpKind::LoopEnd),
    ensures
        parse_tokens(ts) == Err::<Seq<SpecInstr>, _>(ParseError::UnexpectedEndOfSource),
{
    lemma_unterminated_rec(ts, Seq::empty(), Seq::empty());
}

/// Unmatched close: a token stream whose first token closes a loop fails
/// with `UnexpectedEndOfLoop`, since no loop is open at that point.
pub proof fn lemma_unmatched_close(ts: Seq<OpKind>)
    requires
        ts.len() > 0,
        ts[0] == OpKind::LoopEnd,
    ensures
        parse_tokens(ts) == Err::<Seq<SpecInstr>, _>(ParseError::UnexpectedEndOfLoop),
{
}

} // verus!
