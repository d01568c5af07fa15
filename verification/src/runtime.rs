use vstd::arithmetic::div_mod::{lemma_add_mod_noop, lemma_small_mod};
use vstd::prelude::*;

use crate::ast::{
    lemma_view_instrs_index, lemma_weight_seq_index, lemma_weight_seq_skip, mag, view_instr,
    view_instrs, weight_instr, weight_seq, Instr, Program, SpecInstr,
};

verus! {

/// How a run can fail. Reading from an exhausted input stream is the one
/// non-fatal condition: callers treat `Eof` as graceful termination. `IoError`
/// is reserved for callers whose byte streams can themselves fail; a run over
/// in-memory buffers never produces it.
#[derive(Clone, Copy, Debug, PartialEq, Eq, Structural)]
pub enum RuntimeError {
    /// A dereference found the pointer outside the tape; carries the
    /// offending index.
    MemoryOutOfBound(i128),
    IoError,
    Eof,
}

/// The mathematical fault of a run, with the pointer as an unbounded integer.
pub enum SpecError {
    OutOfBounds(int),
    EndOfInput,
}

/// The mathematical machine: the tape, the pointer, the input bytes not yet
/// read, and the output bytes written so far.
#[verifier::ext_equal]
pub struct SpecState {
    pub tape: Seq<u8>,
    pub ptr: int,
    pub input: Seq<u8>,
    pub output: Seq<u8>,
}

/// What a bounded number of steps of the machine can end in: a final state
/// with a result, or the step bound ran out before the program did.
pub enum SpecOut {
    Fin { st: SpecState, res: Result<(), SpecError> },
    More,
}

/// The pointer selects a cell of the tape.
pub open spec fn in_bounds(st: SpecState) -> bool {
    0 <= st.ptr < st.tape.len()
}

/// Wrap-around byte arithmetic: the cell plus the delta, modulo 256.
pub open spec fn wrap_byte(cell: u8, d: int) -> u8 {
    (((cell + d) % 256) as u8)
}

/// One instruction, executed with a step budget `f` that is spent one unit
/// per loop iteration. Dereferences happen on data adjustment, output, input
/// and on every loop condition check, never on pointer adjustment; each
/// dereference is bounds-checked and reports the offending pointer on
/// failure.
pub open spec fn step_instr(f: nat, i: SpecInstr, st: SpecState) -> SpecOut
    decreases f, weight_instr(i), 0int,
{
    match i {
        SpecInstr::PtrAdjust(d) => SpecOut::Fin {
            st: SpecState { ptr: st.ptr + d, ..st },
            res: Ok(()),
        },
        SpecInstr::DataAdjust(d) => if in_bounds(st) {
            SpecOut::Fin {
                st: SpecState {
                    tape: st.tape.update(st.ptr, wrap_byte(st.tape[st.ptr], d)),
                    ..st
                },
                res: Ok(()),
            }
        } else {
            SpecOut::Fin { st, res: Err(SpecError::OutOfBounds(st.ptr)) }
        },
        SpecInstr::Output => if in_bounds(st) {
            SpecOut::Fin {
                st: SpecState { output: st.output.push(st.tape[st.ptr]), ..st },
                res: Ok(()),
            }
        } else {
            SpecOut::Fin { st, res: Err(SpecError::OutOfBounds(st.ptr)) }
        },
        SpecInstr::Input => if !in_bounds(st) {
            SpecOut::Fin { st, res: Err(SpecError::OutOfBounds(st.ptr)) }
        } else if st.input.len() == 0 {
            SpecOut::Fin { st, res: Err(SpecError::EndOfInput) }
        } else {
            SpecOut::Fin {
                st: SpecState {
                    tape: st.tape.update(st.ptr, st.input[0]),
                    input: st.input.drop_first(),
                    ..st
                },
                res: Ok(()),
            }
        },
        SpecInstr::Loop(b) => if !in_bounds(st) {
            SpecOut::Fin { st, res: Err(SpecError::OutOfBounds(st.ptr)) }
        } else if st.tape[st.ptr] == 0 {
            SpecOut::Fin { st, res: Ok(()) }
        } else if f == 0 {
            SpecOut::More
        } else {
            match step_seq(f, b, st) {
                SpecOut::More => SpecOut::More,
                SpecOut::Fin { st: st2, res: Err(e) } => SpecOut::Fin { st: st2, res: Err(e) },
                SpecOut::Fin { st: st2, res: Ok(_) } => step_instr((f - 1) as nat, i, st2),
            }
        },
    }
}

/// An instruction sequence, executed front to back; the first fault stops it.
pub open spec fn step_seq(f: nat, s: Seq<SpecInstr>, st: SpecState) -> SpecOut
    decreases f, weight_seq(s), 1int,
    via step_seq_decreases
{
    if s.len() == 0 {
        SpecOut::Fin { st, res: Ok(()) }
    } else {
        match step_instr(f, s[0], st) {
            SpecOut::More => SpecOut::More,
            SpecOut::Fin { st: st2, res: Err(e) } => SpecOut::Fin { st: st2, res: Err(e) },
            SpecOut::Fin { st: st2, res: Ok(_) } => step_seq(f, s.drop_first(), st2),
        }
    }
}

#[via_fn]
proof fn step_seq_decreases(f: nat, s: Seq<SpecInstr>, st: SpecState) {
    if s.len() > 0 {
        crate::ast::lemma_weight_instr_pos(s[0]);
        assert(weight_seq(s) == weight_instr(s[0]) + weight_seq(s.drop_first()));
    }
}

/// The machine a run starts from: a zeroed tape of `mem` cells, the pointer
/// on cell zero, the whole input ahead, nothing written.
pub open spec fn init_state(mem: nat, input: Seq<u8>) -> SpecState {
    SpecState { tape: Seq::new(mem, |i: int| 0u8), ptr: 0, input, output: Seq::empty() }
}

/// What running a program does: execute its instruction sequence from the
/// initial machine, with step budget `f`.
pub open spec fn run_spec(f: nat, prog: Seq<SpecInstr>, input: Seq<u8>, mem: nat) -> SpecOut {
    step_seq(f, prog, init_state(mem, input))
}

/// The exec faults are the mathematical ones, with the pointer narrowed to a
/// machine integer.
pub open spec fn err_matches(e: RuntimeError, s: SpecError) -> bool {
    match e {
        RuntimeError::MemoryOutOfBound(p) => s == SpecError::OutOfBounds(p as int),
        RuntimeError::Eof => s == SpecError::EndOfInput,
        RuntimeError::IoError => false,
    }
}

pub open spec fn res_matches(r: Result<(), RuntimeError>, s: Result<(), SpecError>) -> bool {
    match r {
        Ok(_) => s is Ok,
        Err(e) => s is Err && err_matches(e, s->Err_0),
    }
}

/// The running machine.
struct Interp {
    tape: Vec<u8>,
    ptr: i128,
    input: Vec<u8>,
    inpos: usize,
    output: Vec<u8>,
}

impl Interp {
    spec fn wf(self) -> bool {
        self.inpos <= self.input@.len()
    }

    spec fn view(self) -> SpecState {
        SpecState {
            tape: self.tape@,
            ptr: self.ptr as int,
            input: self.input@.skip(self.inpos as int),
            output: self.output@,
        }
    }
}

/// What one exec step may report; mirrors `SpecOut` without the state.
enum StepRes {
    Fin(Result<(), RuntimeError>),
    More,
}

/// Exec outcome and spec outcome agree, with the state carried alongside.
spec fn step_matches(r: StepRes, so: SpecOut, now: SpecState) -> bool {
    match r {
        StepRes::More => so is More,
        StepRes::Fin(res) => so matches SpecOut::Fin { st, res: sres } && now == st && res_matches(
            res,
            sres,
        ),
    }
}

/// What an instruction needs so that its pointer arithmetic stays inside the
/// machine integer. A sequence's budget covers each of its members' at the
/// moment it runs.
spec fn instr_budget(i: SpecInstr, st: SpecState) -> bool {
    match i {
        SpecInstr::PtrAdjust(d) => mag(st.ptr) + mag(d) <= i128::MAX,
        SpecInstr::Loop(b) => st.tape.len() + weight_seq(b) <= i128::MAX,
        _ => true,
    }
}

/// Applies a signed delta to a byte with wrap-around semantics.
fn apply_delta(cell: u8, d: i128) -> (r: u8)
    ensures
        r == wrap_byte(cell, d as int),
{
    let m: i128 = if d >= 0 {
        d % 256
    } else {
        let neg: i128 = -(d + 1);
        let r256: i128 = neg % 256;
        255 - r256
    };
    proof {
        assert(m == (d as int) % 256) by {
            if d < 0 {
                let dd = d as int;
                let e = dd % 256;
                assert(dd == 256 * (dd / 256) + e) by {
                    vstd::arithmetic::div_mod::lemma_fundamental_div_mod(dd, 256);
                }
                assert((-dd - 1) == 256 * (-(dd / 256) - 1) + (255 - e));
                assert((-dd - 1) % 256 == 255 - e) by {
                    vstd::arithmetic::div_mod::lemma_fundamental_div_mod_converse(
                        -dd - 1,
                        256,
                        -(dd / 256) - 1,
                        255 - e,
                    );
                }
            }
        }
    }
    let v: i128 = (cell as i128 + m) % 256;
    proof {
        lemma_add_mod_noop(cell as int, d as int, 256);
        lemma_small_mod(cell as nat, 256);
        assert(v == (cell + d) % 256);
    }
    v as u8
}

/// Executes one instruction against the machine, mirroring `step_instr` with
/// the same step budget.
fn exec_instr(f: u64, i: &Instr, st: &mut Interp) -> (r: StepRes)
    requires
        old(st).wf(),
        instr_budget(view_instr(*i), old(st)@),
    ensures
        final(st).wf(),
        final(st)@.tape.len() == old(st)@.tape.len(),
        step_matches(r, step_instr(f as nat, view_instr(*i), old(st)@), final(st)@),
        (r matches StepRes::Fin(res) && res is Ok) ==> match view_instr(*i) {
            SpecInstr::PtrAdjust(d) => final(st)@.ptr == old(st)@.ptr + d,
            SpecInstr::Loop(_) => 0 <= final(st)@.ptr < final(st)@.tape.len(),
            _ => final(st)@.ptr == old(st)@.ptr,
        },
    decreases f, weight_instr(view_instr(*i)), 0int, 0int,
{
    match i {
        Instr::PtrAdjust(d) => {
            st.ptr = st.ptr + *d;
            StepRes::Fin(Ok(()))
        },
        Instr::DataAdjust(d) => {
            if st.ptr < 0 || st.ptr >= st.tape.len() as i128 {
                return StepRes::Fin(Err(RuntimeError::MemoryOutOfBound(st.ptr)));
            }
            let idx = st.ptr as usize;
            let nv = apply_delta(st.tape[idx], *d);
            st.tape.set(idx, nv);
            assert(st@ =~= SpecState {
                tape: old(st)@.tape.update(old(st)@.ptr, wrap_byte(old(st)@.tape[old(st)@.ptr], *d as int)),
                ..old(st)@
            });
            StepRes::Fin(Ok(()))
        },
        Instr::Output => {
            if st.ptr < 0 || st.ptr >= st.tape.len() as i128 {
                return StepRes::Fin(Err(RuntimeError::MemoryOutOfBound(st.ptr)));
            }
            let idx = st.ptr as usize;
            let b = st.tape[idx];
            st.output.push(b);
            assert(st@ =~= SpecState { output: old(st)@.output.push(old(st)@.tape[old(st)@.ptr]), ..old(st)@ });
            StepRes::Fin(Ok(()))
        },
        Instr::Input => {
            if st.ptr < 0 || st.ptr >= st.tape.len() as i128 {
                return StepRes::Fin(Err(RuntimeError::MemoryOutOfBound(st.ptr)));
            }
            if st.inpos >= st.input.len() {
                assert(old(st)@.input.len() == 0);
                return StepRes::Fin(Err(RuntimeError::Eof));
            }
            let idx = st.ptr as usize;
            let b = st.input[st.inpos];
            st.tape.set(idx, b);
            st.inpos = st.inpos + 1;
            assert(old(st)@.input[0] == b);
            assert(st@.input =~= old(st)@.input.drop_first());
            assert(st@ =~= SpecState {
                tape: old(st)@.tape.update(old(st)@.ptr, old(st)@.input[0]),
                input: old(st)@.input.drop_first(),
                ..old(st)@
            });
            StepRes::Fin(Ok(()))
        },
        Instr::Loop(b) => {
            if st.ptr < 0 || st.ptr >= st.tape.len() as i128 {
                return StepRes::Fin(Err(RuntimeError::MemoryOutOfBound(st.ptr)));
            }
            let idx = st.ptr as usize;
            if st.tape[idx] == 0 {
                return StepRes::Fin(Ok(()));
            }
            if f == 0 {
                return StepRes::More;
            }
            proof {
                assert(view_instrs(b@).skip(0) =~= view_instrs(b@));
            }
            let r = exec_seq_from(f, b, 0, st);
            match r {
                StepRes::More => StepRes::More,
                StepRes::Fin(Err(e)) => StepRes::Fin(Err(e)),
                StepRes::Fin(Ok(_)) => exec_instr(f - 1, i, st),
            }
        },
    }
}

/// Executes the suffix of an instruction sequence starting at `idx`,
/// mirroring `step_seq`.
fn exec_seq_from(f: u64, s: &Vec<Instr>, idx: usize, st: &mut Interp) -> (r: StepRes)
    requires
        old(st).wf(),
        idx <= s@.len(),
        mag(old(st)@.ptr) + weight_seq(view_instrs(s@).skip(idx as int)) <= i128::MAX,
        old(st)@.tape.len() + weight_seq(view_instrs(s@).skip(idx as int)) <= i128::MAX,
    ensures
        final(st).wf(),
        final(st)@.tape.len() == old(st)@.tape.len(),
        step_matches(r, step_seq(f as nat, view_instrs(s@).skip(idx as int), old(st)@), final(st)@),
        (r matches StepRes::Fin(res) && res is Ok) ==> mag(final(st)@.ptr) <= mag(old(st)@.ptr)
            + weight_seq(view_instrs(s@).skip(idx as int)) || mag(final(st)@.ptr) <= final(st)@.tape.len()
            + weight_seq(view_instrs(s@).skip(idx as int)),
    decreases f, weight_seq(view_instrs(s@)), 1int, s@.len() - idx,
{
    proof {
        crate::ast::lemma_view_instrs_len(s@);
    }
    if idx == s.len() {
        assert(view_instrs(s@).skip(idx as int).len() == 0);
        return StepRes::Fin(Ok(()));
    }
    let ghost suffix = view_instrs(s@).skip(idx as int);
    proof {
        lemma_view_instrs_index(s@, idx as int);
        assert(suffix[0] == view_instr(s@[idx as int]));
        lemma_weight_seq_skip(view_instrs(s@), idx as int);
        assert(suffix.drop_first() =~= view_instrs(s@).skip(idx as int + 1));
        assert(weight_seq(suffix) == weight_instr(suffix[0]) + weight_seq(suffix.drop_first()))
            by {
            lemma_weight_seq_skip(view_instrs(s@), idx as int);
        }
        assert(weight_instr(view_instr(s@[idx as int])) <= weight_seq(view_instrs(s@))) by {
            lemma_weight_seq_index(view_instrs(s@), idx as int);
        }
    }
    let ghost pre = st@;
    let r0 = exec_instr(f, &s[idx], st);
    match r0 {
        StepRes::More => StepRes::More,
        StepRes::Fin(Err(e)) => StepRes::Fin(Err(e)),
        StepRes::Fin(Ok(_)) => {
            proof {
                assert(mag(st@.ptr) + weight_seq(suffix.drop_first()) <= i128::MAX) by {
                    match view_instr(s@[idx as int]) {
                        SpecInstr::PtrAdjust(d) => {
                            assert(mag(st@.ptr) <= mag(pre.ptr) + mag(d));
                        },
                        SpecInstr::Loop(_) => {
                            assert(mag(st@.ptr) <= st@.tape.len());
                        },
                        _ => {},
                    }
                }
            }
            exec_seq_from(f, s, idx + 1, st)
        },
    }
}

/// How far a run got: the program halted, with its output and its result, or
/// the step budget ran out first.
#[derive(Debug, PartialEq, Eq)]
pub enum RunOutcome {
    Halted(Vec<u8>, Result<(), RuntimeError>),
    StepLimit,
}

/// The tape size used when no override is given.
pub const DEFAULT_MEMORY_SIZE: usize = 30000;

/// Runs a program against a fresh zeroed tape of `memory_size` cells,
/// reading bytes from `input` and collecting the bytes it writes. The step
/// budget bounds how many loop iterations the machine may take; a program
/// that halts within the budget behaves exactly as `run_spec` says. The
/// weight bound keeps the pointer inside the machine integer that carries
/// it; `program_fits` checks it at run time.
pub fn run(program: &Program, input: &Vec<u8>, memory_size: usize, step_limit: u64) -> (r:
    RunOutcome)
    requires
        memory_size + weight_seq(program@) <= i128::MAX,
    ensures
        ({
            let so = run_spec(step_limit as nat, program@, input@, memory_size as nat);
            match r {
                RunOutcome::Halted(out, res) => so matches SpecOut::Fin { st, res: sres }
                    && out@ == st.output && res_matches(res, sres),
                RunOutcome::StepLimit => so is More,
            }
        }),
{
    let mut tape: Vec<u8> = Vec::new();
    while tape.len() < memory_size
        invariant
            tape@.len() <= memory_size,
            tape@ =~= Seq::new(tape@.len(), |i: int| 0u8),
        decreases memory_size - tape@.len(),
    {
        tape.push(0u8);
        assert(tape@ =~= Seq::new(tape@.len(), |i: int| 0u8));
    }
    let mut inbuf: Vec<u8> = Vec::new();
    let mut i: usize = 0;
    while i < input.len()
        invariant
            i <= input@.len(),
            inbuf@ =~= input@.subrange(0, i as int),
        decreases input@.len() - i,
    {
        inbuf.push(input[i]);
        i = i + 1;
        assert(inbuf@ =~= input@.subrange(0, i as int));
    }
    let mut st = Interp { tape, ptr: 0, input: inbuf, inpos: 0, output: Vec::new() };
    proof {
        assert(st@.input =~= input@);
        assert(st@ =~= init_state(memory_size as nat, input@));
        assert(view_instrs(program.instrs@).skip(0) =~= program@);
    }
    let r = exec_seq_from(step_limit, &program.instrs, 0, &mut st);
    match r {
        StepRes::More => RunOutcome::StepLimit,
        StepRes::Fin(res) => RunOutcome::Halted(st.output, res),
    }
}

/// One more than the largest pointer value the machine integer carries.
const SAT_BOUND: u128 = 0x8000_0000_0000_0000_0000_0000_0000_0000;

/// A weight, cut off once it can no longer fit the machine integer.
spec fn capw(x: nat) -> nat {
    if x <= SAT_BOUND {
        x
    } else {
        SAT_BOUND as nat
    }
}

fn sat_add(a: u128, b: u128) -> (r: u128)
    requires
        a <= SAT_BOUND,
        b <= SAT_BOUND,
    ensures
        r == capw((a + b) as nat),
{
    if a >= SAT_BOUND - b {
        SAT_BOUND
    } else {
        a + b
    }
}

fn sat_weight_instr(i: &Instr) -> (w: u128)
    ensures
        w == capw(weight_instr(view_instr(*i))),
    decreases weight_instr(view_instr(*i)), 0int, 0int,
{
    match i {
        Instr::PtrAdjust(d) => {
            let md: u128 = if *d < 0 {
                ((-(*d + 1)) as u128) + 1
            } else {
                *d as u128
            };
            assert(md == mag(*d as int));
            sat_add(1, md)
        },
        Instr::DataAdjust(_) => 1,
        Instr::Output => 1,
        Instr::Input => 1,
        Instr::Loop(b) => {
            proof {
                assert(view_instrs(b@).skip(0) =~= view_instrs(b@));
            }
            let wb = sat_weight_seq(b, 0);
            sat_add(1, wb)
        },
    }
}

fn sat_weight_seq(s: &Vec<Instr>, idx: usize) -> (w: u128)
    requires
        idx <= s@.len(),
    ensures
        w == capw(weight_seq(view_instrs(s@).skip(idx as int))),
    decreases weight_seq(view_instrs(s@)), 1int, s@.len() - idx,
{
    proof {
        crate::ast::lemma_view_instrs_len(s@);
    }
    if idx == s.len() {
        assert(view_instrs(s@).skip(idx as int).len() == 0);
        return 0;
    }
    proof {
        lemma_view_instrs_index(s@, idx as int);
        lemma_weight_seq_skip(view_instrs(s@), idx as int);
        lemma_weight_seq_index(view_instrs(s@), idx as int);
    }
    let w0 = sat_weight_instr(&s[idx]);
    let wr = sat_weight_seq(s, idx + 1);
    let r = sat_add(w0, wr);
    proof {
        let x = weight_instr(view_instrs(s@)[idx as int]);
        let y = weight_seq(view_instrs(s@).skip(idx as int + 1));
        assert(r == capw((capw(x) + capw(y)) as nat));
        assert(capw((capw(x) + capw(y)) as nat) == capw((x + y) as nat));
    }
    r
}

/// Whether `run` may be called on this program and tape size: the tape plus
/// the program's total pointer travel must fit the machine integer that
/// carries the pointer. Every program a parser built from a real source
/// satisfies this by an astronomical margin.
pub fn program_fits(program: &Program, memory_size: usize) -> (b: bool)
    ensures
        b == (memory_size + weight_seq(program@) <= i128::MAX),
{
    proof {
        assert(view_instrs(program.instrs@).skip(0) =~= program@);
    }
    let w = sat_weight_seq(&program.instrs, 0);
    if w >= SAT_BOUND {
        false
    } else {
        (memory_size as u128) <= (SAT_BOUND - 1) - w
    }
}

/// `run`, behind its own weight check: hands back nothing exactly when the
/// program and tape size together overrun the machine integer, and otherwise
/// what `run` returns.
pub fn run_checked(
    program: &Program,
    input: &Vec<u8>,
    memory_size: usize,
    step_limit: u64,
) -> (r: Option<RunOutcome>)
    ensures
        match r {
            Some(out) => memory_size + weight_seq(program@) <= i128::MAX && ({
                let so = run_spec(step_limit as nat, program@, input@, memory_size as nat);
                match out {
                    RunOutcome::Halted(outp, res) => so matches SpecOut::Fin { st, res: sres }
                        && outp@ == st.output && res_matches(res, sres),
                    RunOutcome::StepLimit => so is More,
                }
            }),
            None => memory_size + weight_seq(program@) > i128::MAX,
        },
{
    if program_fits(program, memory_size) {
        Some(run(program, input, memory_size, step_limit))
    } else {
        None
    }
}

proof fn lemma_step_instr_frame(f: nat, i: SpecInstr, st: SpecState)
    ensures
        match step_instr(f, i, st) {
            SpecOut::Fin { st: st2, res } => st2.tape.len() == st.tape.len() && match res {
                Err(SpecError::OutOfBounds(p)) => !(0 <= p < st.tape.len()),
                _ => true,
            },
            SpecOut::More => true,
        },
    decreases f, weight_instr(i), 0int,
{
    match i {
        SpecInstr::Loop(b) => {
            if in_bounds(st) && st.tape[st.ptr] != 0 && f > 0 {
                lemma_step_seq_frame(f, b, st);
                match step_seq(f, b, st) {
                    SpecOut::Fin { st: st2, res: Ok(_) } => {
                        lemma_step_instr_frame((f - 1) as nat, i, st2);
                    },
                    _ => {},
                }
            }
        },
        _ => {},
    }
}

proof fn lemma_step_seq_frame(f: nat, s: Seq<SpecInstr>, st: SpecState)
    ensures
        match step_seq(f, s, st) {
            SpecOut::Fin { st: st2, res } => st2.tape.len() == st.tape.len() && match res {
                Err(SpecError::OutOfBounds(p)) => !(0 <= p < st.tape.len()),
                _ => true,
            },
            SpecOut::More => true,
        },
    decreases f, weight_seq(s), 1int,
{
    if s.len() > 0 {
        crate::ast::lemma_weight_instr_pos(s[0]);
        assert(weight_seq(s) == weight_instr(s[0]) + weight_seq(s.drop_first()));
        lemma_step_instr_frame(f, s[0], st);
        match step_instr(f, s[0], st) {
            SpecOut::Fin { st: st2, res: Ok(_) } => {
                lemma_step_seq_frame(f, s.drop_first(), st2);
            },
            _ => {},
        }
    }
}

/// A run reports `MemoryOutOfBound` only with a pointer outside the tape's
/// range: a program whose pointer stays inside `[0, memory_size)` at every
/// dereference never raises that fault, whatever the memory size.
pub proof fn lemma_memory_fault_is_out_of_range(
    f: nat,
    prog: Seq<SpecInstr>,
    input: Seq<u8>,
    mem: nat,
)
    ensures
        match run_spec(f, prog, input, mem) {
            SpecOut::Fin { st, res } => st.tape.len() == mem && match res {
                Err(SpecError::OutOfBounds(p)) => p < 0 || p >= mem,
                _ => true,
            },
            SpecOut::More => true,
        },
{
    lemma_step_seq_frame(f, prog, init_state(mem, input));
}

/// A loop whose entry cell is zero at the first check runs its body zero
/// times: the machine is left exactly as it was, successfully, whatever the
/// step budget.
pub proof fn lemma_loop_zero_entry(f: nat, body: Seq<SpecInstr>, st: SpecState)
    requires
        0 <= st.ptr < st.tape.len(),
        st.tape[st.ptr] == 0,
    ensures
        step_instr(f, SpecInstr::Loop(body), st) == (SpecOut::Fin {
            st,
            res: Ok::<(), SpecError>(()),
        }),
{
}

/// Data arithmetic wraps modulo 256: one up from 255 gives 0, one down from
/// 0 gives 255.
pub proof fn lemma_wrap_around_examples()
    ensures
        wrap_byte(255, 1) == 0,
        wrap_byte(0, -1) == 255,
{
    assert((255 + 1) % 256 == 0int);
    assert((0 - 1) % 256 == 255int);
}

/// Round-trip: a program of one Input followed by one Output, fed at least
/// one input byte, halts successfully having written exactly that byte.
pub proof fn lemma_input_then_output_round_trip(f: nat, bs: Seq<u8>, mem: nat)
    requires
        mem >= 1,
        bs.len() >= 1,
    ensures
        ({
            let so = run_spec(f, seq![SpecInstr::Input, SpecInstr::Output], bs, mem);
            so matches SpecOut::Fin { st, res } && res is Ok && st.output == seq![bs[0]]
        }),
{
    let prog = seq![SpecInstr::Input, SpecInstr::Output];
    let st0 = init_state(mem, bs);
    assert(in_bounds(st0));
    let st1 = SpecState { tape: st0.tape.update(0, bs[0]), input: bs.drop_first(), ..st0 };
    assert(step_instr(f, prog[0], st0) == (SpecOut::Fin { st: st1, res: Ok::<(), SpecError>(()) }));
    assert(in_bounds(st1));
    assert(st1.tape[0] == bs[0]);
    let st2 = SpecState { output: st1.output.push(bs[0]), ..st1 };
    assert(step_instr(f, prog[1], st1) == (SpecOut::Fin { st: st2, res: Ok::<(), SpecError>(()) }));
    assert(prog.drop_first()[0] == prog[1]);
    assert(prog.drop_first().drop_first().len() == 0);
    assert(step_seq(f, prog.drop_first().drop_first(), st2) == (SpecOut::Fin {
        st: st2,
        res: Ok::<(), SpecError>(()),
    }));
    assert(step_seq(f, prog.drop_first(), st1) == (SpecOut::Fin {
        st: st2,
        res: Ok::<(), SpecError>(()),
    }));
    assert(step_seq(f, prog, st0) == (SpecOut::Fin { st: st2, res: Ok::<(), SpecError>(()) }));
    assert(st2.output =~= seq![bs[0]]);
}

} // verus!
