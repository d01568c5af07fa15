use vstd::prelude::*;

verus! {

/// One node of the instruction tree. A loop owns its body outright; the tree
/// is strictly nested, with no sharing. A delta is a count of source tokens,
/// so a wide machine integer holds it for any source that fits in memory.
#[derive(Debug, PartialEq, Eq)]
pub enum Instr {
    /// Net pointer movement; never zero in a parsed program.
    PtrAdjust(i128),
    /// Net wrap-around adjustment of the current cell; never zero in a
    /// parsed program.
    DataAdjust(i128),
    /// Emit the current cell's byte.
    Output,
    /// Read one byte into the current cell.
    Input,
    /// Repeat the body while the current cell is non-zero.
    Loop(Vec<Instr>),
}

/// The mathematical shape of an instruction: deltas as unbounded integers,
/// loop bodies as sequences. Contracts speak of this form.
pub enum SpecInstr {
    PtrAdjust(int),
    DataAdjust(int),
    Output,
    Input,
    Loop(Seq<SpecInstr>),
}

/// The mathematical reading of one instruction.
pub open spec fn view_instr(i: Instr) -> SpecInstr
    decreases i,
{
    match i {
        Instr::PtrAdjust(d) => SpecInstr::PtrAdjust(d as int),
        Instr::DataAdjust(d) => SpecInstr::DataAdjust(d as int),
        Instr::Output => SpecInstr::Output,
        Instr::Input => SpecInstr::Input,
        Instr::Loop(b) => SpecInstr::Loop(view_instrs(b@)),
    }
}

/// The mathematical reading of an instruction sequence.
pub open spec fn view_instrs(s: Seq<Instr>) -> Seq<SpecInstr>
    decreases s,
{
    if s.len() == 0 {
        Seq::empty()
    } else {
        view_instrs(s.drop_last()).push(view_instr(s.last()))
    }
}

pub proof fn lemma_view_instrs_len(s: Seq<Instr>)
    ensures
        view_instrs(s).len() == s.len(),
    decreases s,
{
    if s.len() > 0 {
        lemma_view_instrs_len(s.drop_last());
    }
}

pub proof fn lemma_view_instrs_index(s: Seq<Instr>, i: int)
    requires
        0 <= i < s.len(),
    ensures
        view_instrs(s).len() == s.len(),
        view_instrs(s)[i] == view_instr(s[i]),
    decreases s,
{
    lemma_view_instrs_len(s);
    if s.len() > 0 {
        if i < s.len() - 1 {
            lemma_view_instrs_index(s.drop_last(), i);
        } else {
            lemma_view_instrs_len(s.drop_last());
        }
    }
}

pub proof fn lemma_view_instrs_push(s: Seq<Instr>, x: Instr)
    ensures
        view_instrs(s.push(x)) == view_instrs(s).push(view_instr(x)),
{
    assert(s.push(x).drop_last() =~= s);
    assert(s.push(x).last() == x);
}

/// A complete parsed program: the top-level instruction sequence, owning the
/// whole tree.
#[derive(Debug, PartialEq, Eq)]
pub struct Program {
    pub instrs: Vec<Instr>,
}

impl View for Program {
    type V = Seq<SpecInstr>;

    open spec fn view(&self) -> Seq<SpecInstr> {
        view_instrs(self.instrs@)
    }
}

/// No adjust instruction, anywhere in the tree, carries a zero delta: runs
/// with a zero net delta are elided at parse time, never emitted.
pub open spec fn deltas_nonzero_instr(i: SpecInstr) -> bool
    decreases i,
{
    match i {
        SpecInstr::PtrAdjust(d) => d != 0,
        SpecInstr::DataAdjust(d) => d != 0,
        SpecInstr::Output => true,
        SpecInstr::Input => true,
        SpecInstr::Loop(b) => deltas_nonzero_seq(b),
    }
}

pub open spec fn deltas_nonzero_seq(s: Seq<SpecInstr>) -> bool
    decreases s,
{
    forall|j: int| 0 <= j < s.len() ==> deltas_nonzero_instr(#[trigger] s[j])
}

/// Magnitude of an integer.
pub open spec fn mag(d: int) -> nat {
    if d < 0 {
        (-d) as nat
    } else {
        d as nat
    }
}

/// Size measure of an instruction: one per node, plus the magnitude of each
/// pointer delta. It bounds how far the pointer can drift between two
/// dereferences, and it decreases into every subterm.
pub open spec fn weight_instr(i: SpecInstr) -> nat
    decreases i,
{
    match i {
        SpecInstr::PtrAdjust(d) => 1 + mag(d),
        SpecInstr::DataAdjust(_) => 1,
        SpecInstr::Output => 1,
        SpecInstr::Input => 1,
        SpecInstr::Loop(b) => 1 + weight_seq(b),
    }
}

pub open spec fn weight_seq(s: Seq<SpecInstr>) -> nat
    decreases s,
{
    if s.len() == 0 {
        0
    } else {
        weight_instr(s[0]) + weight_seq(s.drop_first())
    }
}

pub proof fn lemma_weight_instr_pos(i: SpecInstr)
    ensures
        weight_instr(i) >= 1,
{
    match i {
        SpecInstr::PtrAdjust(_) => {},
        SpecInstr::DataAdjust(_) => {},
        SpecInstr::Output => {},
        SpecInstr::Input => {},
        SpecInstr::Loop(_) => {},
    }
}

pub proof fn lemma_weight_seq_index(s: Seq<SpecInstr>, i: int)
    requires
        0 <= i < s.len(),
    ensures
        weight_instr(s[i]) <= weight_seq(s),
    decreases s,
{
    if i > 0 {
        lemma_weight_seq_index(s.drop_first(), i - 1);
    }
}

pub proof fn lemma_weight_seq_push(s: Seq<SpecInstr>, x: SpecInstr)
    ensures
        weight_seq(s.push(x)) == weight_seq(s) + weight_instr(x),
    decreases s,
{
    assert(s.push(x).len() == s.len() + 1);
    if s.len() == 0 {
        assert(s.push(x)[0] == x);
        assert(s.push(x).drop_first() =~= Seq::<SpecInstr>::empty());
        assert(weight_seq(s.push(x)) == weight_instr(x) + weight_seq(
            Seq::<SpecInstr>::empty(),
        ));
        assert(weight_seq(Seq::<SpecInstr>::empty()) == 0);
        assert(weight_seq(s) == 0);
    } else {
        assert(s.push(x)[0] == s[0]);
        assert(s.push(x).drop_first() =~= s.drop_first().push(x));
        lemma_weight_seq_push(s.drop_first(), x);
        assert(weight_seq(s.push(x)) == weight_instr(s[0]) + weight_seq(
            s.drop_first().push(x),
        ));
        assert(weight_seq(s) == weight_instr(s[0]) + weight_seq(s.drop_first()));
    }
}

/// Splitting off the head of a suffix splits its weight.
pub proof fn lemma_weight_seq_skip(s: Seq<SpecInstr>, i: int)
    requires
        0 <= i < s.len(),
    ensures
        weight_seq(s.skip(i)) == weight_instr(s[i]) + weight_seq(s.skip(i + 1)),
{
    assert(s.skip(i).len() > 0);
    assert(s.skip(i)[0] == s[i]);
    assert(s.skip(i).drop_first() =~= s.skip(i + 1));
}

} // verus!
