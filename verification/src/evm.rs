use vstd::prelude::*;

use crate::numeral::Numeral;
use crate::CompileError;

verus! {

/// A stack-manipulation instruction of the target machine.
#[derive(Clone, Debug, PartialEq, Eq)]
pub enum StackInstruction {
    Dup(usize),
    Swap(usize),
    Push(Numeral),
}

/// Control flow is not produced by this compiler; the variants exist so the
/// vocabulary is closed under the target machine's families.
#[derive(Clone, Copy, Debug, PartialEq, Eq, Structural)]
pub enum ControlInstruction {
    Jump(usize),
    Jumpi(usize),
    Jumpdest,
}

/// A data operator with a fixed arity.
#[derive(Clone, Copy, Debug, PartialEq, Eq, Structural)]
pub enum DataInstruction {
    Pop,
    Mstore,
    Mload,
    Add,
}

/// A final instruction of the target machine.
#[derive(Clone, Debug, PartialEq, Eq)]
pub enum Instruction {
    Stack(StackInstruction),
    Control(ControlInstruction),
    Data(DataInstruction),
}

/// An ordered instruction stream.
#[derive(Debug)]
pub struct InstructionSeq(pub Vec<Instruction>);

impl DataInstruction {
    /// How many stack entries the operator consumes.
    pub open spec fn nargs(self) -> int {
        match self {
            DataInstruction::Pop => 1,
            DataInstruction::Mstore => 2,
            DataInstruction::Mload => 1,
            DataInstruction::Add => 2,
        }
    }

    /// How many stack entries the operator produces.
    pub open spec fn nres(self) -> int {
        match self {
            DataInstruction::Pop => 0,
            DataInstruction::Mstore => 0,
            DataInstruction::Mload => 1,
            DataInstruction::Add => 1,
        }
    }

    /// The `(consumed, produced)` arity of the operator.
    pub fn arity(&self) -> (r: (usize, usize))
        ensures
            r.0 == self.nargs(),
            r.1 == self.nres(),
    {
        match self {
            DataInstruction::Pop => (1, 0),
            DataInstruction::Mstore => (2, 0),
            DataInstruction::Mload => (1, 1),
            DataInstruction::Add => (2, 1),
        }
    }
}

pub open spec fn pop_name() -> Seq<u8> {
    seq![112u8, 111, 112]
}

pub open spec fn mstore_name() -> Seq<u8> {
    seq![109u8, 115, 116, 111, 114, 101]
}

pub open spec fn mload_name() -> Seq<u8> {
    seq![109u8, 108, 111, 97, 100]
}

pub open spec fn add_name() -> Seq<u8> {
    seq![97u8, 100, 100]
}

/// Which operator, if any, the given name denotes.
pub open spec fn spec_from_name(s: Seq<u8>) -> Result<DataInstruction, CompileError> {
    if s == pop_name() {
        Ok(DataInstruction::Pop)
    } else if s == mstore_name() {
        Ok(DataInstruction::Mstore)
    } else if s == mload_name() {
        Ok(DataInstruction::Mload)
    } else if s == add_name() {
        Ok(DataInstruction::Add)
    } else {
        Err(CompileError::UnknownOperator)
    }
}

impl DataInstruction {
    /// Look an operator up by its surface name.
    pub fn from_name(name: &[u8]) -> (r: Result<DataInstruction, CompileError>)
        ensures
            r == spec_from_name(name@),
    {
        let n = name.len();
        if n == 3 && name[0] == 112 && name[1] == 111 && name[2] == 112 {
            proof {
                assert(name@ =~= pop_name());
            }
            Ok(DataInstruction::Pop)
        } else if n == 6 && name[0] == 109 && name[1] == 115 && name[2] == 116
            && name[3] == 111 && name[4] == 114 && name[5] == 101 {
            proof {
                assert(name@ =~= mstore_name());
            }
            Ok(DataInstruction::Mstore)
        } else if n == 5 && name[0] == 109 && name[1] == 108 && name[2] == 111
            && name[3] == 97 && name[4] == 100 {
            proof {
                assert(name@ =~= mload_name());
            }
            Ok(DataInstruction::Mload)
        } else if n == 3 && name[0] == 97 && name[1] == 100 && name[2] == 100 {
            proof {
                assert(name@ =~= add_name());
            }
            Ok(DataInstruction::Add)
        } else {
            Err(CompileError::UnknownOperator)
        }
    }
}

} // verus!

verus! {

/// Whether the instruction can execute at stack height `h`: its operands are
/// on the stack and any `Dup`/`Swap` stays inside the reachable window.
pub open spec fn instr_ok(i: Instruction, h: int) -> bool {
    match i {
        Instruction::Stack(StackInstruction::Dup(d)) => d <= 16 && d < h,
        Instruction::Stack(StackInstruction::Swap(d)) => 1 <= d <= 16 && d < h,
        Instruction::Stack(StackInstruction::Push(_)) => true,
        Instruction::Data(op) => op.nargs() <= h,
        Instruction::Control(_) => false,
    }
}

/// How the instruction changes the stack height.
pub open spec fn instr_delta(i: Instruction) -> int {
    match i {
        Instruction::Stack(StackInstruction::Dup(_)) => 1,
        Instruction::Stack(StackInstruction::Swap(_)) => 0,
        Instruction::Stack(StackInstruction::Push(_)) => 1,
        Instruction::Data(op) => op.nres() - op.nargs(),
        Instruction::Control(_) => 0,
    }
}

/// The stack height after running the stream from height `h0`.
pub open spec fn stream_height(s: Seq<Instruction>, h0: int) -> int
    decreases s.len(),
{
    if s.len() == 0 {
        h0
    } else {
        stream_height(s.skip(1), h0 + instr_delta(s[0]))
    }
}

/// Every instruction of the stream, run from height `h0`, finds its operands
/// on the stack and addresses only the reachable window.
pub open spec fn stream_wf_from(s: Seq<Instruction>, h0: int) -> bool
    decreases s.len(),
{
    s.len() == 0 || (instr_ok(s[0], h0) && stream_wf_from(s.skip(1), h0 + instr_delta(s[0])))
}

/// Well-formedness of a whole program: no stack underflow, matching operator
/// arities, and every `Dup` and `Swap` inside the reachable window, starting
/// from the empty stack.
pub open spec fn stream_wf(s: Seq<Instruction>) -> bool {
    stream_wf_from(s, 0)
}

pub proof fn lemma_stream_push(s: Seq<Instruction>, h0: int, i: Instruction)
    requires
        stream_wf_from(s, h0),
        instr_ok(i, stream_height(s, h0)),
    ensures
        stream_wf_from(s.push(i), h0),
        stream_height(s.push(i), h0) == stream_height(s, h0) + instr_delta(i),
    decreases s.len(),
{
    if s.len() == 0 {
        assert(s.push(i)[0] == i);
        assert(s.push(i).skip(1) =~= Seq::<Instruction>::empty());
        assert(stream_height(s, h0) == h0);
        assert(stream_wf_from(s.push(i).skip(1), h0 + instr_delta(i)));
        assert(stream_wf_from(s.push(i), h0));
        assert(stream_height(s.push(i), h0) == stream_height(
            s.push(i).skip(1),
            h0 + instr_delta(i),
        ));
    } else {
        lemma_stream_push(s.skip(1), h0 + instr_delta(s[0]), i);
        assert(s.push(i).skip(1) =~= s.skip(1).push(i));
        assert(s.push(i)[0] == s[0]);
        assert(stream_wf_from(s.push(i), h0));
        assert(stream_height(s.push(i), h0) == stream_height(
            s.skip(1).push(i),
            h0 + instr_delta(s[0]),
        ));
    }
}

pub proof fn lemma_stream_height_nonneg(s: Seq<Instruction>, h0: int)
    requires
        stream_wf_from(s, h0),
        h0 >= 0,
    ensures
        stream_height(s, h0) >= 0,
    decreases s.len(),
{
    if s.len() > 0 {
        assert(h0 + instr_delta(s[0]) >= 0);
        lemma_stream_height_nonneg(s.skip(1), h0 + instr_delta(s[0]));
    }
}

/// Reachability: in a well-formed stream every `DUP(d)` satisfies
/// `d <= 16` and every `SWAP(d)` satisfies `1 <= d <= 16`.
pub proof fn lemma_reachable_window(s: Seq<Instruction>, h0: int, i: int)
    requires
        stream_wf_from(s, h0),
        0 <= i < s.len(),
    ensures
        s[i] matches Instruction::Stack(StackInstruction::Dup(d)) ==> d <= 16,
        s[i] matches Instruction::Stack(StackInstruction::Swap(d)) ==> 1 <= d <= 16,
    decreases i,
{
    if i > 0 {
        lemma_reachable_window(s.skip(1), h0 + instr_delta(s[0]), i - 1);
        assert(s.skip(1)[i - 1] == s[i]);
    }
}

} // verus!

verus! {

/// Stack model fidelity, structurally: running a well-formed stream from
/// height `h0`, the stack height reached before each instruction covers that
/// instruction's operands, and its `Dup`/`Swap` depth lies in the reachable
/// window.
pub proof fn lemma_stream_safe(s: Seq<Instruction>, h0: int, i: int)
    requires
        stream_wf_from(s, h0),
        0 <= i < s.len(),
    ensures
        instr_ok(s[i], stream_height(s.take(i), h0)),
    decreases i,
{
    if i == 0 {
        assert(s.take(0) =~= Seq::<Instruction>::empty());
    } else {
        lemma_stream_safe(s.skip(1), h0 + instr_delta(s[0]), i - 1);
        assert(s.skip(1).take(i - 1) =~= s.take(i).skip(1));
        assert(s.skip(1)[i - 1] == s[i]);
        assert(s.take(i)[0] == s[0]);
        assert(stream_height(s.take(i), h0) == stream_height(
            s.take(i).skip(1),
            h0 + instr_delta(s[0]),
        ));
    }
}

} // verus!
