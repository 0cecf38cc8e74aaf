use vstd::prelude::*;

use crate::analysis::{count_occurrences, occurrences};
use crate::evm::{
    lemma_stream_height_nonneg, lemma_stream_push, spec_from_name, stream_height, stream_wf,
    stream_wf_from, ControlInstruction, DataInstruction, Instruction, InstructionSeq,
    StackInstruction,
};
use crate::machine::{Machine, PreInstruction, PreStackInstruction};
use crate::numeral::{u64_digits, Numeral};
use crate::program::{Expression, Statement};
use crate::scope::{ResolvedBlock, Var};
use crate::spill::{make_spills, plan_from, spill_plan, Spill};
use crate::CompileError;

verus! {

/// The literal naming the byte offset of a register's 32-byte memory slot.
fn register_ptr(register: usize) -> (r: Result<Numeral, CompileError>)
    ensures
        r is Ok <==> register <= usize::MAX / 32,
        r matches Ok(n) ==> n.wf() && n.val() == register * 32 && n.digits@ == u64_digits(
            (register * 32) as nat,
        ),
        r matches Err(e) ==> e == CompileError::Internal,
{
    if register > usize::MAX / 32 {
        return Err(CompileError::Internal);
    }
    Ok(Numeral::from_u64((register * 32) as u64))
}

/// The mathematical shape of a final instruction: a literal is its digits.
pub enum SpecInstr {
    Dup(usize),
    Swap(usize),
    Push(Seq<u8>),
    Data(DataInstruction),
    Control(ControlInstruction),
}

pub open spec fn instr_view(i: Instruction) -> SpecInstr {
    match i {
        Instruction::Stack(StackInstruction::Dup(d)) => SpecInstr::Dup(d),
        Instruction::Stack(StackInstruction::Swap(d)) => SpecInstr::Swap(d),
        Instruction::Stack(StackInstruction::Push(n)) => SpecInstr::Push(n.digits@),
        Instruction::Data(op) => SpecInstr::Data(op),
        Instruction::Control(c) => SpecInstr::Control(c),
    }
}

pub open spec fn instr_views(s: Seq<Instruction>) -> Seq<SpecInstr> {
    s.map(|_i: int, x: Instruction| instr_view(x))
}

/// The lowering pass's whole state: the emitted stream, the physical stack
/// (`Some(r)` marks a slot whose value lives in register `r`), how many
/// registers were minted, the free list, and the next spill record.
pub struct LowerState {
    pub out: Seq<SpecInstr>,
    pub pstack: Seq<Option<usize>>,
    pub registers: usize,
    pub free: Seq<usize>,
    pub next_spill: int,
}

pub open spec fn lower_init() -> LowerState {
    LowerState {
        out: Seq::<SpecInstr>::empty(),
        pstack: Seq::<Option<usize>>::empty(),
        registers: 0,
        free: Seq::<usize>::empty(),
        next_spill: 0,
    }
}

/// `PUSH(r * 32); MLOAD`: push register `r`'s contents.
pub open spec fn load_seq(r: usize) -> Seq<SpecInstr> {
    seq![
        SpecInstr::Push(u64_digits((r * 32) as nat)),
        SpecInstr::Data(DataInstruction::Mload),
    ]
}

/// `PUSH(r * 32); MSTORE`: pop the top into register `r`.
pub open spec fn store_seq(r: usize) -> Seq<SpecInstr> {
    seq![
        SpecInstr::Push(u64_digits((r * 32) as nat)),
        SpecInstr::Data(DataInstruction::Mstore),
    ]
}

/// Lowering one `Rotate`: in-window sources are two plain swaps; an
/// out-of-window source is exchanged with the top through its register.
pub open spec fn lower_rotate(st: LowerState, from_depth: usize, to_depth: usize) -> Option<
    LowerState,
> {
    if from_depth == to_depth {
        Some(st)
    } else if st.pstack.len() == 0 {
        None
    } else {
        let top_index = st.pstack.len() - 1;
        if from_depth > top_index || to_depth > top_index || to_depth >= 16 {
            None
        } else {
            let from_index = top_index - from_depth;
            let to_index = top_index - to_depth;
            let step1 = if from_depth < 16 {
                if from_depth > 0 {
                    Some(
                        (LowerState {
                            out: st.out.push(SpecInstr::Swap(from_depth)),
                            pstack: st.pstack.update(from_index, st.pstack[top_index]).update(
                                top_index,
                                st.pstack[from_index],
                            ),
                            registers: st.registers,
                            free: st.free,
                            next_spill: st.next_spill,
                        }),
                    )
                } else {
                    Some(st)
                }
            } else {
                match st.pstack[from_index] {
                    None => None,
                    Some(from_register) => {
                        if from_register > usize::MAX / 32 {
                            None
                        } else {
                            let o1 = st.out + load_seq(from_register) + seq![SpecInstr::Swap(1)];
                            let mid = match st.pstack[top_index] {
                                Some(top_register) => {
                                    if top_register > usize::MAX / 32 {
                                        None
                                    } else {
                                        Some(
                                            (
                                                o1 + load_seq(top_register) + seq![
                                                    SpecInstr::Swap(1),
                                                ] + store_seq(top_register),
                                                st.pstack.update(top_index, None::<usize>),
                                                st.free.push(top_register),
                                            ),
                                        )
                                    }
                                }
                                None => Some((o1, st.pstack, st.free)),
                            };
                            match mid {
                                None => None,
                                Some((o2, p2, f2)) => Some(
                                    (LowerState {
                                        out: o2 + store_seq(from_register),
                                        pstack: p2,
                                        registers: st.registers,
                                        free: f2,
                                        next_spill: st.next_spill,
                                    }),
                                ),
                            }
                        }
                    }
                }
            };
            match step1 {
                None => None,
                Some(st1) => {
                    if to_depth > 0 {
                        Some(
                            (LowerState {
                                out: st1.out.push(SpecInstr::Swap(to_depth)),
                                pstack: st1.pstack.update(top_index, st1.pstack[to_index]).update(
                                    to_index,
                                    st1.pstack[top_index],
                                ),
                                registers: st1.registers,
                                free: st1.free,
                                next_spill: st1.next_spill,
                            }),
                        )
                    } else {
                        Some(st1)
                    }
                }
            }
        }
    }
}

/// Lowering one `Dup`: a register-resident source is loaded, a stack-resident
/// one duplicated.
pub open spec fn lower_dup(st: LowerState, depth: usize) -> Option<LowerState> {
    if depth >= st.pstack.len() {
        None
    } else {
        let index = st.pstack.len() - 1 - depth;
        match st.pstack[index] {
            Some(register) => {
                if register > usize::MAX / 32 {
                    None
                } else {
                    Some(
                        (LowerState {
                            out: st.out + load_seq(register),
                            pstack: st.pstack.push(None::<usize>),
                            registers: st.registers,
                            free: st.free,
                            next_spill: st.next_spill,
                        }),
                    )
                }
            }
            None => {
                if depth >= 16 {
                    None
                } else {
                    Some(
                        (LowerState {
                            out: st.out.push(SpecInstr::Dup(depth)),
                            pstack: st.pstack.push(None::<usize>),
                            registers: st.registers,
                            free: st.free,
                            next_spill: st.next_spill,
                        }),
                    )
                }
            }
        }
    }
}

/// Lowering one data operator: its operands must be genuine stack values.
pub open spec fn lower_data(st: LowerState, op: DataInstruction) -> Option<LowerState> {
    let na = op.nargs();
    let base = st.pstack.len() - na;
    if na > st.pstack.len() {
        None
    } else if exists|i: int| base <= i < st.pstack.len() && (#[trigger] st.pstack[i]) is Some {
        None
    } else {
        Some(
            (LowerState {
                out: st.out.push(SpecInstr::Data(op)),
                pstack: st.pstack.take(base) + Seq::new(op.nres() as nat, |_i: int| None::<usize>),
                registers: st.registers,
                free: st.free,
                next_spill: st.next_spill,
            }),
        )
    }
}

pub open spec fn lower_step(st: LowerState, instr: PreInstruction, k: usize) -> Option<
    LowerState,
> {
    match instr {
        PreInstruction::Stack(PreStackInstruction::Rotate { from_depth, to_depth }) => lower_rotate(
            st,
            from_depth,
            to_depth,
        ),
        PreInstruction::Stack(PreStackInstruction::Dup(depth)) => lower_dup(st, depth),
        PreInstruction::Stack(PreStackInstruction::Push(c)) => Some(
            (LowerState {
                out: st.out.push(SpecInstr::Push(c.digits@)),
                pstack: st.pstack.push(None::<usize>),
                registers: st.registers,
                free: st.free,
                next_spill: st.next_spill,
            }),
        ),
        PreInstruction::Data(op) => lower_data(st, op),
    }
}

/// Skip spill records planned for earlier positions.
pub open spec fn skip_stale(spills: Seq<Spill>, j: int, k: usize) -> int
    decreases spills.len() - j,
{
    if 0 <= j < spills.len() && spills[j].location.code_index < k {
        skip_stale(spills, j + 1, k)
    } else {
        j
    }
}

/// Materialize every spill record planned for position `k`: an outward spill
/// allocates a register (reusing the free list, else minting) and saves the
/// slot; an inward one restores it and frees the register. Each emits
/// `PUSH(r*32); MLOAD; SWAP(depth+1); PUSH(r*32); MSTORE`.
pub open spec fn lower_spills(st: LowerState, spills: Seq<Spill>, k: usize) -> Option<LowerState>
    decreases spills.len() - st.next_spill,
{
    if !(0 <= st.next_spill < spills.len()) {
        Some(st)
    } else if spills[st.next_spill].location.code_index != k {
        Some(st)
    } else {
        let sp = spills[st.next_spill];
        let depth = sp.location.depth;
        if depth >= st.pstack.len() || depth >= 16 {
            None
        } else {
            let index = st.pstack.len() - 1 - depth;
            let alloc = if sp.outward {
                if st.pstack[index] is Some {
                    None
                } else if st.free.len() > 0 {
                    Some(
                        (
                            st.free.last(),
                            st.free.drop_last(),
                            st.registers,
                            st.pstack.update(index, Some(st.free.last())),
                        ),
                    )
                } else if st.registers == usize::MAX {
                    None
                } else {
                    Some(
                        (
                            st.registers,
                            st.free,
                            (st.registers + 1) as usize,
                            st.pstack.update(index, Some(st.registers)),
                        ),
                    )
                }
            } else {
                match st.pstack[index] {
                    Some(r) => Some(
                        (r, st.free.push(r), st.registers, st.pstack.update(index, None::<usize>)),
                    ),
                    None => None,
                }
            };
            match alloc {
                None => None,
                Some((r, free1, regs1, p1)) => {
                    if r > usize::MAX / 32 {
                        None
                    } else {
                        let st1 = LowerState {
                            out: st.out + load_seq(r) + seq![
                                SpecInstr::Swap((depth + 1) as usize),
                            ] + store_seq(r),
                            pstack: p1,
                            registers: regs1,
                            free: free1,
                            next_spill: st.next_spill + 1,
                        };
                        lower_spills(st1, spills, k)
                    }
                }
            }
        }
    }
}

/// The lowering pass as a function: replay the stream from position `k`,
/// materializing the planned spills after each pre-instruction.
pub open spec fn lower_from(
    code: Seq<PreInstruction>,
    spills: Seq<Spill>,
    k: int,
    st: LowerState,
) -> Option<LowerState>
    decreases code.len() - k,
{
    if k < 0 || k >= code.len() {
        Some(st)
    } else {
        match lower_step(st, code[k], k as usize) {
            None => None,
            Some(st1) => {
                let st2 = LowerState {
                    out: st1.out,
                    pstack: st1.pstack,
                    registers: st1.registers,
                    free: st1.free,
                    next_spill: skip_stale(spills, st1.next_spill, k as usize),
                };
                match lower_spills(st2, spills, k as usize) {
                    None => None,
                    Some(st3) => lower_from(code, spills, k + 1, st3),
                }
            }
        }
    }
}

/// Emit `PUSH(register * 32); MLOAD`: push the register's contents.
fn register_load(out: &mut Vec<Instruction>, register: usize) -> (r: Result<(), CompileError>)
    requires
        stream_wf_from(old(out)@, 0),
    ensures
        r is Ok <==> register <= usize::MAX / 32,
        r is Ok ==> stream_wf_from(final(out)@, 0) && stream_height(final(out)@, 0)
            == stream_height(old(out)@, 0) + 1 && instr_views(final(out)@) == instr_views(
            old(out)@,
        ) + load_seq(register),
        r matches Err(e) ==> e == CompileError::Internal && *final(out) == *old(out),
{
    let ptr = match register_ptr(register) {
        Ok(p) => p,
        Err(e) => {
            return Err(e);
        }
    };
    proof {
        lemma_stream_height_nonneg(out@, 0);
        lemma_stream_push(out@, 0, Instruction::Stack(StackInstruction::Push(ptr)));
    }
    out.push(Instruction::Stack(StackInstruction::Push(ptr)));
    proof {
        lemma_stream_push(out@, 0, Instruction::Data(DataInstruction::Mload));
    }
    out.push(Instruction::Data(DataInstruction::Mload));
    proof {
        assert(instr_views(out@) =~= instr_views(old(out)@) + load_seq(register));
    }
    Ok(())
}

/// Emit `PUSH(register * 32); MSTORE`: pop the top into the register.
fn register_store(out: &mut Vec<Instruction>, register: usize) -> (r: Result<(), CompileError>)
    requires
        stream_wf_from(old(out)@, 0),
        stream_height(old(out)@, 0) >= 1,
    ensures
        r is Ok <==> register <= usize::MAX / 32,
        r is Ok ==> stream_wf_from(final(out)@, 0) && stream_height(final(out)@, 0)
            == stream_height(old(out)@, 0) - 1 && instr_views(final(out)@) == instr_views(
            old(out)@,
        ) + store_seq(register),
        r matches Err(e) ==> e == CompileError::Internal && *final(out) == *old(out),
{
    let ptr = match register_ptr(register) {
        Ok(p) => p,
        Err(e) => {
            return Err(e);
        }
    };
    proof {
        lemma_stream_push(out@, 0, Instruction::Stack(StackInstruction::Push(ptr)));
    }
    out.push(Instruction::Stack(StackInstruction::Push(ptr)));
    proof {
        lemma_stream_push(out@, 0, Instruction::Data(DataInstruction::Mstore));
    }
    out.push(Instruction::Data(DataInstruction::Mstore));
    proof {
        assert(instr_views(out@) =~= instr_views(old(out)@) + store_seq(register));
    }
    Ok(())
}

/// Replay the pre-instruction stream, materializing the planned spills as
/// register stores and loads. The result is pinned: it is exactly the stream
/// `lower_from` computes, and it is well-formed — no underflow, matching
/// arities, every `Dup`/`Swap` in the reachable window.
pub fn lower(code: &Vec<PreInstruction>, spills: &Vec<Spill>) -> (r: Result<
    InstructionSeq,
    CompileError,
>)
    ensures
        r matches Ok(out) ==> ({
            &&& lower_from(code@, spills@, 0, lower_init()) matches Some(st) && st.out
                == instr_views(out.0@)
            &&& stream_wf(out.0@)
        }),
        r is Ok <==> lower_from(code@, spills@, 0, lower_init()) is Some,
        r matches Err(e) ==> e == CompileError::Internal,
{
    let mut out: Vec<Instruction> = Vec::new();
    let mut pstack: Vec<Option<usize>> = Vec::new();
    let mut register_count: usize = 0;
    let mut free_registers: Vec<usize> = Vec::new();
    let mut j: usize = 0;
    let mut k: usize = 0;
    proof {
        assert(instr_views(out@) =~= Seq::<SpecInstr>::empty());
        assert(pstack@ =~= Seq::<Option<usize>>::empty());
        assert(free_registers@ =~= Seq::<usize>::empty());
    }
    while k < code.len()
        invariant
            k <= code@.len(),
            j <= spills@.len(),
            stream_wf_from(out@, 0),
            stream_height(out@, 0) == pstack@.len(),
            lower_from(code@, spills@, 0, lower_init()) == lower_from(
                code@,
                spills@,
                k as int,
                (LowerState {
                    out: instr_views(out@),
                    pstack: pstack@,
                    registers: register_count,
                    free: free_registers@,
                    next_spill: j as int,
                }),
            ),
        decreases code@.len() - k,
    {
        let ghost st0 = LowerState {
            out: instr_views(out@),
            pstack: pstack@,
            registers: register_count,
            free: free_registers@,
            next_spill: j as int,
        };
        match &code[k] {
            PreInstruction::Stack(PreStackInstruction::Rotate { from_depth, to_depth }) => {
                let from_depth = *from_depth;
                let to_depth = *to_depth;
                if from_depth != to_depth {
                    if pstack.len() == 0 {
                        return Err(CompileError::Internal);
                    }
                    let top_index = pstack.len() - 1;
                    if from_depth > top_index || to_depth > top_index || to_depth >= 16 {
                        return Err(CompileError::Internal);
                    }
                    let from_index = top_index - from_depth;
                    let to_index = top_index - to_depth;
                    if from_depth < 16 {
                        if from_depth > 0 {
                            proof {
                                lemma_stream_push(
                                    out@,
                                    0,
                                    Instruction::Stack(StackInstruction::Swap(from_depth)),
                                );
                            }
                            out.push(Instruction::Stack(StackInstruction::Swap(from_depth)));
                            let a = pstack[from_index];
                            let b = pstack[top_index];
                            pstack.set(from_index, b);
                            pstack.set(top_index, a);
                            proof {
                                assert(instr_views(out@) =~= st0.out.push(
                                    SpecInstr::Swap(from_depth),
                                ));
                            }
                        }
                    } else {
                        let from_register = match pstack[from_index] {
                            Some(r) => r,
                            None => {
                                return Err(CompileError::Internal);
                            }
                        };
                        match register_load(&mut out, from_register) {
                            Ok(_) => {}
                            Err(e) => {
                                return Err(e);
                            }
                        }
                        proof {
                            lemma_stream_push(
                                out@,
                                0,
                                Instruction::Stack(StackInstruction::Swap(1)),
                            );
                        }
                        out.push(Instruction::Stack(StackInstruction::Swap(1)));
                        proof {
                            assert(instr_views(out@) =~= st0.out + load_seq(from_register)
                                + seq![SpecInstr::Swap(1)]);
                        }
                        let ghost o1 = instr_views(out@);
                        match pstack[top_index] {
                            Some(top_register) => {
                                pstack.set(top_index, None);
                                free_registers.push(top_register);
                                match register_load(&mut out, top_register) {
                                    Ok(_) => {}
                                    Err(e) => {
                                        return Err(e);
                                    }
                                }
                                proof {
                                    lemma_stream_push(
                                        out@,
                                        0,
                                        Instruction::Stack(StackInstruction::Swap(1)),
                                    );
                                }
                                out.push(Instruction::Stack(StackInstruction::Swap(1)));
                                proof {
                                    assert(instr_views(out@) =~= o1 + load_seq(top_register)
                                        + seq![SpecInstr::Swap(1)]);
                                }
                                match register_store(&mut out, top_register) {
                                    Ok(_) => {}
                                    Err(e) => {
                                        return Err(e);
                                    }
                                }
                            }
                            None => {}
                        }
                        match register_store(&mut out, from_register) {
                            Ok(_) => {}
                            Err(e) => {
                                return Err(e);
                            }
                        }
                    }
                    if to_depth > 0 {
                        proof {
                            lemma_stream_push(
                                out@,
                                0,
                                Instruction::Stack(StackInstruction::Swap(to_depth)),
                            );
                        }
                        let ghost o2 = instr_views(out@);
                        out.push(Instruction::Stack(StackInstruction::Swap(to_depth)));
                        let c = pstack[top_index];
                        let d = pstack[to_index];
                        pstack.set(top_index, d);
                        pstack.set(to_index, c);
                        proof {
                            assert(instr_views(out@) =~= o2.push(SpecInstr::Swap(to_depth)));
                        }
                    }
                }
                proof {
                    let stepped = lower_step(st0, code@[k as int], k);
                    assert(stepped matches Some(s1) && s1.out =~= instr_views(out@)
                        && s1.pstack =~= pstack@ && s1.free =~= free_registers@ && s1.registers
                        == register_count && s1.next_spill == j as int);
                }
            }
            PreInstruction::Stack(PreStackInstruction::Dup(depth)) => {
                let depth = *depth;
                if depth >= pstack.len() {
                    return Err(CompileError::Internal);
                }
                let index = pstack.len() - 1 - depth;
                match pstack[index] {
                    Some(register) => {
                        match register_load(&mut out, register) {
                            Ok(_) => {}
                            Err(e) => {
                                return Err(e);
                            }
                        }
                    }
                    None => {
                        if depth >= 16 {
                            return Err(CompileError::Internal);
                        }
                        proof {
                            lemma_stream_push(
                                out@,
                                0,
                                Instruction::Stack(StackInstruction::Dup(depth)),
                            );
                        }
                        out.push(Instruction::Stack(StackInstruction::Dup(depth)));
                        proof {
                            assert(instr_views(out@) =~= st0.out.push(SpecInstr::Dup(depth)));
                        }
                    }
                }
                pstack.push(None);
                proof {
                    let stepped = lower_step(st0, code@[k as int], k);
                    assert(stepped matches Some(s1) && s1.out =~= instr_views(out@)
                        && s1.pstack =~= pstack@ && s1.free =~= free_registers@ && s1.registers
                        == register_count && s1.next_spill == j as int);
                }
            }
            PreInstruction::Stack(PreStackInstruction::Push(c)) => {
                let lit = c.clone();
                proof {
                    lemma_stream_push(out@, 0, Instruction::Stack(StackInstruction::Push(lit)));
                }
                out.push(Instruction::Stack(StackInstruction::Push(lit)));
                pstack.push(None);
                proof {
                    assert(instr_views(out@) =~= st0.out.push(
                        SpecInstr::Push(code@[k as int]->Stack_0->Push_0.digits@),
                    ));
                    let stepped = lower_step(st0, code@[k as int], k);
                    assert(stepped matches Some(s1) && s1.out =~= instr_views(out@)
                        && s1.pstack =~= pstack@ && s1.free =~= free_registers@ && s1.registers
                        == register_count && s1.next_spill == j as int);
                }
            }
            PreInstruction::Data(op) => {
                let (na, nr) = op.arity();
                if na > pstack.len() {
                    return Err(CompileError::Internal);
                }
                let base = pstack.len() - na;
                let mut t: usize = base;
                while t < pstack.len()
                    invariant
                        base <= t <= pstack@.len(),
                        base == pstack@.len() - op.nargs(),
                        pstack@ == st0.pstack,
                        k < code@.len(),
                        code@[k as int] == PreInstruction::Data(*op),
                        lower_from(code@, spills@, 0, lower_init()) == lower_from(
                            code@,
                            spills@,
                            k as int,
                            st0,
                        ),
                        forall|i: int| base <= i < t ==> (#[trigger] pstack@[i]) is None,
                    decreases pstack@.len() - t,
                {
                    if pstack[t].is_some() {
                        proof {
                            assert(st0.pstack[t as int] is Some);
                            assert(lower_data(st0, *op) is None);
                            assert(lower_step(st0, code@[k as int], k) is None);
                        }
                        return Err(CompileError::Internal);
                    }
                    t += 1;
                }
                proof {
                    lemma_stream_push(out@, 0, Instruction::Data(*op));
                }
                out.push(Instruction::Data(*op));
                pstack.truncate(base);
                let mut p: usize = 0;
                while p < nr
                    invariant
                        p <= nr,
                        nr == op.nres(),
                        nr <= na,
                        na <= st0.pstack.len(),
                        base == st0.pstack.len() - na,
                        pstack@ == st0.pstack.take(base as int) + Seq::new(
                            p as nat,
                            |_i: int| None::<usize>,
                        ),
                        stream_wf_from(out@, 0),
                        stream_height(out@, 0) == base + nr,
                    decreases nr - p,
                {
                    pstack.push(None);
                    p += 1;
                    proof {
                        assert(pstack@ =~= st0.pstack.take(base as int) + Seq::new(
                            p as nat,
                            |_i: int| None::<usize>,
                        ));
                    }
                }
                proof {
                    let stepped = lower_step(st0, code@[k as int], k);
                    assert(pstack@ =~= st0.pstack.take(base as int) + Seq::new(
                        op.nres() as nat,
                        |_i: int| None::<usize>,
                    ));
                    assert(instr_views(out@) =~= st0.out.push(SpecInstr::Data(*op)));
                    assert(stepped matches Some(s1) && s1.out =~= instr_views(out@)
                        && s1.pstack =~= pstack@ && s1.free =~= free_registers@ && s1.registers
                        == register_count && s1.next_spill == j as int);
                }
            }
        }
        let ghost j1 = j as int;
        while j < spills.len() && spills[j].location.code_index < k
            invariant
                j1 <= j as int,
                j <= spills@.len(),
                skip_stale(spills@, j1, k) == skip_stale(spills@, j as int, k),
            decreases spills@.len() - j,
        {
            j += 1;
        }
        proof {
            assert(skip_stale(spills@, j as int, k) == j as int);
        }
        let ghost entry = LowerState {
            out: instr_views(out@),
            pstack: pstack@,
            registers: register_count,
            free: free_registers@,
            next_spill: j as int,
        };
        proof {
            assert(lower_from(code@, spills@, 0, lower_init()) == (
            match lower_spills(entry, spills@, k) {
                None => None::<LowerState>,
                Some(st3) => lower_from(code@, spills@, k + 1, st3),
            }));
        }
        while j < spills.len() && spills[j].location.code_index == k
            invariant
                k < code@.len(),
                j <= spills@.len(),
                stream_wf_from(out@, 0),
                stream_height(out@, 0) == pstack@.len(),
                lower_from(code@, spills@, 0, lower_init()) == (
                match lower_spills(
                    (LowerState {
                        out: instr_views(out@),
                        pstack: pstack@,
                        registers: register_count,
                        free: free_registers@,
                        next_spill: j as int,
                    }),
                    spills@,
                    k,
                ) {
                    None => None::<LowerState>,
                    Some(st3) => lower_from(code@, spills@, k + 1, st3),
                }),
            decreases spills@.len() - j,
        {
            let ghost cur = LowerState {
                out: instr_views(out@),
                pstack: pstack@,
                registers: register_count,
                free: free_registers@,
                next_spill: j as int,
            };
            let spill = spills[j];
            let depth = spill.location.depth;
            if depth >= pstack.len() || depth >= 16 {
                return Err(CompileError::Internal);
            }
            let index = pstack.len() - 1 - depth;
            let register: usize;
            if spill.outward {
                if pstack[index].is_some() {
                    return Err(CompileError::Internal);
                }
                register = match free_registers.pop() {
                    Some(r) => r,
                    None => {
                        if register_count == usize::MAX {
                            return Err(CompileError::Internal);
                        }
                        let r = register_count;
                        register_count += 1;
                        r
                    }
                };
                pstack.set(index, Some(register));
            } else {
                register = match pstack[index] {
                    Some(r) => r,
                    None => {
                        return Err(CompileError::Internal);
                    }
                };
                pstack.set(index, None);
                free_registers.push(register);
            }
            let ghost o0 = instr_views(out@);
            match register_load(&mut out, register) {
                Ok(_) => {}
                Err(e) => {
                    proof {
                        assert(lower_spills(cur, spills@, k) is None);
                    }
                    return Err(e);
                }
            }
            let d1 = depth + 1;
            proof {
                lemma_stream_push(out@, 0, Instruction::Stack(StackInstruction::Swap(d1)));
            }
            out.push(Instruction::Stack(StackInstruction::Swap(d1)));
            match register_store(&mut out, register) {
                Ok(_) => {}
                Err(e) => {
                    proof {
                        assert(false);
                    }
                    return Err(e);
                }
            }
            j += 1;
            proof {
                assert(instr_views(out@) =~= o0 + load_seq(register) + seq![
                    SpecInstr::Swap((depth + 1) as usize),
                ] + store_seq(register));
                assert(lower_spills(cur, spills@, k) == lower_spills(
                    (LowerState {
                        out: instr_views(out@),
                        pstack: pstack@,
                        registers: register_count,
                        free: free_registers@,
                        next_spill: j as int,
                    }),
                    spills@,
                    k,
                ));
            }
        }
        k += 1;
    }
    proof {
        assert(lower_from(code@, spills@, k as int, (LowerState {
            out: instr_views(out@),
            pstack: pstack@,
            registers: register_count,
            free: free_registers@,
            next_spill: j as int,
        })) == Some(
            (LowerState {
                out: instr_views(out@),
                pstack: pstack@,
                registers: register_count,
                free: free_registers@,
                next_spill: j as int,
            }),
        ));
    }
    Ok(InstructionSeq(out))
}

} // verus!

verus! {

/// The lowering pass is a function of the pre-instruction stream and the
/// spill list alone: two successful runs over the same inputs yield
/// identical instruction streams.
pub proof fn lemma_lower_deterministic(
    code: Seq<PreInstruction>,
    spills: Seq<Spill>,
    o1: Seq<SpecInstr>,
    o2: Seq<SpecInstr>,
)
    requires
        lower_from(code, spills, 0, lower_init()) matches Some(st1) && st1.out == o1,
        lower_from(code, spills, 0, lower_init()) matches Some(st2) && st2.out == o2,
    ensures
        o1 == o2,
{
}

/// Whether a pre-instruction pushes a literal.
pub open spec fn is_push(p: PreInstruction) -> bool {
    p matches PreInstruction::Stack(PreStackInstruction::Push(_))
}

/// The digits of the literals the pre-instruction stream pushes, in order.
pub open spec fn pre_push_digits(code: Seq<PreInstruction>) -> Seq<Seq<u8>>
    decreases code.len(),
{
    if code.len() == 0 {
        Seq::<Seq<u8>>::empty()
    } else {
        match code.last() {
            PreInstruction::Stack(PreStackInstruction::Push(n)) => pre_push_digits(
                code.drop_last(),
            ).push(n.digits@),
            _ => pre_push_digits(code.drop_last()),
        }
    }
}

/// The digits of the literals the block's `Const` statements define, in
/// order.
pub open spec fn block_const_digits(b: Seq<Statement<Var>>) -> Seq<Seq<u8>>
    decreases b.len(),
{
    if b.len() == 0 {
        Seq::<Seq<u8>>::empty()
    } else {
        match b.last().1 {
            Expression::Const(c) => block_const_digits(b.drop_last()).push(c.digits@),
            _ => block_const_digits(b.drop_last()),
        }
    }
}

proof fn lemma_pre_push_append(s: Seq<PreInstruction>, t: Seq<PreInstruction>)
    ensures
        pre_push_digits(s + t) == pre_push_digits(s) + pre_push_digits(t),
    decreases t.len(),
{
    if t.len() == 0 {
        assert(s + t =~= s);
        assert(pre_push_digits(s) + pre_push_digits(t) =~= pre_push_digits(s));
    } else {
        lemma_pre_push_append(s, t.drop_last());
        assert((s + t).drop_last() =~= s + t.drop_last());
        assert((s + t).last() == t.last());
        match t.last() {
            PreInstruction::Stack(PreStackInstruction::Push(n)) => {
                assert(pre_push_digits(s) + pre_push_digits(t) =~= (pre_push_digits(s)
                    + pre_push_digits(t.drop_last())).push(n.digits@));
            }
            _ => {}
        }
    }
}

proof fn lemma_pre_push_none(t: Seq<PreInstruction>)
    requires
        forall|i: int| 0 <= i < t.len() ==> !is_push(#[trigger] t[i]),
    ensures
        pre_push_digits(t) == Seq::<Seq<u8>>::empty(),
    decreases t.len(),
{
    if t.len() > 0 {
        lemma_pre_push_none(t.drop_last());
        assert(!is_push(t.last()));
    }
}

/// How many `true` entries a prefix of the duplication flags holds.
spec fn count_trues(s: Seq<bool>) -> int
    decreases s.len(),
{
    if s.len() == 0 {
        0
    } else {
        count_trues(s.drop_last()) + if s.last() {
            1int
        } else {
            0int
        }
    }
}

proof fn lemma_count_trues_bounds(s: Seq<bool>)
    ensures
        0 <= count_trues(s) <= s.len(),
    decreases s.len(),
{
    if s.len() > 0 {
        lemma_count_trues_bounds(s.drop_last());
    }
}

/// The statement names an operator that the arity table does not know.
pub open spec fn stmt_unknown_op(s: Statement<Var>) -> bool {
    s.1 matches Expression::Op(name, _) && spec_from_name(name@) is Err
}

/// The statement's argument or result count disagrees with its operator's
/// arity, or a literal is bound to other than one result.
pub open spec fn stmt_arity_bad(s: Statement<Var>) -> bool {
    match s.1 {
        Expression::Const(_) => s.0@.len() != 1,
        Expression::Op(name, args) => spec_from_name(name@) matches Ok(op) && (args@.len()
            != op.nargs() || s.0@.len() != op.nres()),
    }
}

/// Compile a resolved block to a final instruction stream: count remaining
/// uses, schedule every statement on the abstract stack machine, plan the
/// spills, and lower the pre-instruction stream.
///
/// A successful result is pinned up to the scheduler: it is exactly the
/// `lower_from` lowering of a pre-instruction stream that `spill_plan`
/// legalized, and that stream pushes precisely the block's literals in
/// order. The stream is well-formed: it underflows nowhere and addresses
/// only the reachable window. `Arity` and `UnknownOperator` are returned
/// only for inputs that deserve them; `Internal` signals a planner or
/// machine invariant violation, and never fires on an empty block.
#[verifier::rlimit(100)]
pub fn generate(rblock: &ResolvedBlock) -> (r: Result<InstructionSeq, CompileError>)
    requires
        rblock.wf(),
    ensures
        r matches Ok(out) ==> stream_wf(out.0@),
        r matches Ok(out) ==> exists|pre: Seq<PreInstruction>, sp: Seq<Spill>| {
            &&& spill_plan(pre) == Some(sp)
            &&& (#[trigger] lower_from(pre, sp, 0, lower_init())) matches Some(st) && st.out
                == instr_views(out.0@)
            &&& pre_push_digits(pre) == block_const_digits(rblock.block.0@)
        },
        r == Err::<InstructionSeq, CompileError>(CompileError::UnknownOperator) ==> exists|i: int|
            0 <= i < rblock.block.0@.len() && stmt_unknown_op(#[trigger] rblock.block.0@[i]),
        r == Err::<InstructionSeq, CompileError>(CompileError::Arity) ==> exists|i: int|
            0 <= i < rblock.block.0@.len() && stmt_arity_bad(#[trigger] rblock.block.0@[i]),
        r matches Err(e) ==> (e == CompileError::Arity || e == CompileError::UnknownOperator
            || e == CompileError::Internal),
        rblock.block.0@.len() == 0 ==> r is Ok,
{
    proof {
        if rblock.block.0@.len() == 0 {
            assert forall|v: int| 0 <= v < rblock.var_count implies #[trigger] occurrences(
                rblock.block.0@,
                v,
            ) <= usize::MAX by {
                assert(occurrences(rblock.block.0@, v) == 0);
            }
        }
    }
    let mut occurs = match count_occurrences(rblock) {
        Ok(c) => c,
        Err(e) => {
            return Err(e);
        }
    };
    let mut machine = Machine::new(rblock.var_count);
    let b = &rblock.block.0;
    let mut k: usize = 0;
    proof {
        assert(pre_push_digits(machine.code@) =~= Seq::<Seq<u8>>::empty());
        assert(block_const_digits(b@.take(0)) =~= Seq::<Seq<u8>>::empty());
    }
    while k < b.len()
        invariant
            rblock.wf(),
            b == &rblock.block.0,
            k <= b@.len(),
            machine.wf(),
            occurs@.len() == rblock.var_count,
            pre_push_digits(machine.code@) == block_const_digits(b@.take(k as int)),
            k == 0 ==> machine.code@ =~= Seq::<PreInstruction>::empty(),
        decreases b@.len() - k,
    {
        let ress = &b[k].0;
        proof {
            assert(b@.take(k + 1).drop_last() =~= b@.take(k as int));
            assert(b@.take(k + 1).last() == b@[k as int]);
        }
        match &b[k].1 {
            Expression::Const(c) => {
                if ress.len() != 1 {
                    proof {
                        assert(stmt_arity_bad(b@[k as int]));
                    }
                    return Err(CompileError::Arity);
                }
                let lit = c.clone();
                let ghost code0 = machine.code@;
                match machine.push(ress[0], lit) {
                    Ok(_) => {}
                    Err(e) => {
                        return Err(e);
                    }
                }
                proof {
                    let t = machine.code@.skip(code0.len() as int);
                    assert(machine.code@ =~= code0 + t);
                    lemma_pre_push_append(code0, t);
                    assert(pre_push_digits(Seq::<PreInstruction>::empty())
                        =~= Seq::<Seq<u8>>::empty());
                    assert(t.drop_last() =~= Seq::<PreInstruction>::empty());
                    assert(pre_push_digits(t) =~= seq![c.digits@]);
                    assert(pre_push_digits(machine.code@) =~= block_const_digits(b@.take(k + 1)));
                }
            }
            Expression::Op(name, args) => {
                let op = match DataInstruction::from_name(name.as_slice()) {
                    Ok(op) => op,
                    Err(e) => {
                        proof {
                            assert(stmt_unknown_op(b@[k as int]));
                        }
                        return Err(e);
                    }
                };
                let (nargs, nres) = op.arity();
                if args.len() != nargs || ress.len() != nres {
                    proof {
                        assert(stmt_arity_bad(b@[k as int]));
                    }
                    return Err(CompileError::Arity);
                }
                let mut dups: Vec<bool> = Vec::new();
                let mut ndups: usize = 0;
                let mut ai: usize = 0;
                while ai < nargs
                    invariant
                        rblock.wf(),
                        b == &rblock.block.0,
                        k < b@.len(),
                        machine.wf(),
                        occurs@.len() == rblock.var_count,
                        b@[k as int].1 matches Expression::Op(n, a) && a@ == args@,
                        args@.len() == nargs,
                        ai <= nargs,
                        pre_push_digits(machine.code@) == block_const_digits(b@.take(k as int)),
                        dups@.len() == ai,
                        ndups == count_trues(dups@),
                        forall|jj: int|
                            0 <= jj < args@.len() ==> 0 <= (#[trigger] args@[jj]).idx()
                                < rblock.var_count,
                    decreases nargs - ai,
                {
                    let xi = args[ai].index();
                    let c = occurs[xi];
                    if c == 0 {
                        return Err(CompileError::Internal);
                    }
                    occurs.set(xi, c - 1);
                    let dup = c - 1 > 0;
                    let ghost prev = dups@;
                    dups.push(dup);
                    proof {
                        assert(dups@.drop_last() =~= prev);
                        lemma_count_trues_bounds(prev);
                        assert(count_trues(dups@) == count_trues(prev) + if dup {
                            1int
                        } else {
                            0int
                        });
                        assert(ndups <= ai);
                    }
                    if dup {
                        ndups += 1;
                    }
                    ai += 1;
                }
                proof {
                    lemma_count_trues_bounds(dups@);
                    assert(dups@.take(nargs as int) =~= dups@);
                }
                let mut i: usize = nargs;
                while i > 0
                    invariant
                        rblock.wf(),
                        b == &rblock.block.0,
                        k < b@.len(),
                        machine.wf(),
                        occurs@.len() == rblock.var_count,
                        b@[k as int].1 matches Expression::Op(n, a) && a@ == args@,
                        args@.len() == nargs,
                        nargs == op.nargs(),
                        pre_push_digits(machine.code@) == block_const_digits(b@.take(k as int)),
                        dups@.len() == nargs,
                        i <= nargs,
                        ndups == count_trues(dups@.take(i as int)),
                        forall|jj: int|
                            0 <= jj < args@.len() ==> 0 <= (#[trigger] args@[jj]).idx()
                                < rblock.var_count,
                    decreases i,
                {
                    i -= 1;
                    let dup = dups[i];
                    proof {
                        assert(dups@.take(i + 1).drop_last() =~= dups@.take(i as int));
                        assert(dups@.take(i + 1).last() == dups@[i as int]);
                        lemma_count_trues_bounds(dups@.take(i as int));
                    }
                    if dup {
                        ndups -= 1;
                    }
                    let to_depth = i - ndups;
                    assert(to_depth <= 16) by {
                        assert(op.nargs() <= 2);
                    }
                    let ghost code0 = machine.code@;
                    if dup {
                        match machine.copy_to(args[i], to_depth) {
                            Ok(_) => {}
                            Err(e) => {
                                return Err(e);
                            }
                        }
                    } else {
                        match machine.rotate_to(args[i], to_depth) {
                            Ok(_) => {}
                            Err(e) => {
                                return Err(e);
                            }
                        }
                    }
                    proof {
                        let t = machine.code@.skip(code0.len() as int);
                        assert(machine.code@ =~= code0 + t);
                        assert forall|jj: int| 0 <= jj < t.len() implies !is_push(
                            #[trigger] t[jj],
                        ) by {
                            assert(t[jj] == machine.code@[code0.len() + jj]);
                        }
                        lemma_pre_push_none(t);
                        lemma_pre_push_append(code0, t);
                        assert(pre_push_digits(machine.code@) =~= pre_push_digits(code0));
                    }
                }
                let ghost code1 = machine.code@;
                match machine.apply(op, ress) {
                    Ok(_) => {}
                    Err(e) => {
                        return Err(e);
                    }
                }
                proof {
                    let t = machine.code@.skip(code1.len() as int);
                    assert(machine.code@ =~= code1 + t);
                    assert forall|jj: int| 0 <= jj < t.len() implies !is_push(
                        #[trigger] t[jj],
                    ) by {
                        assert(t[jj] == machine.code@[code1.len() + jj]);
                    }
                    lemma_pre_push_none(t);
                    lemma_pre_push_append(code1, t);
                    assert(pre_push_digits(machine.code@) =~= block_const_digits(b@.take(k + 1)));
                }
            }
        }
        let mut ri: usize = ress.len();
        while ri > 0
            invariant
                rblock.wf(),
                b == &rblock.block.0,
                k < b@.len(),
                machine.wf(),
                occurs@.len() == rblock.var_count,
                ress == &b@[k as int].0,
                pre_push_digits(machine.code@) == block_const_digits(b@.take(k + 1)),
                ri <= ress@.len(),
                forall|jj: int|
                    0 <= jj < ress@.len() ==> 0 <= (#[trigger] ress@[jj]).idx()
                        < rblock.var_count,
            decreases ri,
        {
            ri -= 1;
            let rv = ress[ri];
            if occurs[rv.index()] == 0 {
                let ghost code0 = machine.code@;
                match machine.rotate_to(rv, 0) {
                    Ok(_) => {}
                    Err(e) => {
                        return Err(e);
                    }
                }
                match machine.pop() {
                    Ok(_) => {}
                    Err(e) => {
                        return Err(e);
                    }
                }
                proof {
                    let t = machine.code@.skip(code0.len() as int);
                    assert(machine.code@ =~= code0 + t);
                    assert forall|jj: int| 0 <= jj < t.len() implies !is_push(
                        #[trigger] t[jj],
                    ) by {
                        assert(t[jj] == machine.code@[code0.len() + jj]);
                    }
                    lemma_pre_push_none(t);
                    lemma_pre_push_append(code0, t);
                    assert(pre_push_digits(machine.code@) =~= pre_push_digits(code0));
                }
            }
        }
        k += 1;
    }
    proof {
        assert(b@.take(b@.len() as int) =~= b@);
    }
    proof {
        if rblock.block.0@.len() == 0 {
            assert(machine.code@ =~= Seq::<PreInstruction>::empty());
            assert(plan_from(
                machine.code@,
                0,
                Seq::<crate::spill::SpillStatus>::empty(),
                Seq::<Spill>::empty(),
            ) is Some);
            assert(spill_plan(machine.code@) is Some);
        }
    }
    let spills = match make_spills(&machine.code) {
        Ok(s) => s,
        Err(e) => {
            proof {
                assert(rblock.block.0@.len() != 0);
            }
            return Err(e);
        }
    };
    proof {
        if rblock.block.0@.len() == 0 {
            assert(lower_from(machine.code@, spills@, 0, lower_init()) is Some);
        }
    }
    match lower(&machine.code, &spills) {
        Ok(out) => {
            proof {
                let pre = machine.code@;
                let sp = spills@;
                assert(spill_plan(pre) == Some(sp));
                assert(lower_from(pre, sp, 0, lower_init()) matches Some(st) && st.out
                    == instr_views(out.0@));
                assert(pre_push_digits(pre) == block_const_digits(rblock.block.0@));
            }
            Ok(out)
        }
        Err(e) => {
            proof {
                assert(rblock.block.0@.len() != 0);
            }
            Err(e)
        }
    }
}

} // verus!
