use vstd::prelude::*;

use crate::machine::{PreInstruction, PreStackInstruction};
use crate::CompileError;

verus! {

/// A code position: the pre-instruction index and a depth at that moment.
#[derive(Clone, Copy, Debug, PartialEq, Eq, Structural)]
pub struct SpillLocation {
    pub code_index: usize,
    pub depth: usize,
}

/// One planned memory transfer: at the completion of the located
/// pre-instruction, the entry at the located depth is saved to a register
/// (`outward`) or restored from one.
#[derive(Clone, Copy, Debug, PartialEq, Eq, Structural)]
pub struct Spill {
    pub location: SpillLocation,
    pub outward: bool,
}

/// The planner's per-slot state.
#[derive(Clone, Copy, Debug, PartialEq, Eq, Structural)]
pub enum SpillStatus {
    /// Just created by a `Dup`; must never be spilled.
    Unspillable,
    /// Last reached an in-window position here; may be saved from there.
    MaybeSpilled(SpillLocation),
    /// Saved to memory.
    Spilled,
    /// Saved, and reachable again here; may be restored from there.
    MaybeRestored(SpillLocation),
    /// Restored onto the stack; no pending memory slot.
    Restored,
}

/// The slot has become reachable at `loc`; `None` is a planner failure.
pub open spec fn spec_set_reachable_at(st: SpillStatus, loc: SpillLocation) -> Option<
    SpillStatus,
> {
    if loc.depth >= 16 {
        None
    } else {
        match st {
            SpillStatus::Unspillable => Some(SpillStatus::Unspillable),
            SpillStatus::MaybeSpilled(_) => Some(SpillStatus::MaybeSpilled(loc)),
            SpillStatus::Spilled => Some(SpillStatus::MaybeRestored(loc)),
            SpillStatus::MaybeRestored(l) => Some(SpillStatus::MaybeRestored(l)),
            SpillStatus::Restored => None,
        }
    }
}

/// Make the slot at `depth` usable: an out-of-window slot is saved from its
/// most recent in-window position, so a later pass can restore it.
pub open spec fn spec_ensure_reachable(
    stack: Seq<SpillStatus>,
    spills: Seq<Spill>,
    depth: int,
) -> Option<(Seq<SpillStatus>, Seq<Spill>)> {
    if depth < 16 {
        Some((stack, spills))
    } else if depth >= stack.len() {
        None
    } else {
        let index = stack.len() - 1 - depth;
        match stack[index] {
            SpillStatus::Unspillable => None,
            SpillStatus::MaybeSpilled(l) => Some(
                (
                    stack.update(index, SpillStatus::Spilled),
                    spills.push((Spill { location: l, outward: true })),
                ),
            ),
            SpillStatus::Spilled => Some((stack, spills)),
            SpillStatus::MaybeRestored(_) => Some(
                (stack.update(index, SpillStatus::Spilled), spills),
            ),
            SpillStatus::Restored => None,
        }
    }
}

/// Consume the statuses of an operator's arguments, bottom first: a value
/// brought back in window is restored; one still in memory is a failure.
pub open spec fn consume_statuses(sts: Seq<SpillStatus>, spills: Seq<Spill>) -> Option<Seq<Spill>>
    decreases sts.len(),
{
    if sts.len() == 0 {
        Some(spills)
    } else {
        match sts[0] {
            SpillStatus::MaybeRestored(l) => consume_statuses(
                sts.skip(1),
                spills.push((Spill { location: l, outward: false })),
            ),
            SpillStatus::Spilled => None,
            _ => consume_statuses(sts.skip(1), spills),
        }
    }
}

/// The statuses of `nr` freshly produced results at code position `ci`.
pub open spec fn produced_statuses(nr: int, ci: usize) -> Seq<SpillStatus> {
    Seq::new(
        nr as nat,
        |i: int| SpillStatus::MaybeSpilled(
            (SpillLocation { code_index: ci, depth: (nr - 1 - i) as usize }),
        ),
    )
}

/// One step of the planner over a single pre-instruction.
pub open spec fn plan_step(
    stack: Seq<SpillStatus>,
    spills: Seq<Spill>,
    instr: PreInstruction,
    ci: usize,
) -> Option<(Seq<SpillStatus>, Seq<Spill>)> {
    match instr {
        PreInstruction::Stack(PreStackInstruction::Rotate { from_depth, to_depth }) => {
            if to_depth >= 16 || stack.len() == 0 || from_depth >= stack.len() || to_depth
                >= stack.len() {
                None
            } else {
                let top_index = stack.len() - 1;
                let from_index = top_index - from_depth;
                let to_index = top_index - to_depth;
                match spec_ensure_reachable(stack, spills, from_depth as int) {
                    None => None,
                    Some((stack1, spills1)) => {
                        let next = if from_depth < 16 {
                            match spec_set_reachable_at(
                                stack1[from_index],
                                (SpillLocation { code_index: ci, depth: to_depth }),
                            ) {
                                None => None,
                                Some(st) => Some((stack1.update(from_index, st), spills1)),
                            }
                        } else {
                            if stack1[top_index] is Unspillable {
                                None
                            } else if !(stack1[from_index] is Spilled) {
                                None
                            } else {
                                Some(
                                    (
                                        stack1.update(top_index, SpillStatus::Spilled).update(
                                            from_index,
                                            SpillStatus::Restored,
                                        ),
                                        spills1,
                                    ),
                                )
                            }
                        };
                        match next {
                            None => None,
                            Some((stack2, spills2)) => {
                                let stack3 = stack2.update(from_index, stack2[top_index]).update(
                                    top_index,
                                    stack2[from_index],
                                );
                                let stack4 = stack3.update(top_index, stack3[to_index]).update(
                                    to_index,
                                    stack3[top_index],
                                );
                                Some((stack4, spills2))
                            }
                        }
                    }
                }
            }
        }
        PreInstruction::Stack(PreStackInstruction::Dup(depth)) => {
            match spec_ensure_reachable(stack, spills, depth as int) {
                None => None,
                Some((stack1, spills1)) => {
                    if depth + 1 < 16 {
                        if depth >= stack1.len() {
                            None
                        } else {
                            let index = stack1.len() - 1 - depth;
                            match spec_set_reachable_at(
                                stack1[index],
                                (SpillLocation { code_index: ci, depth: (depth + 1) as usize }),
                            ) {
                                None => None,
                                Some(st) => Some(
                                    (
                                        stack1.update(index, st).push(SpillStatus::Unspillable),
                                        spills1,
                                    ),
                                ),
                            }
                        }
                    } else {
                        Some((stack1.push(SpillStatus::Unspillable), spills1))
                    }
                }
            }
        }
        PreInstruction::Stack(PreStackInstruction::Push(_)) => Some(
            (
                stack.push(
                    SpillStatus::MaybeSpilled((SpillLocation { code_index: ci, depth: 0 })),
                ),
                spills,
            ),
        ),
        PreInstruction::Data(op) => {
            let na = op.nargs();
            if na > stack.len() {
                None
            } else {
                let base = stack.len() - na;
                match consume_statuses(stack.skip(base), spills) {
                    None => None,
                    Some(spills1) => Some(
                        (stack.take(base) + produced_statuses(op.nres(), ci), spills1),
                    ),
                }
            }
        }
    }
}

/// The planner's state after walking the stream from position `k` onward.
pub open spec fn plan_from(
    code: Seq<PreInstruction>,
    k: int,
    stack: Seq<SpillStatus>,
    spills: Seq<Spill>,
) -> Option<(Seq<SpillStatus>, Seq<Spill>)>
    decreases code.len() - k,
{
    if k < 0 || k >= code.len() {
        Some((stack, spills))
    } else {
        match plan_step(stack, spills, code[k], k as usize) {
            None => None,
            Some((stack1, spills1)) => plan_from(code, k + 1, stack1, spills1),
        }
    }
}

/// Insert a spill into a stream sorted by code position, after any equal
/// positions.
pub open spec fn insert_sorted(s: Seq<Spill>, x: Spill) -> Seq<Spill>
    decreases s.len(),
{
    if s.len() == 0 {
        seq![x]
    } else if x.location.code_index < s.last().location.code_index {
        insert_sorted(s.drop_last(), x).push(s.last())
    } else {
        s.push(x)
    }
}

/// Stable sort by code position.
pub open spec fn sort_spills(s: Seq<Spill>) -> Seq<Spill>
    decreases s.len(),
{
    if s.len() == 0 {
        s
    } else {
        insert_sorted(sort_spills(s.drop_last()), s.last())
    }
}

/// The planner's result on a pre-instruction stream: the spill records in
/// code-position order, or `None` when the stream violates the planner's
/// discipline.
pub open spec fn spill_plan(code: Seq<PreInstruction>) -> Option<Seq<Spill>> {
    match plan_from(code, 0, Seq::<SpillStatus>::empty(), Seq::<Spill>::empty()) {
        None => None,
        Some((_stack, spills)) => Some(sort_spills(spills)),
    }
}

fn set_reachable_at(st: SpillStatus, loc: SpillLocation) -> (r: Result<SpillStatus, CompileError>)
    ensures
        r matches Ok(st1) ==> spec_set_reachable_at(st, loc) == Some(st1),
        r is Ok <==> spec_set_reachable_at(st, loc) is Some,
        r matches Err(e) ==> e == CompileError::Internal,
{
    if loc.depth >= 16 {
        return Err(CompileError::Internal);
    }
    match st {
        SpillStatus::Unspillable => Ok(SpillStatus::Unspillable),
        SpillStatus::MaybeSpilled(_) => Ok(SpillStatus::MaybeSpilled(loc)),
        SpillStatus::Spilled => Ok(SpillStatus::MaybeRestored(loc)),
        SpillStatus::MaybeRestored(l) => Ok(SpillStatus::MaybeRestored(l)),
        SpillStatus::Restored => Err(CompileError::Internal),
    }
}

fn ensure_reachable(stack: &mut Vec<SpillStatus>, spills: &mut Vec<Spill>, depth: usize) -> (r:
    Result<(), CompileError>)
    ensures
        r is Ok ==> spec_ensure_reachable(old(stack)@, old(spills)@, depth as int) == Some(
            (final(stack)@, final(spills)@),
        ),
        r is Ok <==> spec_ensure_reachable(old(stack)@, old(spills)@, depth as int) is Some,
        r is Ok ==> final(stack)@.len() == old(stack)@.len(),
        r matches Err(e) ==> e == CompileError::Internal,
{
    if depth < 16 {
        return Ok(());
    }
    if depth >= stack.len() {
        return Err(CompileError::Internal);
    }
    let index = stack.len() - 1 - depth;
    match stack[index] {
        SpillStatus::Unspillable => Err(CompileError::Internal),
        SpillStatus::MaybeSpilled(l) => {
            stack.set(index, SpillStatus::Spilled);
            spills.push(Spill { location: l, outward: true });
            Ok(())
        }
        SpillStatus::Spilled => Ok(()),
        SpillStatus::MaybeRestored(_) => {
            stack.set(index, SpillStatus::Spilled);
            Ok(())
        }
        SpillStatus::Restored => Err(CompileError::Internal),
    }
}

proof fn lemma_insert_sorted_at(s: Seq<Spill>, x: Spill, pos: int)
    requires
        0 <= pos <= s.len(),
        forall|j: int| pos <= j < s.len() ==> x.location.code_index < (#[trigger] s[
            j
        ]).location.code_index,
        pos > 0 ==> !(x.location.code_index < s[pos - 1].location.code_index),
    ensures
        insert_sorted(s, x) == s.take(pos) + seq![x] + s.skip(pos),
    decreases s.len(),
{
    if s.len() == 0 {
        assert(insert_sorted(s, x) =~= s.take(pos) + seq![x] + s.skip(pos));
    } else if pos == s.len() {
        assert(s.take(pos) =~= s);
        assert(s.skip(pos) =~= Seq::<Spill>::empty());
        assert(insert_sorted(s, x) =~= s.take(pos) + seq![x] + s.skip(pos));
    } else {
        assert(x.location.code_index < s.last().location.code_index);
        lemma_insert_sorted_at(s.drop_last(), x, pos);
        assert(s.drop_last().take(pos) =~= s.take(pos));
        assert(insert_sorted(s.drop_last(), x).push(s.last()) =~= s.take(pos) + seq![x] + s.skip(
            pos,
        )) by {
            assert(s.drop_last().skip(pos).push(s.last()) =~= s.skip(pos));
        }
    }
}

/// Sort the spill records by code position, keeping the order of records at
/// the same position.
fn sort_spills_exec(spills: Vec<Spill>) -> (r: Vec<Spill>)
    ensures
        r@ == sort_spills(spills@),
{
    let mut out: Vec<Spill> = Vec::new();
    let mut i: usize = 0;
    while i < spills.len()
        invariant
            i <= spills@.len(),
            out@ == sort_spills(spills@.take(i as int)),
        decreases spills@.len() - i,
    {
        let x = spills[i];
        let mut pos: usize = out.len();
        while pos > 0 && x.location.code_index < out[pos - 1].location.code_index
            invariant
                pos <= out@.len(),
                forall|j: int| pos <= j < out@.len() ==> x.location.code_index < (#[trigger] out@[
                    j
                ]).location.code_index,
            decreases pos,
        {
            pos -= 1;
        }
        let ghost pre = out@;
        out.insert(pos, x);
        i += 1;
        proof {
            lemma_insert_sorted_at(pre, x, pos as int);
            assert(pre.take(pos as int) + seq![x] + pre.skip(pos as int) =~= pre.insert(
                pos as int,
                x,
            ));
            assert(spills@.take(i as int).drop_last() =~= spills@.take(i - 1));
            assert(spills@.take(i as int).last() == x);
        }
    }
    proof {
        assert(spills@.take(spills@.len() as int) =~= spills@);
    }
    out
}

/// Walk the pre-instruction stream and plan every memory save and restore
/// needed to keep each access within the reachable window.
pub fn make_spills(code: &Vec<PreInstruction>) -> (r: Result<Vec<Spill>, CompileError>)
    ensures
        r matches Ok(v) ==> spill_plan(code@) == Some(v@),
        r is Ok <==> spill_plan(code@) is Some,
        r matches Err(e) ==> e == CompileError::Internal,
{
    let mut stack: Vec<SpillStatus> = Vec::new();
    let mut spills: Vec<Spill> = Vec::new();
    let mut k: usize = 0;
    while k < code.len()
        invariant
            k <= code@.len(),
            plan_from(code@, 0, Seq::<SpillStatus>::empty(), Seq::<Spill>::empty())
                == plan_from(code@, k as int, stack@, spills@),
        decreases code@.len() - k,
    {
        let ghost stack0 = stack@;
        let ghost spills0 = spills@;
        match &code[k] {
            PreInstruction::Stack(PreStackInstruction::Rotate { from_depth, to_depth }) => {
                let from_depth = *from_depth;
                let to_depth = *to_depth;
                if to_depth >= 16 || stack.len() == 0 || from_depth >= stack.len() || to_depth
                    >= stack.len() {
                    return Err(CompileError::Internal);
                }
                let top_index = stack.len() - 1;
                let from_index = top_index - from_depth;
                let to_index = top_index - to_depth;
                match ensure_reachable(&mut stack, &mut spills, from_depth) {
                    Ok(_) => {}
                    Err(e) => {
                        return Err(e);
                    }
                }
                if from_depth < 16 {
                    match set_reachable_at(
                        stack[from_index],
                        SpillLocation { code_index: k, depth: to_depth },
                    ) {
                        Ok(st) => {
                            stack.set(from_index, st);
                        }
                        Err(e) => {
                            return Err(e);
                        }
                    }
                } else {
                    match stack[top_index] {
                        SpillStatus::Unspillable => {
                            return Err(CompileError::Internal);
                        }
                        _ => {}
                    }
                    match stack[from_index] {
                        SpillStatus::Spilled => {}
                        _ => {
                            return Err(CompileError::Internal);
                        }
                    }
                    stack.set(top_index, SpillStatus::Spilled);
                    stack.set(from_index, SpillStatus::Restored);
                }
                let a = stack[from_index];
                let b = stack[top_index];
                stack.set(from_index, b);
                stack.set(top_index, a);
                let c = stack[top_index];
                let d = stack[to_index];
                stack.set(top_index, d);
                stack.set(to_index, c);
                proof {
                    let step = plan_step(stack0, spills0, code@[k as int], k);
                    assert(step matches Some(p) && p.0 =~= stack@ && p.1 =~= spills@);
                }
            }
            PreInstruction::Stack(PreStackInstruction::Dup(depth)) => {
                let depth = *depth;
                match ensure_reachable(&mut stack, &mut spills, depth) {
                    Ok(_) => {}
                    Err(e) => {
                        return Err(e);
                    }
                }
                if depth < 15 {
                    if depth >= stack.len() {
                        return Err(CompileError::Internal);
                    }
                    let index = stack.len() - 1 - depth;
                    match set_reachable_at(
                        stack[index],
                        SpillLocation { code_index: k, depth: depth + 1 },
                    ) {
                        Ok(st) => {
                            stack.set(index, st);
                        }
                        Err(e) => {
                            return Err(e);
                        }
                    }
                }
                stack.push(SpillStatus::Unspillable);
                proof {
                    let step = plan_step(stack0, spills0, code@[k as int], k);
                    assert(step matches Some(p) && p.0 =~= stack@ && p.1 =~= spills@);
                }
            }
            PreInstruction::Stack(PreStackInstruction::Push(_)) => {
                stack.push(
                    SpillStatus::MaybeSpilled(SpillLocation { code_index: k, depth: 0 }),
                );
                proof {
                    let step = plan_step(stack0, spills0, code@[k as int], k);
                    assert(step matches Some(p) && p.0 =~= stack@ && p.1 =~= spills@);
                }
            }
            PreInstruction::Data(op) => {
                let (na, nr) = op.arity();
                if na > stack.len() {
                    return Err(CompileError::Internal);
                }
                let base = stack.len() - na;
                let ghost region = stack0.skip(base as int);
                proof {
                    assert(region.skip(0) =~= region);
                }
                let mut idx: usize = base;
                while idx < stack.len()
                    invariant
                        base <= idx <= stack@.len(),
                        stack@ == stack0,
                        base == stack0.len() - op.nargs(),
                        region == stack0.skip(base as int),
                        k < code@.len(),
                        code@[k as int] == PreInstruction::Data(*op),
                        plan_from(code@, 0, Seq::<SpillStatus>::empty(), Seq::<Spill>::empty())
                            == plan_from(code@, k as int, stack0, spills0),
                        consume_statuses(region, spills0) == consume_statuses(
                            region.skip(idx - base),
                            spills@,
                        ),
                    decreases stack@.len() - idx,
                {
                    let ghost rest = region.skip(idx - base);
                    proof {
                        assert(rest[0] == stack0[idx as int]);
                        assert(rest.skip(1) =~= region.skip(idx + 1 - base));
                    }
                    match stack[idx] {
                        SpillStatus::MaybeRestored(l) => {
                            spills.push(Spill { location: l, outward: false });
                        }
                        SpillStatus::Spilled => {
                            proof {
                                assert(rest.len() > 0);
                                assert(rest[0] is Spilled);
                                assert(consume_statuses(rest, spills@) is None);
                                assert(consume_statuses(region, spills0) is None);
                                assert(code@[k as int] == PreInstruction::Data(*op));
                                assert(op.nargs() <= stack0.len());
                                assert(stack0.skip(stack0.len() - op.nargs()) == region);
                                assert(plan_step(stack0, spills0, code@[k as int], k) is None);
                            }
                            return Err(CompileError::Internal);
                        }
                        _ => {}
                    }
                    idx += 1;
                }
                proof {
                    assert(region.skip(region.len() as int) =~= Seq::<SpillStatus>::empty());
                }
                stack.truncate(base);
                let mut p: usize = 0;
                while p < nr
                    invariant
                        p <= nr,
                        nr == op.nres(),
                        base + nr <= usize::MAX,
                        k <= usize::MAX,
                        stack@ == stack0.take(base as int) + produced_statuses(
                            nr as int,
                            k,
                        ).take(p as int),
                        base == stack0.len() - op.nargs(),
                    decreases nr - p,
                {
                    stack.push(
                        SpillStatus::MaybeSpilled(
                            SpillLocation { code_index: k, depth: nr - 1 - p },
                        ),
                    );
                    p += 1;
                    proof {
                        assert(stack@ =~= stack0.take(base as int) + produced_statuses(
                            nr as int,
                            k,
                        ).take(p as int));
                    }
                }
                proof {
                    assert(produced_statuses(nr as int, k).take(nr as int) =~= produced_statuses(
                        nr as int,
                        k,
                    ));
                    let step = plan_step(stack0, spills0, code@[k as int], k);
                    assert(step matches Some(pr) && pr.0 =~= stack@ && pr.1 =~= spills@);
                }
            }
        }
        k += 1;
    }
    Ok(sort_spills_exec(spills))
}

} // verus!

verus! {

/// Idempotence of spill planning: the planner is a function of the
/// pre-instruction stream alone, so two runs over the same stream yield
/// identical spill lists.
pub proof fn lemma_spill_plan_deterministic(
    code: Seq<PreInstruction>,
    r1: Seq<Spill>,
    r2: Seq<Spill>,
)
    requires
        spill_plan(code) == Some(r1),
        spill_plan(code) == Some(r2),
    ensures
        r1 == r2,
{
}

} // verus!
