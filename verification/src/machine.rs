use vstd::prelude::*;

use crate::evm::DataInstruction;
use crate::numeral::Numeral;
use crate::scope::Var;
use crate::CompileError;

verus! {

/// A pre-instruction manipulating the abstract stack.
#[derive(Clone, Debug)]
pub enum PreStackInstruction {
    /// Move the value at `from_depth` to `to_depth` (two swaps). A
    /// `{0, 0}` rotate is a no-op anchor marking a code position.
    Rotate { from_depth: usize, to_depth: usize },
    /// Duplicate the value at the given depth onto the top.
    Dup(usize),
    /// Push a literal.
    Push(Numeral),
}

/// One record of the pre-instruction stream.
#[derive(Clone, Debug)]
pub enum PreInstruction {
    Stack(PreStackInstruction),
    Data(DataInstruction),
}

/// The canonical copy of a variable, or a transient duplicate of it.
#[derive(Clone, Copy, Debug, PartialEq, Eq, Structural)]
pub enum VarInstance {
    Main(Var),
    Copied(Var),
}

/// Where a live variable sits on the abstract stack. Index 0 is the bottom;
/// `depth = len - 1 - index` is the distance from the top.
#[derive(Clone, Copy, Debug)]
pub struct VarMeta {
    pub main_index: usize,
    pub copy_index: Option<usize>,
}

/// The abstract stack machine: the pre-instruction stream emitted so far, the
/// stack of variable instances, and the per-variable location table.
#[derive(Debug)]
pub struct Machine {
    pub code: Vec<PreInstruction>,
    pub stack: Vec<VarInstance>,
    pub meta: Vec<Option<VarMeta>>,
}

impl Machine {
    /// Every location record points at a matching stack entry.
    pub open spec fn meta_ok(self) -> bool {
        forall|vi: int| 0 <= vi < self.meta@.len() ==> match #[trigger] self.meta@[vi] {
            Some(m) => {
                &&& m.main_index < self.stack@.len()
                &&& self.stack@[m.main_index as int] == VarInstance::Main((Var { id: vi as u32 }))
                &&& match m.copy_index {
                    Some(ci) => {
                        &&& ci < self.stack@.len()
                        &&& self.stack@[ci as int] == VarInstance::Copied((Var { id: vi as u32 }))
                    }
                    None => true,
                }
            }
            None => true,
        }
    }

    /// Every stack entry is pointed at by the matching location record.
    pub open spec fn stack_ok(self) -> bool {
        forall|i: int| 0 <= i < self.stack@.len() ==> match #[trigger] self.stack@[i] {
            VarInstance::Main(v) => {
                &&& 0 <= v.idx() < self.meta@.len()
                &&& self.meta@[v.idx()] matches Some(m) && m.main_index == i
            }
            VarInstance::Copied(v) => {
                &&& 0 <= v.idx() < self.meta@.len()
                &&& self.meta@[v.idx()] matches Some(m) && m.copy_index == Some(i as usize)
            }
        }
    }

    /// The two cross-references agree, and variable identities fit the table.
    pub open spec fn wf(self) -> bool {
        &&& self.meta_ok()
        &&& self.stack_ok()
        &&& self.meta@.len() <= 0x1_0000_0000
    }

    /// Whether the variable currently lives on the stack.
    pub open spec fn live(self, v: Var) -> bool {
        0 <= v.idx() < self.meta@.len() && self.meta@[v.idx()] is Some
    }

    pub open spec fn meta_of(self, v: Var) -> VarMeta
        recommends
            self.live(v),
    {
        self.meta@[v.idx()].unwrap()
    }

    /// The stack index an access to `v` resolves to: the transient copy when
    /// one exists, else the canonical copy.
    pub open spec fn lookup_index(self, v: Var) -> int
        recommends
            self.live(v),
    {
        match self.meta_of(v).copy_index {
            Some(ci) => ci as int,
            None => self.meta_of(v).main_index as int,
        }
    }

    /// The depth an access to `v` resolves to.
    pub open spec fn lookup_depth(self, v: Var) -> int
        recommends
            self.live(v),
    {
        self.stack@.len() - 1 - self.lookup_index(v)
    }

    /// A fresh machine over the given number of variables, none live.
    pub fn new(var_count: usize) -> (r: Machine)
        requires
            var_count <= 0x1_0000_0000,
        ensures
            r.wf(),
            r.code@ =~= Seq::<PreInstruction>::empty(),
            r.stack@ =~= Seq::<VarInstance>::empty(),
            r.meta@.len() == var_count,
            forall|vi: int| 0 <= vi < var_count ==> #[trigger] r.meta@[vi] is None,
    {
        let mut meta: Vec<Option<VarMeta>> = Vec::new();
        let mut i: usize = 0;
        while i < var_count
            invariant
                i <= var_count,
                meta@.len() == i,
                forall|vi: int| 0 <= vi < i ==> #[trigger] meta@[vi] is None,
            decreases var_count - i,
        {
            meta.push(None);
            i += 1;
        }
        Machine { code: Vec::new(), stack: Vec::new(), meta }
    }

    /// The depth at which an access to the variable currently resolves.
    pub fn find(&self, v: Var) -> (r: Result<usize, CompileError>)
        requires
            self.wf(),
        ensures
            r matches Ok(d) ==> self.live(v) && d == self.lookup_depth(v),
            r is Ok <==> self.live(v),
            r matches Err(e) ==> e == CompileError::Internal,
    {
        let vi = v.index();
        if vi >= self.meta.len() {
            return Err(CompileError::Internal);
        }
        match &self.meta[vi] {
            Some(m) => {
                let index = match m.copy_index {
                    Some(ci) => ci,
                    None => m.main_index,
                };
                Ok(self.stack.len() - 1 - index)
            }
            None => Err(CompileError::Internal),
        }
    }

    /// Record that an instance has moved to the given stack index, or — with
    /// `None` — that it has left the stack. Pairs every stack mutation with
    /// the matching location update.
    fn set_location(&mut self, instance: VarInstance, index: Option<usize>) -> (r: Result<
        (),
        CompileError,
    >)
        ensures
            r is Ok <==> ({
                let v = instance.var();
                &&& old(self).live(v)
                &&& (instance is Main && index is None
                    ==> old(self).meta_of(v).copy_index is None)
            }),
            r matches Err(e) ==> e == CompileError::Internal && *final(self) == *old(self),
            r is Ok ==> ({
                let v = instance.var();
                let m = old(self).meta_of(v);
                &&& final(self).stack@ == old(self).stack@
                &&& final(self).code@ == old(self).code@
                &&& final(self).meta@ == old(self).meta@.update(
                    v.idx(),
                    match instance {
                        VarInstance::Main(_) => match index {
                            Some(i) => Some(VarMeta { main_index: i, copy_index: m.copy_index }),
                            None => None,
                        },
                        VarInstance::Copied(_) => Some(
                            VarMeta { main_index: m.main_index, copy_index: index },
                        ),
                    },
                )
            }),
    {
        let v = match instance {
            VarInstance::Main(v) => v,
            VarInstance::Copied(v) => v,
        };
        let vi = v.index();
        if vi >= self.meta.len() {
            return Err(CompileError::Internal);
        }
        let m = match &self.meta[vi] {
            Some(m) => *m,
            None => {
                return Err(CompileError::Internal);
            }
        };
        match instance {
            VarInstance::Main(_) => match index {
                Some(i) => {
                    self.meta.set(vi, Some(VarMeta { main_index: i, copy_index: m.copy_index }));
                }
                None => {
                    if m.copy_index.is_some() {
                        return Err(CompileError::Internal);
                    }
                    self.meta.set(vi, None);
                }
            },
            VarInstance::Copied(_) => {
                self.meta.set(vi, Some(VarMeta { main_index: m.main_index, copy_index: index }));
            }
        }
        Ok(())
    }
}

impl VarInstance {
    /// The variable this instance belongs to.
    pub open spec fn var(self) -> Var {
        match self {
            VarInstance::Main(v) => v,
            VarInstance::Copied(v) => v,
        }
    }
}

/// The stack after exchanging the entries at depths `a` and `b`.
pub open spec fn swap_depths(s: Seq<VarInstance>, a: int, b: int) -> Seq<VarInstance>
    recommends
        0 <= a < s.len(),
        0 <= b < s.len(),
{
    let ia = s.len() - 1 - a;
    let ib = s.len() - 1 - b;
    s.update(ia, s[ib]).update(ib, s[ia])
}

impl Machine {
    /// Exchange the entries at the two depths, keeping the location table in
    /// step.
    #[verifier::rlimit(50)]
    fn stack_swap(&mut self, from_depth: usize, to_depth: usize)
        requires
            old(self).wf(),
            from_depth < old(self).stack@.len(),
            to_depth < old(self).stack@.len(),
        ensures
            final(self).wf(),
            final(self).stack@ == swap_depths(
                old(self).stack@,
                from_depth as int,
                to_depth as int,
            ),
            final(self).code@ == old(self).code@,
            final(self).meta@.len() == old(self).meta@.len(),
    {
        let top_index = self.stack.len() - 1;
        let from_index = top_index - from_depth;
        let to_index = top_index - to_depth;
        let from_instance = self.stack[from_index];
        let to_instance = self.stack[to_index];
        self.stack.set(from_index, to_instance);
        self.stack.set(to_index, from_instance);
        match self.set_location(from_instance, Some(to_index)) {
            Ok(_) => {}
            Err(_) => {
                proof {
                    assert(false);
                }
            }
        }
        match self.set_location(to_instance, Some(from_index)) {
            Ok(_) => {}
            Err(_) => {
                proof {
                    assert(false);
                }
            }
        }
        proof {
            let s0 = old(self).stack@;
            let s1 = self.stack@;
            let fi = from_index as int;
            let ti = to_index as int;
            assert(s1 =~= swap_depths(s0, from_depth as int, to_depth as int));
            assert forall|i: int| 0 <= i < s1.len() implies match #[trigger] s1[i] {
                VarInstance::Main(v) => {
                    &&& 0 <= v.idx() < self.meta@.len()
                    &&& self.meta@[v.idx()] matches Some(m) && m.main_index == i
                }
                VarInstance::Copied(v) => {
                    &&& 0 <= v.idx() < self.meta@.len()
                    &&& self.meta@[v.idx()] matches Some(m) && m.copy_index == Some(i as usize)
                }
            } by {
                if i != fi && i != ti {
                    assert(s1[i] == s0[i]);
                }
            }
            assert forall|vi: int| 0 <= vi < self.meta@.len() implies match #[trigger] self
                .meta@[vi] {
                Some(m) => {
                    &&& m.main_index < s1.len()
                    &&& s1[m.main_index as int] == VarInstance::Main((Var { id: vi as u32 }))
                    &&& match m.copy_index {
                        Some(ci) => {
                            &&& ci < s1.len()
                            &&& s1[ci as int] == VarInstance::Copied((Var { id: vi as u32 }))
                        }
                        None => true,
                    }
                }
                None => true,
            } by {
                let v = Var { id: vi as u32 };
                assert(0 <= v.idx() < old(self).meta@.len());
            }
        }
    }

    /// Append the canonical copy of a fresh variable, emitting `Push`.
    pub fn push(&mut self, name: Var, value: Numeral) -> (r: Result<(), CompileError>)
        requires
            old(self).wf(),
        ensures
            final(self).wf(),
            r is Ok <==> (name.idx() < old(self).meta@.len() && old(self).meta@[name.idx()]
                is None),
            r is Ok ==> {
                &&& final(self).stack@ == old(self).stack@ + seq![VarInstance::Main(name)]
                &&& final(self).code@ == old(self).code@ + seq![
                    PreInstruction::Stack(PreStackInstruction::Push(value)),
                ]
                &&& final(self).meta@.len() == old(self).meta@.len()
            },
            r matches Err(e) ==> e == CompileError::Internal && *final(self) == *old(self),
    {
        let vi = name.index();
        if vi >= self.meta.len() {
            return Err(CompileError::Internal);
        }
        if self.meta[vi].is_some() {
            return Err(CompileError::Internal);
        }
        let index = self.stack.len();
        self.stack.push(VarInstance::Main(name));
        self.meta.set(vi, Some(VarMeta { main_index: index, copy_index: None }));
        self.code.push(PreInstruction::Stack(PreStackInstruction::Push(value)));
        proof {
            assert(self.stack@ =~= old(self).stack@ + seq![VarInstance::Main(name)]);
            assert(self.code@ =~= old(self).code@ + seq![
                PreInstruction::Stack(PreStackInstruction::Push(value)),
            ]);
            assert forall|i: int| 0 <= i < self.stack@.len() implies match #[trigger] self
                .stack@[i] {
                VarInstance::Main(v) => {
                    &&& 0 <= v.idx() < self.meta@.len()
                    &&& self.meta@[v.idx()] matches Some(m) && m.main_index == i
                }
                VarInstance::Copied(v) => {
                    &&& 0 <= v.idx() < self.meta@.len()
                    &&& self.meta@[v.idx()] matches Some(m) && m.copy_index == Some(i as usize)
                }
            } by {
                if i < old(self).stack@.len() {
                    assert(self.stack@[i] == old(self).stack@[i]);
                }
            }
        }
        Ok(())
    }

    /// Remove the top entry, emitting the `Rotate {0, 0}` anchor and `Pop`.
    /// The entry must be a transient copy, or a canonical copy with no
    /// transient duplicate elsewhere.
    pub fn pop(&mut self) -> (r: Result<(), CompileError>)
        requires
            old(self).wf(),
        ensures
            final(self).wf(),
            r is Ok <==> ({
                &&& old(self).stack@.len() > 0
                &&& (old(self).stack@.last() matches VarInstance::Main(v) ==> old(self).meta_of(
                    v,
                ).copy_index is None)
            }),
            r is Ok ==> {
                &&& final(self).stack@ == old(self).stack@.drop_last()
                &&& final(self).code@ == old(self).code@ + seq![
                    PreInstruction::Stack(
                        (PreStackInstruction::Rotate { from_depth: 0, to_depth: 0 }),
                    ),
                    PreInstruction::Data(DataInstruction::Pop),
                ]
                &&& final(self).meta@.len() == old(self).meta@.len()
            },
            r matches Err(e) ==> e == CompileError::Internal && *final(self) == *old(self),
    {
        if self.stack.len() == 0 {
            return Err(CompileError::Internal);
        }
        let inst = self.stack[self.stack.len() - 1];
        if let VarInstance::Main(v) = inst {
            let vi = v.index();
            if vi >= self.meta.len() {
                proof {
                    assert(false);
                }
                return Err(CompileError::Internal);
            }
            match &self.meta[vi] {
                Some(m) => {
                    if m.copy_index.is_some() {
                        return Err(CompileError::Internal);
                    }
                }
                None => {
                    proof {
                        assert(false);
                    }
                    return Err(CompileError::Internal);
                }
            }
        }
        self.stack.pop();
        match self.set_location(inst, None) {
            Ok(_) => {}
            Err(_) => {
                proof {
                    assert(false);
                }
            }
        }
        self.code.push(
            PreInstruction::Stack(PreStackInstruction::Rotate { from_depth: 0, to_depth: 0 }),
        );
        self.code.push(PreInstruction::Data(DataInstruction::Pop));
        proof {
            assert(self.stack@ =~= old(self).stack@.drop_last());
            assert(self.code@ =~= old(self).code@ + seq![
                PreInstruction::Stack(
                    (PreStackInstruction::Rotate { from_depth: 0, to_depth: 0 }),
                ),
                PreInstruction::Data(DataInstruction::Pop),
            ]);
            assert forall|vi: int| 0 <= vi < self.meta@.len() implies match #[trigger] self
                .meta@[vi] {
                Some(m) => {
                    &&& m.main_index < self.stack@.len()
                    &&& self.stack@[m.main_index as int] == VarInstance::Main(
                        (Var { id: vi as u32 }),
                    )
                    &&& match m.copy_index {
                        Some(ci) => {
                            &&& ci < self.stack@.len()
                            &&& self.stack@[ci as int] == VarInstance::Copied(
                                (Var { id: vi as u32 }),
                            )
                        }
                        None => true,
                    }
                }
                None => true,
            } by {
                if self.meta@[vi] is Some {
                    let v = Var { id: vi as u32 };
                    let m = self.meta@[vi].unwrap();
                    assert(old(self).stack@[m.main_index as int] == VarInstance::Main(v));
                    assert(m.main_index != old(self).stack@.len() - 1);
                }
            }
        }
        Ok(())
    }
}

} // verus!

verus! {

impl Machine {
    /// Bring the value of a variable to `to_depth` by two exchanges, emitting
    /// a single `Rotate`. The source may be arbitrarily deep; the spill
    /// planner legalizes an out-of-window source later.
    pub fn rotate_to(&mut self, from_name: Var, to_depth: usize) -> (r: Result<(), CompileError>)
        requires
            old(self).wf(),
            to_depth <= 16,
        ensures
            final(self).wf(),
            r is Ok <==> (old(self).live(from_name) && to_depth < old(self).stack@.len()),
            r is Ok ==> ({
                let d = old(self).lookup_depth(from_name);
                &&& final(self).stack@ == swap_depths(
                    swap_depths(old(self).stack@, d, 0),
                    0,
                    to_depth as int,
                )
                &&& final(self).code@ == old(self).code@ + seq![
                    PreInstruction::Stack(
                        (PreStackInstruction::Rotate { from_depth: d as usize, to_depth }),
                    ),
                ]
                &&& final(self).meta@.len() == old(self).meta@.len()
            }),
            r matches Err(e) ==> e == CompileError::Internal && *final(self) == *old(self),
    {
        let d = match self.find(from_name) {
            Ok(d) => d,
            Err(e) => {
                return Err(e);
            }
        };
        if to_depth >= self.stack.len() {
            return Err(CompileError::Internal);
        }
        self.stack_swap(d, 0);
        self.stack_swap(0, to_depth);
        self.code.push(
            PreInstruction::Stack(PreStackInstruction::Rotate { from_depth: d, to_depth }),
        );
        proof {
            assert(self.code@ =~= old(self).code@ + seq![
                PreInstruction::Stack(
                    (PreStackInstruction::Rotate {
                        from_depth: old(self).lookup_depth(from_name) as usize,
                        to_depth,
                    }),
                ),
            ]);
        }
        Ok(())
    }

    /// Push a transient duplicate of a variable and move it to `to_depth`,
    /// emitting `Dup` and, when needed, a `Rotate` from the top.
    #[verifier::rlimit(100)]
    #[verifier::spinoff_prover]
    pub fn copy_to(&mut self, from_name: Var, to_depth: usize) -> (r: Result<(), CompileError>)
        requires
            old(self).wf(),
            to_depth <= 16,
        ensures
            final(self).wf(),
            r is Ok <==> ({
                &&& old(self).live(from_name)
                &&& old(self).meta_of(from_name).copy_index is None
                &&& to_depth <= old(self).stack@.len()
            }),
            r is Ok ==> ({
                let d = old(self).lookup_depth(from_name);
                let pushed = old(self).stack@ + seq![VarInstance::Copied(from_name)];
                &&& final(self).stack@ == (if to_depth == 0 {
                    pushed
                } else {
                    swap_depths(pushed, 0, to_depth as int)
                })
                &&& final(self).code@ == old(self).code@ + (if to_depth == 0 {
                    seq![
                        PreInstruction::Stack(PreStackInstruction::Dup(d as usize)),
                    ]
                } else {
                    seq![
                        PreInstruction::Stack(PreStackInstruction::Dup(d as usize)),
                        PreInstruction::Stack(
                            (PreStackInstruction::Rotate { from_depth: 0, to_depth }),
                        ),
                    ]
                })
                &&& final(self).meta@.len() == old(self).meta@.len()
            }),
            r matches Err(e) ==> e == CompileError::Internal && *final(self) == *old(self),
    {
        let d = match self.find(from_name) {
            Ok(d) => d,
            Err(e) => {
                return Err(e);
            }
        };
        let vi = from_name.index();
        let m = match &self.meta[vi] {
            Some(m) => *m,
            None => {
                proof {
                    assert(false);
                }
                return Err(CompileError::Internal);
            }
        };
        if m.copy_index.is_some() {
            return Err(CompileError::Internal);
        }
        if to_depth > self.stack.len() {
            return Err(CompileError::Internal);
        }
        let index = self.stack.len();
        self.stack.push(VarInstance::Copied(from_name));
        match self.set_location(VarInstance::Copied(from_name), Some(index)) {
            Ok(_) => {}
            Err(_) => {
                proof {
                    assert(false);
                }
            }
        }
        self.code.push(PreInstruction::Stack(PreStackInstruction::Dup(d)));
        proof {
            let pushed = old(self).stack@ + seq![VarInstance::Copied(from_name)];
            assert(self.stack@ =~= pushed);
            assert forall|i: int| 0 <= i < self.stack@.len() implies match #[trigger] self
                .stack@[i] {
                VarInstance::Main(v) => {
                    &&& 0 <= v.idx() < self.meta@.len()
                    &&& self.meta@[v.idx()] matches Some(mm) && mm.main_index == i
                }
                VarInstance::Copied(v) => {
                    &&& 0 <= v.idx() < self.meta@.len()
                    &&& self.meta@[v.idx()] matches Some(mm) && mm.copy_index == Some(i as usize)
                }
            } by {
                if i < old(self).stack@.len() {
                    assert(self.stack@[i] == old(self).stack@[i]);
                }
            }
            assert(self.wf());
        }
        if to_depth != 0 {
            self.stack_swap(0, to_depth);
            self.code.push(
                PreInstruction::Stack(PreStackInstruction::Rotate { from_depth: 0, to_depth }),
            );
            proof {
                assert(self.code@ =~= old(self).code@ + seq![
                    PreInstruction::Stack(
                        PreStackInstruction::Dup(old(self).lookup_depth(from_name) as usize),
                    ),
                    PreInstruction::Stack(
                        (PreStackInstruction::Rotate { from_depth: 0, to_depth }),
                    ),
                ]);
            }
        } else {
            proof {
                assert(self.code@ =~= old(self).code@ + seq![
                    PreInstruction::Stack(
                        PreStackInstruction::Dup(old(self).lookup_depth(from_name) as usize),
                    ),
                ]);
            }
        }
        Ok(())
    }

    /// Whether the operator's consumption and the results' registration can
    /// both succeed: the consumed region's canonical entries have their
    /// transient copies above them inside that region, and every result is
    /// fresh (or consumed here) and distinct.
    pub open spec fn can_apply(self, op: DataInstruction, ress: Seq<Var>) -> bool {
        let len = self.stack@.len() as int;
        let base = len - op.nargs();
        &&& op.nargs() <= len
        &&& forall|k: int|
            base <= k < len ==> (#[trigger] self.stack@[k] matches VarInstance::Main(v) ==> (
            self.meta_of(v).copy_index matches Some(ci) ==> k < ci))
        &&& forall|j: int| 0 <= j < ress.len() ==> {
            let rv = #[trigger] ress[j];
            &&& 0 <= rv.idx() < self.meta@.len()
            &&& (self.meta@[rv.idx()] matches Some(m) ==> base <= m.main_index)
        }
        &&& forall|j1: int, j2: int| 0 <= j1 < j2 < ress.len() ==> ress[j1] != ress[j2]
    }

    /// Consume the operator's arguments from the top of the stack, produce
    /// its results, and emit the data pre-instruction.
    pub fn apply(&mut self, op: DataInstruction, ress: &Vec<Var>) -> (r: Result<(), CompileError>)
        requires
            old(self).wf(),
            ress@.len() == op.nres(),
        ensures
            final(self).wf(),
            r is Ok <==> old(self).can_apply(op, ress@),
            r is Ok ==> ({
                let base = old(self).stack@.len() - op.nargs();
                &&& final(self).stack@ == old(self).stack@.take(base as int) + ress@.map(
                    |_j: int, v: Var| VarInstance::Main(v),
                )
                &&& final(self).code@ == old(self).code@ + seq![PreInstruction::Data(op)]
                &&& final(self).meta@.len() == old(self).meta@.len()
            }),
            r matches Err(e) ==> e == CompileError::Internal && *final(self) == *old(self),
    {
        let (nargs, _) = op.arity();
        let len = self.stack.len();
        if nargs > len {
            return Err(CompileError::Internal);
        }
        let base = len - nargs;
        let mut k = len;
        while k > base
            invariant
                self.wf(),
                *self == *old(self),
                base <= k <= len,
                len == self.stack@.len(),
                base == len - op.nargs(),
                forall|kk: int|
                    k <= kk < len ==> (#[trigger] self.stack@[kk] matches VarInstance::Main(v)
                        ==> (self.meta_of(v).copy_index matches Some(ci) ==> kk < ci)),
            decreases k,
        {
            k -= 1;
            match self.stack[k] {
                VarInstance::Main(v) => {
                    let vi = v.index();
                    match &self.meta[vi] {
                        Some(m) => match m.copy_index {
                            Some(ci) => {
                                if ci <= k {
                                    return Err(CompileError::Internal);
                                }
                            }
                            None => {}
                        },
                        None => {
                            proof {
                                assert(false);
                            }
                            return Err(CompileError::Internal);
                        }
                    }
                }
                VarInstance::Copied(_) => {}
            }
        }
        let mut j: usize = 0;
        while j < ress.len()
            invariant
                self.wf(),
                *self == *old(self),
                j <= ress@.len(),
                len == self.stack@.len(),
                base == len - op.nargs(),
                op.nargs() <= len,
                forall|jj: int| 0 <= jj < j ==> {
                    let rv = #[trigger] ress@[jj];
                    &&& 0 <= rv.idx() < self.meta@.len()
                    &&& (self.meta@[rv.idx()] matches Some(m) ==> base <= m.main_index)
                },
                forall|j1: int, j2: int| 0 <= j1 < j2 < j ==> ress@[j1] != ress@[j2],
            decreases ress@.len() - j,
        {
            let rv = ress[j];
            let vi = rv.index();
            if vi >= self.meta.len() {
                return Err(CompileError::Internal);
            }
            match &self.meta[vi] {
                Some(m) => {
                    if m.main_index < base {
                        return Err(CompileError::Internal);
                    }
                }
                None => {}
            }
            let mut j2: usize = 0;
            while j2 < j
                invariant
                    self.wf(),
                    *self == *old(self),
                    j2 <= j < ress@.len(),
                    forall|jj: int| 0 <= jj < j2 ==> ress@[jj] != ress@[j as int],
                decreases j - j2,
            {
                if ress[j2].id == ress[j].id {
                    return Err(CompileError::Internal);
                }
                j2 += 1;
            }
            j += 1;
        }
        assert(old(self).can_apply(op, ress@));
        let mut t: usize = 0;
        while t < nargs
            invariant
                self.wf(),
                t <= nargs,
                nargs == op.nargs(),
                base == len - nargs,
                len == old(self).stack@.len(),
                self.stack@ == old(self).stack@.take(len - t),
                self.code@ == old(self).code@,
                self.meta@.len() == old(self).meta@.len(),
                forall|kk: int|
                    base <= kk < len - t ==> (#[trigger] self.stack@[kk] matches
                        VarInstance::Main(v) ==> (self.meta_of(v).copy_index matches Some(ci)
                        ==> kk < ci)),
                forall|jj: int| 0 <= jj < ress@.len() ==> {
                    let rv = #[trigger] ress@[jj];
                    &&& 0 <= rv.idx() < self.meta@.len()
                    &&& (self.meta@[rv.idx()] matches Some(m) ==> base <= m.main_index
                        && m.main_index < len - t)
                },
            decreases nargs - t,
        {
            let ghost pre = *self;
            let inst = self.stack[self.stack.len() - 1];
            self.stack.pop();
            match self.set_location(inst, None) {
                Ok(_) => {}
                Err(_) => {
                    proof {
                        assert(false);
                    }
                }
            }
            t += 1;
            proof {
                assert(self.stack@ =~= old(self).stack@.take(len - t));
                assert forall|vi: int| 0 <= vi < self.meta@.len() implies match #[trigger] self
                    .meta@[vi] {
                    Some(m) => {
                        &&& m.main_index < self.stack@.len()
                        &&& self.stack@[m.main_index as int] == VarInstance::Main(
                            (Var { id: vi as u32 }),
                        )
                        &&& match m.copy_index {
                            Some(ci) => {
                                &&& ci < self.stack@.len()
                                &&& self.stack@[ci as int] == VarInstance::Copied(
                                    (Var { id: vi as u32 }),
                                )
                            }
                            None => true,
                        }
                    }
                    None => true,
                } by {
                    if self.meta@[vi] is Some {
                        let v = Var { id: vi as u32 };
                        let m = self.meta@[vi].unwrap();
                        assert(pre.stack@[m.main_index as int] == VarInstance::Main(v));
                        assert(m.main_index != pre.stack@.len() - 1);
                        match m.copy_index {
                            Some(ci) => {
                                assert(pre.stack@[ci as int] == VarInstance::Copied(v));
                                assert(ci != pre.stack@.len() - 1);
                            }
                            None => {}
                        }
                    }
                }
            }
        }
        proof {
            assert(self.stack@ =~= old(self).stack@.take(base as int));
        }
        let mut jr: usize = 0;
        while jr < ress.len()
            invariant
                self.wf(),
                jr <= ress@.len(),
                base + ress@.len() <= usize::MAX,
                self.stack@ == old(self).stack@.take(base as int) + ress@.take(jr as int).map(
                    |_j: int, v: Var| VarInstance::Main(v),
                ),
                self.code@ == old(self).code@,
                self.meta@.len() == old(self).meta@.len(),
                self.meta@.len() <= 0x1_0000_0000,
                base == len - op.nargs(),
                len == old(self).stack@.len(),
                forall|jj: int|
                    jr <= jj < ress@.len() ==> 0 <= (#[trigger] ress@[jj]).idx()
                        < self.meta@.len() && self.meta@[ress@[jj].idx()] is None,
                forall|j1: int, j2: int| 0 <= j1 < j2 < ress@.len() ==> ress@[j1] != ress@[j2],
            decreases ress@.len() - jr,
        {
            let ghost pre = *self;
            let rv = ress[jr];
            let index = self.stack.len();
            self.stack.push(VarInstance::Main(rv));
            self.meta.set(rv.index(), Some(VarMeta { main_index: index, copy_index: None }));
            jr += 1;
            proof {
                assert(self.stack@ =~= old(self).stack@.take(base as int) + ress@.take(jr as int).map(
                    |_j: int, v: Var| VarInstance::Main(v),
                ));
                assert forall|i: int| 0 <= i < self.stack@.len() implies match #[trigger] self
                    .stack@[i] {
                    VarInstance::Main(v) => {
                        &&& 0 <= v.idx() < self.meta@.len()
                        &&& self.meta@[v.idx()] matches Some(mm) && mm.main_index == i
                    }
                    VarInstance::Copied(v) => {
                        &&& 0 <= v.idx() < self.meta@.len()
                        &&& self.meta@[v.idx()] matches Some(mm) && mm.copy_index == Some(
                            i as usize,
                        )
                    }
                } by {
                    if i < pre.stack@.len() {
                        assert(self.stack@[i] == pre.stack@[i]);
                    }
                }
            }
        }
        proof {
            assert(ress@.take(ress@.len() as int) =~= ress@);
        }
        self.code.push(PreInstruction::Data(op));
        proof {
            assert(self.code@ =~= old(self).code@ + seq![PreInstruction::Data(op)]);
        }
        Ok(())
    }
}

} // verus!
