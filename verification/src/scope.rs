use vstd::prelude::*;

use crate::program::{Block, Expression, Statement};
use crate::CompileError;

verus! {

/// An SSA value, identified by a dense non-negative integer.
#[derive(Clone, Copy, Debug, PartialEq, Eq, Structural)]
pub struct Var {
    pub id: u32,
}

impl Var {
    /// The identity as a mathematical integer.
    pub open spec fn idx(self) -> int {
        self.id as int
    }

    pub fn new(id: u32) -> (r: Var)
        ensures
            r.id == id,
    {
        Var { id }
    }

    /// The identity as an index into per-variable tables.
    pub fn index(&self) -> (r: usize)
        ensures
            r == self.idx(),
    {
        self.id as usize
    }
}

/// A block whose names have been replaced by dense variable identities.
#[derive(Debug)]
pub struct ResolvedBlock {
    pub block: Block<Var>,
    pub var_count: usize,
}

/// Every variable the statement mentions lies below the block's count.
pub open spec fn stmt_vars_in_range(s: Statement<Var>, vc: int) -> bool {
    &&& forall|j: int| 0 <= j < s.0@.len() ==> 0 <= (#[trigger] s.0@[j]).idx() < vc
    &&& (s.1 matches Expression::Op(_, args) ==> forall|j: int|
        0 <= j < args@.len() ==> 0 <= (#[trigger] args@[j]).idx() < vc)
}

impl ResolvedBlock {
    /// The input contract of code generation: each variable is a dense
    /// integer below `var_count`.
    pub open spec fn wf(self) -> bool {
        &&& self.var_count <= 0x1_0000_0000
        &&& forall|i: int|
            0 <= i < self.block.0@.len() ==> stmt_vars_in_range(
                #[trigger] self.block.0@[i],
                self.var_count as int,
            )
    }
}

} // verus!

verus! {

/// Compare two byte strings.
pub fn bytes_eq(a: &[u8], b: &[u8]) -> (r: bool)
    ensures
        r == (a@ == b@),
{
    if a.len() != b.len() {
        return false;
    }
    let mut i: usize = 0;
    while i < a.len()
        invariant
            i <= a@.len(),
            a@.len() == b@.len(),
            forall|j: int| 0 <= j < i ==> a@[j] == b@[j],
        decreases a@.len() - i,
    {
        if a[i] != b[i] {
            return false;
        }
        i += 1;
    }
    proof {
        assert(a@ =~= b@);
    }
    true
}

/// The binding list as a mathematical association list.
pub open spec fn env_view(e: Seq<(Vec<u8>, Var)>) -> Seq<(Seq<u8>, Var)> {
    e.map(|_i: int, p: (Vec<u8>, Var)| (p.0@, p.1))
}

/// The most recent binding of a name, shadowing earlier ones.
pub open spec fn lookup(env: Seq<(Seq<u8>, Var)>, name: Seq<u8>) -> Option<Var>
    decreases env.len(),
{
    if env.len() == 0 {
        None
    } else if env.last().0 == name {
        Some(env.last().1)
    } else {
        lookup(env.drop_last(), name)
    }
}

/// Name-to-variable bindings, most recent last.
pub struct Env(pub Vec<(Vec<u8>, Var)>);

impl Env {
    pub fn new() -> (r: Env)
        ensures
            env_view(r.0@) =~= Seq::<(Seq<u8>, Var)>::empty(),
    {
        Env(Vec::new())
    }

    fn get_from(&self, n: usize, name: &[u8]) -> (r: Option<Var>)
        requires
            n <= self.0@.len(),
        ensures
            r == lookup(env_view(self.0@).take(n as int), name@),
        decreases n,
    {
        if n == 0 {
            proof {
                assert(env_view(self.0@).take(0) =~= Seq::<(Seq<u8>, Var)>::empty());
            }
            None
        } else {
            proof {
                assert(env_view(self.0@).take(n as int).drop_last() =~= env_view(
                    self.0@,
                ).take(n - 1));
                assert(env_view(self.0@).take(n as int).last() == env_view(self.0@)[n - 1]);
            }
            if bytes_eq(self.0[n - 1].0.as_slice(), name) {
                Some(self.0[n - 1].1)
            } else {
                self.get_from(n - 1, name)
            }
        }
    }

    /// The variable a name currently denotes.
    pub fn get(&self, name: &[u8]) -> (r: Result<Var, CompileError>)
        ensures
            r matches Ok(v) ==> lookup(env_view(self.0@), name@) == Some(v),
            r is Ok <==> lookup(env_view(self.0@), name@) is Some,
            r matches Err(e) ==> e == CompileError::Resolve,
    {
        proof {
            assert(env_view(self.0@).take(self.0@.len() as int) =~= env_view(self.0@));
        }
        match self.get_from(self.0.len(), name) {
            Some(v) => Ok(v),
            None => Err(CompileError::Resolve),
        }
    }

    /// Bind a name, shadowing any earlier binding.
    pub fn insert(&mut self, name: Vec<u8>, value: Var)
        ensures
            env_view(final(self).0@) == env_view(old(self).0@).push((name@, value)),
    {
        let ghost n = name@;
        self.0.push((name, value));
        proof {
            assert(env_view(self.0@) =~= env_view(old(self).0@).push((n, value)));
        }
    }
}

/// The bindings one statement introduces when the next fresh identity is
/// `next`.
pub open spec fn stmt_bindings(s: Statement<Vec<u8>>, next: int) -> Seq<(Seq<u8>, Var)> {
    Seq::new(s.0@.len(), |j: int| (s.0@[j]@, (Var { id: (next + j) as u32 })))
}

/// The next fresh identity after the first `k` statements.
pub open spec fn next_after(b: Seq<Statement<Vec<u8>>>, k: int) -> int
    decreases k,
{
    if k <= 0 {
        0
    } else {
        next_after(b, k - 1) + b[k - 1].0@.len()
    }
}

/// The bindings in scope after the first `k` statements.
pub open spec fn env_after(b: Seq<Statement<Vec<u8>>>, k: int) -> Seq<(Seq<u8>, Var)>
    decreases k,
{
    if k <= 0 {
        Seq::empty()
    } else {
        env_after(b, k - 1) + stmt_bindings(b[k - 1], next_after(b, k - 1))
    }
}

/// Every argument of the expression is bound in the environment.
pub open spec fn expr_resolvable(env: Seq<(Seq<u8>, Var)>, e: Expression<Vec<u8>>) -> bool {
    match e {
        Expression::Const(_) => true,
        Expression::Op(_, args) => forall|j: int|
            0 <= j < args@.len() ==> lookup(env, (#[trigger] args@[j])@) is Some,
    }
}

/// Every statement's arguments are bound where the statement stands.
pub open spec fn block_names_ok(b: Seq<Statement<Vec<u8>>>) -> bool {
    forall|k: int| 0 <= k < b.len() ==> expr_resolvable(env_after(b, k), (#[trigger] b[k]).1)
}

/// The block's variable count fits the identity type.
pub open spec fn block_count_fits(b: Seq<Statement<Vec<u8>>>) -> bool {
    next_after(b, b.len() as int) <= u32::MAX
}

/// The target expression is the source expression with each argument name
/// replaced by its binding.
pub open spec fn expr_resolves(
    env: Seq<(Seq<u8>, Var)>,
    e: Expression<Vec<u8>>,
    t: Expression<Var>,
) -> bool {
    match e {
        Expression::Const(c) => t matches Expression::Const(c2) && c2.digits@ == c.digits@,
        Expression::Op(n, args) => {
            &&& t matches Expression::Op(n2, args2)
            &&& n2@ == n@
            &&& args2@.len() == args@.len()
            &&& forall|j: int|
                0 <= j < args@.len() ==> lookup(env, (#[trigger] args@[j])@) == Some(args2@[j])
        }
    }
}

/// The target statement resolves the source statement: arguments looked up in
/// the scope before the statement, results bound to consecutive fresh
/// identities.
pub open spec fn stmt_resolves(
    s: Statement<Vec<u8>>,
    t: Statement<Var>,
    env: Seq<(Seq<u8>, Var)>,
    next: int,
) -> bool {
    &&& expr_resolves(env, s.1, t.1)
    &&& t.0@.len() == s.0@.len()
    &&& forall|j: int| 0 <= j < t.0@.len() ==> (#[trigger] t.0@[j]).idx() == next + j
}

/// The resolved block is the source block under the scoping rules.
pub open spec fn block_resolves(b: Seq<Statement<Vec<u8>>>, t: Seq<Statement<Var>>) -> bool {
    &&& t.len() == b.len()
    &&& forall|k: int|
        0 <= k < b.len() ==> stmt_resolves(
            b[k],
            #[trigger] t[k],
            env_after(b, k),
            next_after(b, k),
        )
}

proof fn lemma_next_after_mono(b: Seq<Statement<Vec<u8>>>, k: int, k2: int)
    requires
        0 <= k <= k2 <= b.len(),
    ensures
        next_after(b, k) <= next_after(b, k2),
        next_after(b, k) >= 0,
    decreases k2 - k, k,
{
    if k > 0 {
        lemma_next_after_mono(b, k - 1, k - 1);
    }
    if k < k2 {
        lemma_next_after_mono(b, k + 1, k2);
    }
}

proof fn lemma_env_after_ids(b: Seq<Statement<Vec<u8>>>, k: int)
    requires
        0 <= k <= b.len(),
        next_after(b, k) <= u32::MAX,
    ensures
        forall|e: int|
            0 <= e < env_after(b, k).len() ==> 0 <= (#[trigger] env_after(b, k)[e]).1.idx()
                < next_after(b, k),
    decreases k,
{
    if k > 0 {
        lemma_next_after_mono(b, k - 1, k);
        lemma_env_after_ids(b, k - 1);
        assert forall|e: int| 0 <= e < env_after(b, k).len() implies 0 <= (#[trigger] env_after(
            b,
            k,
        )[e]).1.idx() < next_after(b, k) by {
            let prefix = env_after(b, k - 1);
            if e < prefix.len() {
                assert(env_after(b, k)[e] == prefix[e]);
            } else {
                let nk = next_after(b, k - 1);
                assert(env_after(b, k)[e] == stmt_bindings(b[k - 1], nk)[e - prefix.len()]);
            }
        }
    }
}

/// Replace names by dense variable identities: arguments resolve to their
/// most recent binding, each result binds a fresh identity.
#[verifier::rlimit(100)]
pub fn resolve(block: Block<Vec<u8>>) -> (r: Result<ResolvedBlock, CompileError>)
    ensures
        r matches Ok(rb) ==> {
            &&& rb.wf()
            &&& block_resolves(block.0@, rb.block.0@)
            &&& rb.var_count == next_after(block.0@, block.0@.len() as int)
        },
        r is Ok <==> (block_names_ok(block.0@) && block_count_fits(block.0@)),
        r == Err::<ResolvedBlock, CompileError>(CompileError::Resolve) ==> !block_names_ok(
            block.0@,
        ),
        r == Err::<ResolvedBlock, CompileError>(CompileError::Internal) ==> !block_count_fits(
            block.0@,
        ),
        r matches Err(e) ==> (e == CompileError::Resolve || e == CompileError::Internal),
{
    let ghost b = block.0@;
    let mut env = Env::new();
    let mut i: u32 = 0;
    let mut out: Vec<Statement<Var>> = Vec::new();
    let stmts = &block.0;
    let mut k: usize = 0;
    while k < stmts.len()
        invariant
            b == block.0@,
            b == stmts@,
            k <= b.len(),
            i == next_after(b, k as int),
            env_view(env.0@) == env_after(b, k as int),
            out@.len() == k,
            forall|kk: int|
                0 <= kk < k ==> stmt_resolves(
                    b[kk],
                    #[trigger] out@[kk],
                    env_after(b, kk),
                    next_after(b, kk),
                ),
            forall|kk: int|
                0 <= kk < k ==> expr_resolvable(env_after(b, kk), (#[trigger] b[kk]).1),
            forall|e: int|
                0 <= e < env_view(env.0@).len() ==> 0 <= (#[trigger] env_view(env.0@)[
                    e
                ]).1.idx() < i,
        decreases b.len() - k,
    {
        let ress = &stmts[k].0;
        let new_expr: Expression<Var> = match &stmts[k].1 {
            Expression::Const(c) => Expression::Const(c.clone()),

            Expression::Op(name, args) => {
                let mut new_args: Vec<Var> = Vec::new();
                let mut j: usize = 0;
                while j < args.len()
                    invariant
                        b == block.0@,
                        k < b.len(),
                        b[k as int].1 matches Expression::Op(n, a) && a@ == args@,
                        j <= args@.len(),
                        new_args@.len() == j,
                        env_view(env.0@) == env_after(b, k as int),
                        i == next_after(b, k as int),
                        forall|jj: int|
                            0 <= jj < j ==> lookup(env_after(b, k as int), (#[trigger] args@[
                                jj
                            ])@) == Some(new_args@[jj]),
                        forall|e: int|
                            0 <= e < env_view(env.0@).len() ==> 0 <= (#[trigger] env_view(env.0@)[
                                e
                            ]).1.idx() < i,
                    decreases args@.len() - j,
                {
                    let v = match env.get(args[j].as_slice()) {
                        Ok(v) => v,
                        Err(e) => {
                            proof {
                                assert(!expr_resolvable(env_after(b, k as int), b[k as int].1));
                            }
                            return Err(e);
                        }
                    };
                    proof {
                        let le = env_view(env.0@);
                        lemma_lookup_in_env(le, args@[j as int]@);
                    }
                    new_args.push(v);
                    j += 1;
                }
                let n2 = name.clone();
                proof {
                    assert(n2@ == name@);
                }
                Expression::Op(n2, new_args)
            }
        };
        let mut new_ress: Vec<Var> = Vec::new();
        let ghost next_k = i as int;
        let mut j: usize = 0;
        while j < ress.len()
            invariant
                b == block.0@,
                k < b.len(),
                ress == &b[k as int].0,
                j <= ress@.len(),
                new_ress@.len() == j,
                i == next_k + j,
                i <= u32::MAX,
                next_k == next_after(b, k as int),
                env_view(env.0@) == env_after(b, k as int) + stmt_bindings(
                    b[k as int],
                    next_k,
                ).take(j as int),
                forall|jj: int| 0 <= jj < j ==> (#[trigger] new_ress@[jj]).idx() == next_k + jj,
                forall|e: int|
                    0 <= e < env_view(env.0@).len() ==> 0 <= (#[trigger] env_view(env.0@)[
                        e
                    ]).1.idx() < i,
            decreases ress@.len() - j,
        {
            if i == u32::MAX {
                proof {
                    lemma_next_after_mono(b, k + 1, b.len() as int);
                    assert(next_after(b, k + 1) == next_k + b[k as int].0@.len());
                    assert(next_after(b, b.len() as int) > u32::MAX);
                }
                return Err(CompileError::Internal);
            }
            let vi = Var { id: i };
            let name = ress[j].clone();
            proof {
                assert(name@ == ress@[j as int]@);
            }
            env.insert(name, vi);
            new_ress.push(vi);
            i = i + 1;
            j += 1;
            proof {
                assert(env_view(env.0@) =~= env_after(b, k as int) + stmt_bindings(
                    b[k as int],
                    next_k,
                ).take(j as int));
            }
        }
        out.push(Statement(new_ress, new_expr));
        k += 1;
        proof {
            assert(stmt_bindings(b[k - 1], next_k).take(b[k - 1].0@.len() as int)
                =~= stmt_bindings(b[k - 1], next_k));
            assert(env_view(env.0@) == env_after(b, k as int));
            assert(i == next_after(b, k as int));
            assert(stmt_resolves(b[k - 1], out@[k - 1], env_after(b, k - 1), next_after(
                b,
                k - 1,
            )));
        }
    }
    let var_count: usize = i as usize;
    let rb = ResolvedBlock { block: Block(out), var_count };
    proof {
        assert(rb.wf()) by {
            assert forall|kk: int| 0 <= kk < rb.block.0@.len() implies stmt_vars_in_range(
                #[trigger] rb.block.0@[kk],
                rb.var_count as int,
            ) by {
                let t = rb.block.0@[kk];
                let s0 = b[kk];
                assert(stmt_resolves(s0, t, env_after(b, kk), next_after(b, kk)));
                lemma_next_after_mono(b, kk + 1, b.len() as int);
                lemma_next_after_mono(b, kk, kk + 1);
                assert(next_after(b, kk + 1) == next_after(b, kk) + s0.0@.len());
                assert forall|j: int| 0 <= j < t.0@.len() implies 0 <= (#[trigger] t.0@[
                    j
                ]).idx() < rb.var_count as int by {
                    assert(t.0@[j].idx() == next_after(b, kk) + j);
                }
                match s0.1 {
                    Expression::Const(_) => {}
                    Expression::Op(_, args) => {
                        lemma_next_after_mono(b, kk, b.len() as int);
                        lemma_env_after_ids(b, kk);
                        let args2 = t.1->Op_1;
                        assert forall|j: int| 0 <= j < args2@.len() implies 0 <= (
                        #[trigger] args2@[j]).idx() < rb.var_count as int by {
                            assert(lookup(env_after(b, kk), args@[j]@) == Some(args2@[j]));
                            lemma_lookup_in_env(env_after(b, kk), args@[j]@);
                            let e = choose|e: int|
                                0 <= e < env_after(b, kk).len() && (#[trigger] env_after(b, kk)[
                                    e
                                ]).1 == args2@[j];
                            assert(env_after(b, kk)[e].1.idx() < next_after(b, kk));
                        }
                    }
                }
            }
        }
    }
    Ok(rb)
}

/// A successful lookup returns a variable that stands in the environment.
proof fn lemma_lookup_in_env(env: Seq<(Seq<u8>, Var)>, name: Seq<u8>)
    ensures
        lookup(env, name) matches Some(v) ==> exists|e: int|
            0 <= e < env.len() && (#[trigger] env[e]).1 == v,
    decreases env.len(),
{
    if env.len() > 0 {
        if env.last().0 == name {
            assert(env[env.len() - 1].1 == lookup(env, name).unwrap());
        } else {
            lemma_lookup_in_env(env.drop_last(), name);
            if lookup(env, name) is Some {
                let e = choose|e: int|
                    0 <= e < env.drop_last().len() && (#[trigger] env.drop_last()[e]).1 == lookup(
                        env,
                        name,
                    ).unwrap();
                assert(env[e].1 == lookup(env, name).unwrap());
            }
        }
    }
}

} // verus!
