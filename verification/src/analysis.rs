use vstd::prelude::*;

use crate::program::{Expression, Statement};
use crate::scope::ResolvedBlock;
use crate::scope::Var;
use crate::CompileError;

verus! {

/// How many times the variable occurs in an argument list.
pub open spec fn count_var(args: Seq<Var>, v: int) -> int
    decreases args.len(),
{
    if args.len() == 0 {
        0
    } else {
        count_var(args.drop_last(), v) + if args.last().idx() == v {
            1int
        } else {
            0int
        }
    }
}

/// How many times the variable is read by one statement.
pub open spec fn stmt_occ(s: Statement<Var>, v: int) -> int {
    match s.1 {
        Expression::Const(_) => 0,
        Expression::Op(_, args) => count_var(args@, v),
    }
}

/// How many times the variable is read by the first `k` statements.
pub open spec fn occ_upto(b: Seq<Statement<Var>>, k: int, v: int) -> int
    decreases k,
{
    if k <= 0 {
        0
    } else {
        occ_upto(b, k - 1, v) + stmt_occ(b[k - 1], v)
    }
}

/// How many times the variable is read across the whole block.
pub open spec fn occurrences(b: Seq<Statement<Var>>, v: int) -> int {
    occ_upto(b, b.len() as int, v)
}

pub proof fn lemma_count_var_nonneg(args: Seq<Var>, v: int)
    ensures
        count_var(args, v) >= 0,
    decreases args.len(),
{
    if args.len() > 0 {
        lemma_count_var_nonneg(args.drop_last(), v);
    }
}

pub proof fn lemma_count_var_take_le(args: Seq<Var>, j: int, v: int)
    requires
        0 <= j <= args.len(),
    ensures
        count_var(args.take(j), v) <= count_var(args, v),
    decreases args.len() - j,
{
    if j == args.len() {
        assert(args.take(j) =~= args);
    } else {
        lemma_count_var_take_le(args, j + 1, v);
        assert(args.take(j + 1).drop_last() =~= args.take(j));
        assert(args.take(j + 1).last() == args[j]);
        assert(count_var(args.take(j), v) <= count_var(args.take(j + 1), v));
    }
}

pub proof fn lemma_stmt_occ_nonneg(s: Statement<Var>, v: int)
    ensures
        stmt_occ(s, v) >= 0,
{
    match s.1 {
        Expression::Const(_) => {}
        Expression::Op(_, args) => {
            lemma_count_var_nonneg(args@, v);
        }
    }
}

pub proof fn lemma_occ_upto_le(b: Seq<Statement<Var>>, k: int, k2: int, v: int)
    requires
        0 <= k <= k2 <= b.len(),
    ensures
        occ_upto(b, k, v) <= occ_upto(b, k2, v),
    decreases k2 - k,
{
    if k < k2 {
        lemma_occ_upto_le(b, k + 1, k2, v);
        lemma_stmt_occ_nonneg(b[k], v);
    }
}

/// Count, for every variable, how many statements read it. The counts are the
/// compiler's liveness state: a variable whose remaining count reaches zero is
/// dead.
pub fn count_occurrences(rblock: &ResolvedBlock) -> (r: Result<Vec<usize>, CompileError>)
    requires
        rblock.wf(),
    ensures
        r matches Ok(c) ==> {
            &&& c@.len() == rblock.var_count
            &&& forall|v: int|
                0 <= v < rblock.var_count ==> #[trigger] c@[v] == occurrences(
                    rblock.block.0@,
                    v,
                )
        },
        r is Ok <==> (forall|v: int|
            0 <= v < rblock.var_count ==> #[trigger] occurrences(rblock.block.0@, v)
                <= usize::MAX),
        r matches Err(e) ==> e == CompileError::Internal,
{
    let b = &rblock.block.0;
    let mut counts: Vec<usize> = Vec::new();
    let mut i: usize = 0;
    while i < rblock.var_count
        invariant
            i <= rblock.var_count,
            counts@.len() == i,
            forall|v: int| 0 <= v < i ==> #[trigger] counts@[v] == 0,
        decreases rblock.var_count - i,
    {
        counts.push(0);
        i += 1;
    }
    let mut k: usize = 0;
    while k < b.len()
        invariant
            rblock.wf(),
            b == &rblock.block.0,
            k <= b@.len(),
            counts@.len() == rblock.var_count,
            forall|v: int|
                0 <= v < rblock.var_count ==> #[trigger] counts@[v] == occ_upto(
                    b@,
                    k as int,
                    v,
                ),
        decreases b@.len() - k,
    {
        match &b[k].1 {
            Expression::Const(_) => {
                proof {
                    assert forall|v: int| 0 <= v < rblock.var_count implies #[trigger] counts@[v]
                        == occ_upto(b@, k + 1, v) by {
                        assert(stmt_occ(b@[k as int], v) == 0);
                    }
                }
            }
            Expression::Op(_, args) => {
                let mut j: usize = 0;
                while j < args.len()
                    invariant
                        rblock.wf(),
                        b == &rblock.block.0,
                        k < b@.len(),
                        j <= args@.len(),
                        b@[k as int].1 matches Expression::Op(n, a) && a@ == args@,
                        counts@.len() == rblock.var_count,
                        forall|jj: int|
                            0 <= jj < args@.len() ==> 0 <= (#[trigger] args@[jj]).idx()
                                < rblock.var_count,
                        forall|v: int|
                            0 <= v < rblock.var_count ==> #[trigger] counts@[v] == occ_upto(
                                b@,
                                k as int,
                                v,
                            ) + count_var(args@.take(j as int), v),
                    decreases args@.len() - j,
                {
                    let x = args[j].index();
                    let c = counts[x];
                    if c == usize::MAX {
                        proof {
                            let v = args@[j as int].idx();
                            assert(args@.take(j + 1).drop_last() =~= args@.take(j as int));
                            assert(args@.take(j + 1).last() == args@[j as int]);
                            assert(count_var(args@.take(j + 1), v) == count_var(
                                args@.take(j as int),
                                v,
                            ) + 1);
                            lemma_count_var_take_le(args@, j + 1, v);
                            assert(stmt_occ(b@[k as int], v) == count_var(args@, v));
                            assert(occ_upto(b@, k + 1, v) > usize::MAX);
                            lemma_occ_upto_le(b@, k + 1, b@.len() as int, v);
                            assert(occurrences(b@, v) > usize::MAX);
                        }
                        return Err(CompileError::Internal);
                    }
                    counts.set(x, c + 1);
                    j += 1;
                    proof {
                        assert forall|v: int| 0 <= v < rblock.var_count implies #[trigger] counts@[
                            v
                        ] == occ_upto(b@, k as int, v) + count_var(args@.take(j as int), v) by {
                            assert(args@.take(j as int).drop_last() =~= args@.take(j - 1));
                            assert(args@.take(j as int).last() == args@[j - 1]);
                        }
                    }
                }
                proof {
                    assert(args@.take(args@.len() as int) =~= args@);
                    assert forall|v: int| 0 <= v < rblock.var_count implies #[trigger] counts@[v]
                        == occ_upto(b@, k + 1, v) by {
                        assert(stmt_occ(b@[k as int], v) == count_var(args@, v));
                    }
                }
            }
        }
        k += 1;
    }
    proof {
        assert forall|v: int| 0 <= v < rblock.var_count implies #[trigger] occurrences(b@, v)
            <= usize::MAX by {
            assert(counts@[v] == occ_upto(b@, b@.len() as int, v));
        }
    }
    Ok(counts)
}

} // verus!
