//! The quantifier-block decision procedure.
use vstd::prelude::*;
use crate::expression::{
    eval, extends, graph_wf, lemma_eval_agree, lemma_extend, mentions, reduced_at, Builder, Exp,
    FALSE, TRUE,
};
use crate::substitute::{assign, substitute};
use crate::cnf::{oracle_satisfiable, small_vars, LIT_NODES};

verus! {

#[derive(Clone, Copy, Debug, PartialEq, Eq, Structural)]
pub enum Quantifier {
    Exists,
    ForAll,
}

#[derive(Clone, Copy, Debug, PartialEq, Eq, Structural)]
pub enum Solution {
    Sat,
    Unsat,
}

/// Why a strategy gave up on a formula.
#[derive(Clone, Copy, Debug, PartialEq, Eq, Structural)]
pub enum SolveError {
    /// The prefix ran out while the formula still depends on a variable.
    FreeVariable,
    /// The expansion strategy built a graph over its node budget.
    BudgetExceeded,
    /// The satisfiability oracle answered neither satisfiable nor unsatisfiable.
    OracleUnknown,
    /// The graph would need more nodes than a handle can address.
    CapacityExceeded,
}

/// A quantified Boolean formula: a prefix of alternating blocks of
/// quantifiers over the variables `0..n`, in order, and a matrix node.
pub struct QBF {
    pub first_quantifier: Quantifier,
    pub quantifier_blocks: Vec<u32>,
    pub builder: Builder,
    pub expr: usize,
}

pub open spec fn flip(q: Quantifier) -> Quantifier {
    match q {
        Quantifier::Exists => Quantifier::ForAll,
        Quantifier::ForAll => Quantifier::Exists,
    }
}

pub fn opposite_quantifier(q: Quantifier) -> (r: Quantifier)
    ensures
        r == flip(q),
{
    match q {
        Quantifier::Exists => Quantifier::ForAll,
        Quantifier::ForAll => Quantifier::Exists,
    }
}

/// The quantifier of each variable, in order, for blocks of the given sizes
/// that alternate starting with `first`.
pub open spec fn prefix(first: Quantifier, blocks: Seq<u32>) -> Seq<Quantifier>
    decreases blocks.len(),
{
    if blocks.len() == 0 {
        Seq::empty()
    } else {
        Seq::new(blocks[0] as nat, |_i: int| first) + prefix(flip(first), blocks.drop_first())
    }
}

/// The truth of node `e` with variables `k..` bound by `quants[k..]`,
/// outermost first, and every other variable read from `env`.
pub open spec fn holds(
    nodes: Seq<Exp>,
    quants: Seq<Quantifier>,
    k: int,
    e: int,
    env: spec_fn(int) -> bool,
) -> bool
    decreases quants.len() - k,
{
    if k >= quants.len() || k < 0 {
        eval(nodes, e, env)
    } else {
        let f = holds(nodes, quants, k + 1, e, assign(env, k, false));
        let t = holds(nodes, quants, k + 1, e, assign(env, k, true));
        match quants[k] {
            Quantifier::Exists => f || t,
            Quantifier::ForAll => f && t,
        }
    }
}

/// The truth of a formula: its matrix under its whole prefix.
pub open spec fn qbf_holds(problem: &QBF, env: spec_fn(int) -> bool) -> bool {
    holds(
        problem.builder@,
        prefix(problem.first_quantifier, problem.quantifier_blocks@),
        0,
        problem.expr as int,
        env,
    )
}

/// A node whose value does not depend on the environment keeps that value
/// under any prefix.
pub proof fn lemma_holds_const(
    nodes: Seq<Exp>,
    quants: Seq<Quantifier>,
    k: int,
    e: int,
    env: spec_fn(int) -> bool,
    c: bool,
)
    requires
        forall|env2: spec_fn(int) -> bool| #[trigger] eval(nodes, e, env2) == c,
    ensures
        holds(nodes, quants, k, e, env) == c,
    decreases quants.len() - k,
{
    if !(k >= quants.len() || k < 0) {
        lemma_holds_const(nodes, quants, k + 1, e, assign(env, k, false), c);
        lemma_holds_const(nodes, quants, k + 1, e, assign(env, k, true), c);
    }
}

/// If `e2` is `e1` with variable `v` set to `value`, then binding the
/// variables from `j > v` on agrees as well.
pub proof fn lemma_holds_subst(
    nodes: Seq<Exp>,
    quants: Seq<Quantifier>,
    j: int,
    v: int,
    value: bool,
    e1: int,
    e2: int,
    env: spec_fn(int) -> bool,
)
    requires
        0 <= v < j,
        forall|env2: spec_fn(int) -> bool| #[trigger]
            eval(nodes, e2, env2) == eval(nodes, e1, assign(env2, v, value)),
    ensures
        holds(nodes, quants, j, e2, env) == holds(nodes, quants, j, e1, assign(env, v, value)),
    decreases quants.len() - j,
{
    if j >= quants.len() {
    } else {
        let ef = assign(env, j, false);
        let et = assign(env, j, true);
        lemma_holds_subst(nodes, quants, j + 1, v, value, e1, e2, ef);
        lemma_holds_subst(nodes, quants, j + 1, v, value, e1, e2, et);
        assert(assign(ef, v, value) =~= assign(assign(env, v, value), j, false));
        assert(assign(et, v, value) =~= assign(assign(env, v, value), j, true));
    }
}

/// A node without variables is one of the two constants.
pub proof fn lemma_closed_is_constant(nodes: Seq<Exp>, i: int)
    requires
        graph_wf(nodes),
        0 <= i < nodes.len(),
        forall|x: int| !#[trigger] mentions(nodes, i, x),
    ensures
        i == TRUE || i == FALSE,
    decreases i,
{
    assert(reduced_at(nodes, i));
    match nodes[i] {
        Exp::And(l, r) => {
            assert forall|x: int| !#[trigger] mentions(nodes, l as int, x) by {
                assert(!mentions(nodes, i, x));
            }
            lemma_closed_is_constant(nodes, l as int);
        },
        Exp::Not(y) => {
            assert forall|x: int| !#[trigger] mentions(nodes, y as int, x) by {
                assert(!mentions(nodes, i, x));
            }
            lemma_closed_is_constant(nodes, y as int);
        },
        Exp::Var(v) => {
            assert(mentions(nodes, i, v as int));
        },
        Exp::True => {
            assert(nodes[TRUE as int] == nodes[i]);
        },
        Exp::False => {
            assert(nodes[FALSE as int] == nodes[i]);
        },
    }
}

pub open spec fn block_total(blocks: Seq<u32>) -> nat
    decreases blocks.len(),
{
    if blocks.len() == 0 {
        0
    } else {
        blocks[0] as nat + block_total(blocks.drop_first())
    }
}

pub proof fn lemma_prefix_len(first: Quantifier, blocks: Seq<u32>)
    ensures
        prefix(first, blocks).len() == block_total(blocks),
    decreases blocks.len(),
{
    if blocks.len() > 0 {
        lemma_prefix_len(flip(first), blocks.drop_first());
    }
}

/// What remains of the prefix: `remaining` more of `quant`, then the blocks
/// from `nb` on, starting with the other kind.
spec fn rest(quant: Quantifier, remaining: nat, blocks: Seq<u32>, nb: int) -> Seq<Quantifier> {
    Seq::new(remaining, |_i: int| quant) + prefix(flip(quant), blocks.subrange(nb, blocks.len() as int))
}

/// The most nodes a graph may hold before a substitution; substitution can
/// double it, and every handle must stay addressable.
pub const NODE_LIMIT: usize = 0x5555_5554;

/// A last block with more variables than this goes to the satisfiability
/// oracle instead of being branched on.
pub const ORACLE_BLOCK: u32 = 10;

/// Environments `a` and `b` agree on every variable outside `lo..hi`.
pub open spec fn agree_outside(a: spec_fn(int) -> bool, b: spec_fn(int) -> bool, lo: int, hi: int) -> bool {
    forall|x: int| (x < lo || x >= hi) ==> #[trigger] a(x) == #[trigger] b(x)
}

/// A trailing run of one kind of quantifier from `k` to the end binds its
/// variables as one block: some (for `Exists`) or every (for `ForAll`)
/// choice of their values makes the node true.
pub proof fn lemma_holds_block(
    nodes: Seq<Exp>,
    quants: Seq<Quantifier>,
    q: Quantifier,
    k: int,
    e: int,
    env: spec_fn(int) -> bool,
)
    requires
        0 <= k <= quants.len(),
        forall|j: int| k <= j < quants.len() ==> #[trigger] quants[j] == q,
    ensures
        q == Quantifier::Exists ==> (holds(nodes, quants, k, e, env) <==> exists|env2: spec_fn(int) -> bool|
            agree_outside(env, env2, k, quants.len() as int) && #[trigger] eval(nodes, e, env2)),
        q == Quantifier::ForAll ==> (holds(nodes, quants, k, e, env) <==> forall|env2: spec_fn(int) -> bool|
            agree_outside(env, env2, k, quants.len() as int) ==> #[trigger] eval(nodes, e, env2)),
    decreases quants.len() - k,
{
    let n = quants.len() as int;
    if k == n {
        assert forall|env2: spec_fn(int) -> bool| agree_outside(env, env2, k, n) implies #[trigger] eval(nodes, e, env2) == eval(nodes, e, env) by {
            lemma_eval_agree(nodes, e, env2, env);
        }
        assert(agree_outside(env, env, k, n));
    } else {
        let ef = assign(env, k, false);
        let et = assign(env, k, true);
        lemma_holds_block(nodes, quants, q, k + 1, e, ef);
        lemma_holds_block(nodes, quants, q, k + 1, e, et);
        assert forall|env2: spec_fn(int) -> bool| agree_outside(env, env2, k, n) implies
            (if env2(k) { agree_outside(et, env2, k + 1, n) } else { agree_outside(ef, env2, k + 1, n) }) by {
        }
        assert forall|env2: spec_fn(int) -> bool| agree_outside(ef, env2, k + 1, n) || agree_outside(et, env2, k + 1, n)
            implies agree_outside(env, env2, k, n) by {
            assert forall|x: int| (x < k || x >= n) implies #[trigger] env(x) == #[trigger] env2(x) by {
                if agree_outside(ef, env2, k + 1, n) {
                    assert(ef(x) == env2(x));
                } else {
                    assert(et(x) == env2(x));
                }
            }
        }
        match q {
            Quantifier::Exists => {
                if holds(nodes, quants, k, e, env) {
                    if holds(nodes, quants, k + 1, e, ef) {
                        let w = choose|env2: spec_fn(int) -> bool| agree_outside(ef, env2, k + 1, n) && #[trigger] eval(nodes, e, env2);
                        assert(agree_outside(env, w, k, n));
                    } else {
                        let w = choose|env2: spec_fn(int) -> bool| agree_outside(et, env2, k + 1, n) && #[trigger] eval(nodes, e, env2);
                        assert(agree_outside(env, w, k, n));
                    }
                }
                if exists|env2: spec_fn(int) -> bool| agree_outside(env, env2, k, n) && #[trigger] eval(nodes, e, env2) {
                    let w = choose|env2: spec_fn(int) -> bool| agree_outside(env, env2, k, n) && #[trigger] eval(nodes, e, env2);
                    if w(k) {
                        assert(agree_outside(et, w, k + 1, n));
                    } else {
                        assert(agree_outside(ef, w, k + 1, n));
                    }
                }
            },
            Quantifier::ForAll => {
                if holds(nodes, quants, k, e, env) {
                    assert forall|env2: spec_fn(int) -> bool| agree_outside(env, env2, k, n) implies #[trigger] eval(nodes, e, env2) by {
                        if env2(k) {
                            assert(agree_outside(et, env2, k + 1, n));
                        } else {
                            assert(agree_outside(ef, env2, k + 1, n));
                        }
                    }
                }
            },
        }
    }
}

/// A bound on the size of a graph of `len` nodes after deciding `d` more
/// variables: a branch substitutes (at most tripling the graph) and decides
/// the rest, twice over, and the oracle's negation of a last block adds one
/// node.
pub open spec fn growth(len: nat, d: nat) -> nat
    decreases d,
{
    if d == 0 {
        len + 1
    } else {
        growth(3 * growth(3 * len, (d - 1) as nat), (d - 1) as nat)
    }
}

pub proof fn lemma_growth_ge(len: nat, d: nat)
    ensures
        growth(len, d) >= len + 1,
    decreases d,
{
    if d > 0 {
        lemma_growth_ge(3 * len, (d - 1) as nat);
        lemma_growth_ge(3 * growth(3 * len, (d - 1) as nat), (d - 1) as nat);
    }
}

pub proof fn lemma_growth_mono(l1: nat, l2: nat, d: nat)
    requires
        l1 <= l2,
    ensures
        growth(l1, d) <= growth(l2, d),
    decreases d,
{
    if d > 0 {
        lemma_growth_mono(3 * l1, 3 * l2, (d - 1) as nat);
        lemma_growth_mono(
            3 * growth(3 * l1, (d - 1) as nat),
            3 * growth(3 * l2, (d - 1) as nat),
            (d - 1) as nat,
        );
    }
}

pub proof fn lemma_growth_step(len: nat, d: nat)
    ensures
        growth(len, d) <= growth(len, d + 1),
{
    lemma_growth_ge(3 * len, d);
    lemma_growth_mono(len, 3 * growth(3 * len, d), d);
}

/// Decides the formula from variable `k` on; `quant` binds the next
/// `remaining` variables and the blocks from `nb` on follow.
fn solve_inner(
    builder: &mut Builder,
    blocks: &Vec<u32>,
    quant: Quantifier,
    remaining: u32,
    nb: usize,
    k: u32,
    expr: usize,
    Ghost(quants): Ghost<Seq<Quantifier>>,
) -> (r: Result<Solution, SolveError>)
    requires
        old(builder).wf(),
        expr < old(builder)@.len(),
        nb <= blocks@.len(),
        k <= quants.len(),
        quants.len() < u32::MAX,
        quants.subrange(k as int, quants.len() as int) == rest(quant, remaining as nat, blocks@, nb as int),
        forall|x: int| #[trigger] mentions(old(builder)@, expr as int, x) ==> x >= k,
        nb == 0 ==> remaining == 0,
        nb > 0 ==> remaining <= blocks@[nb - 1],
    ensures
        r == Err::<Solution, SolveError>(SolveError::OracleUnknown) ==> blocks@.len() > 0
            && blocks@.last() > ORACLE_BLOCK,
        expr == TRUE ==> r == Ok::<Solution, SolveError>(Solution::Sat),
        expr == FALSE ==> r == Ok::<Solution, SolveError>(Solution::Unsat),
        final(builder).wf(),
        extends(final(builder)@, old(builder)@),
        r matches Ok(s) ==> forall|env: spec_fn(int) -> bool| #[trigger]
            holds(old(builder)@, quants, k as int, expr as int, env) == (s == Solution::Sat),
        r matches Err(e) ==> e == SolveError::FreeVariable || e == SolveError::CapacityExceeded
            || e == SolveError::OracleUnknown,
        r == Err::<Solution, SolveError>(SolveError::FreeVariable) ==> exists|x: int|
            #[trigger] mentions(old(builder)@, expr as int, x) && x >= quants.len(),
        r == Err::<Solution, SolveError>(SolveError::CapacityExceeded) ==> final(builder)@.len()
            > NODE_LIMIT,
        final(builder)@.len() <= growth(old(builder)@.len(), (quants.len() - k) as nat),
    decreases quants.len() - k,
{
    let ghost nodes0 = builder@;
    let ghost len0 = builder@.len();
    let ghost d = (quants.len() - k) as nat;
    proof {
        builder.lemma_wf();
        lemma_growth_ge(len0, d);
    }
    if expr == TRUE || expr == FALSE {
        proof {
            let c = expr == TRUE;
            assert forall|env: spec_fn(int) -> bool| #[trigger]
                holds(nodes0, quants, k as int, expr as int, env) == c by {
                lemma_holds_const(nodes0, quants, k as int, expr as int, env, c);
            }
        }
        return if expr == TRUE {
            Ok(Solution::Sat)
        } else {
            Ok(Solution::Unsat)
        };
    }
    let mut quant = quant;
    let mut remaining = remaining;
    let mut nb = nb;
    while remaining == 0
        invariant
            nb <= blocks@.len(),
            k <= quants.len(),
            graph_wf(nodes0),
            expr < nodes0.len(),
            expr != TRUE && expr != FALSE,
            builder.wf(),
            builder@ == nodes0,
            forall|x: int| #[trigger] mentions(nodes0, expr as int, x) ==> x >= k,
            quants.subrange(k as int, quants.len() as int) == rest(quant, remaining as nat, blocks@, nb as int),
            nb == 0 ==> remaining == 0,
            nb > 0 ==> remaining <= blocks@[nb - 1],
        decreases blocks@.len() - nb,
    {
        if nb == blocks.len() {
            proof {
                assert(blocks@.subrange(nb as int, blocks@.len() as int).len() == 0);
                assert(quants.subrange(k as int, quants.len() as int).len() == 0);
                assert(k == quants.len());
                if forall|x: int| !#[trigger] mentions(nodes0, expr as int, x) {
                    lemma_closed_is_constant(nodes0, expr as int);
                }
                let x = choose|x: int| #[trigger] mentions(nodes0, expr as int, x);
                assert(x >= quants.len());
            }
            return Err(SolveError::FreeVariable);
        }
        proof {
            let tail = blocks@.subrange(nb as int, blocks@.len() as int);
            assert(tail.drop_first() =~= blocks@.subrange(nb + 1, blocks@.len() as int));
            assert(rest(quant, 0, blocks@, nb as int) =~= rest(flip(quant), blocks@[nb as int] as nat, blocks@, nb + 1));
        }
        quant = opposite_quantifier(quant);
        remaining = blocks[nb];
        nb = nb + 1;
    }
    let ghost q = quants.subrange(k as int, quants.len() as int);
    proof {
        assert(q[0] == quant);
        assert(quants[k as int] == quant);
        assert(quants.subrange(k + 1, quants.len() as int) =~= rest(quant, (remaining - 1) as nat, blocks@, nb as int)) by {
            assert(quants.subrange(k + 1, quants.len() as int) =~= q.drop_first());
        }
    }
    if nb == blocks.len() && remaining > ORACLE_BLOCK {
        let end = k as usize + remaining as usize;
        proof {
            assert(blocks@.subrange(nb as int, blocks@.len() as int) =~= Seq::<u32>::empty());
            assert(q =~= Seq::new(remaining as nat, |_i: int| quant));
            assert(end == quants.len());
            assert forall|j: int| k <= j < quants.len() implies #[trigger] quants[j] == quant by {
                assert(quants[j] == q[j - k]);
            }
        }
        let vs = builder.vars_of(expr);
        let outside = vs.any_at_least(end);
        if builder.len() < LIT_NODES && end <= LIT_NODES && !outside {
            proof {
                assert forall|x: int| #[trigger] mentions(nodes0, expr as int, x) implies k <= x < end by {
                    if x >= end {
                        assert(vs.has(x));
                    }
                }
            }
            return oracle_leaf(builder, quant, k, end, expr, Ghost(quants));
        }
    }
    if !builder.has_var(expr, k) {
        let r = solve_inner(builder, blocks, quant, remaining - 1, nb, k + 1, expr, Ghost(quants));
        proof {
            lemma_growth_step(len0, (d - 1) as nat);
            assert forall|env: spec_fn(int) -> bool| #[trigger]
                holds(nodes0, quants, k as int, expr as int, env) == holds(nodes0, quants, k + 1, expr as int, env) by {
                assert forall|env2: spec_fn(int) -> bool| #[trigger]
                    eval(nodes0, expr as int, env2) == eval(nodes0, expr as int, assign(env2, k as int, false)) by {
                    lemma_eval_agree(nodes0, expr as int, env2, assign(env2, k as int, false));
                }
                assert forall|env2: spec_fn(int) -> bool| #[trigger]
                    eval(nodes0, expr as int, env2) == eval(nodes0, expr as int, assign(env2, k as int, true)) by {
                    lemma_eval_agree(nodes0, expr as int, env2, assign(env2, k as int, true));
                }
                lemma_holds_subst(nodes0, quants, k + 1, k as int, false, expr as int, expr as int, env);
                lemma_holds_subst(nodes0, quants, k + 1, k as int, true, expr as int, expr as int, env);
                lemma_holds_subst(nodes0, quants, k + 1, k as int, false, expr as int, expr as int, assign(env, k as int, true));
                assert(assign(assign(env, k as int, true), k as int, false) =~= assign(env, k as int, false));
            }
        }
        return r;
    }
    if builder.len() > NODE_LIMIT {
        return Err(SolveError::CapacityExceeded);
    }
    let e0 = substitute(builder, expr, k, false);
    let ghost nodes1 = builder@;
    let r0 = solve_inner(builder, blocks, quant, remaining - 1, nb, k + 1, e0, Ghost(quants));
    let ghost nodes2 = builder@;
    let ghost g = growth(3 * len0, (d - 1) as nat);
    proof {
        lemma_growth_mono(nodes1.len(), 3 * len0, (d - 1) as nat);
        lemma_growth_ge(3 * g, (d - 1) as nat);
        assert(growth(len0, d) == growth(3 * g, (d - 1) as nat));
        assert(nodes2.len() <= g);
        lemma_extend(nodes2, nodes1);
        lemma_extend(nodes1, nodes0);
    }
    let s0 = match r0 {
        Ok(s) => s,
        Err(e) => {
            return Err(e);
        },
    };
    proof {
        assert forall|env: spec_fn(int) -> bool| #[trigger]
            holds(nodes0, quants, k + 1, expr as int, assign(env, k as int, false)) == (s0 == Solution::Sat) by {
            lemma_holds_subst(nodes1, quants, k + 1, k as int, false, expr as int, e0 as int, env);
            lemma_holds_agree_extend(nodes1, nodes0, quants, k + 1, expr as int, assign(env, k as int, false));
        }
    }
    proof {
        assert(0 <= k < quants.len());
    }
    match (quant, s0) {
        (Quantifier::ForAll, Solution::Unsat) => {
            proof {
                assert forall|env: spec_fn(int) -> bool| #[trigger]
                    holds(nodes0, quants, k as int, expr as int, env) == false by {
                    assert(!holds(nodes0, quants, k + 1, expr as int, assign(env, k as int, false)));
                }
            }
            return Ok(Solution::Unsat);
        },
        (Quantifier::Exists, Solution::Sat) => {
            proof {
                assert forall|env: spec_fn(int) -> bool| #[trigger]
                    holds(nodes0, quants, k as int, expr as int, env) == true by {
                    assert(holds(nodes0, quants, k + 1, expr as int, assign(env, k as int, false)));
                }
            }
            return Ok(Solution::Sat);
        },
        _ => {},
    }
    if builder.len() > NODE_LIMIT {
        return Err(SolveError::CapacityExceeded);
    }
    let ghost nodes2b = builder@;
    proof {
        lemma_extend(nodes2b, nodes0);
    }
    let e1 = substitute(builder, expr, k, true);
    let ghost nodes3 = builder@;
    let r1 = solve_inner(builder, blocks, quant, remaining - 1, nb, k + 1, e1, Ghost(quants));
    proof {
        lemma_growth_mono(nodes3.len(), 3 * g, (d - 1) as nat);
        lemma_extend(builder@, nodes3);
        lemma_extend(nodes3, nodes0);
        if let Ok(s1) = r1 {
            assert forall|env: spec_fn(int) -> bool| #[trigger]
                holds(nodes0, quants, k + 1, expr as int, assign(env, k as int, true)) == (s1 == Solution::Sat) by {
                lemma_holds_subst(nodes3, quants, k + 1, k as int, true, expr as int, e1 as int, env);
                lemma_holds_agree_extend(nodes3, nodes0, quants, k + 1, expr as int, assign(env, k as int, true));
            }
            assert forall|env: spec_fn(int) -> bool| #[trigger]
                holds(nodes0, quants, k as int, expr as int, env) == (s1 == Solution::Sat) by {
                assert(holds(nodes0, quants, k + 1, expr as int, assign(env, k as int, false)) == (s0 == Solution::Sat));
                assert(holds(nodes0, quants, k + 1, expr as int, assign(env, k as int, true)) == (s1 == Solution::Sat));
            }
        }
    }
    r1
}

/// Decides a last block, all of kind `quant` over the variables `k..end`, by
/// one call of the satisfiability oracle: on the matrix for `Exists`, on its
/// negation for `ForAll`.
fn oracle_leaf(
    builder: &mut Builder,
    quant: Quantifier,
    k: u32,
    end: usize,
    expr: usize,
    Ghost(quants): Ghost<Seq<Quantifier>>,
) -> (r: Result<Solution, SolveError>)
    requires
        old(builder).wf(),
        expr < old(builder)@.len(),
        old(builder)@.len() < LIT_NODES,
        end <= LIT_NODES,
        k <= end == quants.len(),
        forall|j: int| k <= j < quants.len() ==> #[trigger] quants[j] == quant,
        forall|x: int| #[trigger] mentions(old(builder)@, expr as int, x) ==> k <= x < end,
    ensures
        final(builder).wf(),
        extends(final(builder)@, old(builder)@),
        r matches Ok(s) ==> forall|env: spec_fn(int) -> bool| #[trigger]
            holds(old(builder)@, quants, k as int, expr as int, env) == (s == Solution::Sat),
        r matches Err(e) ==> e == SolveError::OracleUnknown,
        final(builder)@.len() <= old(builder)@.len() + 1,
{
    let ghost nodes0 = builder@;
    let ghost n = end as int;
    proof {
        builder.lemma_wf();
        assert forall|env: spec_fn(int) -> bool, env2: spec_fn(int) -> bool| true implies
            #[trigger] eval(nodes0, expr as int, patch(env, env2, k as int, n)) == #[trigger] eval(nodes0, expr as int, env2) by {
            lemma_eval_agree(nodes0, expr as int, patch(env, env2, k as int, n), env2);
        }
        assert forall|env: spec_fn(int) -> bool, env2: spec_fn(int) -> bool| true implies
            #[trigger] agree_outside(env, patch(env, env2, k as int, n), k as int, n) by {}
        assert forall|env: spec_fn(int) -> bool| true implies {
            &&& (quant == Quantifier::Exists ==> (holds(nodes0, quants, k as int, expr as int, env) <==> exists|env2: spec_fn(int) -> bool|
                agree_outside(env, env2, k as int, n) && #[trigger] eval(nodes0, expr as int, env2)))
            &&& (quant == Quantifier::ForAll ==> (holds(nodes0, quants, k as int, expr as int, env) <==> forall|env2: spec_fn(int) -> bool|
                agree_outside(env, env2, k as int, n) ==> #[trigger] eval(nodes0, expr as int, env2)))
        } by {
            lemma_holds_block(nodes0, quants, quant, k as int, expr as int, env);
        }
    }
    let answer = match quant {
        Quantifier::Exists => {
            let answer = oracle_satisfiable(builder, expr);
            proof {
                if answer == Some(true) {
                    let w = choose|env2: spec_fn(int) -> bool| #[trigger] eval(nodes0, expr as int, env2);
                    assert forall|env: spec_fn(int) -> bool| #[trigger] holds(nodes0, quants, k as int, expr as int, env) by {
                        assert(agree_outside(env, patch(env, w, k as int, n), k as int, n));
                        assert(eval(nodes0, expr as int, patch(env, w, k as int, n)));
                    }
                }
            }
            answer
        },
        Quantifier::ForAll => {
            let ne = builder.not(expr);
            let ghost nodes1 = builder@;
            proof {
                lemma_extend(nodes1, nodes0);
                assert forall|x: int| #[trigger] mentions(nodes1, ne as int, x) implies x < LIT_NODES by {
                    assert(mentions(nodes0, expr as int, x));
                }
                assert(small_vars(nodes1, ne as int));
            }
            let answer = oracle_satisfiable(builder, ne);
            proof {
                if answer == Some(true) {
                    let w = choose|env2: spec_fn(int) -> bool| #[trigger] eval(nodes1, ne as int, env2);
                    assert(!eval(nodes0, expr as int, w));
                    assert forall|env: spec_fn(int) -> bool| !#[trigger] holds(nodes0, quants, k as int, expr as int, env) by {
                        assert(agree_outside(env, patch(env, w, k as int, n), k as int, n));
                        assert(!eval(nodes0, expr as int, patch(env, w, k as int, n)));
                    }
                }
                if answer == Some(false) {
                    assert forall|env2: spec_fn(int) -> bool| #[trigger] eval(nodes0, expr as int, env2) by {
                        assert(!eval(nodes1, ne as int, env2));
                    }
                }
            }
            answer
        },
    };
    leaf_answer(quant, answer)
}

/// The answer of a last block of kind `quant` from the oracle's answer on
/// the matrix (for `Exists`) or on its negation (for `ForAll`): satisfiable
/// is `Sat` for `Exists` and `Unsat` for `ForAll`, unsatisfiable the other
/// way round, and no answer is `OracleUnknown`.
pub fn leaf_answer(quant: Quantifier, answer: Option<bool>) -> (r: Result<Solution, SolveError>)
    ensures
        r == match answer {
            Some(b) => Ok(if b == (quant == Quantifier::Exists) {
                Solution::Sat
            } else {
                Solution::Unsat
            }),
            None => Err(SolveError::OracleUnknown),
        },
{
    match answer {
        Some(b) => {
            let exists = match quant {
                Quantifier::Exists => true,
                Quantifier::ForAll => false,
            };
            if b == exists {
                Ok(Solution::Sat)
            } else {
                Ok(Solution::Unsat)
            }
        },
        None => Err(SolveError::OracleUnknown),
    }
}

/// `env2` on the variables `lo..hi`, `env` elsewhere.
pub open spec fn patch(env: spec_fn(int) -> bool, env2: spec_fn(int) -> bool, lo: int, hi: int) -> spec_fn(int) -> bool {
    |x: int| if lo <= x < hi { env2(x) } else { env(x) }
}

/// Adding nodes does not change the truth of a node built before.
proof fn lemma_holds_agree_extend(
    new: Seq<Exp>,
    old: Seq<Exp>,
    quants: Seq<Quantifier>,
    k: int,
    e: int,
    env: spec_fn(int) -> bool,
)
    requires
        extends(new, old),
        0 <= e < old.len(),
    ensures
        holds(new, quants, k, e, env) == holds(old, quants, k, e, env),
    decreases quants.len() - k,
{
    lemma_extend(new, old);
    if !(k >= quants.len() || k < 0) {
        lemma_holds_agree_extend(new, old, quants, k + 1, e, assign(env, k, false));
        lemma_holds_agree_extend(new, old, quants, k + 1, e, assign(env, k, true));
    }
}

/// Groups a sequence of quantifiers into maximal blocks of one kind: the kind
/// of the first block and the size of each block.
pub fn quantifier_blocks(quantifiers: &Vec<Quantifier>) -> (r: (Quantifier, Vec<u32>))
    requires
        quantifiers@.len() < u32::MAX,
    ensures
        prefix(r.0, r.1@) == quantifiers@,
        forall|i: int| 0 <= i < r.1@.len() ==> #[trigger] r.1@[i] > 0,
{
    if quantifiers.len() == 0 {
        return (Quantifier::Exists, Vec::new());
    }
    let first = quantifiers[0];
    let mut blocks: Vec<u32> = Vec::new();
    let mut current = first;
    let mut n: u32 = 1;
    let mut i: usize = 1;
    while i < quantifiers.len()
        invariant
            1 <= i <= quantifiers@.len(),
            quantifiers@.len() < u32::MAX,
            1 <= n <= i,
            forall|j: int| 0 <= j < blocks@.len() ==> #[trigger] blocks@[j] > 0,
            prefix(first, blocks@) + Seq::new(n as nat, |_j: int| current) == quantifiers@.subrange(0, i as int),
            flip_count(first, blocks@.len()) == current,
        decreases quantifiers@.len() - i,
    {
        let q = quantifiers[i];
        if q == current {
            proof {
                assert(quantifiers@.subrange(0, i + 1) =~= quantifiers@.subrange(0, i as int).push(q));
                assert(Seq::new((n + 1) as nat, |_j: int| current) =~= Seq::new(n as nat, |_j: int| current).push(current));
            }
            n = n + 1;
        } else {
            proof {
                lemma_prefix_push(first, blocks@, n);
                assert(quantifiers@.subrange(0, i + 1) =~= quantifiers@.subrange(0, i as int).push(q));
                assert(q == flip(current)) by {
                    match q {
                        Quantifier::Exists => {},
                        Quantifier::ForAll => {},
                    }
                }
                assert(Seq::new(1nat, |_j: int| q) =~= seq![q]);
            }
            blocks.push(n);
            n = 1;
            current = q;
        }
        i = i + 1;
    }
    proof {
        lemma_prefix_push(first, blocks@, n);
        assert(quantifiers@.subrange(0, i as int) =~= quantifiers@);
    }
    blocks.push(n);
    (first, blocks)
}

/// The kind of block number `n` when the first block is of kind `first`.
pub open spec fn flip_count(first: Quantifier, n: nat) -> Quantifier {
    if n % 2 == 0 {
        first
    } else {
        flip(first)
    }
}

pub proof fn lemma_prefix_push(first: Quantifier, blocks: Seq<u32>, n: u32)
    ensures
        prefix(first, blocks.push(n)) == prefix(first, blocks) + Seq::new(
            n as nat,
            |_j: int| flip_count(first, blocks.len()),
        ),
        flip_count(first, blocks.push(n).len()) == flip(flip_count(first, blocks.len())),
    decreases blocks.len(),
{
    if blocks.len() == 0 {
        assert(blocks.push(n).drop_first() =~= Seq::<u32>::empty());
        assert(blocks.push(n)[0] == n);
        assert(prefix(flip(first), Seq::<u32>::empty()) == Seq::<Quantifier>::empty());
        assert(prefix(first, blocks.push(n)) == Seq::new(n as nat, |_i: int| first) + prefix(
            flip(first),
            Seq::<u32>::empty(),
        ));
        assert(Seq::new(n as nat, |_i: int| first) =~= Seq::new(
            n as nat,
            |_j: int| flip_count(first, blocks.len()),
        ));
        assert(prefix(first, blocks.push(n)) =~= prefix(first, blocks) + Seq::new(
            n as nat,
            |_j: int| flip_count(first, blocks.len()),
        ));
    } else {
        assert(blocks.push(n).drop_first() =~= blocks.drop_first().push(n));
        assert(blocks.push(n)[0] == blocks[0]);
        lemma_prefix_push(flip(first), blocks.drop_first(), n);
        lemma_flip_count(first, (blocks.len() - 1) as nat);
        assert(flip_count(flip(first), blocks.drop_first().len()) == flip_count(first, blocks.len()));
        assert(Seq::new(n as nat, |_j: int| flip_count(flip(first), blocks.drop_first().len())) =~= Seq::new(
            n as nat,
            |_j: int| flip_count(first, blocks.len()),
        ));
        assert(prefix(first, blocks.push(n)) =~= prefix(first, blocks) + Seq::new(
            n as nat,
            |_j: int| flip_count(first, blocks.len()),
        ));
    }
}

proof fn lemma_flip_count(first: Quantifier, n: nat)
    ensures
        flip_count(flip(first), n) == flip_count(first, n + 1),
{
    match first {
        Quantifier::Exists => {},
        Quantifier::ForAll => {},
    }
}

/// Decides a formula by branching on each variable that still occurs, in
/// prefix order, and stopping a block early once its answer is settled; a
/// last block of more than `ORACLE_BLOCK` variables goes to the
/// satisfiability oracle in one call. An answer is the truth of the formula
/// under every environment of the variables that the prefix leaves free. A
/// constant matrix is answered at once. A formula whose variables are all
/// quantified always gets an answer, unless the graph outgrows `NODE_LIMIT`
/// nodes (which needs `growth` of its size over its variables to exceed
/// that limit) or, where the last block has more than `ORACLE_BLOCK`
/// variables, the oracle gives none. The formula itself is kept; its graph may grow.
pub fn solve(problem: &mut QBF) -> (r: Result<Solution, SolveError>)
    requires
        old(problem).builder.wf(),
        old(problem).expr < old(problem).builder@.len(),
        block_total(old(problem).quantifier_blocks@) < u32::MAX,
    ensures
        final(problem).builder.wf(),
        extends(final(problem).builder@, old(problem).builder@),
        final(problem).expr == old(problem).expr,
        final(problem).first_quantifier == old(problem).first_quantifier,
        final(problem).quantifier_blocks@ == old(problem).quantifier_blocks@,
        r matches Ok(s) ==> forall|env: spec_fn(int) -> bool| #[trigger]
            qbf_holds(old(problem), env) == (s == Solution::Sat),
        r matches Err(e) ==> e == SolveError::FreeVariable || e == SolveError::CapacityExceeded
            || e == SolveError::OracleUnknown,
        r == Err::<Solution, SolveError>(SolveError::FreeVariable) ==> exists|x: int|
            #[trigger] mentions(old(problem).builder@, old(problem).expr as int, x) && x >= block_total(
                old(problem).quantifier_blocks@,
            ),
        r == Err::<Solution, SolveError>(SolveError::CapacityExceeded) ==> final(problem).builder@.len()
            > NODE_LIMIT,
        final(problem).builder@.len() <= growth(
            old(problem).builder@.len(),
            block_total(old(problem).quantifier_blocks@),
        ),
        r == Err::<Solution, SolveError>(SolveError::CapacityExceeded) ==> growth(
            old(problem).builder@.len(),
            block_total(old(problem).quantifier_blocks@),
        ) > NODE_LIMIT,
        r == Err::<Solution, SolveError>(SolveError::OracleUnknown) ==> old(problem).quantifier_blocks@.len()
            > 0 && old(problem).quantifier_blocks@.last() > ORACLE_BLOCK,
        old(problem).expr == TRUE ==> r == Ok::<Solution, SolveError>(Solution::Sat),
        old(problem).expr == FALSE ==> r == Ok::<Solution, SolveError>(Solution::Unsat),
{
    let first_quantifier = problem.first_quantifier;
    let expr = problem.expr;
    let ghost quants = prefix(first_quantifier, problem.quantifier_blocks@);
    proof {
        assert forall|x: int| #[trigger] mentions(problem.builder@, expr as int, x) implies x >= 0 by {
            crate::expression::lemma_mentions_nonneg(problem.builder@, expr as int, x);
        }
        lemma_prefix_len(first_quantifier, problem.quantifier_blocks@);
        assert(problem.quantifier_blocks@.subrange(0, problem.quantifier_blocks@.len() as int) =~= problem.quantifier_blocks@);
        assert(quants.subrange(0, quants.len() as int) =~= rest(flip(first_quantifier), 0, problem.quantifier_blocks@, 0));
        assert(flip(flip(first_quantifier)) == first_quantifier);
    }
    solve_inner(
        &mut problem.builder,
        &problem.quantifier_blocks,
        opposite_quantifier(first_quantifier),
        0,
        0,
        0,
        expr,
        Ghost(quants),
    )
}

} // verus!
