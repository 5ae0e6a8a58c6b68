//! Laws that relate calls of the library's functions to one another.
use vstd::prelude::*;
use crate::cnf::satisfiable;
use crate::expression::{eval, graph_wf, lemma_eval_agree, mentions, Exp};
use crate::solver::{
    agree_outside, flip, holds, lemma_holds_block, patch, prefix, qbf_holds, Quantifier, Solution, QBF,
};
use crate::substitute::assign;

verus! {

/// Substituting the same constant for the same variable a second time
/// changes nothing: by the contract of `substitute`, the first result no
/// longer mentions the variable, so the second call returns it unchanged and
/// leaves the graph as it was.
pub proof fn lemma_substitute_idempotent(
    before: Seq<Exp>,
    after_first: Seq<Exp>,
    after_second: Seq<Exp>,
    e: int,
    v: int,
    r1: int,
    r2: int,
)
    requires
        forall|x: int| #[trigger] mentions(after_first, r1, x) ==> mentions(before, e, x) && x != v,
        !mentions(after_first, r1, v) ==> r2 == r1 && after_second == after_first,
    ensures
        !mentions(after_first, r1, v),
        r2 == r1,
        after_second == after_first,
{
}

/// With no alternation the two routes agree: the clauses that encode a
/// matrix over the variables `0..n` are satisfiable exactly when binding
/// those variables as one existential block makes the matrix true.
pub proof fn lemma_oracle_agrees_with_enumeration(
    nodes: Seq<Exp>,
    e: int,
    n: nat,
    clauses: Seq<Seq<i32>>,
    env: spec_fn(int) -> bool,
)
    requires
        graph_wf(nodes),
        0 <= e < nodes.len(),
        forall|x: int| #[trigger] mentions(nodes, e, x) ==> 0 <= x < n,
        satisfiable(clauses) == exists|env2: spec_fn(int) -> bool| #[trigger] eval(nodes, e, env2),
    ensures
        satisfiable(clauses) == holds(nodes, Seq::new(n, |_i: int| Quantifier::Exists), 0, e, env),
{
    let quants = Seq::new(n, |_i: int| Quantifier::Exists);
    lemma_holds_block(nodes, quants, Quantifier::Exists, 0, e, env);
    if exists|env2: spec_fn(int) -> bool| #[trigger] eval(nodes, e, env2) {
        let w = choose|env2: spec_fn(int) -> bool| #[trigger] eval(nodes, e, env2);
        let p = patch(env, w, 0, n as int);
        lemma_eval_agree(nodes, e, p, w);
        assert(agree_outside(env, p, 0, n as int));
        assert(eval(nodes, e, p));
    }
}

/// The block solver and the expansion solver agree on every formula that
/// both decide: each returns the truth of the formula.
pub proof fn lemma_strategies_agree(problem: &QBF, by_blocks: Solution, by_expansion: Solution)
    requires
        forall|env: spec_fn(int) -> bool| #[trigger] qbf_holds(problem, env) == (by_blocks == Solution::Sat),
        forall|env: spec_fn(int) -> bool| #[trigger] qbf_holds(problem, env) == (by_expansion == Solution::Sat),
    ensures
        by_blocks == by_expansion,
{
    let env = |x: int| false;
    assert(qbf_holds(problem, env) == (by_blocks == Solution::Sat));
    match by_blocks {
        Solution::Sat => {},
        Solution::Unsat => {},
    }
    match by_expansion {
        Solution::Sat => {},
        Solution::Unsat => {},
    }
}

proof fn lemma_prefix_flip(first: Quantifier, blocks: Seq<u32>)
    ensures
        prefix(flip(first), blocks).len() == prefix(first, blocks).len(),
        forall|i: int| 0 <= i < prefix(first, blocks).len() ==> #[trigger] prefix(flip(first), blocks)[i] == flip(
            prefix(first, blocks)[i],
        ),
    decreases blocks.len(),
{
    if blocks.len() > 0 {
        lemma_prefix_flip(flip(first), blocks.drop_first());
        assert(flip(flip(first)) == first) by {
            match first {
                Quantifier::Exists => {},
                Quantifier::ForAll => {},
            }
        }
    }
}

proof fn lemma_holds_negated(
    n1: Seq<Exp>,
    q1: Seq<Quantifier>,
    e1: int,
    n2: Seq<Exp>,
    q2: Seq<Quantifier>,
    e2: int,
    k: int,
    env: spec_fn(int) -> bool,
)
    requires
        q2.len() == q1.len(),
        forall|i: int| 0 <= i < q1.len() ==> #[trigger] q2[i] == flip(q1[i]),
        forall|env2: spec_fn(int) -> bool| #[trigger] eval(n2, e2, env2) == !eval(n1, e1, env2),
    ensures
        holds(n2, q2, k, e2, env) == !holds(n1, q1, k, e1, env),
    decreases q1.len() - k,
{
    if !(k >= q1.len() || k < 0) {
        lemma_holds_negated(n1, q1, e1, n2, q2, e2, k + 1, assign(env, k, false));
        lemma_holds_negated(n1, q1, e1, n2, q2, e2, k + 1, assign(env, k, true));
        assert(q2[k] == flip(q1[k]));
    }
}

/// Negating the matrix and flipping every quantifier flips the answer:
/// where both formulas are answered, one is `Sat` exactly when the other is
/// `Unsat`.
pub proof fn lemma_flip_answer(p: &QBF, p2: &QBF, s1: Solution, s2: Solution)
    requires
        p2.first_quantifier == flip(p.first_quantifier),
        p2.quantifier_blocks@ == p.quantifier_blocks@,
        forall|env: spec_fn(int) -> bool| #[trigger]
            eval(p2.builder@, p2.expr as int, env) == !eval(p.builder@, p.expr as int, env),
        forall|env: spec_fn(int) -> bool| #[trigger] qbf_holds(p, env) == (s1 == Solution::Sat),
        forall|env: spec_fn(int) -> bool| #[trigger] qbf_holds(p2, env) == (s2 == Solution::Sat),
    ensures
        (s2 == Solution::Sat) == (s1 == Solution::Unsat),
{
    let env = |x: int| false;
    lemma_prefix_flip(p.first_quantifier, p.quantifier_blocks@);
    lemma_holds_negated(
        p.builder@,
        prefix(p.first_quantifier, p.quantifier_blocks@),
        p.expr as int,
        p2.builder@,
        prefix(p2.first_quantifier, p2.quantifier_blocks@),
        p2.expr as int,
        0,
        env,
    );
    assert(qbf_holds(p, env) == (s1 == Solution::Sat));
    assert(qbf_holds(p2, env) == (s2 == Solution::Sat));
    match s1 {
        Solution::Sat => {},
        Solution::Unsat => {},
    }
    match s2 {
        Solution::Sat => {},
        Solution::Unsat => {},
    }
}

} // verus!
