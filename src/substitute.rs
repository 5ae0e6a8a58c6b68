//! Replacing one variable by a constant throughout an expression graph.
use vstd::prelude::*;
use crate::expression::{
    and_spec, eval, extends, graph_wf, lemma_and_spec_extend, lemma_eval_agree, lemma_extend, mentions,
    not_shape, reduced_at, Builder, Exp, FALSE, TRUE,
};

verus! {

/// The environment `env` with variable `v` set to `value`.
pub open spec fn assign(env: spec_fn(int) -> bool, v: int, value: bool) -> spec_fn(int) -> bool {
    |x: int| if x == v { value } else { env(x) }
}

/// `r` is node `i` with variable `v` set to `value`: same value under every
/// environment, no occurrence of `v`, `i` itself where `v` did not occur,
/// and the constant `value` where `i` is the variable.
pub open spec fn substituted(nodes: Seq<Exp>, i: int, v: int, value: bool, r: int) -> bool {
    &&& 0 <= r < nodes.len()
    &&& forall|env: spec_fn(int) -> bool| #[trigger]
        eval(nodes, r, env) == eval(nodes, i, assign(env, v, value))
    &&& forall|x: int| #[trigger] mentions(nodes, r, x) ==> mentions(nodes, i, x) && x != v
    &&& (!mentions(nodes, i, v) ==> r == i)
    &&& (nodes[i] matches Exp::Var(n) && n == v ==> r == if value {
        TRUE as int
    } else {
        FALSE as int
    })
}

/// How `r` is rebuilt from node `i`, which mentions `v`: a negation is the
/// negation (as `not` gives it) of its substituted operand; a conjunction
/// is false where its first operand substitutes to false, and otherwise the
/// conjunction (as `and` gives it) of its substituted operands.
pub open spec fn subst_step(nodes: Seq<Exp>, i: int, v: int, value: bool, r: int) -> bool {
    &&& (mentions(nodes, i, v) && nodes[i] is Not) ==> exists|a1: int|
        #[trigger] substituted(nodes, nodes[i]->Not_0 as int, v, value, a1) && not_shape(nodes, a1, nodes, r)
    &&& (mentions(nodes, i, v) && nodes[i] is And) ==> exists|a1: int|
        #[trigger] substituted(nodes, nodes[i]->And_0 as int, v, value, a1) && (a1 == FALSE ==> r == FALSE)
            && (a1 != FALSE ==> exists|b1: int|
            #[trigger] substituted(nodes, nodes[i]->And_1 as int, v, value, b1) && and_spec(nodes, a1, b1, r))
}

/// A slot of the memo table that holds no result yet.
const EMPTY: usize = usize::MAX;

spec fn filled(s: Seq<usize>) -> nat
    decreases s.len(),
{
    if s.len() == 0 {
        0
    } else {
        filled(s.drop_last()) + if s.last() != EMPTY {
            1nat
        } else {
            0nat
        }
    }
}

proof fn lemma_filled_update(s: Seq<usize>, i: int, x: usize)
    requires
        0 <= i < s.len(),
        s[i] == EMPTY,
        x != EMPTY,
    ensures
        filled(s.update(i, x)) == filled(s) + 1,
    decreases s.len(),
{
    let t = s.update(i, x);
    if i < s.len() - 1 {
        assert(t.drop_last() == s.drop_last().update(i, x));
        lemma_filled_update(s.drop_last(), i, x);
    } else {
        assert(t.drop_last() == s.drop_last());
    }
}

proof fn lemma_filled_bound(s: Seq<usize>, i: int)
    requires
        0 <= i < s.len(),
        s[i] == EMPTY,
    ensures
        filled(s) < s.len(),
    decreases s.len(),
{
    lemma_filled_le(s.drop_last());
    if i < s.len() - 1 {
        lemma_filled_bound(s.drop_last(), i);
    }
}

proof fn lemma_filled_le(s: Seq<usize>)
    ensures
        filled(s) <= s.len(),
    decreases s.len(),
{
    if s.len() > 0 {
        lemma_filled_le(s.drop_last());
    }
}

pub proof fn lemma_substituted_extend(new: Seq<Exp>, old: Seq<Exp>, i: int, v: int, value: bool, r: int)
    requires
        extends(new, old),
        0 <= i < old.len(),
        substituted(old, i, v, value, r),
    ensures
        substituted(new, i, v, value, r),
{
    lemma_extend(new, old);
    assert forall|env: spec_fn(int) -> bool| #[trigger]
        eval(new, r, env) == eval(new, i, assign(env, v, value)) by {
        assert(eval(old, r, env) == eval(old, i, assign(env, v, value)));
    }
    assert forall|x: int| #[trigger] mentions(new, r, x) implies mentions(new, i, x) && x != v by {
        assert(mentions(old, r, x) ==> mentions(old, i, x) && x != v);
    }
    assert(new[i] == old[i]);
}

pub proof fn lemma_subst_step_extend(new: Seq<Exp>, old: Seq<Exp>, i: int, v: int, value: bool, r: int)
    requires
        graph_wf(old),
        extends(new, old),
        0 <= i < old.len(),
        0 <= r < old.len(),
        subst_step(old, i, v, value, r),
    ensures
        subst_step(new, i, v, value, r),
{
    lemma_extend(new, old);
    assert(new[i] == old[i]);
    assert(reduced_at(old, i));
    if mentions(new, i, v) && new[i] is Not {
        assert(mentions(old, i, v));
        let a = old[i]->Not_0 as int;
        let a1 = choose|a1: int| #[trigger] substituted(old, a, v, value, a1) && not_shape(old, a1, old, r);
        lemma_substituted_extend(new, old, a, v, value, a1);
        assert(new[a1] == old[a1]);
        assert(new[r] == old[r]);
        assert(substituted(new, new[i]->Not_0 as int, v, value, a1) && not_shape(new, a1, new, r));
    }
    if mentions(new, i, v) && new[i] is And {
        let a = old[i]->And_0 as int;
        let b = old[i]->And_1 as int;
        assert(mentions(old, i, v));
        let a1 = choose|a1: int|
            #[trigger] substituted(old, a, v, value, a1) && (a1 == FALSE ==> r == FALSE) && (a1 != FALSE
                ==> exists|b1: int| #[trigger] substituted(old, b, v, value, b1) && and_spec(old, a1, b1, r));
        lemma_substituted_extend(new, old, a, v, value, a1);
        if a1 != FALSE {
            let b1 = choose|b1: int| #[trigger] substituted(old, b, v, value, b1) && and_spec(old, a1, b1, r);
            lemma_substituted_extend(new, old, b, v, value, b1);
            lemma_and_spec_extend(new, old, a1, b1, r);
            assert(substituted(new, new[i]->And_1 as int, v, value, b1) && and_spec(new, a1, b1, r));
        }
        assert(substituted(new, new[i]->And_0 as int, v, value, a1));
    }
}

/// The memo table holds, for each slot that is filled, the substituted node.
spec fn memo_ok(nodes: Seq<Exp>, memo: Seq<usize>, v: int, value: bool) -> bool {
    &&& memo.len() <= nodes.len()
    &&& forall|i: int|
        0 <= i < memo.len() && #[trigger] memo[i] != EMPTY ==> substituted(nodes, i, v, value, memo[i] as int)
            && subst_step(nodes, i, v, value, memo[i] as int)
}

fn substitute_inner(
    builder: &mut Builder,
    memo: &mut Vec<usize>,
    e: usize,
    variable: u32,
    value: bool,
    Ghost(base): Ghost<nat>,
) -> (r: usize)
    requires
        old(builder).wf(),
        e < old(memo)@.len(),
        memo_ok(old(builder)@, old(memo)@, variable as int, value),
        old(builder)@.len() <= base + 2 * filled(old(memo)@),
        base + 2 * old(memo)@.len() + 2 < usize::MAX,
    ensures
        final(builder).wf(),
        extends(final(builder)@, old(builder)@),
        final(builder).remembers(*old(builder)),
        final(memo)@.len() == old(memo)@.len(),
        forall|j: int| e < j < old(memo)@.len() ==> #[trigger] final(memo)@[j] == old(memo)@[j],
        memo_ok(final(builder)@, final(memo)@, variable as int, value),
        final(builder)@.len() <= base + 2 * filled(final(memo)@),
        substituted(final(builder)@, e as int, variable as int, value, r as int),
        subst_step(final(builder)@, e as int, variable as int, value, r as int),
        old(memo)@[e as int] != EMPTY && mentions(old(builder)@, e as int, variable as int) ==> r
            == old(memo)@[e as int],
    decreases e,
{
    let ghost nodes0 = builder@;
    let ghost b0 = *builder;
    if !builder.has_var(e, variable) {
        proof {
            assert forall|env: spec_fn(int) -> bool| #[trigger]
                eval(nodes0, e as int, env) == eval(nodes0, e as int, assign(env, variable as int, value)) by {
                lemma_eval_agree(nodes0, e as int, env, assign(env, variable as int, value));
            }
            builder.lemma_remembers_self();
        }
        return e;
    }
    let ghost mut pre = nodes0;
    let m = memo[e];
    if m != EMPTY {
        proof {
            builder.lemma_remembers_self();
        }
        return m;
    }
    proof {
        builder.lemma_wf();
        assert(reduced_at(nodes0, e as int));
        lemma_filled_bound(memo@, e as int);
    }
    let r = match builder.node(e) {
        Exp::Var(n) => {
            proof {
                assert(n == variable);
            }
            proof {
                builder.lemma_remembers_self();
            }
            if value {
                TRUE
            } else {
                FALSE
            }
        },
        Exp::Not(a) => {
            let a1 = substitute_inner(builder, memo, a, variable, value, Ghost(base));
            let ghost nodes1 = builder@;
            proof {
                lemma_filled_bound(memo@, e as int);
                lemma_extend(nodes1, nodes0);
                builder.lemma_wf();
                pre = nodes1;
            }
            let ghost b1 = *builder;
            let r = builder.not(a1);
            proof {
                builder.lemma_remembers_trans(b1, b0);
                lemma_substituted_extend(builder@, nodes1, a as int, variable as int, value, a1 as int);
                assert(builder@[a1 as int] == nodes1[a1 as int]);
                assert(not_shape(builder@, a1 as int, builder@, r as int));
                assert(substituted(builder@, builder@[e as int]->Not_0 as int, variable as int, value, a1 as int));
                lemma_extend(builder@, nodes1);
                lemma_extend(builder@, nodes0);
                assert forall|env: spec_fn(int) -> bool| #[trigger]
                    eval(builder@, r as int, env) == eval(builder@, e as int, assign(env, variable as int, value)) by {
                    assert(eval(nodes1, a1 as int, env) == eval(nodes1, a as int, assign(env, variable as int, value)));
                }
                assert forall|x: int| #[trigger] mentions(builder@, r as int, x) implies mentions(
                    builder@,
                    e as int,
                    x,
                ) && x != variable by {
                    assert(mentions(nodes1, a1 as int, x) ==> mentions(nodes1, a as int, x) && x != variable);
                }
            }
            r
        },
        Exp::And(a, b) => {
            let a1 = substitute_inner(builder, memo, a, variable, value, Ghost(base));
            let ghost nodes1 = builder@;
            proof {
                lemma_filled_bound(memo@, e as int);
                lemma_extend(nodes1, nodes0);
                builder.lemma_wf();
                pre = nodes1;
            }
            if a1 == FALSE {
                proof {
                    assert(substituted(nodes1, nodes1[e as int]->And_0 as int, variable as int, value, a1 as int));
                    assert forall|env: spec_fn(int) -> bool| #[trigger]
                        eval(nodes1, FALSE as int, env) == eval(nodes1, e as int, assign(env, variable as int, value)) by {
                        assert(eval(nodes1, a1 as int, env) == eval(nodes1, a as int, assign(env, variable as int, value)));
                    }
                }
                FALSE
            } else {
                let ghost bb1 = *builder;
                let b1 = substitute_inner(builder, memo, b, variable, value, Ghost(base));
                let ghost nodes2 = builder@;
                proof {
                    builder.lemma_remembers_trans(bb1, b0);
                    lemma_filled_bound(memo@, e as int);
                    lemma_extend(nodes2, nodes1);
                    lemma_extend(nodes2, nodes0);
                    lemma_substituted_extend(nodes2, nodes1, a as int, variable as int, value, a1 as int);
                    builder.lemma_wf();
                    pre = nodes2;
                }
                let ghost bb2 = *builder;
                let r = builder.and(a1, b1);
                proof {
                    builder.lemma_remembers_trans(bb2, b0);
                    lemma_extend(builder@, nodes2);
                    lemma_extend(builder@, nodes0);
                    lemma_substituted_extend(builder@, nodes2, a as int, variable as int, value, a1 as int);
                    lemma_substituted_extend(builder@, nodes2, b as int, variable as int, value, b1 as int);
                    assert(substituted(builder@, builder@[e as int]->And_1 as int, variable as int, value, b1 as int)
                        && and_spec(builder@, a1 as int, b1 as int, r as int));
                    assert(substituted(builder@, builder@[e as int]->And_0 as int, variable as int, value, a1 as int));
                    assert forall|env: spec_fn(int) -> bool| #[trigger]
                        eval(builder@, r as int, env) == eval(builder@, e as int, assign(env, variable as int, value)) by {
                        assert(eval(nodes2, a1 as int, env) == eval(nodes2, a as int, assign(env, variable as int, value)));
                        assert(eval(nodes2, b1 as int, env) == eval(nodes2, b as int, assign(env, variable as int, value)));
                    }
                    assert forall|x: int| #[trigger] mentions(builder@, r as int, x) implies mentions(
                        builder@,
                        e as int,
                        x,
                    ) && x != variable by {
                        assert(mentions(nodes2, a1 as int, x) ==> mentions(nodes2, a as int, x) && x != variable);
                        assert(mentions(nodes2, b1 as int, x) ==> mentions(nodes2, b as int, x) && x != variable);
                    }
                }
                r
            }
        },
        _ => {
            proof {
                builder.lemma_remembers_self();
            }
            e
        },
    };
    let ghost nodes3 = builder@;
    proof {
        lemma_extend(nodes3, nodes0);
        assert(memo@[e as int] == EMPTY);
        lemma_filled_update(memo@, e as int, r);
        assert forall|i: int|
            0 <= i < memo@.len() && #[trigger] memo@[i] != EMPTY implies substituted(
            nodes3,
            i,
            variable as int,
            value,
            memo@[i] as int,
        ) by {
            assert(memo_ok(pre, memo@, variable as int, value));
            lemma_substituted_extend(nodes3, pre, i, variable as int, value, memo@[i] as int);
        }
        assert forall|i: int|
            0 <= i < memo@.len() && #[trigger] memo@[i] != EMPTY implies subst_step(
            nodes3,
            i,
            variable as int,
            value,
            memo@[i] as int,
        ) by {
            assert(memo_ok(pre, memo@, variable as int, value));
            lemma_subst_step_extend(nodes3, pre, i, variable as int, value, memo@[i] as int);
        }
    }
    memo.set(e, r);
    r
}

/// Replaces variable `variable` by the constant `value` throughout the graph
/// below `expr`, simplifying as it rebuilds; each shared node is rebuilt once,
/// adding at most two nodes.
/// Where the variable does not occur, `expr` itself comes back and the
/// builder is left as it was; the variable itself becomes the constant; a
/// negation or conjunction becomes what `not` or `and` give on its
/// substituted operands (false at once where the first operand of a
/// conjunction substitutes to false).
pub fn substitute(builder: &mut Builder, expr: usize, variable: u32, value: bool) -> (r: usize)
    requires
        old(builder).wf(),
        expr < old(builder)@.len(),
        3 * old(builder)@.len() + 2 < usize::MAX,
    ensures
        final(builder).wf(),
        extends(final(builder)@, old(builder)@),
        final(builder)@.len() <= 3 * old(builder)@.len(),
        final(builder).remembers(*old(builder)),
        r < final(builder)@.len(),
        forall|env: spec_fn(int) -> bool| #[trigger]
            eval(final(builder)@, r as int, env) == eval(
                old(builder)@,
                expr as int,
                assign(env, variable as int, value),
            ),
        forall|x: int| #[trigger]
            mentions(final(builder)@, r as int, x) ==> mentions(old(builder)@, expr as int, x) && x
                != variable,
        !mentions(old(builder)@, expr as int, variable as int) ==> r == expr && final(builder)@
            == old(builder)@,
        substituted(final(builder)@, expr as int, variable as int, value, r as int),
        subst_step(final(builder)@, expr as int, variable as int, value, r as int),
{
    if !builder.has_var(expr, variable) {
        proof {
            builder.lemma_remembers_self();
            assert forall|env: spec_fn(int) -> bool| #[trigger]
                eval(builder@, expr as int, env) == eval(builder@, expr as int, assign(env, variable as int, value)) by {
                lemma_eval_agree(builder@, expr as int, env, assign(env, variable as int, value));
            }
        }
        return expr;
    }
    let ghost nodes0 = builder@;
    let n = builder.len();
    let mut memo: Vec<usize> = Vec::new();
    let mut i: usize = 0;
    while i < n
        invariant
            i <= n,
            n == builder@.len(),
            memo@.len() == i,
            forall|j: int| 0 <= j < i ==> #[trigger] memo@[j] == EMPTY,
        decreases n - i,
    {
        memo.push(EMPTY);
        i = i + 1;
    }
    proof {
        assert(filled(memo@) == 0) by {
            lemma_filled_zero(memo@);
        }
    }
    let r = substitute_inner(builder, &mut memo, expr, variable, value, Ghost(n as nat));
    proof {
        lemma_filled_le(memo@);
        lemma_extend(builder@, nodes0);
        assert(mentions(nodes0, expr as int, variable as int));
        assert forall|env: spec_fn(int) -> bool| #[trigger]
            eval(builder@, r as int, env) == eval(nodes0, expr as int, assign(env, variable as int, value)) by {
            assert(eval(builder@, r as int, env) == eval(builder@, expr as int, assign(env, variable as int, value)));
        }
    }
    r
}

proof fn lemma_filled_zero(s: Seq<usize>)
    requires
        forall|j: int| 0 <= j < s.len() ==> #[trigger] s[j] == EMPTY,
    ensures
        filled(s) == 0,
    decreases s.len(),
{
    if s.len() > 0 {
        lemma_filled_zero(s.drop_last());
    }
}

} // verus!
