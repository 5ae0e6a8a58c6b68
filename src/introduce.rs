//! Building the formula that a parsed problem describes, over the expression
//! graph.
use vstd::prelude::*;
use crate::expression::{
    and_spec, eval, extends, graph_wf, lemma_and_spec_extend, lemma_extend, not_shape, Builder, Exp, FALSE,
    TRUE,
};
use crate::parser::{Expression, Literal, Problem};
use crate::solver::{prefix, quantifier_blocks, Quantifier, QBF};

verus! {

/// The value bound last to `name`, if any.
pub open spec fn lookup(bind: Seq<(Seq<char>, bool)>, name: Seq<char>) -> Option<bool>
    decreases bind.len(),
{
    if bind.len() == 0 {
        None
    } else if bind.last().0 == name {
        Some(bind.last().1)
    } else {
        lookup(bind.drop_last(), name)
    }
}

pub open spec fn literal_value(bind: Seq<(Seq<char>, bool)>, l: Literal) -> Option<bool> {
    match lookup(bind, l.var@) {
        Some(v) => Some(v == l.polarity),
        None => None,
    }
}

pub open spec fn expression_value(bind: Seq<(Seq<char>, bool)>, e: Expression) -> Option<bool> {
    match e {
        Expression::True => Some(true),
        Expression::False => Some(false),
        Expression::Not(a) => match literal_value(bind, a) {
            Some(v) => Some(!v),
            None => None,
        },
        Expression::Lit(a) => literal_value(bind, a),
        Expression::And(a, b) => match (literal_value(bind, a), literal_value(bind, b)) {
            (Some(x), Some(y)) => Some(x && y),
            _ => None,
        },
        Expression::Or(a, b) => match (literal_value(bind, a), literal_value(bind, b)) {
            (Some(x), Some(y)) => Some(x || y),
            _ => None,
        },
    }
}

/// The bindings after the first `j` statements, with quantified variable `i`
/// given the value `env(i)`; `None` once a statement names something unbound.
pub open spec fn run(p: Problem, j: nat, env: spec_fn(int) -> bool) -> Option<Seq<(Seq<char>, bool)>>
    decreases j,
{
    if j == 0 {
        Some(Seq::new(p.quantifiers@.len(), |i: int| (p.quantifiers@[i].1@, env(i))))
    } else {
        match run(p, (j - 1) as nat, env) {
            Some(b) => match expression_value(b, p.statements@[j - 1].exp) {
                Some(v) => Some(b.push((p.statements@[j - 1].name@, v))),
                None => None,
            },
            None => None,
        }
    }
}

/// The value of the output literal after all statements.
pub open spec fn program_value(p: Problem, env: spec_fn(int) -> bool) -> Option<bool> {
    match run(p, p.statements@.len(), env) {
        Some(b) => literal_value(b, p.output),
        None => None,
    }
}

proof fn lemma_run_none(p: Problem, j: nat, m: nat, env: spec_fn(int) -> bool)
    requires
        j <= m,
        run(p, j, env) is None,
    ensures
        run(p, m, env) is None,
    decreases m,
{
    if j < m {
        lemma_run_none(p, j, (m - 1) as nat, env);
    }
}

/// The names and node handles of a list of bindings.
pub open spec fn handles(b: Seq<(String, usize)>) -> Seq<(Seq<char>, int)> {
    b.map_values(|p: (String, usize)| (p.0@, p.1 as int))
}

/// The handle bound last to `name`, if any.
pub open spec fn bound(hs: Seq<(Seq<char>, int)>, name: Seq<char>) -> Option<int>
    decreases hs.len(),
{
    if hs.len() == 0 {
        None
    } else if hs.last().0 == name {
        Some(hs.last().1)
    } else {
        bound(hs.drop_last(), name)
    }
}

/// `h` is the node of literal `l`: the node bound to its name, or that
/// node's negation as `not` gives it.
pub open spec fn literal_is(nodes: Seq<Exp>, hs: Seq<(Seq<char>, int)>, l: Literal, h: int) -> bool {
    match bound(hs, l.var@) {
        Some(x) => 0 <= x < nodes.len() && 0 <= h < nodes.len() && if l.polarity {
            h == x
        } else {
            not_shape(nodes, x, nodes, h)
        },
        None => false,
    }
}

/// `h` is the node built for the right-hand side `e`: a constant, the node
/// of a literal, the negation (as `not` gives it) of a literal's node, the
/// conjunction (as `and` gives it) of two literals' nodes, or a node with
/// the value of the disjunction of two literals' nodes.
pub open spec fn expression_is(nodes: Seq<Exp>, hs: Seq<(Seq<char>, int)>, e: Expression, h: int) -> bool {
    match e {
        Expression::True => h == TRUE,
        Expression::False => h == FALSE,
        Expression::Lit(a) => literal_is(nodes, hs, a, h),
        Expression::Not(a) => 0 <= h < nodes.len() && exists|x: int|
            #[trigger] literal_is(nodes, hs, a, x) && not_shape(nodes, x, nodes, h),
        Expression::And(a, b) => exists|x: int, y: int|
            #[trigger] literal_is(nodes, hs, a, x) && #[trigger] literal_is(nodes, hs, b, y) && and_spec(nodes, x, y, h),
        Expression::Or(a, b) => exists|x: int, y: int|
            #[trigger] literal_is(nodes, hs, a, x) && #[trigger] literal_is(nodes, hs, b, y) && 0 <= h < nodes.len()
                && forall|env: spec_fn(int) -> bool| #[trigger]
                eval(nodes, h, env) == (eval(nodes, x, env) || eval(nodes, y, env)),
    }
}

/// The bindings `hs` after the first `j` statements: quantified name `i` is
/// bound to a node `Var(i)`, and each statement's name to the node built for
/// its right-hand side from the bindings before it.
pub open spec fn binds(nodes: Seq<Exp>, p: Problem, j: nat, hs: Seq<(Seq<char>, int)>) -> bool
    decreases j,
{
    if j == 0 {
        &&& hs.len() == p.quantifiers@.len()
        &&& forall|i: int|
            0 <= i < hs.len() ==> #[trigger] hs[i].0 == p.quantifiers@[i].1@ && 0 <= hs[i].1 < nodes.len()
                && nodes[hs[i].1] == Exp::Var(i as u32)
    } else {
        &&& hs.len() > 0
        &&& binds(nodes, p, (j - 1) as nat, hs.drop_last())
        &&& hs.last().0 == p.statements@[j - 1].name@
        &&& expression_is(nodes, hs.drop_last(), p.statements@[j - 1].exp, hs.last().1)
    }
}

proof fn lemma_literal_is_extend(new: Seq<Exp>, old: Seq<Exp>, hs: Seq<(Seq<char>, int)>, l: Literal, h: int)
    requires
        extends(new, old),
        literal_is(old, hs, l, h),
    ensures
        literal_is(new, hs, l, h),
{
    let x = bound(hs, l.var@)->0;
    assert(new[x] == old[x]);
    assert(new[h] == old[h]);
}

proof fn lemma_expression_is_extend(new: Seq<Exp>, old: Seq<Exp>, hs: Seq<(Seq<char>, int)>, e: Expression, h: int)
    requires
        graph_wf(old),
        extends(new, old),
        expression_is(old, hs, e, h),
    ensures
        expression_is(new, hs, e, h),
{
    lemma_extend(new, old);
    match e {
        Expression::Lit(a) => {
            lemma_literal_is_extend(new, old, hs, a, h);
        },
        Expression::Not(a) => {
            let x = choose|x: int| #[trigger] literal_is(old, hs, a, x) && not_shape(old, x, old, h);
            lemma_literal_is_extend(new, old, hs, a, x);
            assert(new[x] == old[x]);
            assert(new[h] == old[h]);
            assert(literal_is(new, hs, a, x) && not_shape(new, x, new, h));
        },
        Expression::And(a, b) => {
            let (x, y) = choose|x: int, y: int|
                #[trigger] literal_is(old, hs, a, x) && #[trigger] literal_is(old, hs, b, y) && and_spec(old, x, y, h);
            lemma_literal_is_extend(new, old, hs, a, x);
            lemma_literal_is_extend(new, old, hs, b, y);
            lemma_and_spec_extend(new, old, x, y, h);
            assert(literal_is(new, hs, a, x) && literal_is(new, hs, b, y) && and_spec(new, x, y, h));
        },
        Expression::Or(a, b) => {
            let (x, y) = choose|x: int, y: int|
                #[trigger] literal_is(old, hs, a, x) && #[trigger] literal_is(old, hs, b, y) && 0 <= h < old.len()
                    && forall|env: spec_fn(int) -> bool| #[trigger]
                    eval(old, h, env) == (eval(old, x, env) || eval(old, y, env));
            lemma_literal_is_extend(new, old, hs, a, x);
            lemma_literal_is_extend(new, old, hs, b, y);
            assert forall|env: spec_fn(int) -> bool| #[trigger]
                eval(new, h, env) == (eval(new, x, env) || eval(new, y, env)) by {
                assert(eval(old, h, env) == (eval(old, x, env) || eval(old, y, env)));
            }
            assert(literal_is(new, hs, a, x) && literal_is(new, hs, b, y));
        },
        _ => {},
    }
}

proof fn lemma_binds_extend(new: Seq<Exp>, old: Seq<Exp>, p: Problem, j: nat, hs: Seq<(Seq<char>, int)>)
    requires
        graph_wf(old),
        extends(new, old),
        binds(old, p, j, hs),
    ensures
        binds(new, p, j, hs),
    decreases j,
{
    if j == 0 {
        assert forall|i: int| 0 <= i < hs.len() implies #[trigger] hs[i].0 == p.quantifiers@[i].1@ && 0
            <= hs[i].1 < new.len() && new[hs[i].1] == Exp::Var(i as u32) by {
            assert(hs[i].0 == p.quantifiers@[i].1@);
            assert(new[hs[i].1] == old[hs[i].1]);
        }
    } else {
        lemma_binds_extend(new, old, p, (j - 1) as nat, hs.drop_last());
        lemma_expression_is_extend(new, old, hs.drop_last(), p.statements@[j - 1].exp, hs.last().1);
    }
}

/// The bindings that the handles in `bindings` stand for under `env`.
spec fn values(builder: Seq<Exp>, bindings: Seq<(String, usize)>, env: spec_fn(int) -> bool) -> Seq<(Seq<char>, bool)> {
    Seq::new(bindings.len(), |i: int| (bindings[i].0@, eval(builder, bindings[i].1 as int, env)))
}

/// The position of the last binding of `name` among the first `n`.
fn find(bindings: &Vec<(String, usize)>, n: usize, name: &String) -> (r: Option<usize>)
    requires
        n <= bindings@.len(),
    ensures
        r matches Some(i) ==> i < n,
        r matches Some(i) ==> bound(handles(bindings@.subrange(0, n as int)), name@) == Some(
            bindings@[i as int].1 as int,
        ),
        r is None ==> bound(handles(bindings@.subrange(0, n as int)), name@) is None,
        forall|bind: Seq<(Seq<char>, bool)>|
            bind.len() == n && (forall|j: int| 0 <= j < n ==> #[trigger] bind[j].0 == bindings@[j].0@)
                ==> #[trigger] lookup(bind, name@) == match r {
                Some(i) => Some(bind[i as int].1),
                None => None,
            },
    decreases n,
{
    let ghost hs = handles(bindings@.subrange(0, n as int));
    proof {
        if n > 0 {
            assert(hs.last() == (bindings@[n - 1].0@, bindings@[n - 1].1 as int));
            assert(hs.drop_last() =~= handles(bindings@.subrange(0, n - 1)));
        }
    }
    if n == 0 {
        return None;
    }
    if bindings[n - 1].0 == *name {
        Some(n - 1)
    } else {
        let r = find(bindings, n - 1, name);
        proof {
            assert forall|bind: Seq<(Seq<char>, bool)>|
                bind.len() == n && (forall|j: int| 0 <= j < n ==> #[trigger] bind[j].0 == bindings@[j].0@)
                    implies #[trigger] lookup(bind, name@) == match r {
                    Some(i) => Some(bind[i as int].1),
                    None => None,
                } by {
                let d = bind.drop_last();
                assert(forall|j: int| 0 <= j < n - 1 ==> #[trigger] d[j].0 == bindings@[j].0@);
                assert(lookup(d, name@) == match r {
                    Some(i) => Some(d[i as int].1),
                    None => None,
                });
            }
        }
        r
    }
}

/// The node of a literal: the bound node, negated for `~name`.
fn literal_node(builder: &mut Builder, bindings: &Vec<(String, usize)>, l: &Literal) -> (r: Option<usize>)
    requires
        old(builder).wf(),
        forall|i: int| 0 <= i < bindings@.len() ==> #[trigger] bindings@[i].1 < old(builder)@.len(),
        old(builder)@.len() + 1 < usize::MAX,
    ensures
        final(builder).wf(),
        extends(final(builder)@, old(builder)@),
        final(builder)@.len() <= old(builder)@.len() + 1,
        forall|env: spec_fn(int) -> bool| #[trigger]
            literal_value(values(old(builder)@, bindings@, env), *l) == match r {
                Some(e) => Some(eval(final(builder)@, e as int, env)),
                None => None,
            },
        r matches Some(e) ==> e < final(builder)@.len(),
        r matches Some(e) ==> literal_is(final(builder)@, handles(bindings@), *l, e as int),
{
    proof {
        assert(bindings@.subrange(0, bindings@.len() as int) =~= bindings@);
        builder.lemma_wf();
    }
    let found = find(bindings, bindings.len(), &l.var);
    match found {
        None => {
            proof {
                assert forall|env: spec_fn(int) -> bool|
                    #[trigger] literal_value(values(builder@, bindings@, env), *l) is None by {
                    let b = values(builder@, bindings@, env);
                    assert(forall|j: int| 0 <= j < bindings@.len() ==> #[trigger] b[j].0 == bindings@[j].0@);
                }
            }
            None
        },
        Some(i) => {
            let e = bindings[i].1;
            let ghost nodes0 = builder@;
            let r = if l.polarity {
                e
            } else {
                builder.not(e)
            };
            proof {
                lemma_extend(builder@, nodes0);
                assert(builder@[e as int] == nodes0[e as int]);
                assert(literal_is(builder@, handles(bindings@), *l, r as int));
                assert forall|env: spec_fn(int) -> bool| #[trigger]
                    literal_value(values(nodes0, bindings@, env), *l) == Some(eval(builder@, r as int, env)) by {
                    let b = values(nodes0, bindings@, env);
                    assert(forall|j: int| 0 <= j < bindings@.len() ==> #[trigger] b[j].0 == bindings@[j].0@);
                    assert(lookup(b, l.var@) == Some(b[i as int].1));
                }
            }
            Some(r)
        },
    }
}

/// The node of a statement's right-hand side.
fn expression_node(builder: &mut Builder, bindings: &Vec<(String, usize)>, exp: &Expression) -> (r: Option<usize>)
    requires
        old(builder).wf(),
        forall|i: int| 0 <= i < bindings@.len() ==> #[trigger] bindings@[i].1 < old(builder)@.len(),
        old(builder)@.len() + 10 < usize::MAX,
    ensures
        final(builder).wf(),
        extends(final(builder)@, old(builder)@),
        final(builder)@.len() <= old(builder)@.len() + 7,
        forall|env: spec_fn(int) -> bool| #[trigger]
            expression_value(values(old(builder)@, bindings@, env), *exp) == match r {
                Some(e) => Some(eval(final(builder)@, e as int, env)),
                None => None,
            },
        r matches Some(e) ==> e < final(builder)@.len(),
        r matches Some(e) ==> expression_is(final(builder)@, handles(bindings@), *exp, e as int),
{
    let ghost nodes0 = builder@;
    match exp {
        Expression::True => {
            proof { builder.lemma_wf(); }
            Some(builder.true_())
        },
        Expression::False => {
            proof { builder.lemma_wf(); }
            Some(builder.false_())
        },
        Expression::Lit(a) => literal_node(builder, bindings, a),
        Expression::Not(a) => match literal_node(builder, bindings, a) {
            Some(x) => {
                let ghost nodes1 = builder@;
                let r = builder.not(x);
                proof {
                    lemma_extend(builder@, nodes1);
                    lemma_literal_is_extend(builder@, nodes1, handles(bindings@), *a, x as int);
                    assert(builder@[x as int] == nodes1[x as int]);
                    assert(literal_is(builder@, handles(bindings@), *a, x as int) && not_shape(builder@, x as int, builder@, r as int));
                    assert forall|env: spec_fn(int) -> bool| #[trigger]
                        expression_value(values(nodes0, bindings@, env), *exp) == Some(eval(builder@, r as int, env)) by {
                        assert(literal_value(values(nodes0, bindings@, env), *a) == Some(eval(nodes1, x as int, env)));
                    }
                }
                Some(r)
            },
            None => None,
        },
        Expression::And(a, b) => {
            match literal_node(builder, bindings, a) {
                Some(x) => {
                    let ghost nodes1 = builder@;
                    proof {
                        lemma_extend(nodes1, nodes0);
                        assert forall|env: spec_fn(int) -> bool| #[trigger] values(nodes1, bindings@, env) == values(nodes0, bindings@, env) by {
                            assert(values(nodes1, bindings@, env) =~= values(nodes0, bindings@, env));
                        }
                    }
                    match literal_node(builder, bindings, b) {
                        Some(y) => {
                            let ghost nodes2 = builder@;
                            proof {
                                lemma_extend(nodes2, nodes1);
                            }
                            let r = builder.and(x, y);
                            proof {
                                lemma_extend(builder@, nodes2);
                                lemma_literal_is_extend(nodes2, nodes1, handles(bindings@), *a, x as int);
                                lemma_literal_is_extend(builder@, nodes2, handles(bindings@), *a, x as int);
                                lemma_literal_is_extend(builder@, nodes2, handles(bindings@), *b, y as int);
                                assert(literal_is(builder@, handles(bindings@), *a, x as int) && literal_is(builder@, handles(bindings@), *b, y as int)
                                    && and_spec(builder@, x as int, y as int, r as int));
                                assert forall|env: spec_fn(int) -> bool| #[trigger]
                                    expression_value(values(nodes0, bindings@, env), *exp) == Some(eval(builder@, r as int, env)) by {
                                    assert(literal_value(values(nodes0, bindings@, env), *a) == Some(eval(nodes1, x as int, env)));
                                    assert(literal_value(values(nodes1, bindings@, env), *b) == Some(eval(nodes2, y as int, env)));
                                }
                            }
                            Some(r)
                        },
                        None => {
                            proof {
                                assert forall|env: spec_fn(int) -> bool| #[trigger]
                                    expression_value(values(nodes0, bindings@, env), *exp) is None by {
                                    assert(literal_value(values(nodes1, bindings@, env), *b) is None);
                                }
                            }
                            None
                        },
                    }
                },
                None => None,
            }
        },
        Expression::Or(a, b) => {
            match literal_node(builder, bindings, a) {
                Some(x) => {
                    let ghost nodes1 = builder@;
                    proof {
                        lemma_extend(nodes1, nodes0);
                        assert forall|env: spec_fn(int) -> bool| #[trigger] values(nodes1, bindings@, env) == values(nodes0, bindings@, env) by {
                            assert(values(nodes1, bindings@, env) =~= values(nodes0, bindings@, env));
                        }
                    }
                    match literal_node(builder, bindings, b) {
                        Some(y) => {
                            let ghost nodes2 = builder@;
                            proof {
                                lemma_extend(nodes2, nodes1);
                            }
                            let r = builder.or(x, y);
                            proof {
                                lemma_extend(builder@, nodes2);
                                lemma_literal_is_extend(nodes2, nodes1, handles(bindings@), *a, x as int);
                                lemma_literal_is_extend(builder@, nodes2, handles(bindings@), *a, x as int);
                                lemma_literal_is_extend(builder@, nodes2, handles(bindings@), *b, y as int);
                                assert forall|env: spec_fn(int) -> bool| #[trigger]
                                    eval(builder@, r as int, env) == (eval(builder@, x as int, env) || eval(builder@, y as int, env)) by {
                                    assert(eval(nodes2, x as int, env) == eval(builder@, x as int, env));
                                    assert(eval(nodes2, y as int, env) == eval(builder@, y as int, env));
                                }
                                assert(literal_is(builder@, handles(bindings@), *a, x as int) && literal_is(builder@, handles(bindings@), *b, y as int));
                                assert forall|env: spec_fn(int) -> bool| #[trigger]
                                    expression_value(values(nodes0, bindings@, env), *exp) == Some(eval(builder@, r as int, env)) by {
                                    assert(literal_value(values(nodes0, bindings@, env), *a) == Some(eval(nodes1, x as int, env)));
                                    assert(literal_value(values(nodes1, bindings@, env), *b) == Some(eval(nodes2, y as int, env)));
                                }
                            }
                            Some(r)
                        },
                        None => {
                            proof {
                                assert forall|env: spec_fn(int) -> bool| #[trigger]
                                    expression_value(values(nodes0, bindings@, env), *exp) is None by {
                                    assert(literal_value(values(nodes1, bindings@, env), *b) is None);
                                }
                            }
                            None
                        },
                    }
                },
                None => None,
            }
        },
    }
}

/// Builds the formula that a parsed problem describes: one variable per
/// quantified name, in order, then one node per statement, each statement
/// seeing the names bound before it (a later binding of a name shadows an
/// earlier one). Fails exactly when a statement or the output names
/// something not bound before it.
pub fn with_parsed_problem(parsed: Problem) -> (r: Option<QBF>)
    requires
        parsed.quantifiers@.len() < u32::MAX,
        parsed.quantifiers@.len() + 7 * parsed.statements@.len() + 12 < usize::MAX,
    ensures
        r matches Some(q) ==> {
            &&& q.builder.wf()
            &&& q.expr < q.builder@.len()
            &&& prefix(q.first_quantifier, q.quantifier_blocks@) == parsed.quantifiers@.map_values(
                |p: (Quantifier, String)| p.0,
            )
            &&& forall|env: spec_fn(int) -> bool| #[trigger]
                program_value(parsed, env) == Some(eval(q.builder@, q.expr as int, env))
            &&& exists|hs: Seq<(Seq<char>, int)>|
                #[trigger] binds(q.builder@, parsed, parsed.statements@.len(), hs) && literal_is(
                    q.builder@,
                    hs,
                    parsed.output,
                    q.expr as int,
                )
        },
        r is None ==> forall|env: spec_fn(int) -> bool| #[trigger] program_value(parsed, env) is None,
{
    let mut builder = Builder::new();
    let mut bindings: Vec<(String, usize)> = Vec::new();
    let mut kinds: Vec<Quantifier> = Vec::new();
    let nq = parsed.quantifiers.len();
    let mut i: usize = 0;
    while i < nq
        invariant
            nq == parsed.quantifiers@.len(),
            nq < u32::MAX,
            nq + 7 * parsed.statements@.len() + 12 < usize::MAX,
            i <= nq,
            builder.wf(),
            builder@.len() <= 2 + i,
            bindings@.len() == i,
            kinds@ == parsed.quantifiers@.subrange(0, i as int).map_values(|p: (Quantifier, String)| p.0),
            forall|j: int| 0 <= j < i ==> #[trigger] bindings@[j].1 < builder@.len(),
            forall|j: int| 0 <= j < i ==> #[trigger] bindings@[j].0@ == parsed.quantifiers@[j].1@
                && builder@[bindings@[j].1 as int] == Exp::Var(j as u32),
            forall|env: spec_fn(int) -> bool| #[trigger]
                values(builder@, bindings@, env) == run(parsed, 0, env).unwrap().subrange(0, i as int),
        decreases nq - i,
    {
        let ghost nodes0 = builder@;
        let v = builder.var(i as u32);
        proof {
            lemma_extend(builder@, nodes0);
        }
        let name = parsed.quantifiers[i].1.clone();
        proof {
            assert(name@ == parsed.quantifiers@[i as int].1@);
            assert(builder@[v as int] == Exp::Var(i as u32));
        }
        let ghost old_bindings = bindings@;
        bindings.push((name, v));
        kinds.push(parsed.quantifiers[i].0);
        proof {
            assert forall|j: int| 0 <= j < i + 1 implies #[trigger] bindings@[j].0@ == parsed.quantifiers@[j].1@
                && builder@[bindings@[j].1 as int] == Exp::Var(j as u32) by {
                if j < i {
                    assert(bindings@[j] == old_bindings[j]);
                    assert(old_bindings[j].0@ == parsed.quantifiers@[j].1@);
                    assert(old_bindings[j].1 < nodes0.len());
                    assert(builder@[bindings@[j].1 as int] == nodes0[bindings@[j].1 as int]);
                }
            }
            assert(kinds@ =~= parsed.quantifiers@.subrange(0, i + 1).map_values(|p: (Quantifier, String)| p.0));
            assert forall|env: spec_fn(int) -> bool| #[trigger]
                values(builder@, bindings@, env) == run(parsed, 0, env).unwrap().subrange(0, i + 1) by {
                assert(values(nodes0, old_bindings, env) == run(parsed, 0, env).unwrap().subrange(0, i as int));
                assert(values(builder@, bindings@, env) =~= run(parsed, 0, env).unwrap().subrange(0, i + 1)) by {
                    assert forall|j: int| 0 <= j < i implies #[trigger] values(builder@, bindings@, env)[j]
                        == values(nodes0, old_bindings, env)[j] by {
                        assert(bindings@[j] == old_bindings[j]);
                    }
                }
            }
        }
        i = i + 1;
    }
    proof {
        assert forall|env: spec_fn(int) -> bool| #[trigger]
            values(builder@, bindings@, env) == run(parsed, 0, env).unwrap() by {
            assert(run(parsed, 0, env).unwrap().subrange(0, nq as int) =~= run(parsed, 0, env).unwrap());
        }
        assert(parsed.quantifiers@.subrange(0, nq as int) =~= parsed.quantifiers@);
        let hs = handles(bindings@);
        assert forall|k: int| 0 <= k < hs.len() implies #[trigger] hs[k].0 == parsed.quantifiers@[k].1@ && 0
            <= hs[k].1 < builder@.len() && builder@[hs[k].1] == Exp::Var(k as u32) by {
            assert(bindings@[k].0@ == parsed.quantifiers@[k].1@);
        }
        assert(binds(builder@, parsed, 0, handles(bindings@)));
    }
    let ns = parsed.statements.len();
    let mut j: usize = 0;
    while j < ns
        invariant
            ns == parsed.statements@.len(),
            nq == parsed.quantifiers@.len(),
            nq + 7 * ns + 12 < usize::MAX,
            j <= ns,
            builder.wf(),
            builder@.len() <= 2 + nq + 7 * j,
            bindings@.len() == nq + j,
            forall|k: int| 0 <= k < bindings@.len() ==> #[trigger] bindings@[k].1 < builder@.len(),
            forall|env: spec_fn(int) -> bool| #[trigger]
                run(parsed, j as nat, env) == Some(values(builder@, bindings@, env)),
            binds(builder@, parsed, j as nat, handles(bindings@)),
        decreases ns - j,
    {
        let st = &parsed.statements[j];
        let ghost nodes0 = builder@;
        let ghost b0 = bindings@;
        proof {
            builder.lemma_wf();
        }
        let e = expression_node(&mut builder, &bindings, &st.exp);
        proof {
            lemma_extend(builder@, nodes0);
            builder.lemma_wf();
        }
        match e {
            None => {
                proof {
                    assert forall|env: spec_fn(int) -> bool| #[trigger] program_value(parsed, env) is None by {
                        assert(run(parsed, j as nat, env) == Some(values(nodes0, b0, env)));
                        assert(expression_value(values(nodes0, b0, env), parsed.statements@[j as int].exp) is None);
                        assert(run(parsed, (j + 1) as nat, env) is None);
                        lemma_run_none(parsed, (j + 1) as nat, ns as nat, env);
                    }
                }
                return None;
            },
            Some(x) => {
                let name = st.name.clone();
                bindings.push((name, x));
                proof {
                    let hs0 = handles(b0);
                    assert(builder@ == builder@);
                    lemma_binds_extend(builder@, nodes0, parsed, j as nat, hs0);
                    let hs = handles(bindings@);
                    assert(hs.drop_last() =~= hs0);
                    assert(hs.last() == (parsed.statements@[j as int].name@, x as int));
                    assert(binds(builder@, parsed, (j + 1) as nat, hs));
                    assert forall|env: spec_fn(int) -> bool| #[trigger]
                        run(parsed, (j + 1) as nat, env) == Some(values(builder@, bindings@, env)) by {
                        assert(values(nodes0, b0, env) == values(builder@, b0, env)) by {
                            assert(values(nodes0, b0, env) =~= values(builder@, b0, env));
                        }
                        assert(run(parsed, j as nat, env) == Some(values(nodes0, b0, env)));
                        assert(expression_value(values(nodes0, b0, env), parsed.statements@[j as int].exp) == Some(eval(builder@, x as int, env)));
                        assert(values(builder@, bindings@, env) =~= values(builder@, b0, env).push(
                            (parsed.statements@[j as int].name@, eval(builder@, x as int, env)),
                        ));
                    }
                }
            },
        }
        j = j + 1;
    }
    let ghost nodes_end = builder@;
    proof {
        builder.lemma_wf();
    }
    let out = literal_node(&mut builder, &bindings, &parsed.output);
    proof {
        lemma_binds_extend(builder@, nodes_end, parsed, ns as nat, handles(bindings@));
    }
    match out {
        None => {
            proof {
                assert forall|env: spec_fn(int) -> bool| #[trigger] program_value(parsed, env) is None by {}
            }
            None
        },
        Some(e) => {
            let (first, blocks) = quantifier_blocks(&kinds);
            Some(QBF { first_quantifier: first, quantifier_blocks: blocks, builder, expr: e })
        },
    }
}

} // verus!
