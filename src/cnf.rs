//! The Tseytin encoding of an expression graph into clauses, and the
//! satisfiability oracle that decides them.
use vstd::prelude::*;
use crate::expression::{eval, graph_wf, mentions, reduced_at, Builder, Exp};
use crate::expansion::below;

verus! {

/// Whether literal `l` is true under the assignment `sigma` of its variables;
/// `-v` is the negation of variable `v`.
pub open spec fn lit_true(sigma: spec_fn(int) -> bool, l: int) -> bool {
    if l > 0 {
        sigma(l)
    } else {
        !sigma(-l)
    }
}

pub open spec fn clause_holds(sigma: spec_fn(int) -> bool, c: Seq<i32>) -> bool {
    exists|j: int| 0 <= j < c.len() && #[trigger] lit_true(sigma, c[j] as int)
}

pub open spec fn satisfies(sigma: spec_fn(int) -> bool, cnf: Seq<Seq<i32>>) -> bool {
    forall|c: int| 0 <= c < cnf.len() ==> #[trigger] clause_holds(sigma, cnf[c])
}

/// Some assignment makes every clause true.
pub open spec fn satisfiable(cnf: Seq<Seq<i32>>) -> bool {
    exists|sigma: spec_fn(int) -> bool| #[trigger] satisfies(sigma, cnf)
}

pub open spec fn cnf_view(clauses: Seq<Vec<i32>>) -> Seq<Seq<i32>> {
    clauses.map_values(|c: Vec<i32>| c@)
}

/// The literal that stands for node `i`: `2 * i + 3` for a conjunction (its
/// gate variable), `2 * (v + 1)` for variable `v`, `1` and `-1` for the
/// constants, and the opposite literal for a negation.
pub open spec fn lit_of(nodes: Seq<Exp>, i: int) -> int
    decreases i,
{
    if 0 <= i < nodes.len() {
        match nodes[i] {
            Exp::And(_, _) => 2 * i + 3,
            Exp::Not(x) => if x < i {
                -lit_of(nodes, x as int)
            } else {
                0
            },
            Exp::Var(v) => 2 * (v + 1),
            Exp::True => 1,
            Exp::False => -1,
        }
    } else {
        0
    }
}

/// Clause `n` of the three that make the literal of conjunction `i` equal
/// to the conjunction of its operands' literals.
pub open spec fn gate(nodes: Seq<Exp>, i: int, n: int) -> Seq<i32> {
    let c = lit_of(nodes, i);
    let a = lit_of(nodes, nodes[i]->And_0 as int);
    let b = lit_of(nodes, nodes[i]->And_1 as int);
    if n == 0 {
        seq![c as i32, -a as i32, -b as i32]
    } else if n == 1 {
        seq![-c as i32, a as i32]
    } else {
        seq![-c as i32, b as i32]
    }
}

/// The largest graph whose literals fit in an `i32`.
pub const LIT_NODES: usize = 0x3FFF_FFFE;

/// Every variable below `i` has a literal that fits in an `i32`.
pub open spec fn small_vars(nodes: Seq<Exp>, i: int) -> bool {
    forall|x: int| #[trigger] mentions(nodes, i, x) ==> x < LIT_NODES
}

proof fn lemma_lit_range(nodes: Seq<Exp>, i: int)
    requires
        graph_wf(nodes),
        nodes.len() <= LIT_NODES,
        0 <= i < nodes.len(),
        small_vars(nodes, i),
    ensures
        lit_of(nodes, i) != 0,
        -0x7FFF_FFFF <= lit_of(nodes, i) <= 0x7FFF_FFFF,
    decreases i,
{
    assert(reduced_at(nodes, i));
    match nodes[i] {
        Exp::Not(x) => {
            assert forall|y: int| #[trigger] mentions(nodes, x as int, y) implies y < LIT_NODES by {
                assert(mentions(nodes, i, y));
            }
            lemma_lit_range(nodes, x as int);
        },
        Exp::Var(v) => {
            assert(mentions(nodes, i, v as int));
        },
        _ => {},
    }
}

proof fn lemma_neg_lit(sigma: spec_fn(int) -> bool, l: int)
    requires
        l != 0,
    ensures
        lit_true(sigma, -l) == !lit_true(sigma, l),
{
}

/// The assignment that gives each literal the value of what it stands for
/// under `env`.
pub open spec fn sigma_of(nodes: Seq<Exp>, env: spec_fn(int) -> bool) -> spec_fn(int) -> bool {
    |l: int|
        if l == 1 {
            true
        } else if l % 2 == 0 {
            env(l / 2 - 1)
        } else {
            eval(nodes, (l - 3) / 2, env)
        }
}

/// The environment that an assignment gives the variables.
pub open spec fn env_of(sigma: spec_fn(int) -> bool) -> spec_fn(int) -> bool {
    |x: int| sigma(2 * (x + 1))
}

proof fn lemma_sigma_of(nodes: Seq<Exp>, env: spec_fn(int) -> bool, i: int)
    requires
        graph_wf(nodes),
        0 <= i < nodes.len(),
    ensures
        lit_true(sigma_of(nodes, env), lit_of(nodes, i)) == eval(nodes, i, env),
    decreases i,
{
    let sigma = sigma_of(nodes, env);
    assert(reduced_at(nodes, i));
    match nodes[i] {
        Exp::And(_, _) => {
            assert((2 * i + 3) % 2 == 1);
            assert((2 * i + 3 - 3) / 2 == i);
        },
        Exp::Not(x) => {
            lemma_sigma_of(nodes, env, x as int);
            lemma_lit_nonzero(nodes, x as int);
            lemma_neg_lit(sigma, lit_of(nodes, x as int));
        },
        Exp::Var(v) => {
            assert((2 * (v + 1)) % 2 == 0);
            assert((2 * (v + 1)) / 2 - 1 == v);
        },
        _ => {},
    }
}

proof fn lemma_lit_nonzero(nodes: Seq<Exp>, i: int)
    requires
        graph_wf(nodes),
        0 <= i < nodes.len(),
    ensures
        lit_of(nodes, i) != 0,
    decreases i,
{
    assert(reduced_at(nodes, i));
    if let Exp::Not(x) = nodes[i] {
        lemma_lit_nonzero(nodes, x as int);
    }
}

/// Clause `c` is one of the three clauses of some conjunction below `top`.
pub open spec fn is_gate_clause(nodes: Seq<Exp>, top: int, c: Seq<i32>) -> bool {
    exists|i: int, n: int|
        0 <= i < nodes.len() && below(nodes, top, i) && nodes[i] is And && 0 <= n < 3 && c == #[trigger] gate(
            nodes,
            i,
            n,
        )
}

/// Every literal of the clauses is a nonzero `i32` whose negation is one too.
pub open spec fn lits_ok(cnf: Seq<Seq<i32>>) -> bool {
    forall|c: int, j: int|
        0 <= c < cnf.len() && 0 <= j < cnf[c].len() ==> #[trigger] cnf[c][j] != 0 && -0x7FFF_FFFF <= cnf[c][j]
}

/// The encoding so far: which nodes are done, and the clauses.
spec fn encoded(nodes: Seq<Exp>, top: int, visited: Seq<bool>, cnf: Seq<Seq<i32>>) -> bool {
    &&& visited.len() == nodes.len()
    &&& cnf.len() >= 1
    &&& cnf[0] == seq![1i32]
    &&& forall|env: spec_fn(int) -> bool, c: int|
        0 <= c < cnf.len() ==> #[trigger] clause_holds(sigma_of(nodes, env), #[trigger] cnf[c])
    &&& forall|i: int|
        0 <= i < nodes.len() && #[trigger] visited[i] ==> done_at(nodes, visited, cnf, i)
    &&& forall|c: int| 1 <= c < cnf.len() ==> is_gate_clause(nodes, top, #[trigger] cnf[c])
    &&& lits_ok(cnf)
}

/// Node `i` is encoded: its operands are, and a conjunction has its clauses.
spec fn done_at(nodes: Seq<Exp>, visited: Seq<bool>, cnf: Seq<Seq<i32>>, i: int) -> bool {
    match nodes[i] {
        Exp::And(l, r) => visited[l as int] && visited[r as int] && cnf.contains(gate(nodes, i, 0))
            && cnf.contains(gate(nodes, i, 1)) && cnf.contains(gate(nodes, i, 2)),
        Exp::Not(x) => visited[x as int],
        _ => true,
    }
}

proof fn lemma_gate_holds(nodes: Seq<Exp>, env: spec_fn(int) -> bool, i: int, n: int)
    requires
        graph_wf(nodes),
        0 <= i < nodes.len(),
        nodes[i] is And,
        nodes.len() <= LIT_NODES,
        small_vars(nodes, i),
    ensures
        clause_holds(sigma_of(nodes, env), gate(nodes, i, n)),
{
    let sigma = sigma_of(nodes, env);
    let l = nodes[i]->And_0 as int;
    let r = nodes[i]->And_1 as int;
    assert(reduced_at(nodes, i));
    lemma_sigma_of(nodes, env, i);
    lemma_sigma_of(nodes, env, l);
    lemma_sigma_of(nodes, env, r);
    lemma_lit_nonzero(nodes, l);
    lemma_lit_nonzero(nodes, r);
    lemma_small_operands(nodes, i);
    lemma_lit_range(nodes, i);
    lemma_lit_range(nodes, l);
    lemma_lit_range(nodes, r);
    let c = lit_of(nodes, i);
    let a = lit_of(nodes, l);
    let b = lit_of(nodes, r);
    lemma_neg_lit(sigma, c);
    lemma_neg_lit(sigma, a);
    lemma_neg_lit(sigma, b);
    let g = gate(nodes, i, n);
    if n == 0 {
        if lit_true(sigma, c) {
            assert(lit_true(sigma, g[0] as int));
        } else if !lit_true(sigma, a) {
            assert(lit_true(sigma, g[1] as int));
        } else {
            assert(lit_true(sigma, g[2] as int));
        }
    } else if n == 1 {
        if !lit_true(sigma, c) {
            assert(lit_true(sigma, g[0] as int));
        } else {
            assert(lit_true(sigma, g[1] as int));
        }
    } else {
        if !lit_true(sigma, c) {
            assert(lit_true(sigma, g[0] as int));
        } else {
            assert(lit_true(sigma, g[1] as int));
        }
    }
}

proof fn lemma_small_operands(nodes: Seq<Exp>, i: int)
    requires
        graph_wf(nodes),
        0 <= i < nodes.len(),
        small_vars(nodes, i),
    ensures
        nodes[i] matches Exp::And(l, r) ==> small_vars(nodes, l as int) && small_vars(nodes, r as int),
        nodes[i] matches Exp::Not(x) ==> small_vars(nodes, x as int),
{
    assert(reduced_at(nodes, i));
    match nodes[i] {
        Exp::And(l, r) => {
            assert forall|x: int| #[trigger] mentions(nodes, l as int, x) implies x < LIT_NODES by {
                assert(mentions(nodes, i, x));
            }
            assert forall|x: int| #[trigger] mentions(nodes, r as int, x) implies x < LIT_NODES by {
                assert(mentions(nodes, i, x));
            }
        },
        Exp::Not(y) => {
            assert forall|x: int| #[trigger] mentions(nodes, y as int, x) implies x < LIT_NODES by {
                assert(mentions(nodes, i, x));
            }
        },
        _ => {},
    }
}

proof fn lemma_gate_semantics(sigma: spec_fn(int) -> bool, c: int, a: int, b: int)
    requires
        c != 0 && a != 0 && b != 0,
        -0x7FFF_FFFF <= c <= 0x7FFF_FFFF,
        -0x7FFF_FFFF <= a <= 0x7FFF_FFFF,
        -0x7FFF_FFFF <= b <= 0x7FFF_FFFF,
        clause_holds(sigma, seq![c as i32, -a as i32, -b as i32]),
        clause_holds(sigma, seq![-c as i32, a as i32]),
        clause_holds(sigma, seq![-c as i32, b as i32]),
    ensures
        lit_true(sigma, c) == (lit_true(sigma, a) && lit_true(sigma, b)),
{
    lemma_neg_lit(sigma, c);
    lemma_neg_lit(sigma, a);
    lemma_neg_lit(sigma, b);
    let g0 = seq![c as i32, -a as i32, -b as i32];
    let g1 = seq![-c as i32, a as i32];
    let g2 = seq![-c as i32, b as i32];
    let j0 = choose|j: int| 0 <= j < g0.len() && #[trigger] lit_true(sigma, g0[j] as int);
    let j1 = choose|j: int| 0 <= j < g1.len() && #[trigger] lit_true(sigma, g1[j] as int);
    let j2 = choose|j: int| 0 <= j < g2.len() && #[trigger] lit_true(sigma, g2[j] as int);
    assert(g0[0] as int == c && g0[1] as int == -a && g0[2] as int == -b);
    assert(g1[0] as int == -c && g1[1] as int == a);
    assert(g2[0] as int == -c && g2[1] as int == b);
}

/// An assignment that satisfies the clauses of every encoded node, and makes
/// literal `1` true, gives each encoded node's literal the node's value
/// under the environment it induces.
proof fn lemma_env_of(
    nodes: Seq<Exp>,
    top: int,
    visited: Seq<bool>,
    cnf: Seq<Seq<i32>>,
    sigma: spec_fn(int) -> bool,
    i: int,
)
    requires
        graph_wf(nodes),
        encoded(nodes, top, visited, cnf),
        satisfies(sigma, cnf),
        0 <= i < nodes.len(),
        visited[i],
        nodes.len() <= LIT_NODES,
        small_vars(nodes, i),
    ensures
        lit_true(sigma, lit_of(nodes, i)) == eval(nodes, i, env_of(sigma)),
    decreases i,
{
    assert(reduced_at(nodes, i));
    assert(done_at(nodes, visited, cnf, i));
    assert(clause_holds(sigma, cnf[0]));
    assert(sigma(1)) by {
        let j = choose|j: int| 0 <= j < cnf[0].len() && #[trigger] lit_true(sigma, cnf[0][j] as int);
    }
    match nodes[i] {
        Exp::And(l, r) => {
            lemma_small_operands(nodes, i);
            lemma_env_of(nodes, top, visited, cnf, sigma, l as int);
            lemma_env_of(nodes, top, visited, cnf, sigma, r as int);
            lemma_lit_nonzero(nodes, i);
            lemma_lit_nonzero(nodes, l as int);
            lemma_lit_nonzero(nodes, r as int);
            let c = lit_of(nodes, i);
            let a = lit_of(nodes, l as int);
            let b = lit_of(nodes, r as int);
            lemma_neg_lit(sigma, c);
            lemma_neg_lit(sigma, a);
            lemma_neg_lit(sigma, b);
            let g0 = gate(nodes, i, 0);
            let g1 = gate(nodes, i, 1);
            let g2 = gate(nodes, i, 2);
            let k0 = choose|k: int| 0 <= k < cnf.len() && cnf[k] == g0;
            let k1 = choose|k: int| 0 <= k < cnf.len() && cnf[k] == g1;
            let k2 = choose|k: int| 0 <= k < cnf.len() && cnf[k] == g2;
            assert(clause_holds(sigma, cnf[k0]));
            assert(clause_holds(sigma, cnf[k1]));
            assert(clause_holds(sigma, cnf[k2]));
            lemma_small_operands(nodes, i);
            lemma_lit_range(nodes, i);
            lemma_lit_range(nodes, l as int);
            lemma_lit_range(nodes, r as int);
            lemma_gate_semantics(sigma, c, a, b);
        },
        Exp::Not(x) => {
            lemma_small_operands(nodes, i);
            lemma_env_of(nodes, top, visited, cnf, sigma, x as int);
            lemma_lit_nonzero(nodes, x as int);
            lemma_neg_lit(sigma, lit_of(nodes, x as int));
        },
        _ => {},
    }
}

proof fn lemma_push_keeps(cnf: Seq<Seq<i32>>, x: Seq<i32>)
    ensures
        forall|g: Seq<i32>| #[trigger] cnf.contains(g) ==> cnf.push(x).contains(g),
        cnf.push(x).contains(x),
{
    assert forall|g: Seq<i32>| #[trigger] cnf.contains(g) implies cnf.push(x).contains(g) by {
        let k = choose|k: int| 0 <= k < cnf.len() && cnf[k] == g;
        assert(cnf.push(x)[k] == g);
    }
    assert(cnf.push(x)[cnf.len() as int] == x);
}

/// The literal of node `i`.
fn literal(builder: &Builder, i: usize) -> (r: i32)
    requires
        builder.wf(),
        i < builder@.len(),
        builder@.len() <= LIT_NODES,
        small_vars(builder@, i as int),
    ensures
        r as int == lit_of(builder@, i as int),
    decreases i,
{
    proof {
        builder.lemma_wf();
        lemma_lit_range(builder@, i as int);
        lemma_small_operands(builder@, i as int);
        assert(reduced_at(builder@, i as int));
    }
    match builder.node(i) {
        Exp::And(_, _) => (2 * i + 3) as i32,
        Exp::Not(x) => {
            let l = literal(builder, x);
            proof {
                lemma_lit_range(builder@, x as int);
            }
            -l
        },
        Exp::Var(v) => {
            proof {
                assert(mentions(builder@, i as int, v as int));
            }
            (2 * (v + 1)) as i32
        },
        Exp::True => 1,
        Exp::False => -1,
    }
}

/// Appends one clause, keeping the encoding's invariant.
fn add_clause(
    clauses: &mut Vec<Vec<i32>>,
    c: Vec<i32>,
    Ghost(nodes): Ghost<Seq<Exp>>,
    Ghost(top): Ghost<int>,
    Ghost(visited): Ghost<Seq<bool>>,
)
    requires
        encoded(nodes, top, visited, cnf_view(old(clauses)@)),
        forall|env: spec_fn(int) -> bool| #[trigger] clause_holds(sigma_of(nodes, env), c@),
        is_gate_clause(nodes, top, c@),
        forall|j: int| 0 <= j < c@.len() ==> #[trigger] c@[j] != 0 && -0x7FFF_FFFF <= c@[j],
    ensures
        cnf_view(final(clauses)@) == cnf_view(old(clauses)@).push(c@),
        encoded(nodes, top, visited, cnf_view(final(clauses)@)),
{
    let ghost before = cnf_view(clauses@);
    clauses.push(c);
    proof {
        assert(cnf_view(clauses@) =~= before.push(c@));
        lemma_push_keeps(before, c@);
        let after = cnf_view(clauses@);
        assert forall|i: int|
            0 <= i < nodes.len() && #[trigger] visited[i] implies done_at(nodes, visited, after, i) by {
            assert(done_at(nodes, visited, before, i));
        }
        assert forall|env: spec_fn(int) -> bool, k: int|
            0 <= k < after.len() implies #[trigger] clause_holds(sigma_of(nodes, env), #[trigger] after[k]) by {
            if k < before.len() {
                assert(after[k] == before[k]);
            }
        }
        assert forall|k: int| 1 <= k < after.len() implies is_gate_clause(nodes, top, #[trigger] after[k]) by {
            if k < before.len() {
                assert(after[k] == before[k]);
            }
        }
        assert forall|k: int, j: int| 0 <= k < after.len() && 0 <= j < after[k].len() implies #[trigger] after[k][j]
            != 0 && -0x7FFF_FFFF <= after[k][j] by {
            if k < before.len() {
                assert(after[k] == before[k]);
            }
        }
    }
}

proof fn lemma_visited_below(
    nodes: Seq<Exp>,
    top: int,
    visited: Seq<bool>,
    cnf: Seq<Seq<i32>>,
    root: int,
    x: int,
)
    requires
        graph_wf(nodes),
        encoded(nodes, top, visited, cnf),
        0 <= root < nodes.len(),
        visited[root],
        below(nodes, root, x),
    ensures
        0 <= x < nodes.len(),
        visited[x],
    decreases root,
{
    if x != root {
        assert(reduced_at(nodes, root));
        assert(done_at(nodes, visited, cnf, root));
        match nodes[root] {
            Exp::And(l, r) => {
                if l < root && below(nodes, l as int, x) {
                    lemma_visited_below(nodes, top, visited, cnf, l as int, x);
                } else {
                    lemma_visited_below(nodes, top, visited, cnf, r as int, x);
                }
            },
            Exp::Not(y) => {
                lemma_visited_below(nodes, top, visited, cnf, y as int, x);
            },
            _ => {},
        }
    }
}

/// Encodes node `i` and everything below it that is not yet encoded.
fn encode(
    builder: &Builder,
    visited: &mut Vec<bool>,
    clauses: &mut Vec<Vec<i32>>,
    i: usize,
    Ghost(top): Ghost<int>,
)
    requires
        builder.wf(),
        i < builder@.len(),
        builder@.len() <= LIT_NODES,
        small_vars(builder@, i as int),
        encoded(builder@, top, old(visited)@, cnf_view(old(clauses)@)),
        0 <= top < builder@.len(),
        below(builder@, top, i as int),
    ensures
        encoded(builder@, top, final(visited)@, cnf_view(final(clauses)@)),
        final(visited)@[i as int],
        forall|j: int| 0 <= j < old(visited)@.len() && #[trigger] old(visited)@[j] ==> final(visited)@[j],
    decreases i,
{
    let ghost nodes = builder@;
    proof {
        builder.lemma_wf();
        lemma_small_operands(nodes, i as int);
        assert(reduced_at(nodes, i as int));
    }
    if visited[i] {
        return;
    }
    match builder.node(i) {
        Exp::And(l, r) => {
            proof {
                crate::expansion::lemma_below_step(nodes, top, i as int, l as int);
                crate::expansion::lemma_below_step(nodes, top, i as int, r as int);
            }
            encode(builder, visited, clauses, l, Ghost(top));
            encode(builder, visited, clauses, r, Ghost(top));
            let c = literal(builder, i);
            let a = literal(builder, l);
            let b = literal(builder, r);
            proof {
                lemma_lit_range(nodes, i as int);
                lemma_lit_range(nodes, l as int);
                lemma_lit_range(nodes, r as int);
                assert forall|env: spec_fn(int) -> bool| #[trigger] clause_holds(sigma_of(nodes, env), gate(nodes, i as int, 0)) by {
                    lemma_gate_holds(nodes, env, i as int, 0);
                }
                assert forall|env: spec_fn(int) -> bool| #[trigger] clause_holds(sigma_of(nodes, env), gate(nodes, i as int, 1)) by {
                    lemma_gate_holds(nodes, env, i as int, 1);
                }
                assert forall|env: spec_fn(int) -> bool| #[trigger] clause_holds(sigma_of(nodes, env), gate(nodes, i as int, 2)) by {
                    lemma_gate_holds(nodes, env, i as int, 2);
                }
            }
            let (nc, na, nb) = (-c, -a, -b);
            let g0 = vec![c, na, nb];
            let g1 = vec![nc, a];
            let g2 = vec![nc, b];
            proof {
                assert(g0@ == gate(nodes, i as int, 0));
                assert(g1@ == gate(nodes, i as int, 1));
                assert(g2@ == gate(nodes, i as int, 2));
            }
            let ghost cnf0 = cnf_view(clauses@);
            proof {
                assert(is_gate_clause(nodes, top, gate(nodes, i as int, 0)));
                assert(is_gate_clause(nodes, top, gate(nodes, i as int, 1)));
                assert(is_gate_clause(nodes, top, gate(nodes, i as int, 2)));
            }
            add_clause(clauses, g0, Ghost(nodes), Ghost(top), Ghost(visited@));
            add_clause(clauses, g1, Ghost(nodes), Ghost(top), Ghost(visited@));
            add_clause(clauses, g2, Ghost(nodes), Ghost(top), Ghost(visited@));
            proof {
                let cnf3 = cnf_view(clauses@);
                assert(cnf3 == cnf0.push(gate(nodes, i as int, 0)).push(gate(nodes, i as int, 1)).push(gate(nodes, i as int, 2)));
                assert(cnf3[cnf0.len() as int] == gate(nodes, i as int, 0));
                assert(cnf3[cnf0.len() as int + 1] == gate(nodes, i as int, 1));
                assert(cnf3[cnf0.len() as int + 2] == gate(nodes, i as int, 2));
                assert(cnf3.contains(gate(nodes, i as int, 0)));
                assert(cnf3.contains(gate(nodes, i as int, 1)));
                assert(cnf3.contains(gate(nodes, i as int, 2)));
                assert(visited@[l as int] && visited@[r as int]);
                assert(done_at(nodes, visited@.update(i as int, true), cnf3, i as int));
            }
        },
        Exp::Not(x) => {
            proof {
                crate::expansion::lemma_below_step(nodes, top, i as int, x as int);
            }
            encode(builder, visited, clauses, x, Ghost(top));
            proof {
                assert(done_at(nodes, visited@.update(i as int, true), cnf_view(clauses@), i as int));
            }
        },
        _ => {
            proof {
                assert(done_at(nodes, visited@.update(i as int, true), cnf_view(clauses@), i as int));
            }
        },
    }
    let ghost before = visited@;
    proof {
        assert(done_at(nodes, before.update(i as int, true), cnf_view(clauses@), i as int));
    }
    visited.set(i, true);
    proof {
        let cnf = cnf_view(clauses@);
        assert forall|j: int| 0 <= j < nodes.len() && #[trigger] visited@[j] implies done_at(nodes, visited@, cnf, j) by {
            assert(visited@ == before.update(i as int, true));
            if j != i {
                assert(before[j]);
                assert(encoded(nodes, top, before, cnf));
                assert(done_at(nodes, before, cnf, j));
                assert(reduced_at(nodes, j));
                match nodes[j] {
                    Exp::And(l, r) => {
                        assert(before[l as int] && before[r as int]);
                    },
                    Exp::Not(x) => {
                        assert(before[x as int]);
                    },
                    _ => {},
                }
            }
        }
    }
}

/// The Tseytin encoding of node `root`: a clause for the constant true, the
/// three clauses of each conjunction below the root (each shared node once),
/// and a unit clause for the root's literal. The clauses are satisfiable
/// exactly when some environment makes the root true.
pub fn tseytin(builder: &Builder, root: usize) -> (r: Vec<Vec<i32>>)
    requires
        builder.wf(),
        root < builder@.len(),
        builder@.len() <= LIT_NODES,
        small_vars(builder@, root as int),
    ensures
        satisfiable(cnf_view(r@)) == exists|env: spec_fn(int) -> bool| #[trigger] eval(builder@, root as int, env),
        cnf_view(r@).len() >= 2,
        cnf_view(r@)[0] == seq![1i32],
        cnf_view(r@).last() == seq![lit_of(builder@, root as int) as i32],
        forall|c: int| 1 <= c < cnf_view(r@).len() - 1 ==> is_gate_clause(builder@, root as int, #[trigger] cnf_view(r@)[c]),
        lits_ok(cnf_view(r@)),
        forall|i: int|
            #![trigger below(builder@, root as int, i)]
            below(builder@, root as int, i) && builder@[i] is And ==> cnf_view(r@).contains(gate(builder@, i, 0))
                && cnf_view(r@).contains(gate(builder@, i, 1)) && cnf_view(r@).contains(gate(builder@, i, 2)),
        forall|sigma: spec_fn(int) -> bool| #[trigger]
            satisfies(sigma, cnf_view(r@)) ==> eval(builder@, root as int, env_of(sigma)),
{
    let ghost nodes = builder@;
    let n = builder.len();
    let mut visited: Vec<bool> = Vec::new();
    let mut i: usize = 0;
    while i < n
        invariant
            i <= n,
            n == nodes.len(),
            visited@.len() == i,
            forall|j: int| 0 <= j < i ==> !#[trigger] visited@[j],
        decreases n - i,
    {
        visited.push(false);
        i = i + 1;
    }
    let mut clauses: Vec<Vec<i32>> = Vec::new();
    clauses.push(vec![1i32]);
    proof {
        builder.lemma_wf();
        let cnf = cnf_view(clauses@);
        assert(cnf.len() == 1);
        assert(cnf[0] == seq![1i32]);
        assert forall|env: spec_fn(int) -> bool, c: int|
            0 <= c < cnf.len() implies #[trigger] clause_holds(sigma_of(nodes, env), #[trigger] cnf[c]) by {
            assert(lit_true(sigma_of(nodes, env), cnf[0][0] as int));
        }
    }
    encode(builder, &mut visited, &mut clauses, root, Ghost(root as int));
    let l = literal(builder, root);
    let ghost before = cnf_view(clauses@);
    let unit = vec![l];
    proof {
        assert(unit@ =~= seq![l]);
    }
    clauses.push(unit);
    proof {
        let cnf = cnf_view(clauses@);
        assert(cnf =~= before.push(seq![l]));
        if exists|env: spec_fn(int) -> bool| #[trigger] eval(nodes, root as int, env) {
            let env = choose|env: spec_fn(int) -> bool| #[trigger] eval(nodes, root as int, env);
            let sigma = sigma_of(nodes, env);
            lemma_sigma_of(nodes, env, root as int);
            assert forall|c: int| 0 <= c < cnf.len() implies #[trigger] clause_holds(sigma, cnf[c]) by {
                if c < before.len() {
                    assert(cnf[c] == before[c]);
                    assert(clause_holds(sigma_of(nodes, env), before[c]));
                } else {
                    assert(lit_true(sigma, cnf[c][0] as int));
                }
            }
            assert(satisfies(sigma, cnf));
        }
        if satisfiable(cnf) {
            let sigma = choose|sigma: spec_fn(int) -> bool| #[trigger] satisfies(sigma, cnf);
            assert forall|c: int| 0 <= c < before.len() implies #[trigger] clause_holds(sigma, before[c]) by {
                assert(cnf[c] == before[c]);
                assert(clause_holds(sigma, cnf[c]));
            }
            lemma_env_of(nodes, root as int, visited@, before, sigma, root as int);
            assert(clause_holds(sigma, cnf[before.len() as int]));
            let j = choose|j: int| 0 <= j < cnf[before.len() as int].len() && #[trigger] lit_true(sigma, cnf[before.len() as int][j] as int);
            assert(eval(nodes, root as int, env_of(sigma)));
        }
        assert forall|sigma: spec_fn(int) -> bool| #[trigger] satisfies(sigma, cnf) implies eval(
            nodes,
            root as int,
            env_of(sigma),
        ) by {
            assert forall|c: int| 0 <= c < before.len() implies #[trigger] clause_holds(sigma, before[c]) by {
                assert(cnf[c] == before[c]);
                assert(clause_holds(sigma, cnf[c]));
            }
            lemma_env_of(nodes, root as int, visited@, before, sigma, root as int);
            assert(clause_holds(sigma, cnf[before.len() as int]));
            let j = choose|j: int| 0 <= j < cnf[before.len() as int].len() && #[trigger] lit_true(sigma, cnf[before.len() as int][j] as int);
        }
        lemma_push_keeps(before, seq![l]);
        assert forall|i: int| #![trigger below(nodes, root as int, i)]
            below(nodes, root as int, i) && nodes[i] is And implies cnf.contains(gate(nodes, i, 0))
                && cnf.contains(gate(nodes, i, 1)) && cnf.contains(gate(nodes, i, 2)) by {
            lemma_visited_below(nodes, root as int, visited@, before, root as int, i);
            assert(done_at(nodes, visited@, before, i));
        }
        assert forall|c: int| 1 <= c < cnf.len() - 1 implies is_gate_clause(nodes, root as int, #[trigger] cnf[c]) by {
            assert(cnf[c] == before[c]);
        }
        assert(cnf[0] == before[0]);
        lemma_lit_range(nodes, root as int);
        assert forall|c: int, j: int| 0 <= c < cnf.len() && 0 <= j < cnf[c].len() implies #[trigger] cnf[c][j]
            != 0 && -0x7FFF_FFFF <= cnf[c][j] by {
            if c < before.len() {
                assert(cnf[c] == before[c]);
            }
        }
    }
    clauses
}

/// Relies on splr's `Certificate::try_from`, a complete CDCL solver: it
/// answers `SAT` with a satisfying assignment, `UNSAT` only for clause sets
/// that have none, and an error otherwise. It takes the absolute value of
/// every literal, so none may be `i32::MIN`.
#[verifier::external_body]
fn oracle(clauses: Vec<Vec<i32>>) -> (r: Option<bool>)
    requires
        lits_ok(cnf_view(clauses@)),
    ensures
        r == Some(true) ==> satisfiable(cnf_view(clauses@)),
        r == Some(false) ==> !satisfiable(cnf_view(clauses@)),
{
    match splr::Certificate::try_from(clauses) {
        Ok(splr::Certificate::SAT(_)) => Some(true),
        Ok(splr::Certificate::UNSAT) => Some(false),
        Err(_) => None,
    }
}

/// Decides whether some environment makes node `root` true, by the oracle on
/// its Tseytin encoding; `None` when the oracle gives no answer.
pub fn oracle_satisfiable(builder: &Builder, root: usize) -> (r: Option<bool>)
    requires
        builder.wf(),
        root < builder@.len(),
        builder@.len() <= LIT_NODES,
        small_vars(builder@, root as int),
    ensures
        r matches Some(b) ==> b == exists|env: spec_fn(int) -> bool| #[trigger] eval(builder@, root as int, env),
{
    let clauses = tseytin(builder, root);
    oracle(clauses)
}

} // verus!
