//! The whole-formula expansion strategy: eliminate the variables innermost
//! first, conjoining (for `ForAll`) or disjoining (for `Exists`) the two
//! substitutions of each, under a budget on the size of the graph.
use vstd::prelude::*;
use crate::expression::{
    and_spec, eval, extends, graph_wf, lemma_and_spec_extend, lemma_extend, lemma_mentions_nonneg,
    mentions, not_shape, reduced_at, Builder, Exp, FALSE, TRUE,
};
use crate::solver::{
    block_total, flip_count, holds, lemma_closed_is_constant, lemma_prefix_len, lemma_prefix_push,
    opposite_quantifier, prefix, qbf_holds, Quantifier, SolveError, Solution, QBF,
};
use crate::substitute::{
    assign, lemma_subst_step_extend, lemma_substituted_extend, subst_step, substitute, substituted,
};

verus! {

/// Node `x` is `i` or lies below it.
pub open spec fn below(nodes: Seq<Exp>, i: int, x: int) -> bool
    decreases i,
{
    x == i || (0 <= i < nodes.len() && match nodes[i] {
        Exp::And(l, r) => (l < i && below(nodes, l as int, x)) || (r < i && below(nodes, r as int, x)),
        Exp::Not(y) => y < i && below(nodes, y as int, x),
        _ => false,
    })
}

/// Node `x` is an operand of node `y`.
pub open spec fn operand_of(nodes: Seq<Exp>, x: int, y: int) -> bool {
    match nodes[y] {
        Exp::And(l, r) => x == l || x == r,
        Exp::Not(z) => x == z,
        _ => false,
    }
}

/// The number of nodes among `lo..hi` that lie below `i`.
pub open spec fn count_below(nodes: Seq<Exp>, i: int, lo: int, hi: int) -> nat
    decreases hi - lo,
{
    if lo >= hi {
        0
    } else {
        count_below(nodes, i, lo + 1, hi) + if below(nodes, i, lo) {
            1nat
        } else {
            0nat
        }
    }
}

/// Every node below `i` has a handle no greater than `i`, so `size` counts
/// all of them.
pub proof fn lemma_below_le(nodes: Seq<Exp>, i: int, x: int)
    requires
        below(nodes, i, x),
    ensures
        x <= i,
    decreases i,
{
    if x != i {
        match nodes[i] {
            Exp::And(l, r) => {
                if l < i && below(nodes, l as int, x) {
                    lemma_below_le(nodes, l as int, x);
                } else {
                    lemma_below_le(nodes, r as int, x);
                }
            },
            Exp::Not(y) => {
                lemma_below_le(nodes, y as int, x);
            },
            _ => {},
        }
    }
}

/// Below `i`, one step down from a node below `i` stays below `i`.
pub proof fn lemma_below_step(nodes: Seq<Exp>, i: int, y: int, x: int)
    requires
        graph_wf(nodes),
        0 <= y < nodes.len(),
        below(nodes, i, y),
        operand_of(nodes, x, y),
    ensures
        below(nodes, i, x),
    decreases i,
{
    assert(reduced_at(nodes, y));
    if y == i {
        assert(below(nodes, x, x));
    } else {
        match nodes[i] {
            Exp::And(l, r) => {
                if l < i && below(nodes, l as int, y) {
                    lemma_below_step(nodes, l as int, y, x);
                } else {
                    lemma_below_step(nodes, r as int, y, x);
                }
            },
            Exp::Not(z) => {
                lemma_below_step(nodes, z as int, y, x);
            },
            _ => {},
        }
    }
}

/// Every node strictly below `i` is an operand of some node below `i`.
proof fn lemma_below_parent(nodes: Seq<Exp>, i: int, x: int)
    requires
        graph_wf(nodes),
        0 <= i < nodes.len(),
        below(nodes, i, x),
        x != i,
    ensures
        exists|y: int| x < y <= i && below(nodes, i, y) && #[trigger] operand_of(nodes, x, y),
    decreases i,
{
    assert(reduced_at(nodes, i));
    match nodes[i] {
        Exp::And(l, r) => {
            let c = if below(nodes, l as int, x) { l as int } else { r as int };
            if c == x {
                assert(operand_of(nodes, x, i));
            } else {
                lemma_below_parent(nodes, c, x);
                let y = choose|y: int| x < y <= c && below(nodes, c, y) && #[trigger] operand_of(nodes, x, y);
                assert(below(nodes, i, y));
            }
        },
        Exp::Not(z) => {
            if z == x {
                assert(operand_of(nodes, x, i));
            } else {
                lemma_below_parent(nodes, z as int, x);
                let y = choose|y: int| x < y <= z && below(nodes, z as int, y) && #[trigger] operand_of(nodes, x, y);
                assert(below(nodes, i, y));
            }
        },
        _ => {},
    }
}

impl Builder {
    /// The number of distinct nodes in the graph below `e`, `e` included.
    pub fn size(&self, e: usize) -> (r: usize)
        requires
            self.wf(),
            e < self@.len(),
        ensures
            r == count_below(self@, e as int, 0, e + 1),
    {
        let ghost nodes = self@;
        proof {
            self.lemma_wf();
        }
        let mut marked: Vec<bool> = Vec::new();
        let mut i: usize = 0;
        while i <= e
            invariant
                i <= e + 1,
                e + 1 < usize::MAX,
                marked@.len() == i,
                forall|x: int| 0 <= x < i ==> #[trigger] marked@[x] == (x == e),
            decreases e + 1 - i,
        {
            marked.push(i == e);
            i = i + 1;
        }
        let mut count: usize = 0;
        let mut j: usize = e + 1;
        while j > 0
            invariant
                graph_wf(nodes),
                nodes == self@,
                e < nodes.len(),
                e + 1 < usize::MAX,
                j <= e + 1,
                marked@.len() == e + 1,
                count == count_below(nodes, e as int, j as int, e + 1),
                count <= e + 1 - j,
                forall|x: int| 0 <= x < j ==> #[trigger] marked@[x] == (x == e || exists|y: int|
                    j <= y <= e && below(nodes, e as int, y) && #[trigger] operand_of(nodes, x, y)),
            decreases j,
        {
            j = j - 1;
            proof {
                if j < e && exists|y: int| j < y <= e && below(nodes, e as int, y) && #[trigger] operand_of(nodes, j as int, y) {
                    let y = choose|y: int| j < y <= e && below(nodes, e as int, y) && #[trigger] operand_of(nodes, j as int, y);
                    lemma_below_step(nodes, e as int, y, j as int);
                }
                if below(nodes, e as int, j as int) && j != e {
                    lemma_below_parent(nodes, e as int, j as int);
                }
                assert(marked@[j as int] == below(nodes, e as int, j as int));
                assert(reduced_at(nodes, j as int));
            }
            if marked[j] {
                count = count + 1;
                match self.node(j) {
                    Exp::And(l, r) => {
                        marked.set(l, true);
                        marked.set(r, true);
                    },
                    Exp::Not(x) => {
                        marked.set(x, true);
                    },
                    _ => {},
                }
            }
            proof {
                assert forall|x: int| 0 <= x < j implies #[trigger] marked@[x] == (x == e || exists|y: int|
                    j <= y <= e && below(nodes, e as int, y) && #[trigger] operand_of(nodes, x, y)) by {
                    if operand_of(nodes, x, j as int) && below(nodes, e as int, j as int) {
                        assert(j <= j <= e && below(nodes, e as int, j as int) && operand_of(nodes, x, j as int));
                    }
                    if exists|y: int| j <= y <= e && below(nodes, e as int, y) && #[trigger] operand_of(nodes, x, y) {
                        let y = choose|y: int| j <= y <= e && below(nodes, e as int, y) && #[trigger] operand_of(nodes, x, y);
                        if y != j {
                            assert(j + 1 <= y <= e && below(nodes, e as int, y) && operand_of(nodes, x, y));
                        }
                    }
                }
            }
        }
        count
    }
}

/// Node `x` mentions `v` and is reached from `i` by descending only through
/// conjunctions that mention `v`: a node that eliminating `v` rebuilds.
pub open spec fn rebuilt(nodes: Seq<Exp>, i: int, v: int, x: int) -> bool
    decreases i,
{
    mentions(nodes, i, v) && (x == i || (0 <= i < nodes.len() && match nodes[i] {
        Exp::And(l, r) => (l < i && rebuilt(nodes, l as int, v, x)) || (r < i && rebuilt(nodes, r as int, v, x)),
        _ => false,
    }))
}

/// The number of nodes among `lo..hi` that eliminating `v` from `i` rebuilds.
pub open spec fn count_rebuilt(nodes: Seq<Exp>, i: int, v: int, lo: int, hi: int) -> nat
    decreases hi - lo,
{
    if lo >= hi {
        0
    } else {
        count_rebuilt(nodes, i, v, lo + 1, hi) + if rebuilt(nodes, i, v, lo) {
            1nat
        } else {
            0nat
        }
    }
}

proof fn lemma_count_rebuilt_mono(nodes: Seq<Exp>, i: int, v: int, lo: int, mid: int, hi: int)
    requires
        lo <= mid,
    ensures
        count_rebuilt(nodes, i, v, mid, hi) <= count_rebuilt(nodes, i, v, lo, hi),
    decreases mid - lo,
{
    if lo < mid && lo < hi {
        lemma_count_rebuilt_mono(nodes, i, v, lo + 1, mid, hi);
    }
}

proof fn lemma_rebuilt_step(nodes: Seq<Exp>, i: int, v: int, y: int, x: int)
    requires
        graph_wf(nodes),
        0 <= y < nodes.len(),
        rebuilt(nodes, i, v, y),
        nodes[y] matches Exp::And(l, r) && (x == l || x == r),
        mentions(nodes, x, v),
    ensures
        rebuilt(nodes, i, v, x),
    decreases i,
{
    assert(reduced_at(nodes, y));
    if y == i {
        assert(rebuilt(nodes, x, v, x));
    } else {
        match nodes[i] {
            Exp::And(l, r) => {
                if l < i && rebuilt(nodes, l as int, v, y) {
                    lemma_rebuilt_step(nodes, l as int, v, y, x);
                } else {
                    lemma_rebuilt_step(nodes, r as int, v, y, x);
                }
            },
            _ => {},
        }
    }
}

proof fn lemma_rebuilt_parent(nodes: Seq<Exp>, i: int, v: int, x: int)
    requires
        graph_wf(nodes),
        0 <= i < nodes.len(),
        rebuilt(nodes, i, v, x),
        x != i,
    ensures
        exists|y: int| x < y <= i && rebuilt(nodes, i, v, y) && #[trigger] operand_of(nodes, x, y) && nodes[y] is And,
        mentions(nodes, x, v),
    decreases i,
{
    assert(reduced_at(nodes, i));
    match nodes[i] {
        Exp::And(l, r) => {
            let c = if l < i && rebuilt(nodes, l as int, v, x) { l as int } else { r as int };
            assert(rebuilt(nodes, c, v, x));
            if c == x {
                assert(operand_of(nodes, x, i));
                assert(mentions(nodes, c, v));
            } else {
                lemma_rebuilt_parent(nodes, c, v, x);
                let y = choose|y: int| x < y <= c && rebuilt(nodes, c, v, y) && #[trigger] operand_of(nodes, x, y) && nodes[y] is And;
                assert(rebuilt(nodes, i, v, y));
            }
        },
        _ => {},
    }
}

/// Whether eliminating `variable` from `exp` rebuilds at most `max_cost`
/// nodes: those that mention the variable and are reached from `exp`
/// through conjunctions that mention it. Stops counting once over.
pub fn expansion_is_cheap(builder: &Builder, exp: usize, variable: u32, max_cost: u32) -> (r: bool)
    requires
        builder.wf(),
        exp < builder@.len(),
    ensures
        r == (count_rebuilt(builder@, exp as int, variable as int, 0, exp + 1) <= max_cost),
{
    let ghost nodes = builder@;
    let ghost v = variable as int;
    let e = exp;
    proof {
        builder.lemma_wf();
    }
    let root_has = builder.has_var(e, variable);
    let mut marked: Vec<bool> = Vec::new();
    let mut i: usize = 0;
    while i <= e
        invariant
            i <= e + 1,
            e + 1 < usize::MAX,
            marked@.len() == i,
            forall|x: int| 0 <= x < i ==> #[trigger] marked@[x] == (x == e && root_has),
        decreases e + 1 - i,
    {
        marked.push(i == e && root_has);
        i = i + 1;
    }
    let mut count: u32 = 0;
    let mut j: usize = e + 1;
    while j > 0
        invariant
            graph_wf(nodes),
            nodes == builder@,
            builder.wf(),
            root_has == mentions(nodes, e as int, v),
            v == variable,
            e == exp,
            e < nodes.len(),
            e + 1 < usize::MAX,
            j <= e + 1,
            marked@.len() == e + 1,
            count == count_rebuilt(nodes, e as int, v, j as int, e + 1),
            count <= max_cost,
            forall|x: int| 0 <= x < j ==> #[trigger] marked@[x] == ((x == e && root_has) || exists|y: int|
                j <= y <= e && rebuilt(nodes, e as int, v, y) && #[trigger] operand_of(nodes, x, y) && nodes[y] is And
                    && mentions(nodes, x, v)),
        decreases j,
    {
        j = j - 1;
        proof {
            if j < e && exists|y: int| j < y <= e && rebuilt(nodes, e as int, v, y) && #[trigger] operand_of(nodes, j as int, y)
                && nodes[y] is And && mentions(nodes, j as int, v) {
                let y = choose|y: int| j < y <= e && rebuilt(nodes, e as int, v, y) && #[trigger] operand_of(nodes, j as int, y)
                    && nodes[y] is And && mentions(nodes, j as int, v);
                lemma_rebuilt_step(nodes, e as int, v, y, j as int);
            }
            if rebuilt(nodes, e as int, v, j as int) && j != e {
                lemma_rebuilt_parent(nodes, e as int, v, j as int);
            }
            assert(marked@[j as int] == rebuilt(nodes, e as int, v, j as int));
            assert(reduced_at(nodes, j as int));
        }
        if marked[j] {
            if count == max_cost {
                proof {
                    assert(count_rebuilt(nodes, e as int, v, j as int, e + 1) == count_rebuilt(
                        nodes,
                        e as int,
                        v,
                        j + 1,
                        e + 1,
                    ) + 1);
                    lemma_count_rebuilt_mono(nodes, e as int, v, 0, j as int, e + 1);
                }
                return false;
            }
            count = count + 1;
            if let Exp::And(l, r) = builder.node(j) {
                if builder.has_var(l, variable) {
                    marked.set(l, true);
                }
                if builder.has_var(r, variable) {
                    marked.set(r, true);
                }
            }
        }
        proof {
            assert forall|x: int| 0 <= x < j implies #[trigger] marked@[x] == ((x == e && root_has) || exists|y: int|
                j <= y <= e && rebuilt(nodes, e as int, v, y) && #[trigger] operand_of(nodes, x, y) && nodes[y] is And
                    && mentions(nodes, x, v)) by {
                if operand_of(nodes, x, j as int) && rebuilt(nodes, e as int, v, j as int) && nodes[j as int] is And
                    && mentions(nodes, x, v) {
                    assert(j <= j <= e && rebuilt(nodes, e as int, v, j as int) && operand_of(nodes, x, j as int));
                }
                if exists|y: int| j <= y <= e && rebuilt(nodes, e as int, v, y) && #[trigger] operand_of(nodes, x, y)
                    && nodes[y] is And && mentions(nodes, x, v) {
                    let y = choose|y: int| j <= y <= e && rebuilt(nodes, e as int, v, y) && #[trigger] operand_of(nodes, x, y)
                        && nodes[y] is And && mentions(nodes, x, v);
                    if y != j {
                        assert(j + 1 <= y <= e && rebuilt(nodes, e as int, v, y) && operand_of(nodes, x, y));
                    }
                }
            }
        }
    }
    true
}

/// Node `e` of `nodes` is the formula of `problem` after eliminating the
/// variables from `j` on: under every environment it has the truth of the
/// matrix with those variables bound by their quantifiers.
pub open spec fn formula_after(nodes: Seq<Exp>, problem: QBF, j: int, e: int) -> bool {
    &&& 0 <= j < block_total(problem.quantifier_blocks@)
    &&& 0 <= e < nodes.len()
    &&& forall|env: spec_fn(int) -> bool| #[trigger]
        eval(nodes, e, env) == holds(
            problem.builder@,
            prefix(problem.first_quantifier, problem.quantifier_blocks@),
            j,
            problem.expr as int,
            env,
        )
}

proof fn lemma_count_below_le(nodes: Seq<Exp>, i: int, lo: int, hi: int)
    requires
        lo <= hi,
    ensures
        count_below(nodes, i, lo, hi) <= hi - lo,
    decreases hi - lo,
{
    if lo < hi {
        lemma_count_below_le(nodes, i, lo + 1, hi);
    }
}

/// The quantifier of each variable, in order.
fn quantifier_list(first: Quantifier, blocks: &Vec<u32>) -> (r: Vec<Quantifier>)
    ensures
        r@ == prefix(first, blocks@),
{
    let mut r: Vec<Quantifier> = Vec::new();
    let mut kind = first;
    let mut b: usize = 0;
    proof {
        assert(blocks@.subrange(0, 0) =~= Seq::<u32>::empty());
        assert(r@ =~= prefix(first, Seq::<u32>::empty()));
    }
    while b < blocks.len()
        invariant
            b <= blocks@.len(),
            r@ == prefix(first, blocks@.subrange(0, b as int)),
            kind == flip_count(first, b as nat),
        decreases blocks@.len() - b,
    {
        let size = blocks[b];
        let mut c: u32 = 0;
        let ghost base = r@;
        while c < size
            invariant
                c <= size,
                r@ == base + Seq::new(c as nat, |_i: int| kind),
            decreases size - c,
        {
            r.push(kind);
            proof {
                assert(r@ =~= base + Seq::new((c + 1) as nat, |_i: int| kind));
            }
            c = c + 1;
        }
        proof {
            let sub = blocks@.subrange(0, b as int);
            assert(blocks@.subrange(0, b + 1) =~= sub.push(size));
            lemma_prefix_push(first, sub, size);
            assert(r@ =~= prefix(first, blocks@.subrange(0, b + 1)));
            match first {
                Quantifier::Exists => {},
                Quantifier::ForAll => {},
            }
        }
        kind = opposite_quantifier(kind);
        b = b + 1;
    }
    proof {
        assert(blocks@.subrange(0, b as int) =~= blocks@);
    }
    r
}

/// Node `e` is what `expand` builds from node `prev` for variable `v`: the
/// substitutions of `prev` with `v` false and with `v` true, combined as
/// `and` gives it (for `ForAll`), or as `or` gives it, the negation of the
/// conjunction of their negations (for `Exists`).
#[verifier::opaque]
pub open spec fn step_of(nodes: Seq<Exp>, q: Quantifier, v: int, prev: int, e: int) -> bool {
    exists|f: int, t: int|
        #[trigger] substituted(nodes, prev, v, false, f) && #[trigger] substituted(nodes, prev, v, true, t)
            && subst_step(nodes, prev, v, false, f) && subst_step(nodes, prev, v, true, t) && match q {
            Quantifier::ForAll => and_spec(nodes, f, t, e),
            Quantifier::Exists => exists|na: int, nb: int, c: int|
                #![trigger not_shape(nodes, f, nodes, na), not_shape(nodes, t, nodes, nb), and_spec(nodes, na, nb, c)]
                not_shape(nodes, f, nodes, na) && not_shape(nodes, t, nodes, nb) && and_spec(nodes, na, nb, c)
                    && not_shape(nodes, c, nodes, e),
        }
}

proof fn lemma_step_of_extend(new: Seq<Exp>, old: Seq<Exp>, q: Quantifier, v: int, prev: int, e: int)
    requires
        graph_wf(old),
        extends(new, old),
        0 <= prev < old.len(),
        0 <= e < old.len(),
        step_of(old, q, v, prev, e),
    ensures
        step_of(new, q, v, prev, e),
{
    reveal(step_of);
    let (f, t) = choose|f: int, t: int|
        #[trigger] substituted(old, prev, v, false, f) && #[trigger] substituted(old, prev, v, true, t)
            && subst_step(old, prev, v, false, f) && subst_step(old, prev, v, true, t) && match q {
            Quantifier::ForAll => and_spec(old, f, t, e),
            Quantifier::Exists => exists|na: int, nb: int, c: int|
                #![trigger not_shape(old, f, old, na), not_shape(old, t, old, nb), and_spec(old, na, nb, c)]
                not_shape(old, f, old, na) && not_shape(old, t, old, nb) && and_spec(old, na, nb, c)
                    && not_shape(old, c, old, e),
        };
    lemma_substituted_extend(new, old, prev, v, false, f);
    lemma_substituted_extend(new, old, prev, v, true, t);
    lemma_subst_step_extend(new, old, prev, v, false, f);
    lemma_subst_step_extend(new, old, prev, v, true, t);
    match q {
        Quantifier::ForAll => {
            lemma_and_spec_extend(new, old, f, t, e);
        },
        Quantifier::Exists => {
            let (na, nb, c) = choose|na: int, nb: int, c: int|
                #![trigger not_shape(old, f, old, na), not_shape(old, t, old, nb), and_spec(old, na, nb, c)]
                not_shape(old, f, old, na) && not_shape(old, t, old, nb) && and_spec(old, na, nb, c)
                    && not_shape(old, c, old, e);
            lemma_and_spec_extend(new, old, na, nb, c);
            assert(new[f] == old[f] && new[t] == old[t] && new[c] == old[c]);
            assert(new[na] == old[na] && new[nb] == old[nb] && new[e] == old[e]);
            assert(not_shape(new, f, new, na) && not_shape(new, t, new, nb) && and_spec(new, na, nb, c)
                && not_shape(new, c, new, e));
        },
    }
}

proof fn lemma_below_extend(new: Seq<Exp>, old: Seq<Exp>, i: int, x: int)
    requires
        extends(new, old),
        0 <= i < old.len(),
    ensures
        below(new, i, x) == below(old, i, x),
    decreases i,
{
    assert(new[i] == old[i]);
    match old[i] {
        Exp::And(l, r) => {
            if l < i {
                lemma_below_extend(new, old, l as int, x);
            }
            if r < i {
                lemma_below_extend(new, old, r as int, x);
            }
        },
        Exp::Not(y) => {
            if y < i {
                lemma_below_extend(new, old, y as int, x);
            }
        },
        _ => {},
    }
}

proof fn lemma_count_below_extend(new: Seq<Exp>, old: Seq<Exp>, i: int, lo: int, hi: int)
    requires
        extends(new, old),
        0 <= i < old.len(),
    ensures
        count_below(new, i, lo, hi) == count_below(old, i, lo, hi),
    decreases hi - lo,
{
    if lo < hi {
        lemma_below_extend(new, old, i, lo);
        lemma_count_below_extend(new, old, i, lo + 1, hi);
    }
}

/// A bound on the size of a graph of `len` nodes after `d` expansion
/// steps, each of which at most multiplies it by nine and adds five.
pub open spec fn exp_growth(len: nat, d: nat) -> nat
    decreases d,
{
    if d == 0 {
        len
    } else {
        9 * exp_growth(len, (d - 1) as nat) + 5
    }
}

proof fn lemma_exp_growth_mono(len: nat, d1: nat, d2: nat)
    requires
        d1 <= d2,
    ensures
        exp_growth(len, d1) <= exp_growth(len, d2),
    decreases d2,
{
    if d1 < d2 {
        lemma_exp_growth_mono(len, d1, (d2 - 1) as nat);
    }
}

/// `ws` runs from the formula after eliminating the variables from `j` on
/// (`ws[0]`) up to the matrix (`ws.last()`): each is `step_of` the next for
/// its variable, and each one built has at most `budget` nodes.
#[verifier::opaque]
pub open spec fn steps_ok(nodes: Seq<Exp>, quants: Seq<Quantifier>, j: int, ws: Seq<int>, budget: int) -> bool {
    &&& ws.len() == quants.len() - j + 1
    &&& forall|i: int| 0 <= i < ws.len() ==> 0 <= #[trigger] ws[i] < nodes.len()
    &&& forall|i: int|
        0 <= i < ws.len() - 1 ==> step_of(nodes, quants[j + i], j + i, ws[i + 1], #[trigger] ws[i])
            && count_below(nodes, ws[i], 0, ws[i] + 1) <= budget
}

proof fn lemma_steps_extend(new: Seq<Exp>, old: Seq<Exp>, quants: Seq<Quantifier>, j: int, ws: Seq<int>, budget: int)
    requires
        graph_wf(old),
        extends(new, old),
        steps_ok(old, quants, j, ws, budget),
    ensures
        steps_ok(new, quants, j, ws, budget),
{
    reveal(steps_ok);
    assert forall|i: int| 0 <= i < ws.len() - 1 implies step_of(new, quants[j + i], j + i, ws[i + 1], #[trigger] ws[i])
        && count_below(new, ws[i], 0, ws[i] + 1) <= budget by {
        assert(0 <= ws[i + 1] < old.len());
        lemma_step_of_extend(new, old, quants[j + i], j + i, ws[i + 1], ws[i]);
        lemma_count_below_extend(new, old, ws[i], 0, ws[i] + 1);
    }
}

/// Prepends one more step to `ws`.
proof fn lemma_steps_push(nodes: Seq<Exp>, quants: Seq<Quantifier>, j: int, ws: Seq<int>, budget: int, e: int)
    requires
        j > 0,
        steps_ok(nodes, quants, j, ws, budget),
        0 <= e < nodes.len(),
        step_of(nodes, quants[j - 1], j - 1, ws[0], e),
        count_below(nodes, e, 0, e + 1) <= budget,
    ensures
        steps_ok(nodes, quants, j - 1, seq![e] + ws, budget),
{
    reveal(steps_ok);
    let w2 = seq![e] + ws;
    assert forall|i: int| 0 <= i < w2.len() - 1 implies step_of(nodes, quants[j - 1 + i], j - 1 + i, w2[i + 1], #[trigger] w2[i])
        && count_below(nodes, w2[i], 0, w2[i] + 1) <= budget by {
        if i > 0 {
            assert(w2[i] == ws[i - 1]);
            assert(w2[i + 1] == ws[i]);
            assert(step_of(nodes, quants[j + (i - 1)], j + (i - 1), ws[i], ws[i - 1]));
        }
    }
    assert forall|i: int| 0 <= i < w2.len() implies 0 <= #[trigger] w2[i] < nodes.len() by {
        if i > 0 {
            assert(w2[i] == ws[i - 1]);
        }
    }
}

/// The most nodes a graph may hold before an expansion step, which can
/// multiply it by nine and add a few more.
pub const EXPANSION_LIMIT: usize = 0x1C71_C71B;

/// Eliminates variable `var` from `exp`: the conjunction (for `ForAll`) or
/// disjunction (for `Exists`) of `exp` with `var` false and with `var` true.
pub fn expand(builder: &mut Builder, quantifier: Quantifier, var: u32, exp: usize) -> (r: usize)
    requires
        old(builder).wf(),
        exp < old(builder)@.len(),
        old(builder)@.len() <= EXPANSION_LIMIT,
    ensures
        final(builder).wf(),
        extends(final(builder)@, old(builder)@),
        r < final(builder)@.len(),
        forall|env: spec_fn(int) -> bool| #[trigger] eval(final(builder)@, r as int, env) == {
            let f = eval(old(builder)@, exp as int, assign(env, var as int, false));
            let t = eval(old(builder)@, exp as int, assign(env, var as int, true));
            match quantifier {
                Quantifier::ForAll => f && t,
                Quantifier::Exists => f || t,
            }
        },
        forall|x: int| #[trigger] mentions(final(builder)@, r as int, x) ==> mentions(
            old(builder)@,
            exp as int,
            x,
        ) && x != var,
        step_of(final(builder)@, quantifier, var as int, exp as int, r as int),
        final(builder)@.len() <= 9 * old(builder)@.len() + 5,
{
    let ghost nodes0 = builder@;
    let f = substitute(builder, exp, var, false);
    let ghost nodes1 = builder@;
    proof {
        builder.lemma_wf();
    }
    let t = substitute(builder, exp, var, true);
    let ghost nodes2 = builder@;
    proof {
        lemma_extend(nodes2, nodes1);
        lemma_extend(nodes1, nodes0);
        builder.lemma_wf();
    }
    let r = match quantifier {
        Quantifier::ForAll => builder.and(f, t),
        Quantifier::Exists => builder.or(f, t),
    };
    proof {
        reveal(step_of);
        let fin = builder@;
        lemma_extend(fin, nodes2);
        lemma_substituted_extend(nodes2, nodes1, exp as int, var as int, false, f as int);
        lemma_subst_step_extend(nodes2, nodes1, exp as int, var as int, false, f as int);
        lemma_substituted_extend(fin, nodes2, exp as int, var as int, false, f as int);
        lemma_subst_step_extend(fin, nodes2, exp as int, var as int, false, f as int);
        lemma_substituted_extend(fin, nodes2, exp as int, var as int, true, t as int);
        lemma_subst_step_extend(fin, nodes2, exp as int, var as int, true, t as int);
        match quantifier {
            Quantifier::ForAll => {},
            Quantifier::Exists => {
                let (na, nb, c) = choose|na: int, nb: int, c: int|
                    #![trigger builder.and_result(na, nb), fin[c]]
                    not_shape(fin, f as int, fin, na) && not_shape(fin, t as int, fin, nb)
                        && builder.and_result(na, nb) == Some(c) && and_spec(fin, na, nb, c) && not_shape(
                        fin,
                        c,
                        fin,
                        r as int,
                    );
                assert(not_shape(fin, f as int, fin, na) && not_shape(fin, t as int, fin, nb) && and_spec(fin, na, nb, c)
                    && not_shape(fin, c, fin, r as int));
            },
        }
        assert(substituted(fin, exp as int, var as int, false, f as int) && substituted(
            fin,
            exp as int,
            var as int,
            true,
            t as int,
        ));
    }
    r
}

/// Decides a formula by eliminating its variables innermost first, each by
/// `expand`. Gives up with `BudgetExceeded` as soon as the formula has more
/// than `budget` nodes after a step: an answer comes only with the chain of
/// steps from the matrix to the constant, each within the budget. An answer
/// is the truth of the formula under every environment of the variables that
/// the prefix leaves free. The graph stays within `exp_growth` of its size;
/// the formula itself is kept.
#[verifier::rlimit(60)]
pub fn solve(problem: &mut QBF, budget: usize) -> (r: Result<Solution, SolveError>)
    requires
        old(problem).builder.wf(),
        old(problem).expr < old(problem).builder@.len(),
        block_total(old(problem).quantifier_blocks@) < u32::MAX,
    ensures
        final(problem).builder.wf(),
        extends(final(problem).builder@, old(problem).builder@),
        final(problem).expr == old(problem).expr,
        final(problem).first_quantifier == old(problem).first_quantifier,
        final(problem).quantifier_blocks@ == old(problem).quantifier_blocks@,
        r matches Ok(s) ==> forall|env: spec_fn(int) -> bool| #[trigger]
            qbf_holds(old(problem), env) == (s == Solution::Sat),
        r matches Err(e) ==> e == SolveError::FreeVariable || e == SolveError::BudgetExceeded
            || e == SolveError::CapacityExceeded,
        r == Err::<Solution, SolveError>(SolveError::FreeVariable) ==> exists|x: int|
            #[trigger] mentions(old(problem).builder@, old(problem).expr as int, x) && x >= block_total(
                old(problem).quantifier_blocks@,
            ),
        r == Err::<Solution, SolveError>(SolveError::BudgetExceeded) ==> exists|e: int, j: int|
            #[trigger] formula_after(final(problem).builder@, *old(problem), j, e) && count_below(
                final(problem).builder@,
                e,
                0,
                e + 1,
            ) > budget,
        r == Err::<Solution, SolveError>(SolveError::BudgetExceeded) ==> budget < final(problem).builder@.len(),
        r == Err::<Solution, SolveError>(SolveError::CapacityExceeded) ==> final(problem).builder@.len()
            > EXPANSION_LIMIT,
        final(problem).builder@.len() <= exp_growth(
            old(problem).builder@.len(),
            block_total(old(problem).quantifier_blocks@),
        ),
        r == Err::<Solution, SolveError>(SolveError::CapacityExceeded) ==> exp_growth(
            old(problem).builder@.len(),
            block_total(old(problem).quantifier_blocks@),
        ) > EXPANSION_LIMIT,
        r matches Ok(s) ==> exists|ws: Seq<int>|
            #[trigger] steps_ok(
                final(problem).builder@,
                prefix(old(problem).first_quantifier, old(problem).quantifier_blocks@),
                0,
                ws,
                budget as int,
            ) && ws.last() == old(problem).expr && ws[0] == if s == Solution::Sat {
                TRUE as int
            } else {
                FALSE as int
            },
{
    let ghost p = *old(problem);
    let first_quantifier = problem.first_quantifier;
    let expr = problem.expr;
    let ghost nodes0 = problem.builder@;
    let ghost orig = expr as int;
    let quants = quantifier_list(first_quantifier, &problem.quantifier_blocks);
    proof {
        lemma_prefix_len(first_quantifier, problem.quantifier_blocks@);
        assert forall|env: spec_fn(int) -> bool| #[trigger]
            eval(nodes0, orig, env) == holds(nodes0, quants@, quants@.len() as int, orig, env) by {}
    }
    let n = quants.len();
    let mut e = expr;
    let mut j = n;
    let ghost mut ws: Seq<int> = seq![expr as int];
    let ghost len0 = nodes0.len();
    proof {
        reveal(steps_ok);
        assert(steps_ok(problem.builder@, quants@, n as int, ws, budget as int));
    }
    while j > 0
        invariant
            j <= n == quants@.len(),
            quants@ == prefix(p.first_quantifier, p.quantifier_blocks@),
            problem.expr == p.expr,
            problem.first_quantifier == p.first_quantifier,
            problem.quantifier_blocks@ == p.quantifier_blocks@,
            nodes0 == p.builder@,
            p == *old(problem),
            orig == p.expr as int,
            n < u32::MAX,
            problem.builder.wf(),
            extends(problem.builder@, nodes0),
            0 <= orig < nodes0.len(),
            e < problem.builder@.len(),
            forall|env: spec_fn(int) -> bool| #[trigger]
                eval(problem.builder@, e as int, env) == holds(nodes0, quants@, j as int, orig, env),
            forall|x: int| #[trigger] mentions(problem.builder@, e as int, x) ==> mentions(nodes0, orig, x) && (x
                < j || x >= n),
            len0 == nodes0.len(),
            n == block_total(p.quantifier_blocks@),
            problem.builder@.len() <= exp_growth(len0, (n - j) as nat),
            steps_ok(problem.builder@, quants@, j as int, ws, budget as int),
            ws.len() == n - j + 1,
            ws[0] == e,
            ws.last() == orig,
        decreases j,
    {
        if problem.builder.len() > EXPANSION_LIMIT {
            proof {
                lemma_exp_growth_mono(len0, (n - j) as nat, n as nat);
            }
            return Err(SolveError::CapacityExceeded);
        }
        let v = j - 1;
        let ghost nodes1 = problem.builder@;
        proof {
            problem.builder.lemma_wf();
        }
        let prev = e;
        e = expand(&mut problem.builder, quants[v], v as u32, prev);
        proof {
            lemma_steps_extend(problem.builder@, nodes1, quants@, j as int, ws, budget as int);
            assert(problem.builder@.len() <= exp_growth(len0, (n - v) as nat));
            lemma_exp_growth_mono(len0, (n - v) as nat, n as nat);
            lemma_extend(problem.builder@, nodes1);
            assert forall|env: spec_fn(int) -> bool| #[trigger]
                eval(problem.builder@, e as int, env) == holds(nodes0, quants@, v as int, orig, env) by {
                assert(eval(nodes1, prev as int, assign(env, v as int, false)) == holds(nodes0, quants@, j as int, orig, assign(env, v as int, false)));
                assert(eval(nodes1, prev as int, assign(env, v as int, true)) == holds(nodes0, quants@, j as int, orig, assign(env, v as int, true)));
            }
        }
        if problem.builder.size(e) > budget {
            proof {
                lemma_count_below_le(problem.builder@, e as int, 0, e + 1);
                problem.builder.lemma_wf();
                lemma_prefix_len(p.first_quantifier, p.quantifier_blocks@);
                assert(formula_after(problem.builder@, p, v as int, e as int));
            }
            return Err(SolveError::BudgetExceeded);
        }
        proof {
            lemma_steps_push(problem.builder@, quants@, j as int, ws, budget as int, e as int);
            let ghost old_ws = ws;
            ws = seq![e as int] + ws;
            assert(ws[old_ws.len() as int] == old_ws[old_ws.len() - 1]);
            assert(ws.last() == old_ws.last());
            assert(ws[0] == e);
        }
        j = v;
    }
    proof {
        assert(quants@ == prefix(p.first_quantifier, p.quantifier_blocks@));
    }
    if e == TRUE {
        proof {
            problem.builder.lemma_wf();
            assert forall|env: spec_fn(int) -> bool| #[trigger] qbf_holds(&p, env) by {
                assert(eval(problem.builder@, e as int, env));
            }
        }
        Ok(Solution::Sat)
    } else if e == FALSE {
        proof {
            problem.builder.lemma_wf();
            assert forall|env: spec_fn(int) -> bool| !#[trigger] qbf_holds(&p, env) by {
                assert(!eval(problem.builder@, e as int, env));
            }
        }
        Ok(Solution::Unsat)
    } else {
        proof {
            problem.builder.lemma_wf();
            if forall|x: int| !#[trigger] mentions(problem.builder@, e as int, x) {
                lemma_closed_is_constant(problem.builder@, e as int);
            }
            let x = choose|x: int| #[trigger] mentions(problem.builder@, e as int, x);
            lemma_mentions_nonneg(problem.builder@, e as int, x);
            assert(mentions(nodes0, orig, x));
        }
        Err(SolveError::FreeVariable)
    }
}

} // verus!
