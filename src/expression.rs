//! The expression graph: hash-consed, self-simplifying AND/NOT/VAR/constant
//! nodes held in an arena and addressed by integer handles.
use vstd::prelude::*;
use std::collections::HashMap;
use std::collections::HashSet;
use crate::vars::Vars;

verus! {

broadcast use vstd::std_specs::hash::group_hash_axioms;

/// One node of the graph. Operands are handles of nodes built earlier.
#[derive(Clone, Copy, Debug, PartialEq, Eq, Structural)]
pub enum Exp {
    And(usize, usize),
    Not(usize),
    Var(u32),
    True,
    False,
}

/// The handle of the constant true in every builder.
pub const TRUE: usize = 0;

/// The handle of the constant false in every builder.
pub const FALSE: usize = 1;

/// The truth value of node `i` when each variable `v` has the value `env(v)`.
pub open spec fn eval(nodes: Seq<Exp>, i: int, env: spec_fn(int) -> bool) -> bool
    decreases i,
{
    if 0 <= i < nodes.len() {
        match nodes[i] {
            Exp::And(l, r) => if l < i && r < i {
                eval(nodes, l as int, env) && eval(nodes, r as int, env)
            } else {
                false
            },
            Exp::Not(x) => if x < i {
                !eval(nodes, x as int, env)
            } else {
                false
            },
            Exp::Var(v) => env(v as int),
            Exp::True => true,
            Exp::False => false,
        }
    } else {
        false
    }
}

/// Whether variable `x` occurs in the subgraph below node `i`.
pub open spec fn mentions(nodes: Seq<Exp>, i: int, x: int) -> bool
    decreases i,
{
    if 0 <= i < nodes.len() {
        match nodes[i] {
            Exp::And(l, r) => if l < i && r < i {
                mentions(nodes, l as int, x) || mentions(nodes, r as int, x)
            } else {
                false
            },
            Exp::Not(y) => if y < i {
                mentions(nodes, y as int, x)
            } else {
                false
            },
            Exp::Var(v) => v == x,
            _ => false,
        }
    } else {
        false
    }
}

/// Node `i` is in reduced form: its operands come before it, a negation is
/// never applied to a negation or a constant, a conjunction never has a
/// constant operand, lists its operands in order, and has neither operand a
/// conjunction that contains the other.
pub open spec fn reduced_at(nodes: Seq<Exp>, i: int) -> bool {
    match nodes[i] {
        Exp::And(l, r) => FALSE < l <= r < i && !absorbs(nodes, l as int, r as int) && !absorbs(
            nodes,
            r as int,
            l as int,
        ),
        Exp::Not(x) => FALSE < x < i && !(nodes[x as int] is Not),
        _ => true,
    }
}

/// A well-formed graph: the two constants at their fixed handles, every node
/// reduced, and no node present twice.
pub open spec fn graph_wf(nodes: Seq<Exp>) -> bool {
    &&& nodes.len() >= 2
    &&& nodes[TRUE as int] == Exp::True
    &&& nodes[FALSE as int] == Exp::False
    &&& forall|i: int| 0 <= i < nodes.len() ==> #[trigger] reduced_at(nodes, i)
    &&& forall|i: int, j: int|
        0 <= i < nodes.len() && 0 <= j < nodes.len() && #[trigger] nodes[i] == #[trigger] nodes[j]
            ==> i == j
}

/// `new` keeps every node of `old` at its handle.
pub open spec fn extends(new: Seq<Exp>, old: Seq<Exp>) -> bool {
    old.len() <= new.len() && forall|i: int| 0 <= i < old.len() ==> #[trigger] new[i] == old[i]
}

proof fn lemma_extend_at(new: Seq<Exp>, old: Seq<Exp>, i: int, env: spec_fn(int) -> bool, x: int)
    requires
        extends(new, old),
        0 <= i < old.len(),
    ensures
        eval(new, i, env) == eval(old, i, env),
        mentions(new, i, x) == mentions(old, i, x),
    decreases i,
{
    assert(new[i] == old[i]);
    match old[i] {
        Exp::And(l, r) => {
            if l < i && r < i {
                lemma_extend_at(new, old, l as int, env, x);
                lemma_extend_at(new, old, r as int, env, x);
            }
        },
        Exp::Not(y) => {
            if y < i {
                lemma_extend_at(new, old, y as int, env, x);
            }
        },
        _ => {},
    }
}

/// Adding nodes changes neither the value nor the variables of a node built before.
pub proof fn lemma_extend(new: Seq<Exp>, old: Seq<Exp>)
    requires
        extends(new, old),
    ensures
        forall|i: int, env: spec_fn(int) -> bool|
            0 <= i < old.len() ==> #[trigger] eval(new, i, env) == eval(old, i, env),
        forall|i: int, x: int|
            0 <= i < old.len() ==> #[trigger] mentions(new, i, x) == mentions(old, i, x),
{
    assert forall|i: int, env: spec_fn(int) -> bool|
        0 <= i < old.len() implies #[trigger] eval(new, i, env) == eval(old, i, env) by {
        lemma_extend_at(new, old, i, env, 0);
    }
    assert forall|i: int, x: int|
        0 <= i < old.len() implies #[trigger] mentions(new, i, x) == mentions(old, i, x) by {
        lemma_extend_at(new, old, i, |v: int| true, x);
    }
}

/// Which handle `not` returns for `a`: a constant flips, a negation gives back
/// its operand, and any other node gets its negation node in `after`.
pub open spec fn not_shape(before: Seq<Exp>, a: int, after: Seq<Exp>, r: int) -> bool {
    match before[a] {
        Exp::True => r == FALSE,
        Exp::False => r == TRUE,
        Exp::Not(x) => r == x,
        _ => after[r] == Exp::Not(a as usize),
    }
}

/// Negating twice gives back the very handle one started from, whatever the
/// node: `not(not(e)) == e`.
pub proof fn lemma_not_not(s0: Seq<Exp>, s1: Seq<Exp>, s2: Seq<Exp>, e: usize, n: usize, r: usize)
    requires
        graph_wf(s0),
        graph_wf(s1),
        graph_wf(s2),
        extends(s1, s0),
        extends(s2, s1),
        e < s0.len(),
        n < s1.len(),
        r < s2.len(),
        not_shape(s0, e as int, s1, n as int),
        not_shape(s1, n as int, s2, r as int),
    ensures
        r == e,
{
    assert(reduced_at(s0, e as int));
    match s0[e as int] {
        Exp::True => {
            assert(s0[TRUE as int] == s0[e as int]);
        },
        Exp::False => {
            assert(s0[FALSE as int] == s0[e as int]);
        },
        Exp::Not(x) => {
            assert(s1[x as int] == s0[x as int]);
            assert(s0[x as int] != Exp::True) by {
                if s0[x as int] == Exp::True {
                    assert(s0[TRUE as int] == s0[x as int]);
                }
            }
            assert(s0[x as int] != Exp::False) by {
                if s0[x as int] == Exp::False {
                    assert(s0[FALSE as int] == s0[x as int]);
                }
            }
            assert(s2[e as int] == s0[e as int]);
            assert(s2[r as int] == s2[e as int]);
        },
        _ => {
            assert(s1[n as int] == Exp::Not(e));
        },
    }
}

/// Two environments that agree on the variables below node `i` give it the same value.
pub proof fn lemma_eval_agree(
    nodes: Seq<Exp>,
    i: int,
    env1: spec_fn(int) -> bool,
    env2: spec_fn(int) -> bool,
)
    requires
        forall|x: int| #[trigger] mentions(nodes, i, x) ==> env1(x) == env2(x),
    ensures
        eval(nodes, i, env1) == eval(nodes, i, env2),
    decreases i,
{
    if 0 <= i < nodes.len() {
        match nodes[i] {
            Exp::And(l, r) => {
                if l < i && r < i {
                    assert forall|x: int| #[trigger] mentions(nodes, l as int, x) implies env1(x) == env2(x) by {
                        assert(mentions(nodes, i, x));
                    }
                    assert forall|x: int| #[trigger] mentions(nodes, r as int, x) implies env1(x) == env2(x) by {
                        assert(mentions(nodes, i, x));
                    }
                    lemma_eval_agree(nodes, l as int, env1, env2);
                    lemma_eval_agree(nodes, r as int, env1, env2);
                }
            },
            Exp::Not(y) => {
                if y < i {
                    assert forall|x: int| #[trigger] mentions(nodes, y as int, x) implies env1(x) == env2(x) by {
                        assert(mentions(nodes, i, x));
                    }
                    lemma_eval_agree(nodes, y as int, env1, env2);
                }
            },
            Exp::Var(v) => {
                assert(mentions(nodes, i, v as int));
            },
            _ => {},
        }
    }
}

/// Variables are numbered from zero.
pub proof fn lemma_mentions_nonneg(nodes: Seq<Exp>, i: int, x: int)
    requires
        mentions(nodes, i, x),
    ensures
        x >= 0,
    decreases i,
{
    match nodes[i] {
        Exp::And(l, r) => {
            if mentions(nodes, l as int, x) {
                lemma_mentions_nonneg(nodes, l as int, x);
            } else {
                lemma_mentions_nonneg(nodes, r as int, x);
            }
        },
        Exp::Not(y) => {
            lemma_mentions_nonneg(nodes, y as int, x);
        },
        _ => {},
    }
}

/// The key under which an ordered pair of handles is tabled.
pub open spec fn pair_key(a: int, b: int) -> int {
    a * 0x1_0000_0000_0000_0000 + b
}

proof fn lemma_pair_key_injective(a1: usize, b1: usize, a2: usize, b2: usize)
    requires
        pair_key(a1 as int, b1 as int) == pair_key(a2 as int, b2 as int),
    ensures
        a1 == a2,
        b1 == b2,
{
    let k = pair_key(a1 as int, b1 as int);
    assert(b1 <= u64::MAX && b2 <= u64::MAX);
    vstd::arithmetic::div_mod::lemma_fundamental_div_mod_converse(
        k,
        0x1_0000_0000_0000_0000,
        a1 as int,
        b1 as int,
    );
    vstd::arithmetic::div_mod::lemma_fundamental_div_mod_converse(
        k,
        0x1_0000_0000_0000_0000,
        a2 as int,
        b2 as int,
    );
}

fn key_of(a: usize, b: usize) -> (k: u128)
    ensures
        k == pair_key(a as int, b as int),
{
    assert(a <= u64::MAX && b <= u64::MAX);
    assert((a as int) * 0x1_0000_0000_0000_0000 + (b as int) <= u128::MAX) by (nonlinear_arith)
        requires
            a <= u64::MAX,
            b <= u64::MAX,
    ;
    (a as u128) * 0x1_0000_0000_0000_0000u128 + (b as u128)
}

/// Node `a` is `not(and(q, p))` where `q` or `p` is `b` or `not(b)`: the
/// forms that `match_and` rewrites in a conjunction with `b`.
pub open spec fn rewrites(nodes: Seq<Exp>, a: int, b: int) -> bool {
    nodes[a] matches Exp::Not(u) && nodes[u as int] matches Exp::And(q, p) && (q == b || p == b
        || nodes[q as int] == Exp::Not(b as usize) || nodes[p as int] == Exp::Not(b as usize))
}

/// Node `a` is a conjunction with `b` as an operand.
pub open spec fn absorbs(nodes: Seq<Exp>, a: int, b: int) -> bool {
    nodes[a] matches Exp::And(p, q) && (p == b || q == b)
}

/// What a conjunction of `a` and `b` must be: its value and variables, the
/// simplifications by constants and by absorption, false for a node and its
/// negation, and otherwise either the
/// constant false or, where neither is rewritten by `match_and`, the
/// conjunction node of the two handles in order.
pub open spec fn and_spec(nodes: Seq<Exp>, a: int, b: int, r: int) -> bool {
    &&& 0 <= a < nodes.len()
    &&& 0 <= b < nodes.len()
    &&& 0 <= r < nodes.len()
    &&& forall|env: spec_fn(int) -> bool| #[trigger]
        eval(nodes, r, env) == (eval(nodes, a, env) && eval(nodes, b, env))
    &&& forall|x: int| #[trigger] mentions(nodes, r, x) ==> mentions(nodes, a, x) || mentions(nodes, b, x)
    &&& (a == FALSE || b == FALSE ==> r == FALSE)
    &&& (nodes[b] == Exp::Not(a as usize) || nodes[a] == Exp::Not(b as usize) ==> r == FALSE)
    &&& (a == TRUE ==> r == b)
    &&& (b == TRUE ==> r == a)
    &&& (forall|p: usize, q: usize| #[trigger] nodes[a] == Exp::And(p, q) && (p == b || q == b) ==> r == a)
    &&& (forall|p: usize, q: usize| #[trigger] nodes[b] == Exp::And(p, q) && (p == a || q == a) ==> r == b)
    &&& (a != TRUE && a != FALSE && b != TRUE && b != FALSE && !absorbs(nodes, a, b) && !absorbs(nodes, b, a)
        && !rewrites(nodes, a, b) && !rewrites(nodes, b, a) ==> r == FALSE || nodes[r] == if a <= b {
        Exp::And(a as usize, b as usize)
    } else {
        Exp::And(b as usize, a as usize)
    })
}

/// What `collect` has found below `root`: each node in `trues` is true and
/// each node in `falses` is false wherever `root` is true; the lists hold
/// members of the sets.
pub open spec fn implied_ok(
    nodes: Seq<Exp>,
    root: int,
    trues: Set<usize>,
    true_list: Seq<usize>,
    falses: Set<usize>,
) -> bool {
    &&& forall|t: usize| #[trigger] trues.contains(t) ==> t < nodes.len() && forall|env: spec_fn(int) -> bool|
        eval(nodes, root, env) ==> #[trigger] eval(nodes, t as int, env)
    &&& forall|f: usize| #[trigger] falses.contains(f) ==> f < nodes.len() && forall|env: spec_fn(int) -> bool|
        eval(nodes, root, env) ==> !#[trigger] eval(nodes, f as int, env)
    &&& forall|i: int| 0 <= i < true_list.len() ==> trues.contains(#[trigger] true_list[i])
    &&& forall|t: usize| #[trigger] trues.contains(t) ==> true_list.contains(t)
    &&& forall|t: usize| #[trigger] trues.contains(t) && nodes[t as int] is Not ==> falses.contains(
        nodes[t as int]->Not_0,
    )
}

proof fn lemma_rewrites_extend(new: Seq<Exp>, old: Seq<Exp>, a: int, b: int)
    requires
        graph_wf(old),
        extends(new, old),
        0 <= a < old.len(),
    ensures
        rewrites(new, a, b) == rewrites(old, a, b),
{
    assert(reduced_at(old, a));
    if let Exp::Not(u) = old[a] {
        assert(reduced_at(old, u as int));
        assert(new[u as int] == old[u as int]);
        if let Exp::And(q, p) = old[u as int] {
            assert(new[q as int] == old[q as int]);
            assert(new[p as int] == old[p as int]);
        }
    }
}

/// `and_spec` does not depend on the order of the operands.
pub proof fn lemma_and_spec_symmetric(nodes: Seq<Exp>, a: int, b: int, r: int)
    requires
        and_spec(nodes, a, b, r),
    ensures
        and_spec(nodes, b, a, r),
{
    assert forall|env: spec_fn(int) -> bool| #[trigger]
        eval(nodes, r, env) == (eval(nodes, b, env) && eval(nodes, a, env)) by {
        assert(eval(nodes, r, env) == (eval(nodes, a, env) && eval(nodes, b, env)));
    }
}

/// Adding nodes keeps what a conjunction of two earlier nodes was.
pub proof fn lemma_and_spec_extend(new: Seq<Exp>, old: Seq<Exp>, a: int, b: int, c: int)
    requires
        graph_wf(old),
        extends(new, old),
        and_spec(old, a, b, c),
    ensures
        and_spec(new, a, b, c),
{
    lemma_extend(new, old);
    lemma_rewrites_extend(new, old, a, b);
    lemma_rewrites_extend(new, old, b, a);
    lemma_absorbs_extend(new, old, a, b);
    lemma_absorbs_extend(new, old, b, a);
    assert(new[c] == old[c]);
    assert(new[a] == old[a]);
    assert(new[b] == old[b]);
    assert forall|p: usize, q: usize| #[trigger]
        new[a] == Exp::And(p, q) && (p == b || q == b) implies c == a by {
        assert(old[a] == Exp::And(p, q));
    }
    assert forall|p: usize, q: usize| #[trigger]
        new[b] == Exp::And(p, q) && (p == a || q == a) implies c == b by {
        assert(old[b] == Exp::And(p, q));
    }
    assert forall|env: spec_fn(int) -> bool| #[trigger]
        eval(new, c, env) == (eval(new, a, env) && eval(new, b, env)) by {
        assert(eval(old, c, env) == (eval(old, a, env) && eval(old, b, env)));
    }
    assert forall|x: int| #[trigger] mentions(new, c, x) implies mentions(new, a, x) || mentions(new, b, x) by {
        assert(mentions(old, c, x) ==> mentions(old, a, x) || mentions(old, b, x));
    }
}

proof fn lemma_absorbs_extend(new: Seq<Exp>, old: Seq<Exp>, a: int, b: int)
    requires
        extends(new, old),
        0 <= a < old.len(),
    ensures
        absorbs(new, a, b) == absorbs(old, a, b),
{
    assert(new[a] == old[a]);
}

/// The builder of one graph: its nodes, the set of variables below each node,
/// the tables that keep every node unique, and the conjunctions already made.
pub struct Builder {
    nodes: Vec<Exp>,
    vars: Vec<Vars>,
    ands: HashMap<u128, usize>,
    nots: HashMap<usize, usize>,
    var_nodes: HashMap<u32, usize>,
    conjunctions: HashMap<u128, usize>,
}

impl View for Builder {
    type V = Seq<Exp>;

    closed spec fn view(&self) -> Seq<Exp> {
        self.nodes@
    }
}

impl Builder {
    pub closed spec fn wf(&self) -> bool {
        let nodes = self.nodes@;
        &&& graph_wf(nodes)
        &&& nodes.len() < usize::MAX
        &&& self.vars@.len() == nodes.len()
        &&& forall|i: int, x: int|
            0 <= i < nodes.len() ==> #[trigger] self.vars@[i].has(x) == mentions(nodes, i, x)
        &&& forall|i: int|
            0 <= i < nodes.len() ==> match #[trigger] nodes[i] {
                Exp::And(l, r) => self.ands@.contains_key(pair_key(l as int, r as int) as u128)
                    && self.ands@[pair_key(l as int, r as int) as u128] == i,
                Exp::Not(x) => self.nots@.contains_key(x) && self.nots@[x] == i,
                Exp::Var(v) => self.var_nodes@.contains_key(v) && self.var_nodes@[v] == i,
                _ => true,
            }
        &&& forall|k: u128| #[trigger]
            self.ands@.contains_key(k) ==> {
                let i = self.ands@[k] as int;
                0 <= i < nodes.len() && (nodes[i] matches Exp::And(l, r) && pair_key(
                    l as int,
                    r as int,
                ) == k)
            }
        &&& forall|x: usize| #[trigger]
            self.nots@.contains_key(x) ==> {
                let i = self.nots@[x] as int;
                0 <= i < nodes.len() && nodes[i] == Exp::Not(x)
            }
        &&& forall|v: u32| #[trigger]
            self.var_nodes@.contains_key(v) ==> {
                let i = self.var_nodes@[v] as int;
                0 <= i < nodes.len() && nodes[i] == Exp::Var(v)
            }
        &&& forall|a: usize, b: usize| #[trigger]
            self.conjunctions@.contains_key(pair_key(a as int, b as int) as u128) ==> and_spec(
                nodes,
                a as int,
                b as int,
                self.conjunctions@[pair_key(a as int, b as int) as u128] as int,
            )
    }

    /// The conjunction of `a` and `b` recorded by an earlier call of `and`, if any.
    pub closed spec fn and_result(&self, a: int, b: int) -> Option<int> {
        let k = if a <= b {
            pair_key(a, b)
        } else {
            pair_key(b, a)
        };
        if self.conjunctions@.contains_key(k as u128) {
            Some(self.conjunctions@[k as u128] as int)
        } else {
            None
        }
    }

    /// Every conjunction recorded in `earlier` is still recorded, with the same result.
    pub closed spec fn remembers(&self, earlier: Builder) -> bool {
        forall|k: u128| #[trigger]
            earlier.conjunctions@.contains_key(k) ==> self.conjunctions@.contains_key(k)
                && self.conjunctions@[k] == earlier.conjunctions@[k]
    }

    /// A conjunction recorded in an earlier builder stays recorded, with the
    /// same result, in every later one.
    pub proof fn lemma_and_result_kept(&self, earlier: Builder, a: int, b: int)
        requires
            self.remembers(earlier),
            earlier.and_result(a, b) is Some,
        ensures
            self.and_result(a, b) == earlier.and_result(a, b),
    {
    }

    /// A recorded conjunction is what `and` gives: its value, variables and
    /// simplifications, as `and_spec` states them.
    pub proof fn lemma_and_result_spec(&self, a: int, b: int)
        requires
            self.wf(),
            self.and_result(a, b) is Some,
            0 <= a < self@.len(),
            0 <= b < self@.len(),
        ensures
            and_spec(self@, a, b, self.and_result(a, b)->0),
    {
        let (lo, hi) = if a <= b { (a, b) } else { (b, a) };
        assert(lo as usize as int == lo && hi as usize as int == hi);
        assert(self.conjunctions@.contains_key(pair_key((lo as usize) as int, (hi as usize) as int) as u128));
        assert(and_spec(self@, lo, hi, self.and_result(a, b)->0));
        lemma_and_spec_symmetric(self@, lo, hi, self.and_result(a, b)->0);
    }

    pub proof fn lemma_remembers_self(&self)
        ensures
            self.remembers(*self),
    {
    }

    pub proof fn lemma_remembers_trans(&self, mid: Builder, first: Builder)
        requires
            self.remembers(mid),
            mid.remembers(first),
        ensures
            self.remembers(first),
    {
    }

    pub proof fn lemma_wf(&self)
        requires
            self.wf(),
        ensures
            graph_wf(self@),
            self@.len() < usize::MAX,
    {
    }

    pub fn new() -> (r: Builder)
        ensures
            r.wf(),
            r@ == seq![Exp::True, Exp::False],
    {
        let mut nodes: Vec<Exp> = Vec::new();
        nodes.push(Exp::True);
        nodes.push(Exp::False);
        let mut vars: Vec<Vars> = Vec::new();
        vars.push(Vars::new());
        vars.push(Vars::new());
        let b = Builder {
            nodes,
            vars,
            ands: HashMap::new(),
            nots: HashMap::new(),
            var_nodes: HashMap::new(),
            conjunctions: HashMap::new(),
        };
        assert(b.nodes@[0] == Exp::True && b.nodes@[1] == Exp::False);
        b
    }

    /// The number of nodes built so far.
    pub fn len(&self) -> (r: usize)
        ensures
            r == self@.len(),
    {
        self.nodes.len()
    }

    /// The node behind handle `i`.
    pub fn node(&self, i: usize) -> (r: Exp)
        requires
            i < self@.len(),
        ensures
            r == self@[i as int],
    {
        self.nodes[i]
    }

    /// Whether variable `v` occurs below node `e`; a constant-time lookup.
    pub fn has_var(&self, e: usize, v: u32) -> (r: bool)
        requires
            self.wf(),
            e < self@.len(),
        ensures
            r == mentions(self@, e as int, v as int),
    {
        self.vars[e].get(v)
    }

    /// The variables that occur below node `e`.
    pub fn vars_of(&self, e: usize) -> (r: &Vars)
        requires
            self.wf(),
            e < self@.len(),
        ensures
            forall|x: int| #[trigger] r.has(x) == mentions(self@, e as int, x),
    {
        &self.vars[e]
    }

    /// Appends a node that is not yet in the graph.
    fn push_node(&mut self, e: Exp, vs: Vars) -> (r: usize)
        requires
            old(self).wf(),
            e != Exp::True && e != Exp::False,
            forall|j: int| 0 <= j < old(self)@.len() ==> old(self)@[j] != e,
            reduced_at(old(self)@.push(e), old(self)@.len() as int),
            forall|x: int| #[trigger]
                vs.has(x) == mentions(old(self)@.push(e), old(self)@.len() as int, x),
            old(self)@.len() + 1 < usize::MAX,
        ensures
            final(self).wf(),
            final(self)@ == old(self)@.push(e),
            r == old(self)@.len(),
            final(self).conjunctions@ == old(self).conjunctions@,
    {
        let ghost old_nodes = self.nodes@;
        let r = self.nodes.len();
        match e {
            Exp::And(l, rr) => {
                let k = key_of(l, rr);
                self.ands.insert(k, r);
            },
            Exp::Not(x) => {
                self.nots.insert(x, r);
            },
            Exp::Var(v) => {
                self.var_nodes.insert(v, r);
            },
            _ => {},
        }
        self.nodes.push(e);
        self.vars.push(vs);
        let ghost nodes = self.nodes@;
        proof {
            lemma_extend(nodes, old_nodes);
            assert(extends(nodes, old_nodes));
            assert forall|i: int| 0 <= i < nodes.len() implies #[trigger] reduced_at(nodes, i) by {
                if i < old_nodes.len() {
                    assert(reduced_at(old_nodes, i));
                    match nodes[i] {
                        Exp::Not(x) => {
                            assert(nodes[x as int] == old_nodes[x as int]);
                        },
                        Exp::And(l, r) => {
                            assert(nodes[l as int] == old_nodes[l as int]);
                            assert(nodes[r as int] == old_nodes[r as int]);
                        },
                        _ => {},
                    }
                }
            }
            assert forall|i: int, j: int|
                0 <= i < nodes.len() && 0 <= j < nodes.len() && #[trigger] nodes[i]
                    == #[trigger] nodes[j] implies i == j by {
                if i < old_nodes.len() && j < old_nodes.len() {
                    assert(old_nodes[i] == old_nodes[j]);
                }
            }
            assert forall|i: int, x: int| 0 <= i < nodes.len() implies #[trigger] self.vars@[i].has(
                x,
            ) == mentions(nodes, i, x) by {
                if i < old_nodes.len() {
                    assert(old(self).vars@[i].has(x) == mentions(old_nodes, i, x));
                }
            }
            assert forall|i: int| 0 <= i < nodes.len() implies match #[trigger] nodes[i] {
                Exp::And(l, r) => self.ands@.contains_key(pair_key(l as int, r as int) as u128)
                    && self.ands@[pair_key(l as int, r as int) as u128] == i,
                Exp::Not(x) => self.nots@.contains_key(x) && self.nots@[x] == i,
                Exp::Var(v) => self.var_nodes@.contains_key(v) && self.var_nodes@[v] == i,
                _ => true,
            } by {
                if i < old_nodes.len() {
                    assert(old_nodes[i] == nodes[i]);
                    match nodes[i] {
                        Exp::And(l, rr) => {
                            if let Exp::And(l2, r2) = e {
                                if pair_key(l as int, rr as int) == pair_key(l2 as int, r2 as int) {
                                    lemma_pair_key_injective(l, rr, l2, r2);
                                }
                            }
                        },
                        _ => {},
                    }
                }
            }
            assert forall|k: u128| #[trigger] self.ands@.contains_key(k) implies {
                let i = self.ands@[k] as int;
                0 <= i < nodes.len() && (nodes[i] matches Exp::And(l, r) && pair_key(
                    l as int,
                    r as int,
                ) == k)
            } by {
                if old(self).ands@.contains_key(k) && !(e is And && k == pair_key(
                    e->And_0 as int,
                    e->And_1 as int,
                )) {
                    assert(self.ands@[k] == old(self).ands@[k]);
                }
            }
            assert forall|a: usize, b: usize| #[trigger]
                self.conjunctions@.contains_key(pair_key(a as int, b as int) as u128) implies and_spec(
                nodes,
                a as int,
                b as int,
                self.conjunctions@[pair_key(a as int, b as int) as u128] as int,
            ) by {
                let c = self.conjunctions@[pair_key(a as int, b as int) as u128] as int;
                assert(and_spec(old_nodes, a as int, b as int, c));
                lemma_rewrites_extend(nodes, old_nodes, a as int, b as int);
                lemma_rewrites_extend(nodes, old_nodes, b as int, a as int);
                lemma_absorbs_extend(nodes, old_nodes, a as int, b as int);
                lemma_absorbs_extend(nodes, old_nodes, b as int, a as int);
                assert(nodes[c] == old_nodes[c]);
                assert forall|p: usize, q: usize| #[trigger]
                    nodes[a as int] == Exp::And(p, q) && (p == b || q == b) implies c == a by {
                    assert(old_nodes[a as int] == Exp::And(p, q));
                }
                assert forall|p: usize, q: usize| #[trigger]
                    nodes[b as int] == Exp::And(p, q) && (p == a || q == a) implies c == b by {
                    assert(old_nodes[b as int] == Exp::And(p, q));
                }
            }
        }
        r
    }

    pub fn true_(&self) -> (r: usize)
        requires
            self.wf(),
        ensures
            r == TRUE,
            self@[r as int] == Exp::True,
    {
        TRUE
    }

    pub fn false_(&self) -> (r: usize)
        requires
            self.wf(),
        ensures
            r == FALSE,
            self@[r as int] == Exp::False,
    {
        FALSE
    }

    /// The node of variable `v`, built on first use.
    pub fn var(&mut self, v: u32) -> (r: usize)
        requires
            old(self).wf(),
            v < u32::MAX,
            old(self)@.len() + 1 < usize::MAX,
        ensures
            final(self).wf(),
            extends(final(self)@, old(self)@),
            final(self)@.len() <= old(self)@.len() + 1,
            r < final(self)@.len(),
            final(self)@[r as int] == Exp::Var(v),
            final(self).remembers(*old(self)),
    {
        match self.var_nodes.get(&v) {
            Some(i) => *i,
            None => {
                let mut vs = Vars::new();
                vs.add(v);
                self.push_node(Exp::Var(v), vs)
            },
        }
    }

    /// The negation of `a`: a constant flips, a double negation cancels, and
    /// otherwise the unique negation node of `a`.
    pub fn not(&mut self, a: usize) -> (r: usize)
        requires
            old(self).wf(),
            a < old(self)@.len(),
            old(self)@.len() + 1 < usize::MAX,
        ensures
            final(self).wf(),
            extends(final(self)@, old(self)@),
            final(self)@.len() <= old(self)@.len() + 1,
            r < final(self)@.len(),
            forall|env: spec_fn(int) -> bool| #[trigger]
                eval(final(self)@, r as int, env) == !eval(old(self)@, a as int, env),
            forall|x: int| #[trigger]
                mentions(final(self)@, r as int, x) == mentions(old(self)@, a as int, x),
            not_shape(old(self)@, a as int, final(self)@, r as int),
            final(self).remembers(*old(self)),
    {
        proof {
            assert(reduced_at(self@, a as int));
        }
        match self.nodes[a] {
            Exp::True => FALSE,
            Exp::False => TRUE,
            Exp::Not(x) => {
                proof {
                    assert(reduced_at(self@, x as int));
                    assert forall|env: spec_fn(int) -> bool|
                        #[trigger] eval(self@, x as int, env) == !eval(self@, a as int, env) by {
                        assert(eval(self@, a as int, env) == !eval(self@, x as int, env));
                    }
                    assert forall|y: int|
                        #[trigger] mentions(self@, x as int, y) == mentions(self@, a as int, y) by {
                        assert(mentions(self@, a as int, y) == mentions(self@, x as int, y));
                    }
                }
                x
            },
            _ => {
                match self.nots.get(&a) {
                    Some(i) => {
                        let i = *i;
                        proof {
                            assert forall|env: spec_fn(int) -> bool|
                                #[trigger] eval(self@, i as int, env) == !eval(self@, a as int, env) by {
                                assert(self@[i as int] == Exp::Not(a));
                                assert(reduced_at(self@, i as int));
                            }
                            assert forall|x: int|
                                #[trigger] mentions(self@, i as int, x) == mentions(self@, a as int, x) by {
                                assert(self@[i as int] == Exp::Not(a));
                                assert(reduced_at(self@, i as int));
                            }
                        }
                        i
                    },
                    None => {
                        let vs = self.vars[a].copy();
                        let ghost nodes = self@.push(Exp::Not(a));
                        proof {
                            assert(a != TRUE && a != FALSE);
                            lemma_extend(nodes, self@);
                            assert(nodes[self@.len() as int] == Exp::Not(a));
                            assert forall|x: int| #[trigger]
                                vs.has(x) == mentions(nodes, self@.len() as int, x) by {
                                assert(self.vars@[a as int].has(x) == mentions(self@, a as int, x));
                                assert(mentions(nodes, self@.len() as int, x) == mentions(nodes, a as int, x));
                                assert(mentions(nodes, a as int, x) == mentions(self@, a as int, x));
                            }
                            assert forall|j: int| 0 <= j < self@.len() implies self@[j] != Exp::Not(a) by {
                                if self@[j] == Exp::Not(a) {
                                    assert(self.nots@.contains_key(a));
                                }
                            }
                        }
                        let r = self.push_node(Exp::Not(a), vs);
                        proof {
                            lemma_extend(self@, old(self)@);
                            assert forall|env: spec_fn(int) -> bool|
                                #[trigger] eval(self@, r as int, env) == !eval(old(self)@, a as int, env) by {
                                assert(eval(self@, r as int, env) == !eval(self@, a as int, env));
                            }
                            assert forall|y: int|
                                #[trigger] mentions(self@, r as int, y) == mentions(old(self)@, a as int, y) by {
                                assert(mentions(self@, r as int, y) == mentions(self@, a as int, y));
                            }
                        }
                        r
                    },
                }
            },
        }
    }

    /// Walks down from node `x` through conjunctions, recording each node
    /// reached as implied true, and the operand of each negation reached as
    /// implied false.
    fn collect(
        &self,
        Ghost(root): Ghost<int>,
        x: usize,
        trues: &mut HashSet<usize>,
        true_list: &mut Vec<usize>,
        falses: &mut HashSet<usize>,
    )
        requires
            self.wf(),
            x < self@.len(),
            0 <= root < self@.len(),
            forall|env: spec_fn(int) -> bool| eval(self@, root, env) ==> #[trigger] eval(self@, x as int, env),
            implied_ok(self@, root, old(trues)@, old(true_list)@, old(falses)@),
        ensures
            implied_ok(self@, root, final(trues)@, final(true_list)@, final(falses)@),
            final(trues)@.contains(x),
            forall|t: usize| #[trigger] old(trues)@.contains(t) ==> final(trues)@.contains(t),
        decreases x,
    {
        if trues.contains(&x) {
            return;
        }
        trues.insert(x);
        true_list.push(x);
        proof {
            assert(reduced_at(self@, x as int));
            assert forall|i: int| 0 <= i < true_list@.len() implies trues@.contains(#[trigger] true_list@[i]) by {
                if i < true_list@.len() - 1 {
                    assert(old(true_list)@[i] == true_list@[i]);
                }
            }
            assert forall|t: usize| #[trigger] trues@.contains(t) implies true_list@.contains(t) by {
                if t == x {
                    assert(true_list@[true_list@.len() - 1] == x);
                } else {
                    assert(old(true_list)@.contains(t));
                    let k = choose|k: int| 0 <= k < old(true_list)@.len() && old(true_list)@[k] == t;
                    assert(true_list@[k] == t);
                }
            }
        }
        match self.nodes[x] {
            Exp::And(p, q) => {
                proof {
                    assert forall|env: spec_fn(int) -> bool| eval(self@, root, env) implies #[trigger] eval(self@, p as int, env) by {
                        assert(eval(self@, x as int, env));
                    }
                }
                let ghost t1 = trues@;
                self.collect(Ghost(root), p, trues, true_list, falses);
                let ghost t2 = trues@;
                proof {
                    assert forall|env: spec_fn(int) -> bool| eval(self@, root, env) implies #[trigger] eval(self@, q as int, env) by {
                        assert(eval(self@, x as int, env));
                    }
                }
                self.collect(Ghost(root), q, trues, true_list, falses);
                proof {
                    assert(t1.contains(x));
                    assert(t2.contains(x));
                    assert forall|t: usize| #[trigger] old(trues)@.contains(t) implies trues@.contains(t) by {
                        assert(t1.contains(t));
                        assert(t2.contains(t));
                    }
                }
            },
            Exp::Not(u) => {
                falses.insert(u);
                proof {
                    assert forall|env: spec_fn(int) -> bool| eval(self@, root, env) implies !#[trigger] eval(self@, u as int, env) by {
                        assert(eval(self@, x as int, env));
                    }
                }
            },
            _ => {},
        }
    }

    /// Whether the nodes implied true by `a` meet those implied false by `b`
    /// or the other way round, in which case `a` and `b` cannot both hold.
    fn clash(&self, a: usize, b: usize) -> (r: bool)
        requires
            self.wf(),
            a < self@.len(),
            b < self@.len(),
        ensures
            r ==> forall|env: spec_fn(int) -> bool| !(#[trigger] eval(self@, a as int, env) && eval(self@, b as int, env)),
            self@[b as int] == Exp::Not(a) || self@[a as int] == Exp::Not(b) ==> r,
    {
        let mut ta: HashSet<usize> = HashSet::new();
        let mut la: Vec<usize> = Vec::new();
        let mut fa: HashSet<usize> = HashSet::new();
        proof {
            assert forall|env: spec_fn(int) -> bool| eval(self@, a as int, env) implies #[trigger] eval(self@, a as int, env) by {}
        }
        self.collect(Ghost(a as int), a, &mut ta, &mut la, &mut fa);
        let mut tb: HashSet<usize> = HashSet::new();
        let mut lb: Vec<usize> = Vec::new();
        let mut fb: HashSet<usize> = HashSet::new();
        self.collect(Ghost(b as int), b, &mut tb, &mut lb, &mut fb);
        let mut i: usize = 0;
        while i < la.len()
            invariant
                i <= la@.len(),
                implied_ok(self@, a as int, ta@, la@, fa@),
                implied_ok(self@, b as int, tb@, lb@, fb@),
                ta@.contains(a),
                tb@.contains(b),
                forall|k: int| 0 <= k < i ==> !fb@.contains(#[trigger] la@[k]),
            decreases la@.len() - i,
        {
            let t = la[i];
            if fb.contains(&t) {
                proof {
                    assert(ta@.contains(la@[i as int]));
                    assert forall|env: spec_fn(int) -> bool| !(#[trigger] eval(self@, a as int, env) && eval(self@, b as int, env)) by {
                        if eval(self@, a as int, env) && eval(self@, b as int, env) {
                            assert(eval(self@, t as int, env));
                        }
                    }
                }
                return true;
            }
            i = i + 1;
        }
        let mut j: usize = 0;
        while j < lb.len()
            invariant
                j <= lb@.len(),
                implied_ok(self@, a as int, ta@, la@, fa@),
                implied_ok(self@, b as int, tb@, lb@, fb@),
                ta@.contains(a),
                tb@.contains(b),
                forall|k: int| 0 <= k < la@.len() ==> !fb@.contains(#[trigger] la@[k]),
                forall|k: int| 0 <= k < j ==> !fa@.contains(#[trigger] lb@[k]),
            decreases lb@.len() - j,
        {
            let t = lb[j];
            if fa.contains(&t) {
                proof {
                    assert(tb@.contains(lb@[j as int]));
                    assert forall|env: spec_fn(int) -> bool| !(#[trigger] eval(self@, a as int, env) && eval(self@, b as int, env)) by {
                        if eval(self@, a as int, env) && eval(self@, b as int, env) {
                            assert(eval(self@, t as int, env));
                        }
                    }
                }
                return true;
            }
            j = j + 1;
        }
        proof {
            if self@[b as int] == Exp::Not(a) {
                assert(fb@.contains(a));
                assert(la@.contains(a));
                let k = choose|k: int| 0 <= k < la@.len() && la@[k] == a;
                assert(!fb@.contains(la@[k]));
            }
            if self@[a as int] == Exp::Not(b) {
                assert(fa@.contains(b));
                assert(lb@.contains(b));
                let k = choose|k: int| 0 <= k < lb@.len() && lb@[k] == b;
                assert(!fa@.contains(lb@[k]));
            }
        }
        false
    }

    /// The conjunction of `lo` and `hi`, neither a constant: an operand that
    /// is a conjunction containing the other is the result; otherwise
    /// `make_and`.
    fn absorb_and(&mut self, lo: usize, hi: usize) -> (r: usize)
        requires
            old(self).wf(),
            FALSE < lo <= hi < old(self)@.len(),
            old(self)@.len() + 1 < usize::MAX,
        ensures
            final(self).wf(),
            extends(final(self)@, old(self)@),
            final(self)@.len() <= old(self)@.len() + 1,
            final(self).conjunctions@ == old(self).conjunctions@,
            r < final(self)@.len(),
            forall|env: spec_fn(int) -> bool| #[trigger]
                eval(final(self)@, r as int, env) == (eval(final(self)@, lo as int, env) && eval(
                    final(self)@,
                    hi as int,
                    env,
                )),
            forall|x: int| #[trigger]
                mentions(final(self)@, r as int, x) ==> mentions(final(self)@, lo as int, x) || mentions(
                    final(self)@,
                    hi as int,
                    x,
                ),
    {
        let ghost nodes = self@;
        proof {
            self.lemma_wf();
            assert(reduced_at(nodes, lo as int));
            assert(reduced_at(nodes, hi as int));
        }
        if let Exp::And(p, q) = self.nodes[lo] {
            if p == hi || q == hi {
                proof {
                    assert forall|env: spec_fn(int) -> bool| #[trigger]
                        eval(nodes, lo as int, env) == (eval(nodes, lo as int, env) && eval(nodes, hi as int, env)) by {
                        assert(eval(nodes, lo as int, env) == (eval(nodes, p as int, env) && eval(nodes, q as int, env)));
                    }
                }
                return lo;
            }
        }
        if let Exp::And(p, q) = self.nodes[hi] {
            if p == lo || q == lo {
                proof {
                    assert forall|env: spec_fn(int) -> bool| #[trigger]
                        eval(nodes, hi as int, env) == (eval(nodes, lo as int, env) && eval(nodes, hi as int, env)) by {
                        assert(eval(nodes, hi as int, env) == (eval(nodes, p as int, env) && eval(nodes, q as int, env)));
                    }
                }
                return hi;
            }
        }
        self.make_and(lo, hi)
    }

    /// The conjunction of the negation of `p` with `b`, both operands of
    /// conjunctions and so not constants.
    fn and_not(&mut self, p: usize, b: usize) -> (r: usize)
        requires
            old(self).wf(),
            FALSE < p < old(self)@.len(),
            FALSE < b < old(self)@.len(),
            old(self)@.len() + 2 < usize::MAX,
        ensures
            final(self).wf(),
            extends(final(self)@, old(self)@),
            final(self)@.len() <= old(self)@.len() + 2,
            final(self).remembers(*old(self)),
            r < final(self)@.len(),
            forall|env: spec_fn(int) -> bool| #[trigger]
                eval(final(self)@, r as int, env) == (!eval(old(self)@, p as int, env) && eval(
                    old(self)@,
                    b as int,
                    env,
                )),
            forall|x: int| #[trigger]
                mentions(final(self)@, r as int, x) ==> mentions(old(self)@, p as int, x) || mentions(
                    old(self)@,
                    b as int,
                    x,
                ),
    {
        let ghost s0 = self@;
        let ghost b0 = *self;
        proof {
            self.lemma_wf();
            assert(reduced_at(s0, p as int));
        }
        let n = self.not(p);
        let ghost s1 = self@;
        proof {
            lemma_extend(s1, s0);
            self.lemma_wf();
            match s0[p as int] {
                Exp::Not(x) => {
                    assert(n == x);
                },
                Exp::True => {
                    assert(s0[TRUE as int] == s0[p as int]);
                },
                Exp::False => {
                    assert(s0[FALSE as int] == s0[p as int]);
                },
                _ => {
                    assert(s1[n as int] == Exp::Not(p));
                    assert(n != TRUE && n != FALSE);
                },
            }
        }
        let ghost b1 = *self;
        let (lo, hi) = if n <= b {
            (n, b)
        } else {
            (b, n)
        };
        let r = self.absorb_and(lo, hi);
        proof {
            lemma_extend(self@, s1);
            lemma_extend(self@, s0);
            self.lemma_remembers_trans(b1, b0);
            assert forall|env: spec_fn(int) -> bool| #[trigger]
                eval(self@, r as int, env) == (!eval(s0, p as int, env) && eval(s0, b as int, env)) by {
                assert(eval(s1, n as int, env) == !eval(s0, p as int, env));
            }
            assert forall|x: int| #[trigger] mentions(self@, r as int, x) implies mentions(s0, p as int, x) || mentions(
                s0,
                b as int,
                x,
            ) by {
                assert(mentions(s1, n as int, x) == mentions(s0, p as int, x));
            }
        }
        r
    }

    /// Rewrites a conjunction of `a` with `b` where `a` is `not(and(q, p))`:
    /// with `q` equal to `b` it is `and(not(p), b)`, with `q` equal to
    /// `not(b)` it is `b`, and the same with the roles of `q` and `p`
    /// exchanged. `None`, and the graph unchanged, where no rewrite applies.
    pub fn match_and(&mut self, a: usize, b: usize) -> (r: Option<usize>)
        requires
            old(self).wf(),
            a < old(self)@.len(),
            b < old(self)@.len(),
            old(self)@.len() + 2 < usize::MAX,
        ensures
            final(self).wf(),
            extends(final(self)@, old(self)@),
            final(self)@.len() <= old(self)@.len() + 2,
            final(self).remembers(*old(self)),
            r is Some <==> rewrites(old(self)@, a as int, b as int),
            r is None ==> final(self)@ == old(self)@,
            r matches Some(x) ==> x < final(self)@.len() && (forall|env: spec_fn(int) -> bool| #[trigger]
                eval(final(self)@, x as int, env) == (eval(old(self)@, a as int, env) && eval(
                    old(self)@,
                    b as int,
                    env,
                ))) && (forall|y: int| #[trigger]
                mentions(final(self)@, x as int, y) ==> mentions(old(self)@, a as int, y) || mentions(
                    old(self)@,
                    b as int,
                    y,
                )),
    {
        let ghost s0 = self@;
        proof {
            self.lemma_wf();
            self.lemma_remembers_self();
            assert(reduced_at(s0, a as int));
        }
        if b <= FALSE {
            proof {
                if let Exp::Not(u) = s0[a as int] {
                    assert(reduced_at(s0, u as int));
                    if let Exp::And(q, p) = s0[u as int] {
                        assert(reduced_at(s0, q as int));
                        assert(reduced_at(s0, p as int));
                    }
                }
            }
            return None;
        }
        if let Exp::Not(u) = self.nodes[a] {
            proof {
                assert(reduced_at(s0, u as int));
            }
            if let Exp::And(q, p) = self.nodes[u] {
                proof {
                    assert forall|env: spec_fn(int) -> bool| #[trigger] eval(s0, a as int, env)
                        == !(eval(s0, q as int, env) && eval(s0, p as int, env)) by {
                        assert(eval(s0, u as int, env) == (eval(s0, q as int, env) && eval(s0, p as int, env)));
                    }
                    assert forall|y: int| #[trigger] mentions(s0, a as int, y)
                        == (mentions(s0, q as int, y) || mentions(s0, p as int, y)) by {
                        assert(mentions(s0, u as int, y) == (mentions(s0, q as int, y) || mentions(s0, p as int, y)));
                    }
                }
                if q == b {
                    return Some(self.and_not(p, b));
                }
                if p == b {
                    return Some(self.and_not(q, b));
                }
                if let Exp::Not(x) = self.nodes[q] {
                    if x == b {
                        proof {
                            assert forall|env: spec_fn(int) -> bool| #[trigger] eval(s0, b as int, env)
                                == (eval(s0, a as int, env) && eval(s0, b as int, env)) by {
                                assert(reduced_at(s0, q as int));
                                assert(eval(s0, q as int, env) == !eval(s0, b as int, env));
                            }
                        }
                        return Some(b);
                    }
                }
                if let Exp::Not(x) = self.nodes[p] {
                    if x == b {
                        proof {
                            assert forall|env: spec_fn(int) -> bool| #[trigger] eval(s0, b as int, env)
                                == (eval(s0, a as int, env) && eval(s0, b as int, env)) by {
                                assert(reduced_at(s0, p as int));
                                assert(eval(s0, p as int, env) == !eval(s0, b as int, env));
                            }
                        }
                        return Some(b);
                    }
                }
            }
        }
        None
    }

    /// The conjunction of `lo` and `hi`, taken in this order, without the table
    /// of earlier conjunctions.
    fn conjoin(&mut self, lo: usize, hi: usize) -> (r: usize)
        requires
            old(self).wf(),
            lo <= hi < old(self)@.len(),
            old(self)@.len() + 2 < usize::MAX,
        ensures
            final(self).wf(),
            extends(final(self)@, old(self)@),
            final(self)@.len() <= old(self)@.len() + 2,
            final(self).remembers(*old(self)),
            and_spec(final(self)@, lo as int, hi as int, r as int),
    {
        let ghost nodes = self@;
        proof {
            assert(reduced_at(nodes, lo as int));
            assert(reduced_at(nodes, hi as int));
        }
        if lo == FALSE || hi == FALSE {
            return FALSE;
        }
        if lo == TRUE {
            return hi;
        }
        if let Exp::And(p, q) = self.nodes[lo] {
            if p == hi || q == hi {
                proof {
                    assert forall|env: spec_fn(int) -> bool| #[trigger]
                        eval(nodes, lo as int, env) == (eval(nodes, lo as int, env) && eval(nodes, hi as int, env)) by {
                        assert(eval(nodes, lo as int, env) == (eval(nodes, p as int, env) && eval(nodes, q as int, env)));
                    }
                    assert forall|x: int| #[trigger] mentions(nodes, lo as int, x) implies mentions(nodes, lo as int, x) || mentions(nodes, hi as int, x) by {}
                    assert forall|p2: usize, q2: usize| #[trigger] nodes[hi as int] == Exp::And(p2, q2) && (p2 == lo || q2 == lo) implies lo == hi by {
                        assert(reduced_at(nodes, hi as int));
                    }
                }
                return lo;
            }
        }
        if let Exp::And(p, q) = self.nodes[hi] {
            if p == lo || q == lo {
                proof {
                    assert forall|env: spec_fn(int) -> bool| #[trigger]
                        eval(nodes, hi as int, env) == (eval(nodes, lo as int, env) && eval(nodes, hi as int, env)) by {
                        assert(eval(nodes, hi as int, env) == (eval(nodes, p as int, env) && eval(nodes, q as int, env)));
                    }
                }
                return hi;
            }
        }
        let m = self.match_and(lo, hi);
        if let Some(r) = m {
            proof {
                lemma_extend(self@, nodes);
                lemma_rewrites_extend(self@, nodes, lo as int, hi as int);
                lemma_rewrites_extend(self@, nodes, hi as int, lo as int);
                lemma_absorbs_extend(self@, nodes, lo as int, hi as int);
                lemma_absorbs_extend(self@, nodes, hi as int, lo as int);
            }
            return r;
        }
        let m = self.match_and(hi, lo);
        if let Some(r) = m {
            proof {
                lemma_extend(self@, nodes);
                lemma_rewrites_extend(self@, nodes, lo as int, hi as int);
                lemma_rewrites_extend(self@, nodes, hi as int, lo as int);
                lemma_absorbs_extend(self@, nodes, lo as int, hi as int);
                lemma_absorbs_extend(self@, nodes, hi as int, lo as int);
            }
            return r;
        }
        self.make_and(lo, hi)
    }

    /// The conjunction node of `lo` and `hi`, or false where what the one
    /// implies true the other implies false.
    fn make_and(&mut self, lo: usize, hi: usize) -> (r: usize)
        requires
            old(self).wf(),
            FALSE < lo <= hi < old(self)@.len(),
            old(self)@.len() + 1 < usize::MAX,
            !absorbs(old(self)@, lo as int, hi as int),
            !absorbs(old(self)@, hi as int, lo as int),
        ensures
            final(self)@[hi as int] == Exp::Not(lo) || final(self)@[lo as int] == Exp::Not(hi) ==> r == FALSE,
            final(self).wf(),
            extends(final(self)@, old(self)@),
            final(self)@.len() <= old(self)@.len() + 1,
            final(self).conjunctions@ == old(self).conjunctions@,
            r < final(self)@.len(),
            forall|env: spec_fn(int) -> bool| #[trigger]
                eval(final(self)@, r as int, env) == (eval(final(self)@, lo as int, env) && eval(
                    final(self)@,
                    hi as int,
                    env,
                )),
            forall|x: int| #[trigger]
                mentions(final(self)@, r as int, x) ==> mentions(final(self)@, lo as int, x) || mentions(
                    final(self)@,
                    hi as int,
                    x,
                ),
            r == FALSE || final(self)@[r as int] == Exp::And(lo, hi),
    {
        let ghost nodes = self@;
        proof {
            self.lemma_wf();
        }
        if self.clash(lo, hi) {
            proof {
                assert forall|env: spec_fn(int) -> bool| #[trigger]
                    eval(nodes, FALSE as int, env) == (eval(nodes, lo as int, env) && eval(nodes, hi as int, env)) by {}
            }
            return FALSE;
        }
        let k = key_of(lo, hi);
        match self.ands.get(&k) {
            Some(i) => {
                let i = *i;
                proof {
                    let (l2, r2) = (nodes[i as int]->And_0, nodes[i as int]->And_1);
                    lemma_pair_key_injective(l2, r2, lo, hi);
                    assert(nodes[i as int] == Exp::And(lo, hi));
                    assert(reduced_at(nodes, i as int));
                    assert forall|env: spec_fn(int) -> bool| #[trigger]
                        eval(nodes, i as int, env) == (eval(nodes, lo as int, env) && eval(nodes, hi as int, env)) by {}
                    assert forall|x: int| #[trigger] mentions(nodes, i as int, x) implies mentions(nodes, lo as int, x) || mentions(nodes, hi as int, x) by {}
                }
                i
            },
            None => {
                let mut va = self.vars[lo].copy();
                let mut vb = self.vars[hi].copy();
                va.union(&mut vb);
                let ghost e = Exp::And(lo, hi);
                let ghost pushed = nodes.push(e);
                proof {
                    lemma_extend(pushed, nodes);
                    assert(pushed[nodes.len() as int] == e);
                    assert forall|x: int| #[trigger] va.has(x) == mentions(pushed, nodes.len() as int, x) by {
                        assert(self.vars@[lo as int].has(x) == mentions(nodes, lo as int, x));
                        assert(self.vars@[hi as int].has(x) == mentions(nodes, hi as int, x));
                        assert(mentions(pushed, nodes.len() as int, x) == (mentions(pushed, lo as int, x) || mentions(pushed, hi as int, x)));
                    }
                    assert forall|j: int| 0 <= j < nodes.len() implies nodes[j] != e by {
                        if nodes[j] == e {
                            assert(self.ands@.contains_key(pair_key(lo as int, hi as int) as u128));
                        }
                    }
                }
                let r = self.push_node(Exp::And(lo, hi), va);
                proof {
                    lemma_extend(self@, nodes);
                    assert forall|env: spec_fn(int) -> bool| #[trigger]
                        eval(self@, r as int, env) == (eval(self@, lo as int, env) && eval(self@, hi as int, env)) by {}
                    assert forall|x: int| #[trigger] mentions(self@, r as int, x) implies mentions(self@, lo as int, x) || mentions(self@, hi as int, x) by {}
                }
                r
            },
        }
    }

    /// The conjunction of `a` and `b`. Constants and absorbed operands
    /// simplify, `match_and` rewrites a negated conjunction that shares an
    /// operand with the other side, and a clash of implied literals gives
    /// false; otherwise the result is the unique conjunction node of the
    /// two. The result is recorded for the unordered pair, so a later call
    /// with the same operands, in either order, returns the same handle.
    pub fn and(&mut self, a: usize, b: usize) -> (r: usize)
        requires
            old(self).wf(),
            a < old(self)@.len(),
            b < old(self)@.len(),
            old(self)@.len() + 2 < usize::MAX,
        ensures
            final(self).wf(),
            extends(final(self)@, old(self)@),
            final(self)@.len() <= old(self)@.len() + 2,
            final(self).remembers(*old(self)),
            and_spec(final(self)@, a as int, b as int, r as int),
            old(self).and_result(a as int, b as int) matches Some(m) ==> r == m,
            final(self).and_result(a as int, b as int) == Some(r as int),
    {
        let (lo, hi) = if a <= b {
            (a, b)
        } else {
            (b, a)
        };
        let k = key_of(lo, hi);
        match self.conjunctions.get(&k) {
            Some(m) => {
                let m = *m;
                proof {
                    assert(and_spec(self@, lo as int, hi as int, m as int));
                }
                m
            },
            None => {
                let r = self.conjoin(lo, hi);
                self.conjunctions.insert(k, r);
                proof {
                    let nodes = self@;
                    assert forall|a2: usize, b2: usize| #[trigger]
                        self.conjunctions@.contains_key(pair_key(a2 as int, b2 as int) as u128) implies and_spec(
                        nodes,
                        a2 as int,
                        b2 as int,
                        self.conjunctions@[pair_key(a2 as int, b2 as int) as u128] as int,
                    ) by {
                        if pair_key(a2 as int, b2 as int) == pair_key(lo as int, hi as int) {
                            lemma_pair_key_injective(a2, b2, lo, hi);
                        }
                    }
                    assert forall|k2: u128| #[trigger]
                        old(self).conjunctions@.contains_key(k2) implies self.conjunctions@.contains_key(k2)
                            && self.conjunctions@[k2] == old(self).conjunctions@[k2] by {
                        assert(k2 != k);
                    }
                }
                r
            },
        }
    }

    /// The disjunction of `a` and `b`, built as the negation of the
    /// conjunction of their negations.
    pub fn or(&mut self, a: usize, b: usize) -> (r: usize)
        requires
            old(self).wf(),
            a < old(self)@.len(),
            b < old(self)@.len(),
            old(self)@.len() + 5 < usize::MAX,
        ensures
            final(self).wf(),
            extends(final(self)@, old(self)@),
            final(self)@.len() <= old(self)@.len() + 5,
            final(self).remembers(*old(self)),
            r < final(self)@.len(),
            forall|env: spec_fn(int) -> bool| #[trigger]
                eval(final(self)@, r as int, env) == (eval(old(self)@, a as int, env) || eval(
                    old(self)@,
                    b as int,
                    env,
                )),
            forall|x: int| #[trigger]
                mentions(final(self)@, r as int, x) ==> mentions(old(self)@, a as int, x) || mentions(
                    old(self)@,
                    b as int,
                    x,
                ),
            a == TRUE || b == TRUE ==> r == TRUE,
            a == FALSE ==> r == b,
            b == FALSE ==> r == a,
            exists|na: int, nb: int, c: int|
                #![trigger final(self).and_result(na, nb), final(self)@[c]]
                not_shape(final(self)@, a as int, final(self)@, na) && not_shape(
                    final(self)@,
                    b as int,
                    final(self)@,
                    nb,
                ) && final(self).and_result(na, nb) == Some(c) && and_spec(final(self)@, na, nb, c) && not_shape(
                    final(self)@,
                    c,
                    final(self)@,
                    r as int,
                ),
    {
        let ghost s0 = self@;
        let na = self.not(a);
        let ghost s1 = self@;
        proof {
            lemma_extend(s1, s0);
        }
        let nb = self.not(b);
        let ghost s2 = self@;
        proof {
            lemma_extend(s2, s1);
            lemma_extend(s2, s0);
        }
        let c = self.and(na, nb);
        let ghost s3 = self@;
        proof {
            lemma_extend(s3, s2);
            lemma_extend(s3, s0);
        }
        let r = self.not(c);
        proof {
            lemma_extend(self@, s3);
            lemma_extend(self@, s0);
            assert forall|env: spec_fn(int) -> bool| #[trigger]
                eval(self@, r as int, env) == (eval(s0, a as int, env) || eval(s0, b as int, env)) by {
                assert(eval(s3, na as int, env) == !eval(s0, a as int, env));
                assert(eval(s3, nb as int, env) == !eval(s0, b as int, env));
            }
            assert forall|x: int| #[trigger] mentions(self@, r as int, x) implies mentions(s0, a as int, x)
                || mentions(s0, b as int, x) by {
                assert(mentions(s3, na as int, x) == mentions(s0, a as int, x));
                assert(mentions(s3, nb as int, x) == mentions(s0, b as int, x));
            }
            assert(s0[TRUE as int] == Exp::True && s0[FALSE as int] == Exp::False);
            if a == FALSE {
                assert(na == TRUE);
                assert(c == nb);
                assert(s3[nb as int] == s2[nb as int]);
                assert(extends(self@, s2));
                lemma_not_not(s1, s2, self@, b, nb, r);
            }
            if b == FALSE {
                assert(nb == TRUE);
                assert(c == na);
                assert(s3[na as int] == s1[na as int]);
                assert(not_shape(s0, a as int, s1, na as int));
                assert(extends(self@, s1));
                lemma_not_not(s0, s1, self@, a, na, r);
            }
            let fin = self@;
            assert(self.and_result(na as int, nb as int) == Some(c as int));
            assert(fin[a as int] == s0[a as int]);
            assert(fin[b as int] == s0[b as int]);
            assert(fin[na as int] == s1[na as int]);
            assert(fin[nb as int] == s2[nb as int]);
            assert(fin[c as int] == s3[c as int]);
            assert(not_shape(fin, a as int, fin, na as int));
            assert(not_shape(fin, b as int, fin, nb as int));
            assert(not_shape(fin, c as int, fin, r as int));
            lemma_and_spec_extend(fin, s3, na as int, nb as int, c as int);
        }
        r
    }
}

/// Conjoining `a` with `b`, and then `b` with `a` on the builder that the
/// first call left, gives the same handle: `and` is commutative on handles.
pub proof fn lemma_and_commutes(after_first: Builder, a: int, b: int, r1: int, r2: int)
    requires
        after_first.and_result(a, b) == Some(r1),
        after_first.and_result(b, a) matches Some(m) ==> r2 == m,
    ensures
        r1 == r2,
{
}

} // verus!
