use qbf::cnf::{oracle_satisfiable, tseytin};
use qbf::expansion;
use qbf::expression::{Builder, FALSE, TRUE};
use qbf::solver::{solve, Quantifier, SolveError, Solution, QBF};

fn problem(first: Quantifier, blocks: Vec<u32>, builder: Builder, expr: usize) -> QBF {
    QBF { first_quantifier: first, quantifier_blocks: blocks, builder, expr }
}

/// The conjunction of the first `n` variables, each negated where `neg` says.
fn conjunction(b: &mut Builder, n: u32, neg: &dyn Fn(u32) -> bool) -> usize {
    let mut e = TRUE;
    for i in 0..n {
        let mut x = b.var(i);
        if neg(i) {
            x = b.not(x);
        }
        e = b.and(e, x);
    }
    e
}

#[test]
fn tseytin_encodes_gates_and_root() {
    let mut b = Builder::new();
    let x = b.var(0);
    let y = b.var(1);
    let e = b.and(x, y);
    let cnf = tseytin(&b, e);
    // the clause for true, three gate clauses, the root clause
    assert_eq!(cnf.len(), 5);
    assert_eq!(cnf[0], vec![1]);
    let gate = 2 * (e as i32) + 3;
    assert_eq!(cnf[1], vec![gate, -2, -4]);
    assert_eq!(cnf[2], vec![-gate, 2]);
    assert_eq!(cnf[3], vec![-gate, 4]);
    assert_eq!(cnf[4], vec![gate]);
}

#[test]
fn tseytin_shares_common_subterms() {
    let mut b = Builder::new();
    let x = b.var(0);
    let y = b.var(1);
    let z = b.var(2);
    let xy = b.and(x, y);
    let l = b.and(xy, z);
    let nz = b.not(z);
    let r = b.and(xy, nz);
    let e = b.or(l, r);
    let cnf = tseytin(&b, e);
    // one clause for true, three per distinct conjunction (xy, l, r, and the
    // one inside the disjunction), one for the root
    assert_eq!(cnf.len(), 1 + 3 * 4 + 1);
}

#[test]
fn oracle_decides_satisfiability() {
    let mut b = Builder::new();
    let x = b.var(0);
    let y = b.var(1);
    let nx = b.not(x);
    let e = b.and(x, y);
    assert_eq!(oracle_satisfiable(&b, e), Some(true));
    let f = b.and(e, nx);
    assert_eq!(oracle_satisfiable(&b, f), Some(false));
}

#[test]
fn oracle_and_enumeration_agree_on_small_formulas() {
    // every formula over three variables built as a disjunction of two
    // conjunctions of literals, chosen by the bits of a counter
    for code in 0u32..64 {
        let mut b = Builder::new();
        let mut lits = vec![];
        for i in 0..3u32 {
            let x = b.var(i);
            let nx = b.not(x);
            lits.push(if code & (1 << i) != 0 { nx } else { x });
            lits.push(if code & (1 << (i + 3)) != 0 { x } else { nx });
        }
        let c1 = b.and(lits[0], lits[2]);
        let c2 = b.and(lits[3], lits[4]);
        let c3 = b.and(c1, lits[5]);
        let e = b.and(c3, c2);
        let by_oracle = oracle_satisfiable(&b, e);
        let by_enumeration = solve(&mut problem(Quantifier::Exists, vec![3], b, e));
        assert_eq!(by_oracle == Some(true), by_enumeration == Ok(Solution::Sat));
        assert!(by_oracle.is_some());
        assert!(by_enumeration.is_ok());
    }
}

/// (x0 and x1) or (not x0 and x1) or not x1: true everywhere, though no
/// single simplification shows it.
fn hidden_tautology(b: &mut Builder) -> usize {
    let x0 = b.var(0);
    let x1 = b.var(1);
    let n0 = b.not(x0);
    let n1 = b.not(x1);
    let c1 = b.and(x0, x1);
    let c2 = b.and(n0, x1);
    let d = b.or(c1, c2);
    b.or(d, n1)
}

#[test]
fn large_last_exists_block_goes_to_the_oracle() {
    let mut b = Builder::new();
    let e = conjunction(&mut b, 12, &|i| i % 3 == 0);
    assert_eq!(solve(&mut problem(Quantifier::Exists, vec![12], b, e)), Ok(Solution::Sat));

    let mut b = Builder::new();
    let t = hidden_tautology(&mut b);
    let f = b.not(t);
    assert!(f > 1);
    assert_eq!(solve(&mut problem(Quantifier::Exists, vec![12], b, f)), Ok(Solution::Unsat));
}

#[test]
fn large_last_forall_block_goes_to_the_oracle() {
    let mut b = Builder::new();
    let t = hidden_tautology(&mut b);
    assert!(t > 1);
    assert_eq!(solve(&mut problem(Quantifier::ForAll, vec![12], b, t)), Ok(Solution::Sat));

    let mut b = Builder::new();
    let e = conjunction(&mut b, 12, &|_| false);
    assert_eq!(solve(&mut problem(Quantifier::ForAll, vec![12], b, e)), Ok(Solution::Unsat));
}

#[test]
fn conjunction_of_a_literal_and_its_negation_is_false() {
    let mut b = Builder::new();
    let x = b.var(0);
    let y = b.var(1);
    let xy = b.and(x, y);
    let nx = b.not(x);
    assert_eq!(b.and(xy, nx), FALSE);
    assert_eq!(b.and(nx, x), FALSE);
}

#[test]
fn oracle_block_after_alternation() {
    // forall x0, exists x1..x12: x1 == x0 and the rest free
    let mut b = Builder::new();
    let x0 = b.var(0);
    let x1 = b.var(1);
    let both = b.and(x0, x1);
    let n0 = b.not(x0);
    let n1 = b.not(x1);
    let neither = b.and(n0, n1);
    let same = b.or(both, neither);
    let rest = conjunction(&mut b, 13, &|i| i < 2);
    let rest2 = b.or(rest, TRUE);
    let e = b.and(same, rest2);
    assert_eq!(solve(&mut problem(Quantifier::ForAll, vec![1, 12], b, e)), Ok(Solution::Sat));
}

#[test]
fn size_counts_shared_nodes_once() {
    let mut b = Builder::new();
    let x = b.var(0);
    let y = b.var(1);
    let z = b.var(2);
    let xy = b.and(x, y);
    let xz = b.and(x, z);
    let n = b.not(xz);
    let e = b.and(xy, n);
    // e, xy, n, xz, x, y, z: x is shared and counted once
    assert_eq!(b.size(e), 7);
    assert_eq!(b.size(xz), 3);
    assert_eq!(b.size(x), 1);
    assert_eq!(b.size(TRUE), 1);
}

#[test]
fn expansion_agrees_with_blocks() {
    for first in [Quantifier::Exists, Quantifier::ForAll] {
        let build = || {
            let mut b = Builder::new();
            let x = b.var(0);
            let y = b.var(1);
            let z = b.var(2);
            let xy = b.and(x, y);
            let ny = b.not(y);
            let yz = b.and(ny, z);
            let e = b.or(xy, yz);
            (b, e)
        };
        let (b1, e1) = build();
        let (b2, e2) = build();
        let by_blocks = solve(&mut problem(first, vec![1, 1, 1], b1, e1));
        let by_expansion = expansion::solve(&mut problem(first, vec![1, 1, 1], b2, e2), 1000);
        assert!(by_blocks.is_ok());
        assert_eq!(by_blocks, by_expansion);
    }
}

#[test]
fn expansion_exact_verdicts() {
    let mut b = Builder::new();
    let x = b.var(0);
    let nx = b.not(x);
    let e = b.or(x, nx);
    assert_eq!(expansion::solve(&mut problem(Quantifier::ForAll, vec![1, 1], b, e), 100), Ok(Solution::Sat));
    let mut b = Builder::new();
    let x = b.var(0);
    let nx = b.not(x);
    let e = b.and(x, nx);
    assert_eq!(expansion::solve(&mut problem(Quantifier::ForAll, vec![1, 1], b, e), 100), Ok(Solution::Unsat));
}

#[test]
fn expansion_respects_its_budget() {
    let mut b = Builder::new();
    let e = conjunction(&mut b, 8, &|_| false);
    let ne = b.not(e);
    let f = b.or(e, ne);
    assert_eq!(
        expansion::solve(&mut problem(Quantifier::Exists, vec![8], b, f), 0),
        Err(SolveError::BudgetExceeded)
    );
}

#[test]
fn expansion_reports_free_variable() {
    let mut b = Builder::new();
    let x = b.var(0);
    let y = b.var(1);
    let e = b.and(x, y);
    assert_eq!(
        expansion::solve(&mut problem(Quantifier::Exists, vec![1], b, e), 100),
        Err(SolveError::FreeVariable)
    );
}

#[test]
fn expansion_cost_counts_rebuilt_conjunctions() {
    let mut b = Builder::new();
    let x = b.var(0);
    let y = b.var(1);
    let z = b.var(2);
    let xy = b.and(x, y);
    let e = b.and(xy, z);
    // e, xy and x mention variable 0; y and z do not
    assert!(expansion::expansion_is_cheap(&b, e, 0, 3));
    assert!(!expansion::expansion_is_cheap(&b, e, 0, 2));
    // variable 2: e and z
    assert!(expansion::expansion_is_cheap(&b, e, 2, 2));
    assert!(!expansion::expansion_is_cheap(&b, e, 2, 1));
    // a variable that does not occur costs nothing
    assert!(expansion::expansion_is_cheap(&b, e, 5, 0));
    // negations are counted but not descended through
    let n = b.not(e);
    assert!(expansion::expansion_is_cheap(&b, n, 0, 1));
    assert!(!expansion::expansion_is_cheap(&b, n, 0, 0));
}
