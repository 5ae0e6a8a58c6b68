//! Problem files: their parsed form (a quantifier prefix, a list of named
//! statements over literals, and an output literal) and the reader of their
//! text.
use vstd::prelude::*;
use crate::solver::Quantifier;
use crate::text::{chars_of, lines_view, push_char, split_lines, text_lines};

verus! {

/// A name, possibly negated (`polarity` is false for `~name`).
#[derive(Clone, Debug)]
pub struct Literal {
    pub polarity: bool,
    pub var: String,
}

/// The right-hand side of a statement.
#[derive(Clone, Debug)]
pub enum Expression {
    And(Literal, Literal),
    Or(Literal, Literal),
    Not(Literal),
    Lit(Literal),
    True,
    False,
}

/// `name = exp`.
#[derive(Clone, Debug)]
pub struct Statement {
    pub name: String,
    pub exp: Expression,
}

/// A whole problem: the quantified variables in order, the statements, and
/// the literal naming the formula.
#[derive(Clone, Debug)]
pub struct Problem {
    pub quantifiers: Vec<(Quantifier, String)>,
    pub statements: Vec<Statement>,
    pub output: Literal,
}

pub open spec fn is_letter(c: char) -> bool {
    ('a' <= c && c <= 'z') || ('A' <= c && c <= 'Z')
}

pub open spec fn word_true() -> Seq<char> {
    seq!['t', 'r', 'u', 'e']
}

pub open spec fn word_false() -> Seq<char> {
    seq!['f', 'a', 'l', 's', 'e']
}

/// A name: one or more letters, and not one of the two constants.
pub open spec fn is_name(s: Seq<char>) -> bool {
    &&& s.len() > 0
    &&& forall|i: int| 0 <= i < s.len() ==> #[trigger] is_letter(s[i])
    &&& s != word_true()
    &&& s != word_false()
}

pub open spec fn lit_text(l: Literal) -> Seq<char> {
    if l.polarity {
        l.var@
    } else {
        seq!['~'] + l.var@
    }
}

pub open spec fn pair_text(a: Literal, b: Literal) -> Seq<char> {
    lit_text(a) + seq![','] + lit_text(b)
}

pub open spec fn expr_ok(e: Expression) -> bool {
    match e {
        Expression::And(a, b) => is_name(a.var@) && is_name(b.var@),
        Expression::Or(a, b) => is_name(a.var@) && is_name(b.var@),
        Expression::Not(a) => is_name(a.var@),
        Expression::Lit(a) => is_name(a.var@),
        _ => true,
    }
}

pub open spec fn expr_text(e: Expression) -> Seq<char> {
    match e {
        Expression::True => word_true(),
        Expression::False => word_false(),
        Expression::And(a, b) => seq!['a', 'n', 'd', '('] + pair_text(a, b) + seq![')'],
        Expression::Or(a, b) => seq!['o', 'r', '('] + pair_text(a, b) + seq![')'],
        Expression::Not(a) => seq!['n', 'o', 't', '('] + lit_text(a) + seq![')'],
        Expression::Lit(a) => lit_text(a),
    }
}

pub open spec fn keyword(q: Quantifier) -> Seq<char> {
    match q {
        Quantifier::ForAll => seq!['f', 'o', 'r', 'a', 'l', 'l'],
        Quantifier::Exists => seq!['e', 'x', 'i', 's', 't', 's'],
    }
}

pub open spec fn quantifier_text(q: (Quantifier, String)) -> Seq<char> {
    keyword(q.0) + q.1@
}

pub open spec fn statement_text(s: Statement) -> Seq<char> {
    s.name@ + seq!['='] + expr_text(s.exp)
}

/// Every name in the problem is a name.
pub open spec fn problem_ok(p: Problem) -> bool {
    &&& forall|i: int| 0 <= i < p.quantifiers@.len() ==> is_name(#[trigger] p.quantifiers@[i].1@)
    &&& forall|i: int| 0 <= i < p.statements@.len() ==> is_name(#[trigger] p.statements@[i].name@)
        && expr_ok(p.statements@[i].exp)
    &&& is_name(p.output.var@)
}

/// The lines of a problem with blanks removed: `forall x` or `exists x` for
/// each quantified variable, `name=expression` for each statement, and the
/// output literal last.
pub open spec fn problem_lines(p: Problem) -> Seq<Seq<char>> {
    p.quantifiers@.map_values(|q: (Quantifier, String)| quantifier_text(q)) + p.statements@.map_values(
        |s: Statement| statement_text(s),
    ) + seq![lit_text(p.output)]
}

proof fn lemma_lit_chars(l: Literal)
    requires
        is_name(l.var@),
    ensures
        forall|i: int| 0 <= i < lit_text(l).len() ==> #[trigger] is_letter(lit_text(l)[i]) || lit_text(l)[i] == '~',
        lit_text(l).len() > 0,
        lit_text(l)[0] == '~' <==> !l.polarity,
{
    assert forall|i: int| 0 <= i < lit_text(l).len() implies #[trigger] is_letter(lit_text(l)[i]) || lit_text(l)[i] == '~' by {
        if !l.polarity && i > 0 {
            assert(lit_text(l)[i] == l.var@[i - 1]);
        }
    }
    if l.polarity {
        assert(is_letter(l.var@[0]));
    }
}

/// The first position in `from..to` of `l` that holds `c`.
fn find_char(l: &Vec<char>, from: usize, to: usize, c: char) -> (r: Option<usize>)
    requires
        from <= to <= l@.len(),
    ensures
        r matches Some(k) ==> from <= k < to && l@[k as int] == c && forall|j: int| from <= j < k ==> l@[j] != c,
        r is None ==> forall|j: int| from <= j < to ==> l@[j] != c,
{
    let mut i = from;
    while i < to
        invariant
            from <= i <= to <= l@.len(),
            forall|j: int| from <= j < i ==> l@[j] != c,
        decreases to - i,
    {
        if l[i] == c {
            return Some(i);
        }
        i = i + 1;
    }
    None
}

/// Whether `l[from..to]` is `w`.
fn segment_is(l: &Vec<char>, from: usize, to: usize, w: &Vec<char>) -> (r: bool)
    requires
        from <= to <= l@.len(),
    ensures
        r == (l@.subrange(from as int, to as int) == w@),
{
    if to - from != w.len() {
        return false;
    }
    let mut i: usize = 0;
    while i < w.len()
        invariant
            to - from == w@.len(),
            from <= to <= l@.len(),
            i <= w@.len(),
            forall|j: int| 0 <= j < i ==> l@[from + j] == w@[j],
        decreases w@.len() - i,
    {
        if l[from + i] != w[i] {
            proof {
                assert(l@.subrange(from as int, to as int)[i as int] != w@[i as int]);
            }
            return false;
        }
        i = i + 1;
    }
    proof {
        assert(l@.subrange(from as int, to as int) =~= w@);
    }
    true
}

/// The name `l[from..to]`, if it is one.
fn parse_name(l: &Vec<char>, from: usize, to: usize) -> (r: Option<String>)
    requires
        from <= to <= l@.len(),
    ensures
        r matches Some(s) ==> s@ == l@.subrange(from as int, to as int),
        r is Some <==> is_name(l@.subrange(from as int, to as int)),
{
    let ghost seg = l@.subrange(from as int, to as int);
    if from == to {
        return None;
    }
    let mut s = String::new();
    let mut i = from;
    while i < to
        invariant
            from <= i <= to <= l@.len(),
            seg == l@.subrange(from as int, to as int),
            s@ == l@.subrange(from as int, i as int),
            forall|j: int| from <= j < i ==> is_letter(#[trigger] l@[j]),
        decreases to - i,
    {
        let c = l[i];
        if !(('a' <= c && c <= 'z') || ('A' <= c && c <= 'Z')) {
            proof {
                assert(!is_letter(seg[i - from]));
            }
            return None;
        }
        push_char(&mut s, c);
        proof {
            assert(s@ =~= l@.subrange(from as int, i + 1));
        }
        i = i + 1;
    }
    let t = vec!['t', 'r', 'u', 'e'];
    let f = vec!['f', 'a', 'l', 's', 'e'];
    proof {
        assert(t@ =~= word_true());
        assert(f@ =~= word_false());
        assert forall|j: int| 0 <= j < seg.len() implies #[trigger] is_letter(seg[j]) by {
            assert(seg[j] == l@[from + j]);
        }
    }
    if segment_is(l, from, to, &t) || segment_is(l, from, to, &f) {
        return None;
    }
    Some(s)
}

/// The literal `l[from..to]`, if it is one.
fn parse_lit(l: &Vec<char>, from: usize, to: usize) -> (r: Option<Literal>)
    requires
        from <= to <= l@.len(),
    ensures
        r matches Some(x) ==> is_name(x.var@) && lit_text(x) == l@.subrange(from as int, to as int),
        (exists|x: Literal| is_name(x.var@) && #[trigger] lit_text(x) == l@.subrange(from as int, to as int))
            ==> r is Some,
{
    let ghost seg = l@.subrange(from as int, to as int);
    if from < to && l[from] == '~' {
        match parse_name(l, from + 1, to) {
            Some(var) => {
                let x = Literal { polarity: false, var };
                proof {
                    assert(lit_text(x) =~= seg);
                }
                Some(x)
            },
            None => {
                proof {
                    if exists|x: Literal| is_name(x.var@) && #[trigger] lit_text(x) == seg {
                        let x = choose|x: Literal| is_name(x.var@) && #[trigger] lit_text(x) == seg;
                        lemma_lit_chars(x);
                        assert(seg[0] == '~');
                        assert(!x.polarity);
                        assert(x.var@ =~= seg.subrange(1, seg.len() as int));
                        assert(x.var@ =~= l@.subrange(from + 1, to as int));
                    }
                }
                None
            },
        }
    } else {
        match parse_name(l, from, to) {
            Some(var) => {
                let x = Literal { polarity: true, var };
                Some(x)
            },
            None => {
                proof {
                    if exists|x: Literal| is_name(x.var@) && #[trigger] lit_text(x) == seg {
                        let x = choose|x: Literal| is_name(x.var@) && #[trigger] lit_text(x) == seg;
                        lemma_lit_chars(x);
                        if from < to {
                            assert(seg[0] == l@[from as int]);
                        }
                    }
                }
                None
            },
        }
    }
}

/// Two literals separated by a comma: `l[from..to]`, if it is one.
fn parse_pair(l: &Vec<char>, from: usize, to: usize) -> (r: Option<(Literal, Literal)>)
    requires
        from <= to <= l@.len(),
    ensures
        r matches Some((a, b)) ==> is_name(a.var@) && is_name(b.var@) && pair_text(a, b) == l@.subrange(
            from as int,
            to as int,
        ),
        (exists|a: Literal, b: Literal|
            is_name(a.var@) && is_name(b.var@) && #[trigger] pair_text(a, b) == l@.subrange(from as int, to as int))
            ==> r is Some,
{
    let ghost seg = l@.subrange(from as int, to as int);
    match find_char(l, from, to, ',') {
        Some(k) => {
            let a = parse_lit(l, from, k);
            let b = parse_lit(l, k + 1, to);
            proof {
                if exists|a: Literal, b: Literal|
                    is_name(a.var@) && is_name(b.var@) && #[trigger] pair_text(a, b) == seg {
                    let (wa, wb) = choose|a: Literal, b: Literal|
                        is_name(a.var@) && is_name(b.var@) && #[trigger] pair_text(a, b) == seg;
                    lemma_lit_chars(wa);
                    let ta = lit_text(wa);
                    assert((ta + seq![','] + lit_text(wb))[ta.len() as int] == ',');
                    assert forall|j: int| 0 <= j < ta.len() implies seg[j] != ',' by {
                        assert(seg[j] == ta[j]);
                        assert(is_letter(ta[j]) || ta[j] == '~');
                    }
                    assert(seg == pair_text(wa, wb));
                    assert(seg.len() == ta.len() + 1 + lit_text(wb).len());
                    assert(seg[ta.len() as int] == ',');
                    assert(l@[from + ta.len()] == seg[ta.len() as int]);
                    if k - from < ta.len() {
                        assert(seg[k - from] == l@[k as int]);
                    }
                    assert(k - from == ta.len());
                    assert(ta =~= l@.subrange(from as int, k as int));
                    let tb = lit_text(wb);
                    assert forall|i: int| 0 <= i < tb.len() implies #[trigger] l@.subrange(k + 1, to as int)[i] == tb[i] by {
                        assert(seg[ta.len() + 1 + i] == tb[i]);
                        assert(seg[ta.len() + 1 + i] == l@[from + ta.len() + 1 + i]);
                    }
                    assert(tb =~= l@.subrange(k + 1, to as int));
                    assert(is_name(wa.var@) && lit_text(wa) == l@.subrange(from as int, k as int));
                    assert(is_name(wb.var@) && lit_text(wb) == l@.subrange(k + 1, to as int));
                }
            }
            match (a, b) {
                (Some(a), Some(b)) => {
                    proof {
                        assert(pair_text(a, b) =~= seg);
                    }
                    Some((a, b))
                },
                _ => None,
            }
        },
        None => {
            proof {
                if exists|a: Literal, b: Literal|
                    is_name(a.var@) && is_name(b.var@) && #[trigger] pair_text(a, b) == seg {
                    let (wa, wb) = choose|a: Literal, b: Literal|
                        is_name(a.var@) && is_name(b.var@) && #[trigger] pair_text(a, b) == seg;
                    let ta = lit_text(wa);
                    assert(seg == pair_text(wa, wb));
                    assert(seg.len() == ta.len() + 1 + lit_text(wb).len());
                    assert(seg[ta.len() as int] == ',');
                    assert(l@[from + ta.len()] == seg[ta.len() as int]);
                }
            }
            None
        },
    }
}

proof fn lemma_expr_shape(e: Expression)
    requires
        expr_ok(e),
    ensures
        e is And ==> expr_text(e).len() >= 5 && expr_text(e).subrange(0, 4) == seq!['a', 'n', 'd', '(']
            && expr_text(e).last() == ')',
        e is Or ==> expr_text(e).len() >= 4 && expr_text(e).subrange(0, 3) == seq!['o', 'r', '(']
            && expr_text(e).last() == ')',
        e is Not ==> expr_text(e).len() >= 5 && expr_text(e).subrange(0, 4) == seq!['n', 'o', 't', '(']
            && expr_text(e).last() == ')',
        e is Lit ==> forall|i: int| 0 <= i < expr_text(e).len() ==> #[trigger] expr_text(e)[i] != '(',
{
    let t = expr_text(e);
    match e {
        Expression::And(a, b) => {
            lemma_lit_chars(a);
            lemma_lit_chars(b);
            assert(t.subrange(0, 4) =~= seq!['a', 'n', 'd', '(']);
        },
        Expression::Or(a, b) => {
            lemma_lit_chars(a);
            lemma_lit_chars(b);
            assert(t.subrange(0, 3) =~= seq!['o', 'r', '(']);
        },
        Expression::Not(a) => {
            lemma_lit_chars(a);
            assert(t.subrange(0, 4) =~= seq!['n', 'o', 't', '(']);
        },
        Expression::Lit(a) => {
            lemma_lit_chars(a);
            assert forall|i: int| 0 <= i < t.len() implies #[trigger] t[i] != '(' by {
                assert(is_letter(t[i]) || t[i] == '~');
            }
        },
        _ => {},
    }
}

/// The right-hand side `l[from..to]`, if it is one.
fn parse_expr(l: &Vec<char>, from: usize, to: usize) -> (r: Option<Expression>)
    requires
        from <= to <= l@.len(),
    ensures
        r matches Some(e) ==> expr_ok(e) && expr_text(e) == l@.subrange(from as int, to as int),
        (exists|e: Expression| expr_ok(e) && #[trigger] expr_text(e) == l@.subrange(from as int, to as int))
            ==> r is Some,
{
    let ghost seg = l@.subrange(from as int, to as int);
    let ghost w: Option<Expression> = if exists|e: Expression| expr_ok(e) && #[trigger] expr_text(e) == seg {
        Some(choose|e: Expression| expr_ok(e) && #[trigger] expr_text(e) == seg)
    } else {
        None
    };
    proof {
        if let Some(e) = w {
            lemma_expr_shape(e);
        }
    }
    let t = vec!['t', 'r', 'u', 'e'];
    let f = vec!['f', 'a', 'l', 's', 'e'];
    proof {
        assert(t@ =~= word_true());
        assert(f@ =~= word_false());
    }
    if segment_is(l, from, to, &t) {
        return Some(Expression::True);
    }
    if segment_is(l, from, to, &f) {
        return Some(Expression::False);
    }
    let and_open = vec!['a', 'n', 'd', '('];
    let or_open = vec!['o', 'r', '('];
    let not_open = vec!['n', 'o', 't', '('];
    proof {
        assert(and_open@ =~= seq!['a', 'n', 'd', '(']);
        assert(or_open@ =~= seq!['o', 'r', '(']);
        assert(not_open@ =~= seq!['n', 'o', 't', '(']);
        if let Some(e) = w {
            if from + 4 <= to {
                assert(seg.subrange(0, 4) =~= l@.subrange(from as int, from + 4));
            }
            if from + 3 <= to {
                assert(seg.subrange(0, 3) =~= l@.subrange(from as int, from + 3));
            }
            if to > from {
                assert(seg.last() == l@[to - 1]);
            }
        }
    }
    let n = to - from;
    if n >= 5 && segment_is(l, from, from + 4, &and_open) && l[to - 1] == ')' {
        proof {
            if let Some(e) = w {
                assert(seg[3] == '(');
                assert(!(e is Lit));
                assert(!(e is Or)) by {
                    if e is Or {
                        assert(seg[0] == 'o');
                    }
                }
                assert(!(e is Not)) by {
                    if e is Not {
                        assert(seg[0] == 'n');
                    }
                }
                if let Expression::And(a, b) = e {
                    let p = pair_text(a, b);
                    assert(seg.subrange(4, seg.len() - 1) =~= p);
                    assert(l@.subrange(from + 4, to - 1) =~= seg.subrange(4, seg.len() - 1));
                }
            }
        }
        return match parse_pair(l, from + 4, to - 1) {
            Some((a, b)) => {
                proof {
                    assert(l@.subrange(from as int, from + 4) == seq!['a', 'n', 'd', '(']);
                    assert(seg =~= l@.subrange(from as int, from + 4) + l@.subrange(from + 4, to - 1) + seq![')']);
                    assert(expr_text(Expression::And(a, b)) =~= seg);
                }
                Some(Expression::And(a, b))
            },
            None => None,
        };
    }
    if n >= 4 && segment_is(l, from, from + 3, &or_open) && l[to - 1] == ')' {
        proof {
            if let Some(e) = w {
                assert(seg[2] == '(');
                assert(!(e is Lit));
                assert(!(e is And)) by {
                    if e is And {
                        assert(seg[0] == 'a');
                    }
                }
                assert(!(e is Not)) by {
                    if e is Not {
                        assert(seg[0] == 'n');
                    }
                }
                if let Expression::Or(a, b) = e {
                    let p = pair_text(a, b);
                    assert(seg.subrange(3, seg.len() - 1) =~= p);
                    assert(l@.subrange(from + 3, to - 1) =~= seg.subrange(3, seg.len() - 1));
                }
            }
        }
        return match parse_pair(l, from + 3, to - 1) {
            Some((a, b)) => {
                proof {
                    assert(l@.subrange(from as int, from + 3) == seq!['o', 'r', '(']);
                    assert(seg =~= l@.subrange(from as int, from + 3) + l@.subrange(from + 3, to - 1) + seq![')']);
                    assert(expr_text(Expression::Or(a, b)) =~= seg);
                }
                Some(Expression::Or(a, b))
            },
            None => None,
        };
    }
    if n >= 5 && segment_is(l, from, from + 4, &not_open) && l[to - 1] == ')' {
        proof {
            if let Some(e) = w {
                assert(seg[3] == '(');
                assert(!(e is Lit));
                assert(!(e is And)) by {
                    if e is And {
                        assert(seg[0] == 'a');
                    }
                }
                assert(!(e is Or)) by {
                    if e is Or {
                        assert(seg[0] == 'o');
                    }
                }
                if let Expression::Not(a) = e {
                    assert(seg.subrange(4, seg.len() - 1) =~= lit_text(a));
                    assert(l@.subrange(from + 4, to - 1) =~= seg.subrange(4, seg.len() - 1));
                }
            }
        }
        return match parse_lit(l, from + 4, to - 1) {
            Some(a) => {
                proof {
                    assert(l@.subrange(from as int, from + 4) == seq!['n', 'o', 't', '(']);
                    assert(seg =~= l@.subrange(from as int, from + 4) + l@.subrange(from + 4, to - 1) + seq![')']);
                    assert(expr_text(Expression::Not(a)) =~= seg);
                }
                Some(Expression::Not(a))
            },
            None => None,
        };
    }
    proof {
        if let Some(e) = w {
            assert(!(e is True) && !(e is False));
            if e is And {
                assert(seg.subrange(0, 4) == seq!['a', 'n', 'd', '(']);
            }
            if e is Or {
                assert(seg.subrange(0, 3) == seq!['o', 'r', '(']);
            }
            if e is Not {
                assert(seg.subrange(0, 4) == seq!['n', 'o', 't', '(']);
            }
            assert(e is Lit);
            if let Expression::Lit(a) = e {
                assert(lit_text(a) == seg);
            }
        }
    }
    match parse_lit(l, from, to) {
        Some(a) => Some(Expression::Lit(a)),
        None => None,
    }
}

/// A statement line `name=expression`, if `l` is one.
fn parse_statement(l: &Vec<char>) -> (r: Option<Statement>)
    ensures
        r matches Some(s) ==> is_name(s.name@) && expr_ok(s.exp) && statement_text(s) == l@,
        (exists|s: Statement| is_name(s.name@) && expr_ok(s.exp) && #[trigger] statement_text(s) == l@)
            ==> r is Some,
{
    let ghost w: Option<Statement> = if exists|s: Statement|
        is_name(s.name@) && expr_ok(s.exp) && #[trigger] statement_text(s) == l@ {
        Some(choose|s: Statement| is_name(s.name@) && expr_ok(s.exp) && #[trigger] statement_text(s) == l@)
    } else {
        None
    };
    proof {
        if let Some(st) = w {
            let nm = st.name@;
            assert(l@[nm.len() as int] == '=');
            assert forall|j: int| 0 <= j < nm.len() implies l@[j] != '=' by {
                assert(l@[j] == nm[j]);
                assert(is_letter(nm[j]));
            }
        }
    }
    match find_char(l, 0, l.len(), '=') {
        Some(k) => {
            let name = parse_name(l, 0, k);
            let exp = parse_expr(l, k + 1, l.len());
            proof {
                if let Some(st) = w {
                    let nm = st.name@;
                    if k < nm.len() {
                        assert(l@[k as int] != '=');
                    }
                    assert(k == nm.len());
                    assert(nm =~= l@.subrange(0, k as int));
                    assert(expr_text(st.exp) =~= l@.subrange(k + 1, l@.len() as int));
                }
            }
            match (name, exp) {
                (Some(n), Some(e)) => {
                    let st = Statement { name: n, exp: e };
                    proof {
                        assert(statement_text(st) =~= l@);
                    }
                    Some(st)
                },
                _ => None,
            }
        },
        None => None,
    }
}

/// A quantifier line `forall name` or `exists name`, if `l` is one.
fn parse_quantifier(l: &Vec<char>) -> (r: Option<(Quantifier, String)>)
    ensures
        r matches Some(q) ==> is_name(q.1@) && quantifier_text(q) == l@,
        (exists|q: (Quantifier, String)| is_name(q.1@) && #[trigger] quantifier_text(q) == l@) ==> r is Some,
{
    let fa = vec!['f', 'o', 'r', 'a', 'l', 'l'];
    let ex = vec!['e', 'x', 'i', 's', 't', 's'];
    let ghost w: Option<(Quantifier, String)> = if exists|q: (Quantifier, String)|
        is_name(q.1@) && #[trigger] quantifier_text(q) == l@ {
        Some(choose|q: (Quantifier, String)| is_name(q.1@) && #[trigger] quantifier_text(q) == l@)
    } else {
        None
    };
    proof {
        assert(fa@ =~= keyword(Quantifier::ForAll));
        assert(ex@ =~= keyword(Quantifier::Exists));
        if let Some(q) = w {
            assert(l@.subrange(0, 6) =~= keyword(q.0));
            assert(l@.subrange(6, l@.len() as int) =~= q.1@);
        }
    }
    if l.len() >= 6 && segment_is(l, 0, 6, &fa) {
        proof {
            if let Some(q) = w {
                if q.0 == Quantifier::Exists {
                    assert(l@[0] == 'e');
                }
            }
        }
        match parse_name(l, 6, l.len()) {
            Some(n) => {
                let q = (Quantifier::ForAll, n);
                proof {
                    assert(quantifier_text(q) =~= l@);
                }
                Some(q)
            },
            None => None,
        }
    } else if l.len() >= 6 && segment_is(l, 0, 6, &ex) {
        match parse_name(l, 6, l.len()) {
            Some(n) => {
                let q = (Quantifier::Exists, n);
                proof {
                    assert(quantifier_text(q) =~= l@);
                }
                Some(q)
            },
            None => None,
        }
    } else {
        None
    }
}

proof fn lemma_lines_shape(p: Problem)
    requires
        problem_ok(p),
    ensures
        problem_lines(p).len() == p.quantifiers@.len() + p.statements@.len() + 1,
        forall|i: int| 0 <= i < p.quantifiers@.len() ==> #[trigger] problem_lines(p)[i] == quantifier_text(
            p.quantifiers@[i],
        ),
        forall|i: int|
            0 <= i < p.statements@.len() ==> #[trigger] problem_lines(p)[p.quantifiers@.len() + i]
                == statement_text(p.statements@[i]),
        problem_lines(p)[p.quantifiers@.len() + p.statements@.len() as int] == lit_text(p.output),
        forall|i: int, j: int|
            0 <= i < p.quantifiers@.len() && 0 <= j < problem_lines(p)[i].len() ==> #[trigger] problem_lines(p)[i][j]
                != '=',
        forall|i: int|
            0 <= i < p.statements@.len() ==> (#[trigger] problem_lines(p)[p.quantifiers@.len() + i]).contains('='),
{
    let lines = problem_lines(p);
    let nq = p.quantifiers@.len();
    assert forall|i: int, j: int| 0 <= i < nq && 0 <= j < lines[i].len() implies #[trigger] lines[i][j] != '=' by {
        let q = p.quantifiers@[i];
        assert(lines[i] == quantifier_text(q));
        assert(is_name(q.1@));
        if j >= 6 {
            assert(lines[i][j] == q.1@[j - 6]);
            assert(is_letter(q.1@[j - 6]));
        } else {
            match q.0 {
                Quantifier::ForAll => {},
                Quantifier::Exists => {},
            }
        }
    }
    assert forall|i: int| 0 <= i < p.statements@.len() implies (#[trigger] lines[nq + i]).contains('=') by {
        let st = p.statements@[i];
        assert(lines[nq + i] == statement_text(st));
        assert(lines[nq + i][st.name@.len() as int] == '=');
    }
}

/// Reads a problem text: blanks are ignored and so are empty lines; the
/// remaining lines are `forall name` or `exists name` for each quantified
/// variable in order, then `name=expression` for each statement, where an
/// expression is `true`, `false`, a literal, `not(literal)`,
/// `and(literal,literal)` or `or(literal,literal)`, and last the output
/// literal; a literal is a name, or `~` and a name, and a name is one or
/// more letters other than `true` and `false`. Succeeds exactly on such texts.
pub fn parse(input: &str) -> (r: Option<Problem>)
    ensures
        r matches Some(p) ==> problem_ok(p) && problem_lines(p) == text_lines(input@),
        (exists|p: Problem| problem_ok(p) && #[trigger] problem_lines(p) == text_lines(input@)) ==> r is Some,
{
    let chars = chars_of(input);
    let lines = split_lines(&chars);
    let ghost all = lines_view(lines@);
    let ghost w: Option<Problem> = if exists|p: Problem| problem_ok(p) && #[trigger] problem_lines(p) == all {
        Some(choose|p: Problem| problem_ok(p) && #[trigger] problem_lines(p) == all)
    } else {
        None
    };
    proof {
        if let Some(pw) = w {
            lemma_lines_shape(pw);
        }
    }
    let m = lines.len();
    if m == 0 {
        return None;
    }
    let mut quantifiers: Vec<(Quantifier, String)> = Vec::new();
    let mut i: usize = 0;
    loop
        invariant
            m == lines@.len() == all.len() >= 1,
            all == lines_view(lines@),
            all == text_lines(input@),
            (exists|p: Problem| problem_ok(p) && #[trigger] problem_lines(p) == all) ==> w is Some,
            i <= m - 1,
            quantifiers@.len() == i,
            forall|j: int| 0 <= j < i ==> is_name((#[trigger] quantifiers@[j]).1@) && quantifier_text(
                quantifiers@[j],
            ) == all[j],
            w matches Some(pw) ==> i <= pw.quantifiers@.len() && problem_lines(pw) == all && problem_ok(pw),
        ensures
            i <= m - 1,
            i < m - 1 ==> all[i as int].contains('='),
        decreases m - 1 - i,
    {
        if i == m - 1 {
            break;
        }
        let line = &lines[i];
        proof {
            assert(line@ == all[i as int]);
        }
        let eq = find_char(line, 0, line.len(), '=');
        if let Some(k) = eq {
            proof {
                assert(all[i as int][k as int] == '=');
            }
            break;
        }
        proof {
            if let Some(pw) = w {
                lemma_lines_shape(pw);
                if i >= pw.quantifiers@.len() {
                    let k = i - pw.quantifiers@.len();
                    assert(all[pw.quantifiers@.len() + k].contains('='));
                    let jj = choose|jj: int| 0 <= jj < all[i as int].len() && all[i as int][jj] == '=';
                    assert(line@[jj] == '=');
                }
                assert(is_name(pw.quantifiers@[i as int].1@));
                assert(quantifier_text(pw.quantifiers@[i as int]) == line@);
            }
        }
        match parse_quantifier(line) {
            Some(q) => {
                quantifiers.push(q);
            },
            None => {
                return None;
            },
        }
        i = i + 1;
    }
    let nq = i;
    proof {
        if let Some(pw) = w {
            lemma_lines_shape(pw);
            if i < m - 1 && i < pw.quantifiers@.len() {
                assert(all[i as int].contains('='));
                let j = choose|j: int| 0 <= j < all[i as int].len() && all[i as int][j] == '=';
                assert(all[i as int][j] != '=');
            }
            assert(nq == pw.quantifiers@.len());
        }
    }
    let mut statements: Vec<Statement> = Vec::new();
    while i < m - 1
        invariant
            m == lines@.len() == all.len() >= 1,
            all == lines_view(lines@),
            all == text_lines(input@),
            (exists|p: Problem| problem_ok(p) && #[trigger] problem_lines(p) == all) ==> w is Some,
            nq <= i <= m - 1,
            statements@.len() == i - nq,
            forall|j: int| 0 <= j < i - nq ==> is_name((#[trigger] statements@[j]).name@) && expr_ok(
                statements@[j].exp,
            ) && statement_text(statements@[j]) == all[nq + j],
            w matches Some(pw) ==> nq == pw.quantifiers@.len() && problem_lines(pw) == all && problem_ok(pw),
        decreases m - 1 - i,
    {
        let line = &lines[i];
        proof {
            assert(line@ == all[i as int]);
            if let Some(pw) = w {
                lemma_lines_shape(pw);
                let st = pw.statements@[i - nq];
                assert(is_name(st.name@) && expr_ok(st.exp));
                assert(statement_text(st) == line@);
            }
        }
        match parse_statement(line) {
            Some(st) => {
                statements.push(st);
            },
            None => {
                return None;
            },
        }
        i = i + 1;
    }
    let last = &lines[m - 1];
    proof {
        assert(last@ == all[m - 1]);
        if let Some(pw) = w {
            lemma_lines_shape(pw);
            assert(lit_text(pw.output) == last@.subrange(0, last@.len() as int));
        }
    }
    match parse_lit(last, 0, last.len()) {
        Some(output) => {
            let p = Problem { quantifiers, statements, output };
            proof {
                assert(last@.subrange(0, last@.len() as int) =~= last@);
                assert(problem_lines(p) =~= all);
            }
            Some(p)
        },
        None => {
            proof {
                assert(last@.subrange(0, last@.len() as int) =~= last@);
            }
            None
        },
    }
}

} // verus!
