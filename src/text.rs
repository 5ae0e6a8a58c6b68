//! Characters of a text and the lines they form.
use vstd::prelude::*;
use vstd::std_specs::iter::IteratorSpec;

verus! {

broadcast use vstd::string::group_string_axioms;

/// Relies on `String::push`: appends one character.
#[verifier::external_body]
pub(crate) fn push_char(s: &mut String, c: char)
    ensures
        final(s)@ == old(s)@.push(c),
{
    s.push(c)
}

/// The characters of `s`, in order.
pub fn chars_of(s: &str) -> (r: Vec<char>)
    ensures
        r@ == s@,
{
    let mut it = s.chars();
    let mut v: Vec<char> = Vec::new();
    loop
        invariant
            v@ + it.remaining() == s@,
            it.decrease() is Some,
        decreases it.decrease()->0,
    {
        match it.next() {
            Some(c) => {
                proof {
                    assert(v@.push(c) + it.remaining() =~= s@);
                }
                v.push(c);
            },
            None => {
                proof {
                    assert(v@ =~= s@);
                }
                return v;
            },
        }
    }
}

/// Characters that separate nothing: spaces, tabs and carriage returns.
pub open spec fn is_blank(c: char) -> bool {
    c == ' ' || c == '\t' || c == '\r'
}

/// The lines of `t` with their blanks removed; the last may be empty.
pub open spec fn raw_lines(t: Seq<char>) -> Seq<Seq<char>>
    decreases t.len(),
{
    if t.len() == 0 {
        seq![Seq::empty()]
    } else {
        let init = raw_lines(t.drop_last());
        let c = t.last();
        if c == '\n' {
            init.push(Seq::empty())
        } else if is_blank(c) {
            init
        } else {
            init.update(init.len() - 1, init.last().push(c))
        }
    }
}

/// The lines of `ls` that are not empty, in order.
pub open spec fn nonempty(ls: Seq<Seq<char>>) -> Seq<Seq<char>>
    decreases ls.len(),
{
    if ls.len() == 0 {
        Seq::empty()
    } else if ls.last().len() > 0 {
        nonempty(ls.drop_last()).push(ls.last())
    } else {
        nonempty(ls.drop_last())
    }
}

/// The non-blank lines of `t`, each with its blanks removed.
pub open spec fn text_lines(t: Seq<char>) -> Seq<Seq<char>> {
    nonempty(raw_lines(t))
}

pub open spec fn lines_view(v: Seq<Vec<char>>) -> Seq<Seq<char>> {
    v.map_values(|l: Vec<char>| l@)
}

/// Splits `t` into its non-blank lines, removing blanks.
pub fn split_lines(t: &Vec<char>) -> (r: Vec<Vec<char>>)
    ensures
        lines_view(r@) == text_lines(t@),
{
    let mut done: Vec<Vec<char>> = Vec::new();
    let mut cur: Vec<char> = Vec::new();
    let mut i: usize = 0;
    proof {
        assert(t@.subrange(0, 0) =~= Seq::<char>::empty());
        assert(lines_view(done@) =~= nonempty(raw_lines(t@.subrange(0, 0)).drop_last()));
    }
    while i < t.len()
        invariant
            i <= t@.len(),
            raw_lines(t@.subrange(0, i as int)).len() >= 1,
            lines_view(done@) == nonempty(raw_lines(t@.subrange(0, i as int)).drop_last()),
            cur@ == raw_lines(t@.subrange(0, i as int)).last(),
        decreases t@.len() - i,
    {
        let c = t[i];
        let ghost pre = t@.subrange(0, i as int);
        let ghost raw = raw_lines(pre);
        proof {
            assert(t@.subrange(0, i + 1).drop_last() =~= pre);
            assert(t@.subrange(0, i + 1).last() == c);
        }
        if c == '\n' {
            if cur.len() > 0 {
                let ghost before = done@;
                done.push(cur);
                proof {
                    assert(lines_view(done@) =~= lines_view(before).push(raw.last()));
                    assert(raw.push(Seq::empty()).drop_last() =~= raw);
                    assert(raw =~= raw.drop_last().push(raw.last()));
                }
            } else {
                proof {
                    assert(raw.push(Seq::empty()).drop_last() =~= raw);
                    assert(raw =~= raw.drop_last().push(raw.last()));
                }
            }
            cur = Vec::new();
            proof {
                assert(cur@ =~= Seq::<char>::empty());
            }
        } else if c == ' ' || c == '\t' || c == '\r' {
        } else {
            cur.push(c);
            proof {
                let next = raw.update(raw.len() - 1, raw.last().push(c));
                assert(next.drop_last() =~= raw.drop_last());
            }
        }
        i = i + 1;
    }
    proof {
        let raw = raw_lines(t@.subrange(0, i as int));
        assert(t@.subrange(0, i as int) =~= t@);
        assert(raw =~= raw.drop_last().push(raw.last()));
    }
    if cur.len() > 0 {
        let ghost before = done@;
        done.push(cur);
        proof {
            assert(lines_view(done@) =~= lines_view(before).push(cur@));
        }
    }
    done
}

} // verus!
