//! Character-level helpers: conversion between strings and characters,
//! white space, trimming and prefix tests.

use vstd::prelude::*;
use crate::pattern::is_white_space;
use vstd::std_specs::iter::IteratorSpec;

verus! {

/// The characters of `s`, in order.
pub(crate) fn to_chars(s: &str) -> (r: Vec<char>)
    ensures
        r@ == s@,
{
    let mut out: Vec<char> = Vec::new();
    let mut it = s.chars();
    loop
        invariant
            it.obeys_prophetic_iter_laws(),
            out@ + it.remaining() == s@,
        ensures
            out@ == s@,
        decreases s@.len() - out@.len(),
    {
        match it.next() {
            Some(c) => {
                out.push(c);
            },
            None => {
                assert(out@ + it.remaining() =~= out@);
                break;
            },
        }
    }
    out
}

/// Relies on `String::push`: appends `c` to the end of `s`.
#[verifier::external_body]
fn push_char(s: &mut String, c: char)
    ensures
        final(s)@ == old(s)@.push(c),
{
    s.push(c)
}

/// The string made of the characters of `v`, in order.
pub(crate) fn from_chars(v: &[char]) -> (r: String)
    ensures
        r@ == v@,
{
    let mut out = String::new();
    let mut i: usize = 0;
    while i < v.len()
        invariant
            i <= v.len(),
            out@ == v@.take(i as int),
        decreases v.len() - i,
    {
        push_char(&mut out, v[i]);
        i = i + 1;
        assert(out@ =~= v@.take(i as int));
    }
    assert(v@.take(v.len() as int) =~= v@);
    out
}

/// Whether `c` is Unicode white space.
pub fn is_white_space_char(c: char) -> (r: bool)
    ensures
        r == is_white_space(c),
{
    ('\u{9}' <= c && c <= '\u{d}') || c == ' ' || c == '\u{85}' || c == '\u{a0}' || c
        == '\u{1680}' || ('\u{2000}' <= c && c <= '\u{200a}') || c == '\u{2028}' || c
        == '\u{2029}' || c == '\u{202f}' || c == '\u{205f}' || c == '\u{3000}'
}

/// `p` stands in `s` at index `i`.
pub open spec fn occurs_at(s: Seq<char>, p: Seq<char>, i: int) -> bool {
    0 <= i && i + p.len() <= s.len() && s.subrange(i, i + p.len()) == p
}

/// Every occurrence of `p` in `s`, taken from left to right without
/// overlap, replaced by `t`.
pub open spec fn replace_all(s: Seq<char>, p: Seq<char>, t: Seq<char>) -> Seq<char>
    decreases s.len(),
{
    if p.len() == 0 || s.len() < p.len() {
        s
    } else if s.take(p.len() as int) == p {
        t + replace_all(s.skip(p.len() as int), p, t)
    } else {
        seq![s[0]] + replace_all(s.skip(1), p, t)
    }
}

/// Appends the characters of `src` to `out`.
pub(crate) fn append_chars(out: &mut Vec<char>, src: &Vec<char>)
    ensures
        final(out)@ == old(out)@ + src@,
{
    let mut i: usize = 0;
    while i < src.len()
        invariant
            i <= src.len(),
            out@ == old(out)@ + src@.take(i as int),
        decreases src.len() - i,
    {
        out.push(src[i]);
        i = i + 1;
        assert(out@ =~= old(out)@ + src@.take(i as int));
    }
    assert(src@.take(src.len() as int) =~= src@);
}

/// Whether `p` stands in `s` at index `i`.
pub(crate) fn occurs_at_exec(s: &Vec<char>, p: &Vec<char>, i: usize) -> (r: bool)
    ensures
        r == occurs_at(s@, p@, i as int),
{
    if i > s.len() || p.len() > s.len() - i {
        return false;
    }
    let mut k: usize = 0;
    while k < p.len()
        invariant
            k <= p.len(),
            i + p.len() <= s.len(),
            forall|q: int| 0 <= q < k ==> s@[i + q] == p@[q],
        decreases p.len() - k,
    {
        if s[i + k] != p[k] {
            assert(s@.subrange(i as int, i + p.len())[k as int] != p@[k as int]);
            return false;
        }
        k = k + 1;
    }
    assert(s@.subrange(i as int, i + p.len()) =~= p@);
    true
}

/// Replaces every occurrence of `p` in `s` by `t`, from left to right.
pub fn replace_chars(s: &Vec<char>, p: &Vec<char>, t: &Vec<char>) -> (r: Vec<char>)
    requires
        p.len() > 0,
    ensures
        r@ == replace_all(s@, p@, t@),
{
    let mut out: Vec<char> = Vec::new();
    let mut i: usize = 0;
    assert(s@.skip(0) =~= s@);
    assert(out@ + replace_all(s@, p@, t@) =~= replace_all(s@, p@, t@));
    while i < s.len()
        invariant
            i <= s.len(),
            p.len() > 0,
            out@ + replace_all(s@.skip(i as int), p@, t@) == replace_all(s@, p@, t@),
        decreases s.len() - i,
    {
        let ghost rest = s@.skip(i as int);
        if occurs_at_exec(s, p, i) {
            proof {
                assert(rest.take(p.len() as int) =~= p@);
                assert(rest.skip(p.len() as int) =~= s@.skip(i + p.len()));
                assert(out@ + t@ + replace_all(s@.skip(i + p.len()), p@, t@) =~= out@ + (t@
                    + replace_all(rest.skip(p.len() as int), p@, t@)));
            }
            append_chars(&mut out, t);
            i = i + p.len();
        } else {
            proof {
                assert(rest.skip(1) =~= s@.skip(i + 1));
                if rest.len() >= p.len() {
                    assert(rest.take(p.len() as int) =~= s@.subrange(i as int, i + p.len()));
                } else {
                    assert(replace_all(rest.skip(1), p@, t@) == rest.skip(1));
                    assert(rest =~= seq![rest[0]] + rest.skip(1));
                }
                assert(out@.push(s@[i as int]) + replace_all(s@.skip(i + 1), p@, t@) =~= out@
                    + (seq![rest[0]] + replace_all(rest.skip(1), p@, t@)));
            }
            out.push(s[i]);
            i = i + 1;
        }
    }
    assert(s@.skip(i as int) =~= Seq::<char>::empty());
    assert(out@ + Seq::<char>::empty() =~= out@);
    out
}

/// Text without any occurrence of `p` is left as it is by the replacement.
pub proof fn lemma_replace_absent(s: Seq<char>, p: Seq<char>, t: Seq<char>)
    requires
        p.len() > 0,
        forall|i: int| !(#[trigger] occurs_at(s, p, i)),
    ensures
        replace_all(s, p, t) == s,
    decreases s.len(),
{
    if s.len() >= p.len() {
        let r = s.skip(1);
        assert(!occurs_at(s, p, 0));
        assert(s.take(p.len() as int) == s.subrange(0, p.len() as int));
        assert forall|i: int| !(#[trigger] occurs_at(r, p, i)) by {
            if occurs_at(r, p, i) {
                assert(r.subrange(i, i + p.len()) =~= s.subrange(i + 1, i + 1 + p.len()));
                assert(occurs_at(s, p, i + 1));
            }
        }
        lemma_replace_absent(r, p, t);
        assert(s =~= seq![s[0]] + r);
    }
}

/// Text before which no character of `u` could start `p` passes through
/// the replacement unchanged.
pub proof fn lemma_replace_skips(u: Seq<char>, v: Seq<char>, p: Seq<char>, t: Seq<char>)
    requires
        p.len() > 0,
        forall|k: int| 0 <= k < u.len() ==> u[k] != p[0],
    ensures
        replace_all(u + v, p, t) == u + replace_all(v, p, t),
    decreases u.len(),
{
    if u.len() > 0 {
        let s = u + v;
        let u1 = u.skip(1);
        assert(s.skip(1) =~= u1 + v);
        lemma_replace_skips(u1, v, p, t);
        if s.len() < p.len() {
            assert(v.len() < p.len());
            assert(s.skip(1).len() < p.len());
            assert(u + v =~= seq![u[0]] + (u1 + v));
        } else {
            assert(s.take(p.len() as int)[0] == u[0]);
            assert(s.take(p.len() as int) != p);
        }
        assert(u + replace_all(v, p, t) =~= seq![u[0]] + (u1 + replace_all(v, p, t)));
    }
}

/// A character that stands neither in `s` nor in `t` does not stand in the
/// replacement either.
pub proof fn lemma_replace_lacks(s: Seq<char>, p: Seq<char>, t: Seq<char>, c: char)
    requires
        lacks(s, c),
        lacks(t, c),
    ensures
        lacks(replace_all(s, p, t), c),
    decreases s.len(),
{
    if p.len() > 0 && s.len() >= p.len() {
        if s.take(p.len() as int) == p {
            let r = s.skip(p.len() as int);
            assert(lacks(r, c)) by {
                assert forall|k: int| 0 <= k < r.len() implies r[k] != c by {
                    assert(r[k] == s[k + p.len()]);
                }
            }
            lemma_replace_lacks(r, p, t, c);
            let x = replace_all(r, p, t);
            assert forall|k: int| 0 <= k < (t + x).len() implies (t + x)[k] != c by {
                if k >= t.len() {
                    assert((t + x)[k] == x[k - t.len()]);
                }
            }
        } else {
            let r = s.skip(1);
            assert(lacks(r, c)) by {
                assert forall|k: int| 0 <= k < r.len() implies r[k] != c by {
                    assert(r[k] == s[k + 1]);
                }
            }
            lemma_replace_lacks(r, p, t, c);
            let x = replace_all(r, p, t);
            assert forall|k: int| 0 <= k < (seq![s[0]] + x).len() implies (seq![s[0]] + x)[k]
                != c by {
                if k >= 1 {
                    assert((seq![s[0]] + x)[k] == x[k - 1]);
                }
            }
        }
    }
}

/// Where neither `s` nor a non-empty `t` ends in a carriage return, the
/// replacement does not either.
pub proof fn lemma_replace_no_cr_end(s: Seq<char>, p: Seq<char>, t: Seq<char>)
    requires
        no_cr_end(s),
        t.len() > 0,
        no_cr_end(t),
    ensures
        no_cr_end(replace_all(s, p, t)),
    decreases s.len(),
{
    if p.len() > 0 && s.len() >= p.len() {
        let (head, r) = if s.take(p.len() as int) == p {
            (t, s.skip(p.len() as int))
        } else {
            (seq![s[0]], s.skip(1))
        };
        if r.len() > 0 {
            assert(r.last() == s.last());
        }
        lemma_replace_no_cr_end(r, p, t);
        let x = replace_all(r, p, t);
        if x.len() > 0 {
            assert((head + x).last() == x.last());
        } else {
            assert(head + x =~= head);
            if head != t {
                assert(r.len() == 0);
                assert(s.len() == 1);
            }
        }
    }
}

/// An occurrence of `p` at the start is replaced.
pub proof fn lemma_replace_head(v: Seq<char>, p: Seq<char>, t: Seq<char>)
    requires
        p.len() > 0,
    ensures
        replace_all(p + v, p, t) == t + replace_all(v, p, t),
{
    assert((p + v).take(p.len() as int) =~= p);
    assert((p + v).skip(p.len() as int) =~= v);
}

/// The number of characters before the first newline of `s`, or its length.
pub open spec fn line_len(s: Seq<char>) -> nat
    decreases s.len(),
{
    if s.len() == 0 || s[0] == '\n' {
        0
    } else {
        1 + line_len(s.skip(1))
    }
}

proof fn lemma_line_len_bound(s: Seq<char>)
    ensures
        line_len(s) <= s.len(),
        line_len(s) < s.len() ==> s[line_len(s) as int] == '\n',
    decreases s.len(),
{
    if s.len() > 0 && s[0] != '\n' {
        lemma_line_len_bound(s.skip(1));
    }
}

proof fn lemma_line_len(s: Seq<char>, n: int)
    requires
        0 <= n <= s.len(),
        forall|k: int| 0 <= k < n ==> s[k] != '\n',
        n == s.len() || s[n] == '\n',
    ensures
        line_len(s) == n,
    decreases n,
{
    if n > 0 {
        lemma_line_len(s.skip(1), n - 1);
    }
}

/// A line ended by a newline, without the carriage return before it.
pub open spec fn without_cr(l: Seq<char>) -> Seq<char> {
    if l.len() > 0 && l.last() == '\r' {
        l.drop_last()
    } else {
        l
    }
}

/// The lines of `s`: split at each newline, a carriage return before the
/// newline dropped, and no empty last line after a final newline.
pub open spec fn lines_of(s: Seq<char>) -> Seq<Seq<char>>
    decreases s.len(),
    via lines_of_decreases
{
    if s.len() == 0 {
        seq![]
    } else {
        let e = line_len(s) as int;
        if e >= s.len() {
            seq![s]
        } else {
            seq![without_cr(s.take(e))] + lines_of(s.skip(e + 1))
        }
    }
}

#[via_fn]
proof fn lines_of_decreases(s: Seq<char>) {
    lemma_line_len_bound(s);
}

/// `c` does not stand in `s`.
pub open spec fn lacks(s: Seq<char>, c: char) -> bool {
    forall|k: int| 0 <= k < s.len() ==> s[k] != c
}

/// `s` does not end in a carriage return.
pub open spec fn no_cr_end(s: Seq<char>) -> bool {
    s.len() == 0 || s.last() != '\r'
}

/// No line of `s` holds a newline.
pub proof fn lemma_lines_lack_newline(s: Seq<char>)
    ensures
        forall|i: int| 0 <= i < lines_of(s).len() ==> lacks(#[trigger] lines_of(s)[i], '\n'),
    decreases s.len(),
{
    if s.len() > 0 {
        lemma_line_len_bound(s);
        let e = line_len(s) as int;
        lemma_line_len_prefix(s);
        if e < s.len() {
            lemma_lines_lack_newline(s.skip(e + 1));
            let l = s.take(e);
            assert(lacks(l, '\n')) by {
                assert forall|k: int| 0 <= k < l.len() implies l[k] != '\n' by {
                    assert(l[k] == s[k]);
                }
            }
            assert(lacks(without_cr(l), '\n')) by {
                assert forall|k: int| 0 <= k < without_cr(l).len() implies without_cr(l)[k]
                    != '\n' by {
                    assert(without_cr(l)[k] == l[k]);
                }
            }
            let r = lines_of(s.skip(e + 1));
            assert forall|i: int| 0 <= i < lines_of(s).len() implies lacks(
                #[trigger] lines_of(s)[i],
                '\n',
            ) by {
                if i > 0 {
                    assert(lines_of(s)[i] == r[i - 1]);
                }
            }
        }
    }
}

proof fn lemma_line_len_prefix(s: Seq<char>)
    ensures
        forall|k: int| 0 <= k < line_len(s) ==> s[k] != '\n',
    decreases s.len(),
{
    lemma_line_len_bound(s);
    if s.len() > 0 && s[0] != '\n' {
        lemma_line_len_prefix(s.skip(1));
        assert forall|k: int| 0 <= k < line_len(s) implies s[k] != '\n' by {
            if k > 0 {
                assert(s[k] == s.skip(1)[k - 1]);
            }
        }
    }
}

/// A line without newline, followed by a newline, is read back as the
/// first line, with the rest after it.
pub proof fn lemma_lines_of_cons(l: Seq<char>, rest: Seq<char>)
    requires
        lacks(l, '\n'),
        no_cr_end(l),
    ensures
        lines_of(l + seq!['\n'] + rest) == seq![l] + lines_of(rest),
{
    let s = l + seq!['\n'] + rest;
    assert forall|k: int| 0 <= k < l.len() implies s[k] != '\n' by {
        assert(s[k] == l[k]);
    }
    lemma_line_len(s, l.len() as int);
    assert(s.take(l.len() as int) =~= l);
    assert(s.skip(l.len() + 1 as int) =~= rest);
}

/// The views of a sequence of character vectors.
pub open spec fn views(v: Seq<Vec<char>>) -> Seq<Seq<char>> {
    v.map_values(|l: Vec<char>| l@)
}

/// Splits `s` into its lines.
pub fn split_lines(s: &Vec<char>) -> (r: Vec<Vec<char>>)
    ensures
        views(r@) == lines_of(s@),
{
    let mut out: Vec<Vec<char>> = Vec::new();
    let mut i: usize = 0;
    assert(s@.skip(0) =~= s@);
    assert(views(out@) + lines_of(s@) =~= lines_of(s@));
    while i < s.len()
        invariant
            i <= s.len(),
            views(out@) + lines_of(s@.skip(i as int)) == lines_of(s@),
        decreases s.len() - i,
    {
        let ghost rest = s@.skip(i as int);
        let mut j: usize = i;
        let mut line: Vec<char> = Vec::new();
        while j < s.len() && s[j] != '\n'
            invariant
                i <= j <= s.len(),
                forall|k: int| i <= k < j ==> s@[k] != '\n',
                line@ == s@.subrange(i as int, j as int),
            decreases s.len() - j,
        {
            line.push(s[j]);
            j = j + 1;
            assert(line@ =~= s@.subrange(i as int, j as int));
        }
        proof {
            assert forall|k: int| 0 <= k < j - i implies rest[k] != '\n' by {
                assert(rest[k] == s@[i + k]);
            }
            lemma_line_len(rest, j - i);
            assert(rest.take(j - i) =~= line@);
        }
        if j < s.len() {
            let n = line.len();
            if n > 0 && line[n - 1] == '\r' {
                line.pop();
                assert(line@ =~= without_cr(rest.take(j - i)));
            }
            proof {
                assert(rest.skip(j - i + 1) =~= s@.skip(j + 1));
                assert(views(out@.push(line)) =~= views(out@) + seq![line@]);
            }
            out.push(line);
            i = j + 1;
        } else {
            proof {
                assert(rest =~= line@);
                assert(s@.skip(j as int) =~= Seq::<char>::empty());
                assert(views(out@.push(line)) =~= views(out@) + seq![line@]);
            }
            out.push(line);
            i = j;
        }
    }
    assert(s@.skip(i as int) =~= Seq::<char>::empty());
    assert(views(out@) + Seq::<Seq<char>>::empty() =~= views(out@));
    out
}

} // verus!
