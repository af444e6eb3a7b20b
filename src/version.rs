//! Version strings of the form `MAJOR.MINOR.PATCH` and the increment of
//! their patch field.

use vstd::prelude::*;
use crate::pattern::{
    first_numbers_from, capture_groups, numbers_at, texts, version_captures, digit_run, VersionError,
    VERSION_PATTERN,
};
use crate::text::{append_chars, from_chars, to_chars};

verus! {

/// An ASCII decimal digit.
pub open spec fn is_digit(c: char) -> bool {
    '0' <= c && c <= '9'
}

/// Every character of `s` is an ASCII decimal digit.
pub open spec fn all_digits(s: Seq<char>) -> bool {
    forall|k: int| 0 <= k < s.len() ==> is_digit(#[trigger] s[k])
}

/// A non-empty run of ASCII decimal digits.
pub open spec fn is_numeral(s: Seq<char>) -> bool {
    s.len() > 0 && all_digits(s)
}

pub open spec fn digit_value(c: char) -> nat {
    (c as nat - '0' as nat) as nat
}

pub open spec fn digit_char(d: nat) -> char
    recommends
        d < 10,
{
    ('0' as nat + d) as char
}

/// The number that a run of decimal digits denotes.
pub open spec fn decimal_value(s: Seq<char>) -> nat
    decreases s.len(),
{
    if s.len() == 0 {
        0
    } else {
        decimal_value(s.drop_last()) * 10 + digit_value(s.last())
    }
}

/// The decimal text of `n`, without leading zeros.
pub open spec fn decimal_text(n: nat) -> Seq<char>
    decreases n,
{
    if n < 10 {
        seq![digit_char(n)]
    } else {
        decimal_text(n / 10).push(digit_char(n % 10))
    }
}

/// The digits that follow `s` when counting up by one, computed on the text.
pub open spec fn succ_digits(s: Seq<char>) -> Seq<char>
    decreases s.len(),
{
    if s.len() == 0 {
        seq!['1']
    } else if s.last() == '9' {
        succ_digits(s.drop_last()).push('0')
    } else {
        s.drop_last().push(digit_char(digit_value(s.last()) + 1))
    }
}

proof fn lemma_succ_digits_value(s: Seq<char>)
    requires
        all_digits(s),
    ensures
        all_digits(succ_digits(s)),
        decimal_value(succ_digits(s)) == decimal_value(s) + 1,
        succ_digits(s).len() > 0,
        s.len() == 0 || s[0] != '0' ==> succ_digits(s)[0] != '0',
    decreases s.len(),
{
    if s.len() == 0 {
        assert(seq!['1'].drop_last() =~= Seq::<char>::empty());
        assert(decimal_value(Seq::<char>::empty()) == 0);
        assert(digit_value('1') == 1);
        assert(decimal_value(seq!['1']) == 1);
    } else {
        let p = s.drop_last();
        assert(all_digits(p)) by {
            assert forall|k: int| 0 <= k < p.len() implies is_digit(#[trigger] p[k]) by {
                assert(p[k] == s[k]);
            }
        }
        assert(is_digit(s[s.len() - 1]));
        if s.last() == '9' {
            lemma_succ_digits_value(p);
            let q = succ_digits(p);
            assert(succ_digits(s) == q.push('0'));
            assert(q.push('0').drop_last() == q);
            assert forall|k: int| 0 <= k < q.push('0').len() implies is_digit(
                #[trigger] q.push('0')[k],
            ) by {
                if k < q.len() {
                    assert(q.push('0')[k] == q[k]);
                }
            }
            if p.len() > 0 {
                assert(p[0] == s[0]);
            }
        } else {
            let r = p.push(digit_char(digit_value(s.last()) + 1));
            assert(r.drop_last() == p);
            assert forall|k: int| 0 <= k < r.len() implies is_digit(#[trigger] r[k]) by {
                if k < p.len() {
                    assert(r[k] == p[k]);
                }
            }
            if p.len() > 0 {
                assert(r[0] == s[0]);
            }
            assert(digit_value(r.last()) == digit_value(s.last()) + 1);
        }
    }
}

/// `n` zero digits.
pub open spec fn zeros(n: nat) -> Seq<char> {
    Seq::new(n, |_i: int| '0')
}

proof fn lemma_succ_after_nines(t: Seq<char>, m: int)
    requires
        0 <= m <= t.len(),
        forall|j: int| m <= j < t.len() ==> t[j] == '9',
    ensures
        succ_digits(t) == succ_digits(t.take(m)) + zeros((t.len() - m) as nat),
    decreases t.len() - m,
{
    if m == t.len() {
        assert(t.take(m) == t);
        assert(zeros(0) =~= Seq::<char>::empty());
        assert(succ_digits(t) + zeros(0) =~= succ_digits(t));
    } else {
        let p = t.drop_last();
        lemma_succ_after_nines(p, m);
        assert(p.take(m) == t.take(m));
        assert(t.last() == '9');
        assert(succ_digits(t) == succ_digits(p).push('0'));
        assert((succ_digits(t.take(m)) + zeros((p.len() - m) as nat)).push('0') =~= succ_digits(
            t.take(m),
        ) + zeros((t.len() - m) as nat));
    }
}

proof fn lemma_leading_zeros(s: Seq<char>, z: int)
    requires
        0 <= z <= s.len(),
        forall|k: int| 0 <= k < z ==> s[k] == '0',
    ensures
        decimal_value(s) == decimal_value(s.subrange(z, s.len() as int)),
    decreases s.len(),
{
    if s.len() > 0 {
        let p = s.drop_last();
        if z == s.len() {
            lemma_leading_zeros(p, z - 1);
            assert(p.subrange(z - 1, p.len() as int) =~= Seq::<char>::empty());
            assert(s.subrange(z, s.len() as int) =~= Seq::<char>::empty());
            assert(s.last() == '0');
        } else {
            lemma_leading_zeros(p, z);
            let t = s.subrange(z, s.len() as int);
            assert(t.drop_last() =~= p.subrange(z, p.len() as int));
            assert(t.last() == s.last());
        }
    }
}

proof fn lemma_canonical_text(s: Seq<char>)
    requires
        is_numeral(s),
        s[0] != '0',
    ensures
        decimal_value(s) > 0,
        decimal_text(decimal_value(s)) == s,
    decreases s.len(),
{
    let p = s.drop_last();
    let d = s.last();
    assert(is_digit(s[s.len() - 1]));
    let dv = digit_value(d);
    assert(digit_char(dv) == d);
    if p.len() == 0 {
        assert(decimal_value(p) == 0);
        assert(s =~= seq![d]);
    } else {
        assert(is_numeral(p)) by {
            assert forall|k: int| 0 <= k < p.len() implies is_digit(#[trigger] p[k]) by {
                assert(p[k] == s[k]);
            }
        }
        assert(p[0] == s[0]);
        lemma_canonical_text(p);
        let v = decimal_value(p);
        let n = decimal_value(s);
        assert(n == v * 10 + dv);
        assert(n / 10 == v && n % 10 == dv) by (nonlinear_arith)
            requires
                n == v * 10 + dv,
                dv < 10,
        ;
        assert(s =~= p.push(d));
    }
}

/// The digit that follows `c`, for any digit but `9`.
fn next_digit(c: char) -> (r: char)
    requires
        is_digit(c),
        c != '9',
    ensures
        r == digit_char(digit_value(c) + 1),
{
    match c {
        '0' => '1',
        '1' => '2',
        '2' => '3',
        '3' => '4',
        '4' => '5',
        '5' => '6',
        '6' => '7',
        '7' => '8',
        _ => '9',
    }
}

/// The decimal text, without leading zeros, of one more than the number
/// that the digits `c` denote. Works on digit runs of any length.
pub fn successor_digits(c: &Vec<char>) -> (r: Vec<char>)
    requires
        all_digits(c@),
    ensures
        r@ == decimal_text(decimal_value(c@) + 1),
{
    let n = c.len();
    let mut z: usize = 0;
    while z < n && c[z] == '0'
        invariant
            z <= n == c.len(),
            forall|k: int| 0 <= k < z ==> c@[k] == '0',
        decreases n - z,
    {
        z = z + 1;
    }
    let ghost t = c@.subrange(z as int, n as int);
    let mut k: usize = n;
    while k > z && c[k - 1] == '9'
        invariant
            z <= k <= n == c.len(),
            forall|j: int| k <= j < n ==> c@[j] == '9',
        decreases k,
    {
        k = k - 1;
    }
    let mut out: Vec<char> = Vec::new();
    if k > z {
        let mut i: usize = z;
        while i < k - 1
            invariant
                z <= i <= k - 1,
                k <= n == c.len(),
                out@ == c@.subrange(z as int, i as int),
            decreases k - 1 - i,
        {
            out.push(c[i]);
            i = i + 1;
        }
        assert(is_digit(c@[k - 1]));
        out.push(next_digit(c[k - 1]));
    } else {
        out.push('1');
    }
    let ghost head = out@;
    let mut j: usize = k;
    while j < n
        invariant
            k <= j <= n,
            out@ == head + zeros((j - k) as nat),
        decreases n - j,
    {
        out.push('0');
        j = j + 1;
        assert(out@ =~= head + zeros((j - k) as nat));
    }
    proof {
        let m = k - z;
        lemma_succ_after_nines(t, m);
        let tm = t.take(m);
        if m == 0 {
            assert(tm =~= Seq::<char>::empty());
            assert(head == succ_digits(tm));
        } else {
            assert(tm.last() == c@[k - 1]);
            assert(tm.drop_last() =~= c@.subrange(z as int, k - 1));
            assert(head == succ_digits(tm));
        }
        assert(out@ =~= succ_digits(t));
        lemma_leading_zeros(c@, z as int);
        assert(all_digits(t)) by {
            assert forall|q: int| 0 <= q < t.len() implies is_digit(#[trigger] t[q]) by {
                assert(t[q] == c@[z + q]);
            }
        }
        lemma_succ_digits_value(t);
        if t.len() > 0 {
            assert(t[0] != '0');
        }
        lemma_canonical_text(succ_digits(t));
    }
    out
}

/// The text of an `Ok` result.
pub open spec fn result_text(r: Result<String, VersionError>) -> Result<Seq<char>, VersionError> {
    match r {
        Ok(s) => Ok(s@),
        Err(e) => Err(e),
    }
}

/// `a.b.c`
pub open spec fn dotted(a: Seq<char>, b: Seq<char>, c: Seq<char>) -> Seq<char> {
    a + seq!['.'] + b + seq!['.'] + c
}

/// The version that follows `version`, given the groups that
/// `VERSION_PATTERN` captured in it: the first two groups as they stand and
/// the successor of the third; `version` itself where there are not three
/// groups.
pub open spec fn incremented(version: Seq<char>, groups: Seq<Seq<char>>) -> Result<
    Seq<char>,
    VersionError,
> {
    if groups.len() != 3 {
        Ok(version)
    } else if !is_numeral(groups[2]) {
        Err(VersionError::InvalidNumber)
    } else {
        Ok(dotted(groups[0], groups[1], decimal_text(decimal_value(groups[2]) + 1)))
    }
}

/// The version that follows `version`.
pub open spec fn bumped(version: Seq<char>) -> Result<Seq<char>, VersionError> {
    incremented(version, version_captures(version))
}

/// Whether `s` is a non-empty run of ASCII digits.
fn check_numeral(s: &Vec<char>) -> (r: bool)
    ensures
        r == is_numeral(s@),
{
    if s.len() == 0 {
        return false;
    }
    let mut i: usize = 0;
    while i < s.len()
        invariant
            i <= s.len(),
            forall|k: int| 0 <= k < i ==> is_digit(#[trigger] s@[k]),
        decreases s.len() - i,
    {
        if !('0' <= s[i] && s[i] <= '9') {
            return false;
        }
        i = i + 1;
    }
    true
}

/// Builds the version that follows `version` from the groups that
/// `VERSION_PATTERN` captured in it.
pub fn increment_captures(version: &str, groups: &Vec<String>) -> (r: Result<String, VersionError>)
    ensures
        result_text(r) == incremented(version@, texts(groups@)),
{
    if groups.len() != 3 {
        return Ok(from_chars(to_chars(version).as_slice()));
    }
    let major = to_chars(groups[0].as_str());
    let minor = to_chars(groups[1].as_str());
    let patch = to_chars(groups[2].as_str());
    if !check_numeral(&patch) {
        return Err(VersionError::InvalidNumber);
    }
    let next = successor_digits(&patch);
    let mut out: Vec<char> = Vec::new();
    append_chars(&mut out, &major);
    out.push('.');
    append_chars(&mut out, &minor);
    out.push('.');
    append_chars(&mut out, &next);
    proof {
        let g = texts(groups@);
        assert(g[0] == major@ && g[1] == minor@ && g[2] == patch@);
        assert(out@ =~= dotted(major@, minor@, next@));
    }
    Ok(from_chars(out.as_slice()))
}

/// Increments the patch field of `version`: `A.B.C` becomes `A.B.(C+1)`
/// for the leftmost three dot-separated digit runs; text with no such runs
/// comes back unchanged.
pub fn increment_build_number(version: &str) -> (r: Result<String, VersionError>)
    ensures
        result_text(r) == bumped(version@),
{
    match capture_groups(version, VERSION_PATTERN) {
        Ok(groups) => increment_captures(version, &groups),
        Err(_) => Err(VersionError::InvalidPattern),
    }
}

proof fn lemma_digit_run(s: Seq<char>, i: int, n: int)
    requires
        0 <= i,
        0 <= n,
        i + n <= s.len(),
        forall|k: int| i <= k < i + n ==> is_digit(#[trigger] s[k]),
        i + n == s.len() || !is_digit(s[i + n]),
    ensures
        digit_run(s, i) == n,
    decreases n,
{
    if n > 0 {
        lemma_digit_run(s, i + 1, n - 1);
    }
}

/// Text made of three runs of decimal digits joined by dots keeps the first
/// two runs as they are written and gets the decimal successor of the third.
pub proof fn lemma_increment_three_numbers(a: Seq<char>, b: Seq<char>, c: Seq<char>)
    requires
        is_numeral(a),
        is_numeral(b),
        is_numeral(c),
    ensures
        bumped(dotted(a, b, c)) == Ok::<Seq<char>, VersionError>(
            dotted(a, b, decimal_text(decimal_value(c) + 1)),
        ),
{
    let s = dotted(a, b, c);
    let j = a.len() as int;
    let k = j + 1 + b.len();
    assert(s.len() == k + 1 + c.len());
    assert forall|q: int| 0 <= q < j implies is_digit(#[trigger] s[q]) by {
        assert(s[q] == a[q]);
    }
    assert(s[j] == '.');
    assert forall|q: int| j + 1 <= q < k implies is_digit(#[trigger] s[q]) by {
        assert(s[q] == b[q - j - 1]);
    }
    assert(s[k] == '.');
    assert forall|q: int| k + 1 <= q < s.len() implies is_digit(#[trigger] s[q]) by {
        assert(s[q] == c[q - k - 1]);
    }
    lemma_digit_run(s, 0, j);
    lemma_digit_run(s, j + 1, b.len() as int);
    lemma_digit_run(s, k + 1, c.len() as int);
    assert(s.subrange(0, j) =~= a);
    assert(s.subrange(j + 1, k) =~= b);
    assert(s.subrange(k + 1, s.len() as int) =~= c);
    assert(numbers_at(s, 0) == Some(seq![a, b, c]));
    assert(version_captures(s) == seq![a, b, c]);
}

proof fn lemma_decimal_text(n: nat)
    ensures
        is_numeral(decimal_text(n)),
        decimal_value(decimal_text(n)) == n,
    decreases n,
{
    if n < 10 {
        let s = seq![digit_char(n)];
        assert(s.drop_last() =~= Seq::<char>::empty());
        assert(decimal_value(Seq::<char>::empty()) == 0);
        assert(digit_value(digit_char(n)) == n);
    } else {
        lemma_decimal_text(n / 10);
        let p = decimal_text(n / 10);
        let s = p.push(digit_char(n % 10));
        assert(s.drop_last() =~= p);
        assert(digit_value(digit_char(n % 10)) == n % 10);
        assert forall|k: int| 0 <= k < s.len() implies is_digit(#[trigger] s[k]) by {
            if k < p.len() {
                assert(s[k] == p[k]);
            }
        }
        assert(n == (n / 10) * 10 + n % 10) by (nonlinear_arith);
    }
}

/// Each increment moves the patch field on: a second increment of the
/// result gives the successor of the successor, with the first two runs
/// still as they are written.
pub proof fn lemma_increment_twice(a: Seq<char>, b: Seq<char>, c: Seq<char>)
    requires
        is_numeral(a),
        is_numeral(b),
        is_numeral(c),
    ensures
        bumped(dotted(a, b, c)) == Ok::<Seq<char>, VersionError>(
            dotted(a, b, decimal_text(decimal_value(c) + 1)),
        ),
        bumped(dotted(a, b, decimal_text(decimal_value(c) + 1))) == Ok::<Seq<char>, VersionError>(
            dotted(a, b, decimal_text(decimal_value(c) + 2)),
        ),
{
    lemma_increment_three_numbers(a, b, c);
    lemma_decimal_text(decimal_value(c) + 1);
    lemma_increment_three_numbers(a, b, decimal_text(decimal_value(c) + 1));
}

proof fn lemma_no_numbers_from(s: Seq<char>, i: int)
    requires
        forall|k: int| #[trigger] numbers_at(s, k) is None,
    ensures
        first_numbers_from(s, i) is None,
    decreases s.len() - i,
{
    if 0 <= i < s.len() {
        assert(numbers_at(s, i) is None);
        lemma_no_numbers_from(s, i + 1);
    }
}

/// Text in which no three dot-separated digit runs stand comes back
/// unchanged.
pub proof fn lemma_increment_no_match(s: Seq<char>)
    requires
        forall|k: int| #[trigger] numbers_at(s, k) is None,
    ensures
        bumped(s) == Ok::<Seq<char>, VersionError>(s),
{
    lemma_no_numbers_from(s, 0);
}

} // verus!
