//! Finding the version setting of a manifest and rewriting its quoted
//! value, line by line, in the manifest and in its lock file.

use vstd::prelude::*;
use crate::pattern::{
    capture_groups, is_white_space, texts, version_line_captures, version_word, VersionError,
    VERSION_LINE_PATTERN,
};
use crate::text::{
    append_chars, from_chars, is_white_space_char, lacks, lemma_lines_lack_newline,
    lemma_lines_of_cons, lines_of, no_cr_end, occurs_at, occurs_at_exec,
    lemma_replace_absent, lemma_replace_head, lemma_replace_lacks, lemma_replace_no_cr_end,
    lemma_replace_skips, replace_all, replace_chars,
    split_lines, to_chars, views,
};
use crate::version::{bumped, increment_build_number, lemma_increment_no_match, result_text};
use crate::pattern::numbers_at;

verus! {

/// Only white space stands before index `i` of `s`, and the word `version`
/// starts there.
pub open spec fn version_word_at(s: Seq<char>, i: int) -> bool {
    occurs_at(s, version_word(), i) && forall|k: int| 0 <= k < i ==> is_white_space(s[k])
}

/// After its leading white space, the line begins with `version`.
pub open spec fn is_version_line_text(s: Seq<char>) -> bool {
    exists|i: int| #[trigger] version_word_at(s, i)
}

/// The quoted value of the version setting on a line, or the empty text
/// where the line holds none.
pub open spec fn version_in_line(s: Seq<char>) -> Seq<char> {
    let g = version_line_captures(s);
    if is_version_line_text(s) && g.len() == 1 {
        g[0]
    } else {
        seq![]
    }
}

/// `s` between double quotes.
pub open spec fn quote(s: Seq<char>) -> Seq<char> {
    seq!['"'] + s + seq!['"']
}

/// A line after the version moved from `o` to `n`: on a version line, every
/// quoted occurrence of `o` becomes the quoted `n`; other lines, and every
/// line where `o` is empty, stay as they are.
pub open spec fn updated_line(s: Seq<char>, o: Seq<char>, n: Seq<char>) -> Seq<char> {
    if is_version_line_text(s) && o.len() > 0 {
        replace_all(s, quote(o), quote(n))
    } else {
        s
    }
}

/// The lines, each followed by a newline.
pub open spec fn joined(ls: Seq<Seq<char>>) -> Seq<char>
    decreases ls.len(),
{
    if ls.len() == 0 {
        seq![]
    } else {
        joined(ls.drop_last()) + ls.last() + seq!['\n']
    }
}

/// The lines of a file after the version moved from `o` to `n`.
pub open spec fn updated_lines(text: Seq<char>, o: Seq<char>, n: Seq<char>) -> Seq<Seq<char>> {
    lines_of(text).map_values(|l: Seq<char>| updated_line(l, o, n))
}

/// The lines joined, read from the front.
proof fn lemma_joined_front(ls: Seq<Seq<char>>)
    requires
        ls.len() > 0,
    ensures
        joined(ls) == ls[0] + seq!['\n'] + joined(ls.skip(1)),
    decreases ls.len(),
{
    if ls.len() == 1 {
        assert(ls.drop_last() =~= Seq::<Seq<char>>::empty());
        assert(ls.skip(1) =~= Seq::<Seq<char>>::empty());
        assert(joined(Seq::<Seq<char>>::empty()) == Seq::<char>::empty());
        assert(Seq::<char>::empty() + ls[0] + seq!['\n'] =~= ls[0] + seq!['\n'] + Seq::<char>::empty());
    } else {
        let d = ls.drop_last();
        lemma_joined_front(d);
        assert(d.skip(1) =~= ls.skip(1).drop_last());
        assert(ls.skip(1).last() == ls.last());
        assert(d[0] == ls[0]);
        assert(joined(ls.skip(1)) == joined(d.skip(1)) + ls.last() + seq!['\n']);
        assert(ls[0] + seq!['\n'] + joined(d.skip(1)) + ls.last() + seq!['\n'] =~= ls[0]
            + seq!['\n'] + (joined(d.skip(1)) + ls.last() + seq!['\n']));
    }
}

/// Lines without newlines, none ending in a carriage return, are read back
/// from their joined text as they are.
pub proof fn lemma_lines_of_joined(ls: Seq<Seq<char>>)
    requires
        forall|i: int| 0 <= i < ls.len() ==> lacks(#[trigger] ls[i], '\n') && no_cr_end(ls[i]),
    ensures
        lines_of(joined(ls)) == ls,
    decreases ls.len(),
{
    if ls.len() == 0 {
        assert(lines_of(Seq::<char>::empty()) =~= ls);
    } else {
        lemma_joined_front(ls);
        assert(ls[0] == ls[0]);
        lemma_lines_of_cons(ls[0], joined(ls.skip(1)));
        assert forall|i: int| 0 <= i < ls.skip(1).len() implies lacks(
            #[trigger] ls.skip(1)[i],
            '\n',
        ) && no_cr_end(ls.skip(1)[i]) by {
            assert(ls.skip(1)[i] == ls[i + 1]);
        }
        lemma_lines_of_joined(ls.skip(1));
        assert(seq![ls[0]] + ls.skip(1) =~= ls);
    }
}

/// A file's text after the version moved from `o` to `n`, each line
/// followed by a newline. A file with no line becomes a single newline.
pub open spec fn updated_text(text: Seq<char>, o: Seq<char>, n: Seq<char>) -> Seq<char> {
    let ls = updated_lines(text, o, n);
    if ls.len() == 0 {
        seq!['\n']
    } else {
        joined(ls)
    }
}

/// The version of the first line that holds one, or the empty text.
pub open spec fn first_version(ls: Seq<Seq<char>>) -> Seq<char>
    decreases ls.len(),
{
    if ls.len() == 0 {
        seq![]
    } else if version_in_line(ls[0]).len() > 0 {
        version_in_line(ls[0])
    } else {
        first_version(ls.skip(1))
    }
}

/// The version that a manifest declares, or the empty text.
pub open spec fn detected_version(text: Seq<char>) -> Seq<char> {
    first_version(lines_of(text))
}

/// Whether the line, after its leading white space, begins with `version`.
pub fn is_version_line(line: &str) -> (r: bool)
    ensures
        r == is_version_line_text(line@),
{
    let s = to_chars(line);
    let mut i: usize = 0;
    while i < s.len() && is_white_space_char(s[i])
        invariant
            i <= s.len(),
            forall|k: int| 0 <= k < i ==> is_white_space(s@[k]),
        decreases s.len() - i,
    {
        i = i + 1;
    }
    let word: Vec<char> = vec!['v', 'e', 'r', 's', 'i', 'o', 'n'];
    assert(word@ =~= version_word());
    let r = occurs_at_exec(&s, &word, i);
    proof {
        if r {
            assert(version_word_at(s@, i as int));
        } else {
            assert forall|j: int| !version_word_at(s@, j) by {
                if version_word_at(s@, j) {
                    assert(s@.subrange(j, j + 7)[0] == 'v');
                    if j < i {
                        assert(is_white_space(s@[j]));
                    } else if j > i {
                        assert(is_white_space(s@[i as int]));
                    }
                }
            }
        }
    }
    r
}

/// The quoted value of the line's `version = "..."` setting, or the empty
/// text where the line is no version line or the setting does not match.
pub fn read_version_string(line: &str) -> (r: Result<String, VersionError>)
    ensures
        result_text(r) == Ok::<Seq<char>, VersionError>(version_in_line(line@)),
{
    if !is_version_line(line) {
        return Ok(String::new());
    }
    match capture_groups(line, VERSION_LINE_PATTERN) {
        Err(_) => Err(VersionError::InvalidPattern),
        Ok(groups) => {
            if groups.len() != 1 {
                Ok(String::new())
            } else {
                assert(texts(groups@)[0] == groups@[0]@);
                Ok(groups[0].clone())
            }
        },
    }
}

/// `s` between double quotes.
pub fn quoted(s: &str) -> (r: String)
    ensures
        r@ == quote(s@),
{
    let mut out: Vec<char> = vec!['"'];
    append_chars(&mut out, &to_chars(s));
    out.push('"');
    assert(out@ =~= quote(s@));
    from_chars(out.as_slice())
}

/// Replaces every quoted `version` on the line by the quoted `new_version`,
/// matching the text exactly.
pub fn replace_string_carefully(line: &str, version: &str, new_version: &str) -> (r: String)
    ensures
        r@ == replace_all(line@, quote(version@), quote(new_version@)),
{
    let placeholder = to_chars(quoted(version).as_str());
    let replacement = to_chars(quoted(new_version).as_str());
    let result = replace_chars(&to_chars(line), &placeholder, &replacement);
    from_chars(result.as_slice())
}

/// On a version line, replaces the quoted `version` by the quoted
/// `new_version`; any other line, or any line when `version` is empty,
/// comes back unchanged.
pub fn update_version_string_if_needed(line: &str, version: &str, new_version: &str) -> (r:
    String)
    ensures
        r@ == updated_line(line@, version@, new_version@),
{
    if version.is_empty() || !is_version_line(line) {
        return from_chars(to_chars(line).as_slice());
    }
    replace_string_carefully(line, version, new_version)
}

/// The version that the manifest `text` declares: the value of its first
/// version line, or the empty text where it has none.
pub fn detect_version(text: &str) -> (r: Result<String, VersionError>)
    ensures
        result_text(r) == Ok::<Seq<char>, VersionError>(detected_version(text@)),
{
    let lines = split_lines(&to_chars(text));
    let ghost ls = views(lines@);
    let mut i: usize = 0;
    assert(ls.skip(0) =~= ls);
    while i < lines.len()
        invariant
            i <= lines.len(),
            ls == views(lines@),
            ls == lines_of(text@),
            first_version(ls) == first_version(ls.skip(i as int)),
        decreases lines.len() - i,
    {
        let line = from_chars(lines[i].as_slice());
        let version = match read_version_string(line.as_str()) {
            Ok(v) => v,
            Err(e) => return Err(e),
        };
        assert(line@ == ls[i as int]);
        assert(ls.skip(i as int)[0] == ls[i as int]);
        assert(ls.skip(i as int).skip(1) =~= ls.skip(i + 1));
        assert(first_version(ls.skip(i as int)) == if version_in_line(ls[i as int]).len() > 0 {
            version_in_line(ls[i as int])
        } else {
            first_version(ls.skip(i + 1))
        });
        if !version.as_str().is_empty() {
            return Ok(version);
        }
        i = i + 1;
    }
    Ok(String::new())
}

/// The text of a file after the version moved from `version` to
/// `new_version` on each of its lines, each line followed by a newline.
pub fn update_version_text(text: &str, version: &str, new_version: &str) -> (r: String)
    ensures
        r@ == updated_text(text@, version@, new_version@),
{
    let lines = split_lines(&to_chars(text));
    let ghost ls = views(lines@);
    let ghost up = updated_lines(text@, version@, new_version@);
    let mut out: Vec<char> = Vec::new();
    let mut i: usize = 0;
    assert(up.take(0) =~= Seq::<Seq<char>>::empty());
    while i < lines.len()
        invariant
            i <= lines.len(),
            ls == views(lines@),
            ls == lines_of(text@),
            up == updated_lines(text@, version@, new_version@),
            out@ == joined(up.take(i as int)),
        decreases lines.len() - i,
    {
        let line = from_chars(lines[i].as_slice());
        let converted = update_version_string_if_needed(line.as_str(), version, new_version);
        append_chars(&mut out, &to_chars(converted.as_str()));
        out.push('\n');
        proof {
            let next = up.take(i + 1);
            assert(next.drop_last() =~= up.take(i as int));
            assert(next.last() == converted@);
        }
        i = i + 1;
    }
    if lines.len() == 0 {
        out.push('\n');
        assert(out@ =~= seq!['\n']);
    } else {
        assert(up.take(i as int) =~= up);
    }
    from_chars(out.as_slice())
}

/// Bumps the version of a manifest and of its lock file.
pub struct Application;

impl Application {
    /// Takes the version that the manifest declares, increments its patch
    /// field, and returns the manifest and the lock file, in that order, with
    /// the quoted old version replaced by the quoted new one on their
    /// version lines.
    pub fn run(&self, manifest: &str, lock: &str) -> (r: Result<(String, String), VersionError>)
        ensures
            match bumped(detected_version(manifest@)) {
                Ok(n) => r is Ok && r->Ok_0.0@ == updated_text(
                    manifest@,
                    detected_version(manifest@),
                    n,
                ) && r->Ok_0.1@ == updated_text(lock@, detected_version(manifest@), n),
                Err(e) => r == Err::<(String, String), VersionError>(e),
            },
    {
        let version = match detect_version(manifest) {
            Ok(v) => v,
            Err(e) => return Err(e),
        };
        let new_version = match increment_build_number(version.as_str()) {
            Ok(v) => v,
            Err(e) => return Err(e),
        };
        let new_manifest = update_version_text(manifest, version.as_str(), new_version.as_str());
        let new_lock = update_version_text(lock, version.as_str(), new_version.as_str());
        Ok((new_manifest, new_lock))
    }
}

/// A line that is no version line yields no version and passes through the
/// update unchanged, whatever the old and new versions.
pub proof fn lemma_other_line_unchanged(line: Seq<char>, o: Seq<char>, n: Seq<char>)
    requires
        !is_version_line_text(line),
    ensures
        version_in_line(line) == Seq::<char>::empty(),
        updated_line(line, o, n) == line,
{
}

/// In a file update, each line that is no version line, or that does not
/// hold the quoted old version, is kept as it is.
pub proof fn lemma_file_update_keeps_other_lines(text: Seq<char>, o: Seq<char>, n: Seq<char>, i: int)
    requires
        0 <= i < lines_of(text).len(),
        !is_version_line_text(lines_of(text)[i]) || forall|k: int|
            !(#[trigger] occurs_at(lines_of(text)[i], quote(o), k)),
    ensures
        updated_lines(text, o, n)[i] == lines_of(text)[i],
{
    let l = lines_of(text)[i];
    if is_version_line_text(l) && o.len() > 0 {
        lemma_replace_absent(l, quote(o), quote(n));
    }
}

/// Where the new version holds no newline and no line of the file ends in
/// a carriage return, the updated file reads back as the updated lines.
pub proof fn lemma_file_update_reads_back(text: Seq<char>, o: Seq<char>, n: Seq<char>)
    requires
        lines_of(text).len() > 0,
        lacks(n, '\n'),
        forall|j: int| 0 <= j < lines_of(text).len() ==> no_cr_end(#[trigger] lines_of(text)[j]),
    ensures
        lines_of(updated_text(text, o, n)) == updated_lines(text, o, n),
{
    let ls = lines_of(text);
    let up = updated_lines(text, o, n);
    lemma_lines_lack_newline(text);
    let t = quote(n);
    assert(lacks(t, '\n')) by {
        assert forall|k: int| 0 <= k < t.len() implies t[k] != '\n' by {
            if 0 < k < t.len() - 1 {
                assert(t[k] == n[k - 1]);
            }
        }
    }
    assert(no_cr_end(t));
    assert forall|i: int| 0 <= i < up.len() implies lacks(#[trigger] up[i], '\n') && no_cr_end(
        up[i],
    ) by {
        let l = ls[i];
        assert(lacks(l, '\n'));
        assert(no_cr_end(l));
        if is_version_line_text(l) && o.len() > 0 {
            lemma_replace_lacks(l, quote(o), t, '\n');
            lemma_replace_no_cr_end(l, quote(o), t);
        }
    }
    lemma_lines_of_joined(up);
}

/// In a file update, a line that is no version line, or that does not hold
/// the quoted old version, reads back from the updated file as it was,
/// where the new version holds no newline and no line ends in a carriage
/// return.
pub proof fn lemma_other_lines_read_back(text: Seq<char>, o: Seq<char>, n: Seq<char>, i: int)
    requires
        0 <= i < lines_of(text).len(),
        !is_version_line_text(lines_of(text)[i]) || forall|k: int|
            !(#[trigger] occurs_at(lines_of(text)[i], quote(o), k)),
        lacks(n, '\n'),
        forall|j: int| 0 <= j < lines_of(text).len() ==> no_cr_end(#[trigger] lines_of(text)[j]),
    ensures
        lines_of(updated_text(text, o, n)).len() == lines_of(text).len(),
        lines_of(updated_text(text, o, n))[i] == lines_of(text)[i],
{
    lemma_file_update_keeps_other_lines(text, o, n, i);
    lemma_file_update_reads_back(text, o, n);
}

/// The substitution replaces each exact quoted occurrence of the old
/// version, all of them on the line: where no other double quote stands on
/// a line holding the quoted old version twice, both become the quoted new
/// version.
pub proof fn lemma_substitution_replaces_both(
    x: Seq<char>,
    y: Seq<char>,
    z: Seq<char>,
    old_version: Seq<char>,
    new_version: Seq<char>,
)
    requires
        forall|k: int| 0 <= k < x.len() ==> x[k] != '"',
        forall|k: int| 0 <= k < y.len() ==> y[k] != '"',
        forall|k: int| 0 <= k < z.len() ==> z[k] != '"',
    ensures
        replace_all(
            x + quote(old_version) + y + quote(old_version) + z,
            quote(old_version),
            quote(new_version),
        ) == x + quote(new_version) + y + quote(new_version) + z,
{
    let p = quote(old_version);
    let t = quote(new_version);
    assert(p[0] == '"');
    lemma_replace_skips(z, Seq::<char>::empty(), p, t);
    assert(z + Seq::<char>::empty() =~= z);
    assert(replace_all(Seq::<char>::empty(), p, t) == Seq::<char>::empty());
    lemma_replace_head(z, p, t);
    lemma_replace_skips(y, p + z, p, t);
    lemma_replace_head(y + p + z, p, t);
    lemma_replace_skips(x, p + y + p + z, p, t);
    assert(x + p + y + p + z =~= x + (p + (y + (p + z))));
    assert(y + (p + z) =~= y + p + z);
    assert(p + (y + p + z) =~= p + y + p + z);
    assert(x + t + y + t + z =~= x + (t + (y + (t + z))));
}

/// Once a line no longer holds the quoted old version, running the same
/// substitution on it again changes nothing.
pub proof fn lemma_substitution_settles(line: Seq<char>, old_version: Seq<char>, new_version: Seq<char>)
    requires
        forall|i: int|
            !(#[trigger] occurs_at(
                replace_all(line, quote(old_version), quote(new_version)),
                quote(old_version),
                i,
            )),
    ensures
        replace_all(
            replace_all(line, quote(old_version), quote(new_version)),
            quote(old_version),
            quote(new_version),
        ) == replace_all(line, quote(old_version), quote(new_version)),
{
    lemma_replace_absent(
        replace_all(line, quote(old_version), quote(new_version)),
        quote(old_version),
        quote(new_version),
    );
}

/// The quoted `new_version` between quote-free text does not hold the
/// quoted `old_version` of another value.
proof fn lemma_no_quoted_old(p: Seq<char>, s: Seq<char>, old_version: Seq<char>, new_version: Seq<char>)
    requires
        forall|k: int| 0 <= k < p.len() ==> p[k] != '"',
        forall|k: int| 0 <= k < s.len() ==> s[k] != '"',
        forall|k: int| 0 <= k < old_version.len() ==> old_version[k] != '"',
        forall|k: int| 0 <= k < new_version.len() ==> new_version[k] != '"',
        old_version != new_version,
    ensures
        forall|i: int| !(#[trigger] occurs_at(p + quote(new_version) + s, quote(old_version), i)),
{
    let w = p + quote(new_version) + s;
    let a = p.len() as int;
    let b = a + new_version.len() + 1;
    assert forall|k: int| 0 <= k < w.len() && w[k] == '"' implies k == a || k == b by {
        if k < a {
            assert(w[k] == p[k]);
        } else if a < k < b {
            assert(w[k] == new_version[k - a - 1]);
        } else if k > b {
            assert(w[k] == s[k - b - 1]);
        }
    }
    assert forall|i: int| !(#[trigger] occurs_at(w, quote(old_version), i)) by {
        if occurs_at(w, quote(old_version), i) {
            let q = quote(old_version);
            let e = i + old_version.len() + 1;
            assert(w[i] == w.subrange(i, i + q.len())[0]);
            assert(w[e] == w.subrange(i, i + q.len())[q.len() - 1]);
            assert forall|k: int| i < k < e implies w[k] != '"' by {
                assert(w[k] == w.subrange(i, i + q.len())[k - i]);
                assert(q[k - i] == old_version[k - i - 1]);
            }
            assert(i == a && e == b);
            assert(old_version =~= new_version) by {
                assert forall|k: int| 0 <= k < old_version.len() implies old_version[k]
                    == new_version[k] by {
                    assert(w[a + 1 + k] == w.subrange(i, i + q.len())[k + 1]);
                    assert(q[k + 1] == old_version[k]);
                    assert(w[a + 1 + k] == new_version[k]);
                }
            }
        }
    }
}

/// On a line where the quoted version stands once between text without
/// double quotes, the substitution yields the quoted new version there, and
/// running the same substitution on the result again changes nothing.
pub proof fn lemma_second_substitution_no_op(
    p: Seq<char>,
    s: Seq<char>,
    old_version: Seq<char>,
    new_version: Seq<char>,
)
    requires
        forall|k: int| 0 <= k < p.len() ==> p[k] != '"',
        forall|k: int| 0 <= k < s.len() ==> s[k] != '"',
        forall|k: int| 0 <= k < old_version.len() ==> old_version[k] != '"',
        forall|k: int| 0 <= k < new_version.len() ==> new_version[k] != '"',
        old_version != new_version,
    ensures
        replace_all(p + quote(old_version) + s, quote(old_version), quote(new_version)) == p
            + quote(new_version) + s,
        replace_all(p + quote(new_version) + s, quote(old_version), quote(new_version)) == p
            + quote(new_version) + s,
{
    let q = quote(old_version);
    let t = quote(new_version);
    assert(q[0] == '"');
    lemma_replace_skips(s, Seq::<char>::empty(), q, t);
    assert(s + Seq::<char>::empty() =~= s);
    assert(replace_all(Seq::<char>::empty(), q, t) == Seq::<char>::empty());
    lemma_replace_head(s, q, t);
    lemma_replace_skips(p, q + s, q, t);
    assert(p + q + s =~= p + (q + s));
    assert(p + t + s =~= p + (t + s));
    lemma_no_quoted_old(p, s, old_version, new_version);
    lemma_replace_absent(p + t + s, q, t);
}

/// The line holds no double quote, or exactly one quoted value without
/// double quotes around it.
pub open spec fn at_most_one_quoted(l: Seq<char>) -> bool {
    lacks(l, '"') || exists|p: Seq<char>, x: Seq<char>, s: Seq<char>|
        #[trigger] (p + quote(x) + s) == l && lacks(p, '"') && lacks(x, '"') && lacks(s, '"')
}

proof fn lemma_quote_free_absent(l: Seq<char>, o: Seq<char>)
    requires
        lacks(l, '"'),
    ensures
        forall|k: int| !(#[trigger] occurs_at(l, quote(o), k)),
{
    assert forall|k: int| !(#[trigger] occurs_at(l, quote(o), k)) by {
        if occurs_at(l, quote(o), k) {
            assert(l.subrange(k, k + quote(o).len())[0] == l[k]);
        }
    }
}

/// After one update of a line, a second one with the same versions
/// changes nothing.
proof fn lemma_line_update_settles(l: Seq<char>, o: Seq<char>, n: Seq<char>)
    requires
        at_most_one_quoted(l),
        lacks(o, '"'),
        lacks(n, '"'),
        o != n,
    ensures
        updated_line(updated_line(l, o, n), o, n) == updated_line(l, o, n),
{
    let u = updated_line(l, o, n);
    if is_version_line_text(u) && o.len() > 0 {
        assert(u != l || is_version_line_text(l));
        if lacks(l, '"') {
            lemma_quote_free_absent(l, o);
            lemma_replace_absent(l, quote(o), quote(n));
            lemma_quote_free_absent(u, o);
            lemma_replace_absent(u, quote(o), quote(n));
        } else {
            let (p, x, s) = choose|p: Seq<char>, x: Seq<char>, s: Seq<char>|
                #[trigger] (p + quote(x) + s) == l && lacks(p, '"') && lacks(x, '"') && lacks(
                    s,
                    '"',
                );
            if x == o {
                lemma_second_substitution_no_op(p, s, o, n);
            } else {
                lemma_no_quoted_old(p, s, o, x);
                lemma_replace_absent(l, quote(o), quote(n));
                lemma_replace_absent(u, quote(o), quote(n));
            }
        }
    }
}

/// Updating a file a second time with the same old and new versions leaves
/// it as the first update made it, where each line holds at most one quoted
/// value, no line ends in a carriage return, and the two versions differ
/// and hold neither double quotes nor newlines.
pub proof fn lemma_second_file_update_no_op(text: Seq<char>, o: Seq<char>, n: Seq<char>)
    requires
        forall|j: int|
            0 <= j < lines_of(text).len() ==> at_most_one_quoted(#[trigger] lines_of(text)[j])
                && no_cr_end(lines_of(text)[j]),
        lacks(o, '"'),
        lacks(n, '"'),
        lacks(n, '\n'),
        o != n,
    ensures
        updated_text(updated_text(text, o, n), o, n) == updated_text(text, o, n),
{
    let t1 = updated_text(text, o, n);
    if lines_of(text).len() == 0 {
        let e = Seq::<char>::empty();
        lemma_lines_of_cons(e, e);
        assert(e + seq!['\n'] + e =~= seq!['\n']);
        assert(lines_of(e) =~= Seq::<Seq<char>>::empty());
        assert(!is_version_line_text(e));
        assert(updated_lines(t1, o, n) =~= seq![e]);
        assert(seq![e].drop_last() =~= Seq::<Seq<char>>::empty());
        assert(joined(Seq::<Seq<char>>::empty()) == e);
        assert(e + e + seq!['\n'] =~= seq!['\n']);
    } else {
        lemma_file_update_reads_back(text, o, n);
        let up = updated_lines(text, o, n);
        assert forall|i: int| 0 <= i < up.len() implies updated_line(#[trigger] up[i], o, n)
            == up[i] by {
            lemma_line_update_settles(lines_of(text)[i], o, n);
        }
        assert(updated_lines(t1, o, n) =~= up);
    }
}

/// The lines of a file, each followed by a newline; a single newline for a
/// file without lines.
pub open spec fn normalized_text(text: Seq<char>) -> Seq<char> {
    if lines_of(text).len() == 0 {
        seq!['\n']
    } else {
        joined(lines_of(text))
    }
}

/// Where the manifest has no version line, the detected version is empty,
/// the increment leaves it as it is, and the update of the manifest and of
/// the lock file only normalizes their line endings.
pub proof fn lemma_no_version_no_change(manifest: Seq<char>, lock: Seq<char>)
    requires
        forall|i: int|
            0 <= i < lines_of(manifest).len() ==> !is_version_line_text(
                #[trigger] lines_of(manifest)[i],
            ),
    ensures
        detected_version(manifest) == Seq::<char>::empty(),
        bumped(detected_version(manifest)) == Ok::<Seq<char>, VersionError>(Seq::<char>::empty()),
        updated_text(manifest, Seq::<char>::empty(), Seq::<char>::empty()) == normalized_text(
            manifest,
        ),
        updated_text(lock, Seq::<char>::empty(), Seq::<char>::empty()) == normalized_text(lock),
{
    let e = Seq::<char>::empty();
    lemma_no_version_line_from(lines_of(manifest), 0);
    assert(lines_of(manifest).skip(0) =~= lines_of(manifest));
    assert forall|k: int| #[trigger] numbers_at(e, k) is None by {}
    lemma_increment_no_match(e);
    assert(updated_lines(manifest, e, e) =~= lines_of(manifest));
    assert(updated_lines(lock, e, e) =~= lines_of(lock));
}

proof fn lemma_no_version_line_from(ls: Seq<Seq<char>>, j: int)
    requires
        0 <= j <= ls.len(),
        forall|i: int| 0 <= i < ls.len() ==> !is_version_line_text(#[trigger] ls[i]),
    ensures
        first_version(ls.skip(j)) == Seq::<char>::empty(),
    decreases ls.len() - j,
{
    if j < ls.len() {
        assert(ls.skip(j)[0] == ls[j]);
        assert(ls.skip(j).skip(1) =~= ls.skip(j + 1));
        lemma_no_version_line_from(ls, j + 1);
    }
}

} // verus!
