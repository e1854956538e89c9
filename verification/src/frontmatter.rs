//! The frontmatter reader: the first `---` / `---` block of a file and the
//! `name:` / `description:` scalars in it.
use vstd::prelude::*;

use crate::model::{ArtifactMeta, MetaView};
use crate::path::opt_chars;
use crate::text::{
    chars_of, copy_chars, find, find_exec, find_from, line_end, line_end_exec, matches_at,
    matches_at_exec,
    strip_prefix, string_of, trim, trim_range,
};

verus! {

/// `---`
pub open spec fn dashes() -> Seq<char> {
    seq!['-', '-', '-']
}

/// `\n---`
pub open spec fn nl_dashes() -> Seq<char> {
    seq!['\n', '-', '-', '-']
}

/// `\r\n---`
pub open spec fn crlf_dashes() -> Seq<char> {
    seq!['\r', '\n', '-', '-', '-']
}

/// `s` without one leading `\n` or `\r\n`.
pub open spec fn skip_open_newline(s: Seq<char>) -> Seq<char> {
    if seq!['\n'].is_prefix_of(s) {
        s.skip(1)
    } else if seq!['\r', '\n'].is_prefix_of(s) {
        s.skip(2)
    } else {
        s
    }
}

/// The frontmatter block of `text`: what follows the first `---` (and the
/// line break after it) up to the next line that starts with `---`.
pub open spec fn frontmatter(text: Seq<char>) -> Option<Seq<char>> {
    match find(text, dashes()) {
        None => None,
        Some(start) => {
            let body = skip_open_newline(text.skip(start + 3));
            match find(body, nl_dashes()) {
                Some(end) => Some(body.take(end)),
                None => match find(body, crlf_dashes()) {
                    Some(end) => Some(body.take(end)),
                    None => None,
                },
            }
        },
    }
}

/// The text between double quotes with its escapes resolved: `\n`, `\t`,
/// `\r`, `\\` and `\"` stand for one character, any other escape and a
/// trailing backslash are kept as written.
pub open spec fn unescape(s: Seq<char>) -> Seq<char>
    decreases s.len(),
{
    if s.len() == 0 {
        seq![]
    } else if s[0] != '\\' {
        seq![s[0]] + unescape(s.drop_first())
    } else if s.len() == 1 {
        seq!['\\']
    } else {
        let c = s[1];
        let head = if c == 'n' {
            seq!['\n']
        } else if c == 't' {
            seq!['\t']
        } else if c == 'r' {
            seq!['\r']
        } else if c == '\\' {
            seq!['\\']
        } else if c == '"' {
            seq!['"']
        } else {
            seq!['\\', c]
        };
        head + unescape(s.skip(2))
    }
}

/// A scalar value without its quotes: double quotes resolve escapes, single
/// quotes keep the text as written, anything else is kept whole.
pub open spec fn unquoted(v: Seq<char>) -> Seq<char> {
    if v.len() >= 2 && v[0] == '"' && v.last() == '"' {
        unescape(v.subrange(1, v.len() - 1))
    } else if v.len() >= 2 && v[0] == '\'' && v.last() == '\'' {
        v.subrange(1, v.len() - 1)
    } else {
        v
    }
}

pub proof fn lemma_line_end_bounds(s: Seq<char>, i: int)
    requires
        0 <= i <= s.len(),
    ensures
        i <= line_end(s, i) <= s.len(),
        line_end(s, i) < s.len() ==> s[line_end(s, i)] == '\n',
    decreases s.len() - i,
{
    if i < s.len() && s[i] != '\n' {
        lemma_line_end_bounds(s, i + 1);
    }
}

/// The value of the first line, from the one at `i` on, that starts with
/// `prefix` once trimmed: the rest of the line trimmed and unquoted, or none
/// when that rest is empty or no line matches.
pub open spec fn scalar_from(s: Seq<char>, prefix: Seq<char>, i: int) -> Option<Seq<char>>
    decreases s.len() - i,
{
    if i < 0 || i > s.len() {
        None
    } else {
        let e = line_end(s, i);
        proof {
            lemma_line_end_bounds(s, i);
        }
        match strip_prefix(trim(s.subrange(i, e)), prefix) {
            Some(rest) => if trim(rest).len() == 0 {
                None
            } else {
                Some(unquoted(trim(rest)))
            },
            None => if e >= s.len() {
                None
            } else {
                scalar_from(s, prefix, e + 1)
            },
        }
    }
}

/// The value of `key:` in the frontmatter block `yaml`.
pub open spec fn yaml_value(yaml: Seq<char>, key: Seq<char>) -> Option<Seq<char>> {
    scalar_from(yaml, key.push(':'), 0)
}

/// The metadata read from the text of an artifact's primary file.
pub open spec fn meta_of(text: Seq<char>) -> MetaView {
    match frontmatter(text) {
        None => MetaView { name: None, description: None },
        Some(yaml) => MetaView {
            name: yaml_value(yaml, "name"@),
            description: yaml_value(yaml, "description"@),
        },
    }
}

/// `cs[lo..hi]` with its escapes resolved.
fn unescape_range(cs: &Vec<char>, lo: usize, hi: usize) -> (r: String)
    requires
        lo <= hi <= cs@.len(),
    ensures
        r@ == unescape(cs@.subrange(lo as int, hi as int)),
{
    let ghost whole = cs@.subrange(lo as int, hi as int);
    let mut out: Vec<char> = Vec::new();
    let mut i = lo;
    assert(unescape(whole) =~= out@ + unescape(cs@.subrange(i as int, hi as int)));
    while i < hi
        invariant
            lo <= i <= hi <= cs@.len(),
            whole == cs@.subrange(lo as int, hi as int),
            unescape(whole) == out@ + unescape(cs@.subrange(i as int, hi as int)),
        decreases hi - i,
    {
        let ghost rest = cs@.subrange(i as int, hi as int);
        let ghost before = out@;
        let c = cs[i];
        if c != '\\' {
            assert(rest.drop_first() =~= cs@.subrange(i + 1, hi as int));
            out.push(c);
            assert(out@ + unescape(cs@.subrange(i + 1, hi as int)) =~= before + unescape(rest));
            i += 1;
        } else if i + 1 == hi {
            out.push('\\');
            assert(cs@.subrange(hi as int, hi as int) =~= Seq::<char>::empty());
            assert(out@ + unescape(cs@.subrange(hi as int, hi as int)) =~= before + unescape(
                rest,
            ));
            i = hi;
        } else {
            let d = cs[i + 1];
            if d == 'n' {
                out.push('\n');
            } else if d == 't' {
                out.push('\t');
            } else if d == 'r' {
                out.push('\r');
            } else if d == '\\' {
                out.push('\\');
            } else if d == '"' {
                out.push('"');
            } else {
                out.push('\\');
                out.push(d);
            }
            assert(rest.skip(2) =~= cs@.subrange(i + 2, hi as int));
            assert(out@ + unescape(cs@.subrange(i + 2, hi as int)) =~= before + unescape(rest));
            i += 2;
        }
    }
    assert(cs@.subrange(hi as int, hi as int) =~= Seq::<char>::empty());
    assert(out@ =~= unescape(whole));
    string_of(&out, 0, out.len())
}

/// `cs[lo..hi]` unquoted.
fn unquote_range(cs: &Vec<char>, lo: usize, hi: usize) -> (r: String)
    requires
        lo <= hi <= cs@.len(),
    ensures
        r@ == unquoted(cs@.subrange(lo as int, hi as int)),
{
    let ghost v = cs@.subrange(lo as int, hi as int);
    if hi - lo >= 2 && cs[lo] == '"' && cs[hi - 1] == '"' {
        assert(v.subrange(1, v.len() - 1) =~= cs@.subrange(lo + 1, hi - 1));
        unescape_range(cs, lo + 1, hi - 1)
    } else if hi - lo >= 2 && cs[lo] == '\'' && cs[hi - 1] == '\'' {
        assert(v.subrange(1, v.len() - 1) =~= cs@.subrange(lo + 1, hi - 1));
        string_of(cs, lo + 1, hi - 1)
    } else {
        string_of(cs, lo, hi)
    }
}

/// The text between double quotes with its escapes resolved.
pub fn unescape_double(inner: &str) -> (r: String)
    ensures
        r@ == unescape(inner@),
{
    let cs = chars_of(inner);
    assert(cs@.subrange(0, cs@.len() as int) =~= cs@);
    unescape_range(&cs, 0, cs.len())
}

/// A scalar value without its quotes.
pub fn unquote(value: &str) -> (r: String)
    ensures
        r@ == unquoted(value@),
{
    let cs = chars_of(value);
    assert(cs@.subrange(0, cs@.len() as int) =~= cs@);
    unquote_range(&cs, 0, cs.len())
}

/// The value of the first line of `cs` that starts with `prefix` once trimmed.
fn scalar_exec(cs: &Vec<char>, prefix: &Vec<char>) -> (r: Option<String>)
    ensures
        opt_chars(r) == scalar_from(cs@, prefix@, 0),
{
    let n = cs.len();
    let k = prefix.len();
    let mut i: usize = 0;
    while i <= n
        invariant
            n == cs@.len(),
            k == prefix@.len(),
            i <= n,
            scalar_from(cs@, prefix@, 0) == scalar_from(cs@, prefix@, i as int),
        decreases n - i,
    {
        let e = line_end_exec(cs, i);
        proof {
            lemma_line_end_bounds(cs@, i as int);
        }
        let (a, b) = trim_range(cs, i, e);
        let ghost line = cs@.subrange(a as int, b as int);
        if b - a >= k && matches_at_exec(cs, prefix, a) {
            assert(prefix@.is_prefix_of(line)) by {
                assert(line.subrange(0, k as int) =~= cs@.subrange(a as int, a + k));
            }
            assert(line.skip(k as int) =~= cs@.subrange(a + k, b as int));
            let (c, d) = trim_range(cs, a + k, b);
            if c == d {
                return None;
            }
            return Some(unquote_range(cs, c, d));
        }
        assert(!prefix@.is_prefix_of(line)) by {
            if prefix@.is_prefix_of(line) {
                assert(line.subrange(0, k as int) =~= prefix@);
                assert(cs@.subrange(a as int, a + k) =~= line.subrange(0, k as int));
            }
        }
        if e >= n {
            return None;
        }
        i = e + 1;
    }
    None
}

/// The value of `key:` in the frontmatter block `yaml`.
pub fn yaml_scalar(yaml: &str, key: &str) -> (r: Option<String>)
    ensures
        opt_chars(r) == yaml_value(yaml@, key@),
{
    let cs = chars_of(yaml);
    let mut prefix = chars_of(key);
    prefix.push(':');
    scalar_exec(&cs, &prefix)
}

/// The frontmatter block of `text`, if it has one.
fn frontmatter_chars(cs: &Vec<char>) -> (r: Option<Vec<char>>)
    ensures
        match r {
            Some(y) => frontmatter(cs@) == Some(y@),
            None => frontmatter(cs@) is None,
        },
{
    let mut d: Vec<char> = Vec::new();
    d.push('-');
    d.push('-');
    d.push('-');
    assert(d@ =~= dashes());
    let start = match find_exec(cs, &d, 0) {
        Some(s) => s,
        None => {
            return None;
        },
    };
    proof {
        assert(crate::text::find_from(cs@, dashes(), 0) == Some(start as int));
        lemma_find_from_bounds(cs@, dashes(), 0);
    }
    let ghost after = cs@.skip(start + 3);
    let n = cs.len();
    assert(seq!['\n'].is_prefix_of(after) <==> (after.len() >= 1 && after[0] == '\n')) by {
        if after.len() >= 1 && after[0] == '\n' {
            assert(after.subrange(0, 1) =~= seq!['\n']);
        }
        if seq!['\n'].is_prefix_of(after) {
            assert(after.subrange(0, 1)[0] == '\n');
        }
    }
    assert(seq!['\r', '\n'].is_prefix_of(after) <==> (after.len() >= 2 && after[0] == '\r'
        && after[1] == '\n')) by {
        if after.len() >= 2 && after[0] == '\r' && after[1] == '\n' {
            assert(after.subrange(0, 2) =~= seq!['\r', '\n']);
        }
        if seq!['\r', '\n'].is_prefix_of(after) {
            assert(after.subrange(0, 2)[0] == '\r');
            assert(after.subrange(0, 2)[1] == '\n');
        }
    }
    let open: usize = if start + 3 < n && cs[start + 3] == '\n' {
        1
    } else if n - (start + 3) >= 2 && cs[start + 3] == '\r' && cs[start + 4] == '\n' {
        2
    } else {
        0
    };
    let body = copy_chars(cs, start + 3 + open, n);
    assert(body@ =~= skip_open_newline(after));
    let mut nl: Vec<char> = Vec::new();
    nl.push('\n');
    nl.push('-');
    nl.push('-');
    nl.push('-');
    assert(nl@ =~= nl_dashes());
    match find_exec(&body, &nl, 0) {
        Some(end) => {
            proof {
                lemma_find_from_bounds(body@, nl_dashes(), 0);
            }
            let y = copy_chars(&body, 0, end);
            assert(y@ =~= body@.take(end as int));
            return Some(y);
        },
        None => {},
    }
    let mut crlf: Vec<char> = Vec::new();
    crlf.push('\r');
    crlf.push('\n');
    crlf.push('-');
    crlf.push('-');
    crlf.push('-');
    assert(crlf@ =~= crlf_dashes());
    match find_exec(&body, &crlf, 0) {
        Some(end) => {
            proof {
                lemma_find_from_bounds(body@, crlf_dashes(), 0);
            }
            let y = copy_chars(&body, 0, end);
            assert(y@ =~= body@.take(end as int));
            Some(y)
        },
        None => None,
    }
}

pub proof fn lemma_find_from_bounds(s: Seq<char>, p: Seq<char>, i: int)
    ensures
        find_from(s, p, i) matches Some(k) ==> i <= k && k + p.len() <= s.len() && matches_at(
            s,
            p,
            k,
        ),
    decreases s.len() + 1 - i,
{
    if !(i < 0 || i + p.len() > s.len()) && !matches_at(s, p, i) {
        lemma_find_from_bounds(s, p, i + 1);
    }
}

/// The frontmatter block of `text`, if it has one.
pub fn extract_frontmatter(text: &str) -> (r: Option<String>)
    ensures
        opt_chars(r) == frontmatter(text@),
{
    let cs = chars_of(text);
    match frontmatter_chars(&cs) {
        Some(y) => Some(string_of(&y, 0, y.len())),
        None => None,
    }
}

/// The name and description in the frontmatter of `text`; a text without a
/// frontmatter block gives neither.
pub fn read_frontmatter(text: &str) -> (r: ArtifactMeta)
    ensures
        r@ == meta_of(text@),
{
    let cs = chars_of(text);
    match frontmatter_chars(&cs) {
        None => ArtifactMeta { name: None, description: None },
        Some(y) => {
            let mut name_key = chars_of("name");
            name_key.push(':');
            let mut desc_key = chars_of("description");
            desc_key.push(':');
            ArtifactMeta { name: scalar_exec(&y, &name_key), description: scalar_exec(&y, &desc_key) }
        },
    }
}

} // verus!
