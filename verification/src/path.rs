//! Filesystem paths as their components and the text written around them,
//! with the operations that discovery and planning need (name, parent,
//! extension, prefix, join, order), following `std::path::Path` on Unix:
//! comparisons go by components, and the text of a parent, a stripped path
//! or a join is the slice or concatenation that `Path` gives.
use vstd::prelude::*;

use crate::text::{chars_eq, chars_less, chars_lt, chars_of, copy_chars, lemma_chars_lt_order, string_of};

verus! {

/// A path as the list of its components.
pub type Comps = Seq<Seq<char>>;

/// The root component `/`.
pub open spec fn root_comp() -> Seq<char> {
    seq!['/']
}

/// The current-directory component `.`, kept only at the start of a
/// relative path.
pub open spec fn cur_comp() -> Seq<char> {
    seq!['.']
}

/// The parent-directory component `..`.
pub open spec fn up_comp() -> Seq<char> {
    seq!['.', '.']
}

/// A plain name component.
pub open spec fn is_normal(c: Seq<char>) -> bool {
    c.len() > 0 && !c.contains('/') && c != cur_comp() && c != up_comp()
}

/// The shape of the component list of a parsed path: names and `..`, with a
/// leading `/` or `.`.
pub open spec fn comps_wf(p: Comps) -> bool {
    forall|i: int|
        0 <= i < p.len() ==> (is_normal(#[trigger] p[i]) || p[i] == up_comp() || (i == 0 && (p[i]
            == root_comp() || p[i] == cur_comp())))
}

/// The last component, when it is a name.
pub open spec fn comps_file_name(p: Comps) -> Option<Seq<char>> {
    if p.len() > 0 && is_normal(p.last()) {
        Some(p.last())
    } else {
        None
    }
}

/// The path without its last component; none for the empty path and a path
/// that ends in the root.
pub open spec fn comps_parent(p: Comps) -> Option<Comps> {
    if p.len() == 0 || p.last() == root_comp() {
        None
    } else {
        Some(p.drop_last())
    }
}

/// `base` is a leading run of components of `p`.
pub open spec fn comps_starts_with(p: Comps, base: Comps) -> bool {
    base.is_prefix_of(p)
}

/// The components of `p` after `base`, when `p` starts with `base`.
pub open spec fn comps_strip_prefix(p: Comps, base: Comps) -> Option<Comps> {
    if base.is_prefix_of(p) {
        Some(p.skip(base.len() as int))
    } else {
        None
    }
}

/// `b` appended to `a`; an absolute `b`, or an empty `a`, gives `b`, and a
/// leading `.` of `b` is dropped.
pub open spec fn comps_join(a: Comps, b: Comps) -> Comps {
    if a.len() == 0 || (b.len() > 0 && b[0] == root_comp()) {
        b
    } else if b.len() > 0 && b[0] == cur_comp() {
        a + b.drop_first()
    } else {
        a + b
    }
}

/// The index of the last `.` in `n`, or -1.
pub open spec fn last_dot(n: Seq<char>) -> int
    decreases n.len(),
{
    if n.len() == 0 {
        -1
    } else if n.last() == '.' {
        n.len() - 1
    } else {
        last_dot(n.drop_last())
    }
}

/// What follows the last `.` of a file name that has a `.` after its first
/// character.
pub open spec fn name_extension(n: Seq<char>) -> Option<Seq<char>> {
    if last_dot(n) <= 0 {
        None
    } else {
        Some(n.skip(last_dot(n) + 1))
    }
}

/// The extension of the file name of `p`.
pub open spec fn comps_extension(p: Comps) -> Option<Seq<char>> {
    match comps_file_name(p) {
        Some(n) => name_extension(n),
        None => None,
    }
}

/// The component kept for a piece between separators, if any.
pub open spec fn emit_piece(cur: Seq<char>) -> Comps {
    if cur.len() == 0 || cur == cur_comp() {
        seq![]
    } else {
        seq![cur]
    }
}

/// The components of `s[i..]`, where `cur` is the piece read so far: pieces
/// between `/` separators, without empty pieces and `.`.
pub open spec fn split_pieces(s: Seq<char>, i: int, cur: Seq<char>) -> Comps
    decreases s.len() - i,
{
    if i >= s.len() {
        emit_piece(cur)
    } else if s[i] == '/' {
        emit_piece(cur) + split_pieces(s, i + 1, seq![])
    } else {
        split_pieces(s, i + 1, cur.push(s[i]))
    }
}

/// The components of the path written `s`: a leading `/` or a leading `.`
/// piece, then the pieces.
pub open spec fn parse_comps(s: Seq<char>) -> Comps {
    let head = if s.len() > 0 && s[0] == '/' {
        seq![root_comp()]
    } else if s.len() > 0 && s[0] == '.' && (s.len() == 1 || s[1] == '/') {
        seq![cur_comp()]
    } else {
        seq![]
    };
    head + split_pieces(s, 0, seq![])
}

/// The rank of a component in the order of `std::path::Component`.
pub open spec fn comp_rank(c: Seq<char>) -> int {
    if c == root_comp() {
        0
    } else if c == cur_comp() {
        1
    } else if c == up_comp() {
        2
    } else {
        3
    }
}

/// The order of components: by rank, names by `chars_lt`.
pub open spec fn comp_lt(x: Seq<char>, y: Seq<char>) -> bool {
    comp_rank(x) < comp_rank(y) || (comp_rank(x) == 3 && comp_rank(y) == 3 && chars_lt(x, y))
}

/// Lexicographic order of component lists from index `k` on.
pub open spec fn comps_lt_from(a: Comps, b: Comps, k: int) -> bool
    decreases a.len() - k,
{
    if k >= a.len() {
        k < b.len()
    } else if k >= b.len() {
        false
    } else if a[k] != b[k] {
        comp_lt(a[k], b[k])
    } else {
        comps_lt_from(a, b, k + 1)
    }
}

/// The order of `Path`: component by component.
pub open spec fn comps_lt(a: Comps, b: Comps) -> bool {
    comps_lt_from(a, b, 0)
}

pub proof fn lemma_comp_lt_order(x: Seq<char>, y: Seq<char>, z: Seq<char>)
    ensures
        !comp_lt(x, x),
        comp_lt(x, y) && comp_lt(y, z) ==> comp_lt(x, z),
{
    lemma_chars_lt_order(x, y, z);
}

pub proof fn lemma_path_lt_from_irreflexive(a: Comps, k: int)
    requires
        0 <= k,
    ensures
        !comps_lt_from(a, a, k),
    decreases a.len() - k,
{
    if k < a.len() {
        lemma_path_lt_from_irreflexive(a, k + 1);
    }
}

pub proof fn lemma_path_lt_from_transitive(a: Comps, b: Comps, c: Comps, k: int)
    requires
        0 <= k,
        comps_lt_from(a, b, k),
        comps_lt_from(b, c, k),
    ensures
        comps_lt_from(a, c, k),
    decreases a.len() - k,
{
    if k < a.len() && k < b.len() && k < c.len() {
        lemma_comp_lt_order(a[k], b[k], c[k]);
        lemma_comp_lt_order(a[k], c[k], b[k]);
        lemma_comp_lt_order(b[k], a[k], c[k]);
        if a[k] == b[k] && b[k] == c[k] {
            lemma_path_lt_from_transitive(a, b, c, k + 1);
        }
    }
}

/// `comps_lt` is a strict order.
pub proof fn lemma_comps_lt_order(a: Comps, b: Comps, c: Comps)
    ensures
        !comps_lt(a, a),
        comps_lt(a, b) && comps_lt(b, c) ==> comps_lt(a, c),
{
    lemma_path_lt_from_irreflexive(a, 0);
    if comps_lt(a, b) && comps_lt(b, c) {
        lemma_path_lt_from_transitive(a, b, c, 0);
    }
}

proof fn lemma_split_pieces_wf(s: Seq<char>, i: int, cur: Seq<char>)
    requires
        0 <= i,
        !cur.contains('/'),
    ensures
        forall|k: int|
            0 <= k < split_pieces(s, i, cur).len() ==> is_normal(#[trigger] split_pieces(s, i, cur)[k])
                || split_pieces(s, i, cur)[k] == up_comp(),
    decreases s.len() - i,
{
    let e = emit_piece(cur);
    assert(forall|k: int| 0 <= k < e.len() ==> is_normal(#[trigger] e[k]) || e[k] == up_comp());
    if i < s.len() {
        if s[i] == '/' {
            lemma_split_pieces_wf(s, i + 1, seq![]);
            let r = split_pieces(s, i + 1, seq![]);
            assert(split_pieces(s, i, cur) == e + r);
            assert forall|k: int| 0 <= k < (e + r).len() implies is_normal(#[trigger] (e + r)[k]) || (e
                + r)[k] == up_comp() by {
                if k >= e.len() {
                    assert((e + r)[k] == r[k - e.len()]);
                }
            }
        } else {
            let c2 = cur.push(s[i]);
            assert(!c2.contains('/')) by {
                if c2.contains('/') {
                    let j = choose|j: int| 0 <= j < c2.len() && c2[j] == '/';
                    if j < cur.len() {
                        assert(cur[j] == '/');
                    }
                }
            }
            lemma_split_pieces_wf(s, i + 1, c2);
            assert(split_pieces(s, i, cur) == split_pieces(s, i + 1, c2));
        }
    } else {
        assert(split_pieces(s, i, cur) == e);
    }
}

proof fn lemma_parse_wf(s: Seq<char>)
    ensures
        comps_wf(parse_comps(s)),
{
    lemma_split_pieces_wf(s, 0, seq![]);
    let r = split_pieces(s, 0, seq![]);
    let p = parse_comps(s);
    assert forall|i: int| 0 <= i < p.len() implies (is_normal(#[trigger] p[i]) || p[i] == up_comp() || (i
        == 0 && (p[i] == root_comp() || p[i] == cur_comp()))) by {
        if s.len() > 0 && s[0] == '/' {
            if i > 0 {
                assert(p[i] == r[i - 1]);
            }
        } else if s.len() > 0 && s[0] == '.' && (s.len() == 1 || s[1] == '/') {
            if i > 0 {
                assert(p[i] == r[i - 1]);
            }
        } else {
            assert(p[i] == r[i]);
        }
    }
}

proof fn lemma_wf_drop_last(p: Comps)
    requires
        comps_wf(p),
        p.len() > 0,
    ensures
        comps_wf(p.drop_last()),
{
    assert forall|i: int| 0 <= i < p.drop_last().len() implies (is_normal(#[trigger] p.drop_last()[i])
        || p.drop_last()[i] == up_comp() || (i == 0 && (p.drop_last()[i] == root_comp()
        || p.drop_last()[i] == cur_comp()))) by {
        assert(p.drop_last()[i] == p[i]);
    }
}

proof fn lemma_wf_skip(p: Comps, k: int)
    requires
        comps_wf(p),
        0 <= k <= p.len(),
    ensures
        comps_wf(p.skip(k)),
{
    assert forall|i: int| 0 <= i < p.skip(k).len() implies (is_normal(#[trigger] p.skip(k)[i])
        || p.skip(k)[i] == up_comp() || (i == 0 && (p.skip(k)[i] == root_comp() || p.skip(k)[i]
        == cur_comp()))) by {
        assert(p.skip(k)[i] == p[k + i]);
    }
}

proof fn lemma_wf_join(a: Comps, b: Comps)
    requires
        comps_wf(a),
        comps_wf(b),
    ensures
        comps_wf(comps_join(a, b)),
{
    let j = comps_join(a, b);
    if !(a.len() == 0 || (b.len() > 0 && b[0] == root_comp())) {
        let t = if b.len() > 0 && b[0] == cur_comp() {
            b.drop_first()
        } else {
            b
        };
        assert(j == a + t);
        assert forall|i: int| 0 <= i < j.len() implies (is_normal(#[trigger] j[i]) || j[i] == up_comp()
            || (i == 0 && (j[i] == root_comp() || j[i] == cur_comp()))) by {
            if i < a.len() {
                assert(j[i] == a[i]);
            } else if b.len() > 0 && b[0] == cur_comp() {
                assert(j[i] == b[i - a.len() + 1]);
            } else {
                assert(j[i] == b[i - a.len()]);
                if i - a.len() == 0 {
                    assert(b[0] != root_comp() && b[0] != cur_comp());
                }
            }
        }
    }
}

/// A name that starts with `.`, such as the name of a hidden directory.
pub open spec fn is_dot_name(c: Seq<char>) -> bool {
    is_normal(c) && c[0] == '.'
}

/// Some component of `p` before its last one is a name that starts with `.`.
pub open spec fn comps_hidden_dir(p: Comps) -> bool {
    exists|k: int| 0 <= k < p.len() - 1 && #[trigger] is_dot_name(p[k])
}

/// The view of an optional string.
pub open spec fn opt_chars(o: Option<String>) -> Option<Seq<char>> {
    match o {
        Some(s) => Some(s@),
        None => None,
    }
}

/// A path as written: its components, and the text written before the first,
/// between each two and after the last (`seps` has one more entry than
/// `comps`). The text between components holds separators and `.` pieces.
#[verifier::ext_equal]
pub struct PathView {
    pub comps: Comps,
    pub seps: Seq<Seq<char>>,
}

/// The components are those of a parsed path, with the text around them.
pub open spec fn path_wf(p: PathView) -> bool {
    comps_wf(p.comps) && p.seps.len() == p.comps.len() + 1
}

/// The text of the path as written.
pub open spec fn written(p: PathView) -> Seq<char>
    decreases p.comps.len(),
{
    if p.comps.len() == 0 {
        p.seps.last()
    } else {
        written(PathView { comps: p.comps.drop_last(), seps: p.seps.drop_last() }) + p.comps.last()
            + p.seps.last()
    }
}

/// The file name of the path.
pub open spec fn path_file_name(p: PathView) -> Option<Seq<char>> {
    comps_file_name(p.comps)
}

/// The extension of the file name of the path.
pub open spec fn path_extension(p: PathView) -> Option<Seq<char>> {
    comps_extension(p.comps)
}

/// Some directory of the path is a name that starts with `.`.
pub open spec fn has_hidden_dir(p: PathView) -> bool {
    comps_hidden_dir(p.comps)
}

/// The order of `Path`: by components.
pub open spec fn path_lt(a: PathView, b: PathView) -> bool {
    comps_lt(a.comps, b.comps)
}

/// `base` is a leading run of components of `p`.
pub open spec fn path_starts_with(p: PathView, base: PathView) -> bool {
    comps_starts_with(p.comps, base.comps)
}

/// The parent as `Path::parent` gives it: the text up to the end of the
/// second-to-last component.
pub open spec fn path_parent(p: PathView) -> Option<PathView> {
    match comps_parent(p.comps) {
        None => None,
        Some(c) => Some(
            PathView { comps: c, seps: p.seps.take(p.comps.len() - 1).push(seq![]) },
        ),
    }
}

/// The text around the components of `p` from the `m`-th on, as
/// `Path::strip_prefix` leaves it: from the start of that component to the
/// end of the last one.
pub open spec fn stripped_seps(p: PathView, m: int) -> Seq<Seq<char>> {
    if m == p.comps.len() {
        seq![seq![]]
    } else if m == 0 {
        p.seps.take(p.comps.len() as int).push(seq![])
    } else {
        seq![seq![]] + p.seps.subrange(m + 1, p.comps.len() as int) + seq![seq![]]
    }
}

/// The path after `base`, as `Path::strip_prefix` gives it.
pub open spec fn path_strip_prefix(p: PathView, base: PathView) -> Option<PathView> {
    match comps_strip_prefix(p.comps, base.comps) {
        None => None,
        Some(c) => Some(PathView { comps: c, seps: stripped_seps(p, base.comps.len() as int) }),
    }
}

/// The written text of `p` is empty or ends with `/`.
pub open spec fn ends_open(p: PathView) -> bool {
    if p.seps.last().len() > 0 {
        p.seps.last().last() == '/'
    } else {
        p.comps.len() == 0 || p.comps.last() == root_comp()
    }
}

/// `b` pushed onto `a` as `Path::join` does: an absolute `b` replaces `a`;
/// otherwise the text of `b` follows that of `a`, after a `/` unless `a` is
/// empty or ends with one.
pub open spec fn path_join(a: PathView, b: PathView) -> PathView {
    if a.comps.len() == 0 || (b.comps.len() > 0 && b.comps[0] == root_comp()) {
        b
    } else {
        let slash = if ends_open(a) {
            Seq::<char>::empty()
        } else {
            seq!['/']
        };
        if b.comps.len() > 0 && b.comps[0] == cur_comp() {
            PathView {
                comps: a.comps + b.comps.drop_first(),
                seps: a.seps.drop_last() + seq![a.seps.last() + slash + b.seps[0] + cur_comp() + b.seps[1]]
                    + b.seps.skip(2),
            }
        } else {
            PathView {
                comps: a.comps + b.comps,
                seps: a.seps.drop_last() + seq![a.seps.last() + slash + b.seps[0]] + b.seps.skip(1),
            }
        }
    }
}

/// Reads `s[i..]`: `cur` is the piece being read, `junk` the text since the
/// last component, `comps` and `seps` what was read before.
pub open spec fn scan_path(s: Seq<char>, i: int, cur: Seq<char>, junk: Seq<char>, comps: Comps, seps: Seq<Seq<char>>) -> PathView
    decreases s.len() - i,
{
    if i >= s.len() {
        if emit_piece(cur).len() > 0 {
            PathView { comps: comps.push(cur), seps: seps.push(junk).push(seq![]) }
        } else {
            PathView { comps, seps: seps.push(junk + cur) }
        }
    } else if s[i] == '/' {
        if emit_piece(cur).len() > 0 {
            scan_path(s, i + 1, seq![], seq!['/'], comps.push(cur), seps.push(junk))
        } else {
            scan_path(s, i + 1, seq![], junk + cur + seq!['/'], comps, seps)
        }
    } else {
        scan_path(s, i + 1, cur.push(s[i]), junk, comps, seps)
    }
}

/// The path written `s`.
pub open spec fn parse_path(s: Seq<char>) -> PathView {
    if s.len() > 0 && s[0] == '/' {
        scan_path(s, 1, seq![], seq![], seq![root_comp()], seq![seq![]])
    } else if s.len() > 0 && s[0] == '.' && (s.len() == 1 || s[1] == '/') {
        scan_path(s, 1, seq![], seq![], seq![cur_comp()], seq![seq![]])
    } else {
        scan_path(s, 0, seq![], seq![], seq![], seq![])
    }
}

/// A scan keeps one more stretch of text than components.
proof fn lemma_scan_lengths(s: Seq<char>, i: int, cur: Seq<char>, junk: Seq<char>, comps: Comps, seps: Seq<Seq<char>>)
    requires
        seps.len() == comps.len(),
    ensures
        scan_path(s, i, cur, junk, comps, seps).seps.len() == scan_path(s, i, cur, junk, comps, seps).comps.len() + 1,
    decreases s.len() - i,
{
    if i < s.len() {
        if s[i] == '/' {
            if emit_piece(cur).len() > 0 {
                lemma_scan_lengths(s, i + 1, seq![], seq!['/'], comps.push(cur), seps.push(junk));
            } else {
                lemma_scan_lengths(s, i + 1, seq![], junk + cur + seq!['/'], comps, seps);
            }
        } else {
            lemma_scan_lengths(s, i + 1, cur.push(s[i]), junk, comps, seps);
        }
    }
}

/// A parsed path keeps one more stretch of text than components.
pub proof fn lemma_parse_lengths(s: Seq<char>)
    ensures
        parse_path(s).seps.len() == parse_path(s).comps.len() + 1,
{
    if s.len() > 0 && s[0] == '/' {
        lemma_scan_lengths(s, 1, seq![], seq![], seq![root_comp()], seq![seq![]]);
    } else if s.len() > 0 && s[0] == '.' && (s.len() == 1 || s[1] == '/') {
        lemma_scan_lengths(s, 1, seq![], seq![], seq![cur_comp()], seq![seq![]]);
    } else {
        lemma_scan_lengths(s, 0, seq![], seq![], seq![], seq![]);
    }
}

/// Joining keeps one more stretch of text than components.
pub proof fn lemma_join_lengths(a: PathView, b: PathView)
    requires
        a.seps.len() == a.comps.len() + 1,
        b.seps.len() == b.comps.len() + 1,
    ensures
        path_join(a, b).seps.len() == path_join(a, b).comps.len() + 1,
{
}

proof fn lemma_scan_written(s: Seq<char>, i: int, cur: Seq<char>, junk: Seq<char>, comps: Comps, seps: Seq<Seq<char>>)
    requires
        seps.len() == comps.len(),
        0 <= i <= s.len(),
    ensures
        written(scan_path(s, i, cur, junk, comps, seps)) == written(
            PathView { comps, seps: seps.push(junk + cur) },
        ) + s.skip(i),
    decreases s.len() - i,
{
    lemma_written_append(comps, seps, junk, cur);
    if i == s.len() {
        assert(s.skip(i) =~= Seq::<char>::empty());
        if emit_piece(cur).len() > 0 {
            let w = PathView { comps: comps.push(cur), seps: seps.push(junk).push(seq![]) };
            assert(w.comps.drop_last() =~= comps);
            assert(w.seps.drop_last() =~= seps.push(junk));
            assert(written(w) =~= written(PathView { comps, seps: seps.push(junk) }) + cur);
        }
        assert(written(PathView { comps, seps: seps.push(junk + cur) }) + s.skip(i) =~= written(
            PathView { comps, seps: seps.push(junk + cur) },
        ));
    } else {
        assert(s.skip(i) =~= seq![s[i]] + s.skip(i + 1));
        if s[i] == '/' {
            if emit_piece(cur).len() > 0 {
                lemma_scan_written(s, i + 1, seq![], seq!['/'], comps.push(cur), seps.push(junk));
                let w = PathView { comps: comps.push(cur), seps: seps.push(junk).push(seq!['/'] + seq![]) };
                assert(w.comps.drop_last() =~= comps);
                assert(w.seps.drop_last() =~= seps.push(junk));
                assert(written(w) =~= written(PathView { comps, seps: seps.push(junk) }) + cur + seq!['/']);
            } else {
                lemma_scan_written(s, i + 1, seq![], junk + cur + seq!['/'], comps, seps);
                lemma_written_append(comps, seps, junk + cur, seq!['/']);
                assert(junk + cur + seq!['/'] + seq![] =~= (junk + cur) + seq!['/']);
            }
        } else {
            lemma_scan_written(s, i + 1, cur.push(s[i]), junk, comps, seps);
            lemma_written_append(comps, seps, junk + cur, seq![s[i]]);
            assert(junk + cur.push(s[i]) =~= (junk + cur) + seq![s[i]]);
        }
    }
}

/// Displaying a path that was read from `s` gives back `s`, character for
/// character.
pub proof fn law_written_parse_roundtrip(s: Seq<char>)
    ensures
        written(parse_path(s)) == s,
{
    let e: Seq<Seq<char>> = seq![seq![]];
    if s.len() > 0 && s[0] == '/' {
        lemma_scan_written(s, 1, seq![], seq![], seq![root_comp()], e);
        let w = PathView { comps: seq![root_comp()], seps: e.push(seq![]) };
        assert(w.comps.drop_last() =~= Seq::<Seq<char>>::empty());
        assert(w.seps.drop_last() =~= e);
        assert(Seq::<char>::empty() + Seq::<char>::empty() =~= Seq::<char>::empty());
        let w0 = PathView { comps: w.comps.drop_last(), seps: w.seps.drop_last() };
        assert(written(w0) == w0.seps.last());
        assert(written(w) == written(w0) + w.comps.last() + w.seps.last());
        assert(written(w) =~= seq!['/']);
        assert(seq!['/'] + s.skip(1) =~= s);
    } else if s.len() > 0 && s[0] == '.' && (s.len() == 1 || s[1] == '/') {
        lemma_scan_written(s, 1, seq![], seq![], seq![cur_comp()], e);
        let w = PathView { comps: seq![cur_comp()], seps: e.push(seq![]) };
        assert(w.comps.drop_last() =~= Seq::<Seq<char>>::empty());
        assert(w.seps.drop_last() =~= e);
        assert(Seq::<char>::empty() + Seq::<char>::empty() =~= Seq::<char>::empty());
        let w0 = PathView { comps: w.comps.drop_last(), seps: w.seps.drop_last() };
        assert(written(w0) == w0.seps.last());
        assert(written(w) == written(w0) + w.comps.last() + w.seps.last());
        assert(written(w) =~= seq!['.']);
        assert(seq!['.'] + s.skip(1) =~= s);
    } else {
        lemma_scan_written(s, 0, seq![], seq![], seq![], seq![]);
        assert(written(PathView { comps: seq![], seps: Seq::<Seq<char>>::empty().push(Seq::<char>::empty() + Seq::<char>::empty()) }) =~= Seq::<char>::empty());
        assert(s.skip(0) =~= s);
    }
}

pub proof fn lemma_path_lt_order(a: PathView, b: PathView, c: PathView)
    ensures
        !path_lt(a, a),
        path_lt(a, b) && path_lt(b, c) ==> path_lt(a, c),
{
    lemma_comps_lt_order(a.comps, b.comps, c.comps);
}

/// Text added to the last separator is added to the written text.
proof fn lemma_written_append(c: Comps, sp: Seq<Seq<char>>, x: Seq<char>, y: Seq<char>)
    requires
        sp.len() == c.len(),
    ensures
        written(PathView { comps: c, seps: sp.push(x + y) }) == written(
            PathView { comps: c, seps: sp.push(x) },
        ) + y,
{
    assert(sp.push(x + y).drop_last() =~= sp);
    assert(sp.push(x).drop_last() =~= sp);
    if c.len() > 0 {
        assert(written(PathView { comps: c, seps: sp.push(x) }) + y =~= written(
            PathView { comps: c.drop_last(), seps: sp },
        ) + c.last() + (x + y));
    }
}

/// A filesystem path, held as its components and the text around them.
#[derive(Debug, PartialEq, Eq)]
pub struct FsPath {
    comps: Vec<Vec<char>>,
    seps: Vec<Vec<char>>,
}

/// The components held in a vector of character vectors.
pub closed spec fn comps_view(v: Seq<Vec<char>>) -> Comps {
    Seq::new(v.len(), |i: int| v[i]@)
}

impl View for FsPath {
    type V = PathView;

    closed spec fn view(&self) -> PathView {
        PathView { comps: comps_view(self.comps@), seps: comps_view(self.seps@) }
    }
}

/// A copy of the components `cs[lo..hi]`.
fn copy_comps(cs: &Vec<Vec<char>>, lo: usize, hi: usize) -> (r: Vec<Vec<char>>)
    requires
        lo <= hi <= cs@.len(),
    ensures
        comps_view(r@) == comps_view(cs@).subrange(
            lo as int,
            hi as int,
        ),
{
    let mut r: Vec<Vec<char>> = Vec::new();
    let mut i = lo;
    while i < hi
        invariant
            lo <= i <= hi <= cs@.len(),
            comps_view(r@) == comps_view(cs@).subrange(
                lo as int,
                i as int,
            ),
        decreases hi - i,
    {
        let c = copy_chars(&cs[i], 0, cs[i].len());
        assert(c@ =~= cs@[i as int]@);
        let ghost old_r = r@;
        r.push(c);
        assert(r@ == old_r.push(c));
        assert(comps_view(r@) =~= comps_view(old_r).push(c@));
        i += 1;
        assert(comps_view(r@) =~= comps_view(cs@).subrange(
            lo as int,
            i as int,
        ));
    }
    r
}

fn is_root_exec(c: &Vec<char>) -> (r: bool)
    ensures
        r == (c@ == root_comp()),
{
    if c.len() == 1 && c[0] == '/' {
        assert(c@ =~= root_comp());
        true
    } else {
        assert(c@.len() != 1 || c@[0] != '/' ==> c@ != root_comp());
        false
    }
}

fn is_cur_exec(c: &Vec<char>) -> (r: bool)
    ensures
        r == (c@ == cur_comp()),
{
    if c.len() == 1 && c[0] == '.' {
        assert(c@ =~= cur_comp());
        true
    } else {
        assert(c@.len() != 1 || c@[0] != '.' ==> c@ != cur_comp());
        false
    }
}

fn is_up_exec(c: &Vec<char>) -> (r: bool)
    ensures
        r == (c@ == up_comp()),
{
    if c.len() == 2 && c[0] == '.' && c[1] == '.' {
        assert(c@ =~= up_comp());
        true
    } else {
        assert(c@.len() != 2 || c@[0] != '.' || c@[1] != '.' ==> c@ != up_comp());
        false
    }
}

fn is_normal_exec(c: &Vec<char>) -> (r: bool)
    ensures
        r == is_normal(c@),
{
    if c.len() == 0 || is_cur_exec(c) || is_up_exec(c) {
        return false;
    }
    let mut i: usize = 0;
    while i < c.len()
        invariant
            i <= c@.len(),
            forall|j: int| 0 <= j < i ==> c@[j] != '/',
        decreases c@.len() - i,
    {
        if c[i] == '/' {
            assert(c@.contains('/'));
            return false;
        }
        i += 1;
    }
    true
}

fn comp_rank_exec(c: &Vec<char>) -> (r: u8)
    ensures
        r as int == comp_rank(c@),
{
    if is_root_exec(c) {
        0
    } else if is_cur_exec(c) {
        1
    } else if is_up_exec(c) {
        2
    } else {
        3
    }
}

fn comp_less(x: &Vec<char>, y: &Vec<char>) -> (r: bool)
    ensures
        r == comp_lt(x@, y@),
{
    let rx = comp_rank_exec(x);
    let ry = comp_rank_exec(y);
    if rx < ry {
        true
    } else if rx == 3 && ry == 3 {
        chars_less(x, y)
    } else {
        false
    }
}

impl FsPath {
    /// Every path holds well-formed components and the text around them.
    #[verifier::type_invariant]
    closed spec fn wf(self) -> bool {
        path_wf(self@)
    }

    /// Reads the path written `s`.
    pub fn parse(s: &str) -> (p: FsPath)
        ensures
            p@ == parse_path(s@),
            p@.comps == parse_comps(s@),
            written(p@) == s@,
            path_wf(p@),
    {
        let cs = chars_of(s);
        let n = cs.len();
        let mut comps: Vec<Vec<char>> = Vec::new();
        let mut seps: Vec<Vec<char>> = Vec::new();
        let mut i: usize = 0;
        if n > 0 && cs[0] == '/' {
            let mut c: Vec<char> = Vec::new();
            c.push('/');
            assert(c@ =~= root_comp());
            comps.push(c);
            seps.push(Vec::new());
            i = 1;
        } else if n > 0 && cs[0] == '.' && (n == 1 || cs[1] == '/') {
            let mut c: Vec<char> = Vec::new();
            c.push('.');
            assert(c@ =~= cur_comp());
            comps.push(c);
            seps.push(Vec::new());
            i = 1;
        }
        let mut cur: Vec<char> = Vec::new();
        let mut junk: Vec<char> = Vec::new();
        proof {
            let c0 = comps_view(comps@);
            let s0 = comps_view(seps@);
            assert(emit_piece(seq![]) =~= Seq::<Seq<char>>::empty());
            if i == 1 {
                assert(s0 =~= seq![Seq::<char>::empty()]);
                assert(s0.push(junk@ + cur@).drop_last() =~= s0);
                assert(c0.drop_last() =~= Seq::<Seq<char>>::empty());
                assert(written(PathView { comps: c0.drop_last(), seps: s0 }) =~= Seq::<char>::empty());
                assert(written(PathView { comps: c0, seps: s0.push(junk@ + cur@) }) =~= cs@.take(1));
                if cs@[0] == '/' {
                    assert(c0 =~= seq![root_comp()]);
                    assert(parse_comps(s@) == seq![root_comp()] + split_pieces(cs@, 0, seq![]));
                    assert(split_pieces(cs@, 0, seq![]) == emit_piece(seq![]) + split_pieces(cs@, 1, seq![]));
                } else {
                    assert(c0 =~= seq![cur_comp()]);
                    assert(parse_comps(s@) == seq![cur_comp()] + split_pieces(cs@, 0, seq![]));
                    assert(split_pieces(cs@, 0, seq![]) == split_pieces(cs@, 1, seq!['.']));
                    assert(seq![].push('.') =~= cur_comp());
                    assert(emit_piece(cur_comp()) =~= Seq::<Seq<char>>::empty());
                    if n > 1 {
                        assert(split_pieces(cs@, 1, seq!['.']) == emit_piece(seq!['.']) + split_pieces(cs@, 2, seq![]));
                    }
                }
                assert(c0 + split_pieces(cs@, 1, seq![]) =~= parse_comps(s@));
            } else {
                assert(c0 =~= Seq::<Seq<char>>::empty());
                assert(s0 =~= Seq::<Seq<char>>::empty());
                assert(written(PathView { comps: c0, seps: s0.push(junk@ + cur@) }) =~= cs@.take(0));
                assert(c0 + split_pieces(cs@, 0, seq![]) =~= parse_comps(s@));
            }
        }
        while i < n
            invariant
                n == cs@.len(),
                cs@ == s@,
                i <= n,
                seps@.len() == comps@.len(),
                scan_path(cs@, i as int, cur@, junk@, comps_view(comps@), comps_view(seps@))
                    == parse_path(s@),
                comps_view(comps@) + split_pieces(cs@, i as int, cur@) == parse_comps(s@),
                written(PathView { comps: comps_view(comps@), seps: comps_view(seps@).push(junk@ + cur@) })
                    == cs@.take(i as int),
            decreases n - i,
        {
            let ghost c0 = comps_view(comps@);
            let ghost s0 = comps_view(seps@);
            let ghost oc = cur@;
            let ghost oj = junk@;
            proof {
                lemma_written_append(c0, s0, oj, oc);
                assert(cs@.take(i + 1) =~= cs@.take(i as int).push(cs@[i as int]));
            }
            if cs[i] == '/' {
                assert(split_pieces(cs@, i as int, oc) == emit_piece(oc) + split_pieces(cs@, i + 1, seq![]));
                if cur.len() > 0 && !is_cur_exec(&cur) {
                    seps.push(junk);
                    comps.push(cur);
                    let mut j: Vec<char> = Vec::new();
                    j.push('/');
                    junk = j;
                    cur = Vec::new();
                    proof {
                        let c1 = comps_view(comps@);
                        let s1 = comps_view(seps@);
                        assert(c1 =~= c0.push(oc));
                        assert(s1 =~= s0.push(oj));
                        assert(emit_piece(oc) =~= seq![oc]);
                        assert(c1 + split_pieces(cs@, i + 1, cur@) =~= c0 + (emit_piece(oc) + split_pieces(cs@, i + 1, seq![])));
                        let w = PathView { comps: c1, seps: s1.push(junk@ + cur@) };
                        assert(w.comps.drop_last() =~= c0);
                        assert(w.seps.drop_last() =~= s0.push(oj));
                        assert(junk@ + cur@ =~= seq!['/']);
                        assert(written(w) == written(PathView { comps: c0, seps: s0.push(oj) }) + oc + seq!['/']);
                    }
                } else {
                    proof {
                        assert(emit_piece(oc) =~= Seq::<Seq<char>>::empty());
                        lemma_written_append(c0, s0, oj + oc, seq!['/']);
                    }
                    junk.append(&mut cur);
                    junk.push('/');
                    cur = Vec::new();
                    proof {
                        assert(junk@ + cur@ =~= (oj + oc) + seq!['/']);
                        assert(comps_view(comps@) + split_pieces(cs@, i + 1, cur@) =~= c0 + (emit_piece(oc) + split_pieces(cs@, i + 1, seq![])));
                    }
                }
            } else {
                cur.push(cs[i]);
                proof {
                    lemma_written_append(c0, s0, oj + oc, seq![cs@[i as int]]);
                    assert(oj + cur@ =~= (oj + oc) + seq![cs@[i as int]]);
                    assert(split_pieces(cs@, i as int, oc) == split_pieces(cs@, i + 1, cur@));
                }
            }
            i += 1;
        }
        let ghost c0 = comps_view(comps@);
        let ghost s0 = comps_view(seps@);
        let ghost oc = cur@;
        let ghost oj = junk@;
        proof {
            lemma_written_append(c0, s0, oj, oc);
            assert(cs@.take(n as int) =~= cs@);
            assert(split_pieces(cs@, n as int, oc) == emit_piece(oc));
        }
        if cur.len() > 0 && !is_cur_exec(&cur) {
            seps.push(junk);
            comps.push(cur);
            seps.push(Vec::new());
            proof {
                let c1 = comps_view(comps@);
                let s1 = comps_view(seps@);
                assert(c1 =~= c0.push(oc));
                assert(s1 =~= s0.push(oj).push(seq![]));
                assert(emit_piece(oc) =~= seq![oc]);
                let w = PathView { comps: c1, seps: s1 };
                assert(w.comps.drop_last() =~= c0);
                assert(w.seps.drop_last() =~= s0.push(oj));
                assert(written(w) =~= written(PathView { comps: c0, seps: s0.push(oj) }) + oc);
            }
        } else {
            junk.append(&mut cur);
            seps.push(junk);
            proof {
                assert(emit_piece(oc) =~= Seq::<Seq<char>>::empty());
                assert(comps_view(comps@) =~= c0);
                assert(comps_view(seps@) =~= s0.push(oj + oc));
                assert(c0 + emit_piece(oc) =~= c0);
            }
        }
        proof {
            lemma_parse_wf(s@);
            assert(comps_view(comps@) =~= parse_comps(s@));
            assert(comps_view(seps@).len() == comps_view(comps@).len() + 1);
        }
        let p = FsPath { comps, seps };
        assert(p@ =~= scan_path(cs@, n as int, oc, oj, c0, s0));
        p
    }

    /// The path as written: `Path::display`.
    pub fn display(&self) -> (s: String)
        ensures
            s@ == written(self@),
    {
        proof {
            use_type_invariant(self);
        }
        let ghost v = self@;
        let n = self.comps.len();
        let mut s = string_of(&self.seps[0], 0, self.seps[0].len());
        proof {
            assert(s@ =~= v.seps[0]);
            assert(v.comps.take(0) =~= Seq::<Seq<char>>::empty());
            assert(v.seps.take(1).last() == v.seps[0]);
        }
        let mut i: usize = 0;
        while i < n
            invariant
                v == self@,
                path_wf(v),
                n == v.comps.len(),
                n == self.comps@.len(),
                n + 1 == self.seps@.len(),
                i <= n,
                s@ == written(PathView { comps: v.comps.take(i as int), seps: v.seps.take(i + 1) }),
            decreases n - i,
        {
            let c = string_of(&self.comps[i], 0, self.comps[i].len());
            let t = string_of(&self.seps[i + 1], 0, self.seps[i + 1].len());
            let ghost before = s@;
            s.append(c.as_str());
            s.append(t.as_str());
            proof {
                assert(c@ =~= v.comps[i as int]);
                assert(t@ =~= v.seps[i + 1]);
                let w = PathView { comps: v.comps.take(i + 1), seps: v.seps.take(i + 2) };
                assert(w.comps.drop_last() =~= v.comps.take(i as int));
                assert(w.seps.drop_last() =~= v.seps.take(i + 1));
                assert(w.comps.last() == v.comps[i as int]);
                assert(w.seps.last() == v.seps[i + 1]);
                assert(s@ =~= before + c@ + t@);
            }
            i += 1;
        }
        proof {
            assert(v.comps.take(n as int) =~= v.comps);
            assert(v.seps.take(n + 1) =~= v.seps);
            assert(PathView { comps: v.comps.take(n as int), seps: v.seps.take(n + 1) } =~= v);
        }
        s
    }

    /// The number of components.
    pub fn len(&self) -> (n: usize)
        ensures
            n == self@.comps.len(),
    {
        self.comps.len()
    }

    /// The last component, when it is a name.
    pub fn file_name(&self) -> (r: Option<String>)
        ensures
            opt_chars(r) == path_file_name(self@),
    {
        let n = self.comps.len();
        if n > 0 && is_normal_exec(&self.comps[n - 1]) {
            let s = string_of(&self.comps[n - 1], 0, self.comps[n - 1].len());
            assert(s@ =~= self@.comps.last());
            Some(s)
        } else {
            None
        }
    }

    /// Whether the file name of the path is `name`.
    pub fn file_name_is(&self, name: &str) -> (r: bool)
        ensures
            r == (path_file_name(self@) == Some(name@)),
    {
        let n = self.comps.len();
        if n > 0 && is_normal_exec(&self.comps[n - 1]) {
            let cs = chars_of(name);
            chars_eq(&self.comps[n - 1], &cs)
        } else {
            false
        }
    }

    /// The path without its last component, as `Path::parent` gives it.
    pub fn parent(&self) -> (r: Option<FsPath>)
        ensures
            match r {
                Some(p) => path_parent(self@) == Some(p@),
                None => path_parent(self@) is None,
            },
    {
        let n = self.comps.len();
        if n == 0 || is_root_exec(&self.comps[n - 1]) {
            None
        } else {
            proof {
                use_type_invariant(self);
                lemma_wf_drop_last(self@.comps);
            }
            let comps = copy_comps(&self.comps, 0, n - 1);
            let mut seps = copy_comps(&self.seps, 0, n - 1);
            let ghost s0 = seps@;
            seps.push(Vec::new());
            proof {
                assert(comps_view(comps@) =~= self@.comps.drop_last());
                assert(comps_view(seps@) =~= comps_view(s0).push(seq![]));
                assert(comps_view(seps@) =~= self@.seps.take(n - 1).push(seq![]));
            }
            let p = FsPath { comps, seps };
            assert(p@ =~= path_parent(self@).unwrap());
            Some(p)
        }
    }

    /// Whether `base` is a leading run of components of the path.
    pub fn starts_with(&self, base: &FsPath) -> (r: bool)
        ensures
            r == path_starts_with(self@, base@),
    {
        let m = base.comps.len();
        if m > self.comps.len() {
            return false;
        }
        let mut i: usize = 0;
        while i < m
            invariant
                m == base@.comps.len(),
                m <= self@.comps.len(),
                i <= m,
                forall|j: int| 0 <= j < i ==> base@.comps[j] == self@.comps[j],
            decreases m - i,
        {
            if !chars_eq(&self.comps[i], &base.comps[i]) {
                assert(self@.comps[i as int] != base@.comps[i as int]);
                return false;
            }
            i += 1;
        }
        assert(base@.comps =~= self@.comps.subrange(0, m as int));
        true
    }

    /// The path after `base`, when it starts with `base`, as
    /// `Path::strip_prefix` gives it.
    pub fn strip_prefix(&self, base: &FsPath) -> (r: Option<FsPath>)
        ensures
            match r {
                Some(p) => path_strip_prefix(self@, base@) == Some(p@),
                None => path_strip_prefix(self@, base@) is None,
            },
    {
        if self.starts_with(base) {
            proof {
                use_type_invariant(self);
                lemma_wf_skip(self@.comps, base@.comps.len() as int);
            }
            let n = self.comps.len();
            let m = base.comps.len();
            let comps = copy_comps(&self.comps, m, n);
            let mut seps: Vec<Vec<char>> = Vec::new();
            if m == n {
                seps.push(Vec::new());
                assert(comps_view(seps@) =~= seq![Seq::<char>::empty()]);
            } else if m == 0 {
                seps = copy_comps(&self.seps, 0, n);
                let ghost s0 = seps@;
                seps.push(Vec::new());
                assert(comps_view(seps@) =~= comps_view(s0).push(seq![]));
            } else {
                seps.push(Vec::new());
                let mut mid = copy_comps(&self.seps, m + 1, n);
                let ghost s0 = seps@;
                let ghost m0 = mid@;
                seps.append(&mut mid);
                let ghost s1 = seps@;
                seps.push(Vec::new());
                assert(comps_view(s1) =~= comps_view(s0) + comps_view(m0));
                assert(comps_view(seps@) =~= comps_view(s1).push(seq![]));
                assert(comps_view(seps@) =~= seq![Seq::<char>::empty()] + self@.seps.subrange(
                    m + 1,
                    n as int,
                ) + seq![Seq::<char>::empty()]);
            }
            assert(comps_view(comps@) =~= self@.comps.skip(m as int));
            let p = FsPath { comps, seps };
            assert(p@ =~= path_strip_prefix(self@, base@).unwrap());
            Some(p)
        } else {
            None
        }
    }

    /// `other` pushed onto the path, as `Path::join` does.
    pub fn join(&self, other: &FsPath) -> (r: FsPath)
        ensures
            r@ == path_join(self@, other@),
    {
        proof {
            use_type_invariant(self);
            use_type_invariant(other);
            lemma_wf_join(self@.comps, other@.comps);
        }
        let n = self.comps.len();
        let m = other.comps.len();
        if n == 0 || (m > 0 && is_root_exec(&other.comps[0])) {
            other.clone()
        } else {
            let last = &self.seps[n];
            let open = if last.len() > 0 {
                last[last.len() - 1] == '/'
            } else {
                is_root_exec(&self.comps[n - 1])
            };
            assert(open == ends_open(self@));
            let cur_head = m > 0 && is_cur_exec(&other.comps[0]);
            let skip: usize = if cur_head {
                1
            } else {
                0
            };
            let mut comps = copy_comps(&self.comps, 0, n);
            let mut tail = copy_comps(&other.comps, skip, m);
            let ghost c0 = comps@;
            let ghost t0 = tail@;
            comps.append(&mut tail);
            let mut glue = copy_chars(last, 0, last.len());
            if !open {
                glue.push('/');
            }
            let mut g0 = copy_chars(&other.seps[0], 0, other.seps[0].len());
            glue.append(&mut g0);
            if cur_head {
                glue.push('.');
                let mut g1 = copy_chars(&other.seps[1], 0, other.seps[1].len());
                glue.append(&mut g1);
            }
            let ghost gv = glue@;
            let mut seps = copy_comps(&self.seps, 0, n);
            let ghost s0 = seps@;
            seps.push(glue);
            let ghost s1 = seps@;
            let mut rest = copy_comps(&other.seps, skip + 1, other.seps.len());
            let ghost r0 = rest@;
            seps.append(&mut rest);
            proof {
                assert(comps_view(comps@) =~= comps_view(c0) + comps_view(t0));
                assert(comps_view(s1) =~= comps_view(s0).push(gv));
                assert(comps_view(seps@) =~= comps_view(s1) + comps_view(r0));
                assert(self@.seps.last() == self@.seps[n as int]);
                assert(self@.seps.drop_last() =~= self@.seps.take(n as int));
                assert(other@.seps.skip(skip + 1) =~= other@.seps.subrange(skip + 1, m + 1));
                if cur_head {
                    assert(comps_view(comps@) =~= self@.comps + other@.comps.drop_first());
                    assert(gv =~= self@.seps.last() + (if open { Seq::<char>::empty() } else { seq!['/'] }) + other@.seps[0] + cur_comp() + other@.seps[1]);
                } else {
                    assert(comps_view(comps@) =~= self@.comps + other@.comps);
                    assert(gv =~= self@.seps.last() + (if open { Seq::<char>::empty() } else { seq!['/'] }) + other@.seps[0]);
                }
            }
            let p = FsPath { comps, seps };
            assert(p@ =~= path_join(self@, other@));
            p
        }
    }

    /// The extension of the file name.
    pub fn extension(&self) -> (r: Option<String>)
        ensures
            opt_chars(r) == path_extension(self@),
    {
        let n = self.comps.len();
        if n == 0 || !is_normal_exec(&self.comps[n - 1]) {
            return None;
        }
        let name = &self.comps[n - 1];
        let ghost nv = name@;
        let mut k = name.len();
        assert(nv.take(k as int) =~= nv);
        while k > 0 && name[k - 1] != '.'
            invariant
                k <= nv.len(),
                nv == name@,
                last_dot(nv) == last_dot(nv.take(k as int)),
            decreases k,
        {
            assert(nv.take(k as int).drop_last() =~= nv.take(k - 1));
            k -= 1;
        }
        if k == 0 {
            assert(nv.take(0) =~= Seq::<char>::empty());
            None
        } else {
            assert(last_dot(nv.take(k as int)) == k - 1);
            if k == 1 {
                None
            } else {
                let s = string_of(name, k, name.len());
                assert(s@ =~= nv.skip(k as int));
                Some(s)
            }
        }
    }

    /// Whether a component before the last one is a name that starts with
    /// `.`.
    pub fn has_hidden_dir(&self) -> (r: bool)
        ensures
            r == has_hidden_dir(self@),
    {
        let n = self.comps.len();
        let mut k: usize = 0;
        while k < n && k + 1 < n
            invariant
                n == self@.comps.len(),
                k <= n,
                forall|j: int| 0 <= j < k && j < n - 1 ==> !is_dot_name(#[trigger] self@.comps[j]),
            decreases n - k,
        {
            if is_normal_exec(&self.comps[k]) && self.comps[k][0] == '.' {
                assert(is_dot_name(self@.comps[k as int]));
                return true;
            }
            k += 1;
        }
        false
    }

    /// Whether the two paths have the same components, as `==` on `Path`.
    pub fn same(&self, other: &FsPath) -> (r: bool)
        ensures
            r == (self@.comps == other@.comps),
    {
        if self.comps.len() != other.comps.len() {
            return false;
        }
        let r = self.starts_with(other);
        if r {
            assert(self@.comps =~= other@.comps);
        }
        r
    }

    /// Whether the path comes before `other` in the order of `Path`.
    pub fn less(&self, other: &FsPath) -> (r: bool)
        ensures
            r == path_lt(self@, other@),
    {
        let mut k: usize = 0;
        while k < self.comps.len() && k < other.comps.len() && chars_eq(
            &self.comps[k],
            &other.comps[k],
        )
            invariant
                k <= self@.comps.len(),
                k <= other@.comps.len(),
                path_lt(self@, other@) == comps_lt_from(self@.comps, other@.comps, k as int),
            decreases self@.comps.len() - k,
        {
            k += 1;
        }
        if k >= self.comps.len() {
            k < other.comps.len()
        } else if k >= other.comps.len() {
            false
        } else {
            comp_less(&self.comps[k], &other.comps[k])
        }
    }
}

impl Clone for FsPath {
    fn clone(&self) -> (r: FsPath)
        ensures
            r@ == self@,
    {
        proof {
            use_type_invariant(self);
        }
        let comps = copy_comps(&self.comps, 0, self.comps.len());
        let seps = copy_comps(&self.seps, 0, self.seps.len());
        assert(comps_view(comps@) =~= self@.comps);
        assert(comps_view(seps@) =~= self@.seps);
        let p = FsPath { comps, seps };
        assert(p@ =~= self@);
        p
    }
}

} // verus!
