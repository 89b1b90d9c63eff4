//! Paths as text: the directory and the final name of a path on disk, and the
//! place of a file inside an archive.
//!
//! A path is a sequence of characters in which `/` separates segments. Empty
//! segments and `.` segments carry no meaning and are skipped, except for a
//! leading `.`, which stands for the current directory. A leading `/` is the
//! root. This is how POSIX reads a path.

use vstd::prelude::*;
use crate::text::{chars_of, slice_of, opt_view};

verus! {

/// The path starts at the root.
pub open spec fn has_root(p: Seq<char>) -> bool {
    p.len() > 0 && p[0] == '/'
}

/// The path starts with a `.` segment: it is `.` or begins with `./`.
pub open spec fn has_cur_dir(p: Seq<char>) -> bool {
    p.len() > 0 && p[0] == '.' && (p.len() == 1 || p[1] == '/')
}

/// How many characters the root or the leading `.` takes: one or none.
pub open spec fn anchor_len(p: Seq<char>) -> int {
    if has_root(p) || has_cur_dir(p) {
        1
    } else {
        0
    }
}

/// What follows the root or the leading `.`.
pub open spec fn body(p: Seq<char>) -> Seq<char> {
    p.subrange(anchor_len(p), p.len() as int)
}

/// `b` without the empty and `.` segments at its end.
pub open spec fn trim_end(b: Seq<char>) -> Seq<char>
    decreases b.len(),
{
    if b.len() == 0 {
        b
    } else if b.last() == '/' {
        trim_end(b.drop_last())
    } else if b.last() == '.' && b.len() == 1 {
        Seq::empty()
    } else if b.last() == '.' && b[b.len() - 2] == '/' {
        trim_end(b.subrange(0, b.len() - 2))
    } else {
        b
    }
}

/// `b` without the empty and `.` segments at its start.
pub open spec fn trim_start(b: Seq<char>) -> Seq<char>
    decreases b.len(),
{
    if b.len() == 0 {
        b
    } else if b[0] == '/' {
        trim_start(b.drop_first())
    } else if b[0] == '.' && b.len() == 1 {
        Seq::empty()
    } else if b[0] == '.' && b[1] == '/' {
        trim_start(b.subrange(2, b.len() as int))
    } else {
        b
    }
}

/// Where the last segment of `t` starts: behind its last `/`, or at 0.
pub open spec fn last_segment_start(t: Seq<char>) -> int
    decreases t.len(),
{
    if t.len() == 0 || t.last() == '/' {
        t.len() as int
    } else {
        last_segment_start(t.drop_last())
    }
}

/// The last segment of `t`.
pub open spec fn last_segment(t: Seq<char>) -> Seq<char> {
    t.subrange(last_segment_start(t), t.len() as int)
}

/// The segment `..`, which names the directory above.
pub open spec fn is_parent_dir(s: Seq<char>) -> bool {
    s.len() == 2 && s[0] == '.' && s[1] == '.'
}

/// A segment that names a file or a directory: not empty, without `/`, and
/// neither `.` nor `..`.
pub open spec fn is_name(s: Seq<char>) -> bool {
    &&& s.len() > 0
    &&& !s.contains('/')
    &&& !(s.len() == 1 && s[0] == '.')
    &&& !is_parent_dir(s)
}

/// Separators and `.` segments only: each character is a `/`, or a `.` that
/// stands between two `/` or between a `/` and the end.
pub open spec fn is_padding(t: Seq<char>) -> bool {
    forall|i: int|
        0 <= i < t.len() ==> #[trigger] t[i] == '/' || (t[i] == '.' && i > 0 && t[i - 1] == '/' && (i
            + 1 == t.len() || t[i + 1] == '/'))
}

/// The final name of a path: its last segment that is neither empty nor `.`,
/// unless that segment is `..` or there is none.
pub open spec fn file_name(p: Seq<char>) -> Option<Seq<char>> {
    let t = trim_end(body(p));
    if t.len() == 0 || is_parent_dir(last_segment(t)) {
        None
    } else {
        Some(last_segment(t))
    }
}

/// The directory of a path: the path without its final segment and without
/// the separators before it. A path that is only a root, and the empty path,
/// have none.
pub open spec fn parent(p: Seq<char>) -> Option<Seq<char>> {
    let t = trim_end(body(p));
    if t.len() == 0 {
        if has_cur_dir(p) {
            Some(Seq::empty())
        } else {
            None
        }
    } else {
        let k = last_segment_start(t);
        let rest = if k == 0 {
            Seq::empty()
        } else {
            t.subrange(0, k - 1)
        };
        Some(p.subrange(0, anchor_len(p)) + trim_end(rest))
    }
}

/// A destination directory as a prefix inside the archive: a leading `.`
/// segment is taken off, with the empty and `.` segments around what is left.
/// A directory that does not start with a `.` segment stays as it is.
pub open spec fn normalize(d: Seq<char>) -> Seq<char> {
    if has_cur_dir(d) {
        trim_end(trim_start(d.subrange(1, d.len() as int)))
    } else {
        d
    }
}

/// `name` under `prefix`: a `/` comes between the two unless `prefix` is
/// empty or ends in one. A `name` that starts at the root replaces `prefix`.
pub open spec fn join(prefix: Seq<char>, name: Seq<char>) -> Seq<char> {
    if has_root(name) {
        name
    } else if prefix.len() > 0 && prefix.last() != '/' {
        prefix + seq!['/'] + name
    } else {
        prefix + name
    }
}

/// The path inside the archive of a file called `name` that is placed under
/// the destination directory `dest_dir`.
pub open spec fn archive_path(dest_dir: Seq<char>, name: Seq<char>) -> Seq<char> {
    join(normalize(dest_dir), name)
}

/// What `trim_end` leaves is the start of what it was given, and does not
/// end in an empty or `.` segment.
pub proof fn lemma_trim_end_shape(b: Seq<char>)
    ensures
        trim_end(b).len() <= b.len(),
        trim_end(b) == b.take(trim_end(b).len() as int),
        trim_end(b).len() > 0 ==> trim_end(b).last() != '/',
        trim_end(b).len() > 0 && trim_end(b).last() == '.' ==> trim_end(b).len() >= 2 && trim_end(
            b,
        )[trim_end(b).len() - 2] != '/',
    decreases b.len(),
{
    if b.len() == 0 {
        assert(b.take(0) =~= b);
    } else if b.last() == '/' {
        lemma_trim_end_shape(b.drop_last());
        let t = trim_end(b.drop_last());
        assert(b.drop_last().take(t.len() as int) =~= b.take(t.len() as int));
    } else if b.last() == '.' && b.len() == 1 {
        assert(b.take(0) =~= Seq::<char>::empty());
    } else if b.last() == '.' && b[b.len() - 2] == '/' {
        let c = b.subrange(0, b.len() - 2);
        lemma_trim_end_shape(c);
        let t = trim_end(c);
        assert(c.take(t.len() as int) =~= b.take(t.len() as int));
    } else {
        assert(b.take(b.len() as int) =~= b);
    }
}

/// What `trim_start` leaves is the end of what it was given, and does not
/// start with an empty or `.` segment.
pub proof fn lemma_trim_start_shape(b: Seq<char>)
    ensures
        trim_start(b).len() <= b.len(),
        trim_start(b) == b.skip(b.len() - trim_start(b).len()),
        trim_start(b).len() > 0 ==> !has_root(trim_start(b)) && !has_cur_dir(trim_start(b)),
    decreases b.len(),
{
    if b.len() == 0 {
        assert(b.skip(0) =~= b);
    } else if b[0] == '/' {
        lemma_trim_start_shape(b.drop_first());
        let t = trim_start(b.drop_first());
        assert(b.drop_first().skip(b.len() - 1 - t.len()) =~= b.skip(b.len() - t.len()));
    } else if b[0] == '.' && b.len() == 1 {
        assert(b.skip(1) =~= Seq::<char>::empty());
    } else if b[0] == '.' && b[1] == '/' {
        let c = b.subrange(2, b.len() as int);
        lemma_trim_start_shape(c);
        let t = trim_start(c);
        assert(c.skip(c.len() - t.len()) =~= b.skip(b.len() - t.len()));
    } else {
        assert(b.skip(0) =~= b);
    }
}

/// The last segment holds no `/`, and starts at 0 or behind a `/`.
pub proof fn lemma_last_segment_start(t: Seq<char>)
    ensures
        0 <= last_segment_start(t) <= t.len(),
        forall|i: int| last_segment_start(t) <= i < t.len() ==> t[i] != '/',
        last_segment_start(t) == 0 || t[last_segment_start(t) - 1] == '/',
    decreases t.len(),
{
    if t.len() > 0 && t.last() != '/' {
        let front = t.drop_last();
        lemma_last_segment_start(front);
        assert forall|i: int| last_segment_start(t) <= i < t.len() implies t[i] != '/' by {
            if i < front.len() {
                assert(front[i] == t[i]);
            }
        }
        if last_segment_start(t) > 0 {
            assert(front[last_segment_start(t) - 1] == t[last_segment_start(t) - 1]);
        }
    }
}

/// Behind a text that is empty or ends in `/`, a text without `/` is the
/// last segment.
pub proof fn lemma_last_segment_of_suffix(x: Seq<char>, n: Seq<char>)
    requires
        !n.contains('/'),
        x.len() == 0 || x.last() == '/',
    ensures
        last_segment_start(x + n) == x.len(),
        last_segment(x + n) == n,
    decreases n.len(),
{
    if n.len() == 0 {
        assert(x + n =~= x);
    } else {
        assert((x + n).last() == n.last());
        assert(n[n.len() - 1] == n.last());
        assert((x + n).drop_last() =~= x + n.drop_last());
        assert forall|i: int| 0 <= i < n.drop_last().len() implies n.drop_last()[i] != '/' by {
            assert(n[i] == n.drop_last()[i]);
        }
        lemma_last_segment_of_suffix(x, n.drop_last());
    }
    assert((x + n).subrange(x.len() as int, (x + n).len() as int) =~= n);
}

/// A name is not trimmed.
pub proof fn lemma_trim_end_keeps_name(x: Seq<char>, n: Seq<char>)
    requires
        is_name(n),
        x.len() == 0 || x.last() == '/',
    ensures
        trim_end(x + n) == x + n,
{
    let b = x + n;
    assert(b.last() == n[n.len() - 1]);
    if b.last() == '.' {
        assert(n.len() >= 2);
        assert(b[b.len() - 2] == n[n.len() - 2]);
    }
}

/// The final name of a path is a name.
pub proof fn lemma_file_name_is_name(p: Seq<char>)
    ensures
        file_name(p) matches Some(n) ==> is_name(n),
{
    let t = trim_end(body(p));
    lemma_trim_end_shape(body(p));
    lemma_last_segment_start(t);
    if file_name(p) is Some {
        let k = last_segment_start(t);
        let n = last_segment(t);
        assert(n.len() > 0);
        assert forall|i: int| 0 <= i < n.len() implies n[i] != '/' by {
            assert(n[i] == t[k + i]);
        }
        if n.len() == 1 && n[0] == '.' {
            assert(t.last() == '.');
            assert(k == t.len() - 1);
        }
    }
}

/// A name is its own final name, in the empty directory.
pub proof fn lemma_name_alone(n: Seq<char>)
    requires
        is_name(n),
    ensures
        file_name(n) == Some(n),
        parent(n) == Some(Seq::<char>::empty()),
{
    let e = Seq::<char>::empty();
    assert(n[0] != '/');
    assert(n.len() > 1 ==> n[1] != '/');
    assert(body(n) =~= n);
    assert(e + n =~= n);
    lemma_trim_end_keeps_name(e, n);
    lemma_last_segment_of_suffix(e, n);
    assert(n.subrange(0, 0) + trim_end(e) =~= e);
}

/// A name behind a `/` is the final name of the path.
pub proof fn lemma_name_in_dir(d: Seq<char>, n: Seq<char>)
    requires
        is_name(n),
    ensures
        file_name(d + seq!['/'] + n) == Some(n),
{
    let p = d + seq!['/'] + n;
    let a = anchor_len(p);
    let x = (d + seq!['/']).subrange(a, d.len() as int + 1);
    assert(p[0] == (d + seq!['/'])[0]);
    assert(body(p) =~= x + n);
    assert(x.len() > 0 ==> x.last() == '/');
    lemma_trim_end_keeps_name(x, n);
    lemma_last_segment_of_suffix(x, n);
}

/// What `trim_end` takes off a text that it does not empty is padding.
pub proof fn lemma_trim_end_takes_padding(b: Seq<char>)
    requires
        trim_end(b).len() > 0,
    ensures
        is_padding(b.skip(trim_end(b).len() as int)),
    decreases b.len(),
{
    lemma_trim_end_shape(b);
    let n = trim_end(b).len() as int;
    let cut = b.skip(n);
    if b.last() == '/' {
        let b0 = b.drop_last();
        lemma_trim_end_shape(b0);
        lemma_trim_end_takes_padding(b0);
        let cut0 = b0.skip(n);
        assert forall|i: int| 0 <= i < cut.len() implies #[trigger] cut[i] == '/' || (cut[i] == '.'
            && i > 0 && cut[i - 1] == '/' && (i + 1 == cut.len() || cut[i + 1] == '/')) by {
            if i < cut0.len() {
                assert(cut0[i] == cut[i]);
                if cut[i] == '.' {
                    assert(cut0[i - 1] == cut[i - 1]);
                    if i + 1 < cut0.len() {
                        assert(cut0[i + 1] == cut[i + 1]);
                    }
                }
            }
        }
    } else if b.last() == '.' && b.len() > 1 && b[b.len() - 2] == '/' {
        let b0 = b.subrange(0, b.len() - 2);
        lemma_trim_end_shape(b0);
        lemma_trim_end_takes_padding(b0);
        let cut0 = b0.skip(n);
        assert forall|i: int| 0 <= i < cut.len() implies #[trigger] cut[i] == '/' || (cut[i] == '.'
            && i > 0 && cut[i - 1] == '/' && (i + 1 == cut.len() || cut[i + 1] == '/')) by {
            if i < cut0.len() {
                assert(cut0[i] == cut[i]);
                if cut[i] == '.' {
                    assert(cut0[i - 1] == cut[i - 1]);
                    if i + 1 < cut0.len() {
                        assert(cut0[i + 1] == cut[i + 1]);
                    }
                }
            }
        }
    } else {
        assert(cut =~= Seq::<char>::empty());
    }
}

/// The final name of a path is `n` exactly where `n` is a name, stands in
/// the path at the start or behind a `/`, and only padding follows it.
pub proof fn lemma_file_name_iff(p: Seq<char>, n: Seq<char>)
    ensures
        file_name(p) == Some(n) <==> is_name(n) && exists|i: int, j: int|
            0 <= i <= j <= p.len() && #[trigger] p.subrange(i, j) == n && (i == 0 || p[i - 1]
                == '/') && is_padding(p.skip(j)),
{
    if file_name(p) == Some(n) {
        lemma_file_name_is_name(p);
        let a = anchor_len(p);
        let b = body(p);
        let t = trim_end(b);
        lemma_trim_end_shape(b);
        lemma_trim_end_takes_padding(b);
        lemma_last_segment_start(t);
        let k = last_segment_start(t);
        let i = a + k;
        let j = i + n.len();
        assert(p.subrange(i, j) =~= n);
        assert(p.skip(j) =~= b.skip(t.len() as int));
        if k == 0 {
            if a == 1 && !has_root(p) {
                assert(t[0] == b[0]);
                assert(b[0] == p[1]);
            }
        } else {
            assert(t[k - 1] == p[i - 1]);
        }
    }
    if is_name(n) && exists|i: int, j: int|
        0 <= i <= j <= p.len() && #[trigger] p.subrange(i, j) == n && (i == 0 || p[i - 1] == '/')
            && is_padding(p.skip(j)) {
        let (i, j) = choose|i: int, j: int|
            0 <= i <= j <= p.len() && #[trigger] p.subrange(i, j) == n && (i == 0 || p[i - 1]
                == '/') && is_padding(p.skip(j));
        let a = anchor_len(p);
        let tail = p.skip(j);
        assert(p.subrange(i, j).len() == n.len());
        assert(p[i] == p.subrange(i, j)[0]);
        assert(n[0] != '/');
        if i == 0 {
            if n.len() > 1 {
                assert(p[1] == p.subrange(i, j)[1]);
                assert(n[1] != '/');
            }
            assert(a == 0);
        }
        let x = p.subrange(a, i);
        assert(x.len() > 0 ==> x.last() == p[i - 1]);
        assert(body(p) =~= (x + n) + tail);
        lemma_trim_end_keeps_name(x, n);
        lemma_trim_end_padding(x + n, tail);
        lemma_last_segment_of_suffix(x, n);
    }
}

/// Padding behind a text that `trim_end` keeps whole is trimmed away.
pub proof fn lemma_trim_end_padding(b: Seq<char>, t: Seq<char>)
    requires
        is_padding(t),
        trim_end(b) == b,
        b.len() > 0,
    ensures
        trim_end(b + t) == b,
    decreases t.len(),
{
    let w = b + t;
    if t.len() == 0 {
        assert(w =~= b);
    } else {
        let i = t.len() - 1;
        assert(w.last() == t[i]);
        if t[i] == '/' {
            let t0 = t.drop_last();
            assert(w.drop_last() =~= b + t0);
            assert forall|h: int| 0 <= h < t0.len() implies #[trigger] t0[h] == '/' || (t0[h]
                == '.' && h > 0 && t0[h - 1] == '/' && (h + 1 == t0.len() || t0[h + 1] == '/')) by {
                assert(t0[h] == t[h]);
            }
            lemma_trim_end_padding(b, t0);
        } else {
            if i == 0 {
                assert(false);
            }
            let t0 = t.subrange(0, i - 1);
            assert(w[w.len() - 2] == t[i - 1]);
            assert(w.subrange(0, w.len() - 2) =~= b + t0);
            assert forall|h: int| 0 <= h < t0.len() implies #[trigger] t0[h] == '/' || (t0[h]
                == '.' && h > 0 && t0[h - 1] == '/' && (h + 1 == t0.len() || t0[h + 1] == '/')) by {
                assert(t0[h] == t[h]);
                if t[h] == '.' {
                    assert(t[h + 1] == '/');
                }
            }
            lemma_trim_end_padding(b, t0);
        }
    }
}

/// The directory of a name behind a `/` is what stands before the `/`,
/// without the empty and `.` segments at its end.
pub proof fn lemma_parent_in_dir(d: Seq<char>, n: Seq<char>)
    requires
        is_name(n),
        d.len() > 0,
    ensures
        parent(d + seq!['/'] + n) == Some(d.subrange(0, anchor_len(d)) + trim_end(body(d))),
{
    let p = d + seq!['/'] + n;
    let a = anchor_len(d);
    assert(p[0] == d[0]);
    if d.len() > 1 {
        assert(p[1] == d[1]);
    } else {
        assert(p[1] == '/');
    }
    assert(anchor_len(p) == a);
    let x = body(d) + seq!['/'];
    assert(body(p) =~= x + n);
    lemma_trim_end_keeps_name(x, n);
    lemma_last_segment_of_suffix(x, n);
    assert((x + n).subrange(0, x.len() - 1) =~= body(d));
    assert(p.subrange(0, a) =~= d.subrange(0, a));
}

/// Behind `./`, a directory that is relative and has no empty or `.` segment
/// at its end is the prefix itself.
pub proof fn lemma_normalize_strips_cur_dir(x: Seq<char>)
    requires
        !has_root(x),
        !has_cur_dir(x),
        trim_end(x) == x,
    ensures
        normalize(seq!['.', '/'] + x) == x,
{
    let d = seq!['.', '/'] + x;
    let rest = d.subrange(1, d.len() as int);
    assert(d[0] == '.' && d[1] == '/');
    assert(rest =~= seq!['/'] + x);
    assert(rest.drop_first() =~= x);
    assert(trim_start(x) == x);
    assert(trim_start(rest) == trim_start(x));
}

/// A file placed under a directory keeps its name: the final name of its
/// path inside the archive is the name it was placed with.
pub proof fn lemma_archive_path_keeps_name(dest_dir: Seq<char>, n: Seq<char>)
    requires
        is_name(n),
    ensures
        file_name(archive_path(dest_dir, n)) == Some(n),
{
    let prefix = normalize(dest_dir);
    assert(n[0] != '/');
    if prefix.len() == 0 {
        assert(prefix + n =~= n);
        lemma_name_alone(n);
    } else if prefix.last() == '/' {
        assert(prefix + n =~= prefix.drop_last() + seq!['/'] + n);
        lemma_name_in_dir(prefix.drop_last(), n);
    } else {
        lemma_name_in_dir(prefix, n);
    }
}

/// A destination directory that starts with a `.` segment stands for a
/// prefix that is relative: it is empty, or starts with a segment that is
/// neither empty nor `.`, and it does not end in `/`.
pub proof fn lemma_normalize_is_relative(d: Seq<char>)
    requires
        has_cur_dir(d),
    ensures
        !has_root(normalize(d)),
        !has_cur_dir(normalize(d)),
        normalize(d).len() > 0 ==> normalize(d).last() != '/',
{
    let x = trim_start(d.subrange(1, d.len() as int));
    lemma_trim_start_shape(d.subrange(1, d.len() as int));
    lemma_trim_end_shape(x);
    let t = trim_end(x);
    if t.len() > 0 {
        assert(t[0] == x[0]);
        if t.len() > 1 {
            assert(t[1] == x[1]);
        }
    }
}

/// The directories `.`, `./` and the empty one all stand for the root of the
/// archive, the empty prefix.
pub proof fn lemma_root_prefixes()
    ensures
        normalize(seq!['.']) == Seq::<char>::empty(),
        normalize(seq!['.', '/']) == Seq::<char>::empty(),
        normalize(Seq::<char>::empty()) == Seq::<char>::empty(),
{
    let e = Seq::<char>::empty();
    assert(seq!['.'].subrange(1, 1) =~= e);
    let s = seq!['.', '/'].subrange(1, 2);
    assert(s =~= seq!['/']);
    assert(seq!['/'].drop_first() =~= e);
    assert(trim_start(e) == e);
    assert(trim_start(seq!['/']) == e);
    assert(trim_end(e) == e);
}

fn anchor(v: &Vec<char>) -> (a: usize)
    ensures
        a == anchor_len(v@),
        a <= v.len(),
{
    if v.len() > 0 && (v[0] == '/' || (v[0] == '.' && (v.len() == 1 || v[1] == '/'))) {
        1
    } else {
        0
    }
}

fn starts_with_cur_dir(v: &Vec<char>) -> (r: bool)
    ensures
        r == has_cur_dir(v@),
{
    v.len() > 0 && v[0] == '.' && (v.len() == 1 || v[1] == '/')
}

fn trim_end_at(v: &Vec<char>, lo: usize, hi: usize) -> (e: usize)
    requires
        lo <= hi <= v.len(),
    ensures
        lo <= e <= hi,
        v@.subrange(lo as int, e as int) == trim_end(v@.subrange(lo as int, hi as int)),
{
    let mut e = hi;
    loop
        invariant
            lo <= e <= hi <= v.len(),
            trim_end(v@.subrange(lo as int, e as int)) == trim_end(
                v@.subrange(lo as int, hi as int),
            ),
        ensures
            lo <= e <= hi,
            v@.subrange(lo as int, e as int) == trim_end(v@.subrange(lo as int, hi as int)),
        decreases e - lo,
    {
        let ghost b = v@.subrange(lo as int, e as int);
        if e == lo {
            break ;
        } else if v[e - 1] == '/' {
            assert(b.drop_last() =~= v@.subrange(lo as int, e - 1));
            e = e - 1;
        } else if v[e - 1] == '.' && e - 1 == lo {
            assert(trim_end(b) =~= v@.subrange(lo as int, lo as int));
            e = lo;
        } else if v[e - 1] == '.' && v[e - 2] == '/' {
            assert(b.subrange(0, b.len() - 2) =~= v@.subrange(lo as int, e - 2));
            e = e - 2;
        } else {
            break ;
        }
    }
    e
}

fn trim_start_at(v: &Vec<char>, lo: usize, hi: usize) -> (s: usize)
    requires
        lo <= hi <= v.len(),
    ensures
        lo <= s <= hi,
        v@.subrange(s as int, hi as int) == trim_start(v@.subrange(lo as int, hi as int)),
{
    let mut s = lo;
    loop
        invariant
            lo <= s <= hi <= v.len(),
            trim_start(v@.subrange(s as int, hi as int)) == trim_start(
                v@.subrange(lo as int, hi as int),
            ),
        ensures
            lo <= s <= hi,
            v@.subrange(s as int, hi as int) == trim_start(v@.subrange(lo as int, hi as int)),
        decreases hi - s,
    {
        let ghost b = v@.subrange(s as int, hi as int);
        if s == hi {
            break ;
        } else if v[s] == '/' {
            assert(b.drop_first() =~= v@.subrange(s + 1, hi as int));
            s = s + 1;
        } else if v[s] == '.' && s + 1 == hi {
            assert(trim_start(b) =~= v@.subrange(hi as int, hi as int));
            s = hi;
        } else if v[s] == '.' && v[s + 1] == '/' {
            assert(b.subrange(2, b.len() as int) =~= v@.subrange(s + 2, hi as int));
            s = s + 2;
        } else {
            break ;
        }
    }
    s
}

fn last_segment_start_at(v: &Vec<char>, lo: usize, hi: usize) -> (k: usize)
    requires
        lo <= hi <= v.len(),
    ensures
        lo <= k <= hi,
        k - lo == last_segment_start(v@.subrange(lo as int, hi as int)),
{
    let mut k = hi;
    while k > lo && v[k - 1] != '/'
        invariant
            lo <= k <= hi <= v.len(),
            last_segment_start(v@.subrange(lo as int, k as int)) == last_segment_start(
                v@.subrange(lo as int, hi as int),
            ),
        decreases k - lo,
    {
        assert(v@.subrange(lo as int, k as int).drop_last() =~= v@.subrange(lo as int, k - 1));
        k = k - 1;
    }
    k
}

/// The final name of `path`, if it has one.
pub fn final_name(path: &str) -> (r: Option<String>)
    ensures
        opt_view(r) == file_name(path@),
{
    let v = chars_of(path);
    let a = anchor(&v);
    let e = trim_end_at(&v, a, v.len());
    if e == a {
        return None;
    }
    let k = last_segment_start_at(&v, a, e);
    let ghost t = v@.subrange(a as int, e as int);
    assert(last_segment(t) =~= v@.subrange(k as int, e as int));
    if e - k == 2 && v[k] == '.' && v[k + 1] == '.' {
        None
    } else {
        Some(slice_of(path, k, e))
    }
}

/// The directory of `path`, if it has one.
pub fn parent_dir(path: &str) -> (r: Option<String>)
    ensures
        opt_view(r) == parent(path@),
{
    let v = chars_of(path);
    let a = anchor(&v);
    let e = trim_end_at(&v, a, v.len());
    if e == a {
        if starts_with_cur_dir(&v) {
            return Some(String::new());
        }
        return None;
    }
    let k = last_segment_start_at(&v, a, e);
    let q: usize = if k == a {
        a
    } else {
        k - 1
    };
    let e2 = trim_end_at(&v, a, q);
    let ghost t = v@.subrange(a as int, e as int);
    proof {
        let rest = if k == a {
            Seq::<char>::empty()
        } else {
            t.subrange(0, k - a - 1)
        };
        assert(rest =~= v@.subrange(a as int, q as int));
        assert(v@.subrange(0, a as int) + v@.subrange(a as int, e2 as int) =~= v@.subrange(
            0,
            e2 as int,
        ));
    }
    Some(slice_of(path, 0, e2))
}

/// The prefix inside the archive that the destination directory `dest_dir`
/// stands for.
pub fn archive_prefix(dest_dir: &str) -> (r: String)
    ensures
        r@ == normalize(dest_dir@),
{
    let v = chars_of(dest_dir);
    if !starts_with_cur_dir(&v) {
        return dest_dir.to_owned();
    }
    let s = trim_start_at(&v, 1, v.len());
    let e = trim_end_at(&v, s, v.len());
    slice_of(dest_dir, s, e)
}

/// `name` under `prefix`.
pub fn join_path(prefix: &str, name: &str) -> (r: String)
    ensures
        r@ == join(prefix@, name@),
{
    let pv = chars_of(prefix);
    let nv = chars_of(name);
    if nv.len() > 0 && nv[0] == '/' {
        return name.to_owned();
    }
    let mut out = prefix.to_owned();
    if pv.len() > 0 && pv[pv.len() - 1] != '/' {
        proof {
            reveal_strlit("/");
            assert("/"@ =~= seq!['/']);
        }
        out.append("/");
    }
    out.append(name);
    out
}

/// The path inside the archive of a file called `name` placed under
/// `dest_dir`.
pub fn place(dest_dir: &str, name: &str) -> (r: String)
    ensures
        r@ == archive_path(dest_dir@, name@),
{
    let prefix = archive_prefix(dest_dir);
    join_path(prefix.as_str(), name)
}

} // verus!
