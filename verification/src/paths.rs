//! Paths as `/`-separated text, compared the way `std::path::Path` compares
//! them: by components, so repeated separators and `.` segments do not
//! count.
use vstd::prelude::*;

use crate::multi_value::{lemma_split_parts_concat, lemma_split_parts_nonempty, split_parts, split_pieces, views};
use crate::order::lex_lt;
use crate::text::{chars_eq, chars_of, find_char, slice_chars, string_from_chars};

verus! {

/// A segment that names nothing: empty or `.`.
pub open spec fn is_blank_segment(p: Seq<char>) -> bool {
    p.len() == 0 || p == seq!['.']
}

/// The components of a path: `/` for the root, `.` only when the path
/// starts with it, then the named segments.
pub open spec fn components(s: Seq<char>) -> Seq<Seq<char>> {
    let ps = split_parts(s, '/');
    let head: Seq<Seq<char>> = if ps[0].len() == 0 {
        if s.len() > 0 {
            seq![seq!['/']]
        } else {
            Seq::empty()
        }
    } else {
        seq![ps[0]]
    };
    head + ps.skip(1).filter(|p: Seq<char>| !is_blank_segment(p))
}

/// A name a directory listing can hold: not empty, not `.`, and without
/// a separator.
pub open spec fn is_entry_name(n: Seq<char>) -> bool {
    &&& n.len() > 0
    &&& n != seq!['.']
    &&& !n.contains('/')
}

/// Text without a separator splits into itself.
proof fn lemma_split_parts_plain(t: Seq<char>)
    requires
        !t.contains('/'),
    ensures
        split_parts(t, '/') == seq![t],
    decreases t.len(),
{
    if t.len() > 0 {
        assert(!t.drop_last().contains('/')) by {
            if t.drop_last().contains('/') {
                let k = choose|k: int| 0 <= k < t.drop_last().len() && t.drop_last()[k] == '/';
                assert(t[k] == '/');
            }
        }
        lemma_split_parts_plain(t.drop_last());
        assert(t.last() != '/') by {
            assert(t[t.len() - 1] == t.last());
        }
        assert(t.drop_last().push(t.last()) =~= t);
        assert(split_parts(t, '/') =~= seq![t]);
    } else {
        assert(t =~= Seq::<char>::empty());
        assert(split_parts(t, '/') =~= seq![t]);
    }
}

/// No piece of a split holds the separator.
proof fn lemma_split_parts_no_sep(s: Seq<char>)
    ensures
        forall|j: int| 0 <= j < split_parts(s, '/').len() ==> !(#[trigger] split_parts(s, '/')[j]).contains('/'),
    decreases s.len(),
{
    if s.len() > 0 {
        let p = split_parts(s.drop_last(), '/');
        lemma_split_parts_no_sep(s.drop_last());
        lemma_split_parts_nonempty(s.drop_last(), '/');
        let q = split_parts(s, '/');
        if s.last() == '/' {
            assert forall|j: int| 0 <= j < q.len() implies !(#[trigger] q[j]).contains('/') by {
                if j < p.len() {
                    assert(q[j] == p[j]);
                } else {
                    assert(q[j] =~= Seq::<char>::empty());
                }
            }
        } else {
            assert forall|j: int| 0 <= j < q.len() implies !(#[trigger] q[j]).contains('/') by {
                if j < p.len() - 1 {
                    assert(q[j] == p[j]);
                } else {
                    let last = p[p.len() - 1];
                    assert(q[j] == last.push(s.last()));
                    if q[j].contains('/') {
                        let k = choose|k: int| 0 <= k < q[j].len() && q[j][k] == '/';
                        if k < last.len() {
                            assert(last[k] == '/');
                            assert(last.contains('/'));
                        }
                    }
                }
            }
        }
    } else {
        assert forall|j: int| 0 <= j < split_parts(s, '/').len() implies !(#[trigger] split_parts(s, '/')[j]).contains('/') by {
            assert(split_parts(s, '/')[j] =~= Seq::<char>::empty());
        }
    }
}

/// A path that is not empty has components, and only the first of them can
/// be the file-system root `/`.
pub proof fn lemma_components_shape(s: Seq<char>)
    ensures
        s.len() > 0 ==> components(s).len() > 0,
        forall|i: int| 1 <= i < components(s).len() ==> (#[trigger] components(s)[i]) != seq!['/'],
{
    let ps = split_parts(s, '/');
    lemma_split_parts_nonempty(s, '/');
    lemma_split_parts_no_sep(s);
    let keep = |p: Seq<char>| !is_blank_segment(p);
    let tail = ps.skip(1).filter(keep);
    let c = components(s);
    let head: Seq<Seq<char>> = if ps[0].len() == 0 {
        if s.len() > 0 {
            seq![seq!['/']]
        } else {
            Seq::empty()
        }
    } else {
        seq![ps[0]]
    };
    assert(c == head + tail);
    assert forall|i: int| 1 <= i < c.len() implies (#[trigger] c[i]) != seq!['/'] by {
        assert(seq!['/'].contains('/')) by {
            assert(seq!['/'][0] == '/');
        }
        if i >= head.len() {
            let t = i - head.len();
            assert(c[i] == tail[t]);
            assert(tail.contains(tail[t]));
            ps.skip(1).lemma_filter_contains_rev(keep, tail[t]);
            let j = choose|j: int| 0 <= j < ps.skip(1).len() && ps.skip(1)[j] == tail[t];
            assert(ps.skip(1)[j] == ps[j + 1]);
            assert(!ps[j + 1].contains('/'));
        }
    }
}

/// Joining an entry name onto a directory adds one component.
pub proof fn lemma_join_components(dir: Seq<char>, n: Seq<char>)
    requires
        is_entry_name(n),
    ensures
        components(crate::sidecar::join_of(dir, n)) == components(dir).push(n),
{
    let nonblank = |p: Seq<char>| !is_blank_segment(p);
    lemma_split_parts_plain(n);
    assert(n[0] != '/') by {
        assert(!n.contains('/'));
        if n[0] == '/' {
            assert(n.contains(n[0]));
        }
    }
    assert(!is_blank_segment(n));
    if dir.len() == 0 {
        assert(crate::sidecar::join_of(dir, n) == n);
        assert(split_parts(dir, '/') =~= seq![Seq::<char>::empty()]);
        assert(components(dir) =~= Seq::<Seq<char>>::empty());
        assert(seq![n].skip(1) =~= Seq::<Seq<char>>::empty());
        assert(Seq::<Seq<char>>::empty().filter(nonblank) =~= Seq::<Seq<char>>::empty());
        assert(components(n) =~= seq![n]);
    } else if dir.last() == '/' {
        let d2 = dir.drop_last();
        assert(d2 + seq!['/'] + Seq::<char>::empty() =~= dir);
        assert(d2 + seq!['/'] + n =~= dir + n);
        assert(crate::sidecar::join_of(dir, n) == dir + n);
        lemma_split_parts_concat(d2, Seq::<char>::empty(), '/');
        lemma_split_parts_concat(d2, n, '/');
        lemma_split_parts_nonempty(d2, '/');
        lemma_split_parts_plain(Seq::<char>::empty());
        let q = split_parts(d2, '/');
        assert(split_parts(dir, '/') == q + seq![Seq::<char>::empty()]);
        assert(split_parts(dir + n, '/') == q + seq![n]);
        assert((q + seq![Seq::<char>::empty()]).skip(1) =~= q.skip(1).push(Seq::<char>::empty()));
        assert((q + seq![n]).skip(1) =~= q.skip(1).push(n));
        q.skip(1).lemma_filter_push(Seq::<char>::empty(), nonblank);
        q.skip(1).lemma_filter_push(n, nonblank);
        assert((q + seq![Seq::<char>::empty()])[0] == q[0]);
        assert((q + seq![n])[0] == q[0]);
        assert(components(dir + n) =~= components(dir).push(n));
    } else {
        assert(crate::sidecar::join_of(dir, n) == dir + seq!['/'] + n);
        lemma_split_parts_concat(dir, n, '/');
        lemma_split_parts_nonempty(dir, '/');
        let p = split_parts(dir, '/');
        assert(split_parts(dir + seq!['/'] + n, '/') == p + seq![n]);
        assert((p + seq![n]).skip(1) =~= p.skip(1).push(n));
        p.skip(1).lemma_filter_push(n, nonblank);
        assert((p + seq![n])[0] == p[0]);
        assert(components(dir + seq!['/'] + n) =~= components(dir).push(n));
    }
}

/// Whether two paths are the same path.
pub open spec fn same_path(a: Seq<char>, b: Seq<char>) -> bool {
    components(a) == components(b)
}

/// Whether `base` is a component-wise prefix of `path`.
pub open spec fn path_starts_with(path: Seq<char>, base: Seq<char>) -> bool {
    let c = components(path);
    let b = components(base);
    b.len() <= c.len() && c.take(b.len() as int) == b
}

/// Whether `dir` is the parent of `path`: `path` ends in a named component
/// and the rest of it is `dir`.
pub open spec fn is_parent(dir: Seq<char>, path: Seq<char>) -> bool {
    let c = components(path);
    c.len() > 0 && c.last() != seq!['/'] && c.drop_last() == components(dir)
}

/// The last component when it is a name (not the root, `.` or `..`).
pub open spec fn file_name_of(path: Seq<char>) -> Option<Seq<char>> {
    let c = components(path);
    if c.len() > 0 && c.last() != seq!['/'] && c.last() != seq!['.'] && c.last() != seq!['.', '.'] {
        Some(c.last())
    } else {
        None
    }
}

/// The index of the last `.` in `s`, if any.
pub open spec fn last_dot(s: Seq<char>) -> Option<int> {
    if exists|i: int| 0 <= i < s.len() && s[i] == '.' {
        Some(choose|i: int| 0 <= i < s.len() && s[i] == '.' && forall|k: int| i < k < s.len() ==> s[k] != '.')
    } else {
        None
    }
}

/// A file name without its extension: everything before the last `.`,
/// unless that dot starts the name.
pub open spec fn stem_of_name(name: Seq<char>) -> Seq<char> {
    match last_dot(name) {
        Some(i) if i > 0 => name.take(i),
        _ => name,
    }
}

/// A file name's extension: what follows the last `.`, unless that dot
/// starts the name.
pub open spec fn extension_of_name(name: Seq<char>) -> Option<Seq<char>> {
    match last_dot(name) {
        Some(i) if i > 0 => Some(name.skip(i + 1)),
        _ => None,
    }
}

pub proof fn lemma_last_dot(s: Seq<char>, i: int)
    requires
        0 <= i < s.len(),
        s[i] == '.',
        forall|k: int| i < k < s.len() ==> s[k] != '.',
    ensures
        last_dot(s) == Some(i),
{
    let j = choose|j: int| 0 <= j < s.len() && s[j] == '.' && forall|k: int| j < k < s.len() ==> s[k] != '.';
    if j < i {
        assert(s[i] != '.');
    }
    if i < j {
        assert(s[j] != '.');
    }
}

/// The components of `s`.
pub fn path_components(s: &Vec<char>) -> (out: Vec<Vec<char>>)
    ensures
        views(out@) == components(s@),
{
    let ps = split_pieces(s, '/');
    proof {
        crate::multi_value::lemma_split_parts_nonempty(s@, '/');
    }
    let ghost pv = views(ps@);
    let mut out: Vec<Vec<char>> = Vec::new();
    let ghost head: Seq<Seq<char>>;
    proof {
        assert(pv[0] == ps@[0]@);
    }
    if ps[0].len() == 0 {
        if s.len() > 0 {
            let root = vec!['/'];
            proof {
                assert(root@ =~= seq!['/']);
            }
            out.push(root);
            proof {
                assert(views(out@) =~= seq![seq!['/']]);
            }
        } else {
            proof {
                assert(views(out@) =~= Seq::<Seq<char>>::empty());
            }
        }
    } else {
        let first = slice_chars(&ps[0], 0, ps[0].len());
        proof {
            assert(first@ =~= ps@[0]@);
        }
        out.push(first);
        proof {
            assert(views(out@) =~= seq![pv[0]]);
        }
    }
    proof {
        head = if pv[0].len() == 0 {
            if s.len() > 0 {
                seq![seq!['/']]
            } else {
                Seq::empty()
            }
        } else {
            seq![pv[0]]
        };
        assert(views(out@) =~= head);
        assert(pv.skip(1).take(0) =~= Seq::<Seq<char>>::empty());
        assert(head + Seq::<Seq<char>>::empty().filter(|p: Seq<char>| !is_blank_segment(p)) =~= head);
    }
    let mut i: usize = 1;
    while i < ps.len()
        invariant
            1 <= i <= ps.len(),
            pv == views(ps@),
            views(out@) == head + pv.skip(1).take(i - 1).filter(|p: Seq<char>| !is_blank_segment(p)),
        decreases ps.len() - i,
    {
        let p = &ps[i];
        proof {
            assert(pv[i as int] == p@);
            assert(pv.skip(1).take(i as int) =~= pv.skip(1).take(i - 1).push(p@));
            pv.skip(1).take(i - 1).lemma_filter_push(p@, |q: Seq<char>| !is_blank_segment(q));
        }
        let blank = p.len() == 0 || (p.len() == 1 && p[0] == '.');
        proof {
            if p.len() == 1 && p@[0] == '.' {
                assert(p@ =~= seq!['.']);
            }
            if p@ == seq!['.'] {
                assert(p.len() == 1 && p@[0] == '.');
            }
        }
        if !blank {
            let ghost before = views(out@);
            out.push(slice_chars(p, 0, p.len()));
            proof {
                assert(p@.subrange(0, p.len() as int) =~= p@);
                assert(views(out@) =~= before.push(p@));
            }
        }
        i = i + 1;
    }
    proof {
        assert(pv.skip(1).take(ps.len() - 1) =~= pv.skip(1));
    }
    out
}

fn comps_eq(a: &Vec<Vec<char>>, b: &Vec<Vec<char>>) -> (r: bool)
    ensures
        r == (views(a@) == views(b@)),
{
    if a.len() != b.len() {
        proof {
            assert(views(a@).len() != views(b@).len());
        }
        return false;
    }
    let mut i: usize = 0;
    while i < a.len()
        invariant
            a.len() == b.len(),
            i <= a.len(),
            forall|k: int| 0 <= k < i ==> a@[k]@ == b@[k]@,
        decreases a.len() - i,
    {
        if !chars_eq(&a[i], &b[i]) {
            proof {
                assert(views(a@)[i as int] != views(b@)[i as int]);
            }
            return false;
        }
        i = i + 1;
    }
    proof {
        assert(views(a@) =~= views(b@));
    }
    true
}

/// Whether `a` and `b` name the same path.
pub fn paths_equal(a: &str, b: &str) -> (r: bool)
    ensures
        r == same_path(a@, b@),
{
    let ca = path_components(&chars_of(a));
    let cb = path_components(&chars_of(b));
    comps_eq(&ca, &cb)
}

/// Whether `path` starts with `base`, component-wise.
pub fn starts_with_path(path: &str, base: &str) -> (r: bool)
    ensures
        r == path_starts_with(path@, base@),
{
    let c = path_components(&chars_of(path));
    let b = path_components(&chars_of(base));
    if b.len() > c.len() {
        proof {
            assert(views(b@).len() > views(c@).len());
        }
        return false;
    }
    let mut i: usize = 0;
    while i < b.len()
        invariant
            b.len() <= c.len(),
            views(c@) == components(path@),
            views(b@) == components(base@),
            i <= b.len(),
            forall|k: int| 0 <= k < i ==> c@[k]@ == b@[k]@,
        decreases b.len() - i,
    {
        if !chars_eq(&c[i], &b[i]) {
            proof {
                assert(views(c@).take(b.len() as int)[i as int] == c@[i as int]@);
                assert(views(b@)[i as int] == b@[i as int]@);
                assert(views(c@).take(b.len() as int)[i as int] != views(b@)[i as int]);
            }
            return false;
        }
        i = i + 1;
    }
    proof {
        assert(views(c@).take(b.len() as int) =~= views(b@));
    }
    true
}

/// Whether `dir` is the parent directory of `path`.
pub fn parent_is(dir: &str, path: &str) -> (r: bool)
    ensures
        r == is_parent(dir@, path@),
{
    let mut c = path_components(&chars_of(path));
    let d = path_components(&chars_of(dir));
    if c.len() == 0 {
        return false;
    }
    let root = vec!['/'];
    let last_is_root = chars_eq(&c[c.len() - 1], &root);
    proof {
        assert(root@ =~= seq!['/']);
        assert(views(c@).last() == c@[c.len() - 1]@);
    }
    if last_is_root {
        return false;
    }
    let ghost before = views(c@);
    c.pop();
    proof {
        assert(views(c@) =~= before.drop_last());
    }
    comps_eq(&c, &d)
}

/// The file name of `path`: its last component when that is a name.
pub fn file_name(path: &Vec<char>) -> (r: Option<Vec<char>>)
    ensures
        r matches Some(n) ==> file_name_of(path@) == Some(n@),
        r is None ==> file_name_of(path@) is None,
{
    let c = path_components(path);
    if c.len() == 0 {
        return None;
    }
    let last = &c[c.len() - 1];
    proof {
        assert(views(c@).last() == last@);
    }
    let root = vec!['/'];
    let dot = vec!['.'];
    let dotdot = vec!['.', '.'];
    proof {
        assert(root@ =~= seq!['/']);
        assert(dot@ =~= seq!['.']);
        assert(dotdot@ =~= seq!['.', '.']);
    }
    if chars_eq(last, &root) || chars_eq(last, &dot) || chars_eq(last, &dotdot) {
        return None;
    }
    Some(slice_chars(last, 0, last.len()))
}

fn find_last_dot(name: &Vec<char>) -> (r: Option<usize>)
    ensures
        r matches Some(i) ==> last_dot(name@) == Some(i as int) && i < name.len(),
        r is None ==> last_dot(name@) is None,
{
    let mut i = name.len();
    while i > 0
        invariant
            i <= name.len(),
            forall|k: int| i <= k < name.len() ==> name@[k] != '.',
        decreases i,
    {
        if name[i - 1] == '.' {
            proof {
                lemma_last_dot(name@, i - 1);
            }
            return Some(i - 1);
        }
        i = i - 1;
    }
    None
}

/// A file name's stem.
pub fn stem(name: &Vec<char>) -> (r: Vec<char>)
    ensures
        r@ == stem_of_name(name@),
{
    match find_last_dot(name) {
        Some(i) if i > 0 => slice_chars(name, 0, i),
        _ => slice_chars(name, 0, name.len()),
    }
}

/// A file name's extension.
pub fn extension(name: &Vec<char>) -> (r: Option<Vec<char>>)
    ensures
        r matches Some(e) ==> extension_of_name(name@) == Some(e@),
        r is None ==> extension_of_name(name@) is None,
{
    match find_last_dot(name) {
        Some(i) if i > 0 => {
            let e = slice_chars(name, i + 1, name.len());
            proof {
                assert(e@ =~= name@.skip(i + 1));
            }
            Some(e)
        },
        _ => None,
    }
}

/// Component-wise order, the order a walk visits siblings in.
pub open spec fn components_lt(a: Seq<Seq<char>>, b: Seq<Seq<char>>) -> bool
    decreases a.len(),
{
    if a.len() == 0 {
        b.len() > 0
    } else if b.len() == 0 {
        false
    } else if lex_lt(a[0], b[0]) {
        true
    } else if a[0] == b[0] {
        components_lt(a.drop_first(), b.drop_first())
    } else {
        false
    }
}

} // verus!
