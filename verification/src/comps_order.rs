//! The order of paths by components, the order of `PathBuf`s: a strict
//! total order, and strictly sorted sequences of paths in it.
use vstd::prelude::*;

use crate::multi_value::views;
use crate::order::{lemma_lex_asym, lemma_lex_irreflexive, lemma_lex_total, lemma_lex_transitive, lex_less, lex_lt, strictly_sorted};
use crate::paths::components_lt;
use crate::text::chars_eq;

verus! {

pub proof fn lemma_comps_irreflexive(a: Seq<Seq<char>>)
    ensures
        !components_lt(a, a),
    decreases a.len(),
{
    if a.len() > 0 {
        lemma_lex_irreflexive(a[0]);
        lemma_comps_irreflexive(a.drop_first());
    }
}

pub proof fn lemma_comps_transitive(a: Seq<Seq<char>>, b: Seq<Seq<char>>, c: Seq<Seq<char>>)
    requires
        components_lt(a, b),
        components_lt(b, c),
    ensures
        components_lt(a, c),
    decreases a.len(),
{
    if a.len() > 0 && b.len() > 0 && c.len() > 0 {
        if lex_lt(a[0], b[0]) {
            if lex_lt(b[0], c[0]) {
                lemma_lex_transitive(a[0], b[0], c[0]);
            }
        } else if a[0] == b[0] {
            if a[0] == c[0] {
                lemma_comps_transitive(a.drop_first(), b.drop_first(), c.drop_first());
            }
        }
    }
}

pub proof fn lemma_comps_total(a: Seq<Seq<char>>, b: Seq<Seq<char>>)
    ensures
        a == b || components_lt(a, b) || components_lt(b, a),
    decreases a.len(),
{
    if a.len() > 0 && b.len() > 0 {
        lemma_lex_total(a[0], b[0]);
        if a[0] == b[0] {
            lemma_comps_total(a.drop_first(), b.drop_first());
            if a.drop_first() == b.drop_first() {
                assert(a =~= seq![a[0]] + a.drop_first());
                assert(b =~= seq![b[0]] + b.drop_first());
            }
        }
    } else if a.len() == 0 && b.len() == 0 {
        assert(a =~= b);
    }
}

pub proof fn lemma_comps_asym(a: Seq<Seq<char>>, b: Seq<Seq<char>>)
    requires
        components_lt(a, b),
    ensures
        !components_lt(b, a),
        a != b,
{
    lemma_comps_irreflexive(a);
    if components_lt(b, a) {
        lemma_comps_transitive(a, b, a);
    }
}

/// Whether `a` is a leading part of `b`: `b` is `a` or lies under it.
pub open spec fn comps_prefix(a: Seq<Seq<char>>, b: Seq<Seq<char>>) -> bool {
    a.len() <= b.len() && b.take(a.len() as int) == a
}

/// A path comes before every path under it.
pub proof fn lemma_comps_before_child(a: Seq<Seq<char>>, n: Seq<char>)
    ensures
        components_lt(a, a.push(n)),
    decreases a.len(),
{
    if a.len() > 0 {
        lemma_lex_irreflexive(a[0]);
        assert(a.push(n).drop_first() =~= a.drop_first().push(n));
        lemma_comps_before_child(a.drop_first(), n);
    }
}

/// Siblings are in the order of their names.
pub proof fn lemma_comps_siblings(d: Seq<Seq<char>>, m: Seq<char>, n: Seq<char>)
    requires
        lex_lt(m, n),
    ensures
        components_lt(d.push(m), d.push(n)),
    decreases d.len(),
{
    if d.len() > 0 {
        lemma_lex_irreflexive(d[0]);
        assert(d.push(m).drop_first() =~= d.drop_first().push(m));
        assert(d.push(n).drop_first() =~= d.drop_first().push(n));
        lemma_comps_siblings(d.drop_first(), m, n);
    } else {
        assert(d.push(m) =~= seq![m]);
        assert(d.push(n) =~= seq![n]);
    }
}

/// What lies under `d` comes before any later path not under `d`.
pub proof fn lemma_comps_under_before(d: Seq<Seq<char>>, e: Seq<Seq<char>>, s: Seq<Seq<char>>)
    requires
        components_lt(d, s),
        !comps_prefix(d, s),
        comps_prefix(d, e),
    ensures
        components_lt(e, s),
    decreases d.len(),
{
    if d.len() == 0 {
        assert(s.take(0) =~= d);
    } else {
        assert(e[0] == d[0]);
        if !lex_lt(d[0], s[0]) {
            assert(d[0] == s[0]);
            assert(e.drop_first().take(d.drop_first().len() as int) =~= e.take(d.len() as int).drop_first());
            if comps_prefix(d.drop_first(), s.drop_first()) {
                assert(s.take(d.len() as int) =~= seq![s[0]] + s.drop_first().take(d.drop_first().len() as int));
                assert(d =~= seq![d[0]] + d.drop_first());
            }
            lemma_comps_under_before(d.drop_first(), e.drop_first(), s.drop_first());
        }
    }
}

/// Under a path not leading to `s`, nothing leads to `s` either.
pub proof fn lemma_comps_child_not_prefix(d: Seq<Seq<char>>, n: Seq<char>, s: Seq<Seq<char>>)
    requires
        !comps_prefix(d, s),
    ensures
        !comps_prefix(d.push(n), s),
{
    if comps_prefix(d.push(n), s) {
        assert(s.take(d.len() as int) =~= s.take(d.len() + 1int).take(d.len() as int));
        assert(d.push(n).take(d.len() as int) =~= d);
    }
}

/// Of two siblings, neither lies under the other.
pub proof fn lemma_comps_siblings_not_prefix(d: Seq<Seq<char>>, m: Seq<char>, n: Seq<char>)
    requires
        m != n,
    ensures
        !comps_prefix(d.push(m), d.push(n)),
{
    if comps_prefix(d.push(m), d.push(n)) {
        assert(d.push(n).take(d.len() + 1int) =~= d.push(n));
        assert(d.push(m)[d.len() as int] == d.push(n)[d.len() as int]);
    }
}

/// A depth-first stack of paths, the next one last: each path comes before
/// every path below it, and none lies under one below it.
pub open spec fn stack_ordered(s: Seq<Seq<Seq<char>>>) -> bool {
    &&& forall|i: int, j: int| 0 <= i < j < s.len() ==> components_lt(#[trigger] s[j], #[trigger] s[i])
    &&& forall|i: int, j: int| 0 <= i < j < s.len() ==> !comps_prefix(#[trigger] s[j], #[trigger] s[i])
}

/// Every path of `s` comes after `l`.
pub open spec fn all_after(l: Seq<Seq<char>>, s: Seq<Seq<Seq<char>>>) -> bool {
    forall|i: int| 0 <= i < s.len() ==> components_lt(l, #[trigger] s[i])
}

/// No path of `s` lies under `l`.
pub open spec fn none_under(l: Seq<Seq<char>>, s: Seq<Seq<Seq<char>>>) -> bool {
    forall|i: int| 0 <= i < s.len() ==> !comps_prefix(l, #[trigger] s[i])
}

/// Taking the next path off an ordered stack: the rest stays ordered and
/// comes after it, none of it under it.
pub proof fn lemma_stack_pop(s: Seq<Seq<Seq<char>>>)
    requires
        stack_ordered(s),
        s.len() > 0,
    ensures
        stack_ordered(s.drop_last()),
        all_after(s.last(), s.drop_last()),
        none_under(s.last(), s.drop_last()),
{
    let t = s.drop_last();
    assert forall|i: int| 0 <= i < t.len() implies components_lt(s.last(), #[trigger] t[i]) by {
        assert(components_lt(s[s.len() - 1], s[i]));
    }
    assert forall|i: int| 0 <= i < t.len() implies !comps_prefix(s.last(), #[trigger] t[i]) by {
        assert(!comps_prefix(s[s.len() - 1], s[i]));
    }
    assert forall|i: int, j: int| 0 <= i < j < t.len() implies components_lt(#[trigger] t[j], #[trigger] t[i]) by {
        assert(components_lt(s[j], s[i]));
    }
    assert forall|i: int, j: int| 0 <= i < j < t.len() implies !comps_prefix(#[trigger] t[j], #[trigger] t[i]) by {
        assert(!comps_prefix(s[j], s[i]));
    }
}

/// Pushing the children of the path just taken, the first by name on top,
/// keeps the stack ordered and after that path.
pub proof fn lemma_stack_push_children(s: Seq<Seq<Seq<char>>>, d: Seq<Seq<char>>, names: Seq<Seq<char>>)
    requires
        stack_ordered(s),
        all_after(d, s),
        none_under(d, s),
        strictly_sorted(names),
    ensures
        stack_ordered(s + names.reverse().map_values(|n: Seq<char>| d.push(n))),
        all_after(d, s + names.reverse().map_values(|n: Seq<char>| d.push(n))),
{
    let t = names.reverse().map_values(|n: Seq<char>| d.push(n));
    let u = s + t;
    let m = names.len();
    assert forall|k: int| 0 <= k < t.len() implies #[trigger] t[k] == d.push(names[m - 1 - k]) && comps_prefix(d, t[k]) by {
        assert(d.push(names[m - 1 - k]).take(d.len() as int) =~= d);
    }
    assert forall|i: int, j: int| 0 <= i < j < u.len() implies components_lt(#[trigger] u[j], #[trigger] u[i])
        && !comps_prefix(u[j], u[i]) by {
        if j < s.len() {
            assert(u[i] == s[i] && u[j] == s[j]);
        } else if i < s.len() {
            let k = j - s.len();
            assert(u[j] == t[k]);
            assert(u[i] == s[i]);
            lemma_comps_under_before(d, t[k], s[i]);
            lemma_comps_child_not_prefix(d, names[m - 1 - k], s[i]);
        } else {
            let a = i - s.len();
            let b = j - s.len();
            assert(u[i] == t[a] && u[j] == t[b]);
            assert(lex_lt(names[m - 1 - b], names[m - 1 - a]));
            lemma_comps_siblings(d, names[m - 1 - b], names[m - 1 - a]);
            lemma_lex_irreflexive(names[m - 1 - a]);
            lemma_comps_siblings_not_prefix(d, names[m - 1 - b], names[m - 1 - a]);
        }
    }
    assert forall|i: int| 0 <= i < u.len() implies components_lt(d, #[trigger] u[i]) by {
        if i < s.len() {
            assert(u[i] == s[i]);
        } else {
            assert(u[i] == t[i - s.len()]);
            lemma_comps_before_child(d, names[m - 1 - (i - s.len())]);
        }
    }
}

/// `a < b` by components, on component vectors.
pub fn components_less(a: &Vec<Vec<char>>, b: &Vec<Vec<char>>) -> (r: bool)
    ensures
        r == components_lt(views(a@), views(b@)),
{
    let mut i: usize = 0;
    proof {
        assert(views(a@).skip(0) =~= views(a@));
        assert(views(b@).skip(0) =~= views(b@));
    }
    while i < a.len() && i < b.len()
        invariant
            i <= a.len(),
            i <= b.len(),
            components_lt(views(a@), views(b@)) == components_lt(views(a@).skip(i as int), views(b@).skip(i as int)),
        decreases a.len() - i,
    {
        let ghost sa = views(a@).skip(i as int);
        let ghost sb = views(b@).skip(i as int);
        proof {
            assert(sa[0] == a@[i as int]@);
            assert(sb[0] == b@[i as int]@);
        }
        if lex_less(&a[i], &b[i]) {
            return true;
        }
        if !chars_eq(&a[i], &b[i]) {
            return false;
        }
        proof {
            assert(sa.drop_first() =~= views(a@).skip(i + 1));
            assert(sb.drop_first() =~= views(b@).skip(i + 1));
        }
        i = i + 1;
    }
    proof {
        assert(views(a@).skip(i as int).len() == a.len() - i);
        assert(views(b@).skip(i as int).len() == b.len() - i);
    }
    i < b.len()
}

/// Strictly increasing by components.
pub open spec fn comps_sorted(s: Seq<Seq<Seq<char>>>) -> bool {
    forall|i: int, j: int| 0 <= i < j < s.len() ==> components_lt(#[trigger] s[i], #[trigger] s[j])
}

/// A strictly sorted sequence of paths holds as many paths as its set.
pub proof fn lemma_comps_sorted_distinct(s: Seq<Seq<Seq<char>>>)
    requires
        comps_sorted(s),
    ensures
        s.to_set().len() == s.len(),
{
    assert forall|i: int, j: int| 0 <= i < s.len() && 0 <= j < s.len() && i != j implies s[i] != s[j] by {
        if i < j {
            lemma_comps_asym(s[i], s[j]);
        } else {
            lemma_comps_asym(s[j], s[i]);
        }
    }
    s.unique_seq_to_set();
}

/// Two strictly sorted sequences of paths with the same elements are the
/// same.
pub proof fn lemma_comps_sorted_unique(a: Seq<Seq<Seq<char>>>, b: Seq<Seq<Seq<char>>>)
    requires
        comps_sorted(a),
        comps_sorted(b),
        a.to_set() == b.to_set(),
    ensures
        a == b,
    decreases a.len(),
{
    if a.len() == 0 {
        if b.len() > 0 {
            assert(b.to_set().contains(b[0]));
        }
        assert(a =~= b);
    } else {
        assert(a.to_set().contains(a[0]));
        if b.len() == 0 {
            assert(false);
        }
        assert(b.to_set().contains(a[0]));
        let ia = choose|k: int| 0 <= k < b.len() && b[k] == a[0];
        assert(a.to_set().contains(b[0]));
        let ib = choose|k: int| 0 <= k < a.len() && a[k] == b[0];
        if a[0] != b[0] {
            assert(components_lt(b[0], b[ia]));
            assert(components_lt(a[0], a[ib]));
            lemma_comps_asym(a[0], b[0]);
        }
        let a1 = a.drop_first();
        let b1 = b.drop_first();
        assert forall|x: Seq<Seq<char>>| a1.to_set().contains(x) implies b1.to_set().contains(x) by {
            let k = choose|k: int| 0 <= k < a1.len() && a1[k] == x;
            assert(a.to_set().contains(x));
            let m = choose|m: int| 0 <= m < b.len() && b[m] == x;
            assert(components_lt(a[0], a[k + 1]));
            lemma_comps_irreflexive(x);
            assert(m != 0);
            assert(b1[m - 1] == x);
        }
        assert forall|x: Seq<Seq<char>>| b1.to_set().contains(x) implies a1.to_set().contains(x) by {
            let k = choose|k: int| 0 <= k < b1.len() && b1[k] == x;
            assert(b.to_set().contains(x));
            let m = choose|m: int| 0 <= m < a.len() && a[m] == x;
            assert(components_lt(b[0], b[k + 1]));
            lemma_comps_irreflexive(x);
            assert(m != 0);
            assert(a1[m - 1] == x);
        }
        assert(a1.to_set() =~= b1.to_set());
        lemma_comps_sorted_unique(a1, b1);
        assert(a =~= seq![a[0]] + a1);
        assert(b =~= seq![b[0]] + b1);
    }
}

/// The paths of `s` in increasing order, each once.
pub open spec fn sorted_paths(s: Set<Seq<Seq<char>>>) -> Seq<Seq<Seq<char>>> {
    choose|r: Seq<Seq<Seq<char>>>| comps_sorted(r) && r.to_set() == s
}

pub proof fn lemma_sorted_paths(r: Seq<Seq<Seq<char>>>)
    requires
        comps_sorted(r),
    ensures
        sorted_paths(r.to_set()) == r,
{
    let s = r.to_set();
    assert(comps_sorted(r) && r.to_set() == s);
    let c = sorted_paths(s);
    lemma_comps_sorted_unique(c, r);
}

pub open spec fn comp_views(v: Seq<Vec<Vec<char>>>) -> Seq<Seq<Seq<char>>> {
    v.map_values(|e: Vec<Vec<char>>| views(e@))
}

/// Insert `x` into a strictly sorted vector of paths unless it is already
/// there.
pub fn insert_sorted_path(v: &mut Vec<Vec<Vec<char>>>, x: Vec<Vec<char>>)
    requires
        comps_sorted(comp_views(old(v)@)),
    ensures
        comps_sorted(comp_views(final(v)@)),
        comp_views(final(v)@).to_set() == comp_views(old(v)@).to_set().insert(views(x@)),
{
    let ghost before = comp_views(v@);
    let ghost xv = views(x@);
    let mut i: usize = 0;
    while i < v.len() && components_less(&v[i], &x)
        invariant
            i <= v.len(),
            comp_views(v@) == before,
            comps_sorted(before),
            xv == views(x@),
            forall|k: int| 0 <= k < i ==> components_lt(#[trigger] before[k], xv),
        decreases v.len() - i,
    {
        i = i + 1;
    }
    if i < v.len() && !components_less(&x, &v[i]) {
        proof {
            lemma_comps_total(xv, before[i as int]);
            assert(before.to_set().contains(before[i as int]));
            assert(before.to_set().insert(xv) =~= before.to_set());
        }
        return;
    }
    v.insert(i, x);
    proof {
        let after = comp_views(v@);
        assert(after =~= before.insert(i as int, xv));
        assert forall|p: int, q: int| 0 <= p < q < after.len() implies components_lt(
            #[trigger] after[p],
            #[trigger] after[q],
        ) by {
            if q < i {
                assert(after[p] == before[p] && after[q] == before[q]);
            } else if q == i {
                assert(after[p] == before[p]);
            } else if p == i {
                assert(after[q] == before[q - 1]);
                if q - 1 > i {
                    assert(components_lt(before[i as int], before[q - 1]));
                    lemma_comps_transitive(xv, before[i as int], before[q - 1]);
                }
            } else if p < i {
                assert(after[p] == before[p] && after[q] == before[q - 1]);
            } else {
                assert(after[p] == before[p - 1] && after[q] == before[q - 1]);
            }
        }
        assert forall|y: Seq<Seq<char>>| after.to_set().contains(y) <==> before.to_set().insert(xv).contains(y) by {
            if after.to_set().contains(y) {
                let k = choose|k: int| 0 <= k < after.len() && after[k] == y;
                if k < i {
                    assert(before[k] == y);
                } else if k > i {
                    assert(before[k - 1] == y);
                }
            }
            if before.to_set().contains(y) {
                let k = choose|k: int| 0 <= k < before.len() && before[k] == y;
                if k < i {
                    assert(after[k] == y);
                } else {
                    assert(after[k + 1] == y);
                }
            }
            if y == xv {
                assert(after[i as int] == y);
            }
        }
        assert(after.to_set() =~= before.to_set().insert(xv));
    }
}

} // verus!
