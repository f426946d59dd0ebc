//! Multi-value tag splitting.
//!
//! The semicolon is the only delimiter. Nothing here splits on "feat.",
//! "&", "vs." or commas: "Earth, Wind & Fire" is one artist.
use vstd::prelude::*;

use crate::order::join;
use crate::text::{chars_eq, chars_of, string_from_chars, trim, trim_chars};

verus! {

/// The views of a vector of character vectors.
pub open spec fn views(v: Seq<Vec<char>>) -> Seq<Seq<char>> {
    v.map_values(|e: Vec<char>| e@)
}

/// The views of a vector of strings.
pub open spec fn string_views(v: Seq<String>) -> Seq<Seq<char>> {
    v.map_values(|e: String| e@)
}

/// The pieces `str::split(sep)` yields: what lies between separators,
/// including empty pieces; one (empty) piece for an empty string.
pub open spec fn split_parts(s: Seq<char>, sep: char) -> Seq<Seq<char>>
    decreases s.len(),
{
    if s.len() == 0 {
        seq![Seq::empty()]
    } else {
        let p = split_parts(s.drop_last(), sep);
        if s.last() == sep {
            p.push(Seq::empty())
        } else {
            p.update(p.len() - 1, p.last().push(s.last()))
        }
    }
}

pub proof fn lemma_split_parts_nonempty(s: Seq<char>, sep: char)
    ensures
        split_parts(s, sep).len() > 0,
    decreases s.len(),
{
    if s.len() > 0 {
        lemma_split_parts_nonempty(s.drop_last(), sep);
    }
}

/// Splitting `a`, a separator, then `b` gives the pieces of `a` followed by
/// the pieces of `b`.
pub proof fn lemma_split_parts_concat(a: Seq<char>, b: Seq<char>, sep: char)
    ensures
        split_parts(a + seq![sep] + b, sep) == split_parts(a, sep) + split_parts(b, sep),
    decreases b.len(),
{
    lemma_split_parts_nonempty(a, sep);
    if b.len() == 0 {
        assert((a + seq![sep] + b).drop_last() =~= a);
        assert(split_parts(a + seq![sep] + b, sep) =~= split_parts(a, sep) + split_parts(b, sep));
    } else {
        lemma_split_parts_concat(a, b.drop_last(), sep);
        lemma_split_parts_nonempty(b.drop_last(), sep);
        assert((a + seq![sep] + b).drop_last() =~= a + seq![sep] + b.drop_last());
        let pa = split_parts(a, sep);
        let pb = split_parts(b.drop_last(), sep);
        if b.last() == sep {
            assert((pa + pb).push(Seq::empty()) =~= pa + pb.push(Seq::empty()));
        } else {
            assert((pa + pb).update((pa + pb).len() - 1, (pa + pb).last().push(b.last())) =~= pa
                + pb.update(pb.len() - 1, pb.last().push(b.last())));
        }
    }
}

/// One step of the clean-up: a trimmed piece is kept when it is non-empty
/// and not already kept.
pub open spec fn keep_step(out: Seq<Seq<char>>, piece: Seq<char>) -> Seq<Seq<char>> {
    let t = trim(piece);
    if t.len() == 0 || out.contains(t) {
        out
    } else {
        out.push(t)
    }
}

/// The pieces trimmed, empties dropped, repeats dropped, appended to `out`
/// in order.
pub open spec fn clean_from(out: Seq<Seq<char>>, ps: Seq<Seq<char>>) -> Seq<Seq<char>>
    decreases ps.len(),
{
    if ps.len() == 0 {
        out
    } else {
        keep_step(clean_from(out, ps.drop_last()), ps.last())
    }
}

/// The values of a raw tag value: its `;`-separated pieces, trimmed, empties
/// and exact repeats dropped, order kept.
pub open spec fn split_values(raw: Seq<char>) -> Seq<Seq<char>> {
    clean_from(Seq::empty(), split_parts(raw, ';'))
}

/// `values` appended to `out`, skipping those already present.
pub open spec fn merge(out: Seq<Seq<char>>, values: Seq<Seq<char>>) -> Seq<Seq<char>>
    decreases values.len(),
{
    if values.len() == 0 {
        out
    } else {
        let m = merge(out, values.drop_last());
        if m.contains(values.last()) {
            m
        } else {
            m.push(values.last())
        }
    }
}

/// The values of several raw tag values, merged in order.
pub open spec fn split_all_values(raws: Seq<Seq<char>>) -> Seq<Seq<char>>
    decreases raws.len(),
{
    if raws.len() == 0 {
        Seq::empty()
    } else {
        merge(split_all_values(raws.drop_last()), split_values(raws.last()))
    }
}

pub proof fn lemma_clean_from_concat(o: Seq<Seq<char>>, a: Seq<Seq<char>>, b: Seq<Seq<char>>)
    ensures
        clean_from(o, a + b) == clean_from(clean_from(o, a), b),
    decreases b.len(),
{
    if b.len() == 0 {
        assert(a + b =~= a);
    } else {
        lemma_clean_from_concat(o, a, b.drop_last());
        assert((a + b).drop_last() =~= a + b.drop_last());
    }
}

pub proof fn lemma_merge_contains(o: Seq<Seq<char>>, v: Seq<Seq<char>>, x: Seq<char>)
    ensures
        (o.contains(x) || v.contains(x)) ==> merge(o, v).contains(x),
    decreases v.len(),
{
    if v.len() > 0 {
        lemma_merge_contains(o, v.drop_last(), x);
        if v.contains(x) && x != v.last() {
            let k = choose|k: int| 0 <= k < v.len() && v[k] == x;
            assert(v.drop_last()[k] == x);
        }
        let m = merge(o, v.drop_last());
        if !m.contains(v.last()) && m.contains(x) {
            let k = choose|k: int| 0 <= k < m.len() && m[k] == x;
            assert(m.push(v.last())[k] == x);
        }
        if !m.contains(v.last()) && x == v.last() {
            assert(m.push(v.last())[m.len() as int] == x);
        }
    }
}

pub proof fn lemma_clean_contains(o: Seq<Seq<char>>, ps: Seq<Seq<char>>, x: Seq<char>)
    requires
        clean_from(o, ps).contains(x),
    ensures
        o.contains(x) || clean_from(Seq::empty(), ps).contains(x),
    decreases ps.len(),
{
    if ps.len() > 0 {
        let c = clean_from(o, ps.drop_last());
        let e = clean_from(Seq::empty(), ps.drop_last());
        let t = trim(ps.last());
        if c.contains(x) {
            lemma_clean_contains(o, ps.drop_last(), x);
            if e.contains(x) && !(t.len() == 0 || e.contains(t)) {
                let k = choose|k: int| 0 <= k < e.len() && e[k] == x;
                assert(e.push(t)[k] == x);
            }
        } else {
            assert(x == t);
            if !(t.len() == 0 || e.contains(t)) {
                assert(e.push(t)[e.len() as int] == x);
            }
        }
    }
}

/// Merging the cleaned pieces into `o` is cleaning them straight into `o`.
pub proof fn lemma_merge_clean(o: Seq<Seq<char>>, ps: Seq<Seq<char>>)
    ensures
        merge(o, clean_from(Seq::empty(), ps)) == clean_from(o, ps),
    decreases ps.len(),
{
    if ps.len() > 0 {
        let e = clean_from(Seq::empty(), ps.drop_last());
        let t = trim(ps.last());
        lemma_merge_clean(o, ps.drop_last());
        if t.len() == 0 {
        } else if e.contains(t) {
            lemma_merge_contains(o, e, t);
        } else {
            assert(e.push(t).drop_last() =~= e);
            assert(e.push(t).last() == t);
        }
    }
}

/// Splitting values joined with `;` reads the same as splitting each and
/// merging: native repeats and semicolons read the same.
pub proof fn split_all_reads_like_joined(raws: Seq<Seq<char>>)
    ensures
        split_all_values(raws) == split_values(join(raws, seq![';'])),
    decreases raws.len(),
{
    if raws.len() == 0 {
        let e = Seq::<char>::empty();
        assert(join(raws, seq![';']) == e);
        assert(split_parts(e, ';') =~= seq![e]);
        assert(trim(e) =~= e);
        assert(seq![e].drop_last() =~= Seq::<Seq<char>>::empty());
        assert(seq![e].last() == e);
        assert(clean_from(Seq::<Seq<char>>::empty(), seq![e].drop_last()) == Seq::<Seq<char>>::empty());
        assert(clean_from(Seq::empty(), seq![e]) == keep_step(Seq::empty(), e));
        assert(split_values(e) =~= Seq::<Seq<char>>::empty());
    } else if raws.len() == 1 {
        assert(raws.drop_last() =~= Seq::<Seq<char>>::empty());
        assert(split_all_values(raws.drop_last()) == Seq::<Seq<char>>::empty());
        assert(join(raws, seq![';']) == raws[0]);
        assert(split_all_values(raws) == merge(Seq::empty(), split_values(raws[0])));
        lemma_merge_clean(Seq::empty(), split_parts(raws[0], ';'));
    } else {
        let init = raws.drop_last();
        let r = raws.last();
        split_all_reads_like_joined(init);
        lemma_split_parts_concat(join(init, seq![';']), r, ';');
        lemma_clean_from_concat(
            Seq::empty(),
            split_parts(join(init, seq![';']), ';'),
            split_parts(r, ';'),
        );
        lemma_merge_clean(split_values(join(init, seq![';'])), split_parts(r, ';'));
    }
}

/// The distinct values of `values`, first occurrence kept: a cleaned list
/// holds each value once.
pub open spec fn no_repeats(s: Seq<Seq<char>>) -> bool {
    forall|i: int, j: int| 0 <= i < j < s.len() ==> s[i] != s[j]
}

pub proof fn lemma_clean_shape(o: Seq<Seq<char>>, ps: Seq<Seq<char>>)
    requires
        no_repeats(o),
        forall|i: int| 0 <= i < o.len() ==> (#[trigger] o[i]).len() > 0 && trim(o[i]) == o[i],
    ensures
        no_repeats(clean_from(o, ps)),
        forall|i: int|
            0 <= i < clean_from(o, ps).len() ==> (#[trigger] clean_from(o, ps)[i]).len() > 0
                && trim(clean_from(o, ps)[i]) == clean_from(o, ps)[i],
    decreases ps.len(),
{
    if ps.len() > 0 {
        lemma_clean_shape(o, ps.drop_last());
        lemma_trim_idempotent(ps.last());
    }
}

pub proof fn lemma_trim_idempotent(s: Seq<char>)
    ensures
        trim(trim(s)) == trim(s),
{
    let t = trim(s);
    crate::text::lemma_lead_ws(s);
    crate::text::lemma_trail_ws(crate::text::trim_start(s));
    crate::text::lemma_lead_ws(t);
    crate::text::lemma_trail_ws(crate::text::trim_start(t));
    if t.len() > 0 {
        assert(!crate::text::is_white_space(t[0]));
        assert(!crate::text::is_white_space(t.last()));
    }
    assert(crate::text::trim_start(t) =~= t);
    assert(crate::text::trim_end(t) =~= t);
}

/// No piece of a split holds the separator.
proof fn lemma_parts_free(s: Seq<char>, sep: char)
    ensures
        forall|i: int| 0 <= i < split_parts(s, sep).len() ==> !(#[trigger] split_parts(s, sep)[i]).contains(sep),
    decreases s.len(),
{
    if s.len() > 0 {
        lemma_parts_free(s.drop_last(), sep);
        lemma_split_parts_nonempty(s.drop_last(), sep);
        let p = split_parts(s.drop_last(), sep);
        let c = s.last();
        if c == sep {
            assert forall|i: int| 0 <= i < p.push(Seq::empty()).len() implies !(#[trigger] p.push(Seq::<char>::empty())[i]).contains(sep) by {
                if i < p.len() {
                    assert(p.push(Seq::<char>::empty())[i] == p[i]);
                }
            }
        } else {
            let q = p.update(p.len() - 1, p.last().push(c));
            assert forall|i: int| 0 <= i < q.len() implies !(#[trigger] q[i]).contains(sep) by {
                if i == p.len() - 1 {
                    assert(!p[p.len() - 1].contains(sep));
                    assert forall|k: int| 0 <= k < q[i].len() implies q[i][k] != sep by {
                        if k < p.last().len() {
                            assert(q[i][k] == p.last()[k]);
                        }
                    }
                } else {
                    assert(q[i] == p[i]);
                }
            }
        }
    }
}

/// Text without the separator splits into itself.
proof fn lemma_split_plain(t: Seq<char>, sep: char)
    requires
        !t.contains(sep),
    ensures
        split_parts(t, sep) == seq![t],
    decreases t.len(),
{
    if t.len() > 0 {
        assert(!t.drop_last().contains(sep)) by {
            if t.drop_last().contains(sep) {
                let k = choose|k: int| 0 <= k < t.drop_last().len() && t.drop_last()[k] == sep;
                assert(t[k] == sep);
            }
        }
        lemma_split_plain(t.drop_last(), sep);
        assert(t[t.len() - 1] == t.last());
        assert(t.drop_last().push(t.last()) =~= t);
        assert(split_parts(t, sep) =~= seq![t]);
    } else {
        assert(t =~= Seq::<char>::empty());
        assert(split_parts(t, sep) =~= seq![t]);
    }
}

/// Trimming keeps text free of a character.
proof fn lemma_trim_free(p: Seq<char>, c: char)
    requires
        !p.contains(c),
    ensures
        !trim(p).contains(c),
{
    crate::text::lemma_trim_bounds(p);
    crate::text::lemma_lead_ws(p);
    let a = crate::text::lead_ws(p) as int;
    let t = p.subrange(a, p.len() as int);
    crate::text::lemma_trail_ws(t);
    if trim(p).contains(c) {
        let k = choose|k: int| 0 <= k < trim(p).len() && trim(p)[k] == c;
        assert(p[a + k] == c);
    }
}

/// A clean-up of pieces free of a character is free of it.
proof fn lemma_clean_free(o: Seq<Seq<char>>, ps: Seq<Seq<char>>, c: char)
    requires
        forall|i: int| 0 <= i < o.len() ==> !(#[trigger] o[i]).contains(c),
        forall|i: int| 0 <= i < ps.len() ==> !(#[trigger] ps[i]).contains(c),
    ensures
        forall|i: int| 0 <= i < clean_from(o, ps).len() ==> !(#[trigger] clean_from(o, ps)[i]).contains(c),
    decreases ps.len(),
{
    if ps.len() > 0 {
        assert forall|i: int| 0 <= i < ps.drop_last().len() implies !(#[trigger] ps.drop_last()[i]).contains(c) by {
            assert(ps.drop_last()[i] == ps[i]);
        }
        lemma_clean_free(o, ps.drop_last(), c);
        assert(!ps[ps.len() - 1].contains(c));
        lemma_trim_free(ps.last(), c);
        let c0 = clean_from(o, ps.drop_last());
        let t = trim(ps.last());
        if !(t.len() == 0 || c0.contains(t)) {
            assert forall|i: int| 0 <= i < c0.push(t).len() implies !(#[trigger] c0.push(t)[i]).contains(c) by {
                if i < c0.len() {
                    assert(c0.push(t)[i] == c0[i]);
                }
            }
        }
    }
}

/// Distinct, trimmed, non-empty values without `;` split back out of their
/// `;`-join.
proof fn lemma_split_join(vs: Seq<Seq<char>>)
    requires
        no_repeats(vs),
        forall|i: int| 0 <= i < vs.len() ==> (#[trigger] vs[i]).len() > 0 && trim(vs[i]) == vs[i] && !vs[i].contains(';'),
    ensures
        split_values(join(vs, seq![';'])) == vs,
    decreases vs.len(),
{
    if vs.len() == 0 {
        let e = Seq::<char>::empty();
        assert(split_parts(e, ';') =~= seq![e]);
        assert(trim(e) =~= e);
        assert(seq![e].drop_last() =~= Seq::<Seq<char>>::empty());
        assert(clean_from(Seq::<Seq<char>>::empty(), seq![e].drop_last()) == Seq::<Seq<char>>::empty());
        assert(clean_from(Seq::empty(), seq![e]) == keep_step(Seq::empty(), e));
        assert(split_values(e) =~= Seq::<Seq<char>>::empty());
        assert(vs =~= Seq::<Seq<char>>::empty());
    } else if vs.len() == 1 {
        let v = vs[0];
        assert(join(vs, seq![';']) == v);
        lemma_split_plain(v, ';');
        assert(seq![v].drop_last() =~= Seq::<Seq<char>>::empty());
        assert(clean_from(Seq::<Seq<char>>::empty(), seq![v].drop_last()) == Seq::<Seq<char>>::empty());
        assert(clean_from(Seq::empty(), seq![v]) == keep_step(Seq::empty(), v));
        assert(Seq::<Seq<char>>::empty().push(v) =~= vs);
    } else {
        let init = vs.drop_last();
        let v = vs.last();
        assert forall|i: int| 0 <= i < init.len() implies (#[trigger] init[i]).len() > 0 && trim(init[i]) == init[i]
            && !init[i].contains(';') by {
            assert(init[i] == vs[i]);
        }
        assert(no_repeats(init)) by {
            assert forall|i: int, j: int| 0 <= i < j < init.len() implies init[i] != init[j] by {
                assert(init[i] == vs[i] && init[j] == vs[j]);
            }
        }
        lemma_split_join(init);
        assert(!vs[vs.len() - 1].contains(';'));
        lemma_split_plain(v, ';');
        lemma_split_parts_concat(join(init, seq![';']), v, ';');
        lemma_clean_from_concat(Seq::empty(), split_parts(join(init, seq![';']), ';'), seq![v]);
        assert(seq![v].drop_last() =~= Seq::<Seq<char>>::empty());
        assert(clean_from(init, seq![v].drop_last()) == init);
        assert(clean_from(init, seq![v]) == keep_step(init, v));
        assert(!init.contains(v)) by {
            if init.contains(v) {
                let k = choose|k: int| 0 <= k < init.len() && init[k] == v;
                assert(vs[k] == vs[vs.len() - 1]);
            }
        }
        assert(init.push(v) =~= vs);
    }
}

/// Splitting is stable: the `;`-join of a split splits back into the same
/// values.
pub proof fn split_reads_back_its_join(raw: Seq<char>)
    ensures
        split_values(join(split_values(raw), seq![';'])) == split_values(raw),
{
    let ps = split_parts(raw, ';');
    lemma_clean_shape(Seq::empty(), ps);
    lemma_parts_free(raw, ';');
    lemma_clean_free(Seq::empty(), ps, ';');
    lemma_split_join(split_values(raw));
}

/// Whether `v` holds `x`.
pub fn holds(v: &Vec<Vec<char>>, x: &Vec<char>) -> (r: bool)
    ensures
        r == views(v@).contains(x@),
{
    let mut i: usize = 0;
    while i < v.len()
        invariant
            i <= v.len(),
            forall|k: int| 0 <= k < i ==> v@[k]@ != x@,
        decreases v.len() - i,
    {
        if chars_eq(&v[i], x) {
            proof {
                assert(views(v@)[i as int] == x@);
            }
            return true;
        }
        i = i + 1;
    }
    proof {
        if views(v@).contains(x@) {
            let k = choose|k: int| 0 <= k < views(v@).len() && views(v@)[k] == x@;
            assert(v@[k]@ == x@);
        }
    }
    false
}

/// Strings holding the given characters.
pub fn to_strings(v: &Vec<Vec<char>>) -> (out: Vec<String>)
    ensures
        string_views(out@) == views(v@),
{
    let mut out: Vec<String> = Vec::new();
    let mut i: usize = 0;
    while i < v.len()
        invariant
            i <= v.len(),
            string_views(out@) == views(v@.take(i as int)),
        decreases v.len() - i,
    {
        let ghost before = out@;
        let s = string_from_chars(&v[i]);
        out.push(s);
        proof {
            assert(out@ == before.push(s));
            assert(v@.take(i + 1) =~= v@.take(i as int).push(v@[i as int]));
            assert(string_views(out@) =~= string_views(before).push(s@));
            assert(views(v@.take(i + 1)) =~= views(v@.take(i as int)).push(v@[i as int]@));
        }
        i = i + 1;
    }
    proof {
        assert(v@.take(v.len() as int) =~= v@);
    }
    out
}

/// The pieces of `raw` between `;` separators.
pub fn split_pieces(raw: &Vec<char>, sep: char) -> (out: Vec<Vec<char>>)
    ensures
        views(out@) == split_parts(raw@, sep),
{
    let mut done: Vec<Vec<char>> = Vec::new();
    let mut cur: Vec<char> = Vec::new();
    let mut i: usize = 0;
    proof {
        assert(raw@.take(0) =~= Seq::<char>::empty());
        assert(views(done@).push(cur@) =~= seq![Seq::<char>::empty()]);
    }
    while i < raw.len()
        invariant
            i <= raw.len(),
            views(done@).push(cur@) == split_parts(raw@.take(i as int), sep),
        decreases raw.len() - i,
    {
        let c = raw[i];
        let ghost before = views(done@).push(cur@);
        proof {
            assert(raw@.take(i + 1).drop_last() =~= raw@.take(i as int));
        }
        if c == sep {
            let full = cur;
            done.push(full);
            cur = Vec::new();
            proof {
                assert(views(done@).push(cur@) =~= before.push(Seq::empty()));
            }
        } else {
            cur.push(c);
            proof {
                assert(views(done@).push(cur@) =~= before.update(
                    before.len() - 1,
                    before.last().push(c),
                ));
            }
        }
        i = i + 1;
    }
    done.push(cur);
    proof {
        assert(raw@.take(raw.len() as int) =~= raw@);
        assert(views(done@) =~= split_parts(raw@, sep));
    }
    done
}

/// Append the cleaned `pieces` to `out`.
fn clean_into(out: &mut Vec<Vec<char>>, pieces: &Vec<Vec<char>>)
    ensures
        views(final(out)@) == clean_from(views(old(out)@), views(pieces@)),
{
    let ghost o = views(out@);
    let mut j: usize = 0;
    while j < pieces.len()
        invariant
            j <= pieces.len(),
            views(out@) == clean_from(o, views(pieces@).take(j as int)),
        decreases pieces.len() - j,
    {
        let t = trim_chars(&pieces[j]);
        proof {
            assert(views(pieces@).take(j + 1).drop_last() =~= views(pieces@).take(j as int));
        }
        if t.len() > 0 && !holds(out, &t) {
            out.push(t);
        }
        j = j + 1;
        proof {
            assert(views(out@) =~= clean_from(o, views(pieces@).take(j as int)));
        }
    }
    proof {
        assert(views(pieces@).take(pieces.len() as int) =~= views(pieces@));
    }
}

fn split_chars(raw: &Vec<char>) -> (out: Vec<Vec<char>>)
    ensures
        views(out@) == split_values(raw@),
{
    let pieces = split_pieces(raw, ';');
    let mut out: Vec<Vec<char>> = Vec::new();
    proof {
        assert(views(out@) =~= Seq::<Seq<char>>::empty());
    }
    clean_into(&mut out, &pieces);
    out
}

/// Split a raw tag value into its values. Trims white space, drops empties,
/// preserves order, and drops exact repeats.
pub fn split(raw: &str) -> (out: Vec<String>)
    ensures
        string_views(out@) == split_values(raw@),
{
    let chars = chars_of(raw);
    let v = split_chars(&chars);
    to_strings(&v)
}

/// Split many raw values (a tag that carried repeated fields natively) and
/// merge them into one ordered list.
pub fn split_all(raws: &[&str]) -> (out: Vec<String>)
    ensures
        string_views(out@) == split_all_values(raws@.map_values(|r: &str| r@)),
{
    let ghost rs = raws@.map_values(|r: &str| r@);
    let mut out: Vec<Vec<char>> = Vec::new();
    let mut i: usize = 0;
    proof {
        assert(rs.take(0) =~= Seq::<Seq<char>>::empty());
        assert(views(out@) =~= Seq::<Seq<char>>::empty());
    }
    while i < raws.len()
        invariant
            i <= raws.len(),
            rs == raws@.map_values(|r: &str| r@),
            views(out@) == split_all_values(rs.take(i as int)),
        decreases raws.len() - i,
    {
        let chars = chars_of(raws[i]);
        let values = split_chars(&chars);
        let ghost before = views(out@);
        let mut k: usize = 0;
        while k < values.len()
            invariant
                k <= values.len(),
                views(out@) == merge(before, views(values@).take(k as int)),
            decreases values.len() - k,
        {
            proof {
                assert(views(values@).take(k + 1).drop_last() =~= views(values@).take(k as int));
            }
            if !holds(&out, &values[k]) {
                out.push(values[k].clone());
            }
            k = k + 1;
            proof {
                assert(views(out@) =~= merge(before, views(values@).take(k as int)));
            }
        }
        proof {
            assert(views(values@).take(values.len() as int) =~= views(values@));
            assert(rs.take(i + 1).drop_last() =~= rs.take(i as int));
        }
        i = i + 1;
    }
    proof {
        assert(rs.take(raws.len() as int) =~= rs);
    }
    to_strings(&out)
}

} // verus!
