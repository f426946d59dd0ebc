//! Sort keys. Computed once at scan time and synced; no database collation
//! or client locale ever decides an order, so this is the only definition of
//! "alphabetical".
use vstd::prelude::*;

use crate::order::join;
use crate::text::{ascii_lower_seq, chars_of, is_white_space, is_whitespace, lemma_lowercase_append, lowercase, lowercase_of, push_lowercase, string_from_chars, to_ascii_lower, trim, trim_chars, trim_start, trim_start_chars, slice_chars};

verus! {

/// The white-space separated words of `s`.
pub open spec fn words(s: Seq<char>) -> Seq<Seq<char>>
    decreases s.len(),
{
    if s.len() == 0 {
        Seq::empty()
    } else {
        let w = words(s.drop_last());
        let c = s.last();
        if is_white_space(c) {
            w
        } else if s.len() >= 2 && !is_white_space(s[s.len() - 2]) {
            w.update(w.len() - 1, w.last().push(c))
        } else {
            w.push(seq![c])
        }
    }
}

/// The case fold: the words of `s`, lowercased, joined with single spaces.
pub open spec fn fold_of(s: Seq<char>) -> Seq<char> {
    join(words(s).map_values(|w: Seq<char>| lowercase(w)), seq![' '])
}

/// Whether `name` begins with the article `art` (compared without regard to
/// ASCII case) and has more after it.
pub open spec fn starts_with_article(name: Seq<char>, art: Seq<char>) -> bool {
    name.len() > art.len() && ascii_lower_seq(name.take(art.len() as int)) == art
}

/// `name` with a leading "the ", "a " or "an " removed, when something
/// follows it.
pub open spec fn strip_article_of(name: Seq<char>) -> Seq<char> {
    if starts_with_article(name, seq!['t', 'h', 'e', ' ']) {
        trim_start(name.skip(4))
    } else if starts_with_article(name, seq!['a', ' ']) {
        trim_start(name.skip(2))
    } else if starts_with_article(name, seq!['a', 'n', ' ']) {
        trim_start(name.skip(3))
    } else {
        name
    }
}

/// The sort key of a display name and an optional sort tag.
pub open spec fn sort_key_of(display: Seq<char>, sort_tag: Option<Seq<char>>) -> Seq<char> {
    match sort_tag {
        Some(t) if trim(t).len() > 0 => fold_of(trim(t)),
        _ => fold_of(strip_article_of(trim(display))),
    }
}

/// A sort tag that is not blank wins: the display name plays no part.
pub proof fn sort_tag_wins(d1: Seq<char>, d2: Seq<char>, t: Seq<char>)
    requires
        trim(t).len() > 0,
    ensures
        sort_key_of(d1, Some(t)) == fold_of(trim(t)),
        sort_key_of(d1, Some(t)) == sort_key_of(d2, Some(t)),
{
}

/// A blank sort tag counts as no sort tag.
pub proof fn blank_sort_tag_counts_as_none(d: Seq<char>, t: Seq<char>)
    requires
        trim(t).len() == 0,
    ensures
        sort_key_of(d, Some(t)) == sort_key_of(d, None),
{
}

/// Text spaced as a sort key is: white space only as single spaces between
/// other characters.
pub open spec fn single_spaced(s: Seq<char>) -> bool {
    &&& spaced_so_far(s)
    &&& (s.len() > 0 ==> s.last() != ' ')
}

/// Only spaces for white space, never two in a row, none first.
pub open spec fn spaced_so_far(s: Seq<char>) -> bool {
    &&& forall|k: int| 0 <= k < s.len() && is_white_space(#[trigger] s[k]) ==> s[k] == ' '
    &&& forall|k: int| 0 <= k && k + 1 < s.len() && #[trigger] s[k] == ' ' ==> s[k + 1] != ' '
    &&& (s.len() > 0 ==> s[0] != ' ')
}

/// Build the sort key for a display name.
///
/// A tagged sort value wins when present. Otherwise the display name with a
/// leading article removed. The result is case-folded and
/// white-space-normalized. An empty result means "no sortable value".
pub fn sort_key(display: &str, sort_tag: Option<&str>) -> (key: String)
    ensures
        key@ == sort_key_of(
            display@,
            match sort_tag {
                Some(t) => Some(t@),
                None => None,
            },
        ),
        single_spaced(key@),
{
    if let Some(t) = sort_tag {
        let tc = chars_of(t);
        let tt = trim_chars(&tc);
        if tt.len() > 0 {
            let out = fold(&tt);
            return string_from_chars(&out);
        }
    }
    let dc = chars_of(display);
    let dt = trim_chars(&dc);
    let stripped = strip_article(&dt);
    let out = fold(&stripped);
    string_from_chars(&out)
}

/// Whether `name` begins with `art` case-insensitively and has more after
/// it. Only ASCII letters and the space make up an article, and no other
/// character lowercases to one of them.
fn article_at_start(name: &Vec<char>, art: &Vec<char>) -> (r: bool)
    ensures
        r == starts_with_article(name@, art@),
{
    if name.len() <= art.len() {
        return false;
    }
    let mut i: usize = 0;
    while i < art.len()
        invariant
            art.len() < name.len(),
            i <= art.len(),
            forall|k: int| 0 <= k < i ==> crate::text::ascii_lower(name@[k]) == art@[k],
        decreases art.len() - i,
    {
        if to_ascii_lower(name[i]) != art[i] {
            proof {
                assert(ascii_lower_seq(name@.take(art.len() as int))[i as int] != art@[i as int]);
            }
            return false;
        }
        i = i + 1;
    }
    proof {
        assert(ascii_lower_seq(name@.take(art.len() as int)) =~= art@);
    }
    true
}

fn strip_article(name: &Vec<char>) -> (out: Vec<char>)
    ensures
        out@ == strip_article_of(name@),
{
    let the = vec!['t', 'h', 'e', ' '];
    let a = vec!['a', ' '];
    let an = vec!['a', 'n', ' '];
    proof {
        assert(the@ =~= seq!['t', 'h', 'e', ' ']);
        assert(a@ =~= seq!['a', ' ']);
        assert(an@ =~= seq!['a', 'n', ' ']);
    }
    let skip = if article_at_start(name, &the) {
        4
    } else if article_at_start(name, &a) {
        2
    } else if article_at_start(name, &an) {
        3
    } else {
        return slice_chars(name, 0, name.len());
    };
    let rest = slice_chars(name, skip, name.len());
    proof {
        assert(rest@ =~= name@.skip(skip as int));
    }
    trim_start_chars(&rest)
}

/// `str::split_whitespace` on characters: the words of `s`.
pub fn split_whitespace(s: &Vec<char>) -> (out: Vec<Vec<char>>)
    ensures
        crate::multi_value::views(out@) == words(s@),
{
    let mut out: Vec<Vec<char>> = Vec::new();
    let mut in_word = false;
    let mut i: usize = 0;
    while i < s.len()
        invariant
            i <= s.len(),
            crate::multi_value::views(out@) == words(s@.take(i as int)),
            in_word == (i > 0 && !is_white_space(s@[i - 1])),
            in_word ==> out.len() > 0,
        decreases s.len() - i,
    {
        let c = s[i];
        let ghost p = s@.take(i as int);
        let ghost before = crate::multi_value::views(out@);
        proof {
            assert(s@.take(i + 1).drop_last() =~= p);
            assert(s@.take(i + 1).last() == c);
            if i > 0 {
                assert(s@.take(i + 1)[i - 1] == s@[i - 1]);
            }
        }
        if is_whitespace(c) {
            in_word = false;
        } else if in_word {
            let mut last = out.pop().unwrap();
            last.push(c);
            out.push(last);
            proof {
                assert(crate::multi_value::views(out@) =~= before.update(before.len() - 1, before.last().push(c)));
            }
            in_word = true;
        } else {
            let mut w: Vec<char> = Vec::new();
            w.push(c);
            out.push(w);
            proof {
                assert(crate::multi_value::views(out@) =~= before.push(seq![c]));
            }
            in_word = true;
        }
        i = i + 1;
    }
    proof {
        assert(s@.take(s.len() as int) =~= s@);
    }
    out
}

/// Case-fold and collapse white space.
fn fold(s: &Vec<char>) -> (out: Vec<char>)
    ensures
        out@ == fold_of(s@),
        single_spaced(out@),
{
    let mut out: Vec<char> = Vec::new();
    let mut last_space = true;
    let mut i: usize = 0;
    while i < s.len()
        invariant
            i <= s.len(),
            ({
                let p = s@.take(i as int);
                let l = words(p).map_values(|w: Seq<char>| lowercase(w));
                &&& last_space ==> (if words(p).len() == 0 {
                    out@ == Seq::<char>::empty()
                } else {
                    out@ == join(l, seq![' ']) + seq![' ']
                })
                &&& !last_space ==> (out@ == join(l, seq![' ']) && words(p).len() > 0 && p.len() > 0
                    && !is_white_space(p.last()))
                &&& (last_space && p.len() > 0) ==> is_white_space(p.last())
            }),
            spaced_so_far(out@),
            last_space <==> (out@.len() == 0 || out@.last() == ' '),
        decreases s.len() - i,
    {
        let ch = s[i];
        let ghost p = s@.take(i as int);
        let ghost q = s@.take(i + 1);
        proof {
            assert(q.drop_last() =~= p);
            assert(q.last() == ch);
            if i > 0 {
                assert(q[q.len() - 2] == p.last());
            }
        }
        let ghost w = words(p);
        let ghost l = w.map_values(|x: Seq<char>| lowercase(x));
        let ghost before = out@;
        if is_whitespace(ch) {
            if !last_space {
                out.push(' ');
                last_space = true;
                proof {
                    assert forall|k: int| 0 <= k < out@.len() && is_white_space(#[trigger] out@[k]) implies out@[k] == ' ' by {
                        if k < before.len() {
                            assert(out@[k] == before[k]);
                        }
                    }
                    assert forall|k: int| 0 <= k && k + 1 < out@.len() && #[trigger] out@[k] == ' ' implies out@[k + 1] != ' ' by {
                        if k + 1 < before.len() {
                            assert(out@[k] == before[k] && out@[k + 1] == before[k + 1]);
                        } else {
                            assert(out@[k] == before[k]);
                        }
                    }
                    if before.len() > 0 {
                        assert(out@[0] == before[0]);
                    }
                }
            }
        } else {
            push_lowercase(&mut out, ch);
            proof {
                let low = lowercase_of(ch);
                assert forall|j: int| 0 <= j < low.len() implies !is_white_space(#[trigger] low[j]) by {
                    if crate::text::is_spacing(ch) {
                        assert(low =~= seq![ch]);
                    }
                }
                assert forall|k: int| 0 <= k < out@.len() && is_white_space(#[trigger] out@[k]) implies out@[k] == ' ' by {
                    if k < before.len() {
                        assert(out@[k] == before[k]);
                    } else {
                        assert(out@[k] == low[k - before.len()]);
                    }
                }
                assert forall|k: int| 0 <= k && k + 1 < out@.len() && #[trigger] out@[k] == ' ' implies out@[k + 1] != ' ' by {
                    if k + 1 < before.len() {
                        assert(out@[k] == before[k] && out@[k + 1] == before[k + 1]);
                    } else {
                        assert(out@[k + 1] == low[k + 1 - before.len()]);
                    }
                }
                if before.len() > 0 {
                    assert(out@[0] == before[0]);
                } else {
                    assert(out@[0] == low[0]);
                }
                assert(out@.last() == low.last());
            }
            proof {
                let w2 = words(q);
                let l2 = w2.map_values(|x: Seq<char>| lowercase(x));
                if !last_space {
                    // extends the last word
                    assert(w2 == w.update(w.len() - 1, w.last().push(ch)));
                    lemma_lowercase_append(w.last(), seq![ch]);
                    assert(w.last().push(ch) =~= w.last() + seq![ch]);
                    lemma_lowercase_one(ch);
                    assert(l2 =~= l.update(l.len() - 1, l.last() + lowercase_of(ch)));
                    lemma_join_extend_last(l, lowercase_of(ch));
                } else {
                    // starts a new word
                    assert(w2 == w.push(seq![ch]));
                    lemma_lowercase_one(ch);
                    assert(l2 =~= l.push(lowercase_of(ch)));
                    if w.len() == 0 {
                        assert(l2 =~= seq![lowercase_of(ch)]);
                        assert(out@ =~= lowercase_of(ch));
                    } else {
                        assert(l2.drop_last() =~= l);
                    }
                }
            }
            last_space = false;
        }
        i = i + 1;
    }
    proof {
        assert(s@.take(s.len() as int) =~= s@);
    }
    let ghost before = out@;
    if out.len() > 0 && out[out.len() - 1] == ' ' {
        out.pop();
    }
    proof {
        assert forall|k: int| 0 <= k < out@.len() && is_white_space(#[trigger] out@[k]) implies out@[k] == ' ' by {
            assert(out@[k] == before[k]);
        }
        assert forall|k: int| 0 <= k && k + 1 < out@.len() && #[trigger] out@[k] == ' ' implies out@[k + 1] != ' ' by {
            assert(out@[k] == before[k] && out@[k + 1] == before[k + 1]);
        }
        if out@.len() > 0 {
            assert(out@[0] == before[0]);
            if before.last() == ' ' {
                assert(before[before.len() - 2] == out@.last());
            }
        }
    }
    proof {
        let l = words(s@).map_values(|w: Seq<char>| lowercase(w));
        if words(s@).len() == 0 {
            assert(l =~= Seq::<Seq<char>>::empty());
        }
        if last_space && words(s@).len() > 0 {
            assert(before.last() == ' ');
            assert(out@ =~= before.drop_last());
            assert(before.drop_last() =~= join(l, seq![' ']));
        }
    }
    out
}

pub proof fn lemma_lowercase_one(c: char)
    ensures
        lowercase(seq![c]) == lowercase_of(c),
{
    assert(seq![c].drop_last() =~= Seq::<char>::empty());
    assert(lowercase(Seq::<char>::empty()) == Seq::<char>::empty());
    assert(Seq::<char>::empty() + lowercase_of(c) =~= lowercase_of(c));
}

/// Appending to the last item of a non-empty list appends to its join.
pub proof fn lemma_join_extend_last(l: Seq<Seq<char>>, x: Seq<char>)
    requires
        l.len() > 0,
    ensures
        join(l.update(l.len() - 1, l.last() + x), seq![' ']) == join(l, seq![' ']) + x,
{
    let l2 = l.update(l.len() - 1, l.last() + x);
    if l.len() == 1 {
    } else {
        assert(l2.drop_last() =~= l.drop_last());
    }
}

} // verus!
