//! Identity keys for artists, albums, and tags.
//!
//! Identity is a folded key; the displayed name is whatever spelling most
//! files use. The fold uses only the per-character lowercase mapping, which
//! is Unicode-aware and locale-free; it is deliberately not full case
//! folding or normalization.
use vstd::prelude::*;

use crate::order::{insert_sorted, join, join_chars, lemma_sorted_set, sorted_set, strictly_sorted};
use crate::text::{ascii_lower, ascii_lower_seq, chars_of, is_ascii_text, is_spacing, is_whitespace, lead_ws, lowercase_of, lemma_lead_ws, lemma_trail_ws, lemma_trim_ascii, lemma_trim_bounds, lowercase, lemma_lowercase_push, push_lowercase, string_from_chars, trail_ws, trim, trim_chars};

verus! {

/// The name fold: outer white space trimmed, every character lowercased.
pub open spec fn name_key_of(name: Seq<char>) -> Seq<char> {
    lowercase(trim(name))
}

/// The characters the tag fold drops: white space, `-` and `_`.
pub open spec fn tag_skips(c: char) -> bool {
    is_spacing(c)
}

/// The tag fold: trimmed, white space, hyphens and underscores dropped,
/// lowercased.
pub open spec fn tag_key_of(name: Seq<char>) -> Seq<char> {
    lowercase(trim(name).filter(|c: char| !tag_skips(c)))
}

/// Lowercase every character of `s`. Dropping white space, hyphens and
/// underscores before or after lowercasing comes to the same.
fn lowercase_chars(s: &Vec<char>) -> (out: Vec<char>)
    ensures
        out@ == lowercase(s@),
        out@.filter(|c: char| !tag_skips(c)) == lowercase(s@.filter(|c: char| !tag_skips(c))),
        is_ascii_text(s@) ==> out@ == ascii_lower_seq(s@),
{
    let ghost keep = |c: char| !tag_skips(c);
    let mut out: Vec<char> = Vec::new();
    let mut i: usize = 0;
    proof {
        assert(s@.take(0).filter(keep) =~= Seq::<char>::empty());
        assert(out@.filter(keep) =~= Seq::<char>::empty());
    }
    while i < s.len()
        invariant
            i <= s.len(),
            keep == (|c: char| !tag_skips(c)),
            out@ == lowercase(s@.take(i as int)),
            out@.filter(keep) == lowercase(s@.take(i as int).filter(keep)),
            is_ascii_text(s@) ==> out@ == ascii_lower_seq(s@.take(i as int)),
        decreases s.len() - i,
    {
        let c = s[i];
        let ghost pre = s@.take(i as int);
        let ghost before = out@;
        proof {
            lemma_lowercase_push(pre, c);
            assert(s@.take(i + 1) =~= pre.push(c));
            assert(ascii_lower_seq(s@.take(i + 1)) =~= ascii_lower_seq(pre).push(ascii_lower(c)));
            pre.lemma_filter_push(c, keep);
        }
        push_lowercase(&mut out, c);
        proof {
            let low = lowercase_of(c);
            Seq::filter_distributes_over_add(before, low, keep);
            if tag_skips(c) {
                assert(low =~= seq![c]);
                assert(seq![c].filter(keep) =~= Seq::<char>::empty()) by {
                    assert(Seq::<char>::empty().filter(keep) =~= Seq::<char>::empty()) by {
                        reveal(Seq::filter);
                    }
                    assert(Seq::<char>::empty().push(c) =~= seq![c]);
                    Seq::<char>::empty().lemma_filter_push(c, keep);
                }
                assert(before.filter(keep) + Seq::<char>::empty() =~= before.filter(keep));
            } else {
                lemma_filter_all(low);
                lemma_lowercase_push(pre.filter(keep), c);
            }
        }
        i = i + 1;
    }
    proof {
        assert(s@.take(s.len() as int) =~= s@);
    }
    out
}

/// Filtering a text with none of the dropped characters keeps it whole.
proof fn lemma_filter_all(x: Seq<char>)
    requires
        forall|k: int| 0 <= k < x.len() ==> !tag_skips(#[trigger] x[k]),
    ensures
        x.filter(|c: char| !tag_skips(c)) == x,
    decreases x.len(),
{
    reveal(Seq::filter);
    if x.len() > 0 {
        assert forall|k: int| 0 <= k < x.drop_last().len() implies !tag_skips(#[trigger] x.drop_last()[k]) by {
            assert(x.drop_last()[k] == x[k]);
        }
        lemma_filter_all(x.drop_last());
        assert(!tag_skips(x[x.len() - 1]));
        assert(x.drop_last().push(x.last()) =~= x);
    } else {
        assert(x.filter(|c: char| !tag_skips(c)) =~= x);
    }
}

fn name_key_chars(name: &str) -> (out: Vec<char>)
    ensures
        out@ == name_key_of(name@),
        is_ascii_text(name@) ==> out@ == ascii_lower_seq(trim(name@)),
{
    proof {
        if is_ascii_text(name@) {
            lemma_trim_ascii(name@);
        }
    }
    let chars = chars_of(name);
    let trimmed = trim_chars(&chars);
    lowercase_chars(&trimmed)
}

/// Fold a name for identity: trim outer white space, lowercase every
/// character. Interior spacing is kept, so "Sun Ra" and "Sunra" stay
/// distinct.
pub fn name_key(name: &str) -> (key: String)
    ensures
        key@ == name_key_of(name@),
        is_ascii_text(name@) ==> key@ == ascii_lower_seq(trim(name@)),
{
    let out = name_key_chars(name);
    string_from_chars(&out)
}

/// Fold a tag for identity: case and spacing, so "Hip Hop", "hip-hop" and
/// "HipHop" are one tag. The key is the name key with white space, hyphens
/// and underscores dropped, and holds none of them; that of an ASCII name
/// is its ASCII lowercase without them.
pub fn tag_key(name: &str) -> (key: String)
    ensures
        key@ == tag_key_of(name@),
        key@ == name_key_of(name@).filter(|c: char| !tag_skips(c)),
        forall|k: int| 0 <= k < key@.len() ==> !tag_skips(#[trigger] key@[k]),
        is_ascii_text(name@) ==> key@ == ascii_lower_seq(trim(name@).filter(|c: char| !tag_skips(c))),
{
    let ghost keep = |c: char| !tag_skips(c);
    let chars = chars_of(name);
    let trimmed = trim_chars(&chars);
    let lowered = lowercase_chars(&trimmed);
    let mut out: Vec<char> = Vec::new();
    let mut i: usize = 0;
    proof {
        assert(lowered@.take(0).filter(keep) =~= Seq::<char>::empty());
        assert(out@ =~= Seq::<char>::empty());
    }
    while i < lowered.len()
        invariant
            i <= lowered.len(),
            keep == (|c: char| !tag_skips(c)),
            out@ == lowered@.take(i as int).filter(keep),
            forall|k: int| 0 <= k < out@.len() ==> !tag_skips(#[trigger] out@[k]),
        decreases lowered.len() - i,
    {
        let ch = lowered[i];
        let ghost before = out@;
        proof {
            assert(lowered@.take(i + 1) =~= lowered@.take(i as int).push(ch));
            lowered@.take(i as int).lemma_filter_push(ch, keep);
        }
        if !(is_whitespace(ch) || ch == '-' || ch == '_') {
            out.push(ch);
            proof {
                assert forall|k: int| 0 <= k < out@.len() implies !tag_skips(#[trigger] out@[k]) by {
                    if k < before.len() {
                        assert(out@[k] == before[k]);
                    }
                }
            }
        }
        i = i + 1;
    }
    proof {
        assert(lowered@.take(lowered.len() as int) =~= lowered@);
        lemma_trim_filter(name@);
        if is_ascii_text(name@) {
            lemma_trim_ascii(name@);
            lemma_ascii_lower_filter(trim(name@));
        }
    }
    string_from_chars(&out)
}

/// On ASCII text, lowering and dropping the skipped characters commute.
proof fn lemma_ascii_lower_filter(x: Seq<char>)
    requires
        is_ascii_text(x),
    ensures
        ascii_lower_seq(x).filter(|c: char| !tag_skips(c)) == ascii_lower_seq(x.filter(|c: char| !tag_skips(c))),
    decreases x.len(),
{
    let keep = |c: char| !tag_skips(c);
    if x.len() == 0 {
        assert(ascii_lower_seq(x) =~= Seq::<char>::empty());
        assert(x.filter(keep) =~= Seq::<char>::empty()) by {
            reveal(Seq::filter);
        }
        assert(ascii_lower_seq(x).filter(keep) =~= Seq::<char>::empty()) by {
            reveal(Seq::filter);
        }
        assert(ascii_lower_seq(Seq::<char>::empty()) =~= Seq::<char>::empty());
    } else {
        let p = x.drop_last();
        let c = x.last();
        assert(is_ascii_text(p)) by {
            assert forall|i: int| 0 <= i < p.len() implies (#[trigger] p[i] as u32) < 128 by {
                assert(p[i] == x[i]);
            }
        }
        assert((x[x.len() - 1] as u32) < 128);
        lemma_ascii_lower_filter(p);
        assert(x =~= p.push(c));
        assert(ascii_lower_seq(x) =~= ascii_lower_seq(p).push(ascii_lower(c)));
        p.lemma_filter_push(c, keep);
        ascii_lower_seq(p).lemma_filter_push(ascii_lower(c), keep);
        assert(tag_skips(ascii_lower(c)) == tag_skips(c));
        if !tag_skips(c) {
            assert(ascii_lower_seq(p.filter(keep).push(c)) =~= ascii_lower_seq(p.filter(keep)).push(ascii_lower(c)));
        }
    }
}

/// Everything outside the trimmed part is white space, so filtering out
/// the tag fold's dropped characters gives the same before and after
/// trimming.
proof fn lemma_trim_filter(s: Seq<char>)
    ensures
        trim(s).filter(|c: char| !tag_skips(c)) == s.filter(|c: char| !tag_skips(c)),
{
    let keep = |c: char| !tag_skips(c);
    lemma_trim_bounds(s);
    lemma_lead_ws(s);
    let lo = lead_ws(s) as int;
    let t = s.subrange(lo, s.len() as int);
    lemma_trail_ws(t);
    let hi = s.len() - trail_ws(t);
    let a = s.subrange(0, lo);
    let m = s.subrange(lo, hi);
    let b = s.subrange(hi, s.len() as int);
    assert(s =~= a + m + b);
    assert forall|i: int| 0 <= i < a.len() implies tag_skips(#[trigger] a[i]) by {
        assert(a[i] == s[i]);
    }
    assert forall|i: int| 0 <= i < b.len() implies tag_skips(#[trigger] b[i]) by {
        assert(b[i] == t[hi - lo + i]);
    }
    lemma_filter_none(a);
    lemma_filter_none(b);
    Seq::filter_distributes_over_add(a + m, b, keep);
    Seq::filter_distributes_over_add(a, m, keep);
    assert(Seq::<char>::empty() + m.filter(keep) + Seq::<char>::empty() =~= m.filter(keep));
}

proof fn lemma_filter_none(x: Seq<char>)
    requires
        forall|i: int| 0 <= i < x.len() ==> tag_skips(#[trigger] x[i]),
    ensures
        x.filter(|c: char| !tag_skips(c)) == Seq::<char>::empty(),
    decreases x.len(),
{
    reveal(Seq::filter);
    if x.len() > 0 {
        assert forall|i: int| 0 <= i < x.drop_last().len() implies tag_skips(#[trigger] x.drop_last()[i]) by {
            assert(x.drop_last()[i] == x[i]);
        }
        lemma_filter_none(x.drop_last());
        assert(tag_skips(x[x.len() - 1]));
    } else {
        assert(x.filter(|c: char| !tag_skips(c)) =~= Seq::<char>::empty());
    }
}

/// White space, hyphens and underscores do not count in a tag key: two
/// names that hold the same other characters, in order, have one key.
pub proof fn tag_key_ignores_spacing(a: Seq<char>, b: Seq<char>)
    requires
        a.filter(|c: char| !tag_skips(c)) == b.filter(|c: char| !tag_skips(c)),
    ensures
        tag_key_of(a) == tag_key_of(b),
{
    lemma_trim_filter(a);
    lemma_trim_filter(b);
}

/// Two texts of one length whose characters pairwise lowercase alike
/// lowercase alike.
proof fn lemma_lowercase_pointwise(x: Seq<char>, y: Seq<char>)
    requires
        x.len() == y.len(),
        forall|i: int| 0 <= i < x.len() ==> lowercase_of(#[trigger] x[i]) == lowercase_of(y[i]),
    ensures
        lowercase(x) == lowercase(y),
    decreases x.len(),
{
    if x.len() > 0 {
        assert forall|i: int| 0 <= i < x.drop_last().len() implies lowercase_of(#[trigger] x.drop_last()[i])
            == lowercase_of(y.drop_last()[i]) by {
            assert(x.drop_last()[i] == x[i]);
            assert(y.drop_last()[i] == y[i]);
        }
        lemma_lowercase_pointwise(x.drop_last(), y.drop_last());
        assert(lowercase_of(x[x.len() - 1]) == lowercase_of(y[y.len() - 1]));
    }
}

/// The characters of `s` a tag key keeps, in order.
pub open spec fn kept_chars(s: Seq<char>) -> Seq<char> {
    s.filter(|c: char| !tag_skips(c))
}

/// Letter case, white space, hyphens and underscores do not count in a tag
/// key: two names whose other characters, taken in order, pairwise have
/// the same lowercase mapping have one key.
pub proof fn tag_key_ignores_case_and_spacing(a: Seq<char>, b: Seq<char>)
    requires
        kept_chars(a).len() == kept_chars(b).len(),
        forall|i: int| 0 <= i < kept_chars(a).len() ==> lowercase_of(#[trigger] kept_chars(a)[i]) == lowercase_of(kept_chars(b)[i]),
    ensures
        tag_key_of(a) == tag_key_of(b),
{
    lemma_trim_filter(a);
    lemma_trim_filter(b);
    lemma_lowercase_pointwise(kept_chars(a), kept_chars(b));
}

/// The album-artists key: the name keys of `names`, each once, in string
/// order, joined with `;`.
pub open spec fn artists_key_of(names: Seq<Seq<char>>) -> Seq<char> {
    join(sorted_set(names.map_values(|n: Seq<char>| name_key_of(n)).to_set()), seq![';'])
}

/// The album-artists half of album identity: each artist's `name_key`,
/// sorted so order does not matter, de-duplicated, joined with `;`.
pub fn artists_key(names: &[&str]) -> (key: String)
    ensures
        key@ == artists_key_of(names@.map_values(|n: &str| n@)),
{
    let ghost ns = names@.map_values(|n: &str| n@);
    let ghost keys_of = ns.map_values(|n: Seq<char>| name_key_of(n));
    let mut keys: Vec<Vec<char>> = Vec::new();
    let mut i: usize = 0;
    proof {
        assert(keys@.map_values(|e: Vec<char>| e@).to_set() =~= keys_of.take(0).to_set());
    }
    while i < names.len()
        invariant
            i <= names.len(),
            ns == names@.map_values(|n: &str| n@),
            keys_of == ns.map_values(|n: Seq<char>| name_key_of(n)),
            strictly_sorted(keys@.map_values(|e: Vec<char>| e@)),
            keys@.map_values(|e: Vec<char>| e@).to_set() == keys_of.take(i as int).to_set(),
        decreases names.len() - i,
    {
        let k = name_key_chars(names[i]);
        proof {
            assert(keys_of.take(i + 1) =~= keys_of.take(i as int).push(k@));
            keys_of.take(i as int).lemma_push_to_set_commute(k@);
        }
        insert_sorted(&mut keys, k);
        i = i + 1;
    }
    proof {
        assert(keys_of.take(names.len() as int) =~= keys_of);
        lemma_sorted_set(keys@.map_values(|e: Vec<char>| e@));
    }
    let out = join_chars(&keys, ';');
    string_from_chars(&out)
}

/// Order and repetition of the names do not change the album-artists key:
/// two lists whose names fold to the same keys give the same key.
pub proof fn artists_key_ignores_order_and_repeats(a: Seq<Seq<char>>, b: Seq<Seq<char>>)
    requires
        a.map_values(|n: Seq<char>| name_key_of(n)).to_set() == b.map_values(
            |n: Seq<char>| name_key_of(n),
        ).to_set(),
    ensures
        artists_key_of(a) == artists_key_of(b),
{
}

/// The album-artists key of a single artist is that artist's name key.
pub proof fn artists_key_of_one(a: Seq<char>)
    ensures
        artists_key_of(seq![a]) == name_key_of(a),
{
    let keys = seq![a].map_values(|n: Seq<char>| name_key_of(n));
    let one = seq![name_key_of(a)];
    assert(keys =~= one);
    assert(strictly_sorted(one));
    lemma_sorted_set(one);
}

} // verus!
