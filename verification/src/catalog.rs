//! What the server's catalog decides on its own, apart from the database:
//! album types, which spelling of a name wins, the names scans and feed
//! entries are stored under, and the scanner's view of a library row.
use vstd::prelude::*;

use crate::ffmpeg::int_text;
use crate::tags::{dec_digits, push_digits};
use crate::text::{ascii_lower_chars, ascii_lower_seq, chars_of, contains_chars, contains_seq, owned, str_eq, string_from_chars};
use crate::multi_value::string_views;
use crate::order::{lemma_lex_asym, lemma_lex_irreflexive, lex_less, lex_lt};
use crate::types::{LibraryConfig, ScanState, Trigger};

verus! {

/// What `char::is_alphanumeric` says of `c`: whether it is alphabetic or
/// numeric in Unicode.
pub uninterp spec fn is_alphanumeric_of(c: char) -> bool;

/// `char::is_alphanumeric`. Of the ASCII characters, exactly the letters
/// and digits are alphanumeric.
#[verifier::external_body]
fn is_alphanumeric(c: char) -> (r: bool)
    ensures
        r == is_alphanumeric_of(c),
        (c as u32) < 128 ==> (r <==> ('a' <= c <= 'z' || 'A' <= c <= 'Z' || '0' <= c <= '9')),
{
    c.is_alphanumeric()
}

/// Whether `ep` is one of the words of `s`, the words being what lies
/// between characters that are not alphanumeric.
pub open spec fn has_ep_word(s: Seq<char>) -> bool {
    exists|i: int|
        0 <= i && i + 2 <= s.len() && #[trigger] s.subrange(i, i + 2) == "ep"@ && is_alphanumeric_of(s[i])
            && is_alphanumeric_of(s[i + 1]) && (i == 0 || !is_alphanumeric_of(s[i - 1])) && (i + 2 == s.len()
            || !is_alphanumeric_of(s[i + 2]))
}

/// An album's type. The release-type tag is authoritative (read without
/// regard to ASCII case: `compilation`, then `single`, then the word `ep`,
/// then `album`); the compilation flag overrides size inference; one to
/// three tracks make a single, four to six an EP; the default is album.
pub open spec fn album_type_of(release_type: Option<Seq<char>>, compilation: bool, track_total: Option<i64>) -> Seq<char> {
    let tagged: Option<Seq<char>> = match release_type {
        Some(rt) => {
            let rt = ascii_lower_seq(rt);
            if contains_seq(rt, "compilation"@) {
                Some("compilation"@)
            } else if contains_seq(rt, "single"@) {
                Some("single"@)
            } else if has_ep_word(rt) {
                Some("ep"@)
            } else if contains_seq(rt, "album"@) {
                Some("album"@)
            } else {
                None
            }
        },
        None => None,
    };
    match tagged {
        Some(t) => t,
        None => if compilation {
            "compilation"@
        } else {
            match track_total {
                Some(n) => if 1 <= n <= 3 {
                    "single"@
                } else if 4 <= n <= 6 {
                    "ep"@
                } else {
                    "album"@
                },
                None => "album"@,
            }
        },
    }
}

fn lit(s: &str) -> (r: Vec<char>)
    ensures
        r@ == s@,
{
    chars_of(s)
}

fn ep_word(s: &Vec<char>) -> (r: bool)
    ensures
        r == has_ep_word(s@),
{
    proof {
        reveal_strlit("ep");
    }
    if s.len() < 2 {
        return false;
    }
    let mut i: usize = 0;
    while i < s.len() - 1
        invariant
            2 <= s.len(),
            i <= s.len() - 1,
            forall|k: int| 0 <= k < i ==> !(0 <= k && k + 2 <= s@.len() && #[trigger] s@.subrange(k, k + 2) == "ep"@
                && is_alphanumeric_of(s@[k]) && is_alphanumeric_of(s@[k + 1]) && (k == 0 || !is_alphanumeric_of(
                s@[k - 1],
            )) && (k + 2 == s@.len() || !is_alphanumeric_of(s@[k + 2]))),
        decreases s.len() - i,
    {
        let hit = s[i] == 'e' && s[i + 1] == 'p' && is_alphanumeric(s[i]) && is_alphanumeric(s[i + 1]) && (i == 0
            || !is_alphanumeric(s[i - 1])) && (i + 2 == s.len() || !is_alphanumeric(s[i + 2]));
        proof {
            reveal_strlit("ep");
            let w = s@.subrange(i as int, i + 2);
            if s@[i as int] == 'e' && s@[i + 1] == 'p' {
                assert(w =~= "ep"@);
            }
            if w == "ep"@ {
                assert(w[0] == 'e' && w[1] == 'p');
            }
        }
        if hit {
            return true;
        }
        i = i + 1;
    }
    false
}

/// An album's type: `compilation`, `single`, `ep` or `album`.
pub fn album_type(release_type: Option<&str>, compilation: bool, track_total: Option<i64>) -> (r: &'static str)
    ensures
        r@ == album_type_of(
            match release_type {
                Some(s) => Some(s@),
                None => None,
            },
            compilation,
            track_total,
        ),
{
    proof {
        reveal_strlit("compilation");
        reveal_strlit("single");
        reveal_strlit("ep");
        reveal_strlit("album");
    }
    if let Some(rt) = release_type {
        let rt = ascii_lower_chars(&chars_of(rt));
        if contains_chars(&rt, &lit("compilation")) {
            return "compilation";
        }
        if contains_chars(&rt, &lit("single")) {
            return "single";
        }
        if ep_word(&rt) {
            return "ep";
        }
        if contains_chars(&rt, &lit("album")) {
            return "album";
        }
    }
    if compilation {
        return "compilation";
    }
    match track_total {
        Some(n) => if 1 <= n && n <= 3 {
            "single"
        } else if 4 <= n && n <= 6 {
            "ep"
        } else {
            "album"
        },
        None => "album",
    }
}

/// The kinds of entity the change feed tracks.
#[derive(Debug, Clone, Copy, PartialEq, Eq, Structural)]
pub enum Entity {
    Library,
    Track,
    Album,
    Artist,
    Tag,
}

pub open spec fn entity_name(e: Entity) -> Seq<char> {
    match e {
        Entity::Library => "library"@,
        Entity::Track => "track"@,
        Entity::Album => "album"@,
        Entity::Artist => "artist"@,
        Entity::Tag => "tag"@,
    }
}

impl Entity {
    /// The name the feed stores the entity type under.
    pub fn as_str(self) -> (r: &'static str)
        ensures
            r@ == entity_name(self),
    {
        match self {
            Entity::Library => "library",
            Entity::Track => "track",
            Entity::Album => "album",
            Entity::Artist => "artist",
            Entity::Tag => "tag",
        }
    }
}

/// What a feed entry says happened to its entity.
#[derive(Debug, Clone, Copy, PartialEq, Eq, Structural)]
pub enum Op {
    Upsert,
    Delete,
}

/// The name a scan's trigger is stored under.
pub open spec fn trigger_name(t: Trigger) -> Seq<char> {
    match t {
        Trigger::Initial => "initial"@,
        Trigger::Watch => "watch"@,
        Trigger::Scheduled => "scheduled"@,
        Trigger::Manual => "manual"@,
        Trigger::Reconfigure => "reconfigure"@,
        Trigger::Restore => "restore"@,
    }
}

/// A stored trigger name read back; anything unknown reads as manual.
pub open spec fn trigger_from_name(s: Seq<char>) -> Trigger {
    if s == "initial"@ {
        Trigger::Initial
    } else if s == "watch"@ {
        Trigger::Watch
    } else if s == "scheduled"@ {
        Trigger::Scheduled
    } else if s == "reconfigure"@ {
        Trigger::Reconfigure
    } else if s == "restore"@ {
        Trigger::Restore
    } else {
        Trigger::Manual
    }
}

pub fn trigger_str(t: Trigger) -> (r: &'static str)
    ensures
        r@ == trigger_name(t),
{
    match t {
        Trigger::Initial => "initial",
        Trigger::Watch => "watch",
        Trigger::Scheduled => "scheduled",
        Trigger::Manual => "manual",
        Trigger::Reconfigure => "reconfigure",
        Trigger::Restore => "restore",
    }
}

pub fn trigger_parse(s: &str) -> (t: Trigger)
    ensures
        t == trigger_from_name(s@),
{
    if str_eq(s, "initial") {
        Trigger::Initial
    } else if str_eq(s, "watch") {
        Trigger::Watch
    } else if str_eq(s, "scheduled") {
        Trigger::Scheduled
    } else if str_eq(s, "reconfigure") {
        Trigger::Reconfigure
    } else if str_eq(s, "restore") {
        Trigger::Restore
    } else {
        Trigger::Manual
    }
}

/// The name a scan's state is stored under.
pub open spec fn state_name(s: ScanState) -> Seq<char> {
    match s {
        ScanState::Queued => "queued"@,
        ScanState::Running => "running"@,
        ScanState::Completed => "completed"@,
        ScanState::Cancelled => "cancelled"@,
        ScanState::Suspended => "suspended"@,
    }
}

/// A stored state name read back; anything unknown reads as completed.
pub open spec fn state_from_name(s: Seq<char>) -> ScanState {
    if s == "queued"@ {
        ScanState::Queued
    } else if s == "running"@ {
        ScanState::Running
    } else if s == "cancelled"@ {
        ScanState::Cancelled
    } else if s == "suspended"@ {
        ScanState::Suspended
    } else {
        ScanState::Completed
    }
}

pub fn state_str(s: ScanState) -> (r: &'static str)
    ensures
        r@ == state_name(s),
{
    match s {
        ScanState::Queued => "queued",
        ScanState::Running => "running",
        ScanState::Completed => "completed",
        ScanState::Cancelled => "cancelled",
        ScanState::Suspended => "suspended",
    }
}

pub fn state_parse(s: &str) -> (r: ScanState)
    ensures
        r == state_from_name(s@),
{
    if str_eq(s, "queued") {
        ScanState::Queued
    } else if str_eq(s, "running") {
        ScanState::Running
    } else if str_eq(s, "cancelled") {
        ScanState::Cancelled
    } else if str_eq(s, "suspended") {
        ScanState::Suspended
    } else {
        ScanState::Completed
    }
}

/// A trigger stored by name reads back as itself.
pub proof fn stored_triggers_read_back(t: Trigger)
    ensures
        trigger_from_name(trigger_name(t)) == t,
{
    reveal_strlit("initial");
    reveal_strlit("watch");
    reveal_strlit("scheduled");
    reveal_strlit("manual");
    reveal_strlit("reconfigure");
    reveal_strlit("restore");
    let n = trigger_name(t);
    match t {
        Trigger::Initial => {},
        Trigger::Watch => {
            assert(n[0] != "initial"@[0]);
        },
        Trigger::Scheduled => {
            assert(n[0] != "initial"@[0] && n[0] != "watch"@[0]);
        },
        Trigger::Manual => {
            assert(n[0] != "initial"@[0] && n[0] != "watch"@[0] && n[0] != "scheduled"@[0]
                && n[0] != "reconfigure"@[0] && n[0] != "restore"@[0]);
        },
        Trigger::Reconfigure => {
            assert(n[0] != "initial"@[0] && n[0] != "watch"@[0] && n[0] != "scheduled"@[0]);
        },
        Trigger::Restore => {
            assert(n[0] != "initial"@[0] && n[0] != "watch"@[0] && n[0] != "scheduled"@[0]);
            assert(n[2] != "reconfigure"@[2]);
        },
    }
}

/// A state stored by name reads back as itself.
pub proof fn stored_states_read_back(s: ScanState)
    ensures
        state_from_name(state_name(s)) == s,
{
    reveal_strlit("queued");
    reveal_strlit("running");
    reveal_strlit("completed");
    reveal_strlit("cancelled");
    reveal_strlit("suspended");
    let n = state_name(s);
    match s {
        ScanState::Queued => {},
        ScanState::Running => {
            assert(n[0] != "queued"@[0]);
        },
        ScanState::Completed => {
            assert(n[0] != "queued"@[0] && n[0] != "running"@[0] && n[0] != "suspended"@[0]);
            assert(n[1] != "cancelled"@[1]);
        },
        ScanState::Cancelled => {
            assert(n[0] != "queued"@[0] && n[0] != "running"@[0]);
        },
        ScanState::Suspended => {
            assert(n[0] != "queued"@[0] && n[0] != "running"@[0] && n[0] != "cancelled"@[0]);
        },
    }
}

/// A library root as stored.
#[derive(Debug, Clone, PartialEq, Eq)]
pub struct Root {
    pub id: i64,
    pub path: String,
}

/// A library row with its roots.
#[derive(Debug, Clone)]
pub struct LibraryRow {
    pub id: i64,
    pub name: String,
    pub excludes: Vec<String>,
    pub watch: bool,
    pub scan_interval_minutes: Option<i64>,
    pub roots: Vec<Root>,
}

fn i64_text(n: i64) -> (r: String)
    ensures
        r@ == int_text(n as int),
{
    let mut out: Vec<char> = Vec::new();
    if n < 0 {
        out.push('-');
        let m: u64 = if n == i64::MIN {
            9223372036854775808u64
        } else {
            (-n) as u64
        };
        push_digits(&mut out, m);
        proof {
            assert(m as int == -(n as int));
            assert(out@ =~= seq!['-'] + dec_digits((-(n as int)) as nat));
        }
    } else {
        push_digits(&mut out, n as u64);
        proof {
            assert(out@ =~= dec_digits(n as nat));
        }
    }
    string_from_chars(&out)
}

impl LibraryRow {
    /// What the scanner needs of the library: its id in decimal, its
    /// roots' paths in order, its exclude patterns.
    pub fn config(&self) -> (c: LibraryConfig)
        ensures
            c.id@ == int_text(self.id as int),
            c.roots@.map_values(|s: String| s@) == self.roots@.map_values(|r: Root| r.path@),
            c.excludes@.map_values(|s: String| s@) == self.excludes@.map_values(|s: String| s@),
    {
        let mut roots: Vec<String> = Vec::new();
        let mut i: usize = 0;
        while i < self.roots.len()
            invariant
                i <= self.roots.len(),
                roots@.map_values(|s: String| s@) == self.roots@.take(i as int).map_values(|r: Root| r.path@),
            decreases self.roots.len() - i,
        {
            let ghost before = roots@;
            roots.push(self.roots[i].path.clone());
            proof {
                assert(roots@.map_values(|s: String| s@) =~= before.map_values(|s: String| s@).push(self.roots@[i as int].path@));
                assert(self.roots@.take(i + 1).map_values(|r: Root| r.path@) =~= self.roots@.take(i as int).map_values(
                    |r: Root| r.path@,
                ).push(self.roots@[i as int].path@));
            }
            i = i + 1;
        }
        proof {
            assert(self.roots@.take(self.roots.len() as int) =~= self.roots@);
        }
        let excludes = self.excludes.clone();
        proof {
            assert(excludes@.map_values(|s: String| s@) =~= self.excludes@.map_values(|s: String| s@)) by {
                assert forall|k: int| 0 <= k < excludes@.len() implies excludes@[k]@ == self.excludes@[k]@ by {
                    assert(vstd::pervasive::cloned(self.excludes@[k], excludes@[k]));
                }
            }
        }
        LibraryConfig { id: i64_text(self.id), roots, excludes }
    }
}

/// Whether `v` is the most-used spelling among `values`: it occurs, none
/// occurs more often, and of those as frequent it comes first in byte
/// order.
pub open spec fn is_most_used(values: Seq<Seq<char>>, v: Seq<char>) -> bool {
    let counts = values.to_multiset();
    &&& counts.count(v) > 0
    &&& forall|w: Seq<char>| #[trigger] counts.count(w) <= counts.count(v)
    &&& forall|w: Seq<char>| #[trigger] counts.count(w) == counts.count(v) && w != v ==> lex_lt(v, w)
}

/// A tie never flips: at most one spelling is the most used, and which one
/// it is depends only on how often each spelling occurs, not on the order
/// the values come in.
pub proof fn most_used_is_unique_and_order_free(a: Seq<Seq<char>>, b: Seq<Seq<char>>, v: Seq<char>, w: Seq<char>)
    requires
        a.to_multiset() == b.to_multiset(),
        is_most_used(a, v),
        is_most_used(b, w),
    ensures
        v == w,
{
    let counts = a.to_multiset();
    assert(counts.count(w) <= counts.count(v));
    assert(counts.count(v) <= counts.count(w));
    if v != w {
        assert(lex_lt(v, w));
        assert(lex_lt(w, v));
        lemma_lex_asym(v, w);
    }
}

/// How often `v` occurs in `values`.
fn count_of(values: &Vec<String>, v: &str) -> (n: usize)
    ensures
        n == string_views(values@).to_multiset().count(v@),
{
    let ghost all = string_views(values@);
    let mut n: usize = 0;
    let mut j: usize = 0;
    proof {
        all.take(0).to_multiset_ensures();
        vstd::multiset::lemma_multiset_empty_len(all.take(0).to_multiset());
    }
    while j < values.len()
        invariant
            j <= values.len(),
            all == string_views(values@),
            n == all.take(j as int).to_multiset().count(v@),
            n <= j,
        decreases values.len() - j,
    {
        proof {
            assert(all.take(j + 1) =~= all.take(j as int).push(values@[j as int]@));
            all.take(j as int).to_multiset_ensures();
        }
        if str_eq(values[j].as_str(), v) {
            n = n + 1;
        }
        j = j + 1;
    }
    proof {
        assert(all.take(values.len() as int) =~= all);
    }
    n
}

/// The most-used spelling, ties broken by bytes, so that a tie never flips
/// between scans. `None` when there are no values.
pub fn most_used(values: &Vec<String>) -> (r: Option<String>)
    ensures
        values.len() == 0 ==> r is None,
        values.len() > 0 ==> (r matches Some(v) && is_most_used(string_views(values@), v@)),
{
    let ghost all = string_views(values@);
    if values.len() == 0 {
        return None;
    }
    proof {
        all.to_multiset_ensures();
        assert(all.contains(all[0]));
    }
    let mut best: usize = 0;
    let mut best_count: usize = count_of(values, values[0].as_str());
    let mut best_chars: Vec<char> = chars_of(values[0].as_str());
    let mut i: usize = 1;
    while i < values.len()
        invariant
            1 <= i <= values.len(),
            all == string_views(values@),
            best < values.len(),
            best_chars@ == all[best as int],
            best_count == all.to_multiset().count(all[best as int]),
            best_count > 0,
            forall|k: int| 0 <= k < i ==> #[trigger] all.to_multiset().count(all[k]) <= best_count,
            forall|k: int|
                0 <= k < i && #[trigger] all.to_multiset().count(all[k]) == best_count && all[k] != all[best as int]
                    ==> lex_lt(all[best as int], all[k]),
        decreases values.len() - i,
    {
        let c = count_of(values, values[i].as_str());
        let ch = chars_of(values[i].as_str());
        if c > best_count || (c == best_count && lex_less(&ch, &best_chars)) {
            proof {
                let old_best = all[best as int];
                let nb = all[i as int];
                assert forall|k: int|
                    0 <= k < i + 1 && #[trigger] all.to_multiset().count(all[k]) == c && all[k] != nb implies lex_lt(nb, all[k]) by {
                    if k < i {
                        if c > best_count {
                        } else {
                            if all[k] == old_best {
                            } else {
                                crate::order::lemma_lex_transitive(nb, old_best, all[k]);
                            }
                        }
                    }
                }
            }
            best = i;
            best_count = c;
            best_chars = ch;
        } else {
            proof {
                if c == best_count && all[i as int] != all[best as int] {
                    crate::order::lemma_lex_total(all[i as int], all[best as int]);
                }
            }
        }
        i = i + 1;
    }
    proof {
        let counts = all.to_multiset();
        let v = all[best as int];
        assert forall|w: Seq<char>| #[trigger] counts.count(w) <= counts.count(v) by {
            if counts.count(w) > 0 {
                assert(all.contains(w));
                let k = choose|k: int| 0 <= k < all.len() && all[k] == w;
                assert(counts.count(all[k]) <= best_count);
            }
        }
        assert forall|w: Seq<char>| #[trigger] counts.count(w) == counts.count(v) && w != v implies lex_lt(v, w) by {
            assert(counts.count(w) > 0);
            assert(all.contains(w));
            let k = choose|k: int| 0 <= k < all.len() && all[k] == w;
            assert(counts.count(all[k]) == best_count);
        }
    }
    Some(string_from_chars(&best_chars))
}

} // verus!
