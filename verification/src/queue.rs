//! The coalescing scan queue's decisions. Every trigger does nothing but
//! enqueue scopes: equal work is dropped, containing work replaces
//! contained work, and "an equivalent scan is already running" is a lookup.
use vstd::prelude::*;

use crate::types::{any_covers, covered_by, covers_is_reflexive, covers_is_transitive, covers_spec, scopes_cover, Scan, Scope};

verus! {

/// One step of coalescing: a scope already covered is dropped; otherwise
/// the scopes it covers make way for it.
pub open spec fn coalesce_step(out: Seq<Scope>, s: Scope) -> Seq<Scope> {
    if covered_by(out, s) {
        out
    } else {
        out.filter(|o: Scope| !covers_spec(s, o)).push(s)
    }
}

/// The scopes of a request with every scope covered by another dropped.
pub open spec fn coalesce_of(ss: Seq<Scope>) -> Seq<Scope>
    decreases ss.len(),
{
    if ss.len() == 0 {
        Seq::empty()
    } else {
        coalesce_step(coalesce_of(ss.drop_last()), ss.last())
    }
}

/// No kept scope covers another kept scope.
pub open spec fn no_scope_covers_another(out: Seq<Scope>) -> bool {
    forall|i: int, j: int| 0 <= i < out.len() && 0 <= j < out.len() && i != j ==> !covers_spec(#[trigger] out[i], #[trigger] out[j])
}

/// Coalescing keeps all the work and drops all the redundancy: every
/// requested scope is covered by a kept one, and no kept scope covers
/// another.
pub proof fn coalescing_keeps_all_work(ss: Seq<Scope>)
    ensures
        scopes_cover(coalesce_of(ss), ss),
        no_scope_covers_another(coalesce_of(ss)),
        forall|k: int| 0 <= k < coalesce_of(ss).len() ==> ss.contains(#[trigger] coalesce_of(ss)[k]),
    decreases ss.len(),
{
    if ss.len() > 0 {
        let init = ss.drop_last();
        let s = ss.last();
        coalescing_keeps_all_work(init);
        let out = coalesce_of(init);
        let pred = |o: Scope| !covers_spec(s, o);
        if covered_by(out, s) {
            assert forall|i: int| 0 <= i < ss.len() implies covered_by(out, #[trigger] ss[i]) by {
                if i < ss.len() - 1 {
                    assert(init[i] == ss[i]);
                }
            }
            assert forall|k: int| 0 <= k < out.len() implies ss.contains(#[trigger] out[k]) by {
                let m = choose|m: int| 0 <= m < init.len() && init[m] == out[k];
                assert(ss[m] == out[k]);
            }
        } else {
            let f = out.filter(pred);
            let r = f.push(s);
            broadcast use vstd::seq_lib::group_filter_ensures;

            assert forall|i: int| 0 <= i < ss.len() implies covered_by(r, #[trigger] ss[i]) by {
                if i == ss.len() - 1 {
                    covers_is_reflexive(s);
                    assert(covers_spec(r[f.len() as int], ss[i]));
                } else {
                    assert(init[i] == ss[i]);
                    let j = choose|j: int| 0 <= j < out.len() && #[trigger] covers_spec(out[j], init[i]);
                    if pred(out[j]) {
                        assert(f.contains(out[j]));
                        let m = choose|m: int| 0 <= m < f.len() && f[m] == out[j];
                        assert(covers_spec(r[m], ss[i]));
                    } else {
                        covers_is_transitive(s, out[j], ss[i]);
                        assert(covers_spec(r[f.len() as int], ss[i]));
                    }
                }
            }
            assert forall|i: int, j: int| 0 <= i < r.len() && 0 <= j < r.len() && i != j implies !covers_spec(#[trigger] r[i], #[trigger] r[j]) by {
                if i < f.len() && j < f.len() {
                    lemma_filter_positions(out, pred, i, j);
                } else if i == f.len() as int {
                    assert(pred(f[j]));
                } else {
                    lemma_filter_subset(out, pred, i);
                    let a = choose|a: int| 0 <= a < out.len() && out[a] == f[i];
                    assert(!covered_by(out, s));
                    assert(!covers_spec(out[a], s));
                }
            }
            assert forall|k: int| 0 <= k < r.len() implies ss.contains(#[trigger] r[k]) by {
                if k < f.len() {
                    lemma_filter_subset(out, pred, k);
                    let a = choose|a: int| 0 <= a < out.len() && out[a] == f[k];
                    let m = choose|m: int| 0 <= m < init.len() && init[m] == out[a];
                    assert(ss[m] == r[k]);
                } else {
                    assert(ss[ss.len() - 1] == r[k]);
                }
            }
        }
    }
}

/// What a filter keeps comes from the original.
pub proof fn lemma_filter_subset<A>(s: Seq<A>, pred: spec_fn(A) -> bool, i: int)
    requires
        0 <= i < s.filter(pred).len(),
    ensures
        s.contains(s.filter(pred)[i]),
    decreases s.len(),
{
    reveal(Seq::filter);
    let t = s.drop_last();
    if pred(s.last()) && i == t.filter(pred).len() {
        assert(s[s.len() - 1] == s.filter(pred)[i]);
    } else {
        lemma_filter_subset(t, pred, i);
        let a = choose|a: int| 0 <= a < t.len() && t[a] == t.filter(pred)[i];
        assert(s[a] == s.filter(pred)[i]);
    }
}

/// Two positions of a filtered sequence come from two positions of the
/// original.
pub proof fn lemma_filter_positions(s: Seq<Scope>, pred: spec_fn(Scope) -> bool, i: int, j: int)
    requires
        no_scope_covers_another(s),
        0 <= i < s.filter(pred).len(),
        0 <= j < s.filter(pred).len(),
        i != j,
    ensures
        !covers_spec(s.filter(pred)[i], s.filter(pred)[j]),
    decreases s.len(),
{
    reveal(Seq::filter);
    let t = s.drop_last();
    let ft = t.filter(pred);
    assert(no_scope_covers_another(t)) by {
        assert forall|a: int, b: int| 0 <= a < t.len() && 0 <= b < t.len() && a != b implies !covers_spec(#[trigger] t[a], #[trigger] t[b]) by {
            assert(t[a] == s[a] && t[b] == s[b]);
        }
    }
    broadcast use vstd::seq_lib::group_filter_ensures;

    if pred(s.last()) {
        if i < ft.len() && j < ft.len() {
            lemma_filter_positions(t, pred, i, j);
        } else if i == ft.len() {
            lemma_filter_subset(t, pred, j);
            let b = choose|b: int| 0 <= b < t.len() && t[b] == ft[j];
            assert(s[s.len() - 1] == s.filter(pred)[i]);
            assert(s[b] == s.filter(pred)[j]);
        } else {
            lemma_filter_subset(t, pred, i);
            let a = choose|a: int| 0 <= a < t.len() && t[a] == ft[i];
            assert(s[s.len() - 1] == s.filter(pred)[j]);
            assert(s[a] == s.filter(pred)[i]);
        }
    } else {
        lemma_filter_positions(t, pred, i, j);
    }
}

/// Scopes none of which covers another are left as they are.
proof fn lemma_coalesce_settled(xs: Seq<Scope>)
    requires
        no_scope_covers_another(xs),
    ensures
        coalesce_of(xs) == xs,
    decreases xs.len(),
{
    if xs.len() > 0 {
        let init = xs.drop_last();
        let s = xs.last();
        assert(no_scope_covers_another(init)) by {
            assert forall|i: int, j: int| 0 <= i < init.len() && 0 <= j < init.len() && i != j implies !covers_spec(
                #[trigger] init[i],
                #[trigger] init[j],
            ) by {
                assert(init[i] == xs[i] && init[j] == xs[j]);
            }
        }
        lemma_coalesce_settled(init);
        assert(!covered_by(init, s)) by {
            if covered_by(init, s) {
                let j = choose|j: int| 0 <= j < init.len() && #[trigger] covers_spec(init[j], s);
                assert(covers_spec(xs[j], xs[xs.len() - 1]));
            }
        }
        assert(init.filter(|o: Scope| !covers_spec(s, o)) == init) by {
            assert forall|i: int| 0 <= i < init.len() implies !covers_spec(s, #[trigger] init[i]) by {
                assert(!covers_spec(xs[xs.len() - 1], xs[i]));
            }
            lemma_filter_all(init, |o: Scope| !covers_spec(s, o));
        }
        assert(init.push(s) =~= xs);
    }
}

proof fn lemma_filter_all(s: Seq<Scope>, p: spec_fn(Scope) -> bool)
    requires
        forall|i: int| 0 <= i < s.len() ==> p(#[trigger] s[i]),
    ensures
        s.filter(p) == s,
    decreases s.len(),
{
    reveal(Seq::filter);
    if s.len() > 0 {
        assert forall|i: int| 0 <= i < s.drop_last().len() implies p(#[trigger] s.drop_last()[i]) by {
            assert(s.drop_last()[i] == s[i]);
        }
        lemma_filter_all(s.drop_last(), p);
        assert(p(s[s.len() - 1]));
        assert(s.drop_last().push(s.last()) =~= s);
    } else {
        assert(s.filter(p) =~= s);
    }
}

/// Coalescing is idempotent: coalescing its result again changes nothing.
pub proof fn coalescing_twice_changes_nothing(ss: Seq<Scope>)
    ensures
        coalesce_of(coalesce_of(ss)) == coalesce_of(ss),
{
    coalescing_keeps_all_work(ss);
    lemma_coalesce_settled(coalesce_of(ss));
}

/// Drop scopes covered by other scopes in the same request.
pub fn coalesce_scopes(scopes: Vec<Scope>) -> (out: Vec<Scope>)
    ensures
        out@ == coalesce_of(scopes@),
        scopes_cover(out@, scopes@),
        no_scope_covers_another(out@),
{
    let ghost all = scopes@;
    let mut rest = scopes;
    let mut out: Vec<Scope> = Vec::new();
    let mut n: usize = 0;
    assert(all.len() == rest.len());
    while rest.len() > 0
        invariant
            n + rest.len() == all.len(),
            all.len() <= usize::MAX,
            rest@ == all.skip(n as int),
            out@ == coalesce_of(all.take(n as int)),
        decreases rest.len(),
    {
        let s = rest.remove(0);
        proof {
            assert(s == all[n as int]);
            assert(all.take(n + 1).drop_last() =~= all.take(n as int));
            assert(all.take(n + 1).last() == s);
            assert(rest@ =~= all.skip(n + 1));
        }
        if !any_covers(&out, &s) {
            let ghost before = out@;
            assert(before.len() == out.len());
            let mut kept: Vec<Scope> = Vec::new();
            let mut k: usize = 0;
            while out.len() > 0
                invariant
                    k + out.len() == before.len(),
                    before.len() <= usize::MAX,
                    out@ == before.skip(k as int),
                    kept@ == before.take(k as int).filter(|o: Scope| !covers_spec(s, o)),
                decreases out.len(),
            {
                let o = out.remove(0);
                proof {
                    assert(o == before[k as int]);
                    assert(before.take(k + 1) =~= before.take(k as int).push(o));
                    before.take(k as int).lemma_filter_push(o, |x: Scope| !covers_spec(s, x));
                    assert(out@ =~= before.skip(k + 1));
                }
                if !s.covers(&o) {
                    kept.push(o);
                }
                k = k + 1;
            }
            proof {
                assert(before.take(before.len() as int) =~= before);
            }
            kept.push(s);
            out = kept;
        }
        n = n + 1;
    }
    proof {
        assert(all.take(all.len() as int) =~= all);
        coalescing_keeps_all_work(all);
    }
    out
}

/// What a request for `scopes` comes to.
#[derive(Debug, Clone, PartialEq, Eq)]
pub enum RequestPlan {
    /// An existing scan (running or queued) already does the work.
    Existing(u64),
    /// A new scan is needed; the queued scans at these positions are
    /// subsumed by it and are cancelled.
    New(Vec<usize>),
}

/// The queued scans, by position, whose work `scopes` covers.
pub open spec fn subsumed_of(queued: Seq<Scan>, scopes: Seq<Scope>) -> Seq<usize> {
    Seq::new(queued.len(), |i: int| i as usize).filter(|i: usize| scopes_cover(scopes, queued[i as int].scopes@))
}

/// Whether `k` is the first queued scan covering `scopes`.
pub open spec fn first_covering(queued: Seq<Scan>, scopes: Seq<Scope>, k: int) -> bool {
    &&& 0 <= k < queued.len()
    &&& scopes_cover(queued[k].scopes@, scopes)
    &&& forall|m: int| 0 <= m < k ==> !scopes_cover(#[trigger] queued[m].scopes@, scopes)
}

/// Decide a request for the already coalesced `scopes`: the running scan
/// answers it when it covers the work and is not being cancelled; else the
/// first queued scan that covers it; else a new scan, which replaces the
/// queued scans it covers.
pub fn plan_request(running: &Option<Scan>, cancelling: bool, queued: &Vec<Scan>, scopes: &Vec<Scope>) -> (plan: RequestPlan)
    ensures
        match running {
            Some(r) if !cancelling && scopes_cover(r.scopes@, scopes@) => plan == RequestPlan::Existing(r.id),
            _ => match plan {
                RequestPlan::Existing(id) => exists|k: int| first_covering(queued@, scopes@, k) && queued@[k].id == id,
                RequestPlan::New(subsumed) => (forall|k: int| 0 <= k < queued.len() ==> !scopes_cover(#[trigger] queued@[k].scopes@, scopes@))
                    && subsumed@ == subsumed_of(queued@, scopes@),
            },
        },
{
    if let Some(r) = running {
        if !cancelling && r.covers(scopes.as_slice()) {
            return RequestPlan::Existing(r.id);
        }
    }
    let mut k: usize = 0;
    while k < queued.len()
        invariant
            k <= queued.len(),
            match running {
                Some(r) => cancelling || !scopes_cover(r.scopes@, scopes@),
                None => true,
            },
            forall|m: int| 0 <= m < k ==> !scopes_cover(#[trigger] queued@[m].scopes@, scopes@),
        decreases queued.len() - k,
    {
        if queued[k].covers(scopes.as_slice()) {
            proof {
                assert(first_covering(queued@, scopes@, k as int));
            }
            return RequestPlan::Existing(queued[k].id);
        }
        k = k + 1;
    }
    let ghost idx = Seq::new(queued.len() as nat, |i: int| i as usize);
    let ghost pred = |i: usize| scopes_cover(scopes@, queued@[i as int].scopes@);
    let mut subsumed: Vec<usize> = Vec::new();
    let mut i: usize = 0;
    while i < queued.len()
        invariant
            i <= queued.len(),
            match running {
                Some(r) => cancelling || !scopes_cover(r.scopes@, scopes@),
                None => true,
            },
            forall|m: int| 0 <= m < queued.len() ==> !scopes_cover(#[trigger] queued@[m].scopes@, scopes@),
            idx == Seq::new(queued.len() as nat, |i: int| i as usize),
            pred == (|i: usize| scopes_cover(scopes@, queued@[i as int].scopes@)),
            subsumed@ == idx.take(i as int).filter(pred),
        decreases queued.len() - i,
    {
        proof {
            assert(idx.take(i + 1) =~= idx.take(i as int).push(i));
            idx.take(i as int).lemma_filter_push(i, pred);
        }
        if scopes_covered(scopes, &queued[i].scopes) {
            subsumed.push(i);
        }
        i = i + 1;
    }
    proof {
        assert(idx.take(queued.len() as int) =~= idx);
    }
    RequestPlan::New(subsumed)
}

/// Whether every scope of `other` is covered by some scope of `mine`.
pub fn scopes_covered(mine: &Vec<Scope>, other: &Vec<Scope>) -> (r: bool)
    ensures
        r == scopes_cover(mine@, other@),
{
    let mut i: usize = 0;
    while i < other.len()
        invariant
            i <= other.len(),
            forall|k: int| 0 <= k < i ==> covered_by(mine@, #[trigger] other@[k]),
        decreases other.len() - i,
    {
        if !any_covers(mine, &other[i]) {
            return false;
        }
        i = i + 1;
    }
    true
}

/// What a request to cancel a scan comes to.
#[derive(Debug, Clone, Copy, PartialEq, Eq, Structural)]
pub enum CancelPlan {
    /// The running scan: it stops at its next batch boundary.
    Running,
    /// The queued scan at this position: it leaves the queue, cancelled.
    Queued(usize),
    /// No such scan is running or queued.
    Unknown,
}

/// Decide a cancel request for scan `id`: the running scan if it is that
/// one, else the first queued scan with that id, else nothing.
pub fn plan_cancel(running: &Option<Scan>, queued: &Vec<Scan>, id: u64) -> (plan: CancelPlan)
    ensures
        match running {
            Some(r) if r.id == id => plan == CancelPlan::Running,
            _ => match plan {
                CancelPlan::Queued(k) => k < queued.len() && queued@[k as int].id == id && forall|m: int|
                    0 <= m < k ==> #[trigger] queued@[m].id != id,
                CancelPlan::Unknown => forall|m: int| 0 <= m < queued.len() ==> #[trigger] queued@[m].id != id,
                CancelPlan::Running => false,
            },
        },
{
    if let Some(r) = running {
        if r.id == id {
            return CancelPlan::Running;
        }
    }
    let mut k: usize = 0;
    while k < queued.len()
        invariant
            k <= queued.len(),
            forall|m: int| 0 <= m < k ==> #[trigger] queued@[m].id != id,
            match running {
                Some(r) => r.id != id,
                None => true,
            },
        decreases queued.len() - k,
    {
        if queued[k].id == id {
            return CancelPlan::Queued(k);
        }
        k = k + 1;
    }
    CancelPlan::Unknown
}

} // verus!
