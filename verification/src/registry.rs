//! The ffmpeg process pool's bookkeeping: who is running, who has stalled,
//! and whether the pool is paused. Every operation returns the signals to
//! send; the caller holds the lock, sends them and keeps the clock.
use vstd::prelude::*;

verus! {

/// One live child.
#[derive(Debug, Clone, Copy, PartialEq, Eq, Structural)]
pub struct Child {
    pub pid: u32,
    /// When it last produced output, in milliseconds of the caller's clock.
    pub last_progress_ms: u64,
    /// Set when the watchdog killed it, so the reader reports a stall rather
    /// than a generic failure.
    pub stalled: bool,
}

/// The children as a map from process id to (last progress, stalled).
pub open spec fn child_map(s: Seq<Child>) -> Map<u32, (u64, bool)>
    decreases s.len(),
{
    if s.len() == 0 {
        Map::empty()
    } else {
        child_map(s.drop_last()).insert(s.last().pid, (s.last().last_progress_ms, s.last().stalled))
    }
}

pub open spec fn distinct_pids(s: Seq<Child>) -> bool {
    forall|i: int, j: int| 0 <= i < j < s.len() ==> s[i].pid != s[j].pid
}

pub proof fn lemma_child_map_dom(s: Seq<Child>)
    ensures
        forall|p: u32| child_map(s).contains_key(p) <==> exists|i: int| 0 <= i < s.len() && s[i].pid == p,
        child_map(s).dom().finite(),
    decreases s.len(),
{
    if s.len() > 0 {
        lemma_child_map_dom(s.drop_last());
        assert forall|p: u32| child_map(s).contains_key(p) <==> exists|i: int| 0 <= i < s.len() && s[i].pid == p by {
            if child_map(s.drop_last()).contains_key(p) {
                let i = choose|i: int| 0 <= i < s.drop_last().len() && s.drop_last()[i].pid == p;
                assert(s[i].pid == p);
            }
            if exists|i: int| 0 <= i < s.len() && s[i].pid == p {
                let i = choose|i: int| 0 <= i < s.len() && s[i].pid == p;
                if i < s.len() - 1 {
                    assert(s.drop_last()[i].pid == p);
                }
            }
        }
    }
}

pub proof fn lemma_child_map_at(s: Seq<Child>, i: int)
    requires
        distinct_pids(s),
        0 <= i < s.len(),
    ensures
        child_map(s).contains_key(s[i].pid),
        child_map(s)[s[i].pid] == (s[i].last_progress_ms, s[i].stalled),
    decreases s.len(),
{
    if i < s.len() - 1 {
        lemma_child_map_at(s.drop_last(), i);
        assert(s.drop_last()[i] == s[i]);
    }
}

pub proof fn lemma_child_map_update(s: Seq<Child>, i: int, c: Child)
    requires
        distinct_pids(s),
        0 <= i < s.len(),
        s[i].pid == c.pid,
    ensures
        child_map(s.update(i, c)) == child_map(s).insert(c.pid, (c.last_progress_ms, c.stalled)),
        distinct_pids(s.update(i, c)),
    decreases s.len(),
{
    let t = s.update(i, c);
    if i == s.len() - 1 {
        assert(t.drop_last() =~= s.drop_last());
        assert(child_map(t) =~= child_map(s).insert(c.pid, (c.last_progress_ms, c.stalled)));
    } else {
        lemma_child_map_update(s.drop_last(), i, c);
        assert(t.drop_last() =~= s.drop_last().update(i, c));
        assert(s.last().pid != c.pid);
        assert(child_map(t) =~= child_map(s).insert(c.pid, (c.last_progress_ms, c.stalled)));
    }
}

pub proof fn lemma_child_map_remove(s: Seq<Child>, i: int)
    requires
        distinct_pids(s),
        0 <= i < s.len(),
    ensures
        child_map(s.remove(i)) == child_map(s).remove(s[i].pid),
        distinct_pids(s.remove(i)),
    decreases s.len(),
{
    let t = s.remove(i);
    let p = s[i].pid;
    lemma_child_map_dom(s.drop_last());
    if i == s.len() - 1 {
        assert(t =~= s.drop_last());
        assert forall|k: int| 0 <= k < s.drop_last().len() implies s.drop_last()[k].pid != p by {
            assert(s[k].pid != s[i].pid);
        }
        assert(child_map(t) =~= child_map(s).remove(p));
    } else {
        lemma_child_map_remove(s.drop_last(), i);
        assert(t.drop_last() =~= s.drop_last().remove(i));
        assert(t.last() == s.last());
        assert(s.last().pid != p);
        assert(child_map(t) =~= child_map(s).remove(p));
    }
}

pub proof fn lemma_child_map_push(s: Seq<Child>, c: Child)
    requires
        distinct_pids(s),
        forall|k: int| 0 <= k < s.len() ==> s[k].pid != c.pid,
    ensures
        child_map(s.push(c)) == child_map(s).insert(c.pid, (c.last_progress_ms, c.stalled)),
        distinct_pids(s.push(c)),
{
    assert(s.push(c).drop_last() =~= s);
}

/// Tracks every live ffmpeg child so the watchdog can kill stalls and the
/// governor can stop and continue them.
pub struct Registry {
    children: Vec<Child>,
    paused: bool,
    stall_timeout_ms: u64,
    max_processes: usize,
}

impl Registry {
    /// The pool's invariant: each child listed once, room for at least one.
    pub closed spec fn wf(&self) -> bool {
        distinct_pids(self.children@) && self.max_processes >= 1
    }

    /// The live children: process id to (last progress, stalled).
    pub closed spec fn children(&self) -> Map<u32, (u64, bool)> {
        child_map(self.children@)
    }

    pub closed spec fn paused_spec(&self) -> bool {
        self.paused
    }

    pub closed spec fn limit(&self) -> nat {
        self.max_processes as nat
    }

    pub closed spec fn timeout(&self) -> u64 {
        self.stall_timeout_ms
    }

    /// An empty, running pool. The bound is at least one.
    pub fn new(stall_timeout_ms: u64, max_processes: usize) -> (r: Registry)
        ensures
            r.wf(),
            r.children() == Map::<u32, (u64, bool)>::empty(),
            !r.paused_spec(),
            r.limit() == if max_processes >= 1 {
                max_processes as nat
            } else {
                1
            },
            r.timeout() == stall_timeout_ms,
    {
        Registry {
            children: Vec::new(),
            paused: false,
            stall_timeout_ms,
            max_processes: if max_processes >= 1 {
                max_processes
            } else {
                1
            },
        }
    }

    /// Whether the pool admits another child: it is not paused and has a
    /// free slot.
    pub open spec fn admits(&self) -> bool {
        !self.paused_spec() && self.children().dom().len() < self.limit()
    }

    /// Whether a new child may start now. The caller waits while this is
    /// false.
    pub fn acquire(&self) -> (ok: bool)
        requires
            self.wf(),
        ensures
            ok == self.admits(),
    {
        proof {
            lemma_len_is_dom_len(self.children@);
        }
        !self.paused && self.children.len() < self.max_processes
    }

    fn index_of(&self, pid: u32) -> (r: Option<usize>)
        requires
            self.wf(),
        ensures
            r matches Some(i) ==> i < self.children@.len() && self.children@[i as int].pid == pid,
            r is None ==> !self.children().contains_key(pid),
    {
        let mut i: usize = 0;
        while i < self.children.len()
            invariant
                i <= self.children.len(),
                forall|k: int| 0 <= k < i ==> self.children@[k].pid != pid,
            decreases self.children.len() - i,
        {
            if self.children[i].pid == pid {
                return Some(i);
            }
            i = i + 1;
        }
        proof {
            lemma_child_map_dom(self.children@);
        }
        None
    }

    /// Record a newly spawned child. Returns whether it must be stopped at
    /// once because it was born into a paused pool.
    pub fn register(&mut self, pid: u32, now_ms: u64) -> (stop: bool)
        requires
            old(self).wf(),
        ensures
            final(self).wf(),
            final(self).children() == old(self).children().insert(pid, (now_ms, false)),
            final(self).paused_spec() == old(self).paused_spec(),
            final(self).limit() == old(self).limit(),
            final(self).timeout() == old(self).timeout(),
            stop == old(self).paused_spec(),
    {
        let c = Child { pid, last_progress_ms: now_ms, stalled: false };
        match self.index_of(pid) {
            Some(i) => {
                proof {
                    lemma_child_map_update(self.children@, i as int, c);
                }
                self.children.set(i, c);
            },
            None => {
                proof {
                    lemma_child_map_dom(self.children@);
                    assert forall|k: int| 0 <= k < self.children@.len() implies self.children@[k].pid != pid by {
                        if self.children@[k].pid == pid {
                            assert(self.children().contains_key(pid));
                        }
                    }
                    lemma_child_map_push(self.children@, c);
                }
                self.children.push(c);
            },
        }
        self.paused
    }

    /// The child produced output: its stall clock restarts.
    pub fn progress(&mut self, pid: u32, now_ms: u64)
        requires
            old(self).wf(),
        ensures
            final(self).wf(),
            final(self).children() == if old(self).children().contains_key(pid) {
                old(self).children().insert(pid, (now_ms, old(self).children()[pid].1))
            } else {
                old(self).children()
            },
            final(self).paused_spec() == old(self).paused_spec(),
            final(self).limit() == old(self).limit(),
            final(self).timeout() == old(self).timeout(),
    {
        if let Some(i) = self.index_of(pid) {
            let old_c = self.children[i];
            let c = Child { pid, last_progress_ms: now_ms, stalled: old_c.stalled };
            proof {
                lemma_child_map_at(self.children@, i as int);
                lemma_child_map_update(self.children@, i as int, c);
            }
            self.children.set(i, c);
        }
    }

    /// The child is gone; its slot frees.
    pub fn unregister(&mut self, pid: u32)
        requires
            old(self).wf(),
        ensures
            final(self).wf(),
            final(self).children() == old(self).children().remove(pid),
            final(self).paused_spec() == old(self).paused_spec(),
            final(self).limit() == old(self).limit(),
            final(self).timeout() == old(self).timeout(),
    {
        match self.index_of(pid) {
            Some(i) => {
                proof {
                    lemma_child_map_remove(self.children@, i as int);
                }
                self.children.remove(i);
            },
            None => {
                proof {
                    assert(self.children().remove(pid) =~= self.children());
                }
            },
        }
    }

    /// Whether the watchdog killed `pid`.
    pub fn is_stalled(&self, pid: u32) -> (r: bool)
        requires
            self.wf(),
        ensures
            r == (self.children().contains_key(pid) && self.children()[pid].1),
    {
        match self.index_of(pid) {
            Some(i) => {
                proof {
                    lemma_child_map_at(self.children@, i as int);
                }
                self.children[i].stalled
            },
            None => false,
        }
    }

    /// The watchdog's pass: unless the pool is paused (a stopped process is
    /// not a stalled one), every child silent for longer than the stall
    /// timeout is marked stalled, and its process id returned to be killed.
    pub fn reap_stalled(&mut self, now_ms: u64) -> (kill: Vec<u32>)
        requires
            old(self).wf(),
        ensures
            final(self).wf(),
            final(self).paused_spec() == old(self).paused_spec(),
            final(self).limit() == old(self).limit(),
            final(self).timeout() == old(self).timeout(),
            final(self).children().dom() == old(self).children().dom(),
            forall|p: u32| #[trigger] old(self).children().contains_key(p) ==> {
                let (t, s) = old(self).children()[p];
                let late = !old(self).paused_spec() && now_ms - t > old(self).timeout();
                &&& final(self).children()[p] == (t, s || late)
                &&& (kill@.contains(p) <==> late)
            },
            forall|p: u32| kill@.contains(p) ==> old(self).children().contains_key(p),
    {
        let mut kill: Vec<u32> = Vec::new();
        if self.paused {
            proof {
                assert forall|p: u32| #[trigger] old(self).children().contains_key(p) implies {
                    let (t, s) = old(self).children()[p];
                    final(self).children()[p] == (t, s)
                } by {
                }
            }
            return kill;
        }
        let ghost start = self.children@;
        let mut i: usize = 0;
        while i < self.children.len()
            invariant
                self.wf(),
                !self.paused,
                self.children@.len() == start.len(),
                i <= start.len(),
                self.stall_timeout_ms == old(self).stall_timeout_ms,
                self.max_processes == old(self).max_processes,
                start == old(self).children@,
                forall|k: int| 0 <= k < start.len() ==> (#[trigger] self.children@[k]).pid == start[k].pid
                    && self.children@[k].last_progress_ms == start[k].last_progress_ms,
                forall|k: int| 0 <= k < i ==> (#[trigger] self.children@[k]).stalled == (start[k].stalled || now_ms - start[k].last_progress_ms > self.stall_timeout_ms),
                forall|k: int| i <= k < start.len() ==> (#[trigger] self.children@[k]).stalled == start[k].stalled,
                forall|p: u32| kill@.contains(p) <==> exists|k: int| 0 <= k < i && #[trigger] start[k].pid == p && now_ms - start[k].last_progress_ms > self.stall_timeout_ms,
            decreases start.len() - i,
        {
            let c = self.children[i];
            let ghost kb = kill@;
            if now_ms >= c.last_progress_ms && now_ms - c.last_progress_ms > self.stall_timeout_ms {
                let nc = Child { pid: c.pid, last_progress_ms: c.last_progress_ms, stalled: true };
                proof {
                    lemma_child_map_update(self.children@, i as int, nc);
                }
                self.children.set(i, nc);
                kill.push(c.pid);
            }
            proof {
                assert forall|p: u32| kill@.contains(p) <==> exists|k: int| 0 <= k < i + 1 && #[trigger] start[k].pid == p && now_ms - start[k].last_progress_ms > self.stall_timeout_ms by {
                    if exists|k: int| 0 <= k < i + 1 && #[trigger] start[k].pid == p && now_ms - start[k].last_progress_ms > self.stall_timeout_ms {
                        let k = choose|k: int| 0 <= k < i + 1 && #[trigger] start[k].pid == p && now_ms - start[k].last_progress_ms > self.stall_timeout_ms;
                        if k == i {
                            assert(kill@[kill@.len() - 1] == p);
                        } else {
                            assert(kb.contains(p));
                            let q = choose|q: int| 0 <= q < kb.len() && kb[q] == p;
                            assert(kill@[q] == p);
                        }
                    }
                    if kill@.contains(p) {
                        let q = choose|q: int| 0 <= q < kill@.len() && kill@[q] == p;
                        if q < kb.len() {
                            assert(kb[q] == p);
                            assert(kb.contains(p));
                        } else {
                            assert(start[i as int].pid == p);
                        }
                    }
                }
            }
            i = i + 1;
        }
        proof {
            assert forall|p: u32| #[trigger] old(self).children().contains_key(p) implies {
                let (t, s) = old(self).children()[p];
                let late = !old(self).paused_spec() && now_ms - t > old(self).timeout();
                &&& self.children()[p] == (t, s || late)
                &&& (kill@.contains(p) <==> late)
            } by {
                lemma_child_map_dom(start);
                let k = choose|k: int| 0 <= k < start.len() && start[k].pid == p;
                lemma_child_map_at(start, k);
                lemma_child_map_at(self.children@, k);
                if kill@.contains(p) {
                    let m = choose|m: int| 0 <= m < i && #[trigger] start[m].pid == p && now_ms - start[m].last_progress_ms > self.stall_timeout_ms;
                    assert(m == k);
                }
            }
            lemma_child_map_dom(start);
            lemma_child_map_dom(self.children@);
            assert forall|p: u32| self.children().contains_key(p) <==> old(self).children().contains_key(p) by {
                if self.children().contains_key(p) {
                    let k = choose|k: int| 0 <= k < self.children@.len() && self.children@[k].pid == p;
                    assert(start[k].pid == p);
                }
                if old(self).children().contains_key(p) {
                    let k = choose|k: int| 0 <= k < start.len() && start[k].pid == p;
                    assert(self.children@[k].pid == p);
                }
            }
            assert(self.children().dom() =~= old(self).children().dom());
            assert forall|p: u32| kill@.contains(p) implies old(self).children().contains_key(p) by {
                let m = choose|m: int| 0 <= m < i && #[trigger] start[m].pid == p && now_ms - start[m].last_progress_ms > self.stall_timeout_ms;
            }
        }
        kill
    }

    /// Stop every child and admit no new ones. Returns the process ids to
    /// stop.
    pub fn pause_all(&mut self) -> (stop: Vec<u32>)
        requires
            old(self).wf(),
        ensures
            final(self).wf(),
            final(self).paused_spec(),
            final(self).children() == old(self).children(),
            final(self).limit() == old(self).limit(),
            final(self).timeout() == old(self).timeout(),
            forall|p: u32| stop@.contains(p) <==> old(self).children().contains_key(p),
    {
        self.paused = true;
        let stop = self.pids();
        stop
    }

    /// Continue every child and reopen admission. Progress clocks restart at
    /// `now_ms` so time spent stopped does not count as a stall. Returns the
    /// process ids to continue.
    pub fn resume_all(&mut self, now_ms: u64) -> (cont: Vec<u32>)
        requires
            old(self).wf(),
        ensures
            final(self).wf(),
            !final(self).paused_spec(),
            final(self).children().dom() == old(self).children().dom(),
            forall|p: u32| #[trigger] old(self).children().contains_key(p) ==> final(self).children()[p]
                == (now_ms, old(self).children()[p].1),
            final(self).limit() == old(self).limit(),
            final(self).timeout() == old(self).timeout(),
            forall|p: u32| cont@.contains(p) <==> old(self).children().contains_key(p),
    {
        self.paused = false;
        let ghost start = self.children@;
        let mut i: usize = 0;
        while i < self.children.len()
            invariant
                self.wf(),
                !self.paused,
                self.children@.len() == start.len(),
                i <= start.len(),
                self.stall_timeout_ms == old(self).stall_timeout_ms,
                self.max_processes == old(self).max_processes,
                start == old(self).children@,
                forall|k: int| 0 <= k < start.len() ==> (#[trigger] self.children@[k]).pid == start[k].pid
                    && self.children@[k].stalled == start[k].stalled,
                forall|k: int| 0 <= k < i ==> (#[trigger] self.children@[k]).last_progress_ms == now_ms,
            decreases start.len() - i,
        {
            let c = self.children[i];
            let nc = Child { pid: c.pid, last_progress_ms: now_ms, stalled: c.stalled };
            proof {
                lemma_child_map_update(self.children@, i as int, nc);
            }
            self.children.set(i, nc);
            i = i + 1;
        }
        proof {
            lemma_child_map_dom(start);
            lemma_child_map_dom(self.children@);
            assert forall|p: u32| self.children().contains_key(p) <==> old(self).children().contains_key(p) by {
                if self.children().contains_key(p) {
                    let k = choose|k: int| 0 <= k < self.children@.len() && self.children@[k].pid == p;
                    assert(start[k].pid == p);
                }
                if old(self).children().contains_key(p) {
                    let k = choose|k: int| 0 <= k < start.len() && start[k].pid == p;
                    assert(self.children@[k].pid == p);
                }
            }
            assert(self.children().dom() =~= old(self).children().dom());
            assert forall|p: u32| #[trigger] old(self).children().contains_key(p) implies self.children()[p]
                == (now_ms, old(self).children()[p].1) by {
                let k = choose|k: int| 0 <= k < start.len() && start[k].pid == p;
                lemma_child_map_at(start, k);
                lemma_child_map_at(self.children@, k);
            }
        }
        self.pids()
    }

    fn pids(&self) -> (out: Vec<u32>)
        requires
            self.wf(),
        ensures
            forall|p: u32| out@.contains(p) <==> self.children().contains_key(p),
    {
        let mut out: Vec<u32> = Vec::new();
        let mut i: usize = 0;
        while i < self.children.len()
            invariant
                i <= self.children.len(),
                forall|p: u32| out@.contains(p) <==> exists|k: int| 0 <= k < i && #[trigger] self.children@[k].pid == p,
            decreases self.children.len() - i,
        {
            let ghost before = out@;
            out.push(self.children[i].pid);
            proof {
                assert forall|p: u32| out@.contains(p) <==> exists|k: int| 0 <= k < i + 1 && #[trigger] self.children@[k].pid == p by {
                    if out@.contains(p) {
                        let q = choose|q: int| 0 <= q < out@.len() && out@[q] == p;
                        if q < before.len() {
                            assert(before.contains(p));
                        }
                    }
                    if exists|k: int| 0 <= k < i + 1 && #[trigger] self.children@[k].pid == p {
                        let k = choose|k: int| 0 <= k < i + 1 && #[trigger] self.children@[k].pid == p;
                        if k < i {
                            assert(before.contains(p));
                            let q = choose|q: int| 0 <= q < before.len() && before[q] == p;
                            assert(out@[q] == p);
                        } else {
                            assert(out@[before.len() as int] == p);
                        }
                    }
                }
            }
            i = i + 1;
        }
        proof {
            lemma_child_map_dom(self.children@);
        }
        out
    }

    pub fn is_paused(&self) -> (r: bool)
        ensures
            r == self.paused_spec(),
    {
        self.paused
    }

    /// How many children are live.
    pub fn running(&self) -> (n: usize)
        requires
            self.wf(),
        ensures
            n == self.children().dom().len(),
    {
        proof {
            lemma_len_is_dom_len(self.children@);
        }
        self.children.len()
    }

    pub fn stall_timeout_ms(&self) -> (t: u64)
        ensures
            t == self.timeout(),
    {
        self.stall_timeout_ms
    }
}

pub proof fn lemma_len_is_dom_len(s: Seq<Child>)
    requires
        distinct_pids(s),
    ensures
        child_map(s).dom().len() == s.len(),
    decreases s.len(),
{
    if s.len() > 0 {
        let t = s.drop_last();
        lemma_len_is_dom_len(t);
        lemma_child_map_dom(t);
        assert(!child_map(t).contains_key(s.last().pid)) by {
            if child_map(t).contains_key(s.last().pid) {
                let i = choose|i: int| 0 <= i < t.len() && t[i].pid == s.last().pid;
                assert(s[i].pid == s[s.len() - 1].pid);
            }
        }
    }
}

/// A paused pool admits nothing, whatever its load.
pub proof fn paused_pool_admits_nothing(r: Registry)
    requires
        r.wf(),
        r.paused_spec(),
    ensures
        !r.admits(),
{
}

} // verus!
