//! The course of one scan over its scopes, as a state machine its caller
//! drives: the caller asks what to do next, does it (checks a root, walks a
//! scope, reconciles it), and reports back.
//!
//! Scopes are taken in order from the cursor's. A cancel request ends the
//! run between scopes; a walk cut short by it ends the run at once. A root
//! that does not answer suspends the scan and its scope is passed over:
//! nothing under it is walked or reconciled. Only a scope walked to its end
//! is reconciled.
use vstd::prelude::*;

use crate::scan::{begin_scan, final_state_of, finish_scan, first_scope, scope_done};
use crate::types::{Scan, ScanProgress, ScanState};

verus! {

/// Where a run stands.
#[derive(Debug, Clone, Copy, PartialEq, Eq, Structural)]
pub enum Phase {
    /// Between scopes: the next one to consider is at the run's index.
    Next,
    /// Waiting for the root of the current scope to be checked.
    Checking,
    /// The current scope's root answered; it is being walked.
    Walking,
    /// The current scope was walked to its end; it is being reconciled.
    Reconciling,
    /// Nothing more to do but record how the scan ended.
    Done,
}

/// What the caller does next.
#[derive(Debug, Clone, Copy, PartialEq, Eq, Structural)]
pub enum Step {
    /// Check that the root of the scope at this index answers.
    CheckRoot(usize),
    /// Walk the scope at this index.
    Walk(usize),
    /// Mark what the scan did not see in the scope at this index missing.
    Reconcile(usize),
    /// Record how the scan ended.
    Finish,
}

pub struct ScanRun {
    index: usize,
    phase: Phase,
    suspended: bool,
}

impl ScanRun {
    /// The index of the current (or next) scope.
    pub closed spec fn at(&self) -> nat {
        self.index as nat
    }

    pub closed spec fn phase_of(&self) -> Phase {
        self.phase
    }

    /// Whether a root failed to answer during this run.
    pub closed spec fn suspended_of(&self) -> bool {
        self.suspended
    }

    pub closed spec fn wf(&self) -> bool {
        match self.phase {
            Phase::Checking | Phase::Walking | Phase::Reconciling => self.index < usize::MAX,
            _ => true,
        }
    }

    /// Start (or resume) `scan` at `now_ms`: it is marked running, keeping
    /// the time it first started, and the run begins at the cursor's scope.
    pub fn start(scan: &mut Scan, now_ms: u64) -> (r: ScanRun)
        ensures
            *final(scan) == (Scan {
                state: ScanState::Running,
                started_at: if old(scan).started_at is Some { old(scan).started_at } else { Some(now_ms) },
                ..*old(scan)
            }),
            r.wf(),
            r.phase_of() == Phase::Next,
            r.at() == match old(scan).cursor {
                Some(c) => c.scope_index as nat,
                None => 0,
            },
            !r.suspended_of(),
    {
        begin_scan(scan, now_ms);
        let index = first_scope(scan);
        ScanRun { index, phase: Phase::Next, suspended: false }
    }

    /// What to do next. Between scopes, a cancel request (`cancel`) or
    /// running out of scopes ends the run; otherwise the next scope's root
    /// is checked. In any other phase the step is that phase's work.
    pub fn next(&mut self, scan: &Scan, cancel: bool) -> (s: Step)
        requires
            old(self).wf(),
        ensures
            final(self).wf(),
            final(self).at() == old(self).at(),
            final(self).suspended_of() == old(self).suspended_of(),
            match old(self).phase_of() {
                Phase::Next => if cancel || old(self).at() >= scan.scopes.len() {
                    s == Step::Finish && final(self).phase_of() == Phase::Done
                } else {
                    s == Step::CheckRoot(old(self).at() as usize) && final(self).phase_of() == Phase::Checking
                },
                Phase::Checking => s == Step::CheckRoot(old(self).at() as usize) && final(self).phase_of() == Phase::Checking,
                Phase::Walking => s == Step::Walk(old(self).at() as usize) && final(self).phase_of() == Phase::Walking,
                Phase::Reconciling => s == Step::Reconcile(old(self).at() as usize) && final(self).phase_of()
                    == Phase::Reconciling,
                Phase::Done => s == Step::Finish && final(self).phase_of() == Phase::Done,
            },
    {
        match self.phase {
            Phase::Next => {
                if cancel || self.index >= scan.scopes.len() {
                    self.phase = Phase::Done;
                    Step::Finish
                } else {
                    self.phase = Phase::Checking;
                    Step::CheckRoot(self.index)
                }
            },
            Phase::Checking => Step::CheckRoot(self.index),
            Phase::Walking => Step::Walk(self.index),
            Phase::Reconciling => Step::Reconcile(self.index),
            Phase::Done => Step::Finish,
        }
    }

    /// The current scope's root answered (`ok`) or did not. One that did
    /// not suspends the scan and the run moves past its scope without
    /// walking or reconciling it.
    pub fn root_checked(&mut self, ok: bool)
        requires
            old(self).wf(),
            old(self).phase_of() == Phase::Checking,
        ensures
            final(self).wf(),
            final(self).suspended_of() == (old(self).suspended_of() || !ok),
            ok ==> final(self).phase_of() == Phase::Walking && final(self).at() == old(self).at(),
            !ok ==> final(self).phase_of() == Phase::Next && final(self).at() == old(self).at() + 1,
    {
        if ok {
            self.phase = Phase::Walking;
        } else {
            self.suspended = true;
            self.index = self.index + 1;
            self.phase = Phase::Next;
        }
    }

    /// The walk of the current scope ended, cut short by a cancel request
    /// (`cancelled`) or not. A cut walk ends the run unreconciled; a
    /// complete one is reconciled next.
    pub fn walk_finished(&mut self, cancelled: bool)
        requires
            old(self).wf(),
            old(self).phase_of() == Phase::Walking,
        ensures
            final(self).wf(),
            final(self).at() == old(self).at(),
            final(self).suspended_of() == old(self).suspended_of(),
            final(self).phase_of() == if cancelled {
                Phase::Done
            } else {
                Phase::Reconciling
            },
    {
        self.phase = if cancelled {
            Phase::Done
        } else {
            Phase::Reconciling
        };
    }

    /// The current scope was reconciled and `missing` tracks marked
    /// missing: they are counted, the cursor moves to the next scope, and
    /// so does the run.
    pub fn reconciled(&mut self, scan: &mut Scan, missing: u64)
        requires
            old(self).wf(),
            old(self).phase_of() == Phase::Reconciling,
            old(scan).progress.missing + missing <= u64::MAX,
        ensures
            final(self).wf(),
            final(self).phase_of() == Phase::Next,
            final(self).at() == old(self).at() + 1,
            final(self).suspended_of() == old(self).suspended_of(),
            final(scan).progress == (ScanProgress { missing: (old(scan).progress.missing + missing) as u64, ..old(scan).progress }),
            final(scan).cursor matches Some(c) && c.scope_index == old(self).at() + 1 && c.after_directory is None,
            *final(scan) == (Scan { cursor: final(scan).cursor, progress: final(scan).progress, ..*old(scan) }),
    {
        scope_done(scan, self.index, missing);
        self.index = self.index + 1;
        self.phase = Phase::Next;
    }

    /// Record how the scan ended: cancelled if a cancel request stands
    /// (`cancel`), else suspended if a root did not answer during the run,
    /// else completed.
    pub fn finish(&self, scan: &mut Scan, cancel: bool, now_ms: u64)
        requires
            self.phase_of() == Phase::Done,
        ensures
            *final(scan) == (Scan {
                state: final_state_of(cancel, self.suspended_of()),
                finished_at: Some(now_ms),
                progress: ScanProgress { current_path: None, ..old(scan).progress },
                ..*old(scan)
            }),
    {
        finish_scan(scan, cancel, self.suspended, now_ms);
    }
}

} // verus!
