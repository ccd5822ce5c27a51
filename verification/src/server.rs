//! Admission control for the accept loop.
//!
//! The server admits at most `max_conn` concurrent sessions.  The
//! bookkeeping is a counting permit: the accept loop takes a permit
//! before accepting and the session gives it back when it ends, so
//! in steady state the cap holds across whole session lifetimes.
//! The asynchronous accept loop itself performs network I/O and
//! lives outside this crate; it consults this state for every
//! decision.

use vstd::prelude::*;

verus! {

/// Permit bookkeeping: how many sessions may run, and how many do.
pub struct Admission {
    max_conn: usize,
    active: usize,
}

impl Admission {
    pub closed spec fn spec_max(&self) -> usize {
        self.max_conn
    }

    pub closed spec fn spec_active(&self) -> usize {
        self.active
    }

    /// Never more live sessions than the cap.
    pub open spec fn wf(&self) -> bool {
        self.spec_active() <= self.spec_max()
    }

    pub fn new(max_conn: usize) -> (r: Admission)
        ensures
            r.wf(),
            r.spec_max() == max_conn,
            r.spec_active() == 0,
    {
        Admission { max_conn, active: 0 }
    }

    /// Take a permit if one is free.  With a cap of `max_conn`, the
    /// next session is admitted exactly when fewer than `max_conn`
    /// are live, so one past the cap waits until a running session
    /// releases its permit.
    pub fn try_acquire(&mut self) -> (ok: bool)
        requires
            old(self).wf(),
        ensures
            final(self).wf(),
            final(self).spec_max() == old(self).spec_max(),
            ok == (old(self).spec_active() < old(self).spec_max()),
            ok ==> final(self).spec_active() == old(self).spec_active() + 1,
            !ok ==> final(self).spec_active() == old(self).spec_active(),
    {
        if self.active < self.max_conn {
            self.active = self.active + 1;
            true
        } else {
            false
        }
    }

    /// Give a permit back when a session ends, however it ended.
    pub fn release(&mut self)
        requires
            old(self).wf(),
            old(self).spec_active() >= 1,
        ensures
            final(self).wf(),
            final(self).spec_max() == old(self).spec_max(),
            final(self).spec_active() == old(self).spec_active() - 1,
    {
        self.active = self.active - 1;
    }
}

} // verus!
