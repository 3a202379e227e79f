//! The permit gate of the fetches: a count of permits and the tasks that
//! wait for one.
//!
//! A task is known by a number that the caller gives it. The caller parks a
//! task that gets no permit and wakes the task that `release` names.

use vstd::prelude::*;

verus! {

/// A count of permits, and the tasks that wait for one, last first.
#[derive(Debug)]
pub struct Semaphore {
    limit: usize,
    permits: usize,
    waiters: Vec<u64>,
}

/// What a `Semaphore` holds.
pub struct SemaphoreState {
    /// The number of permits that the semaphore was made with.
    pub limit: nat,
    /// The number of permits that are free.
    pub permits: nat,
    /// The tasks that wait for a permit, in the order in which they came.
    pub waiters: Seq<u64>,
}

impl View for Semaphore {
    type V = SemaphoreState;

    closed spec fn view(&self) -> SemaphoreState {
        SemaphoreState {
            limit: self.limit as nat,
            permits: self.permits as nat,
            waiters: self.waiters@,
        }
    }
}

/// The semaphore after a task asked for a permit: a free permit is taken;
/// where none is free, the task waits.
pub open spec fn acquired(s: SemaphoreState, task: u64) -> SemaphoreState {
    if s.permits >= 1 {
        SemaphoreState { permits: (s.permits - 1) as nat, ..s }
    } else {
        SemaphoreState { waiters: s.waiters.push(task), ..s }
    }
}

/// The semaphore after a permit was given back: one more permit is free,
/// up to the limit, and the task that came last waits no more.
pub open spec fn released(s: SemaphoreState) -> SemaphoreState {
    SemaphoreState {
        limit: s.limit,
        permits: if s.permits < s.limit {
            s.permits + 1
        } else {
            s.permits
        },
        waiters: if s.waiters.len() > 0 {
            s.waiters.drop_last()
        } else {
            s.waiters
        },
    }
}

impl Semaphore {
    /// The invariant: no more permits are free than the limit.
    pub closed spec fn wf(&self) -> bool {
        self.permits <= self.limit
    }

    /// A semaphore with `permits` permits, all free.
    pub fn new(permits: usize) -> (r: Semaphore)
        ensures
            r.wf(),
            r@ == (SemaphoreState {
                limit: permits as nat,
                permits: permits as nat,
                waiters: Seq::empty(),
            }),
    {
        Semaphore { limit: permits, permits, waiters: Vec::new() }
    }

    /// Asks for a permit for `task`: takes one where one is free; else the
    /// task waits, and is to ask again when `release` names it.
    pub fn acquire(&mut self, task: u64) -> (got: bool)
        requires
            old(self).wf(),
        ensures
            final(self).wf(),
            got == (old(self)@.permits >= 1),
            final(self)@ == acquired(old(self)@, task),
    {
        if self.permits >= 1 {
            self.permits -= 1;
            true
        } else {
            self.waiters.push(task);
            false
        }
    }

    /// Gives a permit back, and names the task to wake: the one that came
    /// last, if any waits.
    pub fn release(&mut self) -> (woken: Option<u64>)
        requires
            old(self).wf(),
        ensures
            final(self).wf(),
            final(self)@ == released(old(self)@),
            match woken {
                Some(task) => old(self)@.waiters.len() > 0 && task == old(self)@.waiters.last(),
                None => old(self)@.waiters.len() == 0,
            },
    {
        if self.permits < self.limit {
            self.permits += 1;
        }
        self.waiters.pop()
    }

    /// The number of permits that are free.
    pub fn available(&self) -> (n: usize)
        ensures
            n == self@.permits,
    {
        self.permits
    }
}

} // verus!
