//! The admission-control model of the dispatcher: a counting permit that
//! bounds how many handler bodies may execute at once.  A permit is
//! acquired before a handler body runs and released unconditionally when
//! it exits, success or failure, so a failed request cannot leak one.

use vstd::prelude::*;

verus! {

/// The permit counter: `in_flight` handler bodies hold a permit, out of
/// `limit` available.
pub struct Admission {
    pub limit: usize,
    pub in_flight: usize,
}

impl Admission {
    /// The counter never exceeds its limit.
    pub open spec fn wf(&self) -> bool {
        self.in_flight <= self.limit
    }

    pub fn new(limit: usize) -> (s: Admission)
        ensures
            s.wf(),
            s.limit == limit,
            s.in_flight == 0,
    {
        Admission { limit, in_flight: 0 }
    }

    /// Admits one handler body if a permit is free; a denied request
    /// waits and retries, it is never dropped.
    pub fn try_acquire(&mut self) -> (granted: bool)
        requires
            old(self).wf(),
        ensures
            final(self).wf(),
            final(self).limit == old(self).limit,
            granted ==> old(self).in_flight < old(self).limit && final(self).in_flight == old(
                self,
            ).in_flight + 1,
            !granted ==> old(self).in_flight == old(self).limit && final(self).in_flight == old(
                self,
            ).in_flight,
    {
        if self.in_flight < self.limit {
            self.in_flight = self.in_flight + 1;
            true
        } else {
            false
        }
    }

    /// Releases the permit of an exiting handler body, whatever its
    /// outcome.
    pub fn release(&mut self)
        requires
            old(self).wf(),
            old(self).in_flight > 0,
        ensures
            final(self).wf(),
            final(self).limit == old(self).limit,
            final(self).in_flight == old(self).in_flight - 1,
    {
        self.in_flight = self.in_flight - 1;
    }
}

/// One scheduling event: a handler body asks to enter, or an admitted
/// one exits.
pub enum AdmissionEvent {
    Enter,
    Exit,
}

/// The in-flight count after one event: an enter beyond the limit waits
/// (the count does not move), an exit always returns its permit.
pub open spec fn spec_step(in_flight: nat, limit: nat, e: AdmissionEvent) -> nat {
    match e {
        AdmissionEvent::Enter => if in_flight < limit {
            in_flight + 1
        } else {
            in_flight
        },
        AdmissionEvent::Exit => if in_flight > 0 {
            (in_flight - 1) as nat
        } else {
            0
        },
    }
}

pub open spec fn run_steps(in_flight: nat, limit: nat, es: Seq<AdmissionEvent>) -> nat
    decreases es.len(),
{
    if es.len() == 0 {
        in_flight
    } else {
        run_steps(spec_step(in_flight, limit, es[0]), limit, es.skip(1))
    }
}

/// Law: for any burst of enters and exits, at most `limit` handler
/// bodies hold a permit at any point — the in-flight count stays within
/// the limit, and it never goes negative, so repeated failures leak no
/// permit.
pub proof fn lemma_admission_bounded(in_flight: nat, limit: nat, es: Seq<AdmissionEvent>)
    requires
        in_flight <= limit,
    ensures
        run_steps(in_flight, limit, es) <= limit,
    decreases es.len(),
{
    if es.len() > 0 {
        lemma_admission_bounded(spec_step(in_flight, limit, es[0]), limit, es.skip(1));
    }
}

} // verus!
