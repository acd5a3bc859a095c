use vstd::prelude::*;

verus! {

/// Whether two consecutive entry-count samples of a directory differ.
///
/// Only the net count is compared: an addition and a removal between two
/// samples cancel out and go unnoticed.
pub fn count_changed(previous: usize, current: usize) -> (r: bool)
    ensures
        r == (previous != current),
{
    previous != current
}

/// The reading of a sample: the entry count when the directory could be
/// read, and zero when it could not.
pub open spec fn spec_reading(sample: Option<usize>) -> usize {
    match sample {
        Some(n) => n,
        None => 0,
    }
}

#[verifier::when_used_as_spec(spec_reading)]
pub fn reading(sample: Option<usize>) -> (r: usize)
    ensures
        r == spec_reading(sample),
{
    match sample {
        Some(n) => n,
        None => 0,
    }
}

/// What a polling watch does after one cycle: end, or go on, reporting
/// the new count if it changed.
#[derive(Clone, Copy, Debug, PartialEq, Eq, Structural)]
pub enum PollAction {
    Exit,
    Report(Option<usize>),
}

/// The state of a polling watch: the last reading taken.
pub struct Poller {
    pub last_count: usize,
}

impl Poller {
    /// A poller whose first reading was `initial`.
    pub fn new(initial: Option<usize>) -> (r: Poller)
        ensures
            r.last_count == reading(initial),
    {
        Poller { last_count: reading(initial) }
    }

    /// Takes the next sample; returns the new count when it differs from the
    /// previous reading, and records it as the last reading in any case.
    pub fn observe(&mut self, sample: Option<usize>) -> (r: Option<usize>)
        ensures
            final(self).last_count == reading(sample),
            r == if reading(sample) != old(self).last_count { Some(reading(sample)) } else { None },
    {
        let current = reading(sample);
        let changed = count_changed(self.last_count, current);
        self.last_count = current;
        if changed {
            Some(current)
        } else {
            None
        }
    }

    /// One cycle of a polling watch: `stopped` is the watch's own stop
    /// signal, read before the sample is used. A stopped watch reports
    /// nothing and keeps its state; otherwise the sample is observed.
    pub fn step(&mut self, stopped: bool, sample: Option<usize>) -> (r: PollAction)
        ensures
            stopped ==> r == PollAction::Exit && final(self).last_count == old(self).last_count,
            !stopped ==> final(self).last_count == reading(sample) && r == PollAction::Report(
                if reading(sample) != old(self).last_count { Some(reading(sample)) } else { None },
            ),
    {
        if stopped {
            PollAction::Exit
        } else {
            PollAction::Report(self.observe(sample))
        }
    }
}

} // verus!
