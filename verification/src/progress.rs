//! The moving window of (time, bytes) samples from which the download
//! speed and the time left are estimated.

use vstd::prelude::*;

verus! {

/// Samples the window keeps.
pub const SPEED_WINDOW_LEN: usize = 10;

/// The window after `x` comes in: `x` appended, and the oldest sample
/// dropped if that makes more than `SPEED_WINDOW_LEN`.
pub open spec fn window_push(w: Seq<(u64, u64)>, x: (u64, u64)) -> Seq<(u64, u64)> {
    if w.len() + 1 > SPEED_WINDOW_LEN {
        w.push(x).drop_first()
    } else {
        w.push(x)
    }
}

/// The last `SPEED_WINDOW_LEN` samples of a history (all of it if shorter).
pub open spec fn last_samples(h: Seq<(u64, u64)>) -> Seq<(u64, u64)> {
    if h.len() > SPEED_WINDOW_LEN {
        h.skip(h.len() - SPEED_WINDOW_LEN)
    } else {
        h
    }
}

/// A window that holds the last samples of a history still does after one
/// more sample: the window always holds the latest samples, at most
/// `SPEED_WINDOW_LEN` of them.
pub proof fn lemma_window_keeps_latest(h: Seq<(u64, u64)>, x: (u64, u64))
    ensures
        window_push(last_samples(h), x) == last_samples(h.push(x)),
        last_samples(h.push(x)).len() <= SPEED_WINDOW_LEN,
{
    let w = last_samples(h);
    if h.len() > SPEED_WINDOW_LEN {
        assert(window_push(w, x) =~= last_samples(h.push(x)));
    } else if h.len() == SPEED_WINDOW_LEN {
        assert(window_push(w, x) =~= last_samples(h.push(x)));
    } else {
        assert(window_push(w, x) =~= last_samples(h.push(x)));
    }
}

/// Recent samples of elapsed nanoseconds and bytes downloaded.
#[derive(Debug)]
pub struct SpeedWindow {
    samples: Vec<(u64, u64)>,
}

impl SpeedWindow {
    /// The samples, oldest first.
    pub closed spec fn view(&self) -> Seq<(u64, u64)> {
        self.samples@
    }

    /// An empty window.
    pub fn new() -> (w: SpeedWindow)
        ensures
            w.view() == Seq::<(u64, u64)>::empty(),
    {
        SpeedWindow { samples: Vec::new() }
    }

    /// Forgets all samples.
    pub fn clear(&mut self)
        ensures
            final(self).view() == Seq::<(u64, u64)>::empty(),
    {
        self.samples.clear();
    }

    /// The number of samples held.
    pub fn len(&self) -> (n: usize)
        ensures
            n == self.view().len(),
    {
        self.samples.len()
    }

    /// Records that `bytes` were downloaded `at_nanos` after the start.
    pub fn push_sample(&mut self, at_nanos: u64, bytes: u64)
        ensures
            final(self).view() == window_push(old(self).view(), (at_nanos, bytes)),
    {
        self.samples.push((at_nanos, bytes));
        if self.samples.len() > SPEED_WINDOW_LEN {
            self.samples.remove(0);
            proof {
                assert(self.samples@ =~= window_push(old(self).view(), (at_nanos, bytes)));
            }
        }
    }

    /// The time and the bytes between the oldest and the newest sample
    /// (each difference taken as zero if it would be negative); nothing
    /// when there are fewer than two samples.
    pub fn span(&self) -> (s: Option<(u64, u64)>)
        ensures
            self.view().len() < 2 ==> s is None,
            self.view().len() >= 2 ==> s == Some(
                (
                    if self.view().last().0 >= self.view()[0].0 {
                        (self.view().last().0 - self.view()[0].0) as u64
                    } else {
                        0
                    },
                    if self.view().last().1 >= self.view()[0].1 {
                        (self.view().last().1 - self.view()[0].1) as u64
                    } else {
                        0
                    },
                ),
            ),
    {
        let n = self.samples.len();
        if n < 2 {
            return None;
        }
        let first = self.samples[0];
        let last = self.samples[n - 1];
        Some((last.0.saturating_sub(first.0), last.1.saturating_sub(first.1)))
    }
}

} // verus!
