use vstd::prelude::*;

verus! {

/// A congestion controller: a window in packets that reacts to acknowledgements and losses.
pub trait CongestionControl {
    /// The current congestion window.
    fn cwnd(&self) -> usize;

    /// Reacts to the acknowledgement of one packet.
    fn mark_ack(&mut self, current_bdp: usize, current_ping: usize);

    /// Reacts to a loss event.
    fn mark_loss(&mut self);
}

/// Congestion control that keeps a constant window.
pub struct Trivial {
    cwnd: usize,
}

impl Trivial {
    pub closed spec fn window(&self) -> usize {
        self.cwnd
    }

    /// A controller whose window stays `cwnd`.
    pub fn new(cwnd: usize) -> (r: Self)
        ensures
            r.window() == cwnd,
    {
        Self { cwnd }
    }

    /// The window.
    pub fn cwnd(&self) -> (r: usize)
        ensures
            r == self.window(),
    {
        self.cwnd
    }

    /// An acknowledgement leaves the window as it is.
    pub fn mark_ack(&mut self, _current_bdp: usize, _current_ping: usize)
        ensures
            final(self).window() == old(self).window(),
    {
    }

    /// A loss leaves the window as it is.
    pub fn mark_loss(&mut self)
        ensures
            final(self).window() == old(self).window(),
    {
    }
}

impl CongestionControl for Trivial {
    fn cwnd(&self) -> usize {
        Trivial::cwnd(self)
    }

    fn mark_ack(&mut self, current_bdp: usize, current_ping: usize) {
        Trivial::mark_ack(self, current_bdp, current_ping)
    }

    fn mark_loss(&mut self) {
        Trivial::mark_loss(self)
    }
}

} // verus!
