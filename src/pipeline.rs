//! The bookkeeping of a consumer of pipeline results. The total number of
//! items becomes known only when discovery ends, independently of the
//! results themselves; the consumer stops once it has received that many.
use vstd::prelude::*;

verus! {

/// What a consumer knows: the total, once announced, and the results so far.
pub struct ResultCount {
    total: Option<usize>,
    received: usize,
}

impl View for ResultCount {
    type V = (Option<usize>, usize);

    closed spec fn view(&self) -> (Option<usize>, usize) {
        (self.total, self.received)
    }
}

impl ResultCount {
    pub fn new() -> (r: Self)
        ensures
            r@ == (None::<usize>, 0usize),
    {
        ResultCount { total: None, received: 0 }
    }

    /// Takes the announced total; returns whether it was news, which is when
    /// the total callback fires. A later announcement changes nothing.
    pub fn learn_total(&mut self, total: usize) -> (fresh: bool)
        ensures
            fresh == old(self)@.0 is None,
            final(self)@ == (if fresh { Some(total) } else { old(self)@.0 }, old(self)@.1),
    {
        if self.total.is_none() {
            self.total = Some(total);
            true
        } else {
            false
        }
    }

    /// Counts one result handed to the consumer.
    pub fn record_item(&mut self)
        requires
            old(self)@.1 < usize::MAX,
        ensures
            final(self)@ == (old(self)@.0, (old(self)@.1 + 1) as usize),
    {
        self.received = self.received + 1;
    }

    /// Whether every announced result has been received.
    pub fn finished(&self) -> (r: bool)
        ensures
            r == (self@.0 matches Some(t) && self@.1 >= t),
    {
        match self.total {
            Some(t) => self.received >= t,
            None => false,
        }
    }

    pub fn total(&self) -> (r: Option<usize>)
        ensures
            r == self@.0,
    {
        self.total
    }

    pub fn received(&self) -> (r: usize)
        ensures
            r == self@.1,
    {
        self.received
    }
}

/// Bytes per second between two readings of the byte counter, or zero when
/// no whole second has passed.
pub fn throughput(last_size: u64, current_size: u64, seconds: u64) -> (r: u64)
    requires
        last_size <= current_size,
    ensures
        seconds == 0 ==> r == 0,
        seconds > 0 ==> r == (current_size - last_size) / (seconds as int),
{
    let diff = current_size - last_size;
    match diff.checked_div(seconds) {
        Some(v) => v,
        None => 0,
    }
}

} // verus!
