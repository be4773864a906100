//! Frequency channels for spectrum coordination.

use vstd::prelude::*;

verus! {

/// A frequency channel: an identifier, a centre frequency and a
/// bandwidth, in hertz.
#[derive(Debug, Clone, Copy, PartialEq, Eq, Structural)]
pub struct Channel {
    pub id: usize,
    pub frequency_hz: u64,
    pub bandwidth_hz: u64,
}

/// Machine-limit bounds for the overlap arithmetic: the half bandwidth
/// fits under the centre frequency, and the band edge fits in the word.
pub open spec fn channel_wf(c: Channel) -> bool {
    &&& c.bandwidth_hz / 2 <= c.frequency_hz
    &&& c.frequency_hz + c.bandwidth_hz / 2 <= u64::MAX
}

impl Channel {
    /// A channel with the given identifier, centre frequency and
    /// bandwidth.
    pub fn new(id: usize, frequency_hz: u64, bandwidth_hz: u64) -> (r: Self)
        ensures
            r.id == id,
            r.frequency_hz == frequency_hz,
            r.bandwidth_hz == bandwidth_hz,
    {
        Channel { id, frequency_hz, bandwidth_hz }
    }

    /// Whether the frequency bands of the two channels intersect.
    pub fn overlaps(&self, other: &Channel) -> (r: bool)
        requires
            channel_wf(*self),
            channel_wf(*other),
        ensures
            r == !(self.frequency_hz + self.bandwidth_hz / 2 < other.frequency_hz
                - other.bandwidth_hz / 2 || other.frequency_hz + other.bandwidth_hz / 2
                < self.frequency_hz - self.bandwidth_hz / 2),
    {
        let self_min = self.frequency_hz - self.bandwidth_hz / 2;
        let self_max = self.frequency_hz + self.bandwidth_hz / 2;
        let other_min = other.frequency_hz - other.bandwidth_hz / 2;
        let other_max = other.frequency_hz + other.bandwidth_hz / 2;
        !(self_max < other_min || other_max < self_min)
    }

    /// Absolute separation of the centre frequencies, in hertz.
    pub fn frequency_separation(&self, other: &Channel) -> (r: u64)
        ensures
            r == if self.frequency_hz > other.frequency_hz {
                self.frequency_hz - other.frequency_hz
            } else {
                other.frequency_hz - self.frequency_hz
            },
    {
        if self.frequency_hz > other.frequency_hz {
            self.frequency_hz - other.frequency_hz
        } else {
            other.frequency_hz - self.frequency_hz
        }
    }
}

} // verus!
