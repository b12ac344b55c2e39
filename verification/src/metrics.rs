//! Counters of a node's traffic and finalizations.

use std::time::{Duration, Instant};
use vstd::prelude::*;

verus! {

/// Message and byte counters, and how many slots were finalized on the fast
/// and on the slow path. Each counter wraps around on overflow.
#[derive(Debug)]
pub struct Metrics {
    pub bytes_sent: u64,
    pub bytes_recv: u64,
    pub msgs_sent: usize,
    pub msgs_recv: usize,
    pub slots_finalized: usize,
    pub fast_finals: usize,
    pub slow_finals: usize,
}

impl Metrics {
    pub fn new() -> (m: Self)
        ensures
            m.bytes_sent == 0 && m.bytes_recv == 0 && m.msgs_sent == 0 && m.msgs_recv == 0,
            m.slots_finalized == 0 && m.fast_finals == 0 && m.slow_finals == 0,
    {
        Metrics {
            bytes_sent: 0,
            bytes_recv: 0,
            msgs_sent: 0,
            msgs_recv: 0,
            slots_finalized: 0,
            fast_finals: 0,
            slow_finals: 0,
        }
    }

    /// Counts a sent message of `bytes` bytes.
    pub fn add_sent(&mut self, bytes: u64)
        ensures
            final(self).bytes_sent == old(self).bytes_sent.wrapping_add(bytes),
            final(self).msgs_sent == old(self).msgs_sent.wrapping_add(1),
            final(self).bytes_recv == old(self).bytes_recv,
            final(self).msgs_recv == old(self).msgs_recv,
            final(self).slots_finalized == old(self).slots_finalized,
            final(self).fast_finals == old(self).fast_finals,
            final(self).slow_finals == old(self).slow_finals,
    {
        self.bytes_sent = self.bytes_sent.wrapping_add(bytes);
        self.msgs_sent = self.msgs_sent.wrapping_add(1);
    }

    /// Counts a received message of `bytes` bytes.
    pub fn add_recv(&mut self, bytes: u64)
        ensures
            final(self).bytes_recv == old(self).bytes_recv.wrapping_add(bytes),
            final(self).msgs_recv == old(self).msgs_recv.wrapping_add(1),
            final(self).bytes_sent == old(self).bytes_sent,
            final(self).msgs_sent == old(self).msgs_sent,
            final(self).slots_finalized == old(self).slots_finalized,
            final(self).fast_finals == old(self).fast_finals,
            final(self).slow_finals == old(self).slow_finals,
    {
        self.bytes_recv = self.bytes_recv.wrapping_add(bytes);
        self.msgs_recv = self.msgs_recv.wrapping_add(1);
    }

    /// Counts a finalized slot, on the fast path or on the slow one.
    pub fn record_final(&mut self, fast: bool)
        ensures
            final(self).slots_finalized == old(self).slots_finalized.wrapping_add(1),
            final(self).fast_finals == if fast { old(self).fast_finals.wrapping_add(1) } else { old(self).fast_finals },
            final(self).slow_finals == if fast { old(self).slow_finals } else { old(self).slow_finals.wrapping_add(1) },
            final(self).bytes_sent == old(self).bytes_sent,
            final(self).bytes_recv == old(self).bytes_recv,
            final(self).msgs_sent == old(self).msgs_sent,
            final(self).msgs_recv == old(self).msgs_recv,
    {
        self.slots_finalized = self.slots_finalized.wrapping_add(1);
        if fast {
            self.fast_finals = self.fast_finals.wrapping_add(1);
        } else {
            self.slow_finals = self.slow_finals.wrapping_add(1);
        }
    }
}

#[verifier::external_type_specification]
#[verifier::external_body]
pub struct ExInstant(Instant);

/// Calls `std::time::Instant::now`. Nothing is claimed of the instant returned.
#[verifier::external_body]
fn instant_now() -> Instant {
    Instant::now()
}

/// Calls `std::time::Instant::elapsed`. Nothing is claimed of the duration returned.
#[verifier::external_body]
fn elapsed_since(start: &Instant) -> Duration {
    start.elapsed()
}

/// Measures, per slot, the time to finalization and the time spent in the slot.
#[derive(Debug)]
pub struct SlotTimer {
    /// When the current slot started.
    pub start: Instant,
    /// The time to finalize each slot.
    pub fin_latencies: Vec<Duration>,
    /// The total time spent in each slot.
    pub slot_durations: Vec<Duration>,
}

impl SlotTimer {
    pub fn new() -> (t: Self)
        ensures
            t.fin_latencies@.len() == 0,
            t.slot_durations@.len() == 0,
    {
        SlotTimer { start: instant_now(), fin_latencies: Vec::new(), slot_durations: Vec::new() }
    }

    /// Starts measuring a new slot.
    pub fn reset(&mut self)
        ensures
            final(self).fin_latencies@ == old(self).fin_latencies@,
            final(self).slot_durations@ == old(self).slot_durations@,
    {
        self.start = instant_now();
    }

    /// Records the time since the slot started as its time to finalization.
    pub fn record_finalization(&mut self)
        ensures
            final(self).fin_latencies@.len() == old(self).fin_latencies@.len() + 1,
            final(self).fin_latencies@.take(old(self).fin_latencies@.len() as int) == old(self).fin_latencies@,
            final(self).slot_durations@ == old(self).slot_durations@,
            final(self).start == old(self).start,
    {
        let d = elapsed_since(&self.start);
        self.fin_latencies.push(d);
        assert(self.fin_latencies@.take(old(self).fin_latencies@.len() as int) =~= old(self).fin_latencies@);
    }

    /// Records the time since the slot started as the slot's duration.
    pub fn record_slot_exit(&mut self)
        ensures
            final(self).slot_durations@.len() == old(self).slot_durations@.len() + 1,
            final(self).slot_durations@.take(old(self).slot_durations@.len() as int) == old(self).slot_durations@,
            final(self).fin_latencies@ == old(self).fin_latencies@,
            final(self).start == old(self).start,
    {
        let d = elapsed_since(&self.start);
        self.slot_durations.push(d);
        assert(self.slot_durations@.take(old(self).slot_durations@.len() as int) =~= old(self).slot_durations@);
    }
}

impl Default for Metrics {
    /// All counters at zero, as `Metrics::new` gives.
    fn default() -> (m: Self)
        ensures
            m.bytes_sent == 0 && m.bytes_recv == 0 && m.msgs_sent == 0 && m.msgs_recv == 0,
            m.slots_finalized == 0 && m.fast_finals == 0 && m.slow_finals == 0,
    {
        Metrics::new()
    }
}

impl Default for SlotTimer {
    /// A new timer, as `SlotTimer::new` gives.
    fn default() -> (t: Self)
        ensures
            t.fin_latencies@.len() == 0,
            t.slot_durations@.len() == 0,
    {
        SlotTimer::new()
    }
}

} // verus!
