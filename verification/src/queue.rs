//! The bounded first-in-first-out queue of decoded measurements that
//! decouples network ingestion from database writes: a full queue pushes
//! back on the producer, an empty one makes the consumer wait.

use vstd::prelude::*;

use crate::measurement::SoilMoistureMeasurement;

verus! {

/// A bounded FIFO queue of measurements. Items leave in exactly the order
/// they entered.
pub struct MeasurementQueue {
    items: Vec<SoilMoistureMeasurement>,
    capacity: usize,
}

impl View for MeasurementQueue {
    type V = Seq<SoilMoistureMeasurement>;

    closed spec fn view(&self) -> Seq<SoilMoistureMeasurement> {
        self.items@
    }
}

impl MeasurementQueue {
    pub closed spec fn cap(&self) -> int {
        self.capacity as int
    }

    pub closed spec fn inv(&self) -> bool {
        self.items@.len() <= self.capacity && self.capacity >= 1
    }

    pub fn new(capacity: usize) -> (q: Self)
        requires
            capacity >= 1,
        ensures
            q.inv(),
            q@ == Seq::<SoilMoistureMeasurement>::empty(),
            q.cap() == capacity,
    {
        MeasurementQueue { items: Vec::new(), capacity }
    }

    pub fn len(&self) -> (n: usize)
        ensures
            n == self@.len(),
    {
        self.items.len()
    }

    pub fn is_full(&self) -> (b: bool)
        requires
            self.inv(),
        ensures
            b <==> self@.len() == self.cap(),
    {
        self.items.len() == self.capacity
    }

    pub fn is_empty(&self) -> (b: bool)
        ensures
            b <==> self@.len() == 0,
    {
        self.items.len() == 0
    }

    /// Enqueue at the back. Fails, and leaves the queue unchanged, exactly
    /// when the queue is full: the caller must block or retry (the
    /// bounded-buffer back-pressure).
    pub fn enqueue(&mut self, m: SoilMoistureMeasurement) -> (ok: bool)
        requires
            old(self).inv(),
        ensures
            final(self).inv(),
            final(self).cap() == old(self).cap(),
            ok ==> final(self)@ == old(self)@.push(m) && old(self)@.len() < old(self).cap(),
            !ok ==> final(self)@ == old(self)@ && old(self)@.len() == old(self).cap(),
    {
        if self.items.len() == self.capacity {
            false
        } else {
            self.items.push(m);
            true
        }
    }

    /// Dequeue from the front: the oldest queued measurement, first in,
    /// first out. Returns nothing exactly when the queue is empty.
    pub fn dequeue(&mut self) -> (r: Option<SoilMoistureMeasurement>)
        requires
            old(self).inv(),
        ensures
            final(self).inv(),
            final(self).cap() == old(self).cap(),
            match r {
                Some(m) => old(self)@.len() > 0 && m == old(self)@[0] && final(self)@ == old(
                    self,
                )@.drop_first(),
                None => old(self)@.len() == 0 && final(self)@ == old(self)@,
            },
    {
        if self.items.len() == 0 {
            None
        } else {
            let m = self.items.remove(0);
            proof {
                assert(self.items@ =~= old(self).items@.drop_first());
            }
            Some(m)
        }
    }
}

} // verus!
