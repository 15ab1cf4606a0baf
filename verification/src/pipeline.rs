//! The ingestion pipeline's decision logic: what to do with each polled
//! transport event, and the driver that feeds decoded measurements into
//! the bounded queue in arrival order.

use vstd::prelude::*;

use crate::measurement::{wf, MeasurementView, SoilMoistureMeasurement};
use crate::payload::{payload_rep, strip_ws};
use crate::queue::MeasurementQueue;
use crate::transport::{poll_is_err, TransportError, TransportEvent};

verus! {

/// The payload carried by a publish event, if the event is one.
pub open spec fn publish_payload(e: Result<TransportEvent, TransportError>) -> Option<Seq<char>> {
    match e {
        Ok(TransportEvent::Publish { payload }) => Some(payload@),
        _ => None,
    }
}

/// The event is a publish whose payload decodes to the measurement `v`.
pub open spec fn payload_decodes_to(
    e: Result<TransportEvent, TransportError>,
    v: MeasurementView,
) -> bool {
    match publish_payload(e) {
        Some(p) => wf(v) && strip_ws(p) == payload_rep(v),
        None => false,
    }
}

/// The event is a publish whose payload decodes to some measurement.
#[verifier::opaque]
pub open spec fn decodable_publish(e: Result<TransportEvent, TransportError>) -> bool {
    exists|v: MeasurementView| payload_decodes_to(e, v)
}

/// The event is a publish whose payload decodes to no measurement.
#[verifier::opaque]
pub open spec fn malformed_publish(e: Result<TransportEvent, TransportError>) -> bool {
    publish_payload(e) is Some && !decodable_publish(e)
}

/// How many of the first `n` events are decodable publishes.
#[verifier::opaque]
pub open spec fn count_decodable(
    events: Seq<Result<TransportEvent, TransportError>>,
    n: int,
) -> int
    decreases n,
{
    if n <= 0 {
        0
    } else {
        count_decodable(events, n - 1) + if decodable_publish(events[n - 1]) {
            1int
        } else {
            0int
        }
    }
}

/// How many of the first `n` events are malformed publishes.
#[verifier::opaque]
pub open spec fn count_malformed(
    events: Seq<Result<TransportEvent, TransportError>>,
    n: int,
) -> int
    decreases n,
{
    if n <= 0 {
        0
    } else {
        count_malformed(events, n - 1) + if malformed_publish(events[n - 1]) {
            1int
        } else {
            0int
        }
    }
}

/// What the ingestion loop decides for one polled event.
pub enum IngestAction {
    /// A payload decoded: hand the measurement to the queue.
    Enqueue(SoilMoistureMeasurement),
    /// A malformed payload: report it, drop it, and go on.
    DropMalformed,
    /// An event that is not a message delivery: observe it and go on.
    Ignore,
    /// A connection error: the ingestion activity ends.
    Terminate,
}

/// Decide what one polled event means for ingestion: decode publishes,
/// drop what does not decode, ignore unrelated events, and stop only on a
/// connection error. A single malformed message never terminates anything.
pub fn ingest_step(e: &Result<TransportEvent, TransportError>) -> (r: IngestAction)
    ensures
        match r {
            IngestAction::Enqueue(m) => payload_decodes_to(*e, m@),
            IngestAction::DropMalformed => (publish_payload(*e) matches Some(p) && forall|
                v: MeasurementView,
            |
                wf(v) ==> strip_ws(p) != payload_rep(v)),
            IngestAction::Ignore => publish_payload(*e) is None && !poll_is_err(*e),
            IngestAction::Terminate => poll_is_err(*e),
        },
{
    match e {
        Ok(TransportEvent::Publish { payload }) => {
            match SoilMoistureMeasurement::from_payload(payload.as_str()) {
                Ok(m) => IngestAction::Enqueue(m),
                Err(_) => IngestAction::DropMalformed,
            }
        },
        Ok(_) => IngestAction::Ignore,
        Err(_) => IngestAction::Terminate,
    }
}

/// What a finite run of the ingestion activity did.
#[derive(Debug, Clone, Copy, PartialEq, Eq, Structural)]
pub struct IngestReport {
    /// Events consumed from the stream.
    pub consumed: usize,
    /// Measurements enqueued.
    pub enqueued: usize,
    /// Malformed payloads dropped.
    pub dropped: usize,
    /// Whether a connection error ended the run.
    pub terminated: bool,
}

/// Some event among the first `consumed` is a publish whose payload
/// decodes to `v`.
#[verifier::opaque]
pub open spec fn traceable(
    events: Seq<Result<TransportEvent, TransportError>>,
    consumed: int,
    v: MeasurementView,
) -> bool {
    exists|k: int| 0 <= k < consumed && #[trigger] payload_decodes_to(events[k], v)
}

proof fn lemma_traceable_mono(
    events: Seq<Result<TransportEvent, TransportError>>,
    c1: int,
    c2: int,
    v: MeasurementView,
)
    requires
        c1 <= c2,
        traceable(events, c1, v),
    ensures
        traceable(events, c2, v),
{
    reveal(traceable);
    let k0 = choose|k: int| 0 <= k < c1 && #[trigger] payload_decodes_to(events[k], v);
    assert(payload_decodes_to(events[k0], v));
}

/// A publish that no measurement decodes from is malformed.
proof fn lemma_undecodable(e: Result<TransportEvent, TransportError>)
    requires
        publish_payload(e) is Some,
        forall|v: MeasurementView| wf(v) ==> strip_ws(publish_payload(e)->0) != payload_rep(v),
    ensures
        malformed_publish(e),
        !decodable_publish(e),
{
    reveal(decodable_publish);
    reveal(malformed_publish);
    if decodable_publish(e) {
        let v0 = choose|v: MeasurementView| payload_decodes_to(e, v);
        assert(payload_decodes_to(e, v0));
    }
}

/// Maintenance of the ingestion invariants across an enqueue step.
proof fn lemma_ingest_enqueue_step(
    events: Seq<Result<TransportEvent, TransportError>>,
    q0: Seq<SoilMoistureMeasurement>,
    qpre: Seq<SoilMoistureMeasurement>,
    qnew: Seq<SoilMoistureMeasurement>,
    idx: int,
    mv: MeasurementView,
)
    requires
        0 <= idx < events.len(),
        q0.len() <= qpre.len(),
        qnew.len() == qpre.len() + 1,
        forall|j: int| 0 <= j < qpre.len() ==> qnew[j] == qpre[j],
        qnew[qnew.len() - 1]@ == mv,
        payload_decodes_to(events[idx], mv),
        forall|j: int|
            q0.len() <= j < qpre.len() ==> traceable(events, idx, #[trigger] qpre[j]@),
        forall|k: int|
            #![trigger events[k]]
            0 <= k < idx && decodable_publish(events[k]) ==> (exists|j: int|
                q0.len() <= j < qpre.len() && payload_decodes_to(events[k], qpre[j]@)),
    ensures
        decodable_publish(events[idx]),
        !malformed_publish(events[idx]),
        count_decodable(events, idx + 1) == count_decodable(events, idx) + 1,
        count_malformed(events, idx + 1) == count_malformed(events, idx),
        forall|j: int|
            q0.len() <= j < qnew.len() ==> traceable(events, idx + 1, #[trigger] qnew[j]@),
        forall|k: int|
            #![trigger events[k]]
            0 <= k < idx + 1 && decodable_publish(events[k]) ==> (exists|j: int|
                q0.len() <= j < qnew.len() && payload_decodes_to(events[k], qnew[j]@)),
{
    reveal(decodable_publish);
    reveal(malformed_publish);
    reveal(count_decodable);
    reveal(count_malformed);
    reveal(traceable);
    assert(decodable_publish(events[idx]));
    assert forall|j: int|
        q0.len() <= j < qnew.len() implies traceable(events, idx + 1, #[trigger] qnew[j]@) by {
        if j < qpre.len() {
            lemma_traceable_mono(events, idx, idx + 1, qnew[j]@);
        } else {
            assert(payload_decodes_to(events[idx], qnew[j]@));
        }
    }
    assert forall|k: int|
        0 <= k < idx + 1 && decodable_publish(#[trigger] events[k]) implies (exists|j: int|
        q0.len() <= j < qnew.len() && payload_decodes_to(events[k], qnew[j]@)) by {
        if k < idx {
            let j0 = choose|j: int|
                q0.len() <= j < qpre.len() && payload_decodes_to(events[k], qpre[j]@);
            assert(payload_decodes_to(events[k], qnew[j0]@));
        } else {
            let jn = qnew.len() - 1;
            assert(payload_decodes_to(events[k], qnew[jn]@));
        }
    }
}

/// Maintenance of the ingestion invariants across a step that consumes an
/// event without touching the queue.
proof fn lemma_ingest_skip_step(
    events: Seq<Result<TransportEvent, TransportError>>,
    q0: Seq<SoilMoistureMeasurement>,
    q: Seq<SoilMoistureMeasurement>,
    idx: int,
)
    requires
        0 <= idx < events.len(),
        q0.len() <= q.len(),
        !decodable_publish(events[idx]),
        forall|j: int| q0.len() <= j < q.len() ==> traceable(events, idx, #[trigger] q[j]@),
    ensures
        count_decodable(events, idx + 1) == count_decodable(events, idx),
        count_malformed(events, idx + 1) == count_malformed(events, idx) + (
        if malformed_publish(events[idx]) {
            1int
        } else {
            0int
        }),
        forall|j: int|
            q0.len() <= j < q.len() ==> traceable(events, idx + 1, #[trigger] q[j]@),
{
    reveal(count_decodable);
    reveal(count_malformed);
    assert forall|j: int|
        q0.len() <= j < q.len() implies traceable(events, idx + 1, #[trigger] q[j]@) by {
        lemma_traceable_mono(events, idx, idx + 1, q[j]@);
    }
}

/// Drive the ingestion activity over a finite prefix of the event stream:
/// each decodable publish is enqueued in arrival order and none is lost,
/// malformed payloads are dropped (and counted) without stopping anything,
/// unrelated events are ignored, and the run ends at the first connection
/// error, when the queue is full (back-pressure), or when the events run
/// out. Everything already queued is preserved, in order.
#[verifier::rlimit(100)]
pub fn run_ingestion(
    events: &Vec<Result<TransportEvent, TransportError>>,
    queue: &mut MeasurementQueue,
) -> (r: IngestReport)
    requires
        old(queue).inv(),
    ensures
        final(queue).inv(),
        final(queue).cap() == old(queue).cap(),
        r.consumed <= events@.len(),
        r.enqueued == count_decodable(events@, r.consumed as int),
        r.dropped == count_malformed(events@, r.consumed as int),
        r.enqueued + r.dropped <= r.consumed,
        final(queue)@.len() == old(queue)@.len() + r.enqueued,
        forall|j: int| 0 <= j < old(queue)@.len() ==> final(queue)@[j] == old(queue)@[j],
        forall|j: int|
            old(queue)@.len() <= j < final(queue)@.len() ==> traceable(
                events@,
                r.consumed as int,
                #[trigger] final(queue)@[j]@,
            ),
        forall|k: int|
            #![trigger events@[k]]
            0 <= k < r.consumed && decodable_publish(events@[k]) ==> (exists|j: int|
                old(queue)@.len() <= j < final(queue)@.len() && payload_decodes_to(
                    events@[k],
                    final(queue)@[j]@,
                )),
        r.terminated ==> r.consumed >= 1 && poll_is_err(events@[r.consumed - 1]),
        forall|k: int| 0 <= k < r.consumed - 1 ==> !poll_is_err(#[trigger] events@[k]),
        !r.terminated ==> (r.consumed == events@.len() || final(queue)@.len() == old(
            queue,
        ).cap()) && forall|k: int| 0 <= k < r.consumed ==> !poll_is_err(#[trigger] events@[k]),
{
    let mut idx: usize = 0;
    let mut enq: usize = 0;
    let mut dropped: usize = 0;
    let ghost q0 = queue@;
    proof {
        assert(count_decodable(events@, 0) == 0 && count_malformed(events@, 0) == 0) by {
            reveal(count_decodable);
            reveal(count_malformed);
        }
    }
    loop
        invariant
            queue.inv(),
            queue.cap() == old(queue).cap(),
            idx <= events@.len(),
            enq + dropped <= idx,
            queue@.len() == q0.len() + enq,
            q0 == old(queue)@,
            enq == count_decodable(events@, idx as int),
            dropped == count_malformed(events@, idx as int),
            forall|j: int| 0 <= j < q0.len() ==> queue@[j] == q0[j],
            forall|j: int|
                q0.len() <= j < queue@.len() ==> traceable(
                    events@,
                    idx as int,
                    #[trigger] queue@[j]@,
                ),
            forall|k: int|
                #![trigger events@[k]]
                0 <= k < idx && decodable_publish(events@[k]) ==> (exists|j: int|
                    q0.len() <= j < queue@.len() && payload_decodes_to(events@[k], queue@[j]@)),
            forall|k: int| 0 <= k < idx ==> !poll_is_err(#[trigger] events@[k]),
        decreases events@.len() - idx,
    {
        if idx >= events.len() {
            return IngestReport { consumed: idx, enqueued: enq, dropped, terminated: false };
        }
        if queue.is_full() {
            return IngestReport { consumed: idx, enqueued: enq, dropped, terminated: false };
        }
        match ingest_step(&events[idx]) {
            IngestAction::Enqueue(m) => {
                let ghost mv = m@;
                let ghost qpre = queue@;
                let ok = queue.enqueue(m);
                proof {
                    assert(ok);
                    lemma_ingest_enqueue_step(events@, q0, qpre, queue@, idx as int, mv);
                }
                idx = idx + 1;
                enq = enq + 1;
            },
            IngestAction::DropMalformed => {
                proof {
                    lemma_undecodable(events@[idx as int]);
                    lemma_ingest_skip_step(events@, q0, queue@, idx as int);
                }
                idx = idx + 1;
                dropped = dropped + 1;
            },
            IngestAction::Ignore => {
                proof {
                    assert(!decodable_publish(events@[idx as int])
                        && !malformed_publish(events@[idx as int])) by {
                        reveal(decodable_publish);
                        reveal(malformed_publish);
                        if decodable_publish(events@[idx as int]) {
                            let v0 = choose|v: MeasurementView|
                                payload_decodes_to(events@[idx as int], v);
                            assert(payload_decodes_to(events@[idx as int], v0));
                        }
                    }
                    lemma_ingest_skip_step(events@, q0, queue@, idx as int);
                }
                idx = idx + 1;
            },
            IngestAction::Terminate => {
                proof {
                    assert(!decodable_publish(events@[idx as int])
                        && !malformed_publish(events@[idx as int])) by {
                        reveal(decodable_publish);
                        reveal(malformed_publish);
                        if decodable_publish(events@[idx as int]) {
                            let v0 = choose|v: MeasurementView|
                                payload_decodes_to(events@[idx as int], v);
                            assert(payload_decodes_to(events@[idx as int], v0));
                        }
                    }
                    lemma_ingest_skip_step(events@, q0, queue@, idx as int);
                }
                idx = idx + 1;
                return IngestReport { consumed: idx, enqueued: enq, dropped, terminated: true };
            },
        }
    }
}

} // verus!
