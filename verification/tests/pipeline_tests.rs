use soil_ingest::measurement::{DataValue, SoilMoistureMeasurement};
use soil_ingest::pipeline::run_ingestion;
use soil_ingest::queue::MeasurementQueue;
use soil_ingest::transport::{
    drain_until_ack, AckOutcome, TransportError, TransportEvent,
};

fn publish(payload: &str) -> Result<TransportEvent, TransportError> {
    Ok(TransportEvent::Publish { payload: String::from(payload) })
}

#[test]
fn test_ack_waits_through_unrelated_events() {
    let events = vec![
        Ok(TransportEvent::Other),
        publish("{\"junk\":1}"),
        Ok(TransportEvent::SubAck),
        Ok(TransportEvent::Other),
    ];
    assert_eq!(drain_until_ack(&events), AckOutcome::Acked { consumed: 3 });
}

#[test]
fn test_ack_never_returns_without_ack() {
    let events = vec![Ok(TransportEvent::Other), publish("x"), Ok(TransportEvent::Other)];
    assert_eq!(drain_until_ack(&events), AckOutcome::Exhausted);
}

#[test]
fn test_ack_fails_on_connection_error() {
    let events = vec![Ok(TransportEvent::Other), Err(TransportError::Connection)];
    assert_eq!(drain_until_ack(&events), AckOutcome::Failed { consumed: 2 });
}

#[test]
fn test_decode_failure_isolation() {
    let good = SoilMoistureMeasurement::new(DataValue::from_units(30), "cb", "s1", "l1");
    let good_payload = good.into_payload().unwrap();
    let events = vec![publish("this is not a measurement"), publish(&good_payload)];
    let mut queue = MeasurementQueue::new(10);
    let report = run_ingestion(&events, &mut queue);
    assert_eq!(report.consumed, 2);
    assert_eq!(report.enqueued, 1);
    assert_eq!(report.dropped, 1);
    assert!(!report.terminated);
    let m = queue.dequeue().unwrap();
    assert_eq!(m.id, good.id);
    assert!(queue.dequeue().is_none());
}

#[test]
fn test_ingestion_preserves_order() {
    let m1 = SoilMoistureMeasurement::new(DataValue::from_units(1), "cb", "s1", "l");
    let m2 = SoilMoistureMeasurement::new(DataValue::from_units(2), "cb", "s2", "l");
    let events = vec![
        publish(&m1.into_payload().unwrap()),
        Ok(TransportEvent::Other),
        publish(&m2.into_payload().unwrap()),
    ];
    let mut queue = MeasurementQueue::new(10);
    let report = run_ingestion(&events, &mut queue);
    assert_eq!(report.enqueued, 2);
    assert_eq!(queue.dequeue().unwrap().sensor_id, "s1");
    assert_eq!(queue.dequeue().unwrap().sensor_id, "s2");
}

#[test]
fn test_ingestion_backpressure_on_full_queue() {
    let m1 = SoilMoistureMeasurement::new(DataValue::from_units(1), "cb", "s1", "l");
    let m2 = SoilMoistureMeasurement::new(DataValue::from_units(2), "cb", "s2", "l");
    let events = vec![
        publish(&m1.into_payload().unwrap()),
        publish(&m2.into_payload().unwrap()),
    ];
    let mut queue = MeasurementQueue::new(1);
    let report = run_ingestion(&events, &mut queue);
    assert_eq!(report.consumed, 1);
    assert_eq!(report.enqueued, 1);
    assert!(!report.terminated);
    assert_eq!(queue.dequeue().unwrap().sensor_id, "s1");
}

#[test]
fn test_ingestion_stops_on_connection_error() {
    let m1 = SoilMoistureMeasurement::new(DataValue::from_units(1), "cb", "s1", "l");
    let m2 = SoilMoistureMeasurement::new(DataValue::from_units(2), "cb", "s2", "l");
    let events = vec![
        publish(&m1.into_payload().unwrap()),
        Err(TransportError::Connection),
        publish(&m2.into_payload().unwrap()),
    ];
    let mut queue = MeasurementQueue::new(10);
    let report = run_ingestion(&events, &mut queue);
    assert_eq!(report.consumed, 2);
    assert!(report.terminated);
    assert_eq!(report.enqueued, 1);
}

#[test]
fn test_queue_is_fifo_and_bounded() {
    let mut q = MeasurementQueue::new(2);
    let a = SoilMoistureMeasurement::new(DataValue::from_units(1), "cb", "a", "l");
    let b = SoilMoistureMeasurement::new(DataValue::from_units(2), "cb", "b", "l");
    let c = SoilMoistureMeasurement::new(DataValue::from_units(3), "cb", "c", "l");
    assert!(q.enqueue(a.clone()));
    assert!(q.enqueue(b.clone()));
    assert!(!q.enqueue(c.clone()));
    assert_eq!(q.dequeue().unwrap().sensor_id, "a");
    assert!(q.enqueue(c));
    assert_eq!(q.dequeue().unwrap().sensor_id, "b");
    assert_eq!(q.dequeue().unwrap().sensor_id, "c");
    assert!(q.dequeue().is_none());
}

#[test]
fn test_end_to_end_publish_to_write_statement() {
    let m = SoilMoistureMeasurement::new(
        DataValue::from_units(30),
        "cb",
        "sensor_01",
        "location_01",
    );
    let payload = m.into_payload().unwrap();
    let events = vec![Ok(TransportEvent::SubAck), publish(&payload)];
    assert_eq!(drain_until_ack(&events), AckOutcome::Acked { consumed: 1 });
    let mut queue = MeasurementQueue::new(100);
    let report = run_ingestion(&events, &mut queue);
    assert_eq!(report.enqueued, 1);
    let received = queue.dequeue().unwrap();
    assert_eq!(received.id, m.id);
    assert_eq!(received, m);
    let statement = received.into_query_string("soil_moisture_readings");
    assert!(statement.contains(&format!(
        "id={},sensor_id=sensor_01,location=location_01,unit=cb data=30.00000",
        m.id
    )));
}
