use soil_ingest::measurement::{DataValue, SoilMoistureMeasurement};
use soil_ingest::payload::{decode_encoded, parse_soil_measurement};

#[test]
fn test_round_trip_all_fields() {
    let m = SoilMoistureMeasurement::new(
        DataValue::from_scaled(3012345),
        "cb",
        "sensor_07",
        "greenhouse_2",
    );
    let payload = m.into_payload().unwrap();
    let back = SoilMoistureMeasurement::from_payload(&payload).unwrap();
    assert_eq!(back.time, m.time);
    assert_eq!(back.data, m.data);
    assert_eq!(back.unit, m.unit);
    assert_eq!(back.id, m.id);
    assert_eq!(back.sensor_id, m.sensor_id);
    assert_eq!(back.location, m.location);
}

#[test]
fn test_decode_encoded_is_identity() {
    let m = SoilMoistureMeasurement::new(DataValue::from_scaled(-98765), "cb", "s", "l");
    let back = decode_encoded(&m);
    assert_eq!(back, m);
}

#[test]
fn test_round_trip_negative_time() {
    let mut m = SoilMoistureMeasurement::new(DataValue::from_units(1), "cb", "s", "l");
    m.time = -42;
    let payload = m.into_payload().unwrap();
    assert!(payload.contains("\"time\":-42,"));
    let back = SoilMoistureMeasurement::from_payload(&payload).unwrap();
    assert_eq!(back.time, -42);
}

#[test]
fn test_decode_negative_fraction() {
    let payload = "{\"time\":5,\"data\":-0.5,\"unit\":\"cb\",\"id\":\"i\",\"sensor_id\":\"s\",\"location\":\"l\"}";
    let m = SoilMoistureMeasurement::from_payload(payload).unwrap();
    assert_eq!(m.data, DataValue::from_scaled(-50000));
}

#[test]
fn test_decode_small_fraction() {
    let payload = "{\"time\":5,\"data\":0.00001,\"unit\":\"cb\",\"id\":\"i\",\"sensor_id\":\"s\",\"location\":\"l\"}";
    let m = SoilMoistureMeasurement::from_payload(payload).unwrap();
    assert_eq!(m.data, DataValue::from_scaled(1));
}

#[test]
fn test_decode_rejects_malformed() {
    assert!(SoilMoistureMeasurement::from_payload("not a payload").is_err());
    assert!(SoilMoistureMeasurement::from_payload("").is_err());
    assert!(SoilMoistureMeasurement::from_payload("{}").is_err());
}

#[test]
fn test_decode_rejects_missing_field() {
    let payload = "{\"time\":5,\"data\":0.5,\"unit\":\"cb\",\"id\":\"i\",\"sensor_id\":\"s\"}";
    assert!(SoilMoistureMeasurement::from_payload(payload).is_err());
}

#[test]
fn test_decode_rejects_trailing_garbage() {
    let payload = "{\"time\":5,\"data\":0.5,\"unit\":\"cb\",\"id\":\"i\",\"sensor_id\":\"s\",\"location\":\"l\"}x";
    assert!(SoilMoistureMeasurement::from_payload(payload).is_err());
}

#[test]
fn test_decode_rejects_leading_zero() {
    let payload = "{\"time\":05,\"data\":0.5,\"unit\":\"cb\",\"id\":\"i\",\"sensor_id\":\"s\",\"location\":\"l\"}";
    assert!(SoilMoistureMeasurement::from_payload(payload).is_err());
}

#[test]
fn test_decode_rejects_noncanonical_fraction() {
    let payload = "{\"time\":5,\"data\":30.50,\"unit\":\"cb\",\"id\":\"i\",\"sensor_id\":\"s\",\"location\":\"l\"}";
    assert!(SoilMoistureMeasurement::from_payload(payload).is_err());
    let payload6 = "{\"time\":5,\"data\":30.123456,\"unit\":\"cb\",\"id\":\"i\",\"sensor_id\":\"s\",\"location\":\"l\"}";
    assert!(SoilMoistureMeasurement::from_payload(payload6).is_err());
    let payload_neg_zero = "{\"time\":5,\"data\":-0.0,\"unit\":\"cb\",\"id\":\"i\",\"sensor_id\":\"s\",\"location\":\"l\"}";
    assert!(SoilMoistureMeasurement::from_payload(payload_neg_zero).is_err());
}

#[test]
fn test_decode_rejects_integer_data() {
    let payload = "{\"time\":5,\"data\":30,\"unit\":\"cb\",\"id\":\"i\",\"sensor_id\":\"s\",\"location\":\"l\"}";
    assert!(SoilMoistureMeasurement::from_payload(payload).is_err());
}

#[test]
fn test_escaped_fields_round_trip() {
    let m = SoilMoistureMeasurement::new(
        DataValue::from_units(1),
        "c\"b",
        "back\\slash",
        "two words",
    );
    let payload = m.into_payload().unwrap();
    let back = SoilMoistureMeasurement::from_payload(&payload).unwrap();
    assert_eq!(back.unit, "c\"b");
    assert_eq!(back.sensor_id, "back\\slash");
    assert_eq!(back.location, "two words");
    assert_eq!(back, m);
}

#[test]
fn test_decode_preserves_spaces_inside_fields() {
    let payload = "{ \"time\": 5, \"data\": 0.5, \"unit\": \"cb\", \"id\": \"i\", \"sensor_id\": \"s\", \"location\": \"two words\" }";
    let m = SoilMoistureMeasurement::from_payload(payload).unwrap();
    assert_eq!(m.location, "two words");
}

#[test]
fn test_decode_unescapes_quotes_and_backslashes() {
    let payload = "{\"time\":5,\"data\":0.5,\"unit\":\"c\\\"b\",\"id\":\"i\",\"sensor_id\":\"a\\\\b\",\"location\":\"l\"}";
    let m = SoilMoistureMeasurement::from_payload(payload).unwrap();
    assert_eq!(m.unit, "c\"b");
    assert_eq!(m.sensor_id, "a\\b");
}

#[test]
fn test_decode_rejects_bad_escape() {
    let unknown = "{\"time\":5,\"data\":0.5,\"unit\":\"c\\qb\",\"id\":\"i\",\"sensor_id\":\"s\",\"location\":\"l\"}";
    assert!(SoilMoistureMeasurement::from_payload(unknown).is_err());
}

#[test]
fn test_parse_soil_measurement() {
    let payload = "{\"time\":9,\"data\":1.5,\"unit\":\"cb\",\"id\":\"i9\",\"sensor_id\":\"s9\",\"location\":\"l9\"}";
    let m = parse_soil_measurement(payload).unwrap();
    assert_eq!(m.time, 9);
    assert_eq!(m.data, DataValue::from_scaled(150000));
    assert_eq!(m.id, "i9");
}

#[test]
fn test_payload_is_json_compatible() {
    let m = SoilMoistureMeasurement::new(DataValue::from_scaled(3012345), "cb", "s1", "l1");
    let payload = m.into_payload().unwrap();
    let v: serde_json::Value = serde_json::from_str(&payload).unwrap();
    assert_eq!(v["time"].as_i64().unwrap(), m.time);
    assert_eq!(v["data"].as_f64().unwrap(), 30.12345);
    assert_eq!(v["unit"].as_str().unwrap(), "cb");
    assert_eq!(v["id"].as_str().unwrap(), m.id);
    assert_eq!(v["sensor_id"].as_str().unwrap(), "s1");
    assert_eq!(v["location"].as_str().unwrap(), "l1");
}

#[test]
fn test_escaped_payload_is_json_compatible() {
    let m = SoilMoistureMeasurement::new(DataValue::from_units(2), "c\"b", "s 1", "l\\1");
    let payload = m.into_payload().unwrap();
    let v: serde_json::Value = serde_json::from_str(&payload).unwrap();
    assert_eq!(v["unit"].as_str().unwrap(), "c\"b");
    assert_eq!(v["sensor_id"].as_str().unwrap(), "s 1");
    assert_eq!(v["location"].as_str().unwrap(), "l\\1");
}
