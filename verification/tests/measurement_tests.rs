use soil_ingest::measurement::{DataValue, SoilMoistureMeasurement};

#[test]
fn test_create_measurement() {
    let measurement =
        SoilMoistureMeasurement::new(DataValue::from_units(30), "cb", "sensor_01", "location_01");
    assert_eq!(measurement.data, DataValue::from_units(30));
    assert_eq!(measurement.unit, String::from("cb"));
    assert_eq!(measurement.sensor_id, String::from("sensor_01"));
    assert_eq!(measurement.location, String::from("location_01"));
}

#[test]
fn test_create_measurement_from_payload() {
    let payload = r#"{
            "time": 1731240000000000000,
            "data": 30.0,
            "unit": "cb",
            "id": "id_01",
            "sensor_id": "sensor_01",
            "location": "location_01"
        }"#;

    let measurement = SoilMoistureMeasurement::from_payload(payload).unwrap();

    assert_eq!(measurement.data, DataValue::from_units(30));
    assert_eq!(measurement.unit, "cb");
    assert_eq!(measurement.id, "id_01");
    assert_eq!(measurement.sensor_id, "sensor_01");
    assert_eq!(measurement.location, "location_01");
    assert_eq!(measurement.time, 1731240000000000000);
}

#[test]
fn test_create_payload_from_measurement() {
    let measurement =
        SoilMoistureMeasurement::new(DataValue::from_units(30), "cb", "sensor_01", "location_01");

    let payload = measurement.into_payload().unwrap();

    assert_eq!(
        payload,
        format!(
            "{{\"time\":{0},\"data\":30.0,\"unit\":\"{1}\",\"id\":\"{2}\",\"sensor_id\":\"{3}\",\"location\":\"{4}\"}}",
            measurement.time,
            measurement.unit,
            measurement.id,
            measurement.sensor_id,
            measurement.location
        )
    )
}

#[test]
fn test_create_query_string_from_measurement() {
    let measurement =
        SoilMoistureMeasurement::new(DataValue::from_units(30), "cb", "sensor_01", "location_01");

    let query_string = measurement.into_query_string("soil_moisture_readings");

    assert_eq!(
        query_string,
        format!(
            "soil_moisture_readings,id={},sensor_id=sensor_01,location=location_01,unit=cb data=30.00000 {}",
            measurement.id, measurement.time
        )
    );
}

#[test]
fn test_fresh_id_shape() {
    let m = SoilMoistureMeasurement::new(DataValue::from_units(1), "cb", "s", "l");
    assert_eq!(m.id.len(), 36);
    assert!(m
        .id
        .chars()
        .all(|c| c.is_ascii_hexdigit() || c == '-'));
    assert!(m.time >= 0);
}

#[test]
fn test_get_returns_all_fields() {
    let m = SoilMoistureMeasurement::new(DataValue::from_scaled(12345), "cb", "s1", "l1");
    let (time, data, unit, id, sensor_id, location) = m.get();
    assert_eq!(time, m.time);
    assert_eq!(data, m.data);
    assert_eq!(unit, &m.unit);
    assert_eq!(id, &m.id);
    assert_eq!(sensor_id, &m.sensor_id);
    assert_eq!(location, &m.location);
}

#[test]
fn test_query_string_negative_fraction() {
    let mut m = SoilMoistureMeasurement::new(DataValue::from_scaled(-50000), "cb", "s", "l");
    m.time = 7;
    let q = m.into_query_string("t");
    assert_eq!(
        q,
        format!("t,id={},sensor_id=s,location=l,unit=cb data=-0.50000 7", m.id)
    );
}
