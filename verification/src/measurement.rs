//! The measurement value object: one soil-moisture sensor reading with
//! its timestamp, fixed-point sensor value, unit, unique identifier,
//! sensor identifier and location.

use vstd::prelude::*;

use crate::ext;

verus! {

/// A sensor value in fixed-point form: `scaled` counts hundred-thousandths,
/// so `scaled == 3_000_000` stands for the reading 30.0. Five fractional
/// digits is exactly the precision of the storage write statement.
#[derive(Clone, Copy, Debug, PartialEq, Eq, Structural)]
pub struct DataValue {
    pub scaled: i64,
}

impl DataValue {
    pub fn from_scaled(scaled: i64) -> (r: DataValue)
        ensures
            r.scaled == scaled,
    {
        DataValue { scaled }
    }

    /// A whole-number reading: `units` units and no fraction.
    pub fn from_units(units: i32) -> (r: DataValue)
        ensures
            r.scaled == units * 100_000,
    {
        DataValue { scaled: (units as i64) * 100_000 }
    }
}

/// Whitespace as the payload encoding treats it.
pub open spec fn is_ws(c: char) -> bool {
    c == ' ' || c == '\n' || c == '\t' || c == '\r'
}

/// Characters that pass through the payload encoding unchanged: neither
/// escaped (quote, backslash) nor insignificant whitespace. Any string is
/// encodable; fields of such characters are carried verbatim.
pub open spec fn str_ok(s: Seq<char>) -> bool {
    forall|i: int| 0 <= i < s.len() ==> !is_ws(#[trigger] s[i]) && s[i] != '"' && s[i] != '\\'
}

/// The mathematical model of a measurement.
pub ghost struct MeasurementView {
    /// Nanoseconds since the epoch.
    pub time: int,
    /// The sensor value, counted in hundred-thousandths.
    pub data: int,
    pub unit: Seq<char>,
    pub id: Seq<char>,
    pub sensor_id: Seq<char>,
    pub location: Seq<char>,
}

/// A well-formed measurement: the numbers lie in the signed 64-bit
/// range. Every measurement value is well formed, and the payload
/// encoding carries every string content by escaping.
pub open spec fn wf(v: MeasurementView) -> bool {
    i64::MIN <= v.time <= i64::MAX && i64::MIN <= v.data <= i64::MAX
}

/// One sensor reading. A pure value: constructed once, never mutated.
#[derive(Debug, Clone, PartialEq)]
pub struct SoilMoistureMeasurement {
    pub time: i64,
    pub data: DataValue,
    pub unit: String,
    pub id: String,
    pub sensor_id: String,
    pub location: String,
}

impl View for SoilMoistureMeasurement {
    type V = MeasurementView;

    open spec fn view(&self) -> MeasurementView {
        MeasurementView {
            time: self.time as int,
            data: self.data.scaled as int,
            unit: self.unit@,
            id: self.id@,
            sensor_id: self.sensor_id@,
            location: self.location@,
        }
    }
}

pub proof fn lemma_id_chars_ok(s: Seq<char>)
    requires
        forall|i: int| 0 <= i < s.len() ==> ext::id_char(#[trigger] s[i]),
    ensures
        str_ok(s),
{
    assert forall|i: int| 0 <= i < s.len() implies !is_ws(#[trigger] s[i]) && s[i] != '"' && s[i]
        != '\\' by {
        assert(ext::id_char(s[i]));
    }
}

impl SoilMoistureMeasurement {
    /// Builds a fresh measurement: stamps the current wall-clock time,
    /// draws a fresh unique identifier, and copies the remaining fields.
    /// Never fails.
    pub fn new(data: DataValue, unit: &str, sensor_id: &str, location: &str) -> (m: Self)
        ensures
            m.data == data,
            m.unit@ == unit@,
            m.sensor_id@ == sensor_id@,
            m.location@ == location@,
            m.id@.len() == 36,
            str_ok(m.id@),
            m.time >= 0,
            wf(m@),
    {
        let id = ext::fresh_id();
        proof {
            lemma_id_chars_ok(id@);
        }
        SoilMoistureMeasurement {
            time: ext::now_nanos(),
            data,
            unit: unit.to_owned(),
            id,
            sensor_id: sensor_id.to_owned(),
            location: location.to_owned(),
        }
    }

    /// All fields at once: timestamp, value, unit, id, sensor id, location.
    pub fn get(&self) -> (r: (i64, DataValue, &String, &String, &String, &String))
        ensures
            r.0 == self.time,
            r.1 == self.data,
            r.2@ == self.unit@,
            r.3@ == self.id@,
            r.4@ == self.sensor_id@,
            r.5@ == self.location@,
    {
        (self.time, self.data, &self.unit, &self.id, &self.sensor_id, &self.location)
    }
}

} // verus!
