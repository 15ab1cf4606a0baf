//! The line-oriented storage write statement:
//! `<table>,id=<id>,sensor_id=<sensor_id>,location=<location>,unit=<unit>
//! data=<data with exactly five fractional digits> <time>`.

use vstd::prelude::*;

use crate::digits::{fixed5_rep, int_rep, push_fixed5, push_int};
use crate::ext;
use crate::measurement::{MeasurementView, SoilMoistureMeasurement};

verus! {

pub open spec fn lit_id() -> Seq<char> {
    seq![',', 'i', 'd', '=']
}

pub open spec fn lit_sensor_id() -> Seq<char> {
    seq![',', 's', 'e', 'n', 's', 'o', 'r', '_', 'i', 'd', '=']
}

pub open spec fn lit_location() -> Seq<char> {
    seq![',', 'l', 'o', 'c', 'a', 't', 'i', 'o', 'n', '=']
}

pub open spec fn lit_unit() -> Seq<char> {
    seq![',', 'u', 'n', 'i', 't', '=']
}

pub open spec fn lit_data() -> Seq<char> {
    seq![' ', 'd', 'a', 't', 'a', '=']
}

/// The write statement for measurement `v` against table `table`. A total
/// function of its arguments and nothing else: `into_query_string` always
/// returns exactly this.
pub open spec fn write_statement(v: MeasurementView, table: Seq<char>) -> Seq<char> {
    table + lit_id() + v.id + lit_sensor_id() + v.sensor_id + lit_location() + v.location
        + lit_unit() + v.unit + lit_data() + fixed5_rep(v.data) + seq![' '] + int_rep(v.time)
}

/// Append the characters of `s` to `out`.
pub(crate) fn append_str(out: &mut Vec<char>, s: &str)
    ensures
        final(out)@ == old(out)@ + s@,
{
    let mut cs = ext::str_chars(s);
    out.append(&mut cs);
}

impl SoilMoistureMeasurement {
    /// The storage write statement for this measurement. Pure and total:
    /// the result is a function of the measurement and the table name
    /// alone, with the sensor value rendered to exactly five fractional
    /// digits.
    pub fn into_query_string(&self, table: &str) -> (r: String)
        ensures
            r@ == write_statement(self@, table@),
    {
        let mut out: Vec<char> = ext::str_chars(table);
        out.push(',');
        out.push('i');
        out.push('d');
        out.push('=');
        assert(out@ =~= table@ + lit_id());
        append_str(&mut out, self.id.as_str());
        out.push(',');
        out.push('s');
        out.push('e');
        out.push('n');
        out.push('s');
        out.push('o');
        out.push('r');
        out.push('_');
        out.push('i');
        out.push('d');
        out.push('=');
        assert(out@ =~= table@ + lit_id() + self.id@ + lit_sensor_id());
        append_str(&mut out, self.sensor_id.as_str());
        out.push(',');
        out.push('l');
        out.push('o');
        out.push('c');
        out.push('a');
        out.push('t');
        out.push('i');
        out.push('o');
        out.push('n');
        out.push('=');
        assert(out@ =~= table@ + lit_id() + self.id@ + lit_sensor_id() + self.sensor_id@
            + lit_location());
        append_str(&mut out, self.location.as_str());
        out.push(',');
        out.push('u');
        out.push('n');
        out.push('i');
        out.push('t');
        out.push('=');
        assert(out@ =~= table@ + lit_id() + self.id@ + lit_sensor_id() + self.sensor_id@
            + lit_location() + self.location@ + lit_unit());
        append_str(&mut out, self.unit.as_str());
        out.push(' ');
        out.push('d');
        out.push('a');
        out.push('t');
        out.push('a');
        out.push('=');
        assert(out@ =~= table@ + lit_id() + self.id@ + lit_sensor_id() + self.sensor_id@
            + lit_location() + self.location@ + lit_unit() + self.unit@ + lit_data());
        push_fixed5(&mut out, self.data.scaled);
        out.push(' ');
        push_int(&mut out, self.time);
        proof {
            assert(out@ =~= write_statement(self@, table@));
        }
        ext::chars_to_string(&out)
    }
}

} // verus!
