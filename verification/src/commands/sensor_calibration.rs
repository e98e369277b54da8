//! Sensor calibration write commands (Speeduino calibration space).
//!
//! The CLT/IAT thermistor curves and the O2/AFR transfer table live outside
//! the tune pages, so ordinary page writes can never reach them.

use crate::num::{Num, ZERO};
use crate::text::{decimal, decimal_text, lowered};
use vstd::prelude::*;

verus! {

/// Points of a temperature calibration.
pub const TEMP_CALIBRATION_POINTS: usize = 32;

/// Entries of the O2 calibration: one byte for each 10-bit ADC count.
pub const O2_CALIBRATION_WIRE_BYTES: usize = 1024;

/// A temperature table in the ECU's calibration space.
#[derive(Clone, Copy, Debug, PartialEq, Eq)]
pub enum CalibrationTable {
    /// Coolant temperature.
    Clt,
    /// Intake air temperature.
    Iat,
}

/// What is said of a sensor that has no temperature table.
pub open spec fn unknown_sensor_text(sensor: Seq<char>) -> Seq<char> {
    "unknown temperature sensor '"@ + lowered(sensor) + "' (expected 'clt' or 'iat')"@
}

/// The table of a temperature sensor, by the sensor's name.
pub open spec fn table_of(sensor: Seq<char>) -> Option<CalibrationTable> {
    if lowered(sensor) == "clt"@ {
        Some(CalibrationTable::Clt)
    } else if lowered(sensor) == "iat"@ {
        Some(CalibrationTable::Iat)
    } else {
        None
    }
}

/// The table of a temperature sensor, by the sensor's name in any ASCII case.
pub fn parse_sensor(sensor: &str) -> (r: Result<CalibrationTable, String>)
    ensures
        match r {
            Ok(table) => table_of(sensor@) == Some(table),
            Err(text) => table_of(sensor@) is None && text@ == unknown_sensor_text(sensor@),
        },
{
    let name = sensor.to_ascii_lowercase();
    if name == String::from_str("clt") {
        Ok(CalibrationTable::Clt)
    } else if name == String::from_str("iat") {
        Ok(CalibrationTable::Iat)
    } else {
        Err(
            String::from_str("unknown temperature sensor '").concat(name.as_str()).concat(
                "' (expected 'clt' or 'iat')",
            ),
        )
    }
}

/// The ADC bins the connected ECU will assign to a 32-point temperature
/// calibration, so the frontend can sample its sensor curve at exactly the
/// points the firmware will use.
#[derive(Clone, Debug)]
pub struct CalibrationBinsInfo {
    pub bins: Vec<u16>,
    pub modern_protocol: bool,
    pub connected: bool,
}

/// How far the bins of a protocol lie apart: the legacy path places bin `x` at
/// 32 x, the CRC path at 33 x.
pub open spec fn bin_step(modern: bool) -> int {
    if modern {
        33
    } else {
        32
    }
}

/// The ADC bins of a temperature calibration.
pub fn temperature_calibration_bins(modern: bool) -> (r: [u16; 32])
    ensures
        forall|x: int| 0 <= x < TEMP_CALIBRATION_POINTS ==> #[trigger] r@[x] == x * bin_step(modern),
{
    let step: u16 = if modern {
        33
    } else {
        32
    };
    let mut bins: [u16; 32] = [0u16;32];
    let mut x: usize = 0;
    while x < TEMP_CALIBRATION_POINTS
        invariant
            x <= TEMP_CALIBRATION_POINTS,
            step == bin_step(modern),
            forall|k: int| 0 <= k < x ==> #[trigger] bins@[k] == k * bin_step(modern),
        decreases TEMP_CALIBRATION_POINTS - x,
    {
        assert(0 <= x * step <= 32 * 33) by (nonlinear_arith)
            requires
                x <= 32,
                step <= 33,
        ;
        bins[x] = x as u16 * step;
        x += 1;
    }
    bins
}

/// The bins to sample a curve at. `protocol` is whether the connected ECU
/// speaks the modern protocol, `None` where none is connected; disconnected
/// callers get the legacy bins for preview purposes.
pub fn get_temperature_calibration_bins(protocol: Option<bool>) -> (r: Result<
    CalibrationBinsInfo,
    String,
>)
    ensures
        r matches Ok(info) && {
            &&& info.connected == protocol is Some
            &&& info.modern_protocol == (protocol == Some(true))
            &&& info.bins@.len() == TEMP_CALIBRATION_POINTS
            &&& forall|x: int|
                0 <= x < TEMP_CALIBRATION_POINTS ==> #[trigger] info.bins@[x] == x * bin_step(
                    protocol == Some(true),
                )
        },
{
    let modern = match protocol {
        Some(m) => m,
        None => false,
    };
    let table = temperature_calibration_bins(modern);
    let mut bins: Vec<u16> = Vec::new();
    while bins.len() < TEMP_CALIBRATION_POINTS
        invariant
            bins.len() <= TEMP_CALIBRATION_POINTS,
            forall|k: int| 0 <= k < bins.len() ==> bins@[k] == table@[k],
        decreases TEMP_CALIBRATION_POINTS - bins.len(),
    {
        bins.push(table[bins.len()]);
    }
    Ok(CalibrationBinsInfo { bins, modern_protocol: modern, connected: protocol.is_some() })
}

/// What is said of a list that is too long or too short.
pub open spec fn count_text(expected: int, what: Seq<char>, got: int) -> Seq<char> {
    "expected "@ + decimal(expected) + " "@ + what + ", got "@ + decimal(got)
}

fn count_message(expected: usize, what: &str, got: usize) -> (r: String)
    ensures
        r@ == count_text(expected as int, what@, got as int),
{
    String::from_str("expected ").concat(decimal_text(expected as u64).as_str()).concat(" ").concat(
        what,
    ).concat(", got ").concat(decimal_text(got as u64).as_str())
}

/// Prepare a 32-point CLT or IAT calibration curve for the ECU: the table to
/// write, and the 32 temperatures.
///
/// `temps_c` are °C at the bins reported by
/// [`get_temperature_calibration_bins`].
pub fn write_temperature_calibration(sensor: &str, temps_c: &Vec<Num>, connected: bool) -> (r: Result<
    (CalibrationTable, [Num; 32]),
    String,
>)
    ensures
        match r {
            Ok((table, temps)) => {
                &&& table_of(sensor@) == Some(table)
                &&& temps@ == temps_c@
                &&& connected
            },
            Err(text) => {
                if table_of(sensor@) is None {
                    text@ == unknown_sensor_text(sensor@)
                } else if temps_c@.len() != TEMP_CALIBRATION_POINTS {
                    text@ == count_text(
                        TEMP_CALIBRATION_POINTS as int,
                        "temperatures"@,
                        temps_c@.len() as int,
                    )
                } else {
                    !connected && text@ == "Not connected to ECU"@
                }
            },
        },
{
    let table = match parse_sensor(sensor) {
        Ok(t) => t,
        Err(text) => {
            return Err(text);
        },
    };
    if temps_c.len() != TEMP_CALIBRATION_POINTS {
        return Err(count_message(TEMP_CALIBRATION_POINTS, "temperatures", temps_c.len()));
    }
    if !connected {
        return Err(String::from_str("Not connected to ECU"));
    }
    let mut temps: [Num; 32] = [Num { bits: ZERO };32];
    let mut i: usize = 0;
    while i < TEMP_CALIBRATION_POINTS
        invariant
            i <= TEMP_CALIBRATION_POINTS,
            temps_c.len() == TEMP_CALIBRATION_POINTS,
            forall|k: int| 0 <= k < i ==> #[trigger] temps@[k] == temps_c@[k],
        decreases TEMP_CALIBRATION_POINTS - i,
    {
        temps[i] = temps_c[i];
        i += 1;
    }
    assert(temps@ =~= temps_c@);
    Ok((table, temps))
}

/// Prepare the 1024-entry O2/AFR transfer curve (AFR per 10-bit ADC count) for
/// the ECU.
pub fn write_afr_calibration(afr_values: Vec<Num>, connected: bool) -> (r: Result<
    Vec<Num>,
    String,
>)
    ensures
        match r {
            Ok(curve) => {
                &&& curve@ == afr_values@
                &&& curve@.len() == O2_CALIBRATION_WIRE_BYTES
                &&& connected
            },
            Err(text) => if afr_values@.len() != O2_CALIBRATION_WIRE_BYTES {
                text@ == count_text(
                    O2_CALIBRATION_WIRE_BYTES as int,
                    "AFR values"@,
                    afr_values@.len() as int,
                )
            } else {
                !connected && text@ == "Not connected to ECU"@
            },
        },
{
    if afr_values.len() != O2_CALIBRATION_WIRE_BYTES {
        return Err(count_message(O2_CALIBRATION_WIRE_BYTES, "AFR values", afr_values.len()));
    }
    if !connected {
        return Err(String::from_str("Not connected to ECU"));
    }
    Ok(afr_values)
}

/// A sensor's name is read in any ASCII case.
pub proof fn law_sensor_names_have_no_case(a: Seq<char>, b: Seq<char>)
    requires
        lowered(a) == lowered(b),
    ensures
        table_of(a) == table_of(b),
        unknown_sensor_text(a) == unknown_sensor_text(b),
{
}

/// The bins of either protocol ascend and lie on the 10-bit scale.
pub proof fn law_bins_ascend_on_the_scale(modern: bool, x: int, y: int)
    requires
        0 <= x < y < TEMP_CALIBRATION_POINTS,
    ensures
        0 <= x * bin_step(modern) < y * bin_step(modern) < 1024,
{
}

/// A sensor's name is one of three letters: c, l, t or i, a, t, in either case;
/// the first names the coolant's table, the second that of the intake air, and
/// no other name has one.
pub proof fn law_two_names_have_a_table(sensor: Seq<char>)
    ensures
        table_of(sensor) == Some(CalibrationTable::Clt) <==> sensor.len() == 3 && (sensor[0] == 'c'
            || sensor[0] == 'C') && (sensor[1] == 'l' || sensor[1] == 'L') && (sensor[2] == 't'
            || sensor[2] == 'T'),
        table_of(sensor) == Some(CalibrationTable::Iat) <==> sensor.len() == 3 && (sensor[0] == 'i'
            || sensor[0] == 'I') && (sensor[1] == 'a' || sensor[1] == 'A') && (sensor[2] == 't'
            || sensor[2] == 'T'),
        unknown_sensor_text(sensor) == "unknown temperature sensor '"@ + lowered(sensor)
            + "' (expected 'clt' or 'iat')"@,
{
    reveal_strlit("clt");
    reveal_strlit("iat");
    let low = lowered(sensor);
    assert(low.len() == sensor.len() && "clt"@.len() == 3 && "iat"@.len() == 3);
    assert("clt"@[0] == 'c' && "iat"@[0] == 'i');
    if sensor.len() == 3 {
        crate::text::law_lowering_changes_capitals_alone(sensor, 0);
        crate::text::law_lowering_changes_capitals_alone(sensor, 1);
        crate::text::law_lowering_changes_capitals_alone(sensor, 2);
        assert(low == "clt"@ <==> low[0] == 'c' && low[1] == 'l' && low[2] == 't') by {
            if low[0] == 'c' && low[1] == 'l' && low[2] == 't' {
                assert(low =~= "clt"@);
            }
        }
        assert(low == "iat"@ <==> low[0] == 'i' && low[1] == 'a' && low[2] == 't') by {
            if low[0] == 'i' && low[1] == 'a' && low[2] == 't' {
                assert(low =~= "iat"@);
            }
        }
    }
}

/// The legacy bins lie 32 counts apart, the modern ones 33, and both start at
/// the bottom of the scale.
pub proof fn law_bins_are_multiples_of_their_step(x: int)
    ensures
        x * bin_step(false) == 32 * x,
        x * bin_step(true) == 33 * x,
{
}

/// What is said of a wrong count names both counts.
pub proof fn law_a_wrong_count_names_both(expected: int, what: Seq<char>, got: int)
    ensures
        count_text(expected, what, got) == "expected "@ + decimal(expected) + " "@ + what
            + ", got "@ + decimal(got),
{
}

/// A temperature curve has 32 points, the AFR curve 1024 entries, and what is
/// said of a list of another length tells both.
pub proof fn law_curves_have_their_lengths(got: int)
    ensures
        count_text(TEMP_CALIBRATION_POINTS as int, "temperatures"@, got)
            == "expected "@ + seq!['3', '2'] + " "@ + "temperatures"@ + ", got "@ + decimal(got),
        count_text(O2_CALIBRATION_WIRE_BYTES as int, "AFR values"@, got) == "expected "@ + seq![
            '1',
            '0',
            '2',
            '4',
        ] + " "@ + "AFR values"@ + ", got "@ + decimal(got),
{
    assert(decimal(3) == seq!['3'] && decimal(1) == seq!['1']);
    assert(decimal(32) =~= seq!['3', '2']);
    assert(decimal(10) =~= seq!['1', '0']);
    assert(decimal(102) =~= seq!['1', '0', '2']);
    assert(decimal(1024) =~= seq!['1', '0', '2', '4']);
}

} // verus!
