//! Drive temperature — reported carefully, and deliberately not as a diagnosis.
//!
//! Temperature correlates with IO stalls without causing them. A drive can sit
//! near its limit indefinitely and never throttle. The only *evidence* of
//! throttling is the drive's own counters — `Thermal Management T1/T2 Trans
//! Count` and `Warning Temperature Time` — and those need root. So: report the
//! observation, name the command that settles it, and never assert the
//! mechanism.

use vstd::prelude::*;

use crate::decimal::fixed;
use crate::float::{Double, at_most, difference, quotient, whole};
use crate::pathology::btrfs::{number_in, read_u64};
use crate::pathology::{Finding, Severity, Warning, findings};
use crate::text::{
    copy_text, decimal, decimal_text, from_chars, has_prefix, is_text, starts_with, to_chars, trim,
    trimmed,
};

verus! {

/// How close to its published limit before a sensor is worth mentioning.
///
/// Five degrees, not ten. At ten this fired on a drive running 72 °C against an
/// 82 °C limit that had never throttled in 4,979 power-on hours.
pub const NEAR_LIMIT_MARGIN_C: u64 = 5;

/// What is said of a drive at or above its limit.
pub open spec fn over_limit_message(label: Seq<char>, temp: Double, crit: Double) -> Seq<char> {
    "drive sensor '"@ + label + "' is at "@ + fixed(temp, 0)
        + " °C, at or above its critical limit of "@ + fixed(crit, 0)
        + " °C. Confirm whether it is actually throttling with `sudo nvme smart-log <dev>`: 'Thermal Management T1/T2 Trans Count' greater than zero means yes."@
}

/// What is said of a drive close below its limit.
pub open spec fn near_limit_message(label: Seq<char>, temp: Double, crit: Double) -> Seq<char> {
    "drive sensor '"@ + label + "' is at "@ + fixed(temp, 0) + " °C, "@ + fixed(
        difference(crit, temp),
        0,
    ) + " °C below its limit of "@ + fixed(crit, 0)
        + " °C. Worth noting, but not proof of throttling — check 'Thermal Management T1/T2 Trans Count' in `nvme smart-log` before blaming heat for an IO stall."@
}

/// What is worth reporting of a drive temperature.
///
/// A sensor with no published threshold is not a thermal-management sensor, and
/// is not warned on at any temperature: a drive can hold one sensor at 91 °C
/// for its whole life and never manage against it.
pub open spec fn assessed(label: Seq<char>, temp: Double, crit: Option<Double>) -> Option<Finding> {
    match crit {
        None => None,
        Some(crit) => if at_most(crit, temp) {
            Some(
                Finding {
                    source: "nvme"@,
                    severity: Severity::Critical,
                    transient: false,
                    message: over_limit_message(label, temp, crit),
                },
            )
        } else if at_most(difference(crit, whole(NEAR_LIMIT_MARGIN_C as int)), temp) {
            Some(
                Finding {
                    source: "nvme"@,
                    severity: Severity::Note,
                    transient: false,
                    message: near_limit_message(label, temp, crit),
                },
            )
        } else {
            None
        },
    }
}

/// A finding as an optional result.
pub open spec fn found(w: Option<Warning>) -> Option<Finding> {
    match w {
        Some(w) => Some(w@),
        None => None,
    }
}

/// Decide whether a drive temperature is worth reporting.
pub fn assess(label: &str, temp_c: Double, crit_c: Option<Double>) -> (r: Option<Warning>)
    ensures
        found(r) == assessed(label@, temp_c, crit_c),
{
    let crit: Double = match crit_c {
        None => return None,
        Some(crit) => crit,
    };
    if crit.less_or_equal(&temp_c) {
        let mut m: String = copy_text("drive sensor '");
        m.push_str(label);
        m.push_str("' is at ");
        m.push_str(temp_c.to_fixed(0).as_str());
        m.push_str(" °C, at or above its critical limit of ");
        m.push_str(crit.to_fixed(0).as_str());
        m.push_str(
            " °C. Confirm whether it is actually throttling with `sudo nvme smart-log <dev>`: 'Thermal Management T1/T2 Trans Count' greater than zero means yes.",
        );
        return Some(
            Warning {
                source: copy_text("nvme"),
                severity: Severity::Critical,
                transient: false,
                message: m,
            },
        );
    }
    let margin: Double = Double::from_u64(NEAR_LIMIT_MARGIN_C);
    if crit.minus(&margin).less_or_equal(&temp_c) {
        let mut m: String = copy_text("drive sensor '");
        m.push_str(label);
        m.push_str("' is at ");
        m.push_str(temp_c.to_fixed(0).as_str());
        m.push_str(" °C, ");
        m.push_str(crit.minus(&temp_c).to_fixed(0).as_str());
        m.push_str(" °C below its limit of ");
        m.push_str(crit.to_fixed(0).as_str());
        m.push_str(
            " °C. Worth noting, but not proof of throttling — check 'Thermal Management T1/T2 Trans Count' in `nvme smart-log` before blaming heat for an IO stall.",
        );
        return Some(
            Warning {
                source: copy_text("nvme"),
                severity: Severity::Note,
                transient: false,
                message: m,
            },
        );
    }
    None
}

/// One temperature sensor, as its files read.
#[derive(Debug)]
pub struct Sensor {
    /// The number in its file names.
    pub index: u64,
    pub input: Option<String>,
    pub label: Option<String>,
    pub crit: Option<String>,
}

/// One hardware monitor, as its files read.
#[derive(Debug)]
pub struct Monitor {
    /// Its directory.
    pub path: String,
    pub name: Option<String>,
    pub sensors: Vec<Sensor>,
}

/// Does a monitor of this name watch a drive?
pub open spec fn watches_drive(name: Option<String>) -> bool {
    match name {
        Some(n) => starts_with(trim(n@), "nvme"@) || trim(n@) == "drivetemp"@,
        None => false,
    }
}

/// Thousandths of a degree, in degrees.
pub open spec fn degrees(millideg: nat) -> Double {
    quotient(whole(millideg as int), whole(1000))
}

impl Sensor {
    /// The name a sensor goes by.
    pub open spec fn title(&self) -> Seq<char> {
        match self.label {
            Some(l) => trim(l@),
            None => "temp"@ + decimal(self.index as nat),
        }
    }

    /// What is worth reporting of a sensor. One without a reading is passed
    /// over.
    pub open spec fn finding(&self) -> Option<Finding> {
        match number_in(self.input) {
            None => None,
            Some(t) => assessed(
                self.title(),
                degrees(t),
                match number_in(self.crit) {
                    Some(c) => Some(degrees(c)),
                    None => None,
                },
            ),
        }
    }

    /// See [`Sensor::title`].
    pub fn label_text(&self) -> (r: String)
        ensures
            r@ == self.title(),
    {
        match &self.label {
            Some(l) => from_chars(trimmed(&to_chars(l.as_str()))),
            None => {
                let mut s: String = copy_text("temp");
                s.push_str(decimal_text(self.index).as_str());
                s
            },
        }
    }

    fn check(&self) -> (r: Option<Warning>)
        ensures
            found(r) == self.finding(),
    {
        let input: u64 = match read_u64(&self.input) {
            None => return None,
            Some(t) => t,
        };
        let label: String = self.label_text();
        let thousand: Double = Double::from_u64(1000);
        let crit: Option<Double> = match read_u64(&self.crit) {
            Some(c) => Some(Double::from_u64(c).over(&thousand)),
            None => None,
        };
        assess(label.as_str(), Double::from_u64(input).over(&thousand), crit)
    }
}

/// What there is to report of some sensors.
pub open spec fn sensor_findings(sensors: Seq<Sensor>) -> Seq<Finding>
    decreases sensors.len(),
{
    if sensors.len() == 0 {
        seq![]
    } else {
        match sensors.last().finding() {
            Some(f) => sensor_findings(sensors.drop_last()).push(f),
            None => sensor_findings(sensors.drop_last()),
        }
    }
}

/// What there is to report of all monitors.
pub open spec fn all_findings(monitors: Seq<Monitor>) -> Seq<Finding>
    decreases monitors.len(),
{
    if monitors.len() == 0 {
        seq![]
    } else if watches_drive(monitors.last().name) {
        all_findings(monitors.drop_last()) + sensor_findings(monitors.last().sensors@)
    } else {
        all_findings(monitors.drop_last())
    }
}

/// See [`watches_drive`].
pub fn is_drive(name: &Option<String>) -> (r: bool)
    ensures
        r == watches_drive(*name),
{
    match name {
        Some(n) => {
            let chars: Vec<char> = to_chars(n.as_str());
            let t: &[char] = trimmed(&chars);
            has_prefix(t, "nvme") || is_text(t, "drivetemp")
        },
        None => false,
    }
}

fn check_sensors(sensors: &Vec<Sensor>) -> (r: Vec<Warning>)
    ensures
        findings(r@) == sensor_findings(sensors@),
{
    let mut out: Vec<Warning> = Vec::new();
    let mut i: usize = 0;
    assert(sensors@.take(0) =~= seq![]);
    assert(findings(out@) =~= seq![]);
    while i < sensors.len()
        invariant
            i <= sensors@.len(),
            findings(out@) == sensor_findings(sensors@.take(i as int)),
        decreases sensors@.len() - i,
    {
        let ghost before = out@;
        let ghost t = sensors@.take(i + 1);
        assert(t.drop_last() =~= sensors@.take(i as int));
        if let Some(w) = sensors[i].check() {
            out.push(w);
            assert(findings(out@) =~= findings(before).push(w@));
        }
        i += 1;
    }
    assert(sensors@.take(i as int) =~= sensors@);
    out
}

/// The drives worth reporting among the hardware monitors.
pub fn check(monitors: &Vec<Monitor>) -> (r: Vec<Warning>)
    ensures
        findings(r@) == all_findings(monitors@),
{
    let mut out: Vec<Warning> = Vec::new();
    let mut i: usize = 0;
    assert(monitors@.take(0) =~= seq![]);
    assert(findings(out@) =~= seq![]);
    while i < monitors.len()
        invariant
            i <= monitors@.len(),
            findings(out@) == all_findings(monitors@.take(i as int)),
        decreases monitors@.len() - i,
    {
        let ghost before = out@;
        let ghost t = monitors@.take(i + 1);
        assert(t.drop_last() =~= monitors@.take(i as int));
        if is_drive(&monitors[i].name) {
            let mut more: Vec<Warning> = check_sensors(&monitors[i].sensors);
            let ghost m = more@;
            out.append(&mut more);
            assert(findings(out@) =~= findings(before) + findings(m));
        }
        i += 1;
    }
    assert(monitors@.take(i as int) =~= monitors@);
    out
}

/// A sensor without a published limit is never warned on, at any temperature.
pub proof fn lemma_no_limit_no_warning(label: Seq<char>, temp: Double)
    ensures
        assessed(label, temp, None) is None,
{
}

} // verus!
