//! One decoded row of a sweep log.

use vstd::prelude::*;
use vstd::string::StringExecFns;

verus! {

/// One row: when it was taken, the band it covers, and one amplitude per
/// frequency bin. `freq_step` is a binary64 pattern, each amplitude a
/// binary32 pattern.
#[derive(Clone, Debug)]
pub struct Measurement {
    pub date: String,
    pub time: String,
    pub freq_low: u64,
    pub freq_high: u64,
    pub freq_step: u64,
    pub samples: u32,
    pub values: Vec<u32>,
}

/// The mathematical content of a `Measurement`.
pub struct MeasurementView {
    pub date: Seq<char>,
    pub time: Seq<char>,
    pub freq_low: u64,
    pub freq_high: u64,
    pub freq_step: u64,
    pub samples: u32,
    pub values: Seq<u32>,
}

impl View for Measurement {
    type V = MeasurementView;

    open spec fn view(&self) -> MeasurementView {
        MeasurementView {
            date: self.date@,
            time: self.time@,
            freq_low: self.freq_low,
            freq_high: self.freq_high,
            freq_step: self.freq_step,
            samples: self.samples,
            values: self.values@,
        }
    }
}

impl DeepView for Measurement {
    type V = MeasurementView;

    open spec fn deep_view(&self) -> MeasurementView {
        self.view()
    }
}

/// The key by which rows are gathered into sweeps: date and time, joined by
/// one space.
pub open spec fn timestamp(m: MeasurementView) -> Seq<char> {
    m.date + seq![' '] + m.time
}

impl Measurement {
    /// Builds the key by which rows are gathered into sweeps.
    pub fn timestamp_key(&self) -> (key: String)
        ensures
            key@ == timestamp(self@),
    {
        let mut key = self.date.clone();
        proof {
            reveal_strlit(" ");
            assert(" "@ =~= seq![' ']);
        }
        key.append(" ");
        key.append(self.time.as_str());
        key
    }
}

} // verus!
