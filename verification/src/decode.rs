//! The decoder: from the fields of one row to a `Measurement`.
//!
//! A row is `date, time, freq_low, freq_high, freq_step, samples`, then the
//! amplitudes and one trailing field. The white space at the two ends of a
//! field does not count.

use crate::binary32::NAN;
use crate::literal::{binary32_bits, binary64_bits, parse_binary32, parse_binary64};
use crate::measurement::{Measurement, MeasurementView};
use crate::number::{parse_unsigned, parsed_unsigned};
use crate::trim::{lemma_trimmed_row_idempotent, trim_row, trimmed_row};
use vstd::prelude::*;
use vstd::string::StringExecFns;

verus! {

/// Fields before the amplitudes.
pub const HEADER_FIELDS: usize = 6;

/// A field of a row.
#[derive(Clone, Copy, Debug, PartialEq, Eq, Structural)]
pub enum Field {
    Date,
    Time,
    FreqLow,
    FreqHigh,
    FreqStep,
    Samples,
    /// An amplitude, counted from zero.
    Value(usize),
}

/// Why a row gives no `Measurement`.
#[derive(Clone, Copy, Debug, PartialEq, Eq, Structural)]
pub enum DecodeError {
    /// The row ends before this field.
    Missing(Field),
    /// The field does not hold what it should.
    Malformed(Field),
}

/// The field at a place in the row.
pub open spec fn field_at(index: int) -> Field {
    if index == 0 {
        Field::Date
    } else if index == 1 {
        Field::Time
    } else if index == 2 {
        Field::FreqLow
    } else if index == 3 {
        Field::FreqHigh
    } else if index == 4 {
        Field::FreqStep
    } else if index == 5 {
        Field::Samples
    } else {
        Field::Value((index - 6) as usize)
    }
}

/// The text is one of the two tokens that stand for a not-a-number.
pub open spec fn is_nan_token(s: Seq<char>) -> bool {
    s == "nan"@ || s == "-nan"@
}

/// The amplitude in the `i`-th field after the header: a not-a-number for
/// the tokens `nan` and `-nan`, else the binary32 number that the numeral
/// stands for, and nothing where the field is no numeral.
pub open spec fn sample_at(record: Seq<Seq<char>>, i: int) -> Option<u32> {
    if is_nan_token(record[6 + i]) {
        Some(NAN)
    } else {
        binary32_bits(record[6 + i])
    }
}

/// Every one of the first `n` fields after the header holds an amplitude.
pub open spec fn samples_good(record: Seq<Seq<char>>, n: int) -> bool {
    forall|i: int| 0 <= i < n ==> (#[trigger] sample_at(record, i)) is Some
}

/// The first field after the header, from `from` on, that holds no
/// amplitude.
pub open spec fn first_bad(record: Seq<Seq<char>>, from: int) -> int
    decreases record.len() - from,
{
    if from < record.len() - 6 && sample_at(record, from) is Some {
        first_bad(record, from + 1)
    } else {
        from
    }
}

/// The number of amplitudes that a row of `fields` fields keeps: the
/// trailing field is dropped, unless it is the only one after the header.
pub open spec fn kept_count(fields: int) -> int {
    if fields - 6 > 1 {
        fields - 7
    } else {
        fields - 6
    }
}

/// What the fields of a row decode to, taken as they stand. A row of fewer
/// than seven fields misses the field that it ends before. Else every field
/// after the header has to hold an amplitude, the trailing one too;
/// `freq_low` and `freq_high` have to be unsigned numbers of 64 bits,
/// `freq_step` a binary64 numeral, `samples` an unsigned number of 32 bits;
/// the first of these that fails is named. Date and time are taken as they
/// stand, and the trailing field is dropped.
pub open spec fn decoded_fields(record: Seq<Seq<char>>) -> Result<MeasurementView, DecodeError> {
    if record.len() < 7 {
        Err(DecodeError::Missing(field_at(record.len() as int)))
    } else if !samples_good(record, record.len() - 6) {
        Err(DecodeError::Malformed(Field::Value(first_bad(record, 0) as usize)))
    } else if parsed_unsigned(record[2], u64::MAX as nat) is None {
        Err(DecodeError::Malformed(Field::FreqLow))
    } else if parsed_unsigned(record[3], u64::MAX as nat) is None {
        Err(DecodeError::Malformed(Field::FreqHigh))
    } else if binary64_bits(record[4]) is None {
        Err(DecodeError::Malformed(Field::FreqStep))
    } else if parsed_unsigned(record[5], u32::MAX as nat) is None {
        Err(DecodeError::Malformed(Field::Samples))
    } else {
        Ok(
            MeasurementView {
                date: record[0],
                time: record[1],
                freq_low: parsed_unsigned(record[2], u64::MAX as nat)->Some_0 as u64,
                freq_high: parsed_unsigned(record[3], u64::MAX as nat)->Some_0 as u64,
                freq_step: binary64_bits(record[4])->Some_0,
                samples: parsed_unsigned(record[5], u32::MAX as nat)->Some_0 as u32,
                values: Seq::new(
                    kept_count(record.len() as int) as nat,
                    |i: int| sample_at(record, i)->Some_0,
                ),
            },
        )
    }
}

/// The result of the decoder is what the row decodes to.
pub open spec fn matches_decoded(
    r: Result<Measurement, DecodeError>,
    expected: Result<MeasurementView, DecodeError>,
) -> bool {
    match expected {
        Ok(view) => r is Ok && r->Ok_0@ == view,
        Err(e) => r is Err && r->Err_0 == e,
    }
}

/// Behind good fields, `first_bad` finds the same field as from the start.
pub proof fn lemma_first_bad(record: Seq<Seq<char>>, from: int)
    requires
        0 <= from <= record.len() - 6,
        samples_good(record, from),
    ensures
        first_bad(record, from) == first_bad(record, 0),
    decreases from,
{
    if from > 0 {
        assert(sample_at(record, from - 1) is Some);
        lemma_first_bad(record, from - 1);
    }
}

/// Tells whether the text is `nan` or `-nan`.
pub fn nan_token(s: &String) -> (r: bool)
    ensures
        r == is_nan_token(s@),
{
    let plain = String::from_str("nan");
    let signed = String::from_str("-nan");
    *s == plain || *s == signed
}

/// Reads an amplitude: a not-a-number for `nan` and `-nan`, else a binary32
/// numeral.
pub fn parse_sample(s: &String) -> (r: Option<u32>)
    ensures
        r == if is_nan_token(s@) {
            Some(NAN)
        } else {
            binary32_bits(s@)
        },
{
    if nan_token(s) {
        Some(NAN)
    } else {
        parse_binary32(s.as_str())
    }
}

/// What a row decodes to: what its fields decode to once the white space is
/// taken off the two ends of each.
pub open spec fn decoded_row(record: Seq<Seq<char>>) -> Result<MeasurementView, DecodeError> {
    decoded_fields(trimmed_row(record))
}

/// A row that is trimmed already decodes to the same as the row it was
/// trimmed from.
pub proof fn lemma_decoded_row_of_trimmed(record: Seq<Seq<char>>)
    ensures
        decoded_row(trimmed_row(record)) == decoded_row(record),
{
    lemma_trimmed_row_idempotent(record);
}

impl Measurement {
    /// Decodes a row from its fields, each trimmed first.
    pub fn new(record: &Vec<String>) -> (r: Result<Measurement, DecodeError>)
        ensures
            matches_decoded(r, decoded_row(record.deep_view())),
    {
        let fields = trim_row(record);
        Measurement::decode_fields(&fields)
    }

    /// Decodes a row from its fields, taken as they stand.
    fn decode_fields(record: &Vec<String>) -> (r: Result<Measurement, DecodeError>)
        ensures
            matches_decoded(r, decoded_fields(record.deep_view())),
    {
        let ghost fields = record.deep_view();
        let n = record.len();
        assert(forall|k: int| 0 <= k < n ==> fields[k] == #[trigger] record[k]@);
        if n < 7 {
            let missing = if n == 0 {
                Field::Date
            } else if n == 1 {
                Field::Time
            } else if n == 2 {
                Field::FreqLow
            } else if n == 3 {
                Field::FreqHigh
            } else if n == 4 {
                Field::FreqStep
            } else if n == 5 {
                Field::Samples
            } else {
                Field::Value(0)
            };
            return Err(DecodeError::Missing(missing));
        }
        let raw: usize = n - HEADER_FIELDS;
        let keep: usize = if raw > 1 {
            raw - 1
        } else {
            raw
        };
        let mut values: Vec<u32> = Vec::new();
        let mut i: usize = 0;
        while i < raw
            invariant
                0 <= i <= raw,
                raw == n - 6,
                n == record.len(),
                n == fields.len(),
                keep == kept_count(n as int),
                fields == record.deep_view(),
                forall|k: int| 0 <= k < n ==> fields[k] == #[trigger] record[k]@,
                samples_good(fields, i as int),
                values@.len() == if i < keep {
                    i
                } else {
                    keep
                },
                forall|k: int|
                    0 <= k < values@.len() ==> values@[k] == (#[trigger] sample_at(
                        fields,
                        k,
                    ))->Some_0,
            decreases raw - i,
        {
            match parse_sample(&record[i + HEADER_FIELDS]) {
                Some(v) => {
                    if i < keep {
                        values.push(v);
                    }
                },
                None => {
                    proof {
                        lemma_first_bad(fields, i as int);
                        assert(sample_at(fields, i as int) is None);
                    }
                    return Err(DecodeError::Malformed(Field::Value(i)));
                },
            }
            i = i + 1;
        }
        let freq_low = match parse_unsigned(record[2].as_str(), u64::MAX) {
            Some(v) => v,
            None => {
                return Err(DecodeError::Malformed(Field::FreqLow));
            },
        };
        let freq_high = match parse_unsigned(record[3].as_str(), u64::MAX) {
            Some(v) => v,
            None => {
                return Err(DecodeError::Malformed(Field::FreqHigh));
            },
        };
        let freq_step = match parse_binary64(record[4].as_str()) {
            Some(v) => v,
            None => {
                return Err(DecodeError::Malformed(Field::FreqStep));
            },
        };
        let samples: u32 = match parse_unsigned(record[5].as_str(), 0xFFFF_FFFF) {
            Some(v) => v as u32,
            None => {
                return Err(DecodeError::Malformed(Field::Samples));
            },
        };
        let m = Measurement {
            date: record[0].clone(),
            time: record[1].clone(),
            freq_low,
            freq_high,
            freq_step,
            samples,
            values,
        };
        proof {
            let view = decoded_fields(fields)->Ok_0;
            assert(m@.values =~= view.values);
        }
        Ok(m)
    }
}

} // verus!
