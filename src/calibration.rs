//! The calibration file: per subject, equalized bounds and anchor points.
use vstd::prelude::*;

use crate::decimal::{decimal_fixed, parse_fixed};
use crate::records::{stats_view, Score, StatsView, SubjectStats};
use crate::subject::{subject_at, subject_named, Subject, SUBJECT_COUNT};
use crate::text::{chars_of, text_eq};

verus! {

/// The records of a CSV text, every line a record, each as its fields, or
/// `None` where the text is not valid CSV.
pub uninterp spec fn csv_records(text: Seq<char>) -> Option<Seq<Seq<Seq<char>>>>;

#[verifier::external_type_specification]
#[verifier::external_body]
pub struct ExCsvError(csv::Error);

/// Relies on csv's `ReaderBuilder` and `Reader::records`: with no header row
/// and rows of any length allowed, the records of the text and their
/// fields, or the first error.
#[verifier::external_body]
fn csv_rows(text: &str) -> (r: Result<Vec<Vec<String>>, csv::Error>)
    ensures
        r matches Ok(rows) ==> csv_records(text@) == Some(rows.deep_view()),
        r is Err ==> csv_records(text@) is None,
{
    let mut reader = csv::ReaderBuilder::new().has_headers(false).flexible(true).from_reader(
        text.as_bytes(),
    );
    reader.records().map(|rec| rec.map(|r| r.iter().map(String::from).collect())).collect()
}

/// Why a calibration file could not be read; `record` counts records from 1.
#[derive(Debug, Clone, Copy, PartialEq, Eq, Structural)]
pub enum CalibrationError {
    /// The text is not valid CSV.
    Csv,
    UnknownSubject { record: usize },
    /// The kind is none of `maximum`, `minimum`, `anchor`.
    UnknownKind { record: usize },
    MissingValue { record: usize },
    MalformedNumber { record: usize },
}

/// One calibration record of a subject, in fixed-point units.
#[derive(Debug, Clone, Copy, PartialEq, Eq, Structural)]
pub enum CalibrationEntry {
    Minimum(i64),
    Maximum(i64),
    Anchor { equalized: i64, scaled: i64 },
}

/// What a record says: nothing for an empty record, else its subject and
/// entry.
pub open spec fn record_entry(rec: Seq<Seq<char>>, record: usize) -> Result<
    Option<(Subject, CalibrationEntry)>,
    CalibrationError,
> {
    if rec.len() == 0 {
        Ok(None)
    } else {
        match subject_named(rec[0]) {
            None => Err(CalibrationError::UnknownSubject { record }),
            Some(subject) => if rec.len() < 2 {
                Err(CalibrationError::MissingValue { record })
            } else if rec[1] == "maximum"@ || rec[1] == "minimum"@ {
                if rec.len() < 3 {
                    Err(CalibrationError::MissingValue { record })
                } else {
                    match decimal_fixed(rec[2]) {
                        None => Err(CalibrationError::MalformedNumber { record }),
                        Some(v) => Ok(
                            Some(
                                (subject, if rec[1] == "maximum"@ {
                                    CalibrationEntry::Maximum(v as i64)
                                } else {
                                    CalibrationEntry::Minimum(v as i64)
                                }),
                            ),
                        ),
                    }
                }
            } else if rec[1] == "anchor"@ {
                if rec.len() < 4 {
                    Err(CalibrationError::MissingValue { record })
                } else {
                    match (decimal_fixed(rec[2]), decimal_fixed(rec[3])) {
                        (Some(e), Some(s)) => Ok(
                            Some(
                                (
                                    subject,
                                    CalibrationEntry::Anchor { equalized: e as i64, scaled: s as i64 },
                                ),
                            ),
                        ),
                        _ => Err(CalibrationError::MalformedNumber { record }),
                    }
                }
            } else {
                Err(CalibrationError::UnknownKind { record })
            },
        }
    }
}

/// The entries of the records in order, or the first record's error.
pub open spec fn record_entries(recs: Seq<Seq<Seq<char>>>) -> Result<
    Seq<(Subject, CalibrationEntry)>,
    CalibrationError,
>
    decreases recs.len(),
{
    if recs.len() == 0 {
        Ok(Seq::empty())
    } else {
        match record_entries(recs.drop_last()) {
            Err(e) => Err(e),
            Ok(prev) => match record_entry(recs.last(), recs.len() as usize) {
                Err(e) => Err(e),
                Ok(None) => Ok(prev),
                Ok(Some(x)) => Ok(prev.push(x)),
            },
        }
    }
}

pub open spec fn empty_stats() -> StatsView {
    StatsView { min: None, max: None, anchors: Seq::empty() }
}

/// An entry applied to a subject's record: bounds overwrite, anchors append.
pub open spec fn apply_entry(st: StatsView, e: CalibrationEntry) -> StatsView {
    match e {
        CalibrationEntry::Minimum(v) => StatsView { min: Some(Score::Equalized(v)), ..st },
        CalibrationEntry::Maximum(v) => StatsView { max: Some(Score::Equalized(v)), ..st },
        CalibrationEntry::Anchor { equalized, scaled } => StatsView {
            anchors: st.anchors.push(Score::EqualizedAndScaled { scaled, equalized }),
            ..st
        },
    }
}

/// The record of a subject built from the entries, or none where no entry
/// names it.
pub open spec fn subject_stats(entries: Seq<(Subject, CalibrationEntry)>, s: Subject) -> Option<StatsView>
    decreases entries.len(),
{
    if entries.len() == 0 {
        None
    } else {
        let prev = subject_stats(entries.drop_last(), s);
        if entries.last().0 == s {
            Some(
                apply_entry(
                    match prev {
                        Some(st) => st,
                        None => empty_stats(),
                    },
                    entries.last().1,
                ),
            )
        } else {
            prev
        }
    }
}

/// A fifth of `m`, rounded toward zero.
pub open spec fn fifth(m: int) -> int {
    if m >= 0 {
        m / 5
    } else {
        -((-m) / 5)
    }
}

/// A subject with a maximum but no minimum gets a fifth of the maximum as
/// its minimum.
pub open spec fn with_default_minimum(o: Option<StatsView>) -> Option<StatsView> {
    match o {
        Some(st) => if st.min is None {
            match st.max {
                Some(Score::Equalized(m)) => Some(
                    StatsView { min: Some(Score::Equalized(fifth(m as int) as i64)), ..st },
                ),
                Some(Score::EqualizedAndScaled { equalized, .. }) => Some(
                    StatsView { min: Some(Score::Equalized(fifth(equalized as int) as i64)), ..st },
                ),
                _ => Some(st),
            }
        } else {
            Some(st)
        },
        None => None,
    }
}

/// The calibration that the records describe, by subject position.
pub open spec fn calibration(recs: Seq<Seq<Seq<char>>>) -> Result<
    Seq<Option<StatsView>>,
    CalibrationError,
> {
    match record_entries(recs) {
        Err(e) => Err(e),
        Ok(es) => Ok(
            Seq::new(
                SUBJECT_COUNT as nat,
                |i: int| with_default_minimum(subject_stats(es, subject_at(i))),
            ),
        ),
    }
}

pub open spec fn calibration_view(r: Result<[Option<SubjectStats>; 9], CalibrationError>) -> Result<
    Seq<Option<StatsView>>,
    CalibrationError,
> {
    match r {
        Ok(a) => Ok(stats_view(a@)),
        Err(e) => Err(e),
    }
}

fn read_value(field: &String) -> (r: Option<i64>)
    ensures
        match r {
            Some(v) => decimal_fixed(field@) == Some(v as int),
            None => decimal_fixed(field@) is None,
        },
{
    let text = chars_of(field.as_str());
    parse_fixed(text.as_slice())
}

/// Reads one calibration record; `record` is its 1-based number.
pub fn entry_of_record(rec: &Vec<String>, record: usize) -> (r: Result<
    Option<(Subject, CalibrationEntry)>,
    CalibrationError,
>)
    ensures
        r == record_entry(rec.deep_view(), record),
{
    let ghost rv = rec.deep_view();
    if rec.len() == 0 {
        return Ok(None);
    }
    assert(rv[0] == rec@[0]@);
    let subject = match Subject::from(rec[0].as_str()) {
        Some(s) => s,
        None => {
            return Err(CalibrationError::UnknownSubject { record });
        },
    };
    if rec.len() < 2 {
        return Err(CalibrationError::MissingValue { record });
    }
    assert(rv[1] == rec@[1]@);
    let kind = rec[1].as_str();
    let is_max = text_eq(kind, "maximum");
    let is_min = text_eq(kind, "minimum");
    if is_max || is_min {
        if rec.len() < 3 {
            return Err(CalibrationError::MissingValue { record });
        }
        assert(rv[2] == rec@[2]@);
        match read_value(&rec[2]) {
            None => Err(CalibrationError::MalformedNumber { record }),
            Some(v) => Ok(
                Some(
                    (subject, if is_max {
                        CalibrationEntry::Maximum(v)
                    } else {
                        CalibrationEntry::Minimum(v)
                    }),
                ),
            ),
        }
    } else if text_eq(kind, "anchor") {
        if rec.len() < 4 {
            return Err(CalibrationError::MissingValue { record });
        }
        assert(rv[2] == rec@[2]@);
        assert(rv[3] == rec@[3]@);
        match (read_value(&rec[2]), read_value(&rec[3])) {
            (Some(e), Some(s)) => Ok(
                Some((subject, CalibrationEntry::Anchor { equalized: e, scaled: s })),
            ),
            _ => Err(CalibrationError::MalformedNumber { record }),
        }
    } else {
        Err(CalibrationError::UnknownKind { record })
    }
}

proof fn lemma_entries_error_stays(recs: Seq<Seq<Seq<char>>>, j: int, e: CalibrationError)
    requires
        0 <= j <= recs.len(),
        record_entries(recs.take(j)) == Err::<Seq<(Subject, CalibrationEntry)>, CalibrationError>(e),
    ensures
        record_entries(recs) == Err::<Seq<(Subject, CalibrationEntry)>, CalibrationError>(e),
    decreases recs.len() - j,
{
    if j < recs.len() {
        assert(recs.take(j + 1).drop_last() =~= recs.take(j));
        lemma_entries_error_stays(recs, j + 1, e);
    } else {
        assert(recs.take(j) =~= recs);
    }
}

fn entries_of(records: &Vec<Vec<String>>) -> (r: Result<Vec<(Subject, CalibrationEntry)>, CalibrationError>)
    ensures
        match r {
            Ok(es) => record_entries(records.deep_view()) == Ok::<
                Seq<(Subject, CalibrationEntry)>,
                CalibrationError,
            >(es@),
            Err(e) => record_entries(records.deep_view()) == Err::<
                Seq<(Subject, CalibrationEntry)>,
                CalibrationError,
            >(e),
        },
{
    let ghost rv = records.deep_view();
    let n = records.len();
    let mut out: Vec<(Subject, CalibrationEntry)> = Vec::new();
    let mut k: usize = 0;
    assert(rv.take(0) =~= Seq::<Seq<Seq<char>>>::empty());
    while k < n
        invariant
            k <= n,
            n == records@.len(),
            rv == records.deep_view(),
            record_entries(rv.take(k as int)) == Ok::<Seq<(Subject, CalibrationEntry)>, CalibrationError>(
                out@,
            ),
        decreases n - k,
    {
        assert(rv.take(k + 1).drop_last() =~= rv.take(k as int));
        assert(rv.take(k + 1).last() == records@[k as int].deep_view());
        match entry_of_record(&records[k], k + 1) {
            Err(e) => {
                proof {
                    lemma_entries_error_stays(rv, k + 1, e);
                }
                return Err(e);
            },
            Ok(None) => {},
            Ok(Some(x)) => {
                out.push(x);
            },
        }
        k = k + 1;
    }
    assert(rv.take(n as int) =~= rv);
    Ok(out)
}

/// The record of one subject, with the default minimum applied.
fn stats_for(entries: &Vec<(Subject, CalibrationEntry)>, i: usize) -> (r: Option<SubjectStats>)
    requires
        i < SUBJECT_COUNT,
    ensures
        match r {
            Some(st) => with_default_minimum(subject_stats(entries@, subject_at(i as int))) == Some(st@),
            None => with_default_minimum(subject_stats(entries@, subject_at(i as int))) is None,
        },
{
    let subject = Subject::at(i);
    let mut seen = false;
    let mut min: Option<Score> = None;
    let mut max: Option<Score> = None;
    let mut anchors: Vec<Score> = Vec::new();
    let mut j: usize = 0;
    assert(entries@.take(0) =~= Seq::<(Subject, CalibrationEntry)>::empty());
    while j < entries.len()
        invariant
            j <= entries@.len(),
            subject == subject_at(i as int),
            subject_stats(entries@.take(j as int), subject) == if seen {
                Some(StatsView { min, max, anchors: anchors@ })
            } else {
                None
            },
            !seen ==> min is None && max is None && anchors@.len() == 0,
        decreases entries@.len() - j,
    {
        assert(entries@.take(j + 1).drop_last() =~= entries@.take(j as int));
        assert(entries@.take(j + 1).last() == entries@[j as int]);
        let (s, e) = entries[j];
        if s == subject {
            if !seen {
                assert(anchors@ =~= Seq::<Score>::empty());
            }
            seen = true;
            match e {
                CalibrationEntry::Minimum(v) => {
                    min = Some(Score::Equalized(v));
                },
                CalibrationEntry::Maximum(v) => {
                    max = Some(Score::Equalized(v));
                },
                CalibrationEntry::Anchor { equalized, scaled } => {
                    anchors.push(Score::EqualizedAndScaled { scaled, equalized });
                },
            }
        }
        j = j + 1;
    }
    assert(entries@.take(j as int) =~= entries@);
    if !seen {
        return None;
    }
    if min.is_none() {
        let m: Option<i64> = match max {
            Some(Score::Equalized(m)) => Some(m),
            Some(Score::EqualizedAndScaled { equalized, .. }) => Some(equalized),
            _ => None,
        };
        if let Some(m) = m {
            let f: i64 = if m >= 0 {
                m / 5
            } else if m == i64::MIN {
                -(i64::MAX / 5)
            } else {
                -((-m) / 5)
            };
            assert(f == fifth(m as int));
            min = Some(Score::Equalized(f));
        }
    }
    Some(SubjectStats { min, max, anchors })
}

/// Builds the calibration from the records of a calibration file: each
/// record is `subject, kind, value[, scaled_value]`.
pub fn load_calibration(records: &Vec<Vec<String>>) -> (r: Result<[Option<SubjectStats>; 9], CalibrationError>)
    ensures
        calibration_view(r) == calibration(records.deep_view()),
{
    let entries = match entries_of(records) {
        Ok(es) => es,
        Err(e) => {
            return Err(e);
        },
    };
    let a = [
        stats_for(&entries, 0),
        stats_for(&entries, 1),
        stats_for(&entries, 2),
        stats_for(&entries, 3),
        stats_for(&entries, 4),
        stats_for(&entries, 5),
        stats_for(&entries, 6),
        stats_for(&entries, 7),
        stats_for(&entries, 8),
    ];
    assert(stats_view(a@) =~= Seq::new(
        SUBJECT_COUNT as nat,
        |i: int| with_default_minimum(subject_stats(entries@, subject_at(i))),
    ));
    Ok(a)
}

/// Reads a calibration file's text: CSV, one record per line.
pub fn read_independent_descaling_data(text: &str) -> (r: Result<
    [Option<SubjectStats>; 9],
    CalibrationError,
>)
    ensures
        match csv_records(text@) {
            None => r == Err::<[Option<SubjectStats>; 9], CalibrationError>(CalibrationError::Csv),
            Some(recs) => calibration_view(r) == calibration(recs),
        },
{
    match csv_rows(text) {
        Ok(rows) => load_calibration(&rows),
        Err(_) => Err(CalibrationError::Csv),
    }
}

} // verus!
