use admissions::calibration::{load_calibration, read_independent_descaling_data, CalibrationError};
use admissions::records::Score;

const U: i64 = 10000;

#[test]
fn reads_bounds_and_anchors_in_file_order() {
    let text = "მათემატიკა,minimum,20\n\
მათემატიკა,maximum,80\n\
მათემატიკა,anchor,60,550\n\
მათემატიკა,anchor,50,500\n\
ქართული,maximum,70\n";
    let stats = read_independent_descaling_data(text).unwrap();
    let math = stats[0].as_ref().unwrap();
    assert_eq!(math.min, Some(Score::Equalized(20 * U)));
    assert_eq!(math.max, Some(Score::Equalized(80 * U)));
    assert_eq!(
        math.anchors,
        vec![
            Score::EqualizedAndScaled { scaled: 550 * U, equalized: 60 * U },
            Score::EqualizedAndScaled { scaled: 500 * U, equalized: 50 * U },
        ]
    );
    let georgian = stats[8].as_ref().unwrap();
    assert_eq!(georgian.min, Some(Score::Equalized(14 * U)));
    assert!(stats[1].is_none());
}

#[test]
fn later_bound_overrides_earlier() {
    let text = "ფიზიკა,maximum,80\nფიზიკა,maximum,90\nფიზიკა,minimum,5\n";
    let stats = read_independent_descaling_data(text).unwrap();
    let physics = stats[2].as_ref().unwrap();
    assert_eq!(physics.max, Some(Score::Equalized(90 * U)));
    assert_eq!(physics.min, Some(Score::Equalized(5 * U)));
}

#[test]
fn first_line_is_a_record() {
    let text = "მათემატიკა,maximum,80\nქიმია,maximum,50\n";
    let stats = read_independent_descaling_data(text).unwrap();
    assert_eq!(stats[0].as_ref().unwrap().max, Some(Score::Equalized(80 * U)));
    assert_eq!(stats[4].as_ref().unwrap().max, Some(Score::Equalized(50 * U)));
}

#[test]
fn unknown_subject_is_an_error() {
    let text = "MATH,maximum,80\n";
    assert_eq!(
        read_independent_descaling_data(text).unwrap_err(),
        CalibrationError::UnknownSubject { record: 1 }
    );
}

#[test]
fn unknown_kind_is_an_error() {
    let text = "მათემატიკა,maximum,80\nმათემატიკა,median,50\n";
    assert_eq!(
        read_independent_descaling_data(text).unwrap_err(),
        CalibrationError::UnknownKind { record: 2 }
    );
}

#[test]
fn anchor_without_scaled_value_is_an_error() {
    let text = "მათემატიკა,anchor,50\n";
    assert_eq!(
        read_independent_descaling_data(text).unwrap_err(),
        CalibrationError::MissingValue { record: 1 }
    );
}

#[test]
fn malformed_value_is_an_error() {
    let text = "მათემატიკა,minimum,abc\n";
    assert_eq!(
        read_independent_descaling_data(text).unwrap_err(),
        CalibrationError::MalformedNumber { record: 1 }
    );
}

#[test]
fn empty_records_are_skipped() {
    let records: Vec<Vec<String>> = vec![vec![], vec!["ისტორია".to_string(), "maximum".to_string(), "12.5".to_string()]];
    let stats = load_calibration(&records).unwrap();
    let history = stats[1].as_ref().unwrap();
    assert_eq!(history.min, Some(Score::Equalized(25000)));
}
