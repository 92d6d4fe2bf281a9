use admissions::normalize::{descale_with_independent_data, NormalizeError};
use admissions::records::{Score, StudentData, SubjectStats};
use admissions::subject::Subject;

const U: i64 = 10000;

fn math_student(id: &str, math: Option<Score>) -> StudentData {
    let mut scores = [None; 9];
    scores[0] = math;
    StudentData {
        id: id.to_string(),
        scores,
        overall_score: "0".to_string(),
        placement: None,
        faculty_id: "00101".to_string(),
        grant: None,
    }
}

fn math_stats(min: Option<Score>, max: Option<Score>, anchors: Vec<Score>) -> [Option<SubjectStats>; 9] {
    let mut stats: [Option<SubjectStats>; 9] = Default::default();
    stats[0] = Some(SubjectStats { min, max, anchors });
    stats
}

fn anchor(equalized: i64, scaled: i64) -> Score {
    Score::EqualizedAndScaled { scaled: scaled * U, equalized: equalized * U }
}

fn equalized(s: &StudentData) -> i64 {
    match s.scores[0] {
        Some(Score::EqualizedAndScaled { equalized, .. }) => equalized,
        other => panic!("not normalized: {:?}", other),
    }
}

fn calibration() -> [Option<SubjectStats>; 9] {
    math_stats(
        Some(Score::Equalized(20 * U)),
        Some(Score::Equalized(80 * U)),
        vec![anchor(50, 500)],
    )
}

#[test]
fn scenario_two_students_around_one_anchor() {
    let students = vec![
        math_student("a", Some(Score::Scaled(400 * U))),
        math_student("b", Some(Score::Scaled(600 * U))),
    ];
    let out = descale_with_independent_data(students, calibration()).unwrap();
    assert_eq!(equalized(&out[0]), 20 * U);
    assert_eq!(equalized(&out[1]), 80 * U);
    assert_eq!(out[0].scores[0], Some(Score::EqualizedAndScaled { scaled: 400 * U, equalized: 20 * U }));
}

#[test]
fn interpolates_inside_an_interval() {
    let students = vec![
        math_student("a", Some(Score::Scaled(400 * U))),
        math_student("b", Some(Score::Scaled(450 * U))),
        math_student("c", Some(Score::Scaled(600 * U))),
    ];
    let out = descale_with_independent_data(students, calibration()).unwrap();
    assert_eq!(equalized(&out[1]), 35 * U);
}

#[test]
fn anchor_value_passes_through() {
    let students = vec![
        math_student("a", Some(Score::Scaled(400 * U))),
        math_student("b", Some(Score::Scaled(500 * U))),
        math_student("c", Some(Score::Scaled(600 * U))),
    ];
    let out = descale_with_independent_data(students, calibration()).unwrap();
    assert_eq!(equalized(&out[1]), 50 * U);
}

#[test]
fn higher_raw_score_never_lower_equalized() {
    let raws = [400, 410, 433, 499, 500, 501, 577, 600];
    let students: Vec<StudentData> =
        raws.iter().map(|r| math_student("s", Some(Score::Scaled(r * U + 3)))).collect();
    let out = descale_with_independent_data(students, calibration()).unwrap();
    for w in out.windows(2) {
        assert!(equalized(&w[0]) <= equalized(&w[1]));
    }
}

#[test]
fn normalizing_twice_changes_nothing() {
    let students = vec![
        math_student("a", Some(Score::Scaled(400 * U))),
        math_student("b", Some(Score::Scaled(456 * U + 7))),
        math_student("c", Some(Score::Scaled(600 * U))),
        math_student("d", None),
        math_student("e", Some(Score::Equalized(33 * U))),
    ];
    let once = descale_with_independent_data(students, calibration()).unwrap();
    let twice = descale_with_independent_data(once.clone(), calibration()).unwrap();
    for (a, b) in once.iter().zip(twice.iter()) {
        assert_eq!(a.scores, b.scores);
        assert_eq!(a.id, b.id);
    }
}

#[test]
fn untaken_and_equalized_scores_are_kept() {
    let students = vec![
        math_student("a", Some(Score::Scaled(400 * U))),
        math_student("b", Some(Score::Scaled(600 * U))),
        math_student("d", None),
        math_student("e", Some(Score::Equalized(33 * U))),
    ];
    let out = descale_with_independent_data(students, calibration()).unwrap();
    assert_eq!(out[2].scores[0], None);
    assert_eq!(out[3].scores[0], Some(Score::Equalized(33 * U)));
}

#[test]
fn missing_calibration_is_an_error() {
    let students = vec![math_student("a", Some(Score::Scaled(400 * U)))];
    let stats: [Option<SubjectStats>; 9] = Default::default();
    assert_eq!(
        descale_with_independent_data(students, stats).unwrap_err(),
        NormalizeError::MissingCalibration { subject: Subject::Math }
    );
}

#[test]
fn missing_bound_is_an_error() {
    let students = vec![math_student("a", Some(Score::Scaled(400 * U)))];
    let stats = math_stats(Some(Score::Equalized(20 * U)), None, vec![]);
    assert_eq!(
        descale_with_independent_data(students, stats).unwrap_err(),
        NormalizeError::MissingBound { subject: Subject::Math }
    );
}

#[test]
fn bad_anchor_is_an_error() {
    let students = vec![
        math_student("a", Some(Score::Scaled(400 * U))),
        math_student("b", Some(Score::Scaled(600 * U))),
    ];
    let stats = math_stats(
        Some(Score::Equalized(20 * U)),
        Some(Score::Equalized(80 * U)),
        vec![Score::Scaled(500 * U)],
    );
    assert_eq!(
        descale_with_independent_data(students, stats).unwrap_err(),
        NormalizeError::BadCalibration { subject: Subject::Math }
    );
}

#[test]
fn single_observed_value_is_degenerate() {
    let students = vec![math_student("a", Some(Score::Scaled(400 * U)))];
    let stats = math_stats(Some(Score::Equalized(20 * U)), Some(Score::Equalized(80 * U)), vec![]);
    assert_eq!(
        descale_with_independent_data(students, stats).unwrap_err(),
        NormalizeError::DegenerateInterval { student: 0, subject: Subject::Math }
    );
}

#[test]
fn subjects_nobody_sat_need_no_calibration() {
    let students = vec![math_student("a", None)];
    let stats: [Option<SubjectStats>; 9] = Default::default();
    let out = descale_with_independent_data(students, stats).unwrap();
    assert_eq!(out.len(), 1);
}
