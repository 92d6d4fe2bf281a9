use admissions::records::Score;
use admissions::student_record::{parse_student, StudentRecordError};
use admissions::subject::Subject;

fn record_fields(fields: &[&str]) -> Vec<String> {
    fields.iter().map(|f| f.to_string()).collect()
}

#[test]
fn reads_ranked_list_row() {
    let r = record_fields(&[
        "12",
        "{მათემატიკა:45.5;ქართული:30;საკონკურსო:310.25;ფიზიკა:20}",
        "x",
        "990011",
        "00105",
        "თსუ",
        " ეკონომიკა",
    ]);
    let (student, school, faculty) = parse_student(r).unwrap();
    assert_eq!(student.id, "990011");
    assert_eq!(student.placement, Some(12));
    assert_eq!(student.overall_score, "310.25");
    assert_eq!(student.faculty_id, "00105");
    assert_eq!(student.scores[0], Some(Score::Scaled(455000)));
    assert_eq!(student.scores[8], Some(Score::Scaled(300000)));
    assert_eq!(student.scores[2], Some(Score::Scaled(200000)));
    assert_eq!(student.scores[1], None);
    assert_eq!(school.id, "001");
    assert_eq!(school.name, "თსუ");
    assert_eq!(faculty.name, "თსუ ეკონომიკა");
    assert_eq!(faculty.subject_order, vec![Subject::Math, Subject::Physics, Subject::Georgian]);
    assert!(faculty.subjects[0] && faculty.subjects[2] && faculty.subjects[8] && !faculty.subjects[1]);
}

#[test]
fn ranked_list_errors() {
    assert_eq!(parse_student(record_fields(&["1", "{}", "x", "1"])).unwrap_err(), StudentRecordError::MissingField);
    let bad_list = record_fields(&["1", "{a:1;b}", "x", "1", "00101", "s", "f"]);
    assert_eq!(parse_student(bad_list).unwrap_err(), StudentRecordError::MalformedScoreList);
    let no_braces = record_fields(&["1", "a:1", "x", "1", "00101", "s", "f"]);
    assert_eq!(parse_student(no_braces).unwrap_err(), StudentRecordError::MalformedScoreList);
    let bad_number = record_fields(&["1", "{მათემატიკა:x}", "x", "1", "00101", "s", "f"]);
    assert_eq!(parse_student(bad_number).unwrap_err(), StudentRecordError::MalformedNumber);
    let bad_place = record_fields(&["1.5", "{a:1}", "x", "1", "00101", "s", "f"]);
    assert_eq!(parse_student(bad_place).unwrap_err(), StudentRecordError::MalformedPlacement);
    let short_id = record_fields(&["1", "{a:1}", "x", "1", "01", "s", "f"]);
    assert_eq!(parse_student(short_id).unwrap_err(), StudentRecordError::ShortFacultyId);
}

#[test]
fn wide_placements() {
    let plus = record_fields(&["+7", "{a:1}", "x", "1", "00101", "s", "f"]);
    assert_eq!(parse_student(plus).unwrap().0.placement, Some(7));
    let long = record_fields(&["000000000000000000000123456789012", "{a:1}", "x", "1", "00101", "s", "f"]);
    assert_eq!(parse_student(long).unwrap().0.placement, Some(123456789012));
    let too_big = record_fields(&["99999999999999999999999", "{a:1}", "x", "1", "00101", "s", "f"]);
    assert_eq!(parse_student(too_big).unwrap_err(), StudentRecordError::MalformedPlacement);
}
