use admissions::publication::{classify_row, declared_subjects, read_publication_tsv, ParseError, RowKind};
use admissions::records::{Grant, Score};
use admissions::subject::Subject;

fn row(fields: &[&str]) -> Vec<String> {
    fields.iter().map(|f| f.to_string()).collect()
}

const SAMPLE: &str = "preamble line\n\
1\t2\t3\n\
001\tთბილისის\tუნივერსიტეტი\n\
00101\tეკონომიკის\tფაკულტეტი\n\
x\tქართული\tმათემატიკა\tუცხოური\t%\t50\n\
1\t1001\t80.5\t90\t70\t450.00\t100\n\
2\t1002\t70\t60.25\t55\t400.00\n\
3\t1003\t60\t50\t40\t350\t0\n\
001\tსხვა სახელი\n";

#[test]
fn numeric_row_is_student_only_with_open_faculty() {
    let r = row(&["1", "2.5", "-3", "+4."]);
    assert_eq!(classify_row(&r, true), RowKind::Student);
    assert_eq!(classify_row(&r, false), RowKind::Ignored);
}

#[test]
fn classify_headers_and_declarations() {
    assert_eq!(classify_row(&row(&["001", "Name"]), false), RowKind::SchoolHeader);
    assert_eq!(classify_row(&row(&["00101", "Faculty", "Name"]), false), RowKind::FacultyHeader);
    assert_eq!(classify_row(&row(&["x", "ქართული", "%", "1"]), false), RowKind::SubjectDeclaration);
    assert_eq!(classify_row(&row(&["text", "more"]), true), RowKind::Ignored);
    assert_eq!(classify_row(&row(&[""]), true), RowKind::Ignored);
    assert_eq!(classify_row(&row(&["1.2.3", "x"]), true), RowKind::Ignored);
}

#[test]
fn declared_subjects_keep_row_order() {
    let r = row(&["ფიზიკა", "decor", "ქართული", "მათემატიკა", "%", "50"]);
    assert_eq!(declared_subjects(&r), vec![Subject::Physics, Subject::Georgian, Subject::Math]);
    let only_trailing = row(&["ქართული", "%"]);
    assert_eq!(declared_subjects(&only_trailing), Vec::<Subject>::new());
}

#[test]
fn reads_sample_publication() {
    let (students, schools, faculties) = read_publication_tsv(SAMPLE).unwrap();
    assert_eq!(schools.len(), 1);
    assert_eq!(schools[0].id, "001");
    assert_eq!(schools[0].name, "თბილისის უნივერსიტეტი");
    assert_eq!(faculties.len(), 1);
    assert_eq!(faculties[0].id, "00101");
    assert_eq!(faculties[0].name, "ეკონომიკის ფაკულტეტი");
    assert_eq!(faculties[0].subject_order, vec![Subject::Georgian, Subject::Math, Subject::English]);
    let mut mask = [false; 9];
    mask[0] = true;
    mask[7] = true;
    mask[8] = true;
    assert_eq!(faculties[0].subjects, mask);
    assert_eq!(students.len(), 3);
    let s = &students[0];
    assert_eq!(s.id, "1001");
    assert_eq!(s.faculty_id, "00101");
    assert_eq!(s.overall_score, "450.00");
    assert_eq!(s.placement, None);
    assert_eq!(s.scores[8], Some(Score::Scaled(805000)));
    assert_eq!(s.scores[0], Some(Score::Scaled(900000)));
    assert_eq!(s.scores[7], Some(Score::Scaled(700000)));
    assert_eq!(s.scores[1], None);
    assert!(matches!(s.grant, Some(Grant::Hundred)));
    assert_eq!(students[1].scores[0], Some(Score::Scaled(602500)));
    assert!(matches!(students[2].grant, None));
}

#[test]
fn missing_trailing_field_gives_zero_grant() {
    let (students, _, _) = read_publication_tsv(SAMPLE).unwrap();
    assert!(matches!(students[1].grant, Some(Grant::Zero)));
}

#[test]
fn grant_codes() {
    let text = "00101\tF\nx\tქართული\t%\t1\n1\t1\t50\t300\t70\n2\t2\t50\t300\t50\n3\t3\t50\t300\t7\n";
    let (students, _, _) = read_publication_tsv(text).unwrap();
    assert!(matches!(students[0].grant, Some(Grant::Seventy)));
    assert!(matches!(students[1].grant, Some(Grant::Fifty)));
    assert!(matches!(students[2].grant, None));
}

#[test]
fn first_faculty_declaration_and_school_win() {
    let text = "001\tA\n001\tB\n00101\tF\nx\tქართული\t%\t1\n00101\tG\nx\tმათემატიკა\t%\t1\n1\t9\t42\t300\n";
    let (students, schools, faculties) = read_publication_tsv(text).unwrap();
    assert_eq!(schools.len(), 1);
    assert_eq!(schools[0].name, "A");
    assert_eq!(faculties.len(), 1);
    assert_eq!(faculties[0].name, "F");
    assert_eq!(faculties[0].subject_order, vec![Subject::Georgian]);
    assert_eq!(students[0].scores[0], Some(Score::Scaled(420000)));
}

#[test]
fn numeric_rows_before_any_faculty_are_ignored() {
    let (students, _, _) = read_publication_tsv("1\t2\t3\n4\t5\n").unwrap();
    assert!(students.is_empty());
}

#[test]
fn short_student_row_is_an_error() {
    let text = "00101\tF\nx\tქართული\tმათემატიკა\t%\t1\n1\t2\t3\n";
    assert_eq!(read_publication_tsv(text).unwrap_err(), ParseError::MissingColumn { line: 3 });
}

#[test]
fn infinite_score_is_an_error() {
    let text = "00101\tF\nx\tქართული\t%\t1\n1\t2\tinf\t300\n";
    assert_eq!(read_publication_tsv(text).unwrap_err(), ParseError::MalformedNumber { line: 3 });
}

#[test]
fn precise_and_exponent_scores_are_read() {
    let text = "00101\tF\nx\tქართული\t%\t1\n1\t2\t3.123456\t3e2\n";
    let (students, _, _) = read_publication_tsv(text).unwrap();
    assert_eq!(students[0].scores[8], Some(Score::Scaled(31235)));
    assert_eq!(students[0].overall_score, "3e2");
}

#[test]
fn exponent_rows_are_students_under_a_faculty() {
    assert_eq!(classify_row(&row(&["1", "1e5", "2"]), true), RowKind::Student);
    assert_eq!(classify_row(&row(&["123", "1e5"]), false), RowKind::Ignored);
    assert_eq!(classify_row(&row(&["123", "NaN"]), false), RowKind::Ignored);
    assert_eq!(classify_row(&row(&["1e2", "Name"]), false), RowKind::SchoolHeader);
    let text = "123\t1e5\n00101\tF\nx\tქართული\t%\t1\n1\t1e5\t40\t300\n";
    let (students, schools, _) = read_publication_tsv(text).unwrap();
    assert_eq!(students.len(), 1);
    assert_eq!(students[0].id, "1e5");
    assert!(schools.is_empty());
}

#[test]
fn declaration_before_faculty_is_an_error() {
    let text = "x\tქართული\t%\t1\n";
    assert_eq!(
        read_publication_tsv(text).unwrap_err(),
        ParseError::DeclarationWithoutFaculty { line: 1 }
    );
}

#[test]
fn trims_lines_and_handles_crlf() {
    let text = "  00101\tF  \r\nx\tქართული\t%\t1\r\n1\t7\t10\t300\r\n";
    let (students, _, _) = read_publication_tsv(text).unwrap();
    assert_eq!(students.len(), 1);
    assert_eq!(students[0].id, "7");
    assert_eq!(students[0].faculty_id, "00101");
}
