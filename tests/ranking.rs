use admissions::ranking::{collect_faculties, sort_faculty_groups, sort_students, GroupOrderError, RankError};
use admissions::export::ranked_student_line;
use admissions::records::{Grant, Score, StudentData};

fn student(id: &str, overall: &str, faculty: &str) -> StudentData {
    StudentData {
        id: id.to_string(),
        scores: [None; 9],
        overall_score: overall.to_string(),
        placement: None,
        faculty_id: faculty.to_string(),
        grant: None,
    }
}

#[test]
fn ties_keep_input_order() {
    let students = vec![
        student("a", "300", "f"),
        student("b", "450.00", "f"),
        student("c", "450.00", "f"),
        student("d", "500", "f"),
    ];
    let out = sort_students(students).unwrap();
    let ids: Vec<&str> = out.iter().map(|s| s.id.as_str()).collect();
    assert_eq!(ids, vec!["d", "b", "c", "a"]);
}

#[test]
fn placements_are_one_to_n_with_scores_descending() {
    let students = vec![
        student("a", "1.5", "f"),
        student("b", "-2", "f"),
        student("c", "10", "f"),
        student("d", "1.50", "f"),
        student("e", "7.25", "f"),
    ];
    let out = sort_students(students).unwrap();
    let placements: Vec<usize> = out.iter().map(|s| s.placement.unwrap()).collect();
    assert_eq!(placements, vec![1, 2, 3, 4, 5]);
    let ids: Vec<&str> = out.iter().map(|s| s.id.as_str()).collect();
    assert_eq!(ids, vec!["c", "e", "a", "d", "b"]);
}

#[test]
fn empty_list_ranks_to_empty() {
    assert!(sort_students(Vec::new()).unwrap().is_empty());
}

#[test]
fn unreadable_overall_score_is_an_error() {
    let students = vec![student("a", "1", "f"), student("b", "n/a", "f"), student("c", "", "f")];
    assert_eq!(sort_students(students).unwrap_err(), RankError::MalformedOverallScore { index: 1 });
}

#[test]
fn groups_by_faculty_in_first_appearance_order() {
    let students = vec![
        student("a", "1", "f2"),
        student("b", "1", "f1"),
        student("c", "1", "f2"),
    ];
    let groups = collect_faculties(students);
    assert_eq!(groups.len(), 2);
    assert_eq!(groups[0].0, "f2");
    let ids: Vec<&str> = groups[0].1.iter().map(|s| s.id.as_str()).collect();
    assert_eq!(ids, vec!["a", "c"]);
    assert_eq!(groups[1].0, "f1");
    assert_eq!(groups[1].1.len(), 1);
}

#[test]
fn ranked_line_lists_scores_from_last_subject() {
    let mut s = student("1001", "450.00", "00101");
    s.placement = Some(12);
    s.grant = Some(Grant::Hundred);
    s.scores[0] = Some(Score::EqualizedAndScaled { scaled: 4000000, equalized: 200000 });
    s.scores[8] = Some(Score::Scaled(805000));
    let line = ranked_student_line(&s, &"School".to_string(), &"Faculty".to_string());
    assert_eq!(line, "12,{ქართული:80.50;მათემატიკა:20.00-400},450.00,1001,School,Faculty,100");
    s.grant = None;
    s.scores = [None; 9];
    let bare = ranked_student_line(&s, &"A".to_string(), &"B".to_string());
    assert_eq!(bare, "12,{},450.00,1001,A,B,");
}

#[test]
fn faculty_groups_ordered_by_code_value() {
    let students = vec![
        student("a", "1", "00110"),
        student("b", "1", "00102"),
        student("c", "1", "00110"),
        student("d", "1", "0099"),
    ];
    let groups = sort_faculty_groups(&collect_faculties(students)).unwrap();
    let codes: Vec<&str> = groups.iter().map(|g| g.0.as_str()).collect();
    assert_eq!(codes, vec!["0099", "00102", "00110"]);
    assert_eq!(groups[2].1.len(), 2);
    let bad = vec![student("a", "1", "x1")];
    assert_eq!(
        sort_faculty_groups(&collect_faculties(bad)).unwrap_err(),
        GroupOrderError::MalformedFacultyCode { index: 0 }
    );
}
