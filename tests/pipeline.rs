use admissions::calibration::read_independent_descaling_data;
use admissions::decimal::is_number;
use admissions::normalize::{calibration_in_limit, descale_with_independent_data, scores_in_limit};
use admissions::publication::read_publication_tsv;
use admissions::ranking::sort_students;
use admissions::records::{Faculty, Score, StudentData, SubjectStats};
use admissions::subject::Subject;

const U: i64 = 10000;

#[test]
fn publication_to_ranking() {
    let publication = "001\tუნივერსიტეტი\n\
00101\tფაკულტეტი\n\
x\tმათემატიკა\t%\t50\n\
1\t11\t400\t300.5\n\
2\t12\t600\t410\t100\n\
3\t13\t500\t410\t70\n";
    let calibration = "მათემატიკა,minimum,20\n\
მათემატიკა,maximum,80\n\
მათემატიკა,anchor,50,500\n";
    let (students, _, _) = read_publication_tsv(publication).unwrap();
    let stats = read_independent_descaling_data(calibration).unwrap();
    assert!(scores_in_limit(&students));
    assert!(calibration_in_limit(&stats));
    let normalized = descale_with_independent_data(students, stats).unwrap();
    let ranked = sort_students(normalized).unwrap();
    let ids: Vec<&str> = ranked.iter().map(|s| s.id.as_str()).collect();
    assert_eq!(ids, vec!["12", "13", "11"]);
    assert_eq!(ranked[0].scores[0], Some(Score::EqualizedAndScaled { scaled: 600 * U, equalized: 80 * U }));
    assert_eq!(ranked[1].scores[0], Some(Score::EqualizedAndScaled { scaled: 500 * U, equalized: 50 * U }));
    assert_eq!(ranked[2].scores[0], Some(Score::EqualizedAndScaled { scaled: 400 * U, equalized: 20 * U }));
    assert_eq!(ranked[2].placement, Some(3));
}

#[test]
fn display_order_is_reverse_canonical() {
    let mut subjects = [false; 9];
    subjects[0] = true;
    subjects[3] = true;
    subjects[7] = true;
    let f = Faculty { id: "1".to_string(), name: "n".to_string(), subjects, subject_order: vec![] };
    assert_eq!(f.display_subjects(), vec![Subject::English, Subject::Biology, Subject::Math]);
}

#[test]
fn limit_checks() {
    let mut scores = [None; 9];
    scores[4] = Some(Score::Scaled(i64::MAX));
    let s = StudentData {
        id: "1".to_string(),
        scores,
        overall_score: "1".to_string(),
        placement: None,
        faculty_id: "1".to_string(),
        grant: None,
    };
    assert!(!scores_in_limit(&vec![s]));
    let mut stats: [Option<SubjectStats>; 9] = Default::default();
    assert!(calibration_in_limit(&stats));
    stats[2] = Some(SubjectStats {
        min: None,
        max: None,
        anchors: vec![Score::EqualizedAndScaled { scaled: 0, equalized: i64::MIN }],
    });
    assert!(!calibration_in_limit(&stats));
}

#[test]
fn number_grammar() {
    let yes = [
        "0", "-1", "+2.5", ".5", "5.", "0012", "1e3", "1E+5", ".5e-2", "inf", "-Infinity", "NaN",
        "+nan", "iNf",
    ];
    let no = [
        "", "-", ".", "1.2.3", "1,5", " 1", "1e", "e5", "+-1", "1e3.5", "infinit", "nana", "1e+",
    ];
    for t in yes {
        assert!(is_number(&t.chars().collect::<Vec<char>>()), "{t}");
    }
    for t in no {
        assert!(!is_number(&t.chars().collect::<Vec<char>>()), "{t}");
    }
}
