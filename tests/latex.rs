use admissions::latex::{chapter_with_figure, faculty_chapter, main_document, top_list, LatexError};
use admissions::records::{Faculty, Grant, School, Score, StudentData};
use admissions::subject::Subject;

fn faculty() -> Faculty {
    let mut subjects = [false; 9];
    subjects[0] = true;
    subjects[8] = true;
    Faculty {
        id: "00101".to_string(),
        name: " Econ ".to_string(),
        subjects,
        subject_order: vec![Subject::Math, Subject::Georgian],
    }
}

fn school() -> School {
    School { id: "001".to_string(), name: " Uni ".to_string(), short_name: None }
}

fn ranked_student() -> StudentData {
    let mut scores = [None; 9];
    scores[8] = Some(Score::EqualizedAndScaled { scaled: 805000, equalized: 345678 });
    scores[0] = Some(Score::Scaled(900000));
    StudentData {
        id: "1001".to_string(),
        scores,
        overall_score: "450.00".to_string(),
        placement: Some(3),
        faculty_id: "00101".to_string(),
        grant: Some(Grant::Hundred),
    }
}

#[test]
fn faculty_chapter_text() {
    let text = faculty_chapter(&faculty(), &school(), &vec![ranked_student()]).unwrap();
    let expected = String::from("\\section*{00101 - Uni}\n\\subsection*{Econ}\n")
        + "\n\\begin{longtable}{ C{0.03\\textwidth} C{0.07\\textwidth} C{0.08\\textwidth}"
        + &" C{0.1\\textwidth} ".repeat(4)
        + "C{0.07\\textwidth}}"
        + "\n\t & ადგილი & ნომერი & ქართული & მათემატიკა & საკონკურსო & გრანტი \\\\\\hline"
        + "\n\t\\color{gray}1 & 3 & \\color{gray}1001 & 34.6{\\color{gray}\\scriptsize(80.5)} & {\\color{gray}\\scriptsize90.0} & 450.00 & 100 \\\\"
        + "\n\\end{longtable}";
    assert_eq!(text, expected);
}

#[test]
fn faculty_chapter_errors() {
    let mut s = ranked_student();
    s.placement = None;
    assert_eq!(
        faculty_chapter(&faculty(), &school(), &vec![ranked_student(), s]).unwrap_err(),
        LatexError::MissingPlacement { index: 1 }
    );
    let mut t = ranked_student();
    t.scores[0] = None;
    assert_eq!(
        faculty_chapter(&faculty(), &school(), &vec![t]).unwrap_err(),
        LatexError::MissingScore { index: 0, subject: Subject::Math }
    );
}

#[test]
fn top_list_text() {
    let text = top_list(&vec![ranked_student()], &vec![school()], &vec![faculty()]).unwrap();
    let line = "\t & \\color{gray}ქართული & \\color{gray}მათემატიკა & \\color{gray} & \\color{gray} & & \\color{gray} Uni  & \\\\\n\t1 & 34.6{\\color{gray}\\scriptsize(80.5)} & {\\color{gray}\\scriptsize90.0} &  &  & 450.00 &  Econ  & 100\\\\\\hline\n";
    assert!(text.starts_with("\\section*{აბიტურიენტები საკონკურსო ქულის მიხედვით კლებადობით}\n\n{\n\\scriptsize\n\\begin{longtable}"));
    assert!(text.ends_with(&(String::from(line) + "\\end{longtable}\n}")));
    let mut shortened = school();
    shortened.short_name = Some("U".to_string());
    let mut no_grant = ranked_student();
    no_grant.grant = None;
    let text = top_list(&vec![no_grant], &vec![shortened], &vec![faculty()]).unwrap();
    assert!(text.contains("& & \\color{gray}U & \\\\"));
    assert!(text.contains("&  Econ  & 0\\\\\\hline"));
}

#[test]
fn top_list_errors() {
    let mut s = ranked_student();
    s.faculty_id = "00202".to_string();
    assert_eq!(
        top_list(&vec![ranked_student(), s], &vec![school()], &vec![faculty()]).unwrap_err(),
        LatexError::UnknownFaculty { index: 1 }
    );
    assert_eq!(
        top_list(&vec![ranked_student()], &vec![], &vec![faculty()]).unwrap_err(),
        LatexError::UnknownSchool { index: 0 }
    );
}

#[test]
fn main_document_lists_inputs() {
    let ids = vec!["00101".to_string(), "00205".to_string()];
    let text = main_document(true, &ids);
    assert!(text.starts_with("\\documentclass{article}\n\n\\usepackage[margin=2cm]{geometry}\n"));
    assert!(text.ends_with(
        "\\begin{document}\n\t\\input{top-list}\n\t\\input{chapters/00101}\n\t\\input{chapters/00205}\n\\end{document}"
    ));
    let empty = main_document(false, &vec![]);
    assert!(empty.ends_with("\\begin{document}\n\tno data\n\\end{document}"));
}

#[test]
fn chapter_figure_appended() {
    let text = chapter_with_figure(&"body".to_string(), &"00101".to_string());
    assert_eq!(
        text,
        "body\n\\begin{figure}[H]\\centering\n    \\includegraphics{chapters/00101.eps}\n\\end{figure}"
    );
}
