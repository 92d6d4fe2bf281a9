//! LaTeX text of the report: a chapter per faculty and the ranked list.
use vstd::prelude::*;

use crate::format::{nat_string, nat_text};
use crate::records::{
    faculties_view, grant_text, marked_reversed, schools_view, score_latex, students_view, Faculty,
    FacultyView, Grant, School, SchoolView, StudentData, StudentView,
};
use crate::subject::{subject_index, subject_name, Subject, SUBJECT_COUNT};
use crate::text::{chars_of, string_from_chars, string_from_literal, trim, trimmed_range};

verus! {

/// Why a report could not be written.
#[derive(Debug, Clone, Copy, PartialEq, Eq, Structural)]
pub enum LatexError {
    /// The student at this position of its list has no placement.
    MissingPlacement { index: usize },
    /// The student at this position has no score in a subject of its faculty.
    MissingScore { index: usize, subject: Subject },
    /// No faculty has the faculty code of the student at this position.
    UnknownFaculty { index: usize },
    /// No school has the code that starts the faculty code of the student at
    /// this position.
    UnknownSchool { index: usize },
}

/// The items joined with a separator.
pub open spec fn join_text(items: Seq<Seq<char>>, sep: Seq<char>) -> Seq<char>
    decreases items.len(),
{
    if items.len() == 0 {
        Seq::empty()
    } else if items.len() == 1 {
        items[0]
    } else {
        join_text(items.drop_last(), sep) + sep + items.last()
    }
}

/// `s` written `n` times.
pub open spec fn repeat_text(s: Seq<char>, n: nat) -> Seq<char>
    decreases n,
{
    if n == 0 {
        Seq::empty()
    } else {
        repeat_text(s, (n - 1) as nat) + s
    }
}

pub open spec fn subject_names(subjects: Seq<Subject>) -> Seq<Seq<char>> {
    subjects.map_values(|s: Subject| subject_name(s))
}

/// The section title, the table's column layout and its header row.
pub open spec fn chapter_head(f: FacultyView, school: SchoolView, subjects: Seq<Subject>) -> Seq<char> {
    "\\section*{"@ + f.id + " - "@ + trim(school.name) + "}\n\\subsection*{"@ + trim(f.name) + "}\n"@
        + "\n\\begin{longtable}{ C{0.03\\textwidth} C{0.07\\textwidth} C{0.08\\textwidth}"@
        + repeat_text(" C{0.1\\textwidth} "@, subjects.len() + 2) + "C{0.07\\textwidth}}"@
        + "\n\t"@ + join_text(
        seq![Seq::empty(), "ადგილი"@, "ნომერი"@] + subject_names(subjects) + seq!["საკონკურსო"@, "გრანტი"@],
        " & "@,
    ) + " \\\\\\hline"@
}

/// The LaTeX cells of the scores of the subjects, or `None` where one is
/// missing.
pub open spec fn score_cells(st: StudentView, subjects: Seq<Subject>) -> Option<Seq<Seq<char>>>
    decreases subjects.len(),
{
    if subjects.len() == 0 {
        Some(Seq::empty())
    } else {
        match score_cells(st, subjects.drop_last()) {
            None => None,
            Some(prev) => match st.scores[subject_index(subjects.last()) as int] {
                Some(sc) => Some(prev.push(score_latex(sc))),
                None => None,
            },
        }
    }
}

/// The first subject in which the student has no score.
pub open spec fn first_missing(st: StudentView, subjects: Seq<Subject>) -> Option<Subject>
    decreases subjects.len(),
{
    if subjects.len() == 0 {
        None
    } else {
        match first_missing(st, subjects.drop_last()) {
            Some(s) => Some(s),
            None => if st.scores[subject_index(subjects.last()) as int] is None {
                Some(subjects.last())
            } else {
                None
            },
        }
    }
}

/// The table row of the student at position `index` of the faculty's list.
pub open spec fn chapter_row(st: StudentView, subjects: Seq<Subject>, index: nat) -> Result<
    Seq<char>,
    LatexError,
> {
    match st.placement {
        None => Err(LatexError::MissingPlacement { index: index as usize }),
        Some(p) => match score_cells(st, subjects) {
            None => Err(
                LatexError::MissingScore { index: index as usize, subject: first_missing(st, subjects)->0 },
            ),
            Some(cells) => Ok(
                "\n\t"@ + join_text(
                    seq!["\\color{gray}"@ + nat_text(index + 1), nat_text(p as nat), "\\color{gray}"@ + st.id]
                        + cells + seq![
                        st.overall_score,
                        match st.grant {
                            Some(g) => grant_text(g),
                            None => Seq::empty(),
                        },
                    ],
                    " & "@,
                ) + " \\\\"@,
            ),
        },
    }
}

/// The rows of the first `n` students, or the first row's error.
pub open spec fn chapter_rows(students: Seq<StudentView>, subjects: Seq<Subject>, n: int) -> Result<
    Seq<char>,
    LatexError,
>
    decreases n,
{
    if n <= 0 {
        Ok(Seq::empty())
    } else {
        match chapter_rows(students, subjects, n - 1) {
            Err(e) => Err(e),
            Ok(prev) => match chapter_row(students[n - 1], subjects, (n - 1) as nat) {
                Err(e) => Err(e),
                Ok(row) => Ok(prev + row),
            },
        }
    }
}

/// A faculty's chapter: heading, table header and one row per student.
pub open spec fn chapter_text(f: FacultyView, school: SchoolView, students: Seq<StudentView>) -> Result<
    Seq<char>,
    LatexError,
> {
    let subjects = marked_reversed(f.subjects, SUBJECT_COUNT as int);
    match chapter_rows(students, subjects, students.len() as int) {
        Err(e) => Err(e),
        Ok(rows) => Ok(chapter_head(f, school, subjects) + rows + "\n\\end{longtable}"@),
    }
}

/// The strings joined with a separator.
pub fn join_with(items: &Vec<String>, sep: &str) -> (r: String)
    ensures
        r@ == join_text(items.deep_view(), sep@),
{
    let ghost iv = items.deep_view();
    if items.len() == 0 {
        return String::new();
    }
    let mut out = items[0].clone();
    assert(iv[0] == items@[0]@);
    assert(iv.take(1).drop_last() =~= Seq::<Seq<char>>::empty());
    let mut i: usize = 1;
    while i < items.len()
        invariant
            1 <= i <= items@.len(),
            iv == items.deep_view(),
            out@ == join_text(iv.take(i as int), sep@),
        decreases items@.len() - i,
    {
        assert(iv.take(i + 1).drop_last() =~= iv.take(i as int));
        assert(iv[i as int] == items@[i as int]@);
        out.append(sep);
        out.append(items[i].as_str());
        i = i + 1;
    }
    assert(iv.take(i as int) =~= iv);
    out
}

fn trimmed(s: &String) -> (r: String)
    ensures
        r@ == trim(s@),
{
    let c = chars_of(s.as_str());
    let (a, b) = trimmed_range(c.as_slice(), 0, c.len());
    assert(c@.subrange(0, c@.len() as int) =~= c@);
    string_from_chars(&c.as_slice()[a..b])
}

fn chapter_head_text(faculty: &Faculty, school: &School, subjects: &Vec<Subject>) -> (r: String)
    ensures
        r@ == chapter_head(faculty@, school@, subjects@),
{
    let mut out = string_from_literal("\\section*{");
    out.append(faculty.id.as_str());
    out.append(" - ");
    let school_name = trimmed(&school.name);
    out.append(school_name.as_str());
    out.append("}\n\\subsection*{");
    let faculty_name = trimmed(&faculty.name);
    out.append(faculty_name.as_str());
    out.append("}\n");
    out.append("\n\\begin{longtable}{ C{0.03\\textwidth} C{0.07\\textwidth} C{0.08\\textwidth}");
    let ghost before_repeat = out@;
    let n = subjects.len();
    let mut k: usize = 0;
    assert(before_repeat + repeat_text(" C{0.1\\textwidth} "@, 0) =~= before_repeat);
    while k < n
        invariant
            k <= n,
            n == subjects@.len(),
            out@ == before_repeat + repeat_text(" C{0.1\\textwidth} "@, k as nat),
        decreases n - k,
    {
        out.append(" C{0.1\\textwidth} ");
        assert(out@ =~= before_repeat + repeat_text(" C{0.1\\textwidth} "@, (k + 1) as nat));
        k = k + 1;
    }
    out.append(" C{0.1\\textwidth} ");
    assert(out@ =~= before_repeat + repeat_text(" C{0.1\\textwidth} "@, (n + 1) as nat));
    out.append(" C{0.1\\textwidth} ");
    assert(out@ =~= before_repeat + repeat_text(" C{0.1\\textwidth} "@, (n + 2) as nat));
    out.append("C{0.07\\textwidth}}");
    out.append("\n\t");
    let mut header: Vec<String> = Vec::new();
    header.push(String::new());
    header.push(string_from_literal("ადგილი"));
    header.push(string_from_literal("ნომერი"));
    let mut j: usize = 0;
    while j < subjects.len()
        invariant
            j <= subjects@.len(),
            header.deep_view() == seq![Seq::<char>::empty(), "ადგილი"@, "ნომერი"@] + subject_names(
                subjects@.take(j as int),
            ),
        decreases subjects@.len() - j,
    {
        let name = subjects[j].to_string();
        let ghost prev = header.deep_view();
        let ghost name_view = name@;
        header.push(name);
        assert(header.deep_view() =~= prev.push(name_view));
        assert(subject_names(subjects@.take(j + 1)) =~= subject_names(subjects@.take(j as int)).push(
            subject_name(subjects@[j as int]),
        ));
        assert(header.deep_view() =~= seq![Seq::<char>::empty(), "ადგილი"@, "ნომერი"@] + subject_names(
            subjects@.take(j + 1),
        ));
        j = j + 1;
    }
    assert(subjects@.take(j as int) =~= subjects@);
    header.push(string_from_literal("საკონკურსო"));
    header.push(string_from_literal("გრანტი"));
    assert(header.deep_view() =~= seq![Seq::<char>::empty(), "ადგილი"@, "ნომერი"@] + subject_names(subjects@)
        + seq!["საკონკურსო"@, "გრანტი"@]);
    let cells = join_with(&header, " & ");
    out.append(cells.as_str());
    out.append(" \\\\\\hline");
    out
}

proof fn lemma_score_cells_fail(st: StudentView, subjects: Seq<Subject>, j: int)
    requires
        0 <= j <= subjects.len(),
        score_cells(st, subjects.take(j)) is None,
        first_missing(st, subjects.take(j)) is Some,
    ensures
        score_cells(st, subjects) is None,
        first_missing(st, subjects) == first_missing(st, subjects.take(j)),
    decreases subjects.len() - j,
{
    if j < subjects.len() {
        assert(subjects.take(j + 1).drop_last() =~= subjects.take(j));
        lemma_score_cells_fail(st, subjects, j + 1);
    } else {
        assert(subjects.take(j) =~= subjects);
    }
}

/// The table row of one student.
fn chapter_row_text(student: &StudentData, subjects: &Vec<Subject>, index: usize) -> (r: Result<
    String,
    LatexError,
>)
    requires
        index < usize::MAX,
    ensures
        match r {
            Ok(t) => chapter_row(student@, subjects@, index as nat) == Ok::<Seq<char>, LatexError>(t@),
            Err(e) => chapter_row(student@, subjects@, index as nat) == Err::<Seq<char>, LatexError>(e),
        },
{
    let placement = match student.placement {
        Some(p) => p,
        None => {
            return Err(LatexError::MissingPlacement { index });
        },
    };
    let mut cells: Vec<String> = Vec::new();
    let mut first = string_from_literal("\\color{gray}");
    let number = nat_string((index + 1) as u64);
    first.append(number.as_str());
    cells.push(first);
    cells.push(nat_string(placement as u64));
    let mut third = string_from_literal("\\color{gray}");
    third.append(student.id.as_str());
    cells.push(third);
    let ghost lead = cells.deep_view();
    assert(lead =~= seq![
        "\\color{gray}"@ + nat_text(index as nat + 1),
        nat_text(placement as nat),
        "\\color{gray}"@ + student@.id,
    ]);
    let scores = match score_cell_texts(student, subjects, index) {
        Ok(c) => c,
        Err(e) => {
            return Err(e);
        },
    };
    let ghost sc = scores.deep_view();
    let mut j: usize = 0;
    while j < scores.len()
        invariant
            j <= scores@.len(),
            sc == scores.deep_view(),
            cells.deep_view() == lead + sc.take(j as int),
        decreases scores@.len() - j,
    {
        let ghost prev = cells.deep_view();
        cells.push(scores[j].clone());
        assert(sc[j as int] == scores@[j as int]@);
        assert(sc.take(j + 1) =~= sc.take(j as int).push(sc[j as int]));
        assert(cells.deep_view() =~= prev.push(sc[j as int]));
        j = j + 1;
    }
    assert(sc.take(j as int) =~= sc);
    cells.push(student.overall_score.clone());
    let grant = match student.grant {
        Some(g) => g.to_string(),
        None => String::new(),
    };
    let ghost grant_view = grant@;
    cells.push(grant);
    assert(nat_text((index + 1) as u64 as nat) == nat_text(index as nat + 1));
    assert(nat_text(placement as u64 as nat) == nat_text(placement as nat));
    assert(cells.deep_view() =~= lead + sc + seq![student@.overall_score, grant_view]);
    assert(grant_view == match student@.grant {
        Some(g) => grant_text(g),
        None => Seq::<char>::empty(),
    });
    let joined = join_with(&cells, " & ");
    let mut out = string_from_literal("\n\t");
    out.append(joined.as_str());
    out.append(" \\\\");
    assert(chapter_row(student@, subjects@, index as nat) == Ok::<Seq<char>, LatexError>(out@)) by {
        let st = student@;
        let cells_spec = seq![
            "\\color{gray}"@ + nat_text(index as nat + 1),
            nat_text(placement as nat),
            "\\color{gray}"@ + st.id,
        ] + sc + seq![
            st.overall_score,
            match st.grant {
                Some(g) => grant_text(g),
                None => Seq::empty(),
            },
        ];
        assert(cells.deep_view() == cells_spec);
    }
    Ok(out)
}

proof fn lemma_rows_error_stays(students: Seq<StudentView>, subjects: Seq<Subject>, j: int, n: int, e: LatexError)
    requires
        0 <= j <= n,
        chapter_rows(students, subjects, j) == Err::<Seq<char>, LatexError>(e),
    ensures
        chapter_rows(students, subjects, n) == Err::<Seq<char>, LatexError>(e),
    decreases n - j,
{
    if j < n {
        lemma_rows_error_stays(students, subjects, j, n - 1, e);
    }
}

/// Writes a faculty's chapter: its title, the table of its students in
/// list order with the scores of its subjects, and their grants.
pub fn faculty_chapter(faculty: &Faculty, school: &School, students: &Vec<StudentData>) -> (r: Result<
    String,
    LatexError,
>)
    ensures
        match r {
            Ok(t) => chapter_text(faculty@, school@, students_view(students@)) == Ok::<
                Seq<char>,
                LatexError,
            >(t@),
            Err(e) => chapter_text(faculty@, school@, students_view(students@)) == Err::<
                Seq<char>,
                LatexError,
            >(e),
        },
{
    let ghost sv = students_view(students@);
    let subjects = faculty.display_subjects();
    let mut rows = String::new();
    let n = students.len();
    let mut k: usize = 0;
    while k < n
        invariant
            k <= n,
            n == students@.len(),
            sv == students_view(students@),
            subjects@ == marked_reversed(faculty@.subjects, SUBJECT_COUNT as int),
            chapter_rows(sv, subjects@, k as int) == Ok::<Seq<char>, LatexError>(rows@),
        decreases n - k,
    {
        assert(sv[k as int] == students@[k as int]@);
        match chapter_row_text(&students[k], &subjects, k) {
            Ok(row) => {
                rows.append(row.as_str());
            },
            Err(e) => {
                proof {
                    lemma_rows_error_stays(sv, subjects@, k + 1, n as int, e);
                }
                return Err(e);
            },
        }
        k = k + 1;
    }
    let mut out = chapter_head_text(faculty, school, &subjects);
    out.append(rows.as_str());
    out.append("\n\\end{longtable}");
    Ok(out)
}

/// The heading and column layout of the ranked list.
pub open spec fn top_list_head() -> Seq<char> {
    "\\section*{აბიტურიენტები საკონკურსო ქულის მიხედვით კლებადობით}\n\n{\n\\scriptsize\n\\begin{longtable}{C{0.04\\textwidth} | C{0.07\\textwidth} | C{0.07\\textwidth} | C{0.08\\textwidth} | C{0.08\\textwidth} | C{0.08\\textwidth} | C{0.35\\textwidth} | C{0.06\\textwidth}}\n    \\# & საგანი 1 & საგანი 2 & საგანი 3 & საგანი 4 & საკონკურსო & ფაკულტეტი & გრანტი \\\\ \\hline\\hline"@
}

/// The position of the first faculty with this code.
pub open spec fn faculty_position(fs: Seq<FacultyView>, id: Seq<char>) -> Option<int>
    decreases fs.len(),
{
    if fs.len() == 0 {
        None
    } else {
        match faculty_position(fs.drop_last(), id) {
            Some(i) => Some(i),
            None => if fs.last().id == id {
                Some(fs.len() - 1)
            } else {
                None
            },
        }
    }
}

/// The position of the first school with this code.
pub open spec fn school_position(ss: Seq<SchoolView>, id: Seq<char>) -> Option<int>
    decreases ss.len(),
{
    if ss.len() == 0 {
        None
    } else {
        match school_position(ss.drop_last(), id) {
            Some(i) => Some(i),
            None => if ss.last().id == id {
                Some(ss.len() - 1)
            } else {
                None
            },
        }
    }
}

/// The school code that starts a faculty code.
pub open spec fn school_code(faculty_id: Seq<char>) -> Seq<char> {
    if faculty_id.len() >= 3 {
        faculty_id.take(3)
    } else {
        faculty_id
    }
}

/// The entry at `k`, or empty text past the end.
pub open spec fn nth_or_empty(items: Seq<Seq<char>>, k: int) -> Seq<char> {
    if k < items.len() {
        items[k]
    } else {
        Seq::empty()
    }
}

/// The two lines of one student in the ranked list: the names of the first
/// four subjects and the school above, the scores and the rest below.
pub open spec fn top_list_line(st: StudentView, f: FacultyView, school: SchoolView, index: nat) -> Result<
    Seq<char>,
    LatexError,
> {
    let subjects = marked_reversed(f.subjects, SUBJECT_COUNT as int);
    let shown = if subjects.len() > 4 {
        subjects.take(4)
    } else {
        subjects
    };
    let names = subject_names(shown);
    match score_cells(st, shown) {
        None => Err(LatexError::MissingScore { index: index as usize, subject: first_missing(st, shown)->0 }),
        Some(cells) => Ok(
            "\t & \\color{gray}"@ + nth_or_empty(names, 0) + " & \\color{gray}"@ + nth_or_empty(names, 1)
                + " & \\color{gray}"@ + nth_or_empty(names, 2) + " & \\color{gray}"@ + nth_or_empty(names, 3)
                + " & & \\color{gray}"@ + match school.short_name {
                Some(n) => n,
                None => school.name,
            } + " & \\\\\n\t"@ + nat_text(index + 1) + " & "@ + nth_or_empty(cells, 0) + " & "@
                + nth_or_empty(cells, 1) + " & "@ + nth_or_empty(cells, 2) + " & "@ + nth_or_empty(cells, 3)
                + " & "@ + st.overall_score + " & "@ + f.name + " & "@ + grant_text(
                match st.grant {
                    Some(g) => g,
                    None => Grant::Zero,
                },
            ) + "\\\\\\hline\n"@,
        ),
    }
}

/// The line of the student at position `index`, after looking up its
/// faculty and school.
pub open spec fn top_list_entry(
    st: StudentView,
    schools: Seq<SchoolView>,
    faculties: Seq<FacultyView>,
    index: nat,
) -> Result<Seq<char>, LatexError> {
    match faculty_position(faculties, st.faculty_id) {
        None => Err(LatexError::UnknownFaculty { index: index as usize }),
        Some(fi) => match school_position(schools, school_code(st.faculty_id)) {
            None => Err(LatexError::UnknownSchool { index: index as usize }),
            Some(si) => top_list_line(st, faculties[fi], schools[si], index),
        },
    }
}

/// The lines of the first `n` students, or the first error.
pub open spec fn top_list_lines(
    students: Seq<StudentView>,
    schools: Seq<SchoolView>,
    faculties: Seq<FacultyView>,
    n: int,
) -> Result<Seq<char>, LatexError>
    decreases n,
{
    if n <= 0 {
        Ok(Seq::empty())
    } else {
        match top_list_lines(students, schools, faculties, n - 1) {
            Err(e) => Err(e),
            Ok(prev) => match top_list_entry(students[n - 1], schools, faculties, (n - 1) as nat) {
                Err(e) => Err(e),
                Ok(line) => Ok(prev + line),
            },
        }
    }
}

/// The ranked list as a LaTeX table.
pub open spec fn top_list_text(
    students: Seq<StudentView>,
    schools: Seq<SchoolView>,
    faculties: Seq<FacultyView>,
) -> Result<Seq<char>, LatexError> {
    match top_list_lines(students, schools, faculties, students.len() as int) {
        Err(e) => Err(e),
        Ok(lines) => Ok(top_list_head() + lines + "\\end{longtable}\n}"@),
    }
}

/// The position of the first faculty with this code.
pub fn faculty_at(faculties: &Vec<Faculty>, id: &String) -> (r: Option<usize>)
    ensures
        match r {
            Some(i) => faculty_position(faculties_view(faculties@), id@) == Some(i as int) && i
                < faculties@.len(),
            None => faculty_position(faculties_view(faculties@), id@) is None,
        },
{
    let ghost fv = faculties_view(faculties@);
    let mut i: usize = 0;
    assert(fv.take(0) =~= Seq::<FacultyView>::empty());
    while i < faculties.len()
        invariant
            i <= faculties@.len(),
            fv == faculties_view(faculties@),
            faculty_position(fv.take(i as int), id@) is None,
        decreases faculties@.len() - i,
    {
        assert(fv.take(i + 1).drop_last() =~= fv.take(i as int));
        assert(fv[i as int].id == faculties@[i as int].id@);
        if faculties[i].id == *id {
            proof {
                lemma_faculty_prefix(fv, id@, i + 1);
            }
            return Some(i);
        }
        i = i + 1;
    }
    assert(fv.take(i as int) =~= fv);
    None
}

proof fn lemma_faculty_prefix(fs: Seq<FacultyView>, id: Seq<char>, j: int)
    requires
        0 <= j <= fs.len(),
        faculty_position(fs.take(j), id) is Some,
    ensures
        faculty_position(fs, id) == faculty_position(fs.take(j), id),
    decreases fs.len() - j,
{
    if j < fs.len() {
        assert(fs.take(j + 1).drop_last() =~= fs.take(j));
        lemma_faculty_prefix(fs, id, j + 1);
    } else {
        assert(fs.take(j) =~= fs);
    }
}

/// The position of the first school with this code.
pub fn school_at(schools: &Vec<School>, id: &String) -> (r: Option<usize>)
    ensures
        match r {
            Some(i) => school_position(schools_view(schools@), id@) == Some(i as int) && i < schools@.len(),
            None => school_position(schools_view(schools@), id@) is None,
        },
{
    let ghost sv = schools_view(schools@);
    let mut i: usize = 0;
    assert(sv.take(0) =~= Seq::<SchoolView>::empty());
    while i < schools.len()
        invariant
            i <= schools@.len(),
            sv == schools_view(schools@),
            school_position(sv.take(i as int), id@) is None,
        decreases schools@.len() - i,
    {
        assert(sv.take(i + 1).drop_last() =~= sv.take(i as int));
        assert(sv[i as int].id == schools@[i as int].id@);
        if schools[i].id == *id {
            proof {
                lemma_school_prefix(sv, id@, i + 1);
            }
            return Some(i);
        }
        i = i + 1;
    }
    assert(sv.take(i as int) =~= sv);
    None
}

proof fn lemma_school_prefix(ss: Seq<SchoolView>, id: Seq<char>, j: int)
    requires
        0 <= j <= ss.len(),
        school_position(ss.take(j), id) is Some,
    ensures
        school_position(ss, id) == school_position(ss.take(j), id),
    decreases ss.len() - j,
{
    if j < ss.len() {
        assert(ss.take(j + 1).drop_last() =~= ss.take(j));
        lemma_school_prefix(ss, id, j + 1);
    } else {
        assert(ss.take(j) =~= ss);
    }
}

/// The school code that starts a faculty code.
pub fn school_code_of(faculty_id: &String) -> (r: String)
    ensures
        r@ == school_code(faculty_id@),
{
    let c = chars_of(faculty_id.as_str());
    if c.len() >= 3 {
        assert(c@.subrange(0, 3) =~= c@.take(3));
        string_from_chars(&c.as_slice()[0..3])
    } else {
        faculty_id.clone()
    }
}

/// The LaTeX cells of the student's scores in the subjects.
fn score_cell_texts(student: &StudentData, subjects: &Vec<Subject>, index: usize) -> (r: Result<
    Vec<String>,
    LatexError,
>)
    ensures
        match r {
            Ok(v) => score_cells(student@, subjects@) == Some(v.deep_view()),
            Err(e) => score_cells(student@, subjects@) is None && first_missing(student@, subjects@) is Some
                && e == LatexError::MissingScore { index, subject: first_missing(student@, subjects@)->0 },
        },
{
    let mut cells: Vec<String> = Vec::new();
    let mut j: usize = 0;
    assert(subjects@.take(0) =~= Seq::<Subject>::empty());
    assert(cells.deep_view() =~= Seq::<Seq<char>>::empty());
    while j < subjects.len()
        invariant
            j <= subjects@.len(),
            score_cells(student@, subjects@.take(j as int)) == Some(cells.deep_view()),
            first_missing(student@, subjects@.take(j as int)) is None,
        decreases subjects@.len() - j,
    {
        assert(subjects@.take(j + 1).drop_last() =~= subjects@.take(j as int));
        assert(subjects@.take(j + 1).last() == subjects@[j as int]);
        let s = subjects[j];
        match student.scores[s.index()] {
            Some(sc) => {
                let ghost prev = cells.deep_view();
                let text = sc.to_latex();
                cells.push(text);
                assert(cells.deep_view() =~= prev.push(score_latex(sc)));
            },
            None => {
                proof {
                    lemma_score_cells_fail(student@, subjects@, j + 1);
                }
                return Err(LatexError::MissingScore { index, subject: s });
            },
        }
        j = j + 1;
    }
    assert(subjects@.take(j as int) =~= subjects@);
    Ok(cells)
}

fn nth_text(items: &Vec<String>, k: usize) -> (r: String)
    ensures
        r@ == nth_or_empty(items.deep_view(), k as int),
{
    if k < items.len() {
        items[k].clone()
    } else {
        String::new()
    }
}

/// The two lines of one student in the ranked list.
fn top_list_line_text(student: &StudentData, faculty: &Faculty, school: &School, index: usize) -> (r:
    Result<String, LatexError>)
    requires
        index < usize::MAX,
    ensures
        match r {
            Ok(t) => top_list_line(student@, faculty@, school@, index as nat) == Ok::<Seq<char>, LatexError>(
                t@,
            ),
            Err(e) => top_list_line(student@, faculty@, school@, index as nat) == Err::<
                Seq<char>,
                LatexError,
            >(e),
        },
{
    let subjects = faculty.display_subjects();
    let mut shown: Vec<Subject> = Vec::new();
    let mut j: usize = 0;
    while j < subjects.len() && j < 4
        invariant
            j <= subjects@.len(),
            j <= 4,
            shown@ == subjects@.take(j as int),
        decreases subjects@.len() - j,
    {
        shown.push(subjects[j]);
        assert(subjects@.take(j + 1) =~= subjects@.take(j as int).push(subjects@[j as int]));
        j = j + 1;
    }
    assert(shown@ == if subjects@.len() > 4 {
        subjects@.take(4)
    } else {
        subjects@
    }) by {
        if subjects@.len() <= 4 {
            assert(subjects@.take(subjects@.len() as int) =~= subjects@);
        }
    }
    let cells = match score_cell_texts(student, &shown, index) {
        Ok(c) => c,
        Err(e) => {
            return Err(e);
        },
    };
    let mut names: Vec<String> = Vec::new();
    let mut k: usize = 0;
    while k < shown.len()
        invariant
            k <= shown@.len(),
            names.deep_view() == subject_names(shown@.take(k as int)),
        decreases shown@.len() - k,
    {
        let name = shown[k].to_string();
        let ghost prev = names.deep_view();
        let ghost nv = name@;
        names.push(name);
        assert(names.deep_view() =~= prev.push(nv));
        assert(subject_names(shown@.take(k + 1)) =~= subject_names(shown@.take(k as int)).push(
            subject_name(shown@[k as int]),
        ));
        k = k + 1;
    }
    assert(shown@.take(k as int) =~= shown@);
    let mut out = string_from_literal("\t & \\color{gray}");
    out.append(nth_text(&names, 0).as_str());
    out.append(" & \\color{gray}");
    out.append(nth_text(&names, 1).as_str());
    out.append(" & \\color{gray}");
    out.append(nth_text(&names, 2).as_str());
    out.append(" & \\color{gray}");
    out.append(nth_text(&names, 3).as_str());
    out.append(" & & \\color{gray}");
    match &school.short_name {
        Some(n) => out.append(n.as_str()),
        None => out.append(school.name.as_str()),
    }
    out.append(" & \\\\\n\t");
    out.append(nat_string((index + 1) as u64).as_str());
    out.append(" & ");
    out.append(nth_text(&cells, 0).as_str());
    out.append(" & ");
    out.append(nth_text(&cells, 1).as_str());
    out.append(" & ");
    out.append(nth_text(&cells, 2).as_str());
    out.append(" & ");
    out.append(nth_text(&cells, 3).as_str());
    out.append(" & ");
    out.append(student.overall_score.as_str());
    out.append(" & ");
    out.append(faculty.name.as_str());
    out.append(" & ");
    let grant = match student.grant {
        Some(g) => g,
        None => Grant::Zero,
    };
    out.append(grant.to_string().as_str());
    out.append("\\\\\\hline\n");
    assert(nat_text((index + 1) as u64 as nat) == nat_text(index as nat + 1));
    Ok(out)
}

proof fn lemma_top_error_stays(
    students: Seq<StudentView>,
    schools: Seq<SchoolView>,
    faculties: Seq<FacultyView>,
    j: int,
    n: int,
    e: LatexError,
)
    requires
        0 <= j <= n,
        top_list_lines(students, schools, faculties, j) == Err::<Seq<char>, LatexError>(e),
    ensures
        top_list_lines(students, schools, faculties, n) == Err::<Seq<char>, LatexError>(e),
    decreases n - j,
{
    if j < n {
        lemma_top_error_stays(students, schools, faculties, j, n - 1, e);
    }
}

/// Writes the ranked list: for each student, in list order, the first four
/// subjects of its faculty with its scores, its school, overall score,
/// faculty and grant.
pub fn top_list(students: &Vec<StudentData>, schools: &Vec<School>, faculties: &Vec<Faculty>) -> (r:
    Result<String, LatexError>)
    ensures
        match r {
            Ok(t) => top_list_text(students_view(students@), schools_view(schools@), faculties_view(
                faculties@,
            )) == Ok::<Seq<char>, LatexError>(t@),
            Err(e) => top_list_text(students_view(students@), schools_view(schools@), faculties_view(
                faculties@,
            )) == Err::<Seq<char>, LatexError>(e),
        },
{
    let ghost sv = students_view(students@);
    let ghost scv = schools_view(schools@);
    let ghost fv = faculties_view(faculties@);
    let mut lines = String::new();
    let n = students.len();
    let mut k: usize = 0;
    while k < n
        invariant
            k <= n,
            n == students@.len(),
            sv == students_view(students@),
            scv == schools_view(schools@),
            fv == faculties_view(faculties@),
            top_list_lines(sv, scv, fv, k as int) == Ok::<Seq<char>, LatexError>(lines@),
        decreases n - k,
    {
        let st = &students[k];
        assert(sv[k as int] == st@);
        let fi = match faculty_at(faculties, &st.faculty_id) {
            Some(i) => i,
            None => {
                proof {
                    lemma_top_error_stays(sv, scv, fv, k + 1, n as int, LatexError::UnknownFaculty { index: k });
                }
                return Err(LatexError::UnknownFaculty { index: k });
            },
        };
        let code = school_code_of(&st.faculty_id);
        let si = match school_at(schools, &code) {
            Some(i) => i,
            None => {
                proof {
                    lemma_top_error_stays(sv, scv, fv, k + 1, n as int, LatexError::UnknownSchool { index: k });
                }
                return Err(LatexError::UnknownSchool { index: k });
            },
        };
        assert(fv[fi as int] == faculties@[fi as int]@);
        assert(scv[si as int] == schools@[si as int]@);
        match top_list_line_text(st, &faculties[fi], &schools[si], k) {
            Ok(line) => {
                lines.append(line.as_str());
            },
            Err(e) => {
                proof {
                    lemma_top_error_stays(sv, scv, fv, k + 1, n as int, e);
                }
                return Err(e);
            },
        }
        k = k + 1;
    }
    let mut out = string_from_literal(
        "\\section*{აბიტურიენტები საკონკურსო ქულის მიხედვით კლებადობით}\n\n{\n\\scriptsize\n\\begin{longtable}{C{0.04\\textwidth} | C{0.07\\textwidth} | C{0.07\\textwidth} | C{0.08\\textwidth} | C{0.08\\textwidth} | C{0.08\\textwidth} | C{0.35\\textwidth} | C{0.06\\textwidth}}\n    \\# & საგანი 1 & საგანი 2 & საგანი 3 & საგანი 4 & საკონკურსო & ფაკულტეტი & გრანტი \\\\ \\hline\\hline",
    );
    out.append(lines.as_str());
    out.append("\\end{longtable}\n}");
    Ok(out)
}

/// The document preamble, up to where the inputs go.
pub open spec fn document_head() -> Seq<char> {
    "\\documentclass{article}\n\n\\usepackage[margin=2cm]{geometry}\n\n\\usepackage{fontspec}\n\\usepackage{float}\n\\usepackage{graphics}\n\\usepackage{xcolor}\n\n\\usepackage[T1]{fontenc}\n\\setmainfont{GA Sylvia}\n\\usepackage[georgian]{babel}\n\\usepackage{longtable,array}\n\n\\newcolumntype{C}[1]{>{\\centering\\arraybackslash}p{#1}}\n\n\\begin{document}\n\t"@
}

/// The input line of a faculty's chapter.
pub open spec fn chapter_input(id: Seq<char>) -> Seq<char> {
    "\\input{chapters/"@ + id + "}"@
}

/// The inputs of the book: the ranked list where there is one, then one
/// chapter per faculty, in order.
pub open spec fn book_inputs(has_top_list: bool, ids: Seq<Seq<char>>) -> Seq<Seq<char>> {
    (if has_top_list {
        seq!["\\input{top-list}"@]
    } else {
        Seq::empty()
    }) + ids.map_values(|id: Seq<char>| chapter_input(id))
}

/// The main LaTeX file: the preamble, the inputs one per line (or `no data`
/// where there are none), and the end of the document.
pub open spec fn document_text(has_top_list: bool, ids: Seq<Seq<char>>) -> Seq<char> {
    let inputs = book_inputs(has_top_list, ids);
    document_head() + (if inputs.len() == 0 {
        "no data"@
    } else {
        join_text(inputs, "\n\t"@)
    }) + "\n\\end{document}"@
}

/// Writes the main LaTeX file of the book.
pub fn main_document(has_top_list: bool, faculty_ids: &Vec<String>) -> (r: String)
    ensures
        r@ == document_text(has_top_list, faculty_ids.deep_view()),
{
    let ghost ids = faculty_ids.deep_view();
    let mut inputs: Vec<String> = Vec::new();
    if has_top_list {
        inputs.push(string_from_literal("\\input{top-list}"));
    }
    let ghost lead = inputs.deep_view();
    assert(lead =~= if has_top_list {
        seq!["\\input{top-list}"@]
    } else {
        Seq::<Seq<char>>::empty()
    });
    let mut k: usize = 0;
    while k < faculty_ids.len()
        invariant
            k <= faculty_ids@.len(),
            ids == faculty_ids.deep_view(),
            inputs.deep_view() == lead + ids.take(k as int).map_values(|id: Seq<char>| chapter_input(id)),
        decreases faculty_ids@.len() - k,
    {
        let mut line = string_from_literal("\\input{chapters/");
        line.append(faculty_ids[k].as_str());
        line.append("}");
        assert(ids[k as int] == faculty_ids@[k as int]@);
        let ghost prev = inputs.deep_view();
        let ghost lv = line@;
        inputs.push(line);
        assert(inputs.deep_view() =~= prev.push(lv));
        assert(ids.take(k + 1).map_values(|id: Seq<char>| chapter_input(id)) =~= ids.take(
            k as int,
        ).map_values(|id: Seq<char>| chapter_input(id)).push(chapter_input(ids[k as int])));
        k = k + 1;
    }
    assert(ids.take(k as int) =~= ids);
    let mut out = string_from_literal("\\documentclass{article}\n\n\\usepackage[margin=2cm]{geometry}\n\n\\usepackage{fontspec}\n\\usepackage{float}\n\\usepackage{graphics}\n\\usepackage{xcolor}\n\n\\usepackage[T1]{fontenc}\n\\setmainfont{GA Sylvia}\n\\usepackage[georgian]{babel}\n\\usepackage{longtable,array}\n\n\\newcolumntype{C}[1]{>{\\centering\\arraybackslash}p{#1}}\n\n\\begin{document}\n\t");
    if inputs.len() == 0 {
        out.append("no data");
    } else {
        let joined = join_with(&inputs, "\n\t");
        out.append(joined.as_str());
    }
    out.append("\n\\end{document}");
    out
}

/// The figure block that shows a faculty's plot.
pub open spec fn figure_text(id: Seq<char>) -> Seq<char> {
    "\n\\begin{figure}[H]\\centering\n    \\includegraphics{chapters/"@ + id + ".eps}\n\\end{figure}"@
}

/// A faculty's chapter followed by the figure of its plot.
pub fn chapter_with_figure(chapter: &String, faculty_id: &String) -> (r: String)
    ensures
        r@ == chapter@ + figure_text(faculty_id@),
{
    let mut out = chapter.clone();
    out.append("\n\\begin{figure}[H]\\centering\n    \\includegraphics{chapters/");
    out.append(faculty_id.as_str());
    out.append(".eps}\n\\end{figure}");
    out
}

} // verus!
