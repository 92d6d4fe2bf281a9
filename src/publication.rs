//! Reading a publication: rows classified by their shape, then folded into
//! students, schools and faculties.
use vstd::prelude::*;

use crate::decimal::{decimal_fixed, is_float_literal, is_number, parse_fixed};
use crate::records::{
    faculties_view, schools_view, students_view, Faculty, FacultyView, Grant, School,
    SchoolView, Score, StudentData, StudentView,
};
use crate::subject::{subject_at, subject_index, subject_named, Subject, SUBJECT_COUNT};
use crate::text::{chars_of, join_spaces, join_with_spaces, split_on, split_range, text_eq, trim, trimmed_range};

verus! {

/// What a row of a publication is, judged by its shape.
#[derive(Debug, Clone, Copy, PartialEq, Eq, Structural)]
pub enum RowKind {
    Student,
    SubjectDeclaration,
    SchoolHeader,
    FacultyHeader,
    Ignored,
}

/// Why a publication could not be read; `line` counts from 1.
#[derive(Debug, Clone, Copy, PartialEq, Eq, Structural)]
pub enum ParseError {
    /// A score of a student row is not a number that a score can hold.
    MalformedNumber { line: usize },
    /// A student row has fewer fields than its faculty's subjects need.
    MissingColumn { line: usize },
    /// A subject declaration comes before any faculty header.
    DeclarationWithoutFaculty { line: usize },
}

pub open spec fn all_numeric(row: Seq<Seq<char>>) -> bool {
    forall|i: int| 0 <= i < row.len() ==> is_float_literal(#[trigger] row[i])
}

pub open spec fn has_percent(row: Seq<Seq<char>>) -> bool {
    exists|i: int| 0 <= i < row.len() && #[trigger] row[i] == "%"@
}

/// The kind of a row, given whether a faculty header has been seen.
pub open spec fn row_kind(row: Seq<Seq<char>>, faculty_open: bool) -> RowKind {
    if all_numeric(row) {
        if faculty_open {
            RowKind::Student
        } else {
            RowKind::Ignored
        }
    } else if has_percent(row) {
        RowKind::SubjectDeclaration
    } else if row.len() > 0 && is_float_literal(row[0]) {
        if row[0].len() == 3 {
            RowKind::SchoolHeader
        } else {
            RowKind::FacultyHeader
        }
    } else {
        RowKind::Ignored
    }
}

/// A row of numbers only is a student row where a faculty is open, and is
/// ignored where none is; it is never an error.
pub proof fn lemma_numeric_row_kind(row: Seq<Seq<char>>, faculty_open: bool)
    requires
        all_numeric(row),
    ensures
        row_kind(row, faculty_open) == (if faculty_open {
            RowKind::Student
        } else {
            RowKind::Ignored
        }),
{
}

/// A declaration row under an open faculty sets the current subjects, and
/// the subjects of a faculty it creates, to the subjects that the row's
/// tokens name, in the row's order.
pub proof fn lemma_declaration_order(st: ParseState, row: Seq<Seq<char>>, line: usize)
    requires
        row_kind(row, st.faculty is Some) == RowKind::SubjectDeclaration,
        st.faculty is Some,
    ensures
        parse_step(st, row, line) is Ok,
        parse_step(st, row, line)->Ok_0.subjects == subjects_in(declared_tokens(row)),
        !faculty_known(st.faculties, (st.faculty->0).0) ==> {
            let f = parse_step(st, row, line)->Ok_0.faculties.last();
            &&& f.subject_order == subjects_in(declared_tokens(row))
            &&& f.subjects == subject_mask(subjects_in(declared_tokens(row)))
            &&& f.id == (st.faculty->0).0
        },
{
}

/// Classifies one tab-separated row of a publication.
pub fn classify_row(row: &Vec<String>, faculty_open: bool) -> (r: RowKind)
    ensures
        r == row_kind(row.deep_view(), faculty_open),
{
    let ghost rv = row.deep_view();
    let mut numeric = true;
    let mut percent = false;
    let mut i: usize = 0;
    while i < row.len()
        invariant
            0 <= i <= row@.len(),
            rv == row.deep_view(),
            numeric == (forall|j: int| 0 <= j < i ==> is_float_literal(#[trigger] rv[j])),
            percent == (exists|j: int| 0 <= j < i && #[trigger] rv[j] == "%"@),
        decreases row@.len() - i,
    {
        assert(rv[i as int] == row@[i as int]@);
        let f = chars_of(row[i].as_str());
        if !is_number(f.as_slice()) {
            numeric = false;
        }
        if text_eq(row[i].as_str(), "%") {
            percent = true;
        }
        assert(numeric == (forall|j: int| 0 <= j < i + 1 ==> is_float_literal(#[trigger] rv[j]))) by {
            if numeric {
                assert forall|j: int| 0 <= j < i + 1 implies is_float_literal(#[trigger] rv[j]) by {
                    if j == i {
                    }
                }
            }
        }
        assert(percent == (exists|j: int| 0 <= j < i + 1 && #[trigger] rv[j] == "%"@)) by {
            if rv[i as int] == "%"@ {
                assert(0 <= i < i + 1 && rv[i as int] == "%"@);
            }
        }
        i = i + 1;
    }
    if numeric {
        if faculty_open {
            RowKind::Student
        } else {
            RowKind::Ignored
        }
    } else if percent {
        RowKind::SubjectDeclaration
    } else if row.len() > 0 && is_number(chars_of(row[0].as_str()).as_slice()) {
        assert(rv[0] == row@[0]@);
        if chars_of(row[0].as_str()).len() == 3 {
            RowKind::SchoolHeader
        } else {
            RowKind::FacultyHeader
        }
    } else {
        RowKind::Ignored
    }
}

/// The grant that the trailing field of a student row names.
pub open spec fn grant_of_code(t: Seq<char>) -> Option<Grant> {
    if t == "100"@ {
        Some(Grant::Hundred)
    } else if t == "70"@ {
        Some(Grant::Seventy)
    } else if t == "50"@ {
        Some(Grant::Fifty)
    } else {
        None
    }
}

pub open spec fn no_scores() -> Seq<Option<Score>> {
    Seq::new(SUBJECT_COUNT as nat, |i: int| None)
}

/// The scores of the first `j` declared subjects, read from fields `2..2+j`.
pub open spec fn row_scores(row: Seq<Seq<char>>, subjects: Seq<Subject>, j: int) -> Option<
    Seq<Option<Score>>,
>
    decreases j,
{
    if j <= 0 {
        Some(no_scores())
    } else {
        match row_scores(row, subjects, j - 1) {
            Some(sc) => match decimal_fixed(row[j + 1]) {
                Some(v) => Some(
                    sc.update(subject_index(subjects[j - 1]) as int, Some(Score::Scaled(v as i64))),
                ),
                None => None,
            },
            None => None,
        }
    }
}

/// The student that a student row describes, under the open faculty and
/// its declared subjects.
pub open spec fn student_row(
    row: Seq<Seq<char>>,
    subjects: Seq<Subject>,
    faculty_id: Seq<char>,
    line: usize,
) -> Result<StudentView, ParseError> {
    let k = subjects.len() as int;
    if row.len() < k + 3 {
        Err(ParseError::MissingColumn { line })
    } else {
        match row_scores(row, subjects, k) {
            None => Err(ParseError::MalformedNumber { line }),
            Some(scores) => Ok(
                StudentView {
                    id: row[1],
                    scores,
                    overall_score: row[k + 2],
                    placement: None,
                    faculty_id,
                    grant: if row.len() == k + 3 {
                        Some(Grant::Zero)
                    } else {
                        grant_of_code(row.last())
                    },
                },
            ),
        }
    }
}

/// The fields of a declaration row that may name subjects: all but the two
/// trailing ones.
pub open spec fn declared_tokens(row: Seq<Seq<char>>) -> Seq<Seq<char>> {
    if row.len() >= 2 {
        row.take(row.len() - 2)
    } else {
        Seq::empty()
    }
}

/// The subjects that the tokens name, in order; other tokens are skipped.
pub open spec fn subjects_in(tokens: Seq<Seq<char>>) -> Seq<Subject>
    decreases tokens.len(),
{
    if tokens.len() == 0 {
        Seq::empty()
    } else {
        let prev = subjects_in(tokens.drop_last());
        match subject_named(tokens.last()) {
            Some(s) => prev.push(s),
            None => prev,
        }
    }
}

pub open spec fn subject_mask(subjects: Seq<Subject>) -> Seq<bool> {
    Seq::new(SUBJECT_COUNT as nat, |i: int| subjects.contains(subject_at(i)))
}

/// What has been read of a publication so far.
pub ghost struct ParseState {
    pub students: Seq<StudentView>,
    pub schools: Seq<SchoolView>,
    pub faculties: Seq<FacultyView>,
    /// The open faculty's code and name.
    pub faculty: Option<(Seq<char>, Seq<char>)>,
    /// The open faculty's subjects, in declaration order.
    pub subjects: Seq<Subject>,
}

pub open spec fn initial_state() -> ParseState {
    ParseState {
        students: Seq::empty(),
        schools: Seq::empty(),
        faculties: Seq::empty(),
        faculty: None,
        subjects: Seq::empty(),
    }
}

pub open spec fn school_known(schools: Seq<SchoolView>, id: Seq<char>) -> bool {
    exists|i: int| 0 <= i < schools.len() && #[trigger] schools[i].id == id
}

pub open spec fn faculty_known(faculties: Seq<FacultyView>, id: Seq<char>) -> bool {
    exists|i: int| 0 <= i < faculties.len() && #[trigger] faculties[i].id == id
}

/// The faculty that a declaration row creates for the open faculty.
pub open spec fn declared_faculty(id: Seq<char>, name: Seq<char>, row: Seq<Seq<char>>) -> FacultyView {
    let subjects = subjects_in(declared_tokens(row));
    FacultyView { id, name, subjects: subject_mask(subjects), subject_order: subjects }
}

/// Reads one row; `line` is its 1-based line number.
pub open spec fn parse_step(st: ParseState, row: Seq<Seq<char>>, line: usize) -> Result<
    ParseState,
    ParseError,
> {
    match row_kind(row, st.faculty is Some) {
        RowKind::Student => match student_row(row, st.subjects, (st.faculty->0).0, line) {
            Ok(s) => Ok(ParseState { students: st.students.push(s), ..st }),
            Err(e) => Err(e),
        },
        RowKind::SubjectDeclaration => match st.faculty {
            None => Err(ParseError::DeclarationWithoutFaculty { line }),
            Some(open) => {
                let f = declared_faculty(open.0, open.1, row);
                Ok(
                    ParseState {
                        subjects: f.subject_order,
                        faculties: if faculty_known(st.faculties, open.0) {
                            st.faculties
                        } else {
                            st.faculties.push(f)
                        },
                        ..st
                    },
                )
            },
        },
        RowKind::SchoolHeader => Ok(
            if school_known(st.schools, row[0]) {
                st
            } else {
                ParseState {
                    schools: st.schools.push(
                        SchoolView { id: row[0], name: join_spaces(row.skip(1)), short_name: None },
                    ),
                    ..st
                }
            },
        ),
        RowKind::FacultyHeader => Ok(
            ParseState { faculty: Some((row[0], join_spaces(row.skip(1)))), ..st },
        ),
        RowKind::Ignored => Ok(st),
    }
}

/// Reads rows in order, stopping at the first error.
pub open spec fn parse_rows(rows: Seq<Seq<Seq<char>>>) -> Result<ParseState, ParseError>
    decreases rows.len(),
{
    if rows.len() == 0 {
        Ok(initial_state())
    } else {
        match parse_rows(rows.drop_last()) {
            Ok(st) => parse_step(st, rows.last(), rows.len() as usize),
            Err(e) => Err(e),
        }
    }
}

/// The rows of a publication's text: lines, trimmed, split on tabs.
pub open spec fn publication_rows(text: Seq<char>) -> Seq<Seq<Seq<char>>> {
    split_on(text, '\n').map_values(|l: Seq<char>| split_on(trim(l), '\t'))
}

/// The collections that a parse yields.
pub open spec fn parse_outcome(r: Result<ParseState, ParseError>) -> Result<
    (Seq<StudentView>, Seq<SchoolView>, Seq<FacultyView>),
    ParseError,
> {
    match r {
        Ok(st) => Ok((st.students, st.schools, st.faculties)),
        Err(e) => Err(e),
    }
}

pub open spec fn publication_view(
    r: Result<(Vec<StudentData>, Vec<School>, Vec<Faculty>), ParseError>,
) -> Result<(Seq<StudentView>, Seq<SchoolView>, Seq<FacultyView>), ParseError> {
    match r {
        Ok(p) => Ok((students_view(p.0@), schools_view(p.1@), faculties_view(p.2@))),
        Err(e) => Err(e),
    }
}

proof fn lemma_row_scores_fail(row: Seq<Seq<char>>, subjects: Seq<Subject>, j: int, m: int)
    requires
        0 <= j <= m,
        row_scores(row, subjects, j) is None,
    ensures
        row_scores(row, subjects, m) is None,
    decreases m - j,
{
    if j < m {
        lemma_row_scores_fail(row, subjects, j, m - 1);
    }
}

/// The grant that the trailing field of a student row names.
fn grant_from_code(t: &str) -> (r: Option<Grant>)
    ensures
        r == grant_of_code(t@),
{
    if text_eq(t, "100") {
        Some(Grant::Hundred)
    } else if text_eq(t, "70") {
        Some(Grant::Seventy)
    } else if text_eq(t, "50") {
        Some(Grant::Fifty)
    } else {
        None
    }
}

/// Reads a student row under the open faculty `faculty_id`, whose declared
/// subjects are `subjects`.
pub fn student_from_row(
    row: &Vec<String>,
    subjects: &Vec<Subject>,
    faculty_id: &String,
    line: usize,
) -> (r: Result<StudentData, ParseError>)
    ensures
        match r {
            Ok(s) => student_row(row.deep_view(), subjects@, faculty_id@, line) == Ok::<
                StudentView,
                ParseError,
            >(s@),
            Err(e) => student_row(row.deep_view(), subjects@, faculty_id@, line) == Err::<
                StudentView,
                ParseError,
            >(e),
        },
{
    let ghost rv = row.deep_view();
    let k = subjects.len();
    if row.len() < 3 || row.len() - 3 < k {
        return Err(ParseError::MissingColumn { line });
    }
    let mut scores: [Option<Score>; 9] = [None, None, None, None, None, None, None, None, None];
    assert(scores@ =~= no_scores());
    let rl = row.len();
    let mut j: usize = 0;
    while j < k
        invariant
            rl == row@.len(),
            k == subjects@.len(),
            k + 3 <= row@.len(),
            j <= k,
            rv == row.deep_view(),
            row_scores(rv, subjects@, j as int) == Some(scores@),
        decreases k - j,
    {
        assert(rv[j + 2] == row@[j + 2]@);
        let f = chars_of(row[j + 2].as_str());
        match parse_fixed(f.as_slice()) {
            Some(v) => {
                let idx = subjects[j].index();
                scores[idx] = Some(Score::Scaled(v));
            },
            None => {
                proof {
                    lemma_row_scores_fail(rv, subjects@, j + 1, k as int);
                }
                return Err(ParseError::MalformedNumber { line });
            },
        }
        j = j + 1;
    }
    assert(rv[1] == row@[1]@);
    assert(rv[k + 2] == row@[k + 2]@);
    assert(rv.last() == row@[row@.len() - 1]@);
    let grant = if row.len() == k + 3 {
        Some(Grant::Zero)
    } else {
        grant_from_code(row[row.len() - 1].as_str())
    };
    Ok(
        StudentData {
            id: row[1].clone(),
            scores,
            overall_score: row[k + 2].clone(),
            placement: None,
            faculty_id: faculty_id.clone(),
            grant,
        },
    )
}

/// The subjects that a declaration row names, in the order of the row; the
/// two trailing fields and tokens that name no subject are left out.
pub fn declared_subjects(row: &Vec<String>) -> (r: Vec<Subject>)
    ensures
        r@ == subjects_in(declared_tokens(row.deep_view())),
{
    let ghost rv = row.deep_view();
    let n: usize = if row.len() >= 2 {
        row.len() - 2
    } else {
        0
    };
    let ghost tokens = declared_tokens(rv);
    assert(tokens.len() == n);
    let mut out: Vec<Subject> = Vec::new();
    let mut i: usize = 0;
    assert(tokens.take(0) =~= Seq::<Seq<char>>::empty());
    while i < n
        invariant
            n <= row@.len(),
            i <= n,
            rv == row.deep_view(),
            tokens == declared_tokens(rv),
            tokens.len() == n,
            out@ == subjects_in(tokens.take(i as int)),
        decreases n - i,
    {
        assert(tokens.take(i + 1).drop_last() =~= tokens.take(i as int));
        assert(tokens[i as int] == rv[i as int]);
        assert(rv[i as int] == row@[i as int]@);
        match Subject::from(row[i].as_str()) {
            Some(s) => out.push(s),
            None => {},
        }
        i = i + 1;
    }
    assert(tokens.take(n as int) =~= tokens);
    out
}

/// The mask of the subjects in a list.
fn mask_of(subjects: &Vec<Subject>) -> (r: [bool; 9])
    ensures
        r@ == subject_mask(subjects@),
{
    let mut mask: [bool; 9] = [false, false, false, false, false, false, false, false, false];
    let mut j: usize = 0;
    while j < subjects.len()
        invariant
            j <= subjects@.len(),
            mask@.len() == SUBJECT_COUNT,
            forall|i: int|
                0 <= i < SUBJECT_COUNT ==> #[trigger] mask@[i] == subjects@.take(j as int).contains(
                    subject_at(i),
                ),
        decreases subjects@.len() - j,
    {
        let idx = subjects[j].index();
        mask[idx] = true;
        assert forall|i: int| 0 <= i < SUBJECT_COUNT implies #[trigger] mask@[i]
            == subjects@.take(j + 1).contains(subject_at(i)) by {
            assert(subjects@.take(j + 1) =~= subjects@.take(j as int).push(subjects@[j as int]));
            if subjects@.take(j as int).contains(subject_at(i)) {
                let w = choose|w: int| 0 <= w < j && subjects@.take(j as int)[w] == subject_at(i);
                assert(subjects@.take(j + 1)[w] == subject_at(i));
            }
            if i == idx {
                assert(subjects@.take(j + 1)[j as int] == subject_at(i));
            }
        }
        j = j + 1;
    }
    assert(subjects@.take(j as int) =~= subjects@);
    assert(mask@ =~= subject_mask(subjects@));
    mask
}

proof fn lemma_parse_error_stays(rows: Seq<Seq<Seq<char>>>, j: int, e: ParseError)
    requires
        0 <= j <= rows.len(),
        parse_rows(rows.take(j)) == Err::<ParseState, ParseError>(e),
    ensures
        parse_rows(rows) == Err::<ParseState, ParseError>(e),
    decreases rows.len() - j,
{
    if j < rows.len() {
        assert(rows.take(j + 1).drop_last() =~= rows.take(j));
        lemma_parse_error_stays(rows, j + 1, e);
    } else {
        assert(rows.take(j) =~= rows);
    }
}

pub open spec fn open_view(open: Option<(String, String)>) -> Option<(Seq<char>, Seq<char>)> {
    match open {
        Some(p) => Some((p.0@, p.1@)),
        None => None,
    }
}

pub open spec fn state_of(
    students: Seq<StudentData>,
    schools: Seq<School>,
    faculties: Seq<Faculty>,
    open: Option<(String, String)>,
    subjects: Seq<Subject>,
) -> ParseState {
    ParseState {
        students: students_view(students),
        schools: schools_view(schools),
        faculties: faculties_view(faculties),
        faculty: open_view(open),
        subjects,
    }
}

fn school_listed(schools: &Vec<School>, id: &String) -> (r: bool)
    ensures
        r == school_known(schools_view(schools@), id@),
{
    let mut i: usize = 0;
    while i < schools.len()
        invariant
            i <= schools@.len(),
            forall|j: int| 0 <= j < i ==> (#[trigger] schools@[j]).id@ != id@,
        decreases schools@.len() - i,
    {
        if schools[i].id == *id {
            assert(schools_view(schools@)[i as int].id == id@);
            return true;
        }
        i = i + 1;
    }
    assert forall|j: int| 0 <= j < schools@.len() implies #[trigger] schools_view(schools@)[j].id
        != id@ by {
        assert(schools_view(schools@)[j] == schools@[j]@);
    }
    false
}

fn faculty_listed(faculties: &Vec<Faculty>, id: &String) -> (r: bool)
    ensures
        r == faculty_known(faculties_view(faculties@), id@),
{
    let mut i: usize = 0;
    while i < faculties.len()
        invariant
            i <= faculties@.len(),
            forall|j: int| 0 <= j < i ==> (#[trigger] faculties@[j]).id@ != id@,
        decreases faculties@.len() - i,
    {
        if faculties[i].id == *id {
            assert(faculties_view(faculties@)[i as int].id == id@);
            return true;
        }
        i = i + 1;
    }
    assert forall|j: int| 0 <= j < faculties@.len() implies #[trigger] faculties_view(
        faculties@,
    )[j].id != id@ by {
        assert(faculties_view(faculties@)[j] == faculties@[j]@);
    }
    false
}

/// The fields after the first, joined with single spaces.
fn name_after_first(row: &Vec<String>) -> (r: String)
    requires
        row@.len() >= 1,
    ensures
        r@ == join_spaces(row.deep_view().skip(1)),
{
    let rest = &row.as_slice()[1..row.len()];
    assert(rest@.map_values(|f: String| f@) =~= row.deep_view().skip(1));
    join_with_spaces(rest)
}

/// Reads the rows of a publication in order: students in row order, schools
/// and faculties in order of first appearance.
pub fn parse_publication_rows(rows: &Vec<Vec<String>>) -> (r: Result<
    (Vec<StudentData>, Vec<School>, Vec<Faculty>),
    ParseError,
>)
    ensures
        publication_view(r) == parse_outcome(parse_rows(rows.deep_view())),
{
    let ghost rvs = rows.deep_view();
    let mut students: Vec<StudentData> = Vec::new();
    let mut schools: Vec<School> = Vec::new();
    let mut faculties: Vec<Faculty> = Vec::new();
    let mut open: Option<(String, String)> = None;
    let mut subjects: Vec<Subject> = Vec::new();
    let n = rows.len();
    let mut i: usize = 0;
    assert(rvs.take(0) =~= Seq::<Seq<Seq<char>>>::empty());
    assert(students_view(students@) =~= Seq::<StudentView>::empty());
    assert(schools_view(schools@) =~= Seq::<SchoolView>::empty());
    assert(faculties_view(faculties@) =~= Seq::<FacultyView>::empty());
    while i < rows.len()
        invariant
            i <= rows@.len(),
            n == rows@.len(),
            rvs == rows.deep_view(),
            parse_rows(rvs.take(i as int)) == Ok::<ParseState, ParseError>(
                state_of(students@, schools@, faculties@, open, subjects@),
            ),
        decreases rows@.len() - i,
    {
        let ghost st = state_of(students@, schools@, faculties@, open, subjects@);
        let row = &rows[i];
        let line = i + 1;
        assert(rvs.take(i + 1).drop_last() =~= rvs.take(i as int));
        assert(rvs.take(i + 1).last() == row.deep_view());
        assert(parse_rows(rvs.take(i + 1)) == parse_step(st, row.deep_view(), line));
        let kind = classify_row(row, open.is_some());
        match kind {
            RowKind::Student => {
                if let Some(p) = &open {
                    match student_from_row(row, &subjects, &p.0, line) {
                        Ok(s) => {
                            students.push(s);
                            assert(students_view(students@) =~= st.students.push(s@));
                        },
                        Err(e) => {
                            proof {
                                lemma_parse_error_stays(rvs, i + 1, e);
                            }
                            return Err(e);
                        },
                    }
                }
            },
            RowKind::SubjectDeclaration => {
                match &open {
                    None => {
                        proof {
                            lemma_parse_error_stays(
                                rvs,
                                i + 1,
                                ParseError::DeclarationWithoutFaculty { line },
                            );
                        }
                        return Err(ParseError::DeclarationWithoutFaculty { line });
                    },
                    Some(p) => {
                        let listed = faculty_listed(&faculties, &p.0);
                        if !listed {
                            let order = declared_subjects(row);
                            let mask = mask_of(&order);
                            let f = Faculty {
                                id: p.0.clone(),
                                name: p.1.clone(),
                                subjects: mask,
                                subject_order: order,
                            };
                            faculties.push(f);
                            assert(faculties_view(faculties@) =~= st.faculties.push(f@));
                        }
                        subjects = declared_subjects(row);
                    },
                }
            },
            RowKind::SchoolHeader => {
                let listed = school_listed(&schools, &row[0]);
                if !listed {
                    let school = School {
                        id: row[0].clone(),
                        name: name_after_first(row),
                        short_name: None,
                    };
                    schools.push(school);
                    assert(schools_view(schools@) =~= st.schools.push(school@));
                }
            },
            RowKind::FacultyHeader => {
                open = Some((row[0].clone(), name_after_first(row)));
            },
            RowKind::Ignored => {},
        }
        i = i + 1;
    }
    assert(rvs.take(i as int) =~= rvs);
    Ok((students, schools, faculties))
}

/// Reads a publication from its text: lines split on newlines, trimmed, and
/// split on tabs, then read as `parse_publication_rows` does.
pub fn read_publication_tsv(contents: &str) -> (r: Result<
    (Vec<StudentData>, Vec<School>, Vec<Faculty>),
    ParseError,
>)
    ensures
        publication_view(r) == parse_outcome(parse_rows(publication_rows(contents@))),
{
    let text = chars_of(contents);
    let lines = split_range(text.as_slice(), 0, text.len(), '\n');
    assert(text@.subrange(0, text@.len() as int) =~= text@);
    let mut rows: Vec<Vec<String>> = Vec::new();
    let mut i: usize = 0;
    while i < lines.len()
        invariant
            i <= lines@.len(),
            lines.deep_view() == split_on(contents@, '\n'),
            rows.deep_view() =~= publication_rows(contents@).take(i as int),
        decreases lines@.len() - i,
    {
        assert(lines.deep_view()[i as int] == lines@[i as int]@);
        let line = chars_of(lines[i].as_str());
        let (a, b) = trimmed_range(line.as_slice(), 0, line.len());
        assert(line@.subrange(0, line@.len() as int) =~= line@);
        let row = split_range(line.as_slice(), a, b, '\t');
        assert(line@ == split_on(contents@, '\n')[i as int]);
        assert(row.deep_view() == publication_rows(contents@)[i as int]);
        let ghost old_rows = rows@;
        let ghost old_dv = rows.deep_view();
        assert(old_dv == old_rows.map(|_j, x: Vec<String>| x.deep_view()));
        assert(publication_rows(contents@).take(i + 1) =~= old_dv.push(
            publication_rows(contents@)[i as int],
        ));
        let ghost row_view = row.deep_view();
        rows.push(row);
        assert(rows@.len() == old_rows.len() + 1);
        assert(rows@.last().deep_view() == row_view);
        assert(rows.deep_view() =~= old_rows.map(|_j, x: Vec<String>| x.deep_view()).push(row_view));
        assert(rows.deep_view() =~= publication_rows(contents@).take(i + 1));
        i = i + 1;
    }
    assert(publication_rows(contents@).take(i as int) =~= publication_rows(contents@));
    parse_publication_rows(&rows)
}

} // verus!
