//! The records that a publication is read into.
use vstd::prelude::*;

use crate::subject::{subject_at, Subject, SUBJECT_COUNT};
use crate::format::{exact_places, exact_places_of, fixed_text, format_fixed};
use crate::text::string_from_literal;

verus! {

/// A score on the scaled axis only.
#[derive(Debug, Clone, Copy, PartialEq, Eq, Structural)]
pub struct ScaledScore {
    pub scaled: i64,
}

/// A score on both axes.
#[derive(Debug, Clone, Copy, PartialEq, Eq, Structural)]
pub struct EqualizedScore {
    pub equalized: i64,
    pub scaled: i64,
}

/// A subject score, in fixed-point units (see `SCORE_SCALE`).
#[derive(Debug, Clone, Copy, PartialEq, Eq, Structural)]
pub enum Score {
    Scaled(i64),
    Equalized(i64),
    EqualizedAndScaled { scaled: i64, equalized: i64 },
}

/// The scaled component of a score, where it has one.
pub open spec fn scaled_part(s: Score) -> Option<i64> {
    match s {
        Score::Scaled(v) => Some(v),
        Score::EqualizedAndScaled { scaled, .. } => Some(scaled),
        Score::Equalized(_) => None,
    }
}

/// A score as text: values with two fraction digits; a normalized score as
/// `equalized-scaled`, the scaled value with no more digits than it needs.
pub open spec fn score_text(s: Score) -> Seq<char> {
    match s {
        Score::Scaled(v) => fixed_text(v as int, 2),
        Score::Equalized(v) => fixed_text(v as int, 2),
        Score::EqualizedAndScaled { scaled, equalized } => fixed_text(equalized as int, 2) + "-"@
            + fixed_text(scaled as int, exact_places(scaled as int)),
    }
}

/// A score as a LaTeX table cell, one fraction digit; scaled values in
/// small gray type.
pub open spec fn score_latex(s: Score) -> Seq<char> {
    match s {
        Score::Scaled(v) => "{\\color{gray}\\scriptsize"@ + fixed_text(v as int, 1) + "}"@,
        Score::Equalized(v) => fixed_text(v as int, 1),
        Score::EqualizedAndScaled { scaled, equalized } => fixed_text(equalized as int, 1)
            + "{\\color{gray}\\scriptsize("@ + fixed_text(scaled as int, 1) + ")}"@,
    }
}

impl Score {
    /// The score as text.
    pub fn to_string(&self) -> (r: String)
        ensures
            r@ == score_text(*self),
    {
        match *self {
            Score::Scaled(v) => format_fixed(v, 2),
            Score::Equalized(v) => format_fixed(v, 2),
            Score::EqualizedAndScaled { scaled, equalized } => {
                let mut out = format_fixed(equalized, 2);
                out.append("-");
                let tail = format_fixed(scaled, exact_places_of(scaled));
                out.append(tail.as_str());
                out
            },
        }
    }

    /// The score as a LaTeX table cell.
    pub fn to_latex(&self) -> (r: String)
        ensures
            r@ == score_latex(*self),
    {
        match *self {
            Score::Scaled(v) => {
                let mut out = string_from_literal("{\\color{gray}\\scriptsize");
                let body = format_fixed(v, 1);
                out.append(body.as_str());
                out.append("}");
                out
            },
            Score::Equalized(v) => format_fixed(v, 1),
            Score::EqualizedAndScaled { scaled, equalized } => {
                let mut out = format_fixed(equalized, 1);
                out.append("{\\color{gray}\\scriptsize(");
                let body = format_fixed(scaled, 1);
                out.append(body.as_str());
                out.append(")}");
                out
            },
        }
    }
}

/// The tuition grant that a student was awarded.
#[derive(Debug, Clone, Copy, PartialEq, Eq, Structural)]
pub enum Grant {
    Zero,
    Fifty,
    Seventy,
    Hundred,
}

pub open spec fn grant_text(g: Grant) -> Seq<char> {
    match g {
        Grant::Zero => "0"@,
        Grant::Fifty => "50"@,
        Grant::Seventy => "70"@,
        Grant::Hundred => "100"@,
    }
}

impl Grant {
    /// The grant's percentage as text.
    pub fn to_string(&self) -> (r: String)
        ensures
            r@ == grant_text(*self),
    {
        match self {
            Grant::Zero => string_from_literal("0"),
            Grant::Fifty => string_from_literal("50"),
            Grant::Seventy => string_from_literal("70"),
            Grant::Hundred => string_from_literal("100"),
        }
    }
}

/// A faculty: its code, its name, and the subjects its competition uses.
#[derive(Debug, Clone)]
pub struct Faculty {
    pub id: String,
    pub name: String,
    /// Which subjects, by canonical position, the competition uses.
    pub subjects: [bool; 9],
    /// The subjects in the order of the faculty's declaration row.
    pub subject_order: Vec<Subject>,
}

pub ghost struct FacultyView {
    pub id: Seq<char>,
    pub name: Seq<char>,
    pub subjects: Seq<bool>,
    pub subject_order: Seq<Subject>,
}

impl View for Faculty {
    type V = FacultyView;

    open spec fn view(&self) -> FacultyView {
        FacultyView {
            id: self.id@,
            name: self.name@,
            subjects: self.subjects@,
            subject_order: self.subject_order@,
        }
    }
}

/// The subjects that a mask marks, in reverse canonical order.
pub open spec fn marked_reversed(mask: Seq<bool>, n: int) -> Seq<Subject>
    decreases n,
{
    if n <= 0 {
        Seq::empty()
    } else if mask[n - 1] {
        seq![subject_at(n - 1)] + marked_reversed(mask, n - 1)
    } else {
        marked_reversed(mask, n - 1)
    }
}

impl Faculty {
    /// The faculty's subjects as shown in reports: the marked subjects in
    /// reverse canonical order.
    pub fn display_subjects(&self) -> (r: Vec<Subject>)
        ensures
            r@ == marked_reversed(self.subjects@, SUBJECT_COUNT as int),
    {
        let mut out: Vec<Subject> = Vec::new();
        let mut i: usize = SUBJECT_COUNT;
        while i > 0
            invariant
                i <= SUBJECT_COUNT,
                self.subjects@.len() == SUBJECT_COUNT,
                out@ + marked_reversed(self.subjects@, i as int) == marked_reversed(
                    self.subjects@,
                    SUBJECT_COUNT as int,
                ),
            decreases i,
        {
            if self.subjects[i - 1] {
                let s = Subject::at(i - 1);
                out.push(s);
                assert(out@ + marked_reversed(self.subjects@, i - 1) =~= out@.drop_last() + (
                seq![s] + marked_reversed(self.subjects@, i - 1)));
            }
            i = i - 1;
        }
        assert(out@ + marked_reversed(self.subjects@, 0) =~= out@);
        out
    }
}

/// A school: its three-character code, its name and an optional short name.
#[derive(Debug, Clone)]
pub struct School {
    pub id: String,
    pub name: String,
    pub short_name: Option<String>,
}

pub ghost struct SchoolView {
    pub id: Seq<char>,
    pub name: Seq<char>,
    pub short_name: Option<Seq<char>>,
}

impl View for School {
    type V = SchoolView;

    open spec fn view(&self) -> SchoolView {
        SchoolView {
            id: self.id@,
            name: self.name@,
            short_name: match self.short_name {
                Some(n) => Some(n@),
                None => None,
            },
        }
    }
}

/// The short name that the last pair with this school id gives, if any.
pub open spec fn short_name_for(names: Seq<(Seq<char>, Seq<char>)>, id: Seq<char>) -> Option<Seq<char>>
    decreases names.len(),
{
    if names.len() == 0 {
        None
    } else if names.last().0 == id {
        Some(names.last().1)
    } else {
        short_name_for(names.drop_last(), id)
    }
}

pub open spec fn pairs_view(v: Seq<(String, String)>) -> Seq<(Seq<char>, Seq<char>)> {
    v.map_values(|p: (String, String)| (p.0@, p.1@))
}

/// The school with the short name that the pairs give it, or unchanged.
pub open spec fn with_short_name(s: SchoolView, names: Seq<(Seq<char>, Seq<char>)>) -> SchoolView {
    match short_name_for(names, s.id) {
        Some(n) => SchoolView { short_name: Some(n), ..s },
        None => s,
    }
}

fn short_name_lookup(names: &Vec<(String, String)>, id: &String) -> (r: Option<String>)
    ensures
        match r {
            Some(n) => short_name_for(pairs_view(names@), id@) == Some(n@),
            None => short_name_for(pairs_view(names@), id@) is None,
        },
{
    let ghost nv = pairs_view(names@);
    let mut j: usize = names.len();
    assert(nv.take(j as int) =~= nv);
    while j > 0
        invariant
            j <= names@.len(),
            nv == pairs_view(names@),
            short_name_for(nv, id@) == short_name_for(nv.take(j as int), id@),
        decreases j,
    {
        let ghost t = nv.take(j as int);
        assert(t.drop_last() =~= nv.take(j - 1));
        assert(t.last() == (names@[j - 1].0@, names@[j - 1].1@));
        if names[j - 1].0 == *id {
            return Some(names[j - 1].1.clone());
        }
        j = j - 1;
    }
    None
}

/// Gives each school the short name that the last `(school_id, short_name)`
/// pair with its id names; schools without such a pair are unchanged.
pub fn apply_short_names(schools: Vec<School>, names: &Vec<(String, String)>) -> (r: Vec<School>)
    ensures
        r@.len() == schools@.len(),
        forall|k: int|
            0 <= k < r@.len() ==> (#[trigger] r@[k])@ == with_short_name(schools@[k]@, pairs_view(names@)),
{
    let mut out: Vec<School> = Vec::new();
    let mut k: usize = 0;
    while k < schools.len()
        invariant
            k <= schools@.len(),
            out@.len() == k,
            forall|m: int|
                0 <= m < k ==> (#[trigger] out@[m])@ == with_short_name(schools@[m]@, pairs_view(names@)),
        decreases schools@.len() - k,
    {
        let s = &schools[k];
        let short_name = match short_name_lookup(names, &s.id) {
            Some(n) => Some(n),
            None => match &s.short_name {
                Some(old) => Some(old.clone()),
                None => None,
            },
        };
        let school = School { id: s.id.clone(), name: s.name.clone(), short_name };
        out.push(school);
        k = k + 1;
    }
    out
}

/// One student's published results.
#[derive(Debug, Clone)]
pub struct StudentData {
    /// The exam number.
    pub id: String,
    /// The score of each subject, by canonical position.
    pub scores: [Option<Score>; 9],
    /// The overall competition score, as published.
    pub overall_score: String,
    /// The 1-based rank, once ranked.
    pub placement: Option<usize>,
    pub faculty_id: String,
    pub grant: Option<Grant>,
}

pub ghost struct StudentView {
    pub id: Seq<char>,
    pub scores: Seq<Option<Score>>,
    pub overall_score: Seq<char>,
    pub placement: Option<usize>,
    pub faculty_id: Seq<char>,
    pub grant: Option<Grant>,
}

impl View for StudentData {
    type V = StudentView;

    open spec fn view(&self) -> StudentView {
        StudentView {
            id: self.id@,
            scores: self.scores@,
            overall_score: self.overall_score@,
            placement: self.placement,
            faculty_id: self.faculty_id@,
            grant: self.grant,
        }
    }
}

pub open spec fn students_view(v: Seq<StudentData>) -> Seq<StudentView> {
    v.map_values(|s: StudentData| s@)
}

pub open spec fn schools_view(v: Seq<School>) -> Seq<SchoolView> {
    v.map_values(|s: School| s@)
}

pub open spec fn faculties_view(v: Seq<Faculty>) -> Seq<FacultyView> {
    v.map_values(|f: Faculty| f@)
}

impl StudentData {
    /// A copy of the student with other scores and placement.
    pub fn with_scores(&self, scores: [Option<Score>; 9], placement: Option<usize>) -> (r:
        StudentData)
        ensures
            r@ == (StudentView { scores: scores@, placement, ..self@ }),
    {
        StudentData {
            id: self.id.clone(),
            scores,
            overall_score: self.overall_score.clone(),
            placement,
            faculty_id: self.faculty_id.clone(),
            grant: self.grant,
        }
    }
}

/// What calibration says of one subject: bounds and anchors on the
/// equalized axis.
#[derive(Debug, Clone)]
pub struct SubjectStats {
    pub min: Option<Score>,
    pub max: Option<Score>,
    /// Anchor points, each `EqualizedAndScaled`, in file order.
    pub anchors: Vec<Score>,
}

pub ghost struct StatsView {
    pub min: Option<Score>,
    pub max: Option<Score>,
    pub anchors: Seq<Score>,
}

impl View for SubjectStats {
    type V = StatsView;

    open spec fn view(&self) -> StatsView {
        StatsView { min: self.min, max: self.max, anchors: self.anchors@ }
    }
}

pub open spec fn stats_view(v: Seq<Option<SubjectStats>>) -> Seq<Option<StatsView>> {
    v.map_values(
        |o: Option<SubjectStats>|
            match o {
                Some(st) => Some(st@),
                None => None,
            },
    )
}

} // verus!
