//! Student rows of the ranked-list format: placement, a brace-enclosed list
//! of `subject:score` pairs, exam number, faculty code, school and faculty
//! names.
use vstd::prelude::*;

use crate::decimal::{all_digits, decimal_fixed, digits_capped, digits_only, digits_value, parse_fixed};
use crate::publication::no_scores;
use crate::records::{
    Faculty, FacultyView, School, SchoolView, Score, StudentData, StudentView,
};
use crate::subject::{subject_at, subject_index, subject_named, Subject, SUBJECT_COUNT};
use crate::text::{chars_of, split_on, split_range, string_from_chars};

verus! {

/// Why a ranked-list row could not be read.
#[derive(Debug, Clone, Copy, PartialEq, Eq, Structural)]
pub enum StudentRecordError {
    /// The row has fewer than seven fields.
    MissingField,
    /// The score list is not `{name:value;...}`.
    MalformedScoreList,
    /// A subject's score is not a number that a score can hold.
    MalformedNumber,
    /// The placement is not a whole number that fits in `usize`.
    MalformedPlacement,
    /// The faculty code is shorter than a school code.
    ShortFacultyId,
}

/// The name under which the overall competition score is listed.
pub open spec fn overall_label() -> Seq<char> {
    "საკონკურსო"@
}

/// The `name:value` pairs of a brace-enclosed list.
pub open spec fn score_pairs(t: Seq<char>) -> Option<Seq<(Seq<char>, Seq<char>)>> {
    if t.len() >= 2 && t[0] == '{' && t.last() == '}' {
        let items = split_on(t.subrange(1, t.len() - 1), ';');
        if forall|i: int| 0 <= i < items.len() ==> #[trigger] split_on(items[i], ':').len() == 2 {
            Some(items.map_values(|it: Seq<char>| (split_on(it, ':')[0], split_on(it, ':')[1])))
        } else {
            None
        }
    } else {
        None
    }
}

/// Scores and overall score from the first `n` pairs; a later pair of the
/// same name overrides an earlier one.
pub open spec fn pair_scores(pairs: Seq<(Seq<char>, Seq<char>)>, n: int) -> Option<
    (Seq<Option<Score>>, Seq<char>),
>
    decreases n,
{
    if n <= 0 {
        Some((no_scores(), Seq::empty()))
    } else {
        match pair_scores(pairs, n - 1) {
            None => None,
            Some(prev) => {
                let name = pairs[n - 1].0;
                let value = pairs[n - 1].1;
                let overall = if name == overall_label() {
                    value
                } else {
                    prev.1
                };
                match subject_named(name) {
                    Some(s) => match decimal_fixed(value) {
                        Some(v) => Some(
                            (prev.0.update(subject_index(s) as int, Some(Score::Scaled(v as i64))), overall),
                        ),
                        None => None,
                    },
                    None => Some((prev.0, overall)),
                }
            },
        }
    }
}

/// A placement: an optional `+` and digits, at most `usize::MAX`.
pub open spec fn placement_value(t: Seq<char>) -> Option<int> {
    let u = if t.len() > 0 && t[0] == '+' {
        t.skip(1)
    } else {
        t
    };
    if u.len() >= 1 && all_digits(u) && digits_value(u) <= usize::MAX {
        Some(digits_value(u))
    } else {
        None
    }
}

pub open spec fn sat_mask(scores: Seq<Option<Score>>) -> Seq<bool> {
    Seq::new(SUBJECT_COUNT as nat, |i: int| scores[i] is Some)
}

/// The subjects that a mask marks, in canonical order.
pub open spec fn marked(mask: Seq<bool>, n: int) -> Seq<Subject>
    decreases n,
{
    if n <= 0 {
        Seq::empty()
    } else if mask[n - 1] {
        marked(mask, n - 1).push(subject_at(n - 1))
    } else {
        marked(mask, n - 1)
    }
}

/// The student, school and faculty that a ranked-list row describes.
pub open spec fn student_record(row: Seq<Seq<char>>) -> Result<
    (StudentView, SchoolView, FacultyView),
    StudentRecordError,
> {
    if row.len() < 7 {
        Err(StudentRecordError::MissingField)
    } else {
        match score_pairs(row[1]) {
            None => Err(StudentRecordError::MalformedScoreList),
            Some(pairs) => match pair_scores(pairs, pairs.len() as int) {
                None => Err(StudentRecordError::MalformedNumber),
                Some(sc) => match placement_value(row[0]) {
                    None => Err(StudentRecordError::MalformedPlacement),
                    Some(p) => if row[4].len() < 3 {
                        Err(StudentRecordError::ShortFacultyId)
                    } else {
                        let mask = sat_mask(sc.0);
                        Ok(
                            (
                                StudentView {
                                    id: row[3],
                                    scores: sc.0,
                                    overall_score: sc.1,
                                    placement: Some(p as usize),
                                    faculty_id: row[4],
                                    grant: None,
                                },
                                SchoolView { id: row[4].take(3), name: row[5], short_name: None },
                                FacultyView {
                                    id: row[4],
                                    name: row[5] + row[6],
                                    subjects: mask,
                                    subject_order: marked(mask, SUBJECT_COUNT as int),
                                },
                            ),
                        )
                    },
                },
            },
        }
    }
}

/// The `name:value` pairs of a brace-enclosed list.
fn pairs_of(list: &String) -> (r: Option<Vec<(String, String)>>)
    ensures
        match r {
            Some(v) => score_pairs(list@) == Some(
                v@.map_values(|p: (String, String)| (p.0@, p.1@)),
            ),
            None => score_pairs(list@) is None,
        },
{
    let t = chars_of(list.as_str());
    let n = t.len();
    if n < 2 || t[0] != '{' || t[n - 1] != '}' {
        return None;
    }
    let items = split_range(t.as_slice(), 1, n - 1, ';');
    let ghost iv = items.deep_view();
    let mut pairs: Vec<(String, String)> = Vec::new();
    let mut i: usize = 0;
    while i < items.len()
        invariant
            i <= items@.len(),
            iv == items.deep_view(),
            iv == split_on(list@.subrange(1, list@.len() - 1), ';'),
            n == list@.len(),
            pairs@.len() == i,
            forall|j: int| 0 <= j < i ==> #[trigger] split_on(iv[j], ':').len() == 2,
            forall|j: int|
                0 <= j < i ==> (#[trigger] pairs@[j]).0@ == split_on(iv[j], ':')[0] && pairs@[j].1@
                    == split_on(iv[j], ':')[1],
        decreases items@.len() - i,
    {
        assert(iv[i as int] == items@[i as int]@);
        let c = chars_of(items[i].as_str());
        let parts = split_range(c.as_slice(), 0, c.len(), ':');
        assert(c@.subrange(0, c@.len() as int) =~= c@);
        if parts.len() != 2 {
            assert(!(split_on(iv[i as int], ':').len() == 2));
            return None;
        }
        assert(parts.deep_view()[0] == parts@[0]@);
        assert(parts.deep_view()[1] == parts@[1]@);
        let name = parts[0].clone();
        let value = parts[1].clone();
        pairs.push((name, value));
        i = i + 1;
    }
    assert(pairs@.map_values(|p: (String, String)| (p.0@, p.1@)) =~= iv.map_values(
        |it: Seq<char>| (split_on(it, ':')[0], split_on(it, ':')[1]),
    ));
    Some(pairs)
}

/// Reads one row of the ranked-list format.
pub fn parse_student(data: Vec<String>) -> (r: Result<(StudentData, School, Faculty), StudentRecordError>)
    ensures
        match r {
            Ok(t) => student_record(data.deep_view()) == Ok::<
                (StudentView, SchoolView, FacultyView),
                StudentRecordError,
            >((t.0@, t.1@, t.2@)),
            Err(e) => student_record(data.deep_view()) == Err::<
                (StudentView, SchoolView, FacultyView),
                StudentRecordError,
            >(e),
        },
{
    let ghost dv = data.deep_view();
    if data.len() < 7 {
        return Err(StudentRecordError::MissingField);
    }
    assert(dv[0] == data@[0]@ && dv[1] == data@[1]@ && dv[3] == data@[3]@);
    assert(dv[4] == data@[4]@ && dv[5] == data@[5]@ && dv[6] == data@[6]@);
    let pairs = match pairs_of(&data[1]) {
        Some(p) => p,
        None => {
            return Err(StudentRecordError::MalformedScoreList);
        },
    };
    let ghost pv = pairs@.map_values(|p: (String, String)| (p.0@, p.1@));
    assert(score_pairs(dv[1]) == Some(pv));
    let label = "საკონკურსო";
    let mut scores: [Option<Score>; 9] = [None, None, None, None, None, None, None, None, None];
    let mut overall = String::new();
    assert(scores@ =~= no_scores());
    let mut k: usize = 0;
    while k < pairs.len()
        invariant
            k <= pairs@.len(),
            pv == pairs@.map_values(|p: (String, String)| (p.0@, p.1@)),
            label@ == overall_label(),
            pair_scores(pv, k as int) == Some((scores@, overall@)),
            dv == data.deep_view(),
            dv.len() >= 7,
            score_pairs(dv[1]) == Some(pv),
        decreases pairs@.len() - k,
    {
        assert(pv[k as int] == (pairs@[k as int].0@, pairs@[k as int].1@));
        let name = pairs[k].0.as_str();
        let value = pairs[k].1.as_str();
        if crate::text::text_eq(name, label) {
            overall = pairs[k].1.clone();
        }
        match Subject::from(name) {
            Some(s) => {
                let c = chars_of(value);
                match parse_fixed(c.as_slice()) {
                    Some(v) => {
                        scores[s.index()] = Some(Score::Scaled(v));
                    },
                    None => {
                        proof {
                            lemma_pair_scores_fail(pv, k as int + 1, pv.len() as int);
                        }
                        return Err(StudentRecordError::MalformedNumber);
                    },
                }
            },
            None => {},
        }
        k = k + 1;
    }
    assert(pv.len() == pairs@.len());
    let p = chars_of(data[0].as_str());
    let from: usize = if p.len() > 0 && p[0] == '+' {
        1
    } else {
        0
    };
    assert(p@.subrange(from as int, p@.len() as int) =~= if p@.len() > 0 && p@[0] == '+' {
        p@.skip(1)
    } else {
        p@
    });
    if from >= p.len() || !digits_only(p.as_slice(), from, p.len()) {
        return Err(StudentRecordError::MalformedPlacement);
    }
    let placement = match digits_capped(p.as_slice(), from, p.len(), usize::MAX as u128) {
        Some(v) => v,
        None => {
            return Err(StudentRecordError::MalformedPlacement);
        },
    };
    let f = chars_of(data[4].as_str());
    if f.len() < 3 {
        return Err(StudentRecordError::ShortFacultyId);
    }
    let school_id = string_from_chars(&f.as_slice()[0..3]);
    assert(f@.subrange(0, 3) =~= f@.take(3));
    let mut mask: [bool; 9] = [false, false, false, false, false, false, false, false, false];
    let mut order: Vec<Subject> = Vec::new();
    let mut i: usize = 0;
    while i < SUBJECT_COUNT
        invariant
            i <= SUBJECT_COUNT,
            forall|j: int| 0 <= j < i ==> #[trigger] mask@[j] == (scores@[j] is Some),
            forall|j: int| i <= j < SUBJECT_COUNT ==> !#[trigger] mask@[j],
            order@ == marked(mask@, i as int),
        decreases SUBJECT_COUNT - i,
    {
        let ghost before = mask@;
        if scores[i].is_some() {
            mask[i] = true;
            order.push(Subject::at(i));
        }
        assert(marked(before, i as int) == marked(mask@, i as int)) by {
            lemma_marked_prefix(before, mask@, i as int);
        }
        i = i + 1;
    }
    assert(mask@ =~= sat_mask(scores@));
    let mut name = data[5].clone();
    name.append(data[6].as_str());
    let student = StudentData {
        id: data[3].clone(),
        scores,
        overall_score: overall,
        placement: Some(placement as usize),
        faculty_id: data[4].clone(),
        grant: None,
    };
    let school = School { id: school_id, name: data[5].clone(), short_name: None };
    let faculty = Faculty { id: data[4].clone(), name, subjects: mask, subject_order: order };
    Ok((student, school, faculty))
}

proof fn lemma_marked_prefix(a: Seq<bool>, b: Seq<bool>, n: int)
    requires
        forall|j: int| 0 <= j < n ==> a[j] == b[j],
    ensures
        marked(a, n) == marked(b, n),
    decreases n,
{
    if n > 0 {
        lemma_marked_prefix(a, b, n - 1);
    }
}

proof fn lemma_pair_scores_fail(pairs: Seq<(Seq<char>, Seq<char>)>, j: int, n: int)
    requires
        0 <= j <= n,
        pair_scores(pairs, j) is None,
    ensures
        pair_scores(pairs, n) is None,
    decreases n - j,
{
    if j < n {
        lemma_pair_scores_fail(pairs, j, n - 1);
    }
}

} // verus!
