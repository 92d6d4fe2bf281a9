//! Ranking students by overall score, and grouping them by faculty.
use vstd::prelude::*;

use crate::decimal::{decimal_fixed, parse_fixed, SCORE_LIMIT};
use crate::records::{students_view, StudentData, StudentView};
use crate::text::chars_of;

verus! {

/// Why students could not be ranked.
#[derive(Debug, Clone, Copy, PartialEq, Eq, Structural)]
pub enum RankError {
    /// The overall score of the student at this input position is not a
    /// number that a score can hold.
    MalformedOverallScore { index: usize },
}

/// The overall score of a student as a fixed-point number.
pub open spec fn overall_value(st: StudentView) -> Option<int> {
    decimal_fixed(st.overall_score)
}

/// The first student whose overall score cannot be read.
pub open spec fn first_unreadable(students: Seq<StudentView>) -> Option<int>
    decreases students.len(),
{
    if students.len() == 0 {
        None
    } else {
        match first_unreadable(students.drop_last()) {
            Some(k) => Some(k),
            None => if overall_value(students.last()) is None {
                Some(students.len() - 1)
            } else {
                None
            },
        }
    }
}

/// `order` lists positions of `students` without repetition, by overall
/// score from highest to lowest, equal scores in input order.
pub open spec fn stable_descending(students: Seq<StudentView>, order: Seq<int>) -> bool {
    &&& forall|a: int| 0 <= a < order.len() ==> 0 <= #[trigger] order[a] < students.len()
    &&& forall|a: int, b: int|
        0 <= a < b < order.len() ==> #[trigger] order[a] != #[trigger] order[b]
    &&& forall|a: int, b: int|
        0 <= a < b < order.len() ==> {
            let x = overall_value(students[#[trigger] order[a]])->0;
            let y = overall_value(students[#[trigger] order[b]])->0;
            x > y || (x == y && order[a] < order[b])
        }
}

/// `output` is `students` in stable descending order of overall score,
/// each with its 1-based placement.
pub open spec fn ranked(students: Seq<StudentView>, output: Seq<StudentView>) -> bool {
    exists|order: Seq<int>|
        {
            &&& order.len() == students.len()
            &&& output.len() == students.len()
            &&& stable_descending(students, order)
            &&& forall|k: int|
                0 <= k < output.len() ==> #[trigger] output[k] == (StudentView {
                    placement: Some((k + 1) as usize),
                    ..students[order[k]]
                })
        }
}

proof fn lemma_unreadable_stays(students: Seq<StudentView>, j: int)
    requires
        0 <= j <= students.len(),
        first_unreadable(students.take(j)) is Some,
    ensures
        first_unreadable(students) == first_unreadable(students.take(j)),
    decreases students.len() - j,
{
    if j < students.len() {
        assert(students.take(j + 1).drop_last() =~= students.take(j));
        lemma_unreadable_stays(students, j + 1);
    } else {
        assert(students.take(j) =~= students);
    }
}

proof fn lemma_unreadable_none(students: Seq<StudentView>)
    ensures
        first_unreadable(students) is None <==> forall|k: int|
            0 <= k < students.len() ==> overall_value(#[trigger] students[k]) is Some,
    decreases students.len(),
{
    if students.len() > 0 {
        let t = students.drop_last();
        lemma_unreadable_none(t);
        if first_unreadable(t) is Some {
            let k = choose|k: int| 0 <= k < t.len() && overall_value(#[trigger] t[k]) is None;
            assert(students[k] == t[k]);
        } else {
            assert forall|k: int| 0 <= k < t.len() implies overall_value(#[trigger] students[k]) is Some by {
                assert(students[k] == t[k]);
            }
        }
    }
}

/// The overall score of every student, or the first that cannot be read.
fn overall_keys(students: &Vec<StudentData>) -> (r: Result<Vec<i64>, RankError>)
    ensures
        match r {
            Ok(keys) => keys@.len() == students@.len() && forall|k: int|
                0 <= k < keys@.len() ==> overall_value(students@[k]@) == Some(
                    #[trigger] keys@[k] as int,
                ),
            Err(e) => first_unreadable(students_view(students@)) matches Some(k) && e
                == RankError::MalformedOverallScore { index: k as usize },
        },
{
    let ghost sv = students_view(students@);
    let mut keys: Vec<i64> = Vec::new();
    let mut k: usize = 0;
    assert(sv.take(0) =~= Seq::<StudentView>::empty());
    while k < students.len()
        invariant
            k <= students@.len(),
            sv == students_view(students@),
            keys@.len() == k,
            first_unreadable(sv.take(k as int)) is None,
            forall|m: int|
                0 <= m < k ==> overall_value(students@[m]@) == Some(#[trigger] keys@[m] as int),
        decreases students@.len() - k,
    {
        assert(sv.take(k + 1).drop_last() =~= sv.take(k as int));
        assert(sv.take(k + 1).last() == students@[k as int]@);
        let text = chars_of(students[k].overall_score.as_str());
        match parse_fixed(text.as_slice()) {
            Some(v) => {
                keys.push(v);
            },
            None => {
                proof {
                    lemma_unreadable_stays(sv, k + 1);
                }
                return Err(RankError::MalformedOverallScore { index: k });
            },
        }
        k = k + 1;
    }
    Ok(keys)
}

/// Positions `0..n` in stable descending order of their keys.
fn stable_order(keys: &Vec<i64>) -> (r: Vec<usize>)
    ensures
        r@.len() == keys@.len(),
        forall|a: int| 0 <= a < r@.len() ==> #[trigger] r@[a] < keys@.len(),
        forall|a: int, b: int| 0 <= a < b < r@.len() ==> #[trigger] r@[a] != #[trigger] r@[b],
        forall|a: int, b: int|
            0 <= a < b < r@.len() ==> keys@[#[trigger] r@[a] as int] > keys@[#[trigger] r@[b] as int]
                || (keys@[r@[a] as int] == keys@[r@[b] as int] && r@[a] < r@[b]),
{
    let mut order: Vec<usize> = Vec::new();
    let mut i: usize = 0;
    while i < keys.len()
        invariant
            i <= keys@.len(),
            order@.len() == i,
            forall|a: int| 0 <= a < order@.len() ==> #[trigger] order@[a] < i,
            forall|a: int, b: int|
                0 <= a < b < order@.len() ==> #[trigger] order@[a] != #[trigger] order@[b],
            forall|a: int, b: int|
                0 <= a < b < order@.len() ==> keys@[#[trigger] order@[a] as int] > keys@[
                    #[trigger] order@[b] as int] || (keys@[order@[a] as int] == keys@[order@[b] as int]
                    && order@[a] < order@[b]),
        decreases keys@.len() - i,
    {
        let key = keys[i];
        let mut j: usize = order.len();
        while j > 0 && keys[order[j - 1]] < key
            invariant
                j <= order@.len(),
                key == keys@[i as int],
                forall|a: int| 0 <= a < order@.len() ==> #[trigger] order@[a] < i,
                i < keys@.len(),
                forall|m: int| j <= m < order@.len() ==> keys@[#[trigger] order@[m] as int] < key,
            decreases j,
        {
            j = j - 1;
        }
        assert forall|m: int| 0 <= m < j implies keys@[#[trigger] order@[m] as int] >= key by {
            if m < j - 1 {
                assert(keys@[order@[m] as int] >= keys@[order@[j - 1] as int]);
            }
        }
        let ghost old_order = order@;
        order.insert(j, i);
        assert forall|a: int, b: int|
            0 <= a < b < order@.len() implies keys@[#[trigger] order@[a] as int] > keys@[
            #[trigger] order@[b] as int] || (keys@[order@[a] as int] == keys@[order@[b] as int]
            && order@[a] < order@[b]) by {
            if b < j {
            } else if b == j {
                assert(keys@[old_order[a] as int] >= key);
            } else if a < j {
                assert(keys@[old_order[a] as int] >= key);
                assert(keys@[old_order[b - 1] as int] < key);
            } else if a == j {
                assert(keys@[old_order[b - 1] as int] < key);
            } else {
                assert(old_order[a - 1] == order@[a]);
            }
        }
        assert forall|a: int, b: int| 0 <= a < b < order@.len() implies #[trigger] order@[a]
            != #[trigger] order@[b] by {
            if a == j {
                assert(old_order[b - 1] < i);
            } else if b == j {
                assert(old_order[a] < i);
            }
        }
        i = i + 1;
    }
    order
}

/// Ranks students by overall score, highest first; equal scores keep their
/// input order. Each ranked student's placement is its 1-based position.
pub fn sort_students(students: Vec<StudentData>) -> (r: Result<Vec<StudentData>, RankError>)
    ensures
        match r {
            Ok(v) => {
                &&& first_unreadable(students_view(students@)) is None
                &&& ranked(students_view(students@), students_view(v@))
                &&& forall|k: int| 0 <= k < v@.len() ==> (#[trigger] v@[k]).placement == Some((k + 1) as usize)
                &&& forall|a: int, b: int|
                    0 <= a < b < v@.len() ==> overall_value(#[trigger] v@[a]@)->0 >= overall_value(
                        #[trigger] v@[b]@,
                    )->0
            },
            Err(e) => first_unreadable(students_view(students@)) matches Some(k) && e
                == RankError::MalformedOverallScore { index: k as usize },
        },
{
    let ghost sv = students_view(students@);
    let keys = match overall_keys(&students) {
        Ok(k) => k,
        Err(e) => {
            return Err(e);
        },
    };
    proof {
        lemma_unreadable_none(sv);
        assert forall|k: int| 0 <= k < sv.len() implies overall_value(#[trigger] sv[k]) is Some by {
            assert(sv[k] == students@[k]@);
            assert(overall_value(students@[k]@) == Some(keys@[k] as int));
        }
    }
    let order = stable_order(&keys);
    let ghost ord = order@.map_values(|x: usize| x as int);
    let mut out: Vec<StudentData> = Vec::new();
    let mut k: usize = 0;
    while k < order.len()
        invariant
            k <= order@.len(),
            order@.len() == students@.len(),
            keys@.len() == students@.len(),
            sv == students_view(students@),
            ord == order@.map_values(|x: usize| x as int),
            forall|a: int| 0 <= a < order@.len() ==> #[trigger] order@[a] < keys@.len(),
            out@.len() == k,
            forall|m: int|
                0 <= m < k ==> #[trigger] out@[m]@ == (StudentView {
                    placement: Some((m + 1) as usize),
                    ..sv[ord[m]]
                }),
        decreases order@.len() - k,
    {
        let st = &students[order[k]];
        assert(sv[ord[k as int]] == st@);
        let ranked_student = st.with_scores(st.scores, Some(k + 1));
        out.push(ranked_student);
        k = k + 1;
    }
    proof {
        assert forall|m: int| 0 <= m < ord.len() implies overall_value(sv[#[trigger] ord[m]]) == Some(
            keys@[order@[m] as int] as int,
        ) by {
            assert(sv[ord[m]] == students@[order@[m] as int]@);
        }
        assert(stable_descending(sv, ord));
        let ov = students_view(out@);
        assert forall|m: int| 0 <= m < ov.len() implies #[trigger] ov[m] == (StudentView {
            placement: Some((m + 1) as usize),
            ..sv[ord[m]]
        }) by {
            assert(ov[m] == out@[m]@);
        }
        assert forall|a: int, b: int| 0 <= a < b < out@.len() implies overall_value(
            #[trigger] out@[a]@,
        )->0 >= overall_value(#[trigger] out@[b]@)->0 by {
            assert(out@[a]@.overall_score == sv[ord[a]].overall_score);
            assert(out@[b]@.overall_score == sv[ord[b]].overall_score);
        }
        assert(ord.len() == sv.len() && ov.len() == sv.len());
        assert(ranked(sv, ov));
        assert forall|k: int| 0 <= k < out@.len() implies (#[trigger] out@[k]).placement == Some(
            (k + 1) as usize,
        ) by {
            assert(out@[k]@.placement == out@[k].placement);
        }
        assert(first_unreadable(sv) is None);
    }
    Ok(out)
}

/// A ranking places its N students at 1..N, each placement once, with
/// overall scores that never rise down the list.
pub proof fn lemma_ranking_invariants(students: Seq<StudentView>, output: Seq<StudentView>)
    requires
        ranked(students, output),
        output.len() <= usize::MAX,
    ensures
        forall|k: int| 0 <= k < output.len() ==> (#[trigger] output[k]).placement == Some((k + 1) as usize),
        forall|a: int, b: int|
            0 <= a < b < output.len() ==> (#[trigger] output[a]).placement != (#[trigger] output[b]).placement,
        forall|a: int, b: int|
            0 <= a < b < output.len() ==> overall_value(#[trigger] output[a])->0 >= overall_value(
                #[trigger] output[b],
            )->0,
        forall|p: int|
            1 <= p <= output.len() ==> (#[trigger] output[p - 1]).placement == Some(p as usize),
{
    let order = choose|order: Seq<int>|
        {
            &&& order.len() == students.len()
            &&& output.len() == students.len()
            &&& stable_descending(students, order)
            &&& forall|k: int|
                0 <= k < output.len() ==> #[trigger] output[k] == (StudentView {
                    placement: Some((k + 1) as usize),
                    ..students[order[k]]
                })
        };
    assert forall|a: int, b: int| 0 <= a < b < output.len() implies overall_value(
        #[trigger] output[a],
    )->0 >= overall_value(#[trigger] output[b])->0 by {
        assert(output[a].overall_score == students[order[a]].overall_score);
        assert(output[b].overall_score == students[order[b]].overall_score);
    }
    assert forall|a: int, b: int| 0 <= a < b < output.len() implies (#[trigger] output[a]).placement
        != (#[trigger] output[b]).placement by {
        assert(output[a].placement == Some((a + 1) as usize));
        assert(output[b].placement == Some((b + 1) as usize));
        assert(b + 1 <= output.len());
    }
}

/// The position of the first group with this faculty id.
pub open spec fn group_index(groups: Seq<(Seq<char>, Seq<StudentView>)>, id: Seq<char>) -> Option<int>
    decreases groups.len(),
{
    if groups.len() == 0 {
        None
    } else {
        match group_index(groups.drop_last(), id) {
            Some(i) => Some(i),
            None => if groups.last().0 == id {
                Some(groups.len() - 1)
            } else {
                None
            },
        }
    }
}

/// Students grouped by faculty id: groups in order of first appearance,
/// students within a group in input order.
pub open spec fn group_by_faculty(students: Seq<StudentView>) -> Seq<(Seq<char>, Seq<StudentView>)>
    decreases students.len(),
{
    if students.len() == 0 {
        Seq::empty()
    } else {
        let g = group_by_faculty(students.drop_last());
        let st = students.last();
        match group_index(g, st.faculty_id) {
            Some(i) => g.update(i, (g[i].0, g[i].1.push(st))),
            None => g.push((st.faculty_id, seq![st])),
        }
    }
}

pub open spec fn groups_view(v: Seq<(String, Vec<StudentData>)>) -> Seq<(Seq<char>, Seq<StudentView>)> {
    v.map_values(|p: (String, Vec<StudentData>)| (p.0@, students_view(p.1@)))
}

proof fn lemma_group_index_bound(groups: Seq<(Seq<char>, Seq<StudentView>)>, id: Seq<char>)
    ensures
        group_index(groups, id) matches Some(i) ==> 0 <= i < groups.len() && groups[i].0 == id,
    decreases groups.len(),
{
    if groups.len() > 0 {
        lemma_group_index_bound(groups.drop_last(), id);
    }
}

/// Finds the first group with the faculty id.
fn find_group(groups: &Vec<(String, Vec<StudentData>)>, id: &String) -> (r: Option<usize>)
    ensures
        match r {
            Some(i) => group_index(groups_view(groups@), id@) == Some(i as int),
            None => group_index(groups_view(groups@), id@) is None,
        },
{
    let ghost gv = groups_view(groups@);
    let mut i: usize = 0;
    assert(gv.take(0) =~= Seq::<(Seq<char>, Seq<StudentView>)>::empty());
    while i < groups.len()
        invariant
            i <= groups@.len(),
            gv == groups_view(groups@),
            group_index(gv.take(i as int), id@) is None,
        decreases groups@.len() - i,
    {
        assert(gv.take(i + 1).drop_last() =~= gv.take(i as int));
        assert(gv[i as int].0 == groups@[i as int].0@);
        if groups[i].0 == *id {
            proof {
                lemma_group_prefix(gv, id@, i + 1);
            }
            return Some(i);
        }
        i = i + 1;
    }
    assert(gv.take(i as int) =~= gv);
    None
}

proof fn lemma_group_prefix(groups: Seq<(Seq<char>, Seq<StudentView>)>, id: Seq<char>, j: int)
    requires
        0 <= j <= groups.len(),
        group_index(groups.take(j), id) is Some,
    ensures
        group_index(groups, id) == group_index(groups.take(j), id),
    decreases groups.len() - j,
{
    if j < groups.len() {
        assert(groups.take(j + 1).drop_last() =~= groups.take(j));
        lemma_group_prefix(groups, id, j + 1);
    } else {
        assert(groups.take(j) =~= groups);
    }
}

/// Groups students by faculty id, in order of first appearance.
pub fn collect_faculties(students: Vec<StudentData>) -> (r: Vec<(String, Vec<StudentData>)>)
    ensures
        groups_view(r@) == group_by_faculty(students_view(students@)),
{
    let ghost sv = students_view(students@);
    let mut groups: Vec<(String, Vec<StudentData>)> = Vec::new();
    let mut k: usize = 0;
    assert(sv.take(0) =~= Seq::<StudentView>::empty());
    assert(groups_view(groups@) =~= Seq::<(Seq<char>, Seq<StudentView>)>::empty());
    while k < students.len()
        invariant
            k <= students@.len(),
            sv == students_view(students@),
            groups_view(groups@) == group_by_faculty(sv.take(k as int)),
        decreases students@.len() - k,
    {
        assert(sv.take(k + 1).drop_last() =~= sv.take(k as int));
        assert(sv.take(k + 1).last() == students@[k as int]@);
        let st = &students[k];
        let copy = st.with_scores(st.scores, st.placement);
        assert(copy@ == st@) by {
            assert(copy@.scores =~= st@.scores);
        }
        let ghost g = groups_view(groups@);
        match find_group(&groups, &st.faculty_id) {
            Some(i) => {
                proof {
                    lemma_group_index_bound(g, st@.faculty_id);
                }
                let ghost before = groups@;
                let mut entry = groups.remove(i);
                let ghost old_members = entry.1@;
                entry.1.push(copy);
                assert(students_view(entry.1@) =~= students_view(old_members).push(copy@));
                groups.insert(i, entry);
                assert(groups_view(groups@) =~= g.update(i as int, (g[i as int].0, g[i as int].1.push(st@)))) by {
                    assert(groups@ =~= before.update(i as int, entry));
                }
            },
            None => {
                let mut members: Vec<StudentData> = Vec::new();
                members.push(copy);
                assert(students_view(members@) =~= seq![st@]);
                let id = st.faculty_id.clone();
                groups.push((id, members));
                assert(groups_view(groups@) =~= g.push((st@.faculty_id, seq![st@])));
            },
        }
        k = k + 1;
    }
    assert(sv.take(k as int) =~= sv);
    groups
}

/// The numeric value of a faculty code.
pub open spec fn code_value(id: Seq<char>) -> Option<int> {
    decimal_fixed(id)
}

/// `order` lists positions of `groups` without repetition, by faculty code
/// from lowest to highest value, equal values in input order.
pub open spec fn ascending_codes(groups: Seq<(Seq<char>, Seq<StudentView>)>, order: Seq<int>) -> bool {
    &&& forall|a: int| 0 <= a < order.len() ==> 0 <= #[trigger] order[a] < groups.len()
    &&& forall|a: int, b: int|
        0 <= a < b < order.len() ==> #[trigger] order[a] != #[trigger] order[b]
    &&& forall|a: int, b: int|
        0 <= a < b < order.len() ==> {
            let x = code_value(groups[#[trigger] order[a]].0)->0;
            let y = code_value(groups[#[trigger] order[b]].0)->0;
            x < y || (x == y && order[a] < order[b])
        }
}

/// The first group whose faculty code is not a number.
pub open spec fn first_bad_code(groups: Seq<(Seq<char>, Seq<StudentView>)>) -> Option<int>
    decreases groups.len(),
{
    if groups.len() == 0 {
        None
    } else {
        match first_bad_code(groups.drop_last()) {
            Some(k) => Some(k),
            None => if code_value(groups.last().0) is None {
                Some(groups.len() - 1)
            } else {
                None
            },
        }
    }
}

proof fn lemma_bad_code_stays(groups: Seq<(Seq<char>, Seq<StudentView>)>, j: int)
    requires
        0 <= j <= groups.len(),
        first_bad_code(groups.take(j)) is Some,
    ensures
        first_bad_code(groups) == first_bad_code(groups.take(j)),
    decreases groups.len() - j,
{
    if j < groups.len() {
        assert(groups.take(j + 1).drop_last() =~= groups.take(j));
        lemma_bad_code_stays(groups, j + 1);
    } else {
        assert(groups.take(j) =~= groups);
    }
}

proof fn lemma_bad_code_none(groups: Seq<(Seq<char>, Seq<StudentView>)>)
    ensures
        first_bad_code(groups) is None <==> forall|k: int|
            0 <= k < groups.len() ==> code_value(#[trigger] groups[k].0) is Some,
    decreases groups.len(),
{
    if groups.len() > 0 {
        let t = groups.drop_last();
        lemma_bad_code_none(t);
        if first_bad_code(t) is Some {
            let k = choose|k: int| 0 <= k < t.len() && code_value(#[trigger] t[k].0) is None;
            assert(groups[k] == t[k]);
        } else {
            assert forall|k: int| 0 <= k < t.len() implies code_value(#[trigger] groups[k].0) is Some by {
                assert(groups[k] == t[k]);
            }
        }
    }
}

/// Why faculty groups could not be ordered.
#[derive(Debug, Clone, Copy, PartialEq, Eq, Structural)]
pub enum GroupOrderError {
    /// The faculty code of the group at this position is not a number.
    MalformedFacultyCode { index: usize },
}

fn copy_students(v: &Vec<StudentData>) -> (r: Vec<StudentData>)
    ensures
        students_view(r@) == students_view(v@),
{
    let mut out: Vec<StudentData> = Vec::new();
    let mut k: usize = 0;
    while k < v.len()
        invariant
            k <= v@.len(),
            out@.len() == k,
            forall|m: int| 0 <= m < k ==> (#[trigger] out@[m])@ == v@[m]@,
        decreases v@.len() - k,
    {
        let st = &v[k];
        let c = st.with_scores(st.scores, st.placement);
        assert(c@.scores =~= st@.scores);
        out.push(c);
        k = k + 1;
    }
    assert(students_view(out@) =~= students_view(v@));
    out
}

/// Orders faculty groups by the numeric value of their faculty code, lowest
/// first; equal values keep their order.
pub fn sort_faculty_groups(groups: &Vec<(String, Vec<StudentData>)>) -> (r: Result<
    Vec<(String, Vec<StudentData>)>,
    GroupOrderError,
>)
    ensures
        match r {
            Ok(v) => first_bad_code(groups_view(groups@)) is None && exists|order: Seq<int>|
                {
                    &&& order.len() == groups@.len()
                    &&& v@.len() == groups@.len()
                    &&& ascending_codes(groups_view(groups@), order)
                    &&& forall|k: int|
                        0 <= k < v@.len() ==> #[trigger] groups_view(v@)[k] == groups_view(
                            groups@,
                        )[order[k]]
                },
            Err(e) => first_bad_code(groups_view(groups@)) matches Some(k) && e
                == GroupOrderError::MalformedFacultyCode { index: k as usize },
        },
{
    let ghost gv = groups_view(groups@);
    let mut keys: Vec<i64> = Vec::new();
    let mut k: usize = 0;
    assert(gv.take(0) =~= Seq::<(Seq<char>, Seq<StudentView>)>::empty());
    while k < groups.len()
        invariant
            k <= groups@.len(),
            gv == groups_view(groups@),
            keys@.len() == k,
            first_bad_code(gv.take(k as int)) is None,
            forall|m: int|
                0 <= m < k ==> code_value(gv[m].0) == Some(-(#[trigger] keys@[m] as int)),
            forall|m: int| 0 <= m < k ==> -SCORE_LIMIT < #[trigger] keys@[m] < SCORE_LIMIT,
        decreases groups@.len() - k,
    {
        assert(gv.take(k + 1).drop_last() =~= gv.take(k as int));
        assert(gv.take(k + 1).last() == gv[k as int]);
        assert(gv[k as int].0 == groups@[k as int].0@);
        let text = chars_of(groups[k].0.as_str());
        match parse_fixed(text.as_slice()) {
            Some(v) => {
                keys.push(-v);
            },
            None => {
                proof {
                    lemma_bad_code_stays(gv, k + 1);
                }
                return Err(GroupOrderError::MalformedFacultyCode { index: k });
            },
        }
        k = k + 1;
    }
    let order = stable_order(&keys);
    let ghost ord = order@.map_values(|x: usize| x as int);
    let mut out: Vec<(String, Vec<StudentData>)> = Vec::new();
    let mut j: usize = 0;
    while j < order.len()
        invariant
            j <= order@.len(),
            order@.len() == groups@.len(),
            keys@.len() == groups@.len(),
            gv == groups_view(groups@),
            ord == order@.map_values(|x: usize| x as int),
            forall|a: int| 0 <= a < order@.len() ==> #[trigger] order@[a] < keys@.len(),
            out@.len() == j,
            forall|m: int| 0 <= m < j ==> #[trigger] groups_view(out@)[m] == gv[ord[m]],
        decreases order@.len() - j,
    {
        let g = &groups[order[j]];
        let members = copy_students(&g.1);
        let entry = (g.0.clone(), members);
        let ghost before = out@;
        out.push(entry);
        assert forall|m: int| 0 <= m < j + 1 implies #[trigger] groups_view(out@)[m] == gv[ord[m]] by {
            if m < j {
                assert(out@[m] == before[m]);
                assert(groups_view(before)[m] == gv[ord[m]]);
            } else {
                assert(out@[m] == entry);
                assert(gv[ord[m]] == (groups@[order@[m] as int].0@, students_view(groups@[order@[m] as int].1@)));
            }
        }
        j = j + 1;
    }
    proof {
        assert forall|m: int| 0 <= m < ord.len() implies code_value(gv[#[trigger] ord[m]].0) == Some(
            -(keys@[order@[m] as int] as int),
        ) by {
        }
        assert(ascending_codes(gv, ord));
        lemma_bad_code_none(gv);
        assert(gv.take(groups@.len() as int) =~= gv);
    }
    Ok(out)
}

} // verus!
