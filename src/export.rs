//! The ranked list as comma-separated lines.
use vstd::prelude::*;

use crate::format::{nat_string, nat_text};
use crate::records::{grant_text, score_text, Score, StudentData};
use crate::subject::{subject_at, subject_name, Subject, SUBJECT_COUNT};
use crate::text::{string_from_chars, string_from_literal};

verus! {

/// `name:score` items of the subjects below `n` that have a score, from the
/// last canonical subject to the first.
pub open spec fn score_items(scores: Seq<Option<Score>>, n: int) -> Seq<Seq<char>>
    decreases n,
{
    if n <= 0 {
        Seq::empty()
    } else {
        let rest = score_items(scores, n - 1);
        match scores[n - 1] {
            Some(sc) => seq![subject_name(subject_at(n - 1)) + seq![':'] + score_text(sc)] + rest,
            None => rest,
        }
    }
}

/// The items joined with a separator.
pub open spec fn join_sep(items: Seq<Seq<char>>, sep: char) -> Seq<char>
    decreases items.len(),
{
    if items.len() == 0 {
        Seq::empty()
    } else if items.len() == 1 {
        items[0]
    } else {
        join_sep(items.drop_last(), sep) + seq![sep] + items.last()
    }
}

/// A ranked student as `placement,{scores},overall,id,school,faculty,grant`.
pub open spec fn ranked_line(
    placement: nat,
    scores: Seq<Option<Score>>,
    overall: Seq<char>,
    id: Seq<char>,
    school: Seq<char>,
    faculty: Seq<char>,
    grant: Seq<char>,
) -> Seq<char> {
    join_sep(
        seq![
            nat_text(placement),
            seq!['{'] + join_sep(score_items(scores, SUBJECT_COUNT as int), ';') + seq!['}'],
            overall,
            id,
            school,
            faculty,
            grant,
        ],
        ',',
    )
}

/// The `name:score` items of a student's scores, as `score_items` orders them.
fn score_item_list(scores: &[Option<Score>; 9]) -> (r: Vec<String>)
    ensures
        r.deep_view() == score_items(scores@, SUBJECT_COUNT as int),
{
    let mut out: Vec<String> = Vec::new();
    let mut i: usize = 0;
    assert(out.deep_view() =~= score_items(scores@, 0));
    while i < SUBJECT_COUNT
        invariant
            i <= SUBJECT_COUNT,
            out.deep_view() == score_items(scores@, i as int),
        decreases SUBJECT_COUNT - i,
    {
        match scores[i] {
            Some(sc) => {
                let mut item = Subject::at(i).to_string();
                item.append(":");
                let text = sc.to_string();
                item.append(text.as_str());
                proof {
                    reveal_strlit(":");
                }
                assert(item@ =~= subject_name(subject_at(i as int)) + seq![':'] + score_text(sc));
                let ghost before = out.deep_view();
                let ghost item_view = item@;
                out.insert(0, item);
                assert(out.deep_view() =~= seq![item_view] + before);
            },
            None => {},
        }
        i = i + 1;
    }
    out
}

/// The strings joined with a separator.
pub fn join_strings(items: &Vec<String>, sep: char) -> (r: String)
    ensures
        r@ == join_sep(items.deep_view(), sep),
{
    let ghost iv = items.deep_view();
    if items.len() == 0 {
        return String::new();
    }
    let sep_text = string_from_chars(&[sep]);
    assert(sep_text@ == seq![sep]) by {
        assert([sep]@ =~= seq![sep]);
    }
    let mut out = items[0].clone();
    assert(iv[0] == items@[0]@);
    assert(iv.take(1).drop_last() =~= Seq::<Seq<char>>::empty());
    let mut i: usize = 1;
    while i < items.len()
        invariant
            1 <= i <= items@.len(),
            iv == items.deep_view(),
            sep_text@ == seq![sep],
            out@ == join_sep(iv.take(i as int), sep),
        decreases items@.len() - i,
    {
        assert(iv.take(i + 1).drop_last() =~= iv.take(i as int));
        assert(iv[i as int] == items@[i as int]@);
        out.append(sep_text.as_str());
        out.append(items[i].as_str());
        assert(out@ =~= join_sep(iv.take(i as int), sep) + seq![sep] + iv[i as int]);
        i = i + 1;
    }
    assert(iv.take(i as int) =~= iv);
    out
}

/// Writes one ranked student as a line of the ranked list.
pub fn ranked_student_line(student: &StudentData, school_name: &String, faculty_name: &String) -> (r:
    String)
    requires
        student.placement is Some,
    ensures
        r@ == ranked_line(
            student.placement->0 as nat,
            student.scores@,
            student.overall_score@,
            student.id@,
            school_name@,
            faculty_name@,
            match student.grant {
                Some(g) => grant_text(g),
                None => Seq::empty(),
            },
        ),
{
    let place = nat_string(student.placement.unwrap() as u64);
    let items = score_item_list(&student.scores);
    let inner = join_strings(&items, ';');
    let mut braced = string_from_literal("{");
    braced.append(inner.as_str());
    braced.append("}");
    proof {
        reveal_strlit("{");
        reveal_strlit("}");
    }
    let grant = match student.grant {
        Some(g) => g.to_string(),
        None => String::new(),
    };
    let ghost braced_view = braced@;
    let ghost grant_view = grant@;
    let ghost place_view = place@;
    assert(student.placement->0 as u64 as nat == student.placement->0 as nat);
    assert(place_view == nat_text(student.placement->0 as nat));
    assert(braced_view =~= seq!['{'] + join_sep(score_items(student.scores@, SUBJECT_COUNT as int), ';') + seq!['}']);
    assert(grant_view == match student.grant {
        Some(g) => grant_text(g),
        None => Seq::<char>::empty(),
    });
    let fields = vec![
        place,
        braced,
        student.overall_score.clone(),
        student.id.clone(),
        school_name.clone(),
        faculty_name.clone(),
        grant,
    ];
    assert(fields.deep_view() =~= seq![
        place_view,
        braced_view,
        student.overall_score@,
        student.id@,
        school_name@,
        faculty_name@,
        grant_view,
    ]);
    join_strings(&fields, ',')
}

} // verus!
