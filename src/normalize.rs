//! Rescaling scaled scores onto the equalized axis: bounds from the observed
//! data and the calibration, then piecewise-linear interpolation between
//! calibration anchors.
use vstd::prelude::*;
use vstd::arithmetic::div_mod::{lemma_div_by_multiple, lemma_div_is_ordered, lemma_div_pos_is_pos};
use vstd::arithmetic::mul::{lemma_mul_inequality, lemma_mul_nonnegative};

use crate::decimal::SCORE_LIMIT;
use crate::records::{scaled_part, stats_view, students_view, Score, StatsView, StudentData, StudentView, SubjectStats};
use crate::subject::{subject_at, Subject, SUBJECT_COUNT};

verus! {

/// Why scores could not be normalized.
#[derive(Debug, Clone, Copy, PartialEq, Eq, Structural)]
pub enum NormalizeError {
    /// A subject that students sat has no calibration record.
    MissingCalibration { subject: Subject },
    /// A subject that students sat has no minimum or no maximum.
    MissingBound { subject: Subject },
    /// A bound is a bare scaled score, or an anchor is not on both axes.
    BadCalibration { subject: Subject },
    /// A score falls in an interval of zero width on the scaled axis.
    DegenerateInterval { student: usize, subject: Subject },
}

/// The scaled component of an optional score.
pub open spec fn scaled_of(o: Option<Score>) -> Option<i64> {
    match o {
        Some(sc) => scaled_part(sc),
        None => None,
    }
}

/// Smallest and largest scaled value of subject `i` over the students.
pub open spec fn observed(students: Seq<StudentView>, i: int) -> Option<(int, int)>
    decreases students.len(),
{
    if students.len() == 0 {
        None
    } else {
        let prev = observed(students.drop_last(), i);
        match scaled_of(students.last().scores[i]) {
            Some(v) => match prev {
                None => Some((v as int, v as int)),
                Some(p) => Some(
                    (if v < p.0 {
                        v as int
                    } else {
                        p.0
                    }, if v > p.1 {
                        v as int
                    } else {
                        p.1
                    }),
                ),
            },
            None => prev,
        }
    }
}

/// A subject's bounds on both axes and its anchors, ready for interpolation.
pub ghost struct Setup {
    pub lo_scaled: int,
    pub lo_equalized: int,
    pub hi_scaled: int,
    pub hi_equalized: int,
    pub anchors: Seq<Score>,
}

pub open spec fn anchors_valid(anchors: Seq<Score>) -> bool {
    forall|j: int| 0 <= j < anchors.len() ==> (#[trigger] anchors[j]) is EqualizedAndScaled
}

/// A declared bound paired with the observed scaled extreme: a bare
/// equalized bound takes the observed value; one that already has a scaled
/// value keeps the lower (`lower`) or higher of the two.
pub open spec fn pair_bound(b: Option<Score>, observed: int, lower: bool, subject: Subject) -> Result<
    (int, int),
    NormalizeError,
> {
    match b {
        None => Err(NormalizeError::MissingBound { subject }),
        Some(Score::Equalized(e)) => Ok((observed, e as int)),
        Some(Score::EqualizedAndScaled { scaled, equalized }) => Ok(
            (if lower == (scaled < observed) {
                scaled as int
            } else {
                observed
            }, equalized as int),
        ),
        Some(Score::Scaled(_)) => Err(NormalizeError::BadCalibration { subject }),
    }
}

/// The setup of subject `i`: none where no student has a scaled score in it.
pub open spec fn subject_setup(
    students: Seq<StudentView>,
    stats: Seq<Option<StatsView>>,
    i: int,
) -> Result<Option<Setup>, NormalizeError> {
    let subject = subject_at(i);
    match observed(students, i) {
        None => Ok(None),
        Some(range) => match stats[i] {
            None => Err(NormalizeError::MissingCalibration { subject }),
            Some(st) => match pair_bound(st.min, range.0, true, subject) {
                Err(e) => Err(e),
                Ok(lo) => match pair_bound(st.max, range.1, false, subject) {
                    Err(e) => Err(e),
                    Ok(hi) => if anchors_valid(st.anchors) {
                        Ok(
                            Some(
                                Setup {
                                    lo_scaled: lo.0,
                                    lo_equalized: lo.1,
                                    hi_scaled: hi.0,
                                    hi_equalized: hi.1,
                                    anchors: st.anchors,
                                },
                            ),
                        )
                    } else {
                        Err(NormalizeError::BadCalibration { subject })
                    },
                },
            },
        },
    }
}

/// The setups of subjects `0..n`, or the error of the first that fails.
pub open spec fn setups_upto(students: Seq<StudentView>, stats: Seq<Option<StatsView>>, n: int) -> Result<
    Seq<Option<Setup>>,
    NormalizeError,
>
    decreases n,
{
    if n <= 0 {
        Ok(Seq::empty())
    } else {
        match setups_upto(students, stats, n - 1) {
            Err(e) => Err(e),
            Ok(prev) => match subject_setup(students, stats, n - 1) {
                Err(e) => Err(e),
                Ok(x) => Ok(prev.push(x)),
            },
        }
    }
}

/// The anchor with the largest scaled value not above `s`; among equal
/// scaled values the later one.
pub open spec fn lower_anchor(anchors: Seq<Score>, s: int) -> Option<(int, int)>
    decreases anchors.len(),
{
    if anchors.len() == 0 {
        None
    } else {
        let prev = lower_anchor(anchors.drop_last(), s);
        match anchors.last() {
            Score::EqualizedAndScaled { scaled, equalized } => if scaled <= s && (prev is None
                || scaled >= (prev->0).0) {
                Some((scaled as int, equalized as int))
            } else {
                prev
            },
            _ => prev,
        }
    }
}

/// The anchor with the smallest scaled value above `s`; among equal scaled
/// values the later one.
pub open spec fn upper_anchor(anchors: Seq<Score>, s: int) -> Option<(int, int)>
    decreases anchors.len(),
{
    if anchors.len() == 0 {
        None
    } else {
        let prev = upper_anchor(anchors.drop_last(), s);
        match anchors.last() {
            Score::EqualizedAndScaled { scaled, equalized } => if s < scaled && (prev is None
                || scaled <= (prev->0).0) {
                Some((scaled as int, equalized as int))
            } else {
                prev
            },
            _ => prev,
        }
    }
}

/// The interval `[lo_scaled, hi_scaled] -> [lo_equalized, hi_equalized]`
/// that brackets `s`.
pub ghost struct Bracket {
    pub lo_scaled: int,
    pub lo_equalized: int,
    pub hi_scaled: int,
    pub hi_equalized: int,
}

pub open spec fn bracket(u: Setup, s: int) -> Bracket {
    let lo = match lower_anchor(u.anchors, s) {
        Some(a) => a,
        None => (u.lo_scaled, u.lo_equalized),
    };
    let hi = match upper_anchor(u.anchors, s) {
        Some(a) => a,
        None => (u.hi_scaled, u.hi_equalized),
    };
    Bracket { lo_scaled: lo.0, lo_equalized: lo.1, hi_scaled: hi.0, hi_equalized: hi.1 }
}

/// Linear interpolation of `s` over a bracket, rounded toward the lower
/// end's equalized value.
pub open spec fn interpolate(s: int, b: Bracket) -> int {
    let w = b.hi_scaled - b.lo_scaled;
    if b.hi_equalized >= b.lo_equalized {
        b.lo_equalized + (s - b.lo_scaled) * (b.hi_equalized - b.lo_equalized) / w
    } else {
        b.lo_equalized - (s - b.lo_scaled) * (b.lo_equalized - b.hi_equalized) / w
    }
}

/// Whether the score's bracket has zero width.
pub open spec fn degenerate(x: Option<Score>, su: Option<Setup>) -> bool {
    match (scaled_of(x), su) {
        (Some(s), Some(u)) => bracket(u, s as int).lo_scaled >= bracket(u, s as int).hi_scaled,
        _ => false,
    }
}

/// The normalized score: a score with a scaled component becomes
/// `EqualizedAndScaled`; others are kept.
pub open spec fn normalized_score(x: Option<Score>, su: Option<Setup>) -> Option<Score> {
    match (scaled_of(x), su) {
        (Some(s), Some(u)) => if bracket(u, s as int).lo_scaled < bracket(u, s as int).hi_scaled {
            Some(
                Score::EqualizedAndScaled {
                    scaled: s,
                    equalized: interpolate(s as int, bracket(u, s as int)) as i64,
                },
            )
        } else {
            x
        },
        _ => x,
    }
}

pub open spec fn normalized_student(st: StudentView, su: Seq<Option<Setup>>) -> StudentView {
    StudentView {
        scores: Seq::new(SUBJECT_COUNT as nat, |i: int| normalized_score(st.scores[i], su[i])),
        ..st
    }
}

/// The first subject below `n` whose score is degenerate.
pub open spec fn degenerate_subject(scores: Seq<Option<Score>>, su: Seq<Option<Setup>>, n: int) -> Option<int>
    decreases n,
{
    if n <= 0 {
        None
    } else {
        match degenerate_subject(scores, su, n - 1) {
            Some(j) => Some(j),
            None => if degenerate(scores[n - 1], su[n - 1]) {
                Some(n - 1)
            } else {
                None
            },
        }
    }
}

/// The first student, and subject, with a degenerate score.
pub open spec fn degenerate_student(students: Seq<StudentView>, su: Seq<Option<Setup>>) -> Option<(int, int)>
    decreases students.len(),
{
    if students.len() == 0 {
        None
    } else {
        match degenerate_student(students.drop_last(), su) {
            Some(p) => Some(p),
            None => match degenerate_subject(students.last().scores, su, SUBJECT_COUNT as int) {
                Some(j) => Some((students.len() - 1, j)),
                None => None,
            },
        }
    }
}

/// What the normalizer yields for the students under the calibration.
pub open spec fn normalize(students: Seq<StudentView>, stats: Seq<Option<StatsView>>) -> Result<
    Seq<StudentView>,
    NormalizeError,
> {
    match setups_upto(students, stats, SUBJECT_COUNT as int) {
        Err(e) => Err(e),
        Ok(su) => match degenerate_student(students, su) {
            Some(p) => Err(
                NormalizeError::DegenerateInterval { student: p.0 as usize, subject: subject_at(p.1) },
            ),
            None => Ok(students.map_values(|st: StudentView| normalized_student(st, su))),
        },
    }
}

pub open spec fn in_limit(v: int) -> bool {
    -SCORE_LIMIT < v < SCORE_LIMIT
}

pub open spec fn score_in_limit(sc: Score) -> bool {
    match sc {
        Score::Scaled(v) => in_limit(v as int),
        Score::Equalized(v) => in_limit(v as int),
        Score::EqualizedAndScaled { scaled, equalized } => in_limit(scaled as int) && in_limit(
            equalized as int,
        ),
    }
}

pub open spec fn option_in_limit(o: Option<Score>) -> bool {
    match o {
        Some(sc) => score_in_limit(sc),
        None => true,
    }
}

/// Every score of every student lies within `SCORE_LIMIT`.
pub open spec fn students_in_limit(students: Seq<StudentView>) -> bool {
    forall|k: int, i: int|
        0 <= k < students.len() && 0 <= i < SUBJECT_COUNT ==> option_in_limit(
            #[trigger] students[k].scores[i],
        )
}

/// Every bound and anchor of the calibration lies within `SCORE_LIMIT`.
pub open spec fn stats_in_limit(stats: Seq<Option<StatsView>>) -> bool {
    forall|i: int|
        0 <= i < stats.len() ==> match #[trigger] stats[i] {
            Some(st) => option_in_limit(st.min) && option_in_limit(st.max) && forall|j: int|
                0 <= j < st.anchors.len() ==> score_in_limit(#[trigger] st.anchors[j]),
            None => true,
        }
}

fn limited(v: i64) -> (r: bool)
    ensures
        r == in_limit(v as int),
{
    -SCORE_LIMIT < v && v < SCORE_LIMIT
}

fn score_limited(sc: Score) -> (r: bool)
    ensures
        r == score_in_limit(sc),
{
    match sc {
        Score::Scaled(v) => limited(v),
        Score::Equalized(v) => limited(v),
        Score::EqualizedAndScaled { scaled, equalized } => limited(scaled) && limited(equalized),
    }
}

fn option_limited(o: Option<Score>) -> (r: bool)
    ensures
        r == option_in_limit(o),
{
    match o {
        Some(sc) => score_limited(sc),
        None => true,
    }
}

/// Whether every score of every student lies within `SCORE_LIMIT`, as the
/// normalizer requires.
pub fn scores_in_limit(students: &Vec<StudentData>) -> (r: bool)
    ensures
        r == students_in_limit(students_view(students@)),
{
    let ghost sv = students_view(students@);
    let mut k: usize = 0;
    while k < students.len()
        invariant
            k <= students@.len(),
            sv == students_view(students@),
            forall|a: int, b: int|
                0 <= a < k && 0 <= b < SUBJECT_COUNT ==> option_in_limit(#[trigger] sv[a].scores[b]),
        decreases students@.len() - k,
    {
        assert(sv[k as int] == students@[k as int]@);
        let mut i: usize = 0;
        while i < SUBJECT_COUNT
            invariant
                k < students@.len(),
                i <= SUBJECT_COUNT,
                sv == students_view(students@),
                sv[k as int] == students@[k as int]@,
                forall|a: int, b: int|
                    0 <= a < k && 0 <= b < SUBJECT_COUNT ==> option_in_limit(#[trigger] sv[a].scores[b]),
                forall|b: int| 0 <= b < i ==> option_in_limit(#[trigger] sv[k as int].scores[b]),
            decreases SUBJECT_COUNT - i,
        {
            if !option_limited(students[k].scores[i]) {
                assert(!option_in_limit(sv[k as int].scores[i as int]));
                return false;
            }
            i = i + 1;
        }
        k = k + 1;
    }
    true
}

/// Whether every bound and anchor of the calibration lies within
/// `SCORE_LIMIT`, as the normalizer requires.
pub fn calibration_in_limit(stats: &[Option<SubjectStats>; 9]) -> (r: bool)
    ensures
        r == stats_in_limit(stats_view(stats@)),
{
    let ghost stv = stats_view(stats@);
    let mut i: usize = 0;
    while i < SUBJECT_COUNT
        invariant
            i <= SUBJECT_COUNT,
            stv == stats_view(stats@),
            forall|m: int|
                0 <= m < i ==> match #[trigger] stv[m] {
                    Some(st) => option_in_limit(st.min) && option_in_limit(st.max) && forall|j: int|
                        0 <= j < st.anchors.len() ==> score_in_limit(#[trigger] st.anchors[j]),
                    None => true,
                },
        decreases SUBJECT_COUNT - i,
    {
        match &stats[i] {
            None => {},
            Some(st) => {
                assert(stv[i as int] == Some(st@));
                if !option_limited(st.min) || !option_limited(st.max) {
                    assert(!stats_in_limit(stv)) by {
                        assert(stv[i as int] == Some(st@));
                    }
                    return false;
                }
                let mut j: usize = 0;
                while j < st.anchors.len()
                    invariant
                        j <= st.anchors@.len(),
                        i < SUBJECT_COUNT,
                        stv == stats_view(stats@),
                        stv[i as int] == Some(st@),
                        forall|a: int| 0 <= a < j ==> score_in_limit(#[trigger] st.anchors@[a]),
                    decreases st.anchors@.len() - j,
                {
                    if !score_limited(st.anchors[j]) {
                        assert(!stats_in_limit(stv)) by {
                            assert(stv[i as int] == Some(st@));
                            assert(!score_in_limit(st@.anchors[j as int]));
                        }
                        return false;
                    }
                    j = j + 1;
                }
            },
        }
        i = i + 1;
    }
    true
}

/// Interpolation over a bracket that holds `s` stays between the two
/// equalized ends.
pub proof fn lemma_interpolate_between(s: int, b: Bracket)
    requires
        b.lo_scaled <= s <= b.hi_scaled,
        b.lo_scaled < b.hi_scaled,
    ensures
        b.lo_equalized <= b.hi_equalized ==> b.lo_equalized <= interpolate(s, b) <= b.hi_equalized,
        b.lo_equalized > b.hi_equalized ==> b.hi_equalized <= interpolate(s, b) <= b.lo_equalized,
{
    let w = b.hi_scaled - b.lo_scaled;
    let x = s - b.lo_scaled;
    let d = if b.hi_equalized >= b.lo_equalized {
        b.hi_equalized - b.lo_equalized
    } else {
        b.lo_equalized - b.hi_equalized
    };
    lemma_scaled_fraction_bound(x, w, d);
}

proof fn lemma_scaled_fraction_bound(x: int, w: int, d: int)
    requires
        0 <= x <= w,
        0 < w,
        0 <= d,
    ensures
        0 <= x * d / w <= d,
{
    lemma_mul_nonnegative(x, d);
    lemma_div_pos_is_pos(x * d, w);
    lemma_mul_inequality(x, w, d);
    lemma_div_is_ordered(x * d, w * d, w);
    assert(w * d == d * w) by (nonlinear_arith);
    lemma_div_by_multiple(d, w);
}

/// The observed range of a subject lies within the limit and holds every
/// student's scaled value.
proof fn lemma_observed(students: Seq<StudentView>, i: int, k: int)
    requires
        0 <= i < SUBJECT_COUNT,
        students_in_limit(students),
    ensures
        observed(students, i) matches Some(p) ==> p.0 <= p.1 && in_limit(p.0) && in_limit(p.1),
        0 <= k < students.len() && scaled_of(students[k].scores[i]) is Some ==> (observed(
            students,
            i,
        ) matches Some(p) && p.0 <= scaled_of(students[k].scores[i])->0 <= p.1),
    decreases students.len(),
{
    if students.len() > 0 {
        let t = students.drop_last();
        assert(students_in_limit(t)) by {
            assert forall|a: int, b: int| 0 <= a < t.len() && 0 <= b < SUBJECT_COUNT implies option_in_limit(
                #[trigger] t[a].scores[b],
            ) by {
                assert(t[a] == students[a]);
            }
        }
        lemma_observed(t, i, k);
        assert(option_in_limit(students[students.len() - 1].scores[i]));
        if 0 <= k < students.len() - 1 {
            assert(t[k] == students[k]);
        }
    }
}

/// Smallest and largest scaled value of subject `i`.
fn observed_range(students: &Vec<StudentData>, i: usize) -> (r: Option<(i64, i64)>)
    requires
        i < SUBJECT_COUNT,
    ensures
        match r {
            Some(p) => observed(students_view(students@), i as int) == Some((p.0 as int, p.1 as int)),
            None => observed(students_view(students@), i as int) is None,
        },
{
    let ghost sv = students_view(students@);
    let mut r: Option<(i64, i64)> = None;
    let mut k: usize = 0;
    assert(sv.take(0) =~= Seq::<StudentView>::empty());
    while k < students.len()
        invariant
            i < SUBJECT_COUNT,
            k <= students@.len(),
            sv == students_view(students@),
            match r {
                Some(p) => observed(sv.take(k as int), i as int) == Some((p.0 as int, p.1 as int)),
                None => observed(sv.take(k as int), i as int) is None,
            },
        decreases students@.len() - k,
    {
        assert(sv.take(k + 1).drop_last() =~= sv.take(k as int));
        assert(sv.take(k + 1).last() == students@[k as int]@);
        let v: Option<i64> = match students[k].scores[i] {
            Some(Score::Scaled(v)) => Some(v),
            Some(Score::EqualizedAndScaled { scaled, .. }) => Some(scaled),
            _ => None,
        };
        if let Some(v) = v {
            r = match r {
                None => Some((v, v)),
                Some(p) => Some(
                    (if v < p.0 {
                        v
                    } else {
                        p.0
                    }, if v > p.1 {
                        v
                    } else {
                        p.1
                    }),
                ),
            };
        }
        k = k + 1;
    }
    assert(sv.take(k as int) =~= sv);
    r
}

/// A subject's bounds on both axes.
#[derive(Clone, Copy)]
struct Bounds {
    lo_scaled: i64,
    lo_equalized: i64,
    hi_scaled: i64,
    hi_equalized: i64,
}

/// The exec bounds and the subject's calibration make up the setup.
spec fn bounds_match(b: Option<Bounds>, st: Option<StatsView>, u: Option<Setup>) -> bool {
    match (b, u) {
        (None, None) => true,
        (Some(b), Some(u)) => {
            &&& st is Some
            &&& u.anchors == st->0.anchors
            &&& u.lo_scaled == b.lo_scaled
            &&& u.lo_equalized == b.lo_equalized
            &&& u.hi_scaled == b.hi_scaled
            &&& u.hi_equalized == b.hi_equalized
        },
        _ => false,
    }
}

fn pair_bound_exec(b: Option<Score>, observed: i64, lower: bool, subject: Subject) -> (r: Result<
    (i64, i64),
    NormalizeError,
>)
    ensures
        match r {
            Ok(p) => pair_bound(b, observed as int, lower, subject) == Ok::<(int, int), NormalizeError>(
                (p.0 as int, p.1 as int),
            ),
            Err(e) => pair_bound(b, observed as int, lower, subject) == Err::<(int, int), NormalizeError>(e),
        },
{
    match b {
        None => Err(NormalizeError::MissingBound { subject }),
        Some(Score::Equalized(e)) => Ok((observed, e)),
        Some(Score::EqualizedAndScaled { scaled, equalized }) => Ok(
            (if lower == (scaled < observed) {
                scaled
            } else {
                observed
            }, equalized),
        ),
        Some(Score::Scaled(_)) => Err(NormalizeError::BadCalibration { subject }),
    }
}

fn anchors_ok(anchors: &Vec<Score>) -> (r: bool)
    ensures
        r == anchors_valid(anchors@),
{
    let mut j: usize = 0;
    while j < anchors.len()
        invariant
            j <= anchors@.len(),
            forall|m: int| 0 <= m < j ==> (#[trigger] anchors@[m]) is EqualizedAndScaled,
        decreases anchors@.len() - j,
    {
        match anchors[j] {
            Score::EqualizedAndScaled { .. } => {},
            _ => {
                return false;
            },
        }
        j = j + 1;
    }
    true
}

proof fn lemma_setups_error_stays(
    students: Seq<StudentView>,
    stats: Seq<Option<StatsView>>,
    j: int,
    n: int,
    e: NormalizeError,
)
    requires
        0 <= j <= n,
        setups_upto(students, stats, j) == Err::<Seq<Option<Setup>>, NormalizeError>(e),
    ensures
        setups_upto(students, stats, n) == Err::<Seq<Option<Setup>>, NormalizeError>(e),
    decreases n - j,
{
    if j < n {
        lemma_setups_error_stays(students, stats, j, n - 1, e);
    }
}

/// The bounds of every subject, or the first subject's error.
fn compute_setups(students: &Vec<StudentData>, stats: &[Option<SubjectStats>; 9]) -> (r: Result<
    [Option<Bounds>; 9],
    NormalizeError,
>)
    ensures
        match r {
            Ok(bs) => (setups_upto(students_view(students@), stats_view(stats@), SUBJECT_COUNT as int) matches Ok(su)
                && su.len() == SUBJECT_COUNT && forall|i: int|
                0 <= i < SUBJECT_COUNT ==> bounds_match(
                    #[trigger] bs@[i],
                    stats_view(stats@)[i],
                    su[i],
                )),
            Err(e) => setups_upto(students_view(students@), stats_view(stats@), SUBJECT_COUNT as int)
                == Err::<Seq<Option<Setup>>, NormalizeError>(e),
        },
{
    let ghost sv = students_view(students@);
    let ghost stv = stats_view(stats@);
    let mut bs: [Option<Bounds>; 9] = [None, None, None, None, None, None, None, None, None];
    let ghost mut su: Seq<Option<Setup>> = Seq::empty();
    let mut i: usize = 0;
    while i < SUBJECT_COUNT
        invariant
            i <= SUBJECT_COUNT,
            sv == students_view(students@),
            stv == stats_view(stats@),
            setups_upto(sv, stv, i as int) == Ok::<Seq<Option<Setup>>, NormalizeError>(su),
            su.len() == i,
            forall|j: int| 0 <= j < i ==> bounds_match(#[trigger] bs@[j], stv[j], su[j]),
        decreases SUBJECT_COUNT - i,
    {
        let subject = Subject::at(i);
        let ghost step = subject_setup(sv, stv, i as int);
        let entry: Option<Bounds> = match observed_range(students, i) {
            None => None,
            Some(range) => match &stats[i] {
                None => {
                    let e = NormalizeError::MissingCalibration { subject };
                    proof {
                        lemma_setups_error_stays(sv, stv, i + 1, SUBJECT_COUNT as int, e);
                    }
                    return Err(e);
                },
                Some(st) => {
                    assert(stv[i as int] == Some(st@));
                    let lo = match pair_bound_exec(st.min, range.0, true, subject) {
                        Ok(p) => p,
                        Err(e) => {
                            proof {
                                lemma_setups_error_stays(sv, stv, i + 1, SUBJECT_COUNT as int, e);
                            }
                            return Err(e);
                        },
                    };
                    let hi = match pair_bound_exec(st.max, range.1, false, subject) {
                        Ok(p) => p,
                        Err(e) => {
                            proof {
                                lemma_setups_error_stays(sv, stv, i + 1, SUBJECT_COUNT as int, e);
                            }
                            return Err(e);
                        },
                    };
                    if !anchors_ok(&st.anchors) {
                        let e = NormalizeError::BadCalibration { subject };
                        proof {
                            lemma_setups_error_stays(sv, stv, i + 1, SUBJECT_COUNT as int, e);
                        }
                        return Err(e);
                    }
                    Some(
                        Bounds {
                            lo_scaled: lo.0,
                            lo_equalized: lo.1,
                            hi_scaled: hi.0,
                            hi_equalized: hi.1,
                        },
                    )
                },
            },
        };
        proof {
            let x = step->Ok_0;
            assert(bounds_match(entry, stv[i as int], x));
            su = su.push(x);
        }
        bs[i] = entry;
        i = i + 1;
    }
    Ok(bs)
}

/// The anchor's point on both axes, where it is `EqualizedAndScaled`.
pub open spec fn anchor_point(sc: Score) -> Option<(int, int)> {
    match sc {
        Score::EqualizedAndScaled { scaled, equalized } => Some((scaled as int, equalized as int)),
        _ => None,
    }
}

/// The lower anchor is an anchor, not above `s`, and the highest such.
pub proof fn lemma_lower_anchor(anchors: Seq<Score>, s: int)
    ensures
        lower_anchor(anchors, s) is Some ==> (lower_anchor(anchors, s)->0).0 <= s,
        lower_anchor(anchors, s) is Some ==> exists|j: int|
            0 <= j < anchors.len() && anchor_point(#[trigger] anchors[j]) == lower_anchor(anchors, s),
        forall|j: int|
            0 <= j < anchors.len() && (#[trigger] anchor_point(anchors[j])) is Some && (anchor_point(
                anchors[j],
            )->0).0 <= s ==> lower_anchor(anchors, s) is Some && (anchor_point(anchors[j])->0).0 <= (
            lower_anchor(anchors, s)->0).0,
    decreases anchors.len(),
{
    if anchors.len() > 0 {
        let t = anchors.drop_last();
        lemma_lower_anchor(t, s);
        if lower_anchor(anchors, s) != lower_anchor(t, s) {
            assert(anchor_point(anchors[anchors.len() - 1]) == lower_anchor(anchors, s));
        } else if lower_anchor(t, s) is Some {
            let j = choose|j: int|
                0 <= j < t.len() && anchor_point(#[trigger] t[j]) == lower_anchor(t, s);
            assert(anchors[j] == t[j]);
        }
        assert forall|j: int|
            0 <= j < anchors.len() && (#[trigger] anchor_point(anchors[j])) is Some && (anchor_point(
                anchors[j],
            )->0).0 <= s implies lower_anchor(anchors, s) is Some && (anchor_point(anchors[j])->0).0
            <= (lower_anchor(anchors, s)->0).0 by {
            if j < anchors.len() - 1 {
                assert(anchors[j] == t[j]);
            }
        }
    }
}

/// The upper anchor is an anchor, above `s`, and the lowest such.
pub proof fn lemma_upper_anchor(anchors: Seq<Score>, s: int)
    ensures
        upper_anchor(anchors, s) is Some ==> s < (upper_anchor(anchors, s)->0).0,
        upper_anchor(anchors, s) is Some ==> exists|j: int|
            0 <= j < anchors.len() && anchor_point(#[trigger] anchors[j]) == upper_anchor(anchors, s),
        forall|j: int|
            0 <= j < anchors.len() && (#[trigger] anchor_point(anchors[j])) is Some && s < (
            anchor_point(anchors[j])->0).0 ==> upper_anchor(anchors, s) is Some && (upper_anchor(
                anchors,
                s,
            )->0).0 <= (anchor_point(anchors[j])->0).0,
    decreases anchors.len(),
{
    if anchors.len() > 0 {
        let t = anchors.drop_last();
        lemma_upper_anchor(t, s);
        if upper_anchor(anchors, s) != upper_anchor(t, s) {
            assert(anchor_point(anchors[anchors.len() - 1]) == upper_anchor(anchors, s));
        } else if upper_anchor(t, s) is Some {
            let j = choose|j: int|
                0 <= j < t.len() && anchor_point(#[trigger] t[j]) == upper_anchor(t, s);
            assert(anchors[j] == t[j]);
        }
        assert forall|j: int|
            0 <= j < anchors.len() && (#[trigger] anchor_point(anchors[j])) is Some && s < (
            anchor_point(anchors[j])->0).0 implies upper_anchor(anchors, s) is Some && (upper_anchor(
                anchors,
                s,
            )->0).0 <= (anchor_point(anchors[j])->0).0 by {
            if j < anchors.len() - 1 {
                assert(anchors[j] == t[j]);
            }
        }
    }
}

spec fn setup_of(b: Bounds, anchors: Seq<Score>) -> Setup {
    Setup {
        lo_scaled: b.lo_scaled as int,
        lo_equalized: b.lo_equalized as int,
        hi_scaled: b.hi_scaled as int,
        hi_equalized: b.hi_equalized as int,
        anchors,
    }
}

/// The bracket of `s` under the bounds and anchors.
fn bracket_exec(b: Bounds, anchors: &Vec<Score>, s: i64) -> (r: (i64, i64, i64, i64))
    ensures
        bracket(setup_of(b, anchors@), s as int) == (Bracket {
            lo_scaled: r.0 as int,
            lo_equalized: r.1 as int,
            hi_scaled: r.2 as int,
            hi_equalized: r.3 as int,
        }),
{
    let ghost av = anchors@;
    let mut lo: Option<(i64, i64)> = None;
    let mut hi: Option<(i64, i64)> = None;
    let mut j: usize = 0;
    assert(av.take(0) =~= Seq::<Score>::empty());
    while j < anchors.len()
        invariant
            j <= av.len(),
            av == anchors@,
            lower_anchor(av.take(j as int), s as int) == match lo {
                Some(p) => Some((p.0 as int, p.1 as int)),
                None => None::<(int, int)>,
            },
            upper_anchor(av.take(j as int), s as int) == match hi {
                Some(p) => Some((p.0 as int, p.1 as int)),
                None => None::<(int, int)>,
            },
        decreases av.len() - j,
    {
        assert(av.take(j + 1).drop_last() =~= av.take(j as int));
        assert(av.take(j + 1).last() == av[j as int]);
        match anchors[j] {
            Score::EqualizedAndScaled { scaled, equalized } => {
                let take_lo = match lo {
                    None => scaled <= s,
                    Some(p) => scaled <= s && scaled >= p.0,
                };
                if take_lo {
                    lo = Some((scaled, equalized));
                }
                let take_hi = match hi {
                    None => s < scaled,
                    Some(p) => s < scaled && scaled <= p.0,
                };
                if take_hi {
                    hi = Some((scaled, equalized));
                }
            },
            _ => {},
        }
        j = j + 1;
    }
    assert(av.take(j as int) =~= av);
    let l = match lo {
        Some(p) => p,
        None => (b.lo_scaled, b.lo_equalized),
    };
    let h = match hi {
        Some(p) => p,
        None => (b.hi_scaled, b.hi_equalized),
    };
    (l.0, l.1, h.0, h.1)
}

/// Interpolation of `s` over a bracket that holds it.
fn interpolate_exec(s: i64, lo_s: i64, lo_e: i64, hi_s: i64, hi_e: i64) -> (r: i64)
    requires
        lo_s <= s <= hi_s,
        lo_s < hi_s,
        in_limit(lo_s as int),
        in_limit(hi_s as int),
        in_limit(lo_e as int),
        in_limit(hi_e as int),
    ensures
        r == interpolate(
            s as int,
            Bracket {
                lo_scaled: lo_s as int,
                lo_equalized: lo_e as int,
                hi_scaled: hi_s as int,
                hi_equalized: hi_e as int,
            },
        ),
        in_limit(r as int),
{
    let ghost b = Bracket {
        lo_scaled: lo_s as int,
        lo_equalized: lo_e as int,
        hi_scaled: hi_s as int,
        hi_equalized: hi_e as int,
    };
    proof {
        lemma_interpolate_between(s as int, b);
    }
    let w: i128 = hi_s as i128 - lo_s as i128;
    let x: i128 = s as i128 - lo_s as i128;
    if hi_e >= lo_e {
        let d: i128 = hi_e as i128 - lo_e as i128;
        assert(0 <= x * d <= 0x4000_0000_0000_0000_0000_0000_0000_0000) by (nonlinear_arith)
            requires
                0 <= x <= 0x8000_0000_0000_0000,
                0 <= d <= 0x8000_0000_0000_0000,
        ;
        let q: i128 = (x * d) / w;
        (lo_e as i128 + q) as i64
    } else {
        let d: i128 = lo_e as i128 - hi_e as i128;
        assert(0 <= x * d <= 0x4000_0000_0000_0000_0000_0000_0000_0000) by (nonlinear_arith)
            requires
                0 <= x <= 0x8000_0000_0000_0000,
                0 <= d <= 0x8000_0000_0000_0000,
        ;
        let q: i128 = (x * d) / w;
        (lo_e as i128 - q) as i64
    }
}

proof fn lemma_setups_index(students: Seq<StudentView>, stats: Seq<Option<StatsView>>, n: int)
    requires
        0 <= n,
        setups_upto(students, stats, n) is Ok,
    ensures
        setups_upto(students, stats, n)->Ok_0.len() == n,
        forall|i: int|
            0 <= i < n ==> subject_setup(students, stats, i) == Ok::<Option<Setup>, NormalizeError>(
                #[trigger] setups_upto(students, stats, n)->Ok_0[i],
            ),
    decreases n,
{
    if n > 0 {
        lemma_setups_index(students, stats, n - 1);
        let prev = setups_upto(students, stats, n - 1)->Ok_0;
        assert forall|i: int| 0 <= i < n implies subject_setup(students, stats, i) == Ok::<
            Option<Setup>,
            NormalizeError,
        >(#[trigger] setups_upto(students, stats, n)->Ok_0[i]) by {
            if i < n - 1 {
                assert(setups_upto(students, stats, n)->Ok_0[i] == prev[i]);
            }
        }
    }
}

/// The bracket of a student's scaled score holds the score, and its ends lie
/// within the limit.
proof fn lemma_bracket_holds(
    students: Seq<StudentView>,
    stats: Seq<Option<StatsView>>,
    su: Seq<Option<Setup>>,
    k: int,
    i: int,
)
    requires
        setups_upto(students, stats, SUBJECT_COUNT as int) == Ok::<Seq<Option<Setup>>, NormalizeError>(su),
        students_in_limit(students),
        stats_in_limit(stats),
        stats.len() == SUBJECT_COUNT,
        0 <= i < SUBJECT_COUNT,
        0 <= k < students.len(),
        scaled_of(students[k].scores[i]) is Some,
    ensures
        su[i] is Some,
        ({
            let s = scaled_of(students[k].scores[i])->0 as int;
            let b = bracket(su[i]->0, s);
            &&& b.lo_scaled <= s <= b.hi_scaled
            &&& in_limit(b.lo_scaled)
            &&& in_limit(b.hi_scaled)
            &&& in_limit(b.lo_equalized)
            &&& in_limit(b.hi_equalized)
        }),
{
    lemma_setups_index(students, stats, SUBJECT_COUNT as int);
    lemma_observed(students, i, k);
    let s = scaled_of(students[k].scores[i])->0 as int;
    let u = su[i]->0;
    let st = stats[i]->0;
    assert(subject_setup(students, stats, i) == Ok::<Option<Setup>, NormalizeError>(su[i]));
    assert(option_in_limit(st.min) && option_in_limit(st.max));
    lemma_lower_anchor(u.anchors, s);
    lemma_upper_anchor(u.anchors, s);
    if lower_anchor(u.anchors, s) is Some {
        let j = choose|j: int|
            0 <= j < u.anchors.len() && anchor_point(#[trigger] u.anchors[j]) == lower_anchor(u.anchors, s);
        assert(score_in_limit(st.anchors[j]));
    }
    if upper_anchor(u.anchors, s) is Some {
        let j = choose|j: int|
            0 <= j < u.anchors.len() && anchor_point(#[trigger] u.anchors[j]) == upper_anchor(u.anchors, s);
        assert(score_in_limit(st.anchors[j]));
    }
}

proof fn lemma_degenerate_stays(students: Seq<StudentView>, su: Seq<Option<Setup>>, j: int)
    requires
        0 <= j <= students.len(),
        degenerate_student(students.take(j), su) is Some,
    ensures
        degenerate_student(students, su) == degenerate_student(students.take(j), su),
    decreases students.len() - j,
{
    if j < students.len() {
        assert(students.take(j + 1).drop_last() =~= students.take(j));
        lemma_degenerate_stays(students, su, j + 1);
    } else {
        assert(students.take(j) =~= students);
    }
}

/// Rescales every scaled score onto the equalized axis. Bounds come from the
/// calibration's equalized extremes paired with the observed scaled
/// extremes; each score is interpolated between the anchors that bracket it.
pub fn descale_with_independent_data(
    students: Vec<StudentData>,
    independent_data: [Option<SubjectStats>; 9],
) -> (r: Result<Vec<StudentData>, NormalizeError>)
    requires
        students_in_limit(students_view(students@)),
        stats_in_limit(stats_view(independent_data@)),
    ensures
        match r {
            Ok(v) => normalize(students_view(students@), stats_view(independent_data@)) == Ok::<
                Seq<StudentView>,
                NormalizeError,
            >(students_view(v@)),
            Err(e) => normalize(students_view(students@), stats_view(independent_data@)) == Err::<
                Seq<StudentView>,
                NormalizeError,
            >(e),
        },
        r matches Ok(v) ==> students_in_limit(students_view(v@)),
{
    let ghost sv = students_view(students@);
    let ghost stv = stats_view(independent_data@);
    let bs = match compute_setups(&students, &independent_data) {
        Ok(b) => b,
        Err(e) => {
            return Err(e);
        },
    };
    let ghost su = setups_upto(sv, stv, SUBJECT_COUNT as int)->Ok_0;
    let mut out: Vec<StudentData> = Vec::new();
    let mut k: usize = 0;
    assert(sv.take(0) =~= Seq::<StudentView>::empty());
    assert(students_view(out@) =~= Seq::<StudentView>::empty());
    while k < students.len()
        invariant
            k <= students@.len(),
            sv == students_view(students@),
            stv == stats_view(independent_data@),
            students_in_limit(sv),
            stats_in_limit(stv),
            setups_upto(sv, stv, SUBJECT_COUNT as int) == Ok::<Seq<Option<Setup>>, NormalizeError>(su),
            su.len() == SUBJECT_COUNT,
            forall|i: int| 0 <= i < SUBJECT_COUNT ==> bounds_match(#[trigger] bs@[i], stv[i], su[i]),
            degenerate_student(sv.take(k as int), su) is None,
            students_view(out@) == sv.take(k as int).map_values(
                |st: StudentView| normalized_student(st, su),
            ),
            students_in_limit(students_view(out@)),
        decreases students@.len() - k,
    {
        let st = &students[k];
        assert(sv[k as int] == st@);
        assert forall|j: int| 0 <= j < SUBJECT_COUNT implies option_in_limit(#[trigger] st@.scores[j]) by {
            assert(option_in_limit(sv[k as int].scores[j]));
        }
        let mut scores = st.scores;
        let mut i: usize = 0;
        while i < SUBJECT_COUNT
            invariant
                i <= SUBJECT_COUNT,
                k < students@.len(),
                st == students@[k as int],
                sv == students_view(students@),
                sv[k as int] == st@,
                stv == stats_view(independent_data@),
                students_in_limit(sv),
                stats_in_limit(stv),
                setups_upto(sv, stv, SUBJECT_COUNT as int) == Ok::<Seq<Option<Setup>>, NormalizeError>(su),
                su.len() == SUBJECT_COUNT,
                forall|j: int| 0 <= j < SUBJECT_COUNT ==> bounds_match(#[trigger] bs@[j], stv[j], su[j]),
                degenerate_student(sv.take(k as int), su) is None,
                degenerate_subject(st@.scores, su, i as int) is None,
                forall|j: int| 0 <= j < i ==> #[trigger] scores@[j] == normalized_score(st@.scores[j], su[j]),
                forall|j: int| i <= j < SUBJECT_COUNT ==> #[trigger] scores@[j] == st@.scores[j],
                forall|j: int| 0 <= j < SUBJECT_COUNT ==> option_in_limit(#[trigger] scores@[j]),
            decreases SUBJECT_COUNT - i,
        {
            let v: Option<i64> = match st.scores[i] {
                Some(Score::Scaled(v)) => Some(v),
                Some(Score::EqualizedAndScaled { scaled, .. }) => Some(scaled),
                _ => None,
            };
            assert(v == scaled_of(st@.scores[i as int]));
            match (v, bs[i], &independent_data[i]) {
                (Some(s), Some(b), Some(cal)) => {
                    assert(stv[i as int] == Some(cal@));
                    assert(su[i as int] == Some(setup_of(b, cal.anchors@)));
                    let (ls, le, hs, he) = bracket_exec(b, &cal.anchors, s);
                    if ls < hs {
                        proof {
                            lemma_bracket_holds(sv, stv, su, k as int, i as int);
                        }
                        let e = interpolate_exec(s, ls, le, hs, he);
                        assert(option_in_limit(st@.scores[i as int]));
                        scores[i] = Some(Score::EqualizedAndScaled { scaled: s, equalized: e });
                    } else {
                        let subject = Subject::at(i);
                        proof {
                            assert(degenerate_subject(st@.scores, su, i + 1) == Some(i as int));
                            assert(sv.take(k + 1).drop_last() =~= sv.take(k as int));
                            assert(sv.take(k + 1).last() == st@);
                            lemma_degenerate_subject_stays(st@.scores, su, i + 1, SUBJECT_COUNT as int);
                            assert(degenerate_student(sv.take(k + 1), su) == Some((k as int, i as int)));
                            lemma_degenerate_stays(sv, su, k + 1);
                        }
                        return Err(NormalizeError::DegenerateInterval { student: k, subject });
                    }
                },
                _ => {
                    proof {
                        if v is Some && bs@[i as int] is Some {
                            assert(stv[i as int] is Some);
                            assert(independent_data@[i as int] is Some);
                        }
                    }
                },
            }
            i = i + 1;
        }
        let ghost ns = normalized_student(st@, su);
        let next = st.with_scores(scores, st.placement);
        assert(next@.scores =~= ns.scores);
        assert(next@ == ns);
        assert(sv.take(k + 1).drop_last() =~= sv.take(k as int));
        assert(sv.take(k + 1).last() == st@);
        let ghost before = out@;
        out.push(next);
        assert(students_in_limit(students_view(out@))) by {
            assert(students_view(before).len() == before.len());
            assert(sv.take(k as int).map_values(|st: StudentView| normalized_student(st, su)).len() == k);
            assert(before.len() == k);
            assert(out@ == before.push(next));
            assert forall|a: int, b: int|
                0 <= a < out@.len() && 0 <= b < SUBJECT_COUNT implies option_in_limit(
                #[trigger] students_view(out@)[a].scores[b],
            ) by {
                if a < k {
                    assert(out@[a] == before[a]);
                    assert(students_view(before)[a] == students_view(out@)[a]);
                    assert(option_in_limit(students_view(before)[a].scores[b]));
                } else {
                    assert(out@[a] == next);
                    assert(students_view(out@)[a].scores[b] == scores@[b]);
                }
            }
        }
        assert(students_view(out@) =~= sv.take(k + 1).map_values(
            |st: StudentView| normalized_student(st, su),
        )) by {
            let target = sv.take(k + 1).map_values(|st: StudentView| normalized_student(st, su));
            let prev = sv.take(k as int).map_values(|st: StudentView| normalized_student(st, su));
            assert(students_view(before).len() == before.len());
            assert(prev.len() == k);
            assert(before.len() == k);
            assert(out@ == before.push(next));
            assert(out@.len() == k + 1);
            assert forall|j: int| 0 <= j < k + 1 implies #[trigger] students_view(out@)[j]
                == target[j] by {
                if j < k {
                    assert(out@[j] == before[j]);
                    assert(students_view(before)[j] == prev[j]);
                    assert(sv.take(k + 1)[j] == sv.take(k as int)[j]);
                } else {
                    assert(out@[j] == next);
                }
            }
        }
        k = k + 1;
    }
    assert(sv.take(k as int) =~= sv);
    Ok(out)
}

proof fn lemma_degenerate_subject_stays(scores: Seq<Option<Score>>, su: Seq<Option<Setup>>, j: int, n: int)
    requires
        0 <= j <= n,
        degenerate_subject(scores, su, j) is Some,
    ensures
        degenerate_subject(scores, su, n) == degenerate_subject(scores, su, j),
    decreases n - j,
{
    if j < n {
        lemma_degenerate_subject_stays(scores, su, j, n - 1);
    }
}

/// The equalized component of a score, where it has one.
pub open spec fn equalized_of(o: Option<Score>) -> Option<i64> {
    match o {
        Some(Score::Equalized(e)) => Some(e),
        Some(Score::EqualizedAndScaled { equalized, .. }) => Some(equalized),
        _ => None,
    }
}

pub open spec fn in_i64(v: int) -> bool {
    i64::MIN <= v <= i64::MAX
}

/// Two scores in the same bracket, on rising equalized values, keep their
/// order: the lower scaled score gets an equalized score no higher.
pub proof fn lemma_normalization_monotone(u: Setup, a: Score, b: Score)
    requires
        scaled_of(Some(a)) is Some,
        scaled_of(Some(b)) is Some,
        scaled_of(Some(a))->0 < scaled_of(Some(b))->0,
        bracket(u, scaled_of(Some(a))->0 as int) == bracket(u, scaled_of(Some(b))->0 as int),
        bracket(u, scaled_of(Some(a))->0 as int).lo_scaled <= scaled_of(Some(a))->0,
        scaled_of(Some(b))->0 <= bracket(u, scaled_of(Some(a))->0 as int).hi_scaled,
        bracket(u, scaled_of(Some(a))->0 as int).lo_scaled < bracket(
            u,
            scaled_of(Some(a))->0 as int,
        ).hi_scaled,
        bracket(u, scaled_of(Some(a))->0 as int).lo_equalized <= bracket(
            u,
            scaled_of(Some(a))->0 as int,
        ).hi_equalized,
        in_i64(bracket(u, scaled_of(Some(a))->0 as int).lo_equalized),
        in_i64(bracket(u, scaled_of(Some(a))->0 as int).hi_equalized),
    ensures
        equalized_of(normalized_score(Some(a), Some(u))) is Some,
        equalized_of(normalized_score(Some(b), Some(u))) is Some,
        equalized_of(normalized_score(Some(a), Some(u)))->0 <= equalized_of(
            normalized_score(Some(b), Some(u)),
        )->0,
{
    let sa = scaled_of(Some(a))->0 as int;
    let sb = scaled_of(Some(b))->0 as int;
    let br = bracket(u, sa);
    lemma_interpolate_between(sa, br);
    lemma_interpolate_between(sb, br);
    let w = br.hi_scaled - br.lo_scaled;
    let d = br.hi_equalized - br.lo_equalized;
    lemma_mul_inequality(sa - br.lo_scaled, sb - br.lo_scaled, d);
    lemma_div_is_ordered((sa - br.lo_scaled) * d, (sb - br.lo_scaled) * d, w);
}

/// A score equal to an anchor's scaled value gets exactly that anchor's
/// equalized value, where anchors with that scaled value agree and the
/// bracket is not degenerate.
pub proof fn lemma_anchor_pass_through(u: Setup, x: Score, j: int, s: i64, e: i64)
    requires
        0 <= j < u.anchors.len(),
        u.anchors[j] == (Score::EqualizedAndScaled { scaled: s, equalized: e }),
        scaled_part(x) == Some(s),
        forall|m: int|
            0 <= m < u.anchors.len() && (#[trigger] anchor_point(u.anchors[m])) is Some && (
            anchor_point(u.anchors[m])->0).0 == s ==> anchor_point(u.anchors[m]) == Some(
                (s as int, e as int),
            ),
        bracket(u, s as int).lo_scaled < bracket(u, s as int).hi_scaled,
    ensures
        normalized_score(Some(x), Some(u)) == Some(Score::EqualizedAndScaled { scaled: s, equalized: e }),
{
    lemma_lower_anchor(u.anchors, s as int);
    assert(anchor_point(u.anchors[j]) == Some((s as int, e as int)));
    let a = lower_anchor(u.anchors, s as int)->0;
    let m = choose|m: int|
        0 <= m < u.anchors.len() && anchor_point(#[trigger] u.anchors[m]) == lower_anchor(
            u.anchors,
            s as int,
        );
    assert(a == (s as int, e as int));
    let br = bracket(u, s as int);
    assert(br.lo_scaled == s && br.lo_equalized == e);
    assert(0 * (br.hi_equalized - br.lo_equalized) == 0);
    assert(0 * (br.lo_equalized - br.hi_equalized) == 0);
    assert(interpolate(s as int, br) == e as int);
}

proof fn lemma_normalized_score_keeps_scaled(x: Option<Score>, u: Option<Setup>)
    ensures
        scaled_of(normalized_score(x, u)) == scaled_of(x),
        degenerate(normalized_score(x, u), u) == degenerate(x, u),
        normalized_score(normalized_score(x, u), u) == normalized_score(x, u),
{
}

proof fn lemma_observed_same(a: Seq<StudentView>, b: Seq<StudentView>, i: int)
    requires
        a.len() == b.len(),
        forall|k: int| 0 <= k < a.len() ==> scaled_of(#[trigger] a[k].scores[i]) == scaled_of(b[k].scores[i]),
    ensures
        observed(a, i) == observed(b, i),
    decreases a.len(),
{
    if a.len() > 0 {
        let (ta, tb) = (a.drop_last(), b.drop_last());
        assert forall|k: int| 0 <= k < ta.len() implies scaled_of(#[trigger] ta[k].scores[i]) == scaled_of(
            tb[k].scores[i],
        ) by {
            assert(ta[k] == a[k] && tb[k] == b[k]);
        }
        lemma_observed_same(ta, tb, i);
        assert(scaled_of(a[a.len() - 1].scores[i]) == scaled_of(b[b.len() - 1].scores[i]));
    }
}

proof fn lemma_setups_same(
    a: Seq<StudentView>,
    b: Seq<StudentView>,
    stats: Seq<Option<StatsView>>,
    n: int,
)
    requires
        n <= SUBJECT_COUNT,
        forall|i: int| 0 <= i < SUBJECT_COUNT ==> #[trigger] observed(a, i) == observed(b, i),
    ensures
        setups_upto(a, stats, n) == setups_upto(b, stats, n),
    decreases n,
{
    if n > 0 {
        lemma_setups_same(a, b, stats, n - 1);
        assert(observed(a, n - 1) == observed(b, n - 1));
    }
}

proof fn lemma_degenerate_subject_none(scores: Seq<Option<Score>>, su: Seq<Option<Setup>>, n: int)
    requires
        0 <= n,
    ensures
        degenerate_subject(scores, su, n) is None <==> forall|i: int|
            0 <= i < n ==> !degenerate(#[trigger] scores[i], su[i]),
    decreases n,
{
    if n > 0 {
        lemma_degenerate_subject_none(scores, su, n - 1);
    }
}

proof fn lemma_degenerate_student_none(students: Seq<StudentView>, su: Seq<Option<Setup>>)
    ensures
        degenerate_student(students, su) is None <==> forall|k: int, i: int|
            0 <= k < students.len() && 0 <= i < SUBJECT_COUNT ==> !degenerate(
                #[trigger] students[k].scores[i],
                su[i],
            ),
    decreases students.len(),
{
    if students.len() > 0 {
        let t = students.drop_last();
        lemma_degenerate_student_none(t, su);
        lemma_degenerate_subject_none(students.last().scores, su, SUBJECT_COUNT as int);
        if degenerate_student(students, su) is None {
            assert forall|k: int, i: int|
                0 <= k < students.len() && 0 <= i < SUBJECT_COUNT implies !degenerate(
                #[trigger] students[k].scores[i],
                su[i],
            ) by {
                if k < students.len() - 1 {
                    assert(students[k] == t[k]);
                }
            }
        } else {
            if degenerate_student(t, su) is Some {
                let (k, i) = choose|k: int, i: int|
                    0 <= k < t.len() && 0 <= i < SUBJECT_COUNT && degenerate(
                        #[trigger] t[k].scores[i],
                        su[i],
                    );
                assert(students[k] == t[k]);
            }
        }
    }
}

/// Normalizing data that the normalizer produced changes nothing.
pub proof fn lemma_normalize_idempotent(students: Seq<StudentView>, stats: Seq<Option<StatsView>>)
    requires
        normalize(students, stats) is Ok,
    ensures
        normalize(normalize(students, stats)->Ok_0, stats) == normalize(students, stats),
{
    let su = setups_upto(students, stats, SUBJECT_COUNT as int)->Ok_0;
    let t = normalize(students, stats)->Ok_0;
    assert(t == students.map_values(|st: StudentView| normalized_student(st, su)));
    assert forall|i: int| 0 <= i < SUBJECT_COUNT implies #[trigger] observed(students, i) == observed(
        t,
        i,
    ) by {
        assert forall|k: int| 0 <= k < students.len() implies scaled_of(
            #[trigger] students[k].scores[i],
        ) == scaled_of(t[k].scores[i]) by {
            lemma_normalized_score_keeps_scaled(students[k].scores[i], su[i]);
        }
        lemma_observed_same(students, t, i);
    }
    lemma_setups_same(students, t, stats, SUBJECT_COUNT as int);
    lemma_degenerate_student_none(students, su);
    lemma_degenerate_student_none(t, su);
    assert forall|k: int, i: int| 0 <= k < t.len() && 0 <= i < SUBJECT_COUNT implies !degenerate(
        #[trigger] t[k].scores[i],
        su[i],
    ) by {
        lemma_normalized_score_keeps_scaled(students[k].scores[i], su[i]);
    }
    let t2 = t.map_values(|st: StudentView| normalized_student(st, su));
    assert forall|k: int| 0 <= k < t.len() implies #[trigger] t2[k] == t[k] by {
        let sk = students[k];
        assert forall|i: int| 0 <= i < SUBJECT_COUNT implies #[trigger] t2[k].scores[i]
            == t[k].scores[i] by {
            lemma_normalized_score_keeps_scaled(sk.scores[i], su[i]);
        }
        assert(t2[k].scores =~= t[k].scores);
    }
    assert(t2 =~= t);
}

proof fn lemma_observed_some(students: Seq<StudentView>, i: int, k: int)
    requires
        0 <= k < students.len(),
        scaled_of(students[k].scores[i]) is Some,
    ensures
        observed(students, i) is Some,
    decreases students.len(),
{
    if k < students.len() - 1 {
        assert(students.drop_last()[k] == students[k]);
        lemma_observed_some(students.drop_last(), i, k);
    }
}

/// The setup of a subject in which a student has a scaled score, when
/// normalization succeeds: present, with the calibration's anchors, and not
/// degenerate for any student's score.
proof fn lemma_setup_of_sat_subject(
    students: Seq<StudentView>,
    stats: Seq<Option<StatsView>>,
    k: int,
    j: int,
)
    requires
        normalize(students, stats) is Ok,
        0 <= k < students.len(),
        0 <= j < SUBJECT_COUNT,
        scaled_of(students[k].scores[j]) is Some,
    ensures
        ({
            let su = setups_upto(students, stats, SUBJECT_COUNT as int)->Ok_0;
            &&& su[j] is Some
            &&& stats[j] is Some
            &&& su[j]->0.anchors == stats[j]->0.anchors
            &&& !degenerate(students[k].scores[j], su[j])
            &&& normalize(students, stats)->Ok_0[k].scores[j] == normalized_score(students[k].scores[j], su[j])
        }),
{
    let su = setups_upto(students, stats, SUBJECT_COUNT as int)->Ok_0;
    lemma_setups_index(students, stats, SUBJECT_COUNT as int);
    assert(subject_setup(students, stats, j) == Ok::<Option<Setup>, NormalizeError>(su[j]));
    lemma_observed_some(students, j, k);
    lemma_degenerate_student_none(students, su);
}

/// Under a successful normalization, a student's scaled score equal to an
/// anchor's scaled value becomes exactly that anchor's equalized value,
/// where the subject's anchors with that scaled value agree.
pub proof fn lemma_normalize_anchor_pass_through(
    students: Seq<StudentView>,
    stats: Seq<Option<StatsView>>,
    k: int,
    j: int,
    m: int,
    s: i64,
    e: i64,
)
    requires
        normalize(students, stats) is Ok,
        0 <= k < students.len(),
        0 <= j < SUBJECT_COUNT,
        scaled_of(students[k].scores[j]) == Some(s),
        stats[j] is Some,
        0 <= m < stats[j]->0.anchors.len(),
        stats[j]->0.anchors[m] == (Score::EqualizedAndScaled { scaled: s, equalized: e }),
        forall|x: int|
            0 <= x < stats[j]->0.anchors.len() && (#[trigger] anchor_point(stats[j]->0.anchors[x])) is Some
                && (anchor_point(stats[j]->0.anchors[x])->0).0 == s ==> anchor_point(
                stats[j]->0.anchors[x],
            ) == Some((s as int, e as int)),
    ensures
        normalize(students, stats)->Ok_0[k].scores[j] == Some(
            Score::EqualizedAndScaled { scaled: s, equalized: e },
        ),
{
    let su = setups_upto(students, stats, SUBJECT_COUNT as int)->Ok_0;
    lemma_setup_of_sat_subject(students, stats, k, j);
    let x = students[k].scores[j]->0;
    lemma_anchor_pass_through(su[j]->0, x, m, s, e);
}

/// Under a successful normalization, two scores of one subject that share a
/// bracket with rising equalized ends keep their order.
pub proof fn lemma_normalize_monotone(
    students: Seq<StudentView>,
    stats: Seq<Option<StatsView>>,
    p: int,
    q: int,
    j: int,
)
    requires
        normalize(students, stats) is Ok,
        students_in_limit(students),
        stats_in_limit(stats),
        stats.len() == SUBJECT_COUNT,
        0 <= p < students.len(),
        0 <= q < students.len(),
        0 <= j < SUBJECT_COUNT,
        scaled_of(students[p].scores[j]) is Some,
        scaled_of(students[q].scores[j]) is Some,
        scaled_of(students[p].scores[j])->0 < scaled_of(students[q].scores[j])->0,
        ({
            let u = setups_upto(students, stats, SUBJECT_COUNT as int)->Ok_0[j]->0;
            let b = bracket(u, scaled_of(students[p].scores[j])->0 as int);
            &&& b == bracket(u, scaled_of(students[q].scores[j])->0 as int)
            &&& b.lo_equalized <= b.hi_equalized
        }),
    ensures
        equalized_of(normalize(students, stats)->Ok_0[p].scores[j]) is Some,
        equalized_of(normalize(students, stats)->Ok_0[q].scores[j]) is Some,
        equalized_of(normalize(students, stats)->Ok_0[p].scores[j])->0 <= equalized_of(
            normalize(students, stats)->Ok_0[q].scores[j],
        )->0,
{
    let su = setups_upto(students, stats, SUBJECT_COUNT as int)->Ok_0;
    lemma_setup_of_sat_subject(students, stats, p, j);
    lemma_setup_of_sat_subject(students, stats, q, j);
    lemma_bracket_holds(students, stats, su, p, j);
    lemma_bracket_holds(students, stats, su, q, j);
    let xa = students[p].scores[j]->0;
    let xb = students[q].scores[j]->0;
    lemma_normalization_monotone(su[j]->0, xa, xb);
}

} // verus!
