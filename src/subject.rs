use vstd::prelude::*;

use crate::text::{string_from_literal, text_eq};

verus! {

/// The academic subjects that an admission competition can use.
#[derive(Debug, Clone, Copy, PartialEq, Eq, Hash, Structural)]
pub enum Subject {
    Math,
    History,
    Physics,
    Biology,
    Chemistry,
    Geography,
    Literature,
    English,
    Georgian,
}

/// Number of subjects; the length of every subject-indexed array.
pub const SUBJECT_COUNT: usize = 9;

/// All subjects in their canonical order.
pub const ALL_SUBJECTS: [Subject; 9] = [
    Subject::Math,
    Subject::History,
    Subject::Physics,
    Subject::Biology,
    Subject::Chemistry,
    Subject::Geography,
    Subject::Literature,
    Subject::English,
    Subject::Georgian,
];

/// Position of a subject in the canonical order.
pub open spec fn subject_index(s: Subject) -> nat {
    match s {
        Subject::Math => 0,
        Subject::History => 1,
        Subject::Physics => 2,
        Subject::Biology => 3,
        Subject::Chemistry => 4,
        Subject::Geography => 5,
        Subject::Literature => 6,
        Subject::English => 7,
        Subject::Georgian => 8,
    }
}

/// The subject at a position of the canonical order.
pub open spec fn subject_at(i: int) -> Subject
    recommends
        0 <= i < 9,
{
    if i == 0 {
        Subject::Math
    } else if i == 1 {
        Subject::History
    } else if i == 2 {
        Subject::Physics
    } else if i == 3 {
        Subject::Biology
    } else if i == 4 {
        Subject::Chemistry
    } else if i == 5 {
        Subject::Geography
    } else if i == 6 {
        Subject::Literature
    } else if i == 7 {
        Subject::English
    } else {
        Subject::Georgian
    }
}

/// The name under which a subject appears in publications.
pub open spec fn subject_name(s: Subject) -> Seq<char> {
    match s {
        Subject::Georgian => "ქართული"@,
        Subject::English => "უცხოური"@,
        Subject::Math => "მათემატიკა"@,
        Subject::History => "ისტორია"@,
        Subject::Physics => "ფიზიკა"@,
        Subject::Chemistry => "ქიმია"@,
        Subject::Biology => "ბიოლოგია"@,
        Subject::Geography => "გეოგრაფია"@,
        Subject::Literature => "ლიტერატურა"@,
    }
}

/// The subject whose name is `t`, if any.
pub open spec fn subject_named(t: Seq<char>) -> Option<Subject> {
    if t == subject_name(Subject::Georgian) {
        Some(Subject::Georgian)
    } else if t == subject_name(Subject::English) {
        Some(Subject::English)
    } else if t == subject_name(Subject::Math) {
        Some(Subject::Math)
    } else if t == subject_name(Subject::History) {
        Some(Subject::History)
    } else if t == subject_name(Subject::Physics) {
        Some(Subject::Physics)
    } else if t == subject_name(Subject::Chemistry) {
        Some(Subject::Chemistry)
    } else if t == subject_name(Subject::Biology) {
        Some(Subject::Biology)
    } else if t == subject_name(Subject::Geography) {
        Some(Subject::Geography)
    } else if t == subject_name(Subject::Literature) {
        Some(Subject::Literature)
    } else {
        None
    }
}

/// The plot color of a subject.
pub open spec fn subject_color(s: Subject) -> Seq<char> {
    match s {
        Subject::Georgian => "pink"@,
        Subject::English => "blue"@,
        Subject::Math => "green"@,
        Subject::History => "orange"@,
        Subject::Physics => "red"@,
        Subject::Chemistry => "purple"@,
        Subject::Biology => "violet"@,
        Subject::Geography => "cyan"@,
        Subject::Literature => "yellow"@,
    }
}

impl Subject {
    /// The subject named `s`, or `None` for any other text.
    pub fn from(s: &str) -> (r: Option<Subject>)
        ensures
            r == subject_named(s@),
    {
        if text_eq(s, "ქართული") {
            Some(Subject::Georgian)
        } else if text_eq(s, "უცხოური") {
            Some(Subject::English)
        } else if text_eq(s, "მათემატიკა") {
            Some(Subject::Math)
        } else if text_eq(s, "ისტორია") {
            Some(Subject::History)
        } else if text_eq(s, "ფიზიკა") {
            Some(Subject::Physics)
        } else if text_eq(s, "ქიმია") {
            Some(Subject::Chemistry)
        } else if text_eq(s, "ბიოლოგია") {
            Some(Subject::Biology)
        } else if text_eq(s, "გეოგრაფია") {
            Some(Subject::Geography)
        } else if text_eq(s, "ლიტერატურა") {
            Some(Subject::Literature)
        } else {
            None
        }
    }

    /// The name of the subject as it appears in publications.
    pub fn to_string(&self) -> (r: String)
        ensures
            r@ == subject_name(*self),
    {
        match self {
            Subject::Georgian => string_from_literal("ქართული"),
            Subject::English => string_from_literal("უცხოური"),
            Subject::Math => string_from_literal("მათემატიკა"),
            Subject::History => string_from_literal("ისტორია"),
            Subject::Physics => string_from_literal("ფიზიკა"),
            Subject::Chemistry => string_from_literal("ქიმია"),
            Subject::Biology => string_from_literal("ბიოლოგია"),
            Subject::Geography => string_from_literal("გეოგრაფია"),
            Subject::Literature => string_from_literal("ლიტერატურა"),
        }
    }

    /// The color in which the subject is plotted.
    pub fn color(&self) -> (r: String)
        ensures
            r@ == subject_color(*self),
    {
        match self {
            Subject::Georgian => string_from_literal("pink"),
            Subject::English => string_from_literal("blue"),
            Subject::Math => string_from_literal("green"),
            Subject::History => string_from_literal("orange"),
            Subject::Physics => string_from_literal("red"),
            Subject::Chemistry => string_from_literal("purple"),
            Subject::Biology => string_from_literal("violet"),
            Subject::Geography => string_from_literal("cyan"),
            Subject::Literature => string_from_literal("yellow"),
        }
    }

    /// Position of the subject in the canonical order.
    pub fn index(&self) -> (r: usize)
        ensures
            r == subject_index(*self),
            r < SUBJECT_COUNT,
            subject_at(r as int) == *self,
    {
        match self {
            Subject::Math => 0,
            Subject::History => 1,
            Subject::Physics => 2,
            Subject::Biology => 3,
            Subject::Chemistry => 4,
            Subject::Geography => 5,
            Subject::Literature => 6,
            Subject::English => 7,
            Subject::Georgian => 8,
        }
    }

    /// The subject at position `i` of the canonical order.
    pub fn at(i: usize) -> (r: Subject)
        requires
            i < SUBJECT_COUNT,
        ensures
            r == subject_at(i as int),
            subject_index(r) == i,
    {
        if i == 0 {
            Subject::Math
        } else if i == 1 {
            Subject::History
        } else if i == 2 {
            Subject::Physics
        } else if i == 3 {
            Subject::Biology
        } else if i == 4 {
            Subject::Chemistry
        } else if i == 5 {
            Subject::Geography
        } else if i == 6 {
            Subject::Literature
        } else if i == 7 {
            Subject::English
        } else {
            Subject::Georgian
        }
    }
}

} // verus!
