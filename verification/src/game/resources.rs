//! The result of a play and the grade it earns.

use vstd::prelude::*;

verus! {

/// Judgment counts of a play, handed from the play scene to the score scene.
#[derive(Debug, Clone)]
pub struct PlayResult {
    pub title: String,
    pub perfect: u32,
    pub great: u32,
    pub good: u32,
    pub bad: u32,
    pub poor: u32,
    pub max_combo: u32,
    pub notes_total: u32,
}

impl PlayResult {
    /// A result with no title and every count 0.
    pub fn new() -> (r: PlayResult)
        ensures
            r.title@ == Seq::<char>::empty(),
            r.perfect == 0 && r.great == 0 && r.good == 0 && r.bad == 0 && r.poor == 0,
            r.max_combo == 0 && r.notes_total == 0,
    {
        PlayResult {
            title: String::new(),
            perfect: 0,
            great: 0,
            good: 0,
            bad: 0,
            poor: 0,
            max_combo: 0,
            notes_total: 0,
        }
    }
}

/// The grade label for a score out of 1 000 000: EX from 950 000, S from
/// 900 000, A from 800 000, B from 700 000, C from 600 000, D from 500 000,
/// E below.
pub open spec fn spec_grade(score: u32) -> Seq<char> {
    if score >= 950_000 {
        "EX"@
    } else if score >= 900_000 {
        "S"@
    } else if score >= 800_000 {
        "A"@
    } else if score >= 700_000 {
        "B"@
    } else if score >= 600_000 {
        "C"@
    } else if score >= 500_000 {
        "D"@
    } else {
        "E"@
    }
}

/// Rank of the grade for a score, 0 for E up to 6 for EX.
pub open spec fn grade_rank(score: u32) -> int {
    if score >= 950_000 {
        6
    } else if score >= 900_000 {
        5
    } else if score >= 800_000 {
        4
    } else if score >= 700_000 {
        3
    } else if score >= 600_000 {
        2
    } else if score >= 500_000 {
        1
    } else {
        0
    }
}

/// The grade label for `score` (see `spec_grade`).
pub fn grade_for_score(score: u32) -> (r: &'static str)
    ensures
        r@ == spec_grade(score),
{
    if score >= 950_000 {
        "EX"
    } else if score >= 900_000 {
        "S"
    } else if score >= 800_000 {
        "A"
    } else if score >= 700_000 {
        "B"
    } else if score >= 600_000 {
        "C"
    } else if score >= 500_000 {
        "D"
    } else {
        "E"
    }
}

/// A higher score never earns a lower grade.
pub proof fn lemma_grade_monotone(s1: u32, s2: u32)
    requires
        s1 <= s2,
    ensures
        grade_rank(s1) <= grade_rank(s2),
{
}

} // verus!
