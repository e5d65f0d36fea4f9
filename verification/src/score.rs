//! Grades and the scoring accumulator.
//!
//! Every judged note yields a [`Judge`] grade. A grade's accuracy
//! contribution is a fixed-point ratio in parts-per-million; accuracy is
//! the running mean of all contributions so far, and the score combines
//! accuracy, progress and best combo as
//! `accuracy * (judged/total) * 0.9 * 2e7 + (max_combo/total) * 0.1 * 2e7`,
//! carried out exactly over the fixed-point sums.

use vstd::prelude::*;
use crate::chart::PPM;

verus! {

/// Largest note count a chart may have; keeps every scoring sum inside
/// sixty-four bits.
pub const NOTE_COUNT_MAX: u64 = 1_000_000_000;

/// The judgment of a note.
///
/// `Immaculate` carries its closeness in parts-per-million: one million
/// for a perfect hit, scaled down the further from perfect the hit was.
#[derive(Clone, Copy, PartialEq, Eq, Structural, Debug)]
pub enum Judge {
    Immaculate(u64),
    Extra,
    Normal,
    Fade,
    Miss,
}

impl Judge {
    /// An `Immaculate` closeness is a ratio of at most one.
    pub open spec fn wf(self) -> bool {
        match self {
            Judge::Immaculate(c) => c <= PPM,
            _ => true,
        }
    }

    /// The grade's accuracy contribution in parts-per-million:
    /// `0.8 + 0.2 * closeness` for Immaculate, then 0.7, 0.3, 0.1 and 0
    /// down the tiers.
    pub open spec fn spec_contribution_ppm(self) -> int {
        match self {
            Judge::Immaculate(c) => 800_000 + c / 5,
            Judge::Extra => 700_000,
            Judge::Normal => 300_000,
            Judge::Fade => 100_000,
            Judge::Miss => 0,
        }
    }

    /// The grade's accuracy contribution in parts-per-million.
    pub fn contribution_ppm(&self) -> (r: u64)
        requires
            self.wf(),
        ensures
            r == self.spec_contribution_ppm(),
            r <= PPM,
    {
        match self {
            Judge::Immaculate(c) => 800_000 + *c / 5,
            Judge::Extra => 700_000,
            Judge::Normal => 300_000,
            Judge::Fade => 100_000,
            Judge::Miss => 0,
        }
    }

    /// Whether the grade breaks the combo.
    pub open spec fn breaks_combo(self) -> bool {
        self is Fade || self is Miss
    }
}

/// The scoring accumulator: combo, best combo, judged-note count and the
/// exact sum of accuracy contributions.
#[derive(Clone, Copy, PartialEq, Eq, Structural, Debug)]
pub struct Scoring {
    pub judged_notes: u64,
    pub combo: u64,
    pub max_combo: u64,
    pub acc_sum_ppm: u64,
}

impl Scoring {
    /// The accumulator of a fresh session.
    pub open spec fn zero() -> Scoring {
        Scoring { judged_notes: 0, combo: 0, max_combo: 0, acc_sum_ppm: 0 }
    }

    /// Internal consistency against a session's total note count: every
    /// counter is bounded by the number of judged notes, which never
    /// exceeds the total.
    pub open spec fn wf(self, total_notes: u64) -> bool {
        &&& self.judged_notes <= total_notes <= NOTE_COUNT_MAX
        &&& self.combo <= self.max_combo <= self.judged_notes
        &&& self.acc_sum_ppm <= PPM * self.judged_notes
    }

    /// Accuracy so far: the mean contribution in parts-per-million, zero
    /// before the first grade.
    pub open spec fn spec_accuracy_ppm(self) -> int {
        if self.judged_notes == 0 {
            0
        } else {
            (self.acc_sum_ppm as int) / (self.judged_notes as int)
        }
    }

    /// The exact score, folding the two division-free sums into the
    /// published formula: `accuracy * (judged/total) * 0.9 * 2e7` plus
    /// `(max_combo/total) * 0.1 * 2e7` equals
    /// `(18 * acc_sum_ppm + 2_000_000 * max_combo) / total` exactly.
    pub open spec fn spec_score(self, total_notes: u64) -> int {
        if total_notes == 0 {
            0
        } else {
            (18 * self.acc_sum_ppm + 2_000_000 * self.max_combo) / (total_notes as int)
        }
    }
}

/// The accumulator after one more grade: the judged count grows by one,
/// the combo resets on Fade or Miss and grows otherwise, the best combo
/// keeps up, and the grade's contribution joins the accuracy sum.
pub open spec fn apply_grade(st: Scoring, judge: Judge) -> Scoring {
    let combo = if judge.breaks_combo() {
        0u64
    } else {
        (st.combo + 1) as u64
    };
    let max_combo = if combo > st.max_combo {
        combo
    } else {
        st.max_combo
    };
    Scoring {
        judged_notes: (st.judged_notes + 1) as u64,
        combo,
        max_combo,
        acc_sum_ppm: (st.acc_sum_ppm + judge.spec_contribution_ppm()) as u64,
    }
}

/// The accumulator after a sequence of grades, applied in order.
pub open spec fn apply_grades(st: Scoring, judges: Seq<Judge>) -> Scoring
    decreases judges.len(),
{
    if judges.len() == 0 {
        st
    } else {
        apply_grades(apply_grade(st, judges[0]), judges.drop_first())
    }
}

/// Applying one more grade at the end folds into the sequence.
pub proof fn lemma_apply_grades_snoc(st: Scoring, judges: Seq<Judge>, judge: Judge)
    ensures
        apply_grades(st, judges.push(judge)) == apply_grade(apply_grades(st, judges), judge),
    decreases judges.len(),
{
    if judges.len() == 0 {
        assert(judges.push(judge)[0] == judge);
        assert(judges.push(judge).drop_first() =~= judges);
        assert(apply_grades(st, judges.push(judge))
            == apply_grades(apply_grade(st, judge), judges));
        assert(apply_grades(apply_grade(st, judge), judges) == apply_grade(st, judge));
        assert(apply_grades(st, judges) == st);
    } else {
        assert(judges.push(judge)[0] == judges[0]);
        assert(judges.push(judge).drop_first() =~= judges.drop_first().push(judge));
        lemma_apply_grades_snoc(apply_grade(st, judges[0]), judges.drop_first(), judge);
    }
}

/// Applying two runs of grades in sequence folds into one run.
pub proof fn lemma_apply_grades_concat(st: Scoring, s1: Seq<Judge>, s2: Seq<Judge>)
    ensures
        apply_grades(st, s1 + s2) == apply_grades(apply_grades(st, s1), s2),
    decreases s1.len(),
{
    if s1.len() == 0 {
        assert(s1 + s2 =~= s2);
    } else {
        assert((s1 + s2)[0] == s1[0]);
        assert((s1 + s2).drop_first() =~= s1.drop_first() + s2);
        lemma_apply_grades_concat(apply_grade(st, s1[0]), s1.drop_first(), s2);
    }
}

/// Applying a well-formed grade preserves the accumulator's consistency,
/// provided a note was still unjudged.
pub proof fn lemma_apply_grade_wf(st: Scoring, judge: Judge, total_notes: u64)
    requires
        st.wf(total_notes),
        st.judged_notes < total_notes,
        judge.wf(),
    ensures
        apply_grade(st, judge).wf(total_notes),
        apply_grade(st, judge).judged_notes == st.judged_notes + 1,
{
}

/// A run of `n` perfect grades from a fresh accumulator yields accuracy
/// one, combo and best combo `n`, and an accuracy sum of exactly `n`
/// million — the general shape behind a full-score play.
pub proof fn lemma_perfect_run(judges: Seq<Judge>)
    requires
        forall|i: int| 0 <= i < judges.len() ==> judges[i] == Judge::Immaculate(PPM as u64),
        judges.len() <= NOTE_COUNT_MAX,
    ensures
        apply_grades(Scoring::zero(), judges).judged_notes == judges.len(),
        apply_grades(Scoring::zero(), judges).combo == judges.len(),
        apply_grades(Scoring::zero(), judges).max_combo == judges.len(),
        apply_grades(Scoring::zero(), judges).acc_sum_ppm == PPM * judges.len(),
    decreases judges.len(),
{
    lemma_run_from(Scoring::zero(), judges);
}

/// Helper for [`lemma_perfect_run`]: a perfect run advances any
/// consistent all-perfect accumulator pointwise.
proof fn lemma_run_from(st: Scoring, judges: Seq<Judge>)
    requires
        forall|i: int| 0 <= i < judges.len() ==> judges[i] == Judge::Immaculate(PPM as u64),
        st.combo == st.max_combo == st.judged_notes,
        st.acc_sum_ppm == PPM * st.judged_notes,
        st.judged_notes + judges.len() <= NOTE_COUNT_MAX,
    ensures
        apply_grades(st, judges).judged_notes == st.judged_notes + judges.len(),
        apply_grades(st, judges).combo == st.judged_notes + judges.len(),
        apply_grades(st, judges).max_combo == st.judged_notes + judges.len(),
        apply_grades(st, judges).acc_sum_ppm == PPM * (st.judged_notes + judges.len()),
    decreases judges.len(),
{
    if judges.len() > 0 {
        lemma_run_from(apply_grade(st, judges[0]), judges.drop_first());
    }
}

} // verus!
