//! Staging of acute kidney injury from a patient's creatinine series.
use vstd::prelude::*;
use crate::patient::{replay, sorted, Patient};

verus! {

/// The absolute rise of the acute rule: 0.3 mg/dL, in thousandths.
pub const ACUTE_RISE: i64 = 300;

/// The window of the acute rule: 48 hours.
pub const ACUTE_WINDOW: i64 = 172800;

/// The window of the weekly rule: 7 days.
pub const WEEK_WINDOW: i64 = 604800;

/// The lowest level of the series; `u32::MAX` when it is empty.
pub open spec fn baseline_of(s: Seq<(i64, u32)>) -> int
    decreases s.len(),
{
    if s.len() == 0 {
        u32::MAX as int
    } else {
        let rest = baseline_of(s.drop_last());
        if (s.last().1 as int) < rest {
            s.last().1 as int
        } else {
            rest
        }
    }
}

/// Severity of a level against the baseline: 3 from three times the baseline,
/// 2 from twice, 1 from one and a half times, else 0.
pub open spec fn stage(level: int, baseline: int) -> int {
    if level >= 3 * baseline {
        3
    } else if level >= 2 * baseline {
        2
    } else if 2 * level >= 3 * baseline {
        1
    } else {
        0
    }
}

/// The readings `i` before `j` satisfy the weekly rule (`week`) or the acute rule:
/// `j` lies within the rule's window after `i`, and the level rose by at least
/// 0.3 mg/dL (acute) or by at least one and a half times the baseline (weekly).
pub open spec fn qualifies(s: Seq<(i64, u32)>, week: bool, i: int, j: int) -> bool {
    &&& 0 <= i < j < s.len()
    &&& s[j].0 - s[i].0 <= (if week { WEEK_WINDOW } else { ACUTE_WINDOW })
    &&& if week {
        2 * (s[j].1 - s[i].1) >= 3 * baseline_of(s)
    } else {
        s[j].1 - s[i].1 >= ACUTE_RISE
    }
}

/// `(i, j)` is the first qualifying pair, earliest `i` first, then earliest `j`.
pub open spec fn first_pair(s: Seq<(i64, u32)>, week: bool, i: int, j: int) -> bool {
    &&& qualifies(s, week, i, j)
    &&& forall|a: int, b: int| #[trigger]
        qualifies(s, week, a, b) ==> i < a || (i == a && j <= b)
}

pub open spec fn found(s: Seq<(i64, u32)>, week: bool) -> bool {
    exists|i: int, j: int| first_pair(s, week, i, j)
}

/// The reading that the rule flags.
pub open spec fn trigger_index(s: Seq<(i64, u32)>, week: bool) -> int {
    (choose|i: int, j: int| first_pair(s, week, i, j)).1
}

pub open spec fn no_detection() -> Detection {
    Detection { patient_id: 0, timestamp: 0, baseline: 0, max_level: 0, aki_score: 0 }
}

pub open spec fn finding(id: i64, s: Seq<(i64, u32)>, j: int) -> Detection {
    Detection {
        patient_id: id,
        timestamp: s[j].0,
        baseline: baseline_of(s) as u32,
        max_level: s[j].1,
        aki_score: stage(s[j].1 as int, baseline_of(s)) as i32,
    }
}

/// The verdict on a series: the acute rule's first pair if there is one, else the
/// weekly rule's, else no detection.
pub open spec fn detection_of(id: i64, s: Seq<(i64, u32)>) -> Detection {
    if found(s, false) {
        finding(id, s, trigger_index(s, false))
    } else if found(s, true) {
        finding(id, s, trigger_index(s, true))
    } else {
        no_detection()
    }
}

/// The first pair of a rule is unique.
pub proof fn lemma_first_pair_unique(s: Seq<(i64, u32)>, week: bool, i: int, j: int)
    requires
        first_pair(s, week, i, j),
    ensures
        found(s, week),
        trigger_index(s, week) == j,
{
    let (a, b) = choose|a: int, b: int| first_pair(s, week, a, b);
    assert(qualifies(s, week, a, b));
    assert(qualifies(s, week, i, j));
}

/// Two verdicts that agree on all but the patient they name.
pub open spec fn same_verdict(d: Detection, e: Detection) -> bool {
    d.timestamp == e.timestamp && d.baseline == e.baseline && d.max_level == e.max_level
        && d.aki_score == e.aki_score
}

/// The verdict depends on the patient's identity and series alone: evaluating an
/// unchanged patient again gives the same verdict.
pub proof fn lemma_detection_determined(p: Patient, q: Patient)
    requires
        p.spec_id() == q.spec_id(),
        p.series() == q.series(),
    ensures
        detection_of(p.spec_id(), p.series()) == detection_of(q.spec_id(), q.series()),
{
}

/// Replaying the same readings in the same order on two patients without readings
/// gives the same series and, but for the identity, the same verdict.
pub proof fn lemma_replay(p: Patient, q: Patient, calls: Seq<(i64, u32)>)
    requires
        p.series().len() == 0,
        q.series().len() == 0,
    ensures
        replay(p.series(), calls) == replay(q.series(), calls),
        same_verdict(
            detection_of(p.spec_id(), replay(p.series(), calls)),
            detection_of(q.spec_id(), replay(q.series(), calls)),
        ),
{
    assert(p.series() == q.series());
}

/// The outcome of an evaluation: timestamp and level of the reading that a rule
/// picked, the baseline, and the stage (0 for none).
#[derive(Clone, Copy, Debug, PartialEq, Eq, Structural)]
pub struct Detection {
    pub patient_id: i64,
    pub timestamp: i64,
    pub baseline: u32,
    pub max_level: u32,
    pub aki_score: i32,
}

fn baseline(s: &Vec<(i64, u32)>) -> (r: u32)
    ensures
        r == baseline_of(s@),
{
    let mut b: u32 = u32::MAX;
    let mut i: usize = 0;
    while i < s.len()
        invariant
            i <= s@.len(),
            b == baseline_of(s@.subrange(0, i as int)),
        decreases s@.len() - i,
    {
        assert(s@.subrange(0, i + 1).drop_last() =~= s@.subrange(0, i as int));
        if s[i].1 < b {
            b = s[i].1;
        }
        i = i + 1;
    }
    assert(s@.subrange(0, i as int) =~= s@);
    b
}

fn stage_of(level: u32, baseline: u32) -> (r: i32)
    ensures
        r == stage(level as int, baseline as int),
{
    let l = level as u64;
    let b = baseline as u64;
    if l >= 3 * b {
        3
    } else if l >= 2 * b {
        2
    } else if 2 * l >= 3 * b {
        1
    } else {
        0
    }
}

/// Scans pairs, earliest `i` first and then earliest `j`, for the first one that
/// satisfies the rule; the window check stops each inner scan.
fn first_rise(s: &Vec<(i64, u32)>, base: u32, week: bool) -> (r: Option<(usize, usize)>)
    requires
        sorted(s@),
        base == baseline_of(s@),
    ensures
        match r {
            Some((i, j)) => first_pair(s@, week, i as int, j as int),
            None => forall|a: int, b: int| !qualifies(s@, week, a, b),
        },
{
    let n = s.len();
    let window: i128 = if week {
        WEEK_WINDOW as i128
    } else {
        ACUTE_WINDOW as i128
    };
    let mut i: usize = 0;
    while i < n
        invariant
            n == s@.len(),
            i <= n,
            sorted(s@),
            base == baseline_of(s@),
            window == (if week { WEEK_WINDOW } else { ACUTE_WINDOW }),
            forall|a: int, b: int| #[trigger] qualifies(s@, week, a, b) ==> a >= i,
        decreases n - i,
    {
        let mut j: usize = i + 1;
        while j < n && (s[j].0 as i128) - (s[i].0 as i128) <= window
            invariant
                n == s@.len(),
                i < n,
                i + 1 <= j <= n,
                sorted(s@),
                base == baseline_of(s@),
                window == (if week { WEEK_WINDOW } else { ACUTE_WINDOW }),
                forall|a: int, b: int| #[trigger] qualifies(s@, week, a, b) ==> a >= i,
                forall|b: int| #[trigger] qualifies(s@, week, i as int, b) ==> b >= j,
            decreases n - j,
        {
            let diff: i64 = s[j].1 as i64 - s[i].1 as i64;
            let hit = if week {
                2 * diff >= 3 * (base as i64)
            } else {
                diff >= ACUTE_RISE
            };
            if hit {
                assert(qualifies(s@, week, i as int, j as int));
                return Some((i, j));
            }
            assert(!qualifies(s@, week, i as int, j as int));
            j = j + 1;
        }
        assert forall|b: int| #[trigger] qualifies(s@, week, i as int, b) implies false by {
            if j < n {
                assert(s@[j as int].0 <= s@[b].0);
            }
        }
        i = i + 1;
    }
    None
}

impl Detection {
    /// The verdict of no detection.
    pub fn new() -> (r: Detection)
        ensures
            r == no_detection(),
    {
        Detection { patient_id: 0, timestamp: 0, baseline: 0, max_level: 0, aki_score: 0 }
    }

    /// Evaluates the patient's series: the acute rule first, then the weekly rule,
    /// each reporting its first qualifying pair.
    pub fn detect(patient: &Patient) -> (r: Detection)
        requires
            patient.wf(),
        ensures
            r == detection_of(patient.spec_id(), patient.series()),
    {
        let s = patient.levels();
        let base = baseline(s);
        match first_rise(s, base, false) {
            Some((i, j)) => {
                proof {
                    lemma_first_pair_unique(s@, false, i as int, j as int);
                }
                let level = s[j].1;
                return Detection {
                    patient_id: patient.id(),
                    timestamp: s[j].0,
                    baseline: base,
                    max_level: level,
                    aki_score: stage_of(level, base),
                };
            },
            None => {},
        }
        match first_rise(s, base, true) {
            Some((i, j)) => {
                proof {
                    lemma_first_pair_unique(s@, true, i as int, j as int);
                }
                let level = s[j].1;
                Detection {
                    patient_id: patient.id(),
                    timestamp: s[j].0,
                    baseline: base,
                    max_level: level,
                    aki_score: stage_of(level, base),
                }
            },
            None => Detection::new(),
        }
    }
}

} // verus!
