//! A patient and the series of their creatinine readings.
use vstd::prelude::*;
use crate::calendar::{day_index, same_day};
use crate::environment::{current_timestamp, random_below};

verus! {

/// Ascending timestamps, each at most once.
pub open spec fn sorted(s: Seq<(i64, u32)>) -> bool {
    forall|a: int, b: int| 0 <= a < b < s.len() ==> s[a].0 < s[b].0
}

/// `p` is where a reading at `t` belongs: every earlier entry is older than `t`,
/// every later one is not.
pub open spec fn is_slot(s: Seq<(i64, u32)>, t: i64, p: int) -> bool {
    &&& 0 <= p <= s.len()
    &&& forall|i: int| 0 <= i < p ==> (#[trigger] s[i]).0 < t
    &&& forall|i: int| p <= i < s.len() ==> (#[trigger] s[i]).0 >= t
}

pub open spec fn slot(s: Seq<(i64, u32)>, t: i64) -> int {
    choose|p: int| is_slot(s, t, p)
}

/// The series with `level` recorded at exactly `t`, replacing a reading already
/// there (an ordered map's insert).
pub open spec fn inserted(s: Seq<(i64, u32)>, t: i64, level: u32) -> Seq<(i64, u32)> {
    let p = slot(s, t);
    if p < s.len() && s[p].0 == t {
        s.update(p, (t, level))
    } else {
        s.insert(p, (t, level))
    }
}

/// The series after a reading `level` taken at `t`: a reading on the calendar day
/// of the latest entry overwrites that entry's level and keeps its timestamp;
/// any other is recorded at `t`.
pub open spec fn upserted(s: Seq<(i64, u32)>, t: i64, level: u32) -> Seq<(i64, u32)> {
    if s.len() == 0 {
        seq![(t, level)]
    } else if day_index(t as int) == day_index(s.last().0 as int) {
        s.update(s.len() - 1, (s.last().0, level))
    } else {
        inserted(s, t, level)
    }
}

/// A sorted series has exactly one slot for each timestamp.
pub proof fn lemma_slot(s: Seq<(i64, u32)>, t: i64, p: int)
    requires
        sorted(s),
        is_slot(s, t, p),
    ensures
        slot(s, t) == p,
{
    let q = slot(s, t);
    assert(is_slot(s, t, q));
    if q < p {
        assert(s[q].0 < t);
    } else if p < q {
        assert(s[p].0 < t);
    }
}

/// Every sorted series has a slot for every timestamp.
pub proof fn lemma_slot_exists(s: Seq<(i64, u32)>, t: i64)
    requires
        sorted(s),
    ensures
        is_slot(s, t, slot(s, t)),
    decreases s.len(),
{
    if s.len() == 0 {
        assert(is_slot(s, t, 0));
        lemma_slot(s, t, 0);
    } else {
        let r = s.drop_last();
        lemma_slot_exists(r, t);
        let q = slot(r, t);
        if s.last().0 < t {
            assert(is_slot(s, t, s.len() as int)) by {
                assert forall|i: int| 0 <= i < s.len() implies (#[trigger] s[i]).0 < t by {
                    if i < s.len() - 1 {
                        assert(s[i].0 < s.last().0);
                    }
                }
            }
            lemma_slot(s, t, s.len() as int);
        } else {
            assert(is_slot(s, t, q)) by {
                assert forall|i: int| q <= i < s.len() implies (#[trigger] s[i]).0 >= t by {
                    if i < s.len() - 1 {
                        assert(s[i] == r[i]);
                    }
                }
                assert forall|i: int| 0 <= i < q implies (#[trigger] s[i]).0 < t by {
                    assert(s[i] == r[i]);
                }
            }
            lemma_slot(s, t, q);
        }
    }
}

/// Two readings on one calendar day, the first no older than the latest entry:
/// the second overwrites the level of the entry that the first left last, so the
/// length stays as the first left it; that entry holds the first reading's
/// timestamp unless the first was itself merged into the latest entry.
pub proof fn lemma_same_day_overwrites(s: Seq<(i64, u32)>, t1: i64, v1: u32, t2: i64, v2: u32)
    requires
        sorted(s),
        s.len() == 0 || s.last().0 <= t1,
        day_index(t1 as int) == day_index(t2 as int),
    ensures
        ({
            let s1 = upserted(s, t1, v1);
            let s2 = upserted(s1, t2, v2);
            &&& s1.len() > 0
            &&& s1.last().1 == v1
            &&& s2.len() == s1.len()
            &&& s2 == s1.update(s1.len() - 1, (s1.last().0, v2))
            &&& (s.len() == 0 || day_index(t1 as int) != day_index(s.last().0 as int)) ==> s1.last().0 == t1
        }),
{
    let s1 = upserted(s, t1, v1);
    if s.len() > 0 && day_index(t1 as int) != day_index(s.last().0 as int) {
        assert(s.last().0 != t1);
        assert(is_slot(s, t1, s.len() as int)) by {
            assert forall|i: int| 0 <= i < s.len() implies (#[trigger] s[i]).0 < t1 by {
                if i < s.len() - 1 {
                    assert(s[i].0 < s.last().0);
                }
            }
        }
        lemma_slot(s, t1, s.len() as int);
        assert(s1 == s.insert(s.len() as int, (t1, v1)));
        assert(s1.last() == (t1, v1));
    }
}

/// A reading on another calendar day than the latest entry, at a timestamp that no
/// entry holds, lengthens the series by one.
pub proof fn lemma_new_day_appends(s: Seq<(i64, u32)>, t: i64, v: u32)
    requires
        sorted(s),
        s.len() > 0 ==> day_index(t as int) != day_index(s.last().0 as int),
        forall|i: int| 0 <= i < s.len() ==> (#[trigger] s[i]).0 != t,
    ensures
        upserted(s, t, v).len() == s.len() + 1,
{
    if s.len() > 0 {
        lemma_slot_exists(s, t);
        let p = slot(s, t);
        if p < s.len() {
            assert(s[p].0 != t);
        }
    }
}

/// The series after taking each reading of `calls` in order.
pub open spec fn replay(s: Seq<(i64, u32)>, calls: Seq<(i64, u32)>) -> Seq<(i64, u32)>
    decreases calls.len(),
{
    if calls.len() == 0 {
        s
    } else {
        upserted(replay(s, calls.drop_last()), calls.last().0, calls.last().1)
    }
}

/// Largest seconds value for which `seconds * 1000 + 999` fits an `i64`.
pub const MAX_ID_SECONDS: u64 = 9223372036854774;

/// A patient identity made of a time in seconds and a salt below 1000.
pub open spec fn id_from(secs: u64, salt: u32) -> int {
    (if secs <= MAX_ID_SECONDS { secs as int } else { MAX_ID_SECONDS as int }) * 1000 + salt
}

/// The identity made of a time in seconds and a salt.
pub fn compose_id(secs: u64, salt: u32) -> (r: i64)
    requires
        salt < 1000,
    ensures
        r == id_from(secs, salt),
{
    let s: u64 = if secs <= MAX_ID_SECONDS {
        secs
    } else {
        MAX_ID_SECONDS
    };
    (s * 1000 + salt as u64) as i64
}

/// A patient: identity, name, and creatinine levels (thousandths of a mg/dL)
/// keyed by Unix timestamp in ascending order.
#[derive(Debug)]
pub struct Patient {
    id: i64,
    name: String,
    s_cr_levels: Vec<(i64, u32)>,
}

impl Patient {
    pub closed spec fn spec_id(&self) -> i64 {
        self.id
    }

    pub closed spec fn spec_name(&self) -> Seq<char> {
        self.name@
    }

    /// The readings as (timestamp, level) pairs.
    pub closed spec fn series(&self) -> Seq<(i64, u32)> {
        self.s_cr_levels@
    }

    pub open spec fn wf(&self) -> bool {
        sorted(self.series())
    }

    /// A patient with the given identity and no readings.
    pub fn with_id(id: i64, name: String) -> (p: Patient)
        ensures
            p.spec_id() == id,
            p.spec_name() == name@,
            p.series() == Seq::<(i64, u32)>::empty(),
            p.wf(),
    {
        Patient { id, name, s_cr_levels: Vec::new() }
    }

    /// A patient with no readings, whose identity is the current time in seconds
    /// times 1000 plus a random salt below 999.
    pub fn new(name: String) -> (p: Patient)
        ensures
            p.spec_name() == name@,
            p.series() == Seq::<(i64, u32)>::empty(),
            p.wf(),
            exists|secs: u64, salt: u32| salt < 999 && p.spec_id() == id_from(secs, salt),
    {
        let secs = current_timestamp() as u64;
        let salt = random_below(999);
        Patient::with_id(compose_id(secs, salt), name)
    }

    pub fn id(&self) -> (r: i64)
        ensures
            r == self.spec_id(),
    {
        self.id
    }

    pub fn name(&self) -> (r: &String)
        ensures
            r@ == self.spec_name(),
    {
        &self.name
    }

    /// The readings, oldest first.
    pub fn levels(&self) -> (r: &Vec<(i64, u32)>)
        ensures
            r@ == self.series(),
    {
        &self.s_cr_levels
    }

    /// A copy of this patient.
    pub fn duplicate(&self) -> (r: Patient)
        ensures
            r.spec_id() == self.spec_id(),
            r.spec_name() == self.spec_name(),
            r.series() == self.series(),
    {
        let mut levels: Vec<(i64, u32)> = Vec::new();
        let mut i: usize = 0;
        while i < self.s_cr_levels.len()
            invariant
                i <= self.s_cr_levels@.len(),
                levels@ == self.s_cr_levels@.subrange(0, i as int),
            decreases self.s_cr_levels@.len() - i,
        {
            levels.push(self.s_cr_levels[i]);
            i = i + 1;
            assert(levels@ =~= self.s_cr_levels@.subrange(0, i as int));
        }
        assert(levels@ =~= self.s_cr_levels@);
        Patient { id: self.id, name: self.name.clone(), s_cr_levels: levels }
    }

    /// Records `level` at exactly `timestamp`, replacing a reading with that
    /// timestamp if there is one.
    pub fn insert_level(&mut self, timestamp: i64, level: u32)
        requires
            old(self).wf(),
        ensures
            final(self).wf(),
            final(self).spec_id() == old(self).spec_id(),
            final(self).spec_name() == old(self).spec_name(),
            final(self).series() == inserted(old(self).series(), timestamp, level),
    {
        let ghost s = self.s_cr_levels@;
        let n = self.s_cr_levels.len();
        let mut p: usize = 0;
        while p < n && self.s_cr_levels[p].0 < timestamp
            invariant
                n == s.len(),
                self.s_cr_levels@ == s,
                p <= n,
                forall|i: int| 0 <= i < p ==> (#[trigger] s[i]).0 < timestamp,
            decreases n - p,
        {
            p = p + 1;
        }
        assert(is_slot(s, timestamp, p as int));
        proof {
            lemma_slot(s, timestamp, p as int);
        }
        if p < n && self.s_cr_levels[p].0 == timestamp {
            self.s_cr_levels.set(p, (timestamp, level));
        } else {
            self.s_cr_levels.insert(p, (timestamp, level));
            assert(sorted(self.s_cr_levels@)) by {
                let r = self.s_cr_levels@;
                assert forall|a: int, b: int| 0 <= a < b < r.len() implies r[a].0 < r[b].0 by {
                    if b < p {
                    } else if b == p {
                        assert(r[a] == s[a]);
                    } else if a < p {
                        assert(r[b] == s[b - 1]);
                    } else if a == p {
                        assert(r[b] == s[b - 1]);
                        assert(s[p as int].0 != timestamp || p == n);
                    } else {
                        assert(r[a] == s[a - 1] && r[b] == s[b - 1]);
                    }
                }
            }
        }
    }

    /// Takes a reading: on the calendar day of the latest entry it overwrites that
    /// entry's level, keeping its timestamp; otherwise it is recorded at `timestamp`.
    pub fn upsert(&mut self, timestamp: i64, level: u32)
        requires
            old(self).wf(),
        ensures
            final(self).wf(),
            final(self).spec_id() == old(self).spec_id(),
            final(self).spec_name() == old(self).spec_name(),
            final(self).series() == upserted(old(self).series(), timestamp, level),
    {
        let n = self.s_cr_levels.len();
        if n == 0 {
            self.s_cr_levels.push((timestamp, level));
        } else {
            let latest = self.s_cr_levels[n - 1].0;
            if same_day(timestamp, latest) {
                self.s_cr_levels.set(n - 1, (latest, level));
            } else {
                self.insert_level(timestamp, level);
            }
        }
    }
}

} // verus!
