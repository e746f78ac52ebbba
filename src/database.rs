//! The store of patients, each with the verdict on its current series.
use vstd::prelude::*;
use crate::detection::{detection_of, Detection};
use crate::environment::current_timestamp;
use crate::patient::{upserted, Patient};

verus! {

/// What can go wrong with a lookup by identity.
#[derive(Clone, Copy, Debug, PartialEq, Eq, Structural)]
pub enum DbError {
    NotFound,
}

/// An entry holds a well-formed patient and the verdict on its series.
pub open spec fn entry_ok(e: (Patient, Detection)) -> bool {
    e.0.wf() && e.1 == detection_of(e.0.spec_id(), e.0.series())
}

/// Some entry has patient identity `id`.
pub open spec fn holds(s: Seq<(Patient, Detection)>, id: i64) -> bool {
    exists|i: int| 0 <= i < s.len() && (#[trigger] s[i]).0.spec_id() == id
}

/// `i` is the first entry with patient identity `id`.
pub open spec fn first_with(s: Seq<(Patient, Detection)>, id: i64, i: int) -> bool {
    &&& 0 <= i < s.len()
    &&& s[i].0.spec_id() == id
    &&& forall|k: int| 0 <= k < i ==> (#[trigger] s[k]).0.spec_id() != id
}

/// The same patient: identity, name and series.
pub open spec fn same_patient(p: Patient, q: Patient) -> bool {
    p.spec_id() == q.spec_id() && p.spec_name() == q.spec_name() && p.series() == q.series()
}

/// `after` is `before` with the reading `(t, level)` taken for the first patient
/// with identity `id`, and its verdict recomputed.
pub open spec fn applied(
    before: Seq<(Patient, Detection)>,
    after: Seq<(Patient, Detection)>,
    id: i64,
    t: i64,
    level: u32,
) -> bool {
    exists|i: int|
        first_with(before, id, i) && after.len() == before.len() && (forall|k: int|
            0 <= k < before.len() && k != i ==> after[k] == before[k]) && #[trigger] after[i].0.spec_id()
            == id && after[i].0.spec_name() == before[i].0.spec_name() && after[i].0.series()
            == upserted(before[i].0.series(), t, level) && after[i].1 == detection_of(
            id,
            after[i].0.series(),
        )
}

pub struct DataBase {
    data: Vec<(Patient, Detection)>,
    file_path: String,
}

impl DataBase {
    pub closed spec fn entries(&self) -> Seq<(Patient, Detection)> {
        self.data@
    }

    pub closed spec fn path(&self) -> Seq<char> {
        self.file_path@
    }

    pub open spec fn wf(&self) -> bool {
        forall|i: int| 0 <= i < self.entries().len() ==> entry_ok(#[trigger] self.entries()[i])
    }

    /// An empty store with no file.
    pub fn new() -> (db: DataBase)
        ensures
            db.wf(),
            db.entries() == Seq::<(Patient, Detection)>::empty(),
            db.path() == Seq::<char>::empty(),
    {
        DataBase { data: Vec::new(), file_path: String::new() }
    }

    /// A store of the given patients, in order, each with the verdict on its series.
    pub fn from_patients(patients: Vec<Patient>, file_path: String) -> (db: DataBase)
        requires
            forall|i: int| 0 <= i < patients@.len() ==> (#[trigger] patients@[i]).wf(),
        ensures
            db.wf(),
            db.path() == file_path@,
            db.entries().len() == patients@.len(),
            forall|i: int| 0 <= i < patients@.len() ==> (#[trigger] db.entries()[i]).0 == patients@[i],
    {
        let ghost orig = patients@;
        let mut rest = patients;
        let mut data: Vec<(Patient, Detection)> = Vec::new();
        while rest.len() > 0
            invariant
                data@.len() + rest@.len() == orig.len(),
                rest@ == orig.subrange(data@.len() as int, orig.len() as int),
                forall|i: int| 0 <= i < orig.len() ==> (#[trigger] orig[i]).wf(),
                forall|i: int| 0 <= i < data@.len() ==> entry_ok(#[trigger] data@[i]),
                forall|i: int| 0 <= i < data@.len() ==> (#[trigger] data@[i]).0 == orig[i],
            decreases rest@.len(),
        {
            let p = rest.remove(0);
            assert(p == orig[data@.len() as int]);
            let d = Detection::detect(&p);
            data.push((p, d));
            assert(rest@ =~= orig.subrange(data@.len() as int, orig.len() as int));
        }
        DataBase { data, file_path }
    }

    pub fn file_path(&self) -> (r: &String)
        ensures
            r@ == self.path(),
    {
        &self.file_path
    }

    fn position(&self, id: i64) -> (r: Option<usize>)
        ensures
            match r {
                Some(i) => first_with(self.entries(), id, i as int),
                None => !holds(self.entries(), id),
            },
    {
        let mut i: usize = 0;
        while i < self.data.len()
            invariant
                i <= self.data@.len(),
                forall|k: int| 0 <= k < i ==> (#[trigger] self.data@[k]).0.spec_id() != id,
            decreases self.data@.len() - i,
        {
            if self.data[i].0.id() == id {
                return Some(i);
            }
            i = i + 1;
        }
        None
    }

    /// Copies of all entries, in order.
    pub fn fetch_patients(&self) -> (r: Vec<(Patient, Detection)>)
        ensures
            r@.len() == self.entries().len(),
            forall|i: int|
                0 <= i < r@.len() ==> same_patient((#[trigger] r@[i]).0, self.entries()[i].0) && r@[i].1
                    == self.entries()[i].1,
    {
        let mut r: Vec<(Patient, Detection)> = Vec::new();
        let mut i: usize = 0;
        while i < self.data.len()
            invariant
                i <= self.data@.len(),
                r@.len() == i,
                forall|k: int|
                    0 <= k < i ==> same_patient((#[trigger] r@[k]).0, self.data@[k].0) && r@[k].1
                        == self.data@[k].1,
            decreases self.data@.len() - i,
        {
            r.push((self.data[i].0.duplicate(), self.data[i].1));
            i = i + 1;
        }
        r
    }

    /// A copy of the first entry whose patient has identity `id`.
    pub fn fetch_patient(&self, id: i64) -> (r: Result<(Patient, Detection), DbError>)
        ensures
            match r {
                Ok((p, d)) => exists|i: int|
                    first_with(self.entries(), id, i) && same_patient(p, #[trigger] self.entries()[i].0)
                        && d == self.entries()[i].1,
                Err(e) => e == DbError::NotFound && !holds(self.entries(), id),
            },
    {
        match self.position(id) {
            Some(i) => Ok((self.data[i].0.duplicate(), self.data[i].1)),
            None => Err(DbError::NotFound),
        }
    }

    /// Adds a patient with the verdict on its series.
    pub fn add_patient(&mut self, patient: Patient)
        requires
            old(self).wf(),
            patient.wf(),
        ensures
            final(self).wf(),
            final(self).path() == old(self).path(),
            final(self).entries() == old(self).entries().push(
                (patient, detection_of(patient.spec_id(), patient.series())),
            ),
    {
        let detection = Detection::detect(&patient);
        self.data.push((patient, detection));
        assert forall|i: int| 0 <= i < self.entries().len() implies entry_ok(
            #[trigger] self.entries()[i],
        ) by {
            if i < old(self).entries().len() {
                assert(self.entries()[i] == old(self).entries()[i]);
            }
        }
    }

    /// Takes the reading `level` at `timestamp` for the patient with identity `id`
    /// and recomputes its verdict, which it returns.
    pub fn apply_reading(&mut self, id: i64, timestamp: i64, level: u32) -> (r: Result<Detection, DbError>)
        requires
            old(self).wf(),
        ensures
            final(self).wf(),
            final(self).path() == old(self).path(),
            match r {
                Ok(d) => applied(old(self).entries(), final(self).entries(), id, timestamp, level)
                    && holds(final(self).entries(), id) && d == detection_of(
                    id,
                    upserted(
                        old(self).entries()[choose|i: int| first_with(old(self).entries(), id, i)].0.series(),
                        timestamp,
                        level,
                    ),
                ),
                Err(e) => e == DbError::NotFound && !holds(old(self).entries(), id)
                    && final(self).entries() == old(self).entries(),
            },
    {
        match self.position(id) {
            Some(i) => {
                let ghost before = self.data@;
                let (mut patient, _) = self.data.remove(i);
                patient.upsert(timestamp, level);
                let detection = Detection::detect(&patient);
                self.data.insert(i, (patient, detection));
                proof {
                    let after = self.data@;
                    assert(after =~= before.update(i as int, (patient, detection)));
                    assert(after[i as int].0.spec_id() == id);
                    assert(applied(before, after, id, timestamp, level));
                    assert(holds(after, id));
                    let c = choose|c: int| first_with(before, id, c);
                    assert(first_with(before, id, c));
                    if c < i {
                        assert(before[c].0.spec_id() != id);
                    } else if i < c {
                        assert(before[i as int].0.spec_id() != id);
                    }
                    assert forall|k: int| 0 <= k < after.len() implies entry_ok(#[trigger] after[k]) by {
                        if k != i {
                            assert(after[k] == before[k]);
                        }
                    }
                }
                Ok(detection)
            },
            None => Err(DbError::NotFound),
        }
    }

    /// Takes the reading `level` now for the patient with identity `id`.
    pub fn update_patient(&mut self, id: i64, level: u32) -> (r: Result<(), DbError>)
        requires
            old(self).wf(),
        ensures
            final(self).wf(),
            final(self).path() == old(self).path(),
            match r {
                Ok(()) => exists|t: i64| applied(old(self).entries(), final(self).entries(), id, t, level),
                Err(e) => e == DbError::NotFound && !holds(old(self).entries(), id)
                    && final(self).entries() == old(self).entries(),
            },
    {
        let now = current_timestamp();
        match self.apply_reading(id, now, level) {
            Ok(_) => Ok(()),
            Err(e) => Err(e),
        }
    }

    /// Removes the first entry whose patient has identity `id`.
    pub fn delete_patient(&mut self, id: i64) -> (r: Result<(), DbError>)
        requires
            old(self).wf(),
        ensures
            final(self).wf(),
            final(self).path() == old(self).path(),
            match r {
                Ok(()) => exists|i: int|
                    first_with(old(self).entries(), id, i) && final(self).entries() == old(
                        self,
                    ).entries().remove(i),
                Err(e) => e == DbError::NotFound && !holds(old(self).entries(), id)
                    && final(self).entries() == old(self).entries(),
            },
    {
        match self.position(id) {
            Some(i) => {
                let ghost before = self.data@;
                self.data.remove(i);
                assert forall|k: int| 0 <= k < self.entries().len() implies entry_ok(
                    #[trigger] self.entries()[k],
                ) by {
                    if k < i {
                        assert(self.entries()[k] == before[k]);
                    } else {
                        assert(self.entries()[k] == before[k + 1]);
                    }
                }
                Ok(())
            },
            None => Err(DbError::NotFound),
        }
    }
}

} // verus!
