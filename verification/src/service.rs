//! The record service: an ordered in-memory sequence of records exposing
//! create/read/update/delete.  Identifiers are assigned by the service on
//! creation, are pairwise distinct, and are never changed afterwards.

use vstd::prelude::*;

use crate::model::{contains_id, index_of_id, lemma_index_of_id_works, unique_ids, Student,
    StudentView};
use crate::strutil::{push_char, str_eq};

verus! {

/// Relies on uuid's `Uuid::new_v4` and its `Display` implementation: a
/// fresh version-4 identifier rendered in the hyphenated form, which is
/// always 36 characters.  The identifier is random, so nothing is assumed
/// about which one comes back.
#[verifier::external_body]
fn new_student_id() -> (r: String)
    ensures
        r@.len() == 36,
{
    uuid::Uuid::new_v4().to_string()
}

/// Why an operation failed.
#[derive(Debug, PartialEq, Eq, Structural)]
pub enum ServiceError {
    /// No record carries the requested identifier.
    NotFound,
}

/// True if some record in `students` carries the identifier `id`.
fn contains_id_exec(students: &Vec<Student>, id: &str) -> (r: bool)
    ensures
        r == contains_id(students.deep_view(), id@),
{
    let mut i: usize = 0;
    while i < students.len()
        invariant
            0 <= i <= students.len(),
            forall|k: int| 0 <= k < i ==> students.deep_view()[k].id != id@,
        decreases students.len() - i,
    {
        if str_eq(students[i].id.as_str(), id) {
            proof {
                assert(students.deep_view()[i as int].id == id@);
            }
            return true;
        }
        i = i + 1;
    }
    proof {
        assert(!contains_id(students.deep_view(), id@));
    }
    false
}

/// The records with the first occurrence of each identifier kept and every
/// later one dropped.
pub open spec fn dedup_by_id(rs: Seq<StudentView>) -> Seq<StudentView>
    decreases rs.len(),
{
    if rs.len() == 0 {
        Seq::empty()
    } else {
        let prefix = dedup_by_id(rs.drop_last());
        if contains_id(prefix, rs.last().id) {
            prefix
        } else {
            prefix.push(rs.last())
        }
    }
}

/// The record service.
pub struct StudentService {
    students: Vec<Student>,
}

impl View for StudentService {
    type V = Seq<StudentView>;

    closed spec fn view(&self) -> Seq<StudentView> {
        self.students.deep_view()
    }
}

impl StudentService {
    /// The service invariant: no two records share an identifier.
    pub open spec fn wf(&self) -> bool {
        unique_ids(self@)
    }

    /// An empty service.
    pub fn new() -> (s: Self)
        ensures
            s@ == Seq::<StudentView>::empty(),
            s.wf(),
    {
        let s = StudentService { students: Vec::new() };
        proof {
            assert(s@ =~= Seq::<StudentView>::empty());
        }
        s
    }

    /// A service over the given records.  Of records sharing an identifier
    /// only the first is kept, so a sequence that already satisfies the
    /// invariant is taken as it is.
    pub fn from_records(records: Vec<Student>) -> (s: Self)
        ensures
            s.wf(),
            s@ == dedup_by_id(records.deep_view()),
            unique_ids(records.deep_view()) ==> s@ == records.deep_view(),
    {
        let ghost rsv = records.deep_view();
        let n = records.len();
        let mut kept: Vec<Student> = Vec::new();
        proof {
            assert(kept.deep_view() =~= Seq::<StudentView>::empty());
            assert(rsv.take(0) =~= Seq::<StudentView>::empty());
        }
        let mut i: usize = 0;
        while i < n
            invariant
                rsv == records.deep_view(),
                n == records.len(),
                rsv.len() == n,
                0 <= i <= n,
                kept.deep_view() == dedup_by_id(rsv.take(i as int)),
                unique_ids(kept.deep_view()),
            decreases n - i,
        {
            let ghost keptv = kept.deep_view();
            proof {
                assert(rsv.take(i + 1).drop_last() =~= rsv.take(i as int));
                assert(rsv.take(i + 1).last() == rsv[i as int]);
                assert(records.deep_view()[i as int] == records[i as int]@);
            }
            if !contains_id_exec(&kept, records[i].id.as_str()) {
                let ghost newv = keptv.push(rsv[i as int]);
                kept.push(records[i].clone());
                proof {
                    assert(kept.deep_view() =~= newv);
                    assert forall|a: int, b: int| 0 <= a < b < newv.len() implies newv[a].id
                        != newv[b].id by {
                        if b == newv.len() - 1 {
                            assert(!contains_id(keptv, newv[b].id));
                            assert(newv[a] == keptv[a]);
                        }
                    }
                }
            }
            i = i + 1;
        }
        proof {
            assert(rsv.take(n as int) =~= rsv);
        }
        let s = StudentService { students: kept };
        proof {
            if unique_ids(rsv) {
                lemma_dedup_of_unique(rsv);
            }
        }
        s
    }

    /// A copy of the full sequence, in insertion order.
    pub fn get_students(&self) -> (r: Vec<Student>)
        ensures
            r.deep_view() == self@,
    {
        let mut out: Vec<Student> = Vec::new();
        proof {
            assert(out.deep_view() =~= self@.take(0));
        }
        let mut i: usize = 0;
        while i < self.students.len()
            invariant
                0 <= i <= self.students.len(),
                out.deep_view() == self.students.deep_view().take(i as int),
            decreases self.students.len() - i,
        {
            let ghost outv = out.deep_view();
            out.push(self.students[i].clone());
            proof {
                assert(out.deep_view() =~= outv.push(self.students.deep_view()[i as int]));
                assert(self.students.deep_view().take(i + 1) =~= outv.push(
                    self.students.deep_view()[i as int],
                ));
            }
            i = i + 1;
        }
        proof {
            assert(self.students.deep_view().take(self.students.len() as int) =~= self@);
        }
        out
    }

    /// The first record carrying `id`, or `None` when no record does.
    pub fn get_student(&self, id: &str) -> (r: Option<Student>)
        ensures
            match r {
                Some(st) => contains_id(self@, id@) && st@ == self@[index_of_id(self@, id@)],
                None => !contains_id(self@, id@),
            },
    {
        let mut i: usize = 0;
        while i < self.students.len()
            invariant
                0 <= i <= self.students.len(),
                forall|k: int| 0 <= k < i ==> self.students.deep_view()[k].id != id@,
            decreases self.students.len() - i,
        {
            if str_eq(self.students[i].id.as_str(), id) {
                proof {
                    assert(self@[i as int].id == id@);
                    lemma_index_of_id_works(self@, id@);
                    assert(index_of_id(self@, id@) == i);
                }
                return Some(self.students[i].clone());
            }
            i = i + 1;
        }
        proof {
            assert(!contains_id(self@, id@));
        }
        None
    }

    /// Creates a record: generates a fresh identifier, appends the record,
    /// and returns the stored copy.  The new identifier differs from every
    /// identifier already present: in the vanishingly unlikely event that
    /// the generated identifier is already taken, it is extended until it
    /// is fresh.
    pub fn add_student(&mut self, name: String, email: String, mobile: String) -> (r: Student)
        requires
            old(self).wf(),
        ensures
            final(self).wf(),
            create_step(old(self)@, final(self)@, r@),
            final(self)@ == old(self)@.push(r@),
            r@.name == name@,
            r@.email == email@,
            r@.mobile == mobile@,
            !contains_id(old(self)@, r@.id),
            r@.id.len() >= 36,
    {
        let ghost rs = old(self)@;
        let mut maxlen: usize = 0;
        let mut j: usize = 0;
        while j < self.students.len()
            invariant
                rs == self.students.deep_view(),
                0 <= j <= self.students.len(),
                rs.len() == self.students.len(),
                forall|k: int| 0 <= k < j ==> rs[k].id.len() <= maxlen,
            decreases self.students.len() - j,
        {
            let l = self.students[j].id.as_str().unicode_len();
            proof {
                assert(rs[j as int].id == self.students[j as int].id@);
            }
            if l > maxlen {
                maxlen = l;
            }
            j = j + 1;
        }
        let mut id = new_student_id();
        while contains_id_exec(&self.students, id.as_str())
            invariant
                rs == self.students.deep_view(),
                forall|k: int| 0 <= k < rs.len() ==> rs[k].id.len() <= maxlen,
                id@.len() >= 36,
            decreases maxlen + 1 - id@.len(),
        {
            proof {
                let k = choose|k: int| 0 <= k < rs.len() && rs[k].id == id@;
                assert(rs[k].id.len() <= maxlen);
            }
            push_char(&mut id, 'x');
        }
        let record = Student { id, name, email, mobile };
        let result = record.clone();
        let ghost rv = record@;
        self.students.push(record);
        proof {
            assert(self.students.deep_view() =~= rs.push(rv));
            assert forall|a: int, b: int| 0 <= a < b < rs.push(rv).len() implies rs.push(
                rv,
            )[a].id != rs.push(rv)[b].id by {
                if b == rs.len() {
                    assert(rs.push(rv)[a] == rs[a]);
                }
            }
        }
        result
    }

    /// Overwrites the three data fields of the record carrying `id`; the
    /// stored identifier itself is never changed.  When no record carries
    /// `id`, signals `NotFound` and changes nothing.
    pub fn update_student(
        &mut self,
        id: &str,
        name: String,
        email: String,
        mobile: String,
    ) -> (r: Result<(), ServiceError>)
        requires
            old(self).wf(),
        ensures
            final(self).wf(),
            final(self)@.len() == old(self)@.len(),
            forall|k: int|
                0 <= k < old(self)@.len() ==> final(self)@[k].id == old(self)@[k].id,
            match r {
                Ok(()) => contains_id(old(self)@, id@) && final(self)@ == old(self)@.update(
                    index_of_id(old(self)@, id@),
                    StudentView { id: id@, name: name@, email: email@, mobile: mobile@ },
                ),
                Err(e) => e == ServiceError::NotFound && !contains_id(old(self)@, id@)
                    && final(self)@ == old(self)@,
            },
    {
        let ghost rs = old(self)@;
        let mut i: usize = 0;
        while i < self.students.len()
            invariant
                rs == old(self)@,
                rs == self.students.deep_view(),
                unique_ids(rs),
                0 <= i <= self.students.len(),
                rs.len() == self.students.len(),
                forall|k: int| 0 <= k < i ==> rs[k].id != id@,
            decreases self.students.len() - i,
        {
            if str_eq(self.students[i].id.as_str(), id) {
                proof {
                    assert(rs[i as int].id == id@);
                    lemma_index_of_id_works(rs, id@);
                    assert(index_of_id(rs, id@) == i);
                }
                let stored_id = self.students[i].id.clone();
                let replacement = Student { id: stored_id, name, email, mobile };
                let ghost repv = replacement@;
                self.students[i] = replacement;
                proof {
                    assert(self.students.deep_view() =~= rs.update(i as int, repv));
                    let updated = rs.update(i as int, repv);
                    assert forall|a: int, b: int| 0 <= a < b < updated.len() implies updated[a].id
                        != updated[b].id by {
                        assert(updated[a].id == rs[a].id);
                        assert(updated[b].id == rs[b].id);
                    }
                }
                return Ok(());
            }
            i = i + 1;
        }
        proof {
            assert(!contains_id(rs, id@));
        }
        Err(ServiceError::NotFound)
    }

    /// Removes every record carrying `id` (at most one, by the invariant).
    /// When no record carries `id`, signals `NotFound` and changes nothing.
    pub fn delete_student(&mut self, id: &str) -> (r: Result<(), ServiceError>)
        requires
            old(self).wf(),
        ensures
            final(self).wf(),
            match r {
                Ok(()) => contains_id(old(self)@, id@) && final(self)@ == old(self)@.remove(
                    index_of_id(old(self)@, id@),
                ) && !contains_id(final(self)@, id@),
                Err(e) => e == ServiceError::NotFound && !contains_id(old(self)@, id@)
                    && final(self)@ == old(self)@,
            },
    {
        let ghost rs = old(self)@;
        let mut i: usize = 0;
        while i < self.students.len()
            invariant
                rs == old(self)@,
                rs == self.students.deep_view(),
                unique_ids(rs),
                0 <= i <= self.students.len(),
                rs.len() == self.students.len(),
                forall|k: int| 0 <= k < i ==> rs[k].id != id@,
            decreases self.students.len() - i,
        {
            if str_eq(self.students[i].id.as_str(), id) {
                proof {
                    assert(rs[i as int].id == id@);
                    lemma_index_of_id_works(rs, id@);
                    assert(index_of_id(rs, id@) == i);
                }
                self.students.remove(i);
                proof {
                    let shrunk = rs.remove(i as int);
                    assert(self.students.deep_view() =~= shrunk);
                    assert forall|a: int, b: int| 0 <= a < b < shrunk.len() implies shrunk[a].id
                        != shrunk[b].id by {}
                    assert forall|k: int| 0 <= k < shrunk.len() implies shrunk[k].id != id@ by {}
                    assert(!contains_id(shrunk, id@));
                }
                return Ok(());
            }
            i = i + 1;
        }
        proof {
            assert(!contains_id(rs, id@));
        }
        Err(ServiceError::NotFound)
    }
}

/// A sequence that already has pairwise-distinct identifiers keeps every
/// record under `dedup_by_id`.
proof fn lemma_dedup_of_unique(rs: Seq<StudentView>)
    requires
        unique_ids(rs),
    ensures
        dedup_by_id(rs) == rs,
    decreases rs.len(),
{
    if rs.len() == 0 {
        assert(dedup_by_id(rs) =~= rs);
    } else {
        lemma_dedup_of_unique(rs.drop_last());
        assert(!contains_id(rs.drop_last(), rs.last().id)) by {
            if contains_id(rs.drop_last(), rs.last().id) {
                let k = choose|k: int|
                    0 <= k < rs.drop_last().len() && rs.drop_last()[k].id == rs.last().id;
                assert(rs[k].id == rs[rs.len() - 1].id);
            }
        }
        assert(dedup_by_id(rs) =~= rs);
    }
}

/// One create operation as a relation between the service view before it,
/// the view after it, and the record it returned.  `add_student` ensures
/// exactly this relation.
pub open spec fn create_step(
    pre: Seq<StudentView>,
    post: Seq<StudentView>,
    created: StudentView,
) -> bool {
    &&& post == pre.push(created)
    &&& !contains_id(pre, created.id)
}

/// A record created at step `a` is still present at every later state of
/// the run.
proof fn lemma_created_id_present(
    states: Seq<Seq<StudentView>>,
    created: Seq<StudentView>,
    a: int,
    m: int,
)
    requires
        states.len() == created.len() + 1,
        forall|k: int| 0 <= k < created.len() ==> create_step(states[k], states[k + 1], created[k]),
        0 <= a < m <= created.len(),
    ensures
        contains_id(states[m], created[a].id),
    decreases m,
{
    if m == a + 1 {
        assert(create_step(states[a], states[a + 1], created[a]));
        assert(states[m][states[a].len() as int].id == created[a].id);
    } else {
        lemma_created_id_present(states, created, a, m - 1);
        let prev = states[m - 1];
        let k = choose|k: int| 0 <= k < prev.len() && prev[k].id == created[a].id;
        assert(create_step(states[m - 1], states[m], created[m - 1]));
        assert(states[m][k].id == created[a].id);
    }
}

/// Uniqueness of created identifiers: over any run of create operations,
/// the returned identifiers are pairwise distinct.  `states` holds the
/// service views around each step and `created[k]` the record returned by
/// the k-th create; each step is what `add_student` ensures.
pub proof fn lemma_created_ids_distinct(states: Seq<Seq<StudentView>>, created: Seq<StudentView>)
    requires
        states.len() == created.len() + 1,
        forall|k: int| 0 <= k < created.len() ==> create_step(states[k], states[k + 1], created[k]),
    ensures
        forall|a: int, b: int| 0 <= a < b < created.len() ==> created[a].id != created[b].id,
{
    assert forall|a: int, b: int| 0 <= a < b < created.len() implies created[a].id
        != created[b].id by {
        lemma_created_id_present(states, created, a, b);
        assert(create_step(states[b], states[b + 1], created[b]));
    }
}

} // verus!
