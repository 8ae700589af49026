//! The record type held by the service, together with its abstract view.

use vstd::prelude::*;

verus! {

/// Abstract value of a record: the four fields as character sequences.
#[verifier::ext_equal]
pub ghost struct StudentView {
    pub id: Seq<char>,
    pub name: Seq<char>,
    pub email: Seq<char>,
    pub mobile: Seq<char>,
}

/// A single record.  The `id` is assigned by the service on creation and is
/// never changed afterwards; the other three fields are free-form text.
pub struct Student {
    pub id: String,
    pub name: String,
    pub email: String,
    pub mobile: String,
}

impl View for Student {
    type V = StudentView;

    open spec fn view(&self) -> StudentView {
        StudentView {
            id: self.id@,
            name: self.name@,
            email: self.email@,
            mobile: self.mobile@,
        }
    }
}

impl DeepView for Student {
    type V = StudentView;

    open spec fn deep_view(&self) -> StudentView {
        self@
    }
}

impl Clone for Student {
    fn clone(&self) -> (res: Self)
        ensures
            res@ == self@,
    {
        Student {
            id: self.id.clone(),
            name: self.name.clone(),
            email: self.email.clone(),
            mobile: self.mobile.clone(),
        }
    }
}

/// True if some record in `rs` carries the identifier `id`.
pub open spec fn contains_id(rs: Seq<StudentView>, id: Seq<char>) -> bool {
    exists|i: int| 0 <= i < rs.len() && rs[i].id == id
}

/// The first position in `rs` whose record carries the identifier `id`.
pub open spec fn index_of_id(rs: Seq<StudentView>, id: Seq<char>) -> int {
    choose|i: int| 0 <= i < rs.len() && rs[i].id == id && (forall|j: int|
        0 <= j < i ==> rs[j].id != id)
}

/// No two records in `rs` share an identifier.
pub open spec fn unique_ids(rs: Seq<StudentView>) -> bool {
    forall|i: int, j: int| 0 <= i < j < rs.len() ==> rs[i].id != rs[j].id
}

/// A first match always exists when some match exists.
pub proof fn lemma_index_of_id_works(rs: Seq<StudentView>, id: Seq<char>)
    requires
        contains_id(rs, id),
    ensures
        0 <= index_of_id(rs, id) < rs.len(),
        rs[index_of_id(rs, id)].id == id,
        forall|j: int| 0 <= j < index_of_id(rs, id) ==> rs[j].id != id,
{
    let w = choose|i: int| 0 <= i < rs.len() && rs[i].id == id;
    lemma_first_match_exists(rs, id, w);
}

proof fn lemma_first_match_exists(rs: Seq<StudentView>, id: Seq<char>, w: int)
    requires
        0 <= w < rs.len(),
        rs[w].id == id,
    ensures
        exists|i: int|
            0 <= i < rs.len() && rs[i].id == id && (forall|j: int| 0 <= j < i ==> rs[j].id != id),
    decreases w,
{
    if forall|j: int| 0 <= j < w ==> rs[j].id != id {
        assert(0 <= w < rs.len() && rs[w].id == id && (forall|j: int|
            0 <= j < w ==> rs[j].id != id));
    } else {
        let w2 = choose|j: int| 0 <= j < w && rs[j].id == id;
        lemma_first_match_exists(rs, id, w2);
    }
}

} // verus!
