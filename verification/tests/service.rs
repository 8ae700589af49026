//! Tests of the record service: the create/get/update/delete scenarios and
//! the identifier guarantees.

use student_records::model::Student;
use student_records::service::{ServiceError, StudentService};
use student_records::store::{load_students, save_students};

fn record(id: &str, name: &str, email: &str, mobile: &str) -> Student {
    Student {
        id: id.to_string(),
        name: name.to_string(),
        email: email.to_string(),
        mobile: mobile.to_string(),
    }
}

#[test]
fn create_then_get() {
    let mut svc = StudentService::new();
    let created = svc.add_student(
        "Aman".to_string(),
        "aman@example.com".to_string(),
        "9876543210".to_string(),
    );
    assert!(!created.id.is_empty());
    let fetched = svc.get_student(&created.id).expect("the created record is stored");
    assert_eq!(fetched.id, created.id);
    assert_eq!(fetched.name, "Aman");
    assert_eq!(fetched.email, "aman@example.com");
    assert_eq!(fetched.mobile, "9876543210");
}

#[test]
fn update_unknown_id_changes_nothing() {
    let mut svc = StudentService::new();
    svc.add_student("A".to_string(), "a@x".to_string(), "1".to_string());
    let before: Vec<Student> = svc.get_students();
    let res = svc.update_student(
        "no-such-id",
        "B".to_string(),
        "b@x".to_string(),
        "2".to_string(),
    );
    assert_eq!(res, Err(ServiceError::NotFound));
    let after = svc.get_students();
    assert_eq!(after.len(), before.len());
    assert_eq!(after[0].id, before[0].id);
    assert_eq!(after[0].name, before[0].name);
    assert_eq!(after[0].email, before[0].email);
    assert_eq!(after[0].mobile, before[0].mobile);
}

#[test]
fn update_keeps_identifier() {
    let mut svc = StudentService::new();
    let created = svc.add_student("A".to_string(), "a@x".to_string(), "1".to_string());
    let res = svc.update_student(
        &created.id,
        "Aman Verasia".to_string(),
        "aman@example.com".to_string(),
        "9876543210".to_string(),
    );
    assert_eq!(res, Ok(()));
    let fetched = svc.get_student(&created.id).expect("still stored");
    assert_eq!(fetched.id, created.id);
    assert_eq!(fetched.name, "Aman Verasia");
    assert_eq!(fetched.email, "aman@example.com");
    assert_eq!(fetched.mobile, "9876543210");
}

#[test]
fn delete_then_get_is_not_found() {
    let mut svc = StudentService::new();
    let created = svc.add_student("A".to_string(), "a@x".to_string(), "1".to_string());
    assert_eq!(svc.delete_student(&created.id), Ok(()));
    assert!(svc.get_student(&created.id).is_none());
    assert_eq!(svc.delete_student(&created.id), Err(ServiceError::NotFound));
    assert!(svc.get_students().is_empty());
}

#[test]
fn two_creates_no_lost_update() {
    let mut svc = StudentService::new();
    let first = svc.add_student("A".to_string(), "a@x".to_string(), "1".to_string());
    let second = svc.add_student("B".to_string(), "b@x".to_string(), "2".to_string());
    let all = svc.get_students();
    assert_eq!(all.len(), 2);
    assert_ne!(first.id, second.id);
    assert_eq!(all[0].id, first.id);
    assert_eq!(all[1].id, second.id);
}

#[test]
fn created_ids_are_pairwise_distinct() {
    let mut svc = StudentService::new();
    let mut ids: Vec<String> = Vec::new();
    for i in 0..10 {
        let created = svc.add_student(format!("name-{i}"), format!("{i}@x"), i.to_string());
        ids.push(created.id);
    }
    for a in 0..ids.len() {
        for b in (a + 1)..ids.len() {
            assert_ne!(ids[a], ids[b]);
        }
    }
}

#[test]
fn list_is_in_insertion_order() {
    let mut svc = StudentService::new();
    for name in ["first", "second", "third"] {
        svc.add_student(name.to_string(), "e".to_string(), "m".to_string());
    }
    let all = svc.get_students();
    let names: Vec<&str> = all.iter().map(|s| s.name.as_str()).collect();
    assert_eq!(names, vec!["first", "second", "third"]);
}

#[test]
fn from_records_keeps_first_of_duplicate_ids() {
    let records = vec![
        record("dup", "first", "f@x", "1"),
        record("other", "second", "s@x", "2"),
        record("dup", "third", "t@x", "3"),
    ];
    let svc = StudentService::from_records(records);
    let all = svc.get_students();
    assert_eq!(all.len(), 2);
    assert_eq!(all[0].id, "dup");
    assert_eq!(all[0].name, "first");
    assert_eq!(all[1].id, "other");
}

#[test]
fn mutation_is_visible_after_reload() {
    // Simulates the persistence cycle: every mutation is saved in full, and
    // a restart loads exactly the saved state.
    let mut svc = StudentService::new();
    let created = svc.add_student("A".to_string(), "a@x".to_string(), "1".to_string());
    let saved = save_students(&svc.get_students());
    let mut svc2 = StudentService::from_records(load_students(Some(&saved)));
    let seen = svc2.get_student(&created.id).expect("the create is visible after reload");
    assert_eq!(seen.name, "A");

    assert_eq!(svc2.delete_student(&created.id), Ok(()));
    let saved2 = save_students(&svc2.get_students());
    let svc3 = StudentService::from_records(load_students(Some(&saved2)));
    assert!(svc3.get_student(&created.id).is_none());
    assert!(svc3.get_students().is_empty());
}
