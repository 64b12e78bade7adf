use cardboard::errors::StoreError;
use cardboard::tags::TagStore;

#[test]
fn create_tag_assigns_sequential_ids() {
    let mut s = TagStore::new();
    let a = s.create_tag(String::from("red")).unwrap();
    let b = s.create_tag(String::from("blue")).unwrap();
    assert_eq!(a.id, 1);
    assert_eq!(b.id, 2);
    assert_eq!(a.name, "red");
    let listed = s.get_tags();
    assert_eq!(listed.len(), 2);
    assert_eq!(listed[0].name, "red");
    assert_eq!(listed[1].name, "blue");
}

#[test]
fn create_tag_reports_id_exhaustion() {
    let mut s = TagStore::new();
    s.next_tag_id = i32::MAX;
    let r = s.create_tag(String::from("x"));
    assert_eq!(r.unwrap_err(), StoreError::StorageFailure);
}

#[test]
fn update_tag_renames_and_ignores_absent() {
    let mut s = TagStore::new();
    let a = s.create_tag(String::from("red")).unwrap();
    s.update_tag(a.id, String::from("crimson"));
    assert_eq!(s.get_tags()[0].name, "crimson");
    s.update_tag(99, String::from("ghost"));
    assert_eq!(s.get_tags().len(), 1);
    assert_eq!(s.get_tags()[0].name, "crimson");
}

#[test]
fn delete_tag_removes_and_ignores_absent() {
    let mut s = TagStore::new();
    let a = s.create_tag(String::from("red")).unwrap();
    let b = s.create_tag(String::from("blue")).unwrap();
    s.delete_tag(a.id);
    let listed = s.get_tags();
    assert_eq!(listed.len(), 1);
    assert_eq!(listed[0].id, b.id);
    s.delete_tag(a.id);
    assert_eq!(s.get_tags().len(), 1);
}
