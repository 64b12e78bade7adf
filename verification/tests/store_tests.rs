use cardboard::errors::StoreError;
use cardboard::geometry::{Dimmension, RangeParams};
use cardboard::models::CardParams;
use cardboard::store::Store;

fn params(x: i64, y: i64, w: i64, h: i64) -> CardParams {
    CardParams {
        id: 0,
        position: Dimmension { x, y },
        size: Dimmension { x: w, y: h },
        title: String::from("title"),
        contents: String::from("contents"),
        parent_id: None,
        tag_ids: Vec::new(),
    }
}

fn range(min_x: i64, min_y: i64, max_x: i64, max_y: i64) -> RangeParams {
    RangeParams { min_x, min_y, max_x, max_y }
}

#[test]
fn create_assigns_sequential_ids_and_timestamps() {
    let mut s = Store::new();
    let a = s.create(&params(0, 0, 10, 10), 100).unwrap();
    let b = s.create(&params(20, 20, 5, 5), 200).unwrap();
    assert_eq!(a.id, 1);
    assert_eq!(b.id, 2);
    assert_eq!(a.created_at, 100);
    assert_eq!(a.updated_at, 100);
    assert_eq!(a.title, "title");
    assert_eq!(a.parent_id, None);
}

#[test]
fn create_rejects_unrepresentable_corner() {
    let mut s = Store::new();
    let r = s.create(&params(i64::MAX, 0, 1, 0), 0);
    assert_eq!(r.unwrap_err(), StoreError::InvalidGeometry);
    assert_eq!(s.list_all().len(), 0);
}

#[test]
fn create_reports_id_exhaustion() {
    let mut s = Store::new();
    s.next_card_id = i64::MAX;
    let r = s.create(&params(0, 0, 1, 1), 0);
    assert_eq!(r.unwrap_err(), StoreError::StorageFailure);
}

#[test]
fn create_deduplicates_tags() {
    let mut s = Store::new();
    let mut p = params(0, 0, 1, 1);
    p.tag_ids = vec![1, 2, 2, 3, 1];
    let card = s.create(&p, 0).unwrap();
    assert_eq!(card.tag_ids, vec![1, 2, 3]);
}

#[test]
fn get_finds_and_misses() {
    let mut s = Store::new();
    let a = s.create(&params(1, 2, 3, 4), 7).unwrap();
    let got = s.get(a.id).unwrap();
    assert_eq!(got.position.x, 1);
    assert_eq!(got.size.y, 4);
    assert_eq!(s.get(99).unwrap_err(), StoreError::NotFound);
}

#[test]
fn update_overwrites_and_keeps_created_at() {
    let mut s = Store::new();
    let a = s.create(&params(0, 0, 1, 1), 10).unwrap();
    let mut p = params(5, 6, 7, 8);
    p.id = a.id;
    p.title = String::from("new title");
    let b = s.update(&p, 20).unwrap();
    assert_eq!(b.id, a.id);
    assert_eq!(b.position.x, 5);
    assert_eq!(b.title, "new title");
    assert_eq!(b.created_at, 10);
    assert_eq!(b.updated_at, 20);
}

#[test]
fn update_missing_card_is_not_found() {
    let mut s = Store::new();
    let mut p = params(0, 0, 1, 1);
    p.id = 42;
    assert_eq!(s.update(&p, 0).unwrap_err(), StoreError::NotFound);
}

#[test]
fn update_rejects_unrepresentable_corner() {
    let mut s = Store::new();
    let a = s.create(&params(0, 0, 1, 1), 0).unwrap();
    let mut p = params(i64::MIN, 0, -1, 0);
    p.id = a.id;
    assert_eq!(s.update(&p, 0).unwrap_err(), StoreError::InvalidGeometry);
}

#[test]
fn delete_cascades_to_incident_edges() {
    let mut s = Store::new();
    let a = s.create(&params(0, 0, 1, 1), 0).unwrap();
    let b = s.create(&params(2, 2, 1, 1), 0).unwrap();
    let c = s.create(&params(4, 4, 1, 1), 0).unwrap();
    s.connect(a.id, b.id, String::from("ab"), 0).unwrap();
    s.connect(b.id, c.id, String::from("bc"), 0).unwrap();
    s.connect(a.id, c.id, String::from("ac"), 0).unwrap();
    s.delete(b.id);
    let edges = s.list_edges();
    assert_eq!(edges.len(), 1);
    assert_eq!(edges[0].card_parent_id, a.id);
    assert_eq!(edges[0].card_child_id, c.id);
    assert_eq!(s.get(b.id).unwrap_err(), StoreError::NotFound);
    assert_eq!(s.list_all().len(), 2);
}

#[test]
fn delete_missing_card_is_noop() {
    let mut s = Store::new();
    s.create(&params(0, 0, 1, 1), 0).unwrap();
    s.delete(99);
    assert_eq!(s.list_all().len(), 1);
}

#[test]
fn connect_rejects_self_loop() {
    let mut s = Store::new();
    let a = s.create(&params(0, 0, 1, 1), 0).unwrap();
    let r = s.connect(a.id, a.id, String::from("x"), 0);
    assert_eq!(r.unwrap_err(), StoreError::CycleViolation);
}

#[test]
fn connect_rejects_immediate_cycle() {
    let mut s = Store::new();
    let a = s.create(&params(0, 0, 1, 1), 0).unwrap();
    let b = s.create(&params(2, 2, 1, 1), 0).unwrap();
    s.connect(a.id, b.id, String::from("x"), 0).unwrap();
    let r = s.connect(b.id, a.id, String::from("y"), 0);
    assert_eq!(r.unwrap_err(), StoreError::CycleViolation);
}

#[test]
fn connect_rejects_transitive_cycle_but_not_unrelated() {
    let mut s = Store::new();
    let a = s.create(&params(0, 0, 1, 1), 0).unwrap();
    let b = s.create(&params(2, 2, 1, 1), 0).unwrap();
    let c = s.create(&params(4, 4, 1, 1), 0).unwrap();
    let d = s.create(&params(6, 6, 1, 1), 0).unwrap();
    s.connect(a.id, b.id, String::from("ab"), 0).unwrap();
    s.connect(b.id, c.id, String::from("bc"), 0).unwrap();
    let r = s.connect(c.id, a.id, String::from("ca"), 0);
    assert_eq!(r.unwrap_err(), StoreError::CycleViolation);
    s.connect(c.id, d.id, String::from("cd"), 0).unwrap();
}

#[test]
fn connect_rejects_duplicate_pair() {
    let mut s = Store::new();
    let a = s.create(&params(0, 0, 1, 1), 0).unwrap();
    let b = s.create(&params(2, 2, 1, 1), 0).unwrap();
    s.connect(a.id, b.id, String::from("x"), 0).unwrap();
    let r = s.connect(a.id, b.id, String::from("y"), 0);
    assert_eq!(r.unwrap_err(), StoreError::DuplicateEdge);
}

#[test]
fn connect_rejects_missing_endpoints() {
    let mut s = Store::new();
    let a = s.create(&params(0, 0, 1, 1), 0).unwrap();
    assert_eq!(
        s.connect(a.id, 99, String::from("x"), 0).unwrap_err(),
        StoreError::NotFound
    );
    assert_eq!(
        s.connect(99, a.id, String::from("x"), 0).unwrap_err(),
        StoreError::NotFound
    );
}

#[test]
fn connect_stores_label_and_timestamps() {
    let mut s = Store::new();
    let a = s.create(&params(0, 0, 1, 1), 0).unwrap();
    let b = s.create(&params(2, 2, 1, 1), 0).unwrap();
    let e = s.connect(a.id, b.id, String::from("rel"), 5).unwrap();
    assert_eq!(e.card_parent_id, a.id);
    assert_eq!(e.card_child_id, b.id);
    assert_eq!(e.path, "rel");
    assert_eq!(e.created_at, 5);
    assert_eq!(e.updated_at, 5);
    let listed = s.list_edges();
    assert_eq!(listed.len(), 1);
    assert_eq!(listed[0].path, "rel");
}

#[test]
fn update_label_rewrites_and_misses() {
    let mut s = Store::new();
    let a = s.create(&params(0, 0, 1, 1), 0).unwrap();
    let b = s.create(&params(2, 2, 1, 1), 0).unwrap();
    s.connect(a.id, b.id, String::from("old"), 1).unwrap();
    let e = s.update_label(a.id, b.id, String::from("new"), 9).unwrap();
    assert_eq!(e.path, "new");
    assert_eq!(e.created_at, 1);
    assert_eq!(e.updated_at, 9);
    assert_eq!(
        s.update_label(b.id, a.id, String::from("x"), 0).unwrap_err(),
        StoreError::NotFound
    );
}

#[test]
fn disconnect_is_idempotent() {
    let mut s = Store::new();
    let a = s.create(&params(0, 0, 1, 1), 0).unwrap();
    let b = s.create(&params(2, 2, 1, 1), 0).unwrap();
    s.connect(a.id, b.id, String::from("x"), 0).unwrap();
    s.disconnect(a.id, b.id);
    assert_eq!(s.list_edges().len(), 0);
    s.disconnect(a.id, b.id);
    assert_eq!(s.list_edges().len(), 0);
}

#[test]
fn query_range_filters_by_intersection() {
    let mut s = Store::new();
    let a = s.create(&params(0, 0, 10, 10), 0).unwrap();
    let b = s.create(&params(20, 20, 5, 5), 0).unwrap();
    let hits = s.query_range(&range(0, 0, 10, 10));
    assert_eq!(hits.len(), 1);
    assert_eq!(hits[0].id, a.id);
    let hits = s.query_range(&range(0, 0, 30, 30));
    assert_eq!(hits.len(), 2);
    let hits = s.query_range(&range(100, 100, 110, 110));
    assert_eq!(hits.len(), 0);
    let _ = b;
}

#[test]
fn query_range_counts_touching_edges() {
    let mut s = Store::new();
    s.create(&params(0, 0, 10, 10), 0).unwrap();
    let hits = s.query_range(&range(10, 10, 20, 20));
    assert_eq!(hits.len(), 1);
}

#[test]
fn query_range_accepts_degenerate_query() {
    let mut s = Store::new();
    s.create(&params(0, 0, 10, 10), 0).unwrap();
    let hits = s.query_range(&range(5, 5, 5, 5));
    assert_eq!(hits.len(), 1);
    let hits = s.query_range(&range(11, 0, 11, 10));
    assert_eq!(hits.len(), 0);
}

#[test]
fn query_range_handles_negative_sizes() {
    let mut s = Store::new();
    s.create(&params(10, 10, -10, -10), 0).unwrap();
    let hits = s.query_range(&range(0, 0, 5, 5));
    assert_eq!(hits.len(), 1);
}

#[test]
fn parent_id_is_derived_from_edges() {
    let mut s = Store::new();
    let a = s.create(&params(0, 0, 1, 1), 0).unwrap();
    let b = s.create(&params(2, 2, 1, 1), 0).unwrap();
    s.connect(a.id, b.id, String::from("x"), 0).unwrap();
    assert_eq!(s.get(b.id).unwrap().parent_id, Some(a.id));
    assert_eq!(s.get(a.id).unwrap().parent_id, None);
    s.disconnect(a.id, b.id);
    assert_eq!(s.get(b.id).unwrap().parent_id, None);
}

#[test]
fn get_connectors_lists_pairs_and_labels() {
    let mut s = Store::new();
    let a = s.create(&params(0, 0, 1, 1), 0).unwrap();
    let b = s.create(&params(2, 2, 1, 1), 0).unwrap();
    s.connect(a.id, b.id, String::from("rel"), 0).unwrap();
    let rels = s.get_connectors();
    assert_eq!(rels.len(), 1);
    assert_eq!(rels[0].card_parent_id, a.id);
    assert_eq!(rels[0].card_child_id, b.id);
    assert_eq!(rels[0].path, "rel");
}

#[test]
fn scenario_two_cards() {
    let mut s = Store::new();
    let one = s.create(&params(0, 0, 10, 10), 0).unwrap();
    let two = s.create(&params(20, 20, 5, 5), 0).unwrap();
    assert_eq!(one.id, 1);
    assert_eq!(two.id, 2);
    let hits = s.query_range(&range(0, 0, 10, 10));
    assert_eq!(hits.len(), 1);
    assert_eq!(hits[0].id, 1);
    let hits = s.query_range(&range(0, 0, 30, 30));
    assert_eq!(hits.len(), 2);
    s.connect(1, 2, String::from("rel"), 0).unwrap();
    assert_eq!(
        s.connect(2, 1, String::from("rel2"), 0).unwrap_err(),
        StoreError::CycleViolation
    );
    s.disconnect(1, 2);
    s.connect(2, 1, String::from("rel2"), 0).unwrap();
}

#[test]
fn would_create_cycle_reports_reachability() {
    let mut s = Store::new();
    let a = s.create(&params(0, 0, 1, 1), 0).unwrap();
    let b = s.create(&params(2, 2, 1, 1), 0).unwrap();
    let c = s.create(&params(4, 4, 1, 1), 0).unwrap();
    s.connect(a.id, b.id, String::from("x"), 0).unwrap();
    s.connect(b.id, c.id, String::from("y"), 0).unwrap();
    assert!(s.would_create_cycle(c.id, a.id));
    assert!(s.would_create_cycle(a.id, a.id));
    assert!(!s.would_create_cycle(a.id, c.id));
}
