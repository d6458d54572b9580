use production_manager::drag::DragState;
use production_manager::model::{Category, Document, Item};

fn item(id: &str, title: &str, order: usize) -> Item {
    Item {
        id: id.to_string(),
        title: title.to_string(),
        comment: String::new(),
        order,
        created_at: "t".to_string(),
    }
}

fn doc_abc() -> Document {
    let mut c = Category::new("A");
    c.items.push(item("i1", "A", 0));
    c.items.push(item("i2", "B", 1));
    c.items.push(item("i3", "C", 2));
    Document { categories: vec![c] }
}

#[test]
fn fresh_state_is_idle() {
    let s = DragState::new();
    assert_eq!(s.dragging, None);
    assert_eq!(s.drag_target, None);
}

#[test]
fn hover_without_drag_is_ignored() {
    let mut s = DragState::new();
    s.hover(0, 2);
    assert_eq!(s.drag_target, None);
}

#[test]
fn last_hover_wins() {
    let mut s = DragState::new();
    s.drag_start(0, 1);
    s.hover(0, 2);
    s.hover(0, 0);
    assert_eq!(s.dragging, Some((0, 1)));
    assert_eq!(s.drag_target, Some((0, 0)));
}

#[test]
fn release_resolves_same_category_different_index() {
    let mut s = DragState::new();
    s.drag_start(0, 1);
    s.hover(0, 3);
    assert_eq!(s.release(), Some((0, 1, 3)));
    assert_eq!(s.dragging, None);
    assert_eq!(s.drag_target, None);
}

#[test]
fn release_without_target_does_nothing() {
    let mut s = DragState::new();
    s.drag_start(0, 1);
    assert_eq!(s.release(), None);
    assert_eq!(s.dragging, None);
}

#[test]
fn release_same_index_does_nothing() {
    let mut s = DragState::new();
    s.drag_start(0, 1);
    s.hover(0, 1);
    assert_eq!(s.release(), None);
}

#[test]
fn cross_category_drag_is_ignored() {
    let mut s = DragState::new();
    s.drag_start(0, 1);
    s.hover(1, 0);
    assert_eq!(s.release(), None);
    assert_eq!(s.dragging, None);
    assert_eq!(s.drag_target, None);
}

#[test]
fn new_drag_overwrites_active_one() {
    let mut s = DragState::new();
    s.drag_start(0, 1);
    s.drag_start(0, 2);
    s.hover(0, 0);
    assert_eq!(s.release(), Some((0, 2, 0)));
}

#[test]
fn release_into_applies_the_move() {
    let mut doc = doc_abc();
    let mut s = DragState::new();
    s.drag_start(0, 0);
    s.hover(0, 3);
    let changed = s.release_into(&mut doc);
    assert!(changed);
    let titles: Vec<&str> = doc.categories[0].items.iter().map(|i| i.title.as_str()).collect();
    assert_eq!(titles, vec!["B", "C", "A"]);
    assert!(doc.categories[0].items.iter().enumerate().all(|(i, it)| it.order == i));
    assert_eq!(s.dragging, None);
    assert_eq!(s.drag_target, None);
}

#[test]
fn release_into_ignores_unresolved_gesture() {
    let mut doc = doc_abc();
    let mut s = DragState::new();
    s.drag_start(0, 0);
    s.hover(1, 2);
    let changed = s.release_into(&mut doc);
    assert!(!changed);
    let titles: Vec<&str> = doc.categories[0].items.iter().map(|i| i.title.as_str()).collect();
    assert_eq!(titles, vec!["A", "B", "C"]);
}

#[test]
fn release_into_with_stale_category_is_a_noop() {
    let mut doc = doc_abc();
    let mut s = DragState::new();
    s.drag_start(7, 0);
    s.hover(7, 1);
    let changed = s.release_into(&mut doc);
    assert!(!changed);
    assert_eq!(doc.categories[0].items.len(), 3);
}
