use production_manager::model::{Category, Document, Item};

fn item(id: &str, title: &str, comment: &str, order: usize, created_at: &str) -> Item {
    Item {
        id: id.to_string(),
        title: title.to_string(),
        comment: comment.to_string(),
        order,
        created_at: created_at.to_string(),
    }
}

fn orders_dense(c: &Category) -> bool {
    c.items.iter().enumerate().all(|(i, it)| it.order == i)
}

fn titles(c: &Category) -> Vec<String> {
    c.items.iter().map(|it| it.title.clone()).collect()
}

#[test]
fn new_category_is_empty() {
    let c = Category::new("A");
    assert_eq!(c.name, "A");
    assert!(c.items.is_empty());
}

#[test]
fn add_two_items_scenario() {
    let mut c = Category::new("A");
    c.add_item("X".to_string(), "".to_string());
    c.add_item("Y".to_string(), "note".to_string());
    assert_eq!(c.items.len(), 2);
    assert_eq!(c.items[0].title, "X");
    assert_eq!(c.items[0].comment, "");
    assert_eq!(c.items[0].order, 0);
    assert_eq!(c.items[1].title, "Y");
    assert_eq!(c.items[1].comment, "note");
    assert_eq!(c.items[1].order, 1);
}

#[test]
fn added_items_get_distinct_ids() {
    let mut c = Category::new("A");
    c.add_item("X".to_string(), "".to_string());
    c.add_item("Y".to_string(), "".to_string());
    assert_ne!(c.items[0].id, c.items[1].id);
    assert_eq!(c.items[0].id.len(), 36);
}

#[test]
fn remove_item_reranks() {
    let mut c = Category::new("A");
    c.items.push(item("i1", "A", "", 0, "t"));
    c.items.push(item("i2", "B", "", 1, "t"));
    c.items.push(item("i3", "C", "", 2, "t"));
    c.remove_item("i2");
    assert_eq!(titles(&c), vec!["A", "C"]);
    assert!(orders_dense(&c));
}

#[test]
fn remove_missing_id_is_noop() {
    let mut c = Category::new("A");
    c.items.push(item("i1", "A", "c1", 0, "t1"));
    c.items.push(item("i2", "B", "c2", 1, "t2"));
    let before: Vec<(String, String, usize)> =
        c.items.iter().map(|i| (i.id.clone(), i.title.clone(), i.order)).collect();
    c.remove_item("nope");
    let after: Vec<(String, String, usize)> =
        c.items.iter().map(|i| (i.id.clone(), i.title.clone(), i.order)).collect();
    assert_eq!(before, after);
}

#[test]
fn move_item_to_end_scenario() {
    let mut c = Category::new("A");
    c.items.push(item("i1", "A", "", 0, "t"));
    c.items.push(item("i2", "B", "", 1, "t"));
    c.items.push(item("i3", "C", "", 2, "t"));
    c.move_item(0, 3);
    assert_eq!(titles(&c), vec!["B", "C", "A"]);
    assert!(orders_dense(&c));
}

#[test]
fn move_item_same_position_is_noop() {
    let mut c = Category::new("A");
    c.items.push(item("i1", "A", "", 0, "t"));
    c.items.push(item("i2", "B", "", 1, "t"));
    c.move_item(1, 1);
    assert_eq!(titles(&c), vec!["A", "B"]);
    assert!(orders_dense(&c));
}

#[test]
fn move_item_out_of_range_is_noop() {
    let mut c = Category::new("A");
    c.items.push(item("i1", "A", "", 0, "t"));
    c.items.push(item("i2", "B", "", 1, "t"));
    c.move_item(5, 0);
    assert_eq!(titles(&c), vec!["A", "B"]);
    c.move_item(0, 5);
    assert_eq!(titles(&c), vec!["A", "B"]);
    assert!(orders_dense(&c));
}

#[test]
fn move_item_backwards() {
    let mut c = Category::new("A");
    c.items.push(item("i1", "A", "", 0, "t"));
    c.items.push(item("i2", "B", "", 1, "t"));
    c.items.push(item("i3", "C", "", 2, "t"));
    c.move_item(2, 0);
    assert_eq!(titles(&c), vec!["C", "A", "B"]);
    assert!(orders_dense(&c));
}

#[test]
fn sort_by_title_scenario() {
    let mut c = Category::new("A");
    c.items.push(item("i1", "Banana", "", 0, "t"));
    c.items.push(item("i2", "Apple", "", 1, "t"));
    c.sort_by_title();
    assert_eq!(titles(&c), vec!["Apple", "Banana"]);
    assert!(orders_dense(&c));
}

#[test]
fn sort_by_date_newest_first() {
    let mut c = Category::new("A");
    c.items.push(item("i1", "old", "", 0, "2023-01-01 08:00"));
    c.items.push(item("i2", "new", "", 1, "2024-06-01 09:30"));
    c.items.push(item("i3", "mid", "", 2, "2023-12-31 23:59"));
    c.sort_by_date();
    assert_eq!(titles(&c), vec!["new", "mid", "old"]);
    assert!(orders_dense(&c));
}

#[test]
fn reverse_after_title_sort_gives_descending() {
    let mut c = Category::new("A");
    c.items.push(item("i1", "Banana", "", 0, "t"));
    c.items.push(item("i2", "Cherry", "", 1, "t"));
    c.items.push(item("i3", "Apple", "", 2, "t"));
    c.sort_by_title();
    c.reverse_items();
    assert_eq!(titles(&c), vec!["Cherry", "Banana", "Apple"]);
    assert!(orders_dense(&c));
}

#[test]
fn orders_dense_after_any_sequence() {
    let mut c = Category::new("A");
    c.add_item("d".to_string(), "".to_string());
    assert!(orders_dense(&c));
    c.items.push(item("i9", "b", "", 7, "t"));
    c.reorder_items();
    assert!(orders_dense(&c));
    c.add_item("a".to_string(), "".to_string());
    assert!(orders_dense(&c));
    c.move_item(0, 2);
    assert!(orders_dense(&c));
    c.sort_by_title();
    assert!(orders_dense(&c));
    let id = c.items[0].id.clone();
    c.remove_item(&id);
    assert!(orders_dense(&c));
    c.sort_by_date();
    assert!(orders_dense(&c));
}

#[test]
fn edit_item_rewrites_first_match_only() {
    let mut c = Category::new("A");
    c.items.push(item("i1", "A", "c", 0, "t1"));
    c.items.push(item("i2", "B", "c", 1, "t2"));
    c.edit_item("i2", "B2".to_string(), "edited".to_string());
    assert_eq!(c.items[1].title, "B2");
    assert_eq!(c.items[1].comment, "edited");
    assert_eq!(c.items[1].id, "i2");
    assert_eq!(c.items[1].created_at, "t2");
    assert_eq!(c.items[0].title, "A");
}

#[test]
fn edit_item_missing_id_is_noop() {
    let mut c = Category::new("A");
    c.items.push(item("i1", "A", "c", 0, "t1"));
    c.edit_item("zz", "new".to_string(), "new".to_string());
    assert_eq!(c.items[0].title, "A");
    assert_eq!(c.items[0].comment, "c");
}

#[test]
fn find_item_reports_first_position() {
    let mut c = Category::new("A");
    c.items.push(item("i1", "A", "", 0, "t"));
    c.items.push(item("i2", "B", "", 1, "t"));
    assert_eq!(c.find_item("i2"), Some(1));
    assert_eq!(c.find_item("zz"), None);
}

#[test]
fn default_document_has_three_empty_categories() {
    let d = Document::default();
    assert_eq!(d.categories.len(), 3);
    assert_eq!(d.categories[0].name, "拡張機能");
    assert_eq!(d.categories[1].name, "Webアプリ");
    assert_eq!(d.categories[2].name, "Windowsアプリ");
    assert!(d.categories.iter().all(|c| c.items.is_empty()));
}
