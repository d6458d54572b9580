use production_manager::model::{Category, Item};

fn item(title: &str, comment: &str, order: usize, created_at: &str) -> Item {
    Item {
        id: format!("id-{}", order),
        title: title.to_string(),
        comment: comment.to_string(),
        order,
        created_at: created_at.to_string(),
    }
}

#[test]
fn markdown_single_item_without_comment() {
    let mut c = Category::new("Cat");
    c.items.push(item("T", "", 0, "2024-01-01 10:00"));
    assert_eq!(c.to_markdown(), "# Cat\n\n## T\n\n*Created: 2024-01-01 10:00*\n\n---\n\n");
}

#[test]
fn markdown_includes_non_empty_comment() {
    let mut c = Category::new("Cat");
    c.items.push(item("T", "hello", 0, "2024-01-01 10:00"));
    assert_eq!(
        c.to_markdown(),
        "# Cat\n\n## T\n\nhello\n\n*Created: 2024-01-01 10:00*\n\n---\n\n"
    );
}

#[test]
fn markdown_empty_category_is_heading_only() {
    let c = Category::new("Empty");
    assert_eq!(c.to_markdown(), "# Empty\n\n");
}

#[test]
fn markdown_keeps_item_order() {
    let mut c = Category::new("Cat");
    c.items.push(item("First", "", 0, "t1"));
    c.items.push(item("Second", "note", 1, "t2"));
    assert_eq!(
        c.to_markdown(),
        "# Cat\n\n## First\n\n*Created: t1*\n\n---\n\n## Second\n\nnote\n\n*Created: t2*\n\n---\n\n"
    );
}
