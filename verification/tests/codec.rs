use production_manager::codec::{encode_document, load_document, parse_document};
use production_manager::model::{Category, Document, Item};

fn item(id: &str, title: &str, comment: &str, order: usize, created_at: &str) -> Item {
    Item {
        id: id.to_string(),
        title: title.to_string(),
        comment: comment.to_string(),
        order,
        created_at: created_at.to_string(),
    }
}

fn sample() -> Document {
    let mut a = Category::new("A");
    a.items.push(item("i1", "First", "note", 0, "2024-01-01 10:00"));
    a.items.push(item("i2", "Second", "", 1, "2024-01-02 11:30"));
    let b = Category::new("B");
    Document { categories: vec![a, b] }
}

fn docs_equal(x: &Document, y: &Document) -> bool {
    if x.categories.len() != y.categories.len() {
        return false;
    }
    x.categories.iter().zip(y.categories.iter()).all(|(c, d)| {
        c.name == d.name && c.items.len() == d.items.len()
            && c.items.iter().zip(d.items.iter()).all(|(i, j)| {
                i.id == j.id && i.title == j.title && i.comment == j.comment
                    && i.order == j.order && i.created_at == j.created_at
            })
    })
}

#[test]
fn round_trip_sample_document() {
    let d = sample();
    let text = encode_document(&d);
    let back = parse_document(&text).expect("canonical text parses");
    assert!(docs_equal(&d, &back));
}

#[test]
fn round_trip_default_document() {
    let d = Document::default();
    let text = encode_document(&d);
    let back = parse_document(&text).expect("canonical text parses");
    assert!(docs_equal(&d, &back));
}

#[test]
fn round_trip_empty_document() {
    let d = Document { categories: Vec::new() };
    let text = encode_document(&d);
    let back = parse_document(&text).expect("canonical text parses");
    assert!(docs_equal(&d, &back));
}

#[test]
fn round_trip_awkward_strings() {
    let mut c = Category::new("Quo\"te\\Cat");
    c.items.push(item("i1", "line\nbreak", "tab\tand \"quotes\"", 0, "2024-01-01 10:00"));
    c.items.push(item("i2", "日本語タイトル", "コメント\r\n", 1, "2024-02-02 12:00"));
    let d = Document { categories: vec![c] };
    let text = encode_document(&d);
    let back = parse_document(&text).expect("canonical text parses");
    assert!(docs_equal(&d, &back));
}

#[test]
fn encoded_text_is_the_expected_json() {
    let mut c = Category::new("Cat");
    c.items.push(item("id-1", "T", "", 0, "2024-01-01 10:00"));
    let d = Document { categories: vec![c] };
    let expected = "{\n  \"categories\": [\n    {\n      \"name\": \"Cat\",\n      \"items\": [\n        {\n          \"id\": \"id-1\",\n          \"title\": \"T\",\n          \"comment\": \"\",\n          \"order\": 0,\n          \"created_at\": \"2024-01-01 10:00\"\n        }\n      ]\n    }\n  ]\n}";
    assert_eq!(encode_document(&d), expected);
}

#[test]
fn load_of_missing_content_gives_default() {
    let d = load_document(None);
    assert_eq!(d.categories.len(), 3);
    assert_eq!(d.categories[0].name, "拡張機能");
    assert!(d.categories.iter().all(|c| c.items.is_empty()));
}

#[test]
fn load_of_corrupted_content_gives_default() {
    let d = load_document(Some("{ this is not the document format ]"));
    assert_eq!(d.categories.len(), 3);
    assert_eq!(d.categories[0].name, "拡張機能");
    assert_eq!(d.categories[1].name, "Webアプリ");
    assert_eq!(d.categories[2].name, "Windowsアプリ");
    assert!(d.categories.iter().all(|c| c.items.is_empty()));
}

#[test]
fn load_of_truncated_document_gives_default() {
    let d = sample();
    let text = encode_document(&d);
    let truncated = &text[..text.len() - 2];
    let back = load_document(Some(truncated));
    assert_eq!(back.categories.len(), 3);
    assert!(back.categories.iter().all(|c| c.items.is_empty()));
}

#[test]
fn load_of_canonical_content_gives_the_document() {
    let d = sample();
    let text = encode_document(&d);
    let back = load_document(Some(&text));
    assert!(docs_equal(&d, &back));
}

#[test]
fn parse_rejects_trailing_garbage() {
    let d = sample();
    let mut text = encode_document(&d);
    text.push_str("garbage");
    assert!(parse_document(&text).is_none());
}

#[test]
fn round_trip_large_order_value() {
    let mut c = Category::new("A");
    c.items.push(item("i1", "T", "", usize::MAX, "t"));
    let d = Document { categories: vec![c] };
    let text = encode_document(&d);
    let back = parse_document(&text).expect("canonical text parses");
    assert_eq!(back.categories[0].items[0].order, usize::MAX);
}
