use memdb::document::{Document, DocumentId};

fn create_document(id: u64, content: &str) -> Document {
    Document::new(DocumentId(id), String::from(content))
}

#[test]
fn creates_a_document_with_given_id_and_content() {
    let document = create_document(1, "hello");
    assert_eq!(document.id().value(), 1);
    assert_eq!(document.content, "hello");
}

#[test]
fn document_ids_with_same_value_are_equal() {
    let document1 = create_document(1, "hello");
    let document2 = create_document(2, "world");
    assert_eq!(document1.id().value(), 1);
    assert_eq!(document1.content, "hello");
    assert_eq!(document2.id().value(), 2);
    assert_eq!(document2.content, "world");
}

#[test]
fn cloning_a_document_produces_an_independent_copy() {
    let d1 = create_document(1, "hello");
    let mut d1_clone = d1.clone();
    assert_eq!(d1.id().value(), d1_clone.id().value());
    assert_eq!(d1.content, d1_clone.content);
    d1_clone.content = String::from("world");
    assert_ne!(d1.content, d1_clone.content);
}

#[test]
fn equal_values_make_equal_ids() {
    assert_eq!(DocumentId(5), DocumentId(5));
    assert_ne!(DocumentId(5), DocumentId(6));
    assert_eq!(DocumentId(u64::MAX).value(), u64::MAX);
}
