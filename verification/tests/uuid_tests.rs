use note::utils::{
    extract_uuid, generate_block_id, generate_id, generate_page_id, is_valid_uuid, new_id,
    EntityKind,
};

#[test]
fn test_generate_id() {
    let id = generate_id();
    assert!(is_valid_uuid(&id));
}

#[test]
fn test_generate_block_id() {
    let id = generate_block_id();
    assert!(id.starts_with("block-"));
    let uuid_part = id.strip_prefix("block-").unwrap();
    assert!(is_valid_uuid(uuid_part));
}

#[test]
fn test_generate_page_id() {
    let id = generate_page_id();
    assert!(id.starts_with("page-"));
    let uuid_part = id.strip_prefix("page-").unwrap();
    assert!(is_valid_uuid(uuid_part));
}

#[test]
fn test_extract_uuid() {
    let block_id = generate_block_id();
    let extracted = extract_uuid(&block_id);
    assert!(extracted.is_some());
    assert!(is_valid_uuid(&extracted.unwrap()));
}

#[test]
fn generated_ids_have_the_canonical_shape() {
    let id = generate_id();
    let chars: Vec<char> = id.chars().collect();
    assert_eq!(chars.len(), 36);
    for (i, c) in chars.iter().enumerate() {
        if i == 8 || i == 13 || i == 18 || i == 23 {
            assert_eq!(*c, '-');
        } else {
            assert!(c.is_ascii_digit() || ('a'..='f').contains(c));
        }
    }
    assert_eq!(chars[14], '4');
    assert!(matches!(chars[19], '8' | '9' | 'a' | 'b'));
    assert_ne!(generate_id(), id);
}

#[test]
fn validity_is_decided_by_the_parser() {
    assert!(is_valid_uuid("550e8400-e29b-41d4-a716-446655440000"));
    assert!(is_valid_uuid("550e8400e29b41d4a716446655440000"));
    assert!(!is_valid_uuid(""));
    assert!(!is_valid_uuid("550e8400-e29b-41d4-a716-44665544000"));
    assert!(!is_valid_uuid("block-550e8400-e29b-41d4-a716-446655440000"));
}

#[test]
fn extract_splits_at_the_first_hyphen() {
    assert_eq!(
        extract_uuid("page-550e8400-e29b-41d4-a716-446655440000"),
        Some("550e8400-e29b-41d4-a716-446655440000".to_string())
    );
    assert_eq!(extract_uuid("block-123"), None);
    assert_eq!(extract_uuid("nohyphen"), None);
    assert_eq!(extract_uuid(""), None);
    // the text after the first hyphen of a bare identifier is no identifier
    assert_eq!(extract_uuid("550e8400-e29b-41d4-a716-446655440000"), None);
}

#[test]
fn new_id_marks_the_kind() {
    assert!(is_valid_uuid(&new_id(None)));
    let block = new_id(Some(EntityKind::Block));
    assert!(block.starts_with("block-"));
    assert!(is_valid_uuid(&block["block-".len()..]));
    let page = new_id(Some(EntityKind::Page));
    assert!(page.starts_with("page-"));
    assert_eq!(extract_uuid(&page), Some(page["page-".len()..].to_string()));
    assert_ne!(new_id(None), new_id(None));
}
