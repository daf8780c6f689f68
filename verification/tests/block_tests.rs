use note::models::{
    blocks_of_page, parse_block_type, Block, BlockType, CreateBlockRequest, MoveBlockRequest,
    UpdateBlockRequest, VectorClock,
};
use note::utils::clock::now;
use note::AppError;

#[test]
fn test_block_creation() {
    let block = Block::new("Test content".to_string(), "page-123".to_string(), "user1".to_string());

    assert_eq!(block.text, "Test content");
    assert_eq!(block.page_id, "page-123");
    assert_eq!(block.created_by, "user1");
    assert_eq!(block.last_edited_by, "user1");
    assert_eq!(block.version, 1);
    assert_eq!(block.block_type, BlockType::Text);
    assert!(block.is_root());
    assert!(!block.has_children());
    assert!(block.vector_clock.is_none());
    assert!(block.operation_id.is_none());
}

#[test]
fn test_block_child_creation() {
    let child = Block::new_child(
        "Child content".to_string(),
        "page-123".to_string(),
        "block-parent".to_string(),
        1,
        "user1".to_string(),
    );

    assert_eq!(child.parent_id, Some("block-parent".to_string()));
    assert_eq!(child.order, 1);
    assert!(!child.is_root());
}

#[test]
fn test_block_children() {
    let mut parent = Block::new("Parent".to_string(), "page-123".to_string(), "user1".to_string());

    parent.add_child("child-1".to_string());
    parent.add_child("child-2".to_string());
    parent.add_child("child-1".to_string()); // Duplicate should be ignored

    assert_eq!(parent.children.len(), 2);
    assert!(parent.has_children());
    assert!(parent.children.contains(&"child-1".to_string()));
    assert!(parent.children.contains(&"child-2".to_string()));

    parent.remove_child("child-1");
    assert_eq!(parent.children.len(), 1);
    assert!(!parent.children.contains(&"child-1".to_string()));
}

#[test]
fn test_block_properties() {
    let mut block = Block::new("Test".to_string(), "page-123".to_string(), "user1".to_string());

    block.set_property("color".to_string(), serde_json::Value::String("blue".to_string()));
    block.set_property(
        "level".to_string(),
        serde_json::Value::Number(serde_json::Number::from(2)),
    );

    assert_eq!(
        block.get_property("color"),
        Some(&serde_json::Value::String("blue".to_string()))
    );
    assert_eq!(
        block.get_property("level"),
        Some(&serde_json::Value::Number(serde_json::Number::from(2)))
    );

    block.remove_property("color");
    assert_eq!(block.get_property("color"), None);
}

#[test]
fn test_block_type_conversion() {
    assert_eq!(BlockType::from_str("text").unwrap(), BlockType::Text);
    assert_eq!(BlockType::from_str("heading").unwrap(), BlockType::Heading);
    assert_eq!(BlockType::from_str("code").unwrap(), BlockType::Code);
    assert!(BlockType::from_str("invalid").is_err());

    assert_eq!(BlockType::Text.to_string(), "text");
    assert_eq!(BlockType::Heading.to_string(), "heading");

    let mut block = Block::new("Test".to_string(), "page-123".to_string(), "user1".to_string());

    block.convert_type(BlockType::Heading, "user1".to_string());
    assert_eq!(block.block_type, BlockType::Heading);
}

#[test]
fn block_type_names_round_trip_in_any_case() {
    let all = [
        (BlockType::Text, "text"),
        (BlockType::Heading, "heading"),
        (BlockType::ListItem, "list_item"),
        (BlockType::Code, "code"),
        (BlockType::Quote, "quote"),
        (BlockType::Image, "image"),
        (BlockType::Link, "link"),
        (BlockType::Reference, "reference"),
    ];
    for (kind, name) in all {
        assert_eq!(kind.to_string(), name);
        assert_eq!(BlockType::from_str(name), Ok(kind));
        assert_eq!(BlockType::from_str(&name.to_uppercase()), Ok(kind));
    }
    assert_eq!(BlockType::from_str("Nope"), Err("Invalid block type: Nope".to_string()));
    assert_eq!(BlockType::default(), BlockType::Text);
}

#[test]
fn block_edits_bump_the_version() {
    let mut block = Block::new("Original".to_string(), "page-123".to_string(), "user1".to_string());
    assert!(block.id.starts_with("block-"));
    assert_eq!(block.created_at, block.updated_at);
    let before = block.updated_at;
    block.update_text("Updated".to_string(), "user2".to_string());
    assert_eq!(block.text, "Updated");
    assert_eq!(block.last_edited_by, "user2");
    assert_eq!(block.created_by, "user1");
    assert_eq!(block.version, 2);
    assert!(block.updated_at >= before);
    block.touch("user3".to_string());
    assert_eq!(block.version, 3);
    assert_eq!(block.last_edited_by, "user3");
    block.set_order(7);
    block.set_parent(Some("block-x".to_string()));
    assert_eq!(block.order, 7);
    assert!(!block.is_root());
    block.set_parent(None);
    assert!(block.is_root());
}

#[test]
fn vector_clock_starts_empty() {
    assert!(VectorClock::new().clocks.is_empty());
    assert_eq!(VectorClock::default(), VectorClock::new());
}

fn block(id: &str, page: &str, order: i32) -> Block {
    let request = CreateBlockRequest {
        text: id.to_string(),
        page_id: page.to_string(),
        parent_id: None,
        block_type: None,
        properties: None,
        order: Some(order),
    };
    Block::create(request, id.to_string(), "u".to_string(), 3)
}

#[test]
fn block_is_created_from_a_request() {
    let made = block("b1", "p", 4);
    assert_eq!(made.id, "b1");
    assert_eq!(made.text, "b1");
    assert_eq!(made.page_id, "p");
    assert_eq!(made.order, 4);
    assert_eq!(made.version, 1);
    assert_eq!(made.block_type, BlockType::Text);
    assert_eq!(made.created_at, 3);
    assert_eq!(made.last_edited_by, "u");
    let request = CreateBlockRequest {
        text: "t".to_string(),
        page_id: "p".to_string(),
        parent_id: Some("b1".to_string()),
        block_type: Some(BlockType::Code),
        properties: None,
        order: None,
    };
    let child = Block::create(request, "b2".to_string(), "u".to_string(), 3);
    assert_eq!(child.order, 0);
    assert_eq!(child.parent_id, Some("b1".to_string()));
    assert_eq!(child.block_type, BlockType::Code);
}

#[test]
fn block_update_and_move() {
    let mut made = block("b1", "p", 4);
    let nothing = UpdateBlockRequest { text: None, properties: None, block_type: None };
    assert!(!made.apply_update(nothing, 8));
    assert_eq!(made.version, 1);
    assert_eq!(made.updated_at, 3);
    let text = UpdateBlockRequest { text: Some("new".to_string()), properties: None, block_type: None };
    assert!(made.apply_update(text, 8));
    assert_eq!(made.text, "new");
    assert_eq!(made.version, 2);
    assert_eq!(made.updated_at, 8);
    made.apply_move(MoveBlockRequest { new_parent_id: Some("x".to_string()), new_order: -2 }, 9);
    assert_eq!(made.parent_id, Some("x".to_string()));
    assert_eq!(made.order, -2);
    assert_eq!(made.version, 3);
    assert_eq!(made.updated_at, 9);
}

#[test]
fn block_type_names_are_parsed_for_commands() {
    assert_eq!(parse_block_type(None), Ok(None));
    assert_eq!(parse_block_type(Some("QUOTE".to_string())), Ok(Some(BlockType::Quote)));
    assert_eq!(
        parse_block_type(Some("x".to_string())),
        Err(AppError::InvalidBlockData("Invalid block type: Invalid block type: x".to_string()))
    );
}

#[test]
fn blocks_of_a_page_are_listed_by_order() {
    let blocks = vec![
        block("a", "p", 2),
        block("b", "q", 0),
        block("c", "p", 1),
        block("d", "p", 2),
        block("e", "p", -1),
    ];
    assert_eq!(blocks_of_page(&blocks, "p"), vec![4, 2, 0, 3]);
    assert_eq!(blocks_of_page(&blocks, "q"), vec![1]);
    assert_eq!(blocks_of_page(&blocks, "none"), Vec::<usize>::new());
}

/// Waits until the clock has moved past the given time.
fn wait_past(time: i64) {
    while now() <= time {}
}

#[test]
fn test_block_text_update() {
    let mut block = Block::new("Original".to_string(), "page-123".to_string(), "user1".to_string());

    let original_version = block.version;
    let original_updated = block.updated_at;

    // Make sure that the clock has moved on
    wait_past(original_updated);

    block.update_text("Updated".to_string(), "user2".to_string());

    assert_eq!(block.text, "Updated");
    assert_eq!(block.last_edited_by, "user2");
    assert_eq!(block.version, original_version + 1);
    assert!(block.updated_at > original_updated);
}
