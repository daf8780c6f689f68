use note::models::{CreateNodeRequest, Properties, UpdateNodeRequest};
use note::services::DatabaseService;

fn request(content: &str, parent_id: Option<String>, order: Option<i32>) -> CreateNodeRequest {
    CreateNodeRequest { content: content.to_string(), parent_id, order, properties: None, tags: None }
}

fn content_update(content: &str) -> UpdateNodeRequest {
    UpdateNodeRequest {
        content: Some(content.to_string()),
        parent_id: None,
        order: None,
        properties: None,
        tags: None,
    }
}

#[test]
fn test_database_initialization() {
    let db = DatabaseService::new();

    // Test that default user was created
    let user_id = db.get_default_user_id().expect("Failed to get default user");
    assert!(!user_id.is_empty());
}

#[test]
fn test_create_node() {
    let mut db = DatabaseService::new();
    db.init_database();

    let request = CreateNodeRequest {
        content: "Test node content".to_string(),
        parent_id: None,
        order: Some(0),
        properties: None,
        tags: None,
    };

    let node = db.create_node(request).unwrap();

    assert!(!node.id.is_empty());
    assert_eq!(node.content, "Test node content");
    assert_eq!(node.parent_id, None);
    assert_eq!(node.order, 0);
    assert_eq!(node.created_by, "default_user");
    assert_eq!(node.version, 1);
}

#[test]
fn test_create_node_with_parent() {
    let mut db = DatabaseService::new();
    db.init_database();

    let parent = db.create_node(request("Parent node", None, Some(0))).unwrap();

    let child_request = CreateNodeRequest {
        content: "Child node".to_string(),
        parent_id: Some(parent.id.clone()),
        order: Some(1),
        properties: None,
        tags: Some(vec!["test-tag".to_string()]),
    };
    let child = db.create_node(child_request).unwrap();

    assert_eq!(child.parent_id, Some(parent.id));
    assert_eq!(child.order, 1);
    assert_eq!(child.tags, vec!["test-tag"]);
}

#[test]
fn test_get_node() {
    let mut db = DatabaseService::new();
    db.init_database();

    let created_node = db.create_node(request("Get test node", None, Some(0))).unwrap();

    let retrieved_node = db.get_node(&created_node.id).unwrap();
    assert_eq!(retrieved_node.id, created_node.id);
    assert_eq!(retrieved_node.content, "Get test node");
}

#[test]
fn test_get_node_not_found() {
    let mut db = DatabaseService::new();
    db.init_database();

    let result = db.get_node("non-existent-id");
    assert!(result.is_err());
}

#[test]
fn test_get_node_with_children() {
    let mut db = DatabaseService::new();
    db.init_database();

    let parent = db.create_node(request("Parent with children", None, Some(0))).unwrap();

    for i in 0..3 {
        let child_request = CreateNodeRequest {
            content: format!("Child {}", i),
            parent_id: Some(parent.id.clone()),
            order: Some(i),
            properties: None,
            tags: None,
        };
        db.create_node(child_request).unwrap();
    }

    let node_with_children = db.get_node_with_children(&parent.id).unwrap();
    assert_eq!(node_with_children.node.content, "Parent with children");
    assert_eq!(node_with_children.child_nodes.len(), 3);

    // Verify children are in correct order
    for (i, child) in node_with_children.child_nodes.iter().enumerate() {
        assert_eq!(child.node.content, format!("Child {}", i));
        assert_eq!(child.node.order, i as i32);
    }
}

#[test]
fn test_update_node_content() {
    let mut db = DatabaseService::new();
    db.init_database();

    let node = db.create_node(request("Original content", None, Some(0))).unwrap();

    let updated_node = db.update_node(&node.id, content_update("Updated content")).unwrap();

    assert_eq!(updated_node.content, "Updated content");
    assert_eq!(updated_node.version, 2);
    assert!(updated_node.updated_at > node.updated_at);
}

#[test]
fn test_update_node_properties() {
    let mut db = DatabaseService::new();
    db.init_database();

    let node = db.create_node(request("Node with properties", None, Some(0))).unwrap();

    let mut properties = Properties::new();
    properties.insert("key1".to_string(), serde_json::Value::from("value1"));
    properties.insert("key2".to_string(), serde_json::Value::from(123));

    let update_request = UpdateNodeRequest {
        content: None,
        parent_id: None,
        order: None,
        properties: Some(properties.duplicate()),
        tags: None,
    };
    let updated_node = db.update_node(&node.id, update_request).unwrap();

    assert_eq!(updated_node.properties, properties);
    assert_eq!(updated_node.content, "Node with properties"); // Content unchanged
}

#[test]
fn test_delete_node() {
    let mut db = DatabaseService::new();
    db.init_database();

    let node = db.create_node(request("Node to delete", None, Some(0))).unwrap();

    // Delete the node
    db.delete_node(&node.id).unwrap();

    // Verify node is deleted
    let result = db.get_node(&node.id);
    assert!(result.is_err());
}

#[test]
fn test_delete_node_cascades_children() {
    let mut db = DatabaseService::new();
    db.init_database();

    let parent = db.create_node(request("Parent to delete", None, Some(0))).unwrap();
    let child =
        db.create_node(request("Child to be cascaded", Some(parent.id.clone()), Some(0))).unwrap();

    // Delete parent
    db.delete_node(&parent.id).unwrap();

    // Verify both are deleted
    assert!(db.get_node(&parent.id).is_err());
    assert!(db.get_node(&child.id).is_err());
}

#[test]
fn test_move_node() {
    let mut db = DatabaseService::new();
    db.init_database();

    let parent1 = db.create_node(request("Parent 1", None, Some(0))).unwrap();
    let parent2 = db.create_node(request("Parent 2", None, Some(1))).unwrap();
    let child = db.create_node(request("Child to move", Some(parent1.id.clone()), Some(0))).unwrap();

    // Move child from parent1 to parent2
    db.move_node(&child.id, Some(parent2.id.clone()), 5).unwrap();

    let moved_child = db.get_node(&child.id).unwrap();
    assert_eq!(moved_child.parent_id, Some(parent2.id));
    assert_eq!(moved_child.order, 5);
}

#[test]
fn test_move_node_to_root() {
    let mut db = DatabaseService::new();
    db.init_database();

    let parent = db.create_node(request("Parent", None, Some(0))).unwrap();
    let child =
        db.create_node(request("Child to move to root", Some(parent.id.clone()), Some(0))).unwrap();

    // Move child to root
    db.move_node(&child.id, None, 10).unwrap();

    let moved_child = db.get_node(&child.id).unwrap();
    assert_eq!(moved_child.parent_id, None);
    assert_eq!(moved_child.order, 10);
}

#[test]
fn test_get_daily_note() {
    let mut db = DatabaseService::new();
    db.init_database();

    let date = "2024-01-15";
    let journal_request = CreateNodeRequest {
        content: date.to_string(),
        parent_id: None,
        order: Some(0),
        properties: None,
        tags: Some(vec!["#Journal".to_string()]),
    };
    let journal = db.create_node(journal_request).unwrap();

    let retrieved = db.get_daily_note(date).unwrap();
    assert_eq!(retrieved.id, journal.id);
    assert_eq!(retrieved.content, date);
    assert!(retrieved.tags.contains(&"#Journal".to_string()));
}

#[test]
fn test_get_or_create_daily_note_existing() {
    let mut db = DatabaseService::new();
    db.init_database();

    let date = "2024-01-16";
    let journal_request = CreateNodeRequest {
        content: date.to_string(),
        parent_id: None,
        order: Some(0),
        properties: None,
        tags: Some(vec!["#Journal".to_string()]),
    };
    let journal = db.create_node(journal_request).unwrap();

    let retrieved = db.get_or_create_daily_note(date).unwrap();
    assert_eq!(retrieved.id, journal.id);
}

#[test]
fn test_get_or_create_daily_note_new() {
    let mut db = DatabaseService::new();
    db.init_database();

    let date = "2024-01-17";
    let journal = db.get_or_create_daily_note(date).unwrap();

    assert_eq!(journal.content, date);
    assert!(journal.tags.contains(&"#Journal".to_string()));
    assert_eq!(journal.parent_id, None);
}

#[test]
fn test_node_hierarchy_integrity() {
    let mut db = DatabaseService::new();
    db.init_database();

    // Create a three-level hierarchy
    let root = db.create_node(request("Root node", None, Some(0))).unwrap();
    let level1 = db.create_node(request("Level 1 node", Some(root.id.clone()), Some(0))).unwrap();
    let level2 = db.create_node(request("Level 2 node", Some(level1.id.clone()), Some(0))).unwrap();

    // Get the complete hierarchy
    let hierarchy = db.get_node_with_children(&root.id).unwrap();

    assert_eq!(hierarchy.child_nodes.len(), 1);
    assert_eq!(hierarchy.child_nodes[0].node.id, level1.id);
    assert_eq!(hierarchy.child_nodes[0].child_nodes.len(), 1);
    assert_eq!(hierarchy.child_nodes[0].child_nodes[0].node.id, level2.id);
}

#[test]
fn test_concurrent_updates() {
    let mut db = DatabaseService::new();
    db.init_database();

    let node = db.create_node(request("Concurrent test", None, Some(0))).unwrap();

    // Simulate concurrent updates
    let updated1 = db.update_node(&node.id, content_update("Update 1")).unwrap();
    assert_eq!(updated1.version, 2);

    let updated2 = db.update_node(&node.id, content_update("Update 2")).unwrap();
    assert_eq!(updated2.version, 3);
    assert_eq!(updated2.content, "Update 2");
}
