use note::models::{CreateNodeRequest, Node, Properties};
use note::services::database::schema::NodeRow;
use note::services::DatabaseService;
use note::text::like;

fn tagged(content: &str, tags: &[&str], properties: Properties) -> CreateNodeRequest {
    CreateNodeRequest {
        content: content.to_string(),
        parent_id: None,
        order: None,
        properties: Some(properties),
        tags: Some(tags.iter().map(|t| t.to_string()).collect()),
    }
}

fn props(entries: &[(&str, serde_json::Value)]) -> Properties {
    let mut map = Properties::new();
    for (key, value) in entries {
        map.insert(key.to_string(), value.clone());
    }
    map
}

fn library() -> DatabaseService {
    let mut db = DatabaseService::new();
    db.insert_node(
        "a".to_string(),
        1,
        tagged("one", &["work", "urgent"], props(&[("color", "blue".into())])),
    )
    .unwrap();
    db.insert_node(
        "b".to_string(),
        3,
        tagged("two", &["Work"], props(&[("color", "red".into()), ("size", 3.into())])),
    )
    .unwrap();
    db.insert_node("c".to_string(), 2, tagged("three", &["home"], props(&[]))).unwrap();
    db
}

fn ids(nodes: Vec<Node>) -> Vec<String> {
    nodes.into_iter().map(|n| n.id).collect()
}

#[test]
fn like_matches_with_wildcards_and_without_case() {
    assert!(like("", ""));
    assert!(!like("", "a"));
    assert!(like("%", ""));
    assert!(like("%", "anything"));
    assert!(like("abc", "ABC"));
    assert!(like("ABC", "abc"));
    assert!(!like("abc", "abcd"));
    assert!(!like("abc", "ab"));
    assert!(like("a_c", "abc"));
    assert!(!like("a_c", "ac"));
    assert!(like("%b%", "abc"));
    assert!(like("%b%", "b"));
    assert!(!like("%b%", "ac"));
    assert!(like("a%c%e", "abcde"));
    assert!(like("a%c%e", "ace"));
    assert!(!like("a%c%e", "aed"));
    assert!(like("%%", ""));
    assert!(like("%a", "banana"));
    assert!(!like("%b", "banana"));
    // only ASCII letters are folded
    assert!(!like("é", "É"));
    assert!(like("é", "é"));
    assert!(!like("[", "{"));
    assert!(!like("@", "`"));
}

#[test]
fn search_by_tags() {
    let db = library();
    assert_eq!(ids(db.search_nodes_by_tags(&vec!["work".to_string()], 50).unwrap()), vec!["b", "a"]);
    assert_eq!(ids(db.search_nodes_by_tags(&vec!["work".to_string()], 1).unwrap()), vec!["b"]);
    assert_eq!(ids(db.search_nodes_by_tags(&vec!["work".to_string()], 0).unwrap()), Vec::<String>::new());
    assert_eq!(ids(db.search_nodes_by_tags(&vec!["work".to_string()], -1).unwrap()), vec!["b", "a"]);
    assert_eq!(ids(db.search_nodes_by_tags(&vec!["home".to_string()], 50).unwrap()), vec!["c"]);
    assert_eq!(ids(db.search_nodes_by_tags(&vec!["absent".to_string()], 50).unwrap()), Vec::<String>::new());
    // several tags are looked for as one text with spaces between them
    let both = vec!["work".to_string(), "urgent".to_string()];
    assert_eq!(ids(db.search_nodes_by_tags(&both, 50).unwrap()), Vec::<String>::new());
    // no tags at all match every node
    assert_eq!(ids(db.search_nodes_by_tags(&Vec::new(), 50).unwrap()), vec!["b", "c", "a"]);
    // part of a tag is enough
    assert_eq!(ids(db.search_nodes_by_tags(&vec!["urg".to_string()], 50).unwrap()), vec!["a"]);
}

#[test]
fn search_by_properties() {
    let db = library();
    assert_eq!(ids(db.search_nodes_by_properties("color", "blue", 50).unwrap()), vec!["a"]);
    assert_eq!(ids(db.search_nodes_by_properties("color", "red", 50).unwrap()), vec!["b"]);
    assert_eq!(ids(db.search_nodes_by_properties("COLOR", "RED", 50).unwrap()), vec!["b"]);
    assert_eq!(ids(db.search_nodes_by_properties("color", "%", 50).unwrap()), vec!["b", "a"]);
    assert_eq!(ids(db.search_nodes_by_properties("color", "%", 1).unwrap()), vec!["b"]);
    // a number is no text value
    assert_eq!(ids(db.search_nodes_by_properties("size", "3", 50).unwrap()), Vec::<String>::new());
    assert_eq!(ids(db.search_nodes_by_properties("color", "green", 50).unwrap()), Vec::<String>::new());
}

#[test]
fn rows_round_trip() {
    let db = library();
    let node = db.get_node("b").unwrap();
    let row = node.to_row().unwrap();
    assert_eq!(row.id, "b");
    assert_eq!(row.order_index, 0);
    assert_eq!(row.tags, "[\"Work\"]");
    assert_eq!(row.properties, "{\"color\":\"red\",\"size\":3}");
    assert_eq!(row.created_at, 3);
    assert_eq!(row.version, 1);
    let back = Node::from_row(row);
    assert_eq!(back.tags, node.tags);
    assert_eq!(back.properties.get("color"), node.properties.get("color"));
    assert_eq!(back.properties.get("size"), node.properties.get("size"));
    assert_eq!(back.properties.len(), 2);
    assert_eq!(back.content, "two");
    assert!(back.children.is_empty());
}

#[test]
fn unreadable_texts_become_empty_containers() {
    let row = NodeRow {
        id: "x".to_string(),
        content: "kept".to_string(),
        parent_id: Some("p".to_string()),
        order_index: 4,
        properties: "{not json".to_string(),
        tags: "[1, 2]".to_string(),
        created_at: 1,
        updated_at: 2,
        created_by: "u".to_string(),
        version: 9,
    };
    let node = Node::from_row(row);
    assert!(node.properties.is_empty());
    assert!(node.tags.is_empty());
    assert_eq!(node.content, "kept");
    assert_eq!(node.parent_id, Some("p".to_string()));
    assert_eq!(node.order, 4);
    assert_eq!(node.version, 9);
    assert_eq!(node.updated_at, 2);
}
