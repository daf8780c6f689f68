use note::models::{CreateNodeRequest, Properties, UpdateNodeRequest};
use note::services::database::export::ExportData;
use note::services::database::stats::{DatabaseStats, NodeStats};
use note::services::{DatabaseService, LinkService, NodeLink};
use note::AppError;

fn req(content: &str, parent: Option<&str>, order: i32) -> CreateNodeRequest {
    CreateNodeRequest {
        content: content.to_string(),
        parent_id: parent.map(|p| p.to_string()),
        order: Some(order),
        properties: None,
        tags: None,
    }
}

fn empty_update() -> UpdateNodeRequest {
    UpdateNodeRequest { content: None, parent_id: None, order: None, properties: None, tags: None }
}

/// r
/// ├── a (order 2)
/// │   └── c
/// └── b (order 1)
fn family() -> DatabaseService {
    let mut db = DatabaseService::new();
    db.insert_node("r".to_string(), 10, req("root", None, 0)).unwrap();
    db.insert_node("a".to_string(), 11, req("alpha", Some("r"), 2)).unwrap();
    db.insert_node("b".to_string(), 12, req("beta", Some("r"), 1)).unwrap();
    db.insert_node("c".to_string(), 13, req("gamma", Some("a"), 0)).unwrap();
    db
}

#[test]
fn bootstrap_is_idempotent() {
    let mut db = DatabaseService::new();
    assert_eq!(db.get_default_user_id(), Ok("default_user".to_string()));
    db.init_database();
    db.ensure_default_user();
    assert_eq!(db.get_default_user_id(), Ok("default_user".to_string()));
    assert_eq!(db.get_all_nodes().unwrap().len(), 0);
}

#[test]
fn created_node_round_trips() {
    let mut db = DatabaseService::new();
    let mut properties = Properties::new();
    properties.insert("k".to_string(), serde_json::Value::from(1));
    let request = CreateNodeRequest {
        content: "hello".to_string(),
        parent_id: None,
        order: None,
        properties: Some(properties.duplicate()),
        tags: Some(vec!["t1".to_string(), "t2".to_string()]),
    };
    let node = db.insert_node("n1".to_string(), 42, request).unwrap();
    assert_eq!(node.id, "n1");
    assert_eq!(node.order, 0);
    assert_eq!(node.created_at, 42);
    assert_eq!(node.updated_at, 42);
    assert_eq!(node.version, 1);
    assert_eq!(node.created_by, "default_user");
    assert_eq!(node.properties, properties);
    assert_eq!(node.tags, vec!["t1", "t2"]);
    assert!(node.children.is_empty());
    assert_eq!(db.get_node("n1").unwrap(), node);
}

#[test]
fn create_refuses_taken_id_and_missing_parent() {
    let mut db = family();
    let taken = db.insert_node("a".to_string(), 1, req("again", None, 0));
    assert_eq!(taken, Err(AppError::ValidationError("Node with ID a already exists".to_string())));
    let orphan = db.insert_node("z".to_string(), 1, req("orphan", Some("nobody"), 0));
    assert_eq!(orphan, Err(AppError::NotFound("Node with ID nobody not found".to_string())));
    // a taken id is reported before a missing parent
    assert!(matches!(
        db.insert_node("a".to_string(), 1, req("both", Some("nobody"), 0)),
        Err(AppError::ValidationError(_))
    ));
    assert_eq!(
        db.create_node(req("orphan", Some("nobody"), 0)),
        Err(AppError::NotFound("Node with ID nobody not found".to_string()))
    );
    assert_eq!(db.get_all_nodes().unwrap().len(), 4);
    assert_eq!(db.get_node("a").unwrap().content, "alpha");
}

#[test]
fn missing_node_is_not_found() {
    let db = family();
    assert_eq!(
        db.get_node("nope"),
        Err(AppError::NotFound("Node with ID nope not found".to_string()))
    );
    assert!(matches!(db.get_node_with_children("nope"), Err(AppError::NotFound(_))));
}

#[test]
fn children_are_listed_by_order_then_creation() {
    let mut db = family();
    assert_eq!(db.get_node("r").unwrap().children, vec!["b", "a"]);
    // same order as b, created later: behind b
    db.insert_node("d".to_string(), 14, req("delta", Some("r"), 1)).unwrap();
    assert_eq!(db.get_node("r").unwrap().children, vec!["b", "d", "a"]);
    // same order, created earlier: before b
    db.insert_node("e".to_string(), 5, req("eps", Some("r"), 1)).unwrap();
    assert_eq!(db.get_node("r").unwrap().children, vec!["e", "b", "d", "a"]);
    // same order and time as b, written later: behind b
    db.insert_node("f".to_string(), 12, req("phi", Some("r"), 1)).unwrap();
    assert_eq!(db.get_node("r").unwrap().children, vec!["e", "b", "f", "d", "a"]);
    db.insert_node("g".to_string(), 99, req("neg", Some("r"), -3)).unwrap();
    assert_eq!(db.get_node("r").unwrap().children[0], "g");
}

#[test]
fn roots_and_all_nodes_are_listed_in_order() {
    let mut db = family();
    db.insert_node("s".to_string(), 3, req("second root", None, -1)).unwrap();
    db.insert_node("t".to_string(), 2, req("third root", None, 0)).unwrap();
    let roots: Vec<String> = db.get_root_nodes().unwrap().into_iter().map(|n| n.id).collect();
    assert_eq!(roots, vec!["s", "t", "r"]);
    let all: Vec<String> = db.get_all_nodes().unwrap().into_iter().map(|n| n.id).collect();
    assert_eq!(all, vec!["c", "b", "a", "r", "s", "t"]);
    assert_eq!(db.get_root_nodes().unwrap()[2].children, vec!["b", "a"]);
}

#[test]
fn subtree_is_hydrated_in_depth() {
    let db = family();
    let tree = db.get_node_with_children("r").unwrap();
    assert_eq!(tree.node.id, "r");
    assert_eq!(tree.child_nodes.len(), 2);
    assert_eq!(tree.child_nodes[0].node.id, "b");
    assert!(tree.child_nodes[0].child_nodes.is_empty());
    assert_eq!(tree.child_nodes[1].node.id, "a");
    assert_eq!(tree.child_nodes[1].node.children, vec!["c"]);
    assert_eq!(tree.child_nodes[1].child_nodes[0].node.id, "c");
    let leaf = db.get_node_with_children("c").unwrap();
    assert!(leaf.child_nodes.is_empty());
}

#[test]
fn deep_chain_is_followed_to_the_end() {
    let mut db = DatabaseService::new();
    db.insert_node("n0".to_string(), 0, req("0", None, 0)).unwrap();
    for i in 1..30 {
        let parent = format!("n{}", i - 1);
        db.insert_node(format!("n{}", i), i, req(&i.to_string(), Some(&parent), 0)).unwrap();
    }
    let mut tree = db.get_node_with_children("n0").unwrap();
    let mut depth = 0;
    while let Some(child) = tree.child_nodes.pop() {
        tree = child;
        depth += 1;
    }
    assert_eq!(depth, 29);
    assert_eq!(tree.node.id, "n29");
    assert_eq!(db.get_node_stats("n29").unwrap().depth, 29);
    assert_eq!(db.get_node_stats("n0").unwrap().descendant_count, 29);
}

#[test]
fn empty_update_bumps_version_and_time_only() {
    let mut db = family();
    let before = db.get_node("a").unwrap();
    let after = db.update_node_at("a", empty_update(), 500).unwrap();
    assert_eq!(after.version, before.version + 1);
    assert_eq!(after.updated_at, 500);
    assert_eq!(after.created_at, before.created_at);
    assert_eq!(after.content, before.content);
    assert_eq!(after.parent_id, before.parent_id);
    assert_eq!(after.order, before.order);
    assert_eq!(after.tags, before.tags);
    assert_eq!(after.children, vec!["c"]);
    let again = db.update_node_at("a", empty_update(), 400).unwrap();
    assert_eq!(again.version, before.version + 2);
    assert_eq!(again.updated_at, 400);
}

#[test]
fn update_replaces_only_what_is_given() {
    let mut db = family();
    let request = UpdateNodeRequest {
        content: None,
        parent_id: None,
        order: Some(-5),
        properties: None,
        tags: Some(vec!["x".to_string()]),
    };
    let after = db.update_node_at("a", request, 77).unwrap();
    assert_eq!(after.content, "alpha");
    assert_eq!(after.order, -5);
    assert_eq!(after.tags, vec!["x"]);
    assert_eq!(db.get_node("r").unwrap().children, vec!["a", "b"]);
}

#[test]
fn update_of_missing_node_is_not_found() {
    let mut db = family();
    assert_eq!(
        db.update_node_at("nope", empty_update(), 1),
        Err(AppError::NotFound("Node with ID nope not found".to_string()))
    );
    assert!(matches!(db.update_node("nope", empty_update()), Err(AppError::NotFound(_))));
}

#[test]
fn update_may_reparent_but_not_into_own_subtree() {
    let mut db = family();
    let to_b = UpdateNodeRequest { parent_id: Some("b".to_string()), ..empty_update() };
    let moved = db.update_node_at("c", to_b, 20).unwrap();
    assert_eq!(moved.parent_id, Some("b".to_string()));
    let cyclic = UpdateNodeRequest { parent_id: Some("c".to_string()), ..empty_update() };
    assert!(matches!(db.update_node_at("b", cyclic, 21), Err(AppError::CyclicMoveError(_))));
    let missing = UpdateNodeRequest { parent_id: Some("nobody".to_string()), ..empty_update() };
    assert_eq!(
        db.update_node_at("b", missing, 21),
        Err(AppError::NotFound("Node with ID nobody not found".to_string()))
    );
    assert_eq!(db.get_node("b").unwrap().version, 1);
}

#[test]
fn version_counter_stops_at_its_limit() {
    let mut node = family().get_node("b").unwrap();
    node.version = i32::MAX;
    node.parent_id = None;
    let mut db = DatabaseService::restore(vec![node], Vec::new(), Vec::new()).unwrap();
    assert!(matches!(db.update_node_at("b", empty_update(), 1), Err(AppError::ValidationError(_))));
    assert!(matches!(db.move_node_at("b", None, 3, 1), Err(AppError::ValidationError(_))));
    assert_eq!(db.get_node("b").unwrap().version, i32::MAX);
    assert_eq!(db.get_node("b").unwrap().order, 1);
}

#[test]
fn move_rewrites_parent_and_order() {
    let mut db = family();
    let moved = db.move_node_at("c", Some("b".to_string()), 9, 100).unwrap();
    assert_eq!(moved.parent_id, Some("b".to_string()));
    assert_eq!(moved.order, 9);
    assert_eq!(moved.version, 2);
    assert_eq!(moved.updated_at, 100);
    assert_eq!(db.get_node("a").unwrap().children, Vec::<String>::new());
    assert_eq!(db.get_node("b").unwrap().children, vec!["c"]);
    let top = db.move_node_at("c", None, 1, 101).unwrap();
    assert_eq!(top.parent_id, None);
    assert_eq!(top.version, 3);
}

#[test]
fn cyclic_move_is_refused_and_changes_nothing() {
    let mut db = family();
    for target in ["r", "a", "c"] {
        let refused = db.move_node_at("r", Some(target.to_string()), 5, 100);
        assert!(matches!(refused, Err(AppError::CyclicMoveError(_))), "under {}", target);
    }
    assert!(matches!(
        db.move_node("a", Some("c".to_string()), 5),
        Err(AppError::CyclicMoveError(_))
    ));
    let root = db.get_node("r").unwrap();
    assert_eq!(root.parent_id, None);
    assert_eq!(root.order, 0);
    assert_eq!(root.version, 1);
    assert_eq!(root.updated_at, 10);
    let a = db.get_node("a").unwrap();
    assert_eq!(a.parent_id, Some("r".to_string()));
    assert_eq!(a.order, 2);
    // a sibling is no descendant
    assert!(db.move_node_at("a", Some("b".to_string()), 0, 100).is_ok());
}

#[test]
fn move_under_missing_parent_or_of_missing_node_fails() {
    let mut db = family();
    assert_eq!(
        db.move_node_at("a", Some("nobody".to_string()), 0, 1),
        Err(AppError::NotFound("Node with ID nobody not found".to_string()))
    );
    assert!(matches!(db.move_node_at("nope", None, 0, 1), Err(AppError::NotFound(_))));
    assert_eq!(db.get_node("r").unwrap().children, vec!["b", "a"]);
}

#[test]
fn delete_removes_the_subtree_and_its_edges() {
    let mut db = family();
    db.insert_node("x".to_string(), 20, req("See [[gamma]] and [[beta]]", None, 0)).unwrap();
    db.insert_node("y".to_string(), 21, req("to [[root]]", Some("c"), 0)).unwrap();
    let links = LinkService::new();
    let x = db.get_node("x").unwrap();
    let y = db.get_node("y").unwrap();
    links.update_links_for_node(&mut db, &x).unwrap();
    links.update_links_for_node(&mut db, &y).unwrap();
    assert_eq!(db.get_all_links().unwrap().len(), 3);

    // a has the descendants c and y
    assert_eq!(db.get_node_stats("a").unwrap().descendant_count, 2);
    db.delete_node("a").unwrap();
    let left: Vec<String> = db.get_all_nodes().unwrap().into_iter().map(|n| n.id).collect();
    assert_eq!(left, vec!["x", "b", "r"]);
    for gone in ["a", "c", "y"] {
        assert!(matches!(db.get_node(gone), Err(AppError::NotFound(_))));
    }
    assert_eq!(
        db.get_all_links().unwrap(),
        vec![NodeLink { source_node_id: "x".to_string(), target_node_id: "b".to_string() }]
    );
    assert_eq!(db.get_node("r").unwrap().children, vec!["b"]);
    assert_eq!(
        db.delete_node("a"),
        Err(AppError::NotFound("Node with ID a not found".to_string()))
    );
}

#[test]
fn daily_note_is_created_once() {
    let mut db = DatabaseService::new();
    assert!(matches!(db.get_daily_note("2024-01-15"), Err(AppError::NotFound(_))));
    let first = db.get_or_create_daily_note("2024-01-15").unwrap();
    let second = db.get_or_create_daily_note("2024-01-15").unwrap();
    assert_eq!(first.id, second.id);
    assert_eq!(first, second);
    assert_eq!(db.get_all_nodes().unwrap().len(), 1);
    assert_eq!(db.get_daily_note("2024-01-15").unwrap().id, first.id);
    assert_eq!(first.content, "2024-01-15");
    assert_eq!(first.tags, vec!["#Journal"]);
    assert_eq!(first.order, 0);
    assert_eq!(first.parent_id, None);
    assert_eq!(
        first.properties.get("type"),
        Some(&serde_json::Value::String("daily_note".to_string()))
    );
    assert_eq!(
        first.properties.get("date"),
        Some(&serde_json::Value::String("2024-01-15".to_string()))
    );
    assert_eq!(first.properties.len(), 2);
    let other = db.get_or_create_daily_note("2024-01-16").unwrap();
    assert_ne!(other.id, first.id);
    assert_eq!(db.get_all_nodes().unwrap().len(), 2);
}

#[test]
fn daily_note_needs_root_content_and_tag() {
    let mut db = DatabaseService::new();
    db.insert_node("plain".to_string(), 1, req("2024-02-01", None, 0)).unwrap();
    let tagged_child = CreateNodeRequest {
        tags: Some(vec!["#Journal".to_string()]),
        ..req("2024-02-01", Some("plain"), 0)
    };
    db.insert_node("child".to_string(), 2, tagged_child).unwrap();
    assert!(db.get_daily_note("2024-02-01").is_err());
    let note = db.get_or_insert_daily_note("2024-02-01", "j".to_string(), 3).unwrap();
    assert_eq!(note.id, "j");
    assert_eq!(note.created_at, 3);
    let again = db.get_or_insert_daily_note("2024-02-01", "k".to_string(), 4).unwrap();
    assert_eq!(again.id, "j");
    assert!(db.get_node("k").is_err());
    // an id that is taken is refused where the note has to be written
    assert_eq!(
        db.get_or_insert_daily_note("2024-02-02", "j".to_string(), 5),
        Err(AppError::ValidationError("Node with ID j already exists".to_string()))
    );
}

#[test]
fn node_statistics() {
    let db = family();
    assert_eq!(
        db.get_node_stats("r"),
        Ok(NodeStats { node_id: "r".to_string(), descendant_count: 3, depth: 0, direct_children: 2 })
    );
    assert_eq!(
        db.get_node_stats("c"),
        Ok(NodeStats { node_id: "c".to_string(), descendant_count: 0, depth: 2, direct_children: 0 })
    );
    assert!(matches!(db.get_node_stats("nope"), Err(AppError::NotFound(_))));
}

#[test]
fn database_statistics() {
    let mut db = family();
    db.get_or_insert_daily_note("2024-03-01", "j".to_string(), 50).unwrap();
    db.insert_node("x".to_string(), 60, req("[[root]] [[root]] [[beta]]", Some("c"), 0)).unwrap();
    let x = db.get_node("x").unwrap();
    LinkService::new().update_links_for_node(&mut db, &x).unwrap();
    assert_eq!(
        db.get_database_stats(),
        Ok(DatabaseStats {
            total_nodes: 6,
            total_links: 2,
            root_nodes: 2,
            leaf_nodes: 3,
            nodes_with_children: 3,
            depth_sum: 0 + 1 + 1 + 2 + 0 + 3,
            max_node_depth: 3,
            journal_nodes: 1,
        })
    );
    let empty = DatabaseService::new().get_database_stats().unwrap();
    assert_eq!(empty.total_nodes, 0);
    assert_eq!(empty.max_node_depth, 0);
    assert_eq!(empty.depth_sum, 0);
}

#[test]
fn link_statistics_rank_by_references() {
    let mut db = family();
    let links = LinkService::new();
    for (id, content) in [("x", "[[beta]]"), ("y", "[[alpha]] [[beta]]"), ("z", "[[beta]] [[root]]")] {
        db.insert_node(id.to_string(), 100, req(content, None, 0)).unwrap();
        let node = db.get_node(id).unwrap();
        links.update_links_for_node(&mut db, &node).unwrap();
    }
    assert_eq!(
        db.get_link_stats(),
        Ok(vec![("b".to_string(), 3), ("a".to_string(), 1), ("r".to_string(), 1)])
    );
    assert_eq!(DatabaseService::new().get_link_stats(), Ok(Vec::new()));
}

#[test]
fn link_statistics_stop_at_twenty() {
    let mut db = DatabaseService::new();
    let links = LinkService::new();
    let mut content = String::new();
    for i in 0..25 {
        db.insert_node(format!("t{:02}", i), i, req(&format!("target {:02}", i), None, 0)).unwrap();
        content.push_str(&format!("[[target {:02}]] ", i));
    }
    db.insert_node("s".to_string(), 100, req(&content, None, 0)).unwrap();
    db.insert_node("s2".to_string(), 101, req("[[target 24]]", None, 0)).unwrap();
    for id in ["s", "s2"] {
        let node = db.get_node(id).unwrap();
        links.update_links_for_node(&mut db, &node).unwrap();
    }
    let stats = db.get_link_stats().unwrap();
    assert_eq!(stats.len(), 20);
    assert_eq!(stats[0], ("t24".to_string(), 2));
    assert_eq!(stats[1], ("t00".to_string(), 1));
    assert_eq!(stats[19], ("t18".to_string(), 1));
}

#[test]
fn markdown_export() {
    let db = family();
    assert_eq!(
        db.export_node_to_markdown("r").unwrap(),
        "* root\n  * beta\n  * alpha\n    * gamma\n"
    );
    assert_eq!(db.export_node_to_markdown("c").unwrap(), "* gamma\n");
    assert!(matches!(db.export_node_to_markdown("nope"), Err(AppError::NotFound(_))));
    let tree = db.get_node_with_children("a").unwrap();
    assert_eq!(db.node_to_markdown(&tree, 2), "    * alpha\n      * gamma\n");
}

#[test]
fn markdown_export_of_everything() {
    let mut db = family();
    db.insert_node("s".to_string(), 1, req("other", None, -1)).unwrap();
    assert_eq!(
        db.export_all_to_markdown_at("2024-01-01 00:00:00 UTC").unwrap(),
        "# Note Export\n\n*Exported on: 2024-01-01 00:00:00 UTC*\n\n* other\n\n* root\n  * beta\n  * alpha\n    * gamma\n\n"
    );
    let stamped = db.export_all_to_markdown().unwrap();
    assert!(stamped.starts_with("# Note Export\n\n*Exported on: "));
    assert!(stamped.ends_with(" UTC*\n\n* other\n\n* root\n  * beta\n  * alpha\n    * gamma\n\n"));
    assert_eq!(
        DatabaseService::new().export_all_to_markdown_at("now").unwrap(),
        "# Note Export\n\n*Exported on: now*\n\n"
    );
}

#[test]
fn export_and_import_of_data() {
    let mut db = family();
    let b = db.get_node("b").unwrap();
    db.insert_node("x".to_string(), 30, req("[[beta]]", None, 0)).unwrap();
    let x = db.get_node("x").unwrap();
    LinkService::new().update_links_for_node(&mut db, &x).unwrap();
    let data = db.export_data("1.0".to_string(), 999).unwrap();
    assert_eq!(data.version, "1.0");
    assert_eq!(data.export_date, 999);
    assert_eq!(data.nodes.len(), 5);
    assert_eq!(data.nodes[0].id, "x");
    assert_eq!(data.links.len(), 1);

    // into an empty store the rows must come parents first
    let mut fresh = DatabaseService::new();
    assert!(matches!(fresh.import_data(&data), Ok(())));
    assert_eq!(fresh.get_node("r").unwrap().children, vec!["b", "a"]);
    assert_eq!(fresh.get_node("b").unwrap(), b);
    assert_eq!(fresh.get_all_links().unwrap(), data.links);

    // importing again replaces rows and repeats no edge
    assert_eq!(fresh.import_data(&data), Ok(()));
    assert_eq!(fresh.get_all_nodes().unwrap().len(), 5);
    assert_eq!(fresh.get_all_links().unwrap().len(), 1);

    // a row without its parent is refused and leaves the store alone
    let lonely = ExportData {
        version: "1.0".to_string(),
        export_date: 1,
        nodes: vec![db.get_node("c").unwrap()],
        links: Vec::new(),
    };
    let mut empty = DatabaseService::new();
    assert!(matches!(empty.import_data(&lonely), Err(AppError::ValidationError(_))));
    assert_eq!(empty.get_all_nodes().unwrap().len(), 0);
}

#[test]
fn creation_succeeds_where_no_id_can_be_taken() {
    // a new store
    let mut db = DatabaseService::new();
    let first = db.create_node(req("Test node content", None, 0)).unwrap();
    assert_eq!(first.version, 1);
    assert_eq!(first.created_by, "default_user");
    assert_eq!(db.get_node(&first.id).unwrap(), first);
    // a store whose ids do not have the shape of fresh ids
    let mut db = family();
    let node = db.create_node(req("child", Some("a"), 3)).unwrap();
    assert_eq!(node.parent_id, Some("a".to_string()));
    assert_eq!(node.order, 3);
    assert_eq!(db.get_all_nodes().unwrap().len(), 5);
    // the daily note of a new store
    let mut db = DatabaseService::new();
    let note = db.get_or_create_daily_note("2024-01-17").unwrap();
    assert_eq!(note.version, 1);
    assert_eq!(note.order, 0);
    assert_eq!(note.parent_id, None);
    assert!(note.children.is_empty());
    assert_eq!(note.created_at, note.updated_at);
    let again = db.get_or_create_daily_note("2024-01-17").unwrap();
    assert_eq!(again.id, note.id);
    assert_eq!(again.version, 1);
    let roots = db.get_root_nodes().unwrap();
    assert_eq!(roots.len(), 1);
    assert_eq!(roots[0].id, note.id);
    assert_eq!(roots[0].version, 1);
}

#[test]
fn export_stamp_names_the_instant_in_utc() {
    assert_eq!(note::services::database::export::export_stamp(0), "1970-01-01 00:00:00 UTC");
    assert_eq!(
        note::services::database::export::export_stamp(1_705_312_496_789_000_000),
        "2024-01-15 09:54:56 UTC"
    );
    assert_eq!(
        note::services::database::export::export_stamp(-1),
        "1969-12-31 23:59:59 UTC"
    );
}

#[test]
fn restore_checks_the_rows() {
    let db = family();
    let rows = db.get_all_nodes().unwrap();
    let restored = DatabaseService::restore(rows, Vec::new(), vec!["u".to_string()]).unwrap();
    assert_eq!(restored.get_default_user_id(), Ok("u".to_string()));
    assert_eq!(restored.get_node("r").unwrap().children, vec!["b", "a"]);

    let mut twice = db.get_all_nodes().unwrap();
    twice.push(db.get_node("a").unwrap());
    assert!(matches!(
        DatabaseService::restore(twice, Vec::new(), Vec::new()),
        Err(AppError::ValidationError(_))
    ));

    let mut looped = db.get_all_nodes().unwrap();
    for node in looped.iter_mut() {
        if node.id == "r" {
            node.parent_id = Some("c".to_string());
        }
    }
    assert!(DatabaseService::restore(looped, Vec::new(), Vec::new()).is_err());

    let dangling = vec![NodeLink { source_node_id: "a".to_string(), target_node_id: "q".to_string() }];
    assert!(DatabaseService::restore(db.get_all_nodes().unwrap(), dangling, Vec::new()).is_err());
    let edge = NodeLink { source_node_id: "a".to_string(), target_node_id: "b".to_string() };
    let repeated = vec![edge.duplicate(), edge.duplicate()];
    assert!(DatabaseService::restore(db.get_all_nodes().unwrap(), repeated, Vec::new()).is_err());
    let sound = vec![edge];
    assert!(DatabaseService::restore(db.get_all_nodes().unwrap(), sound, Vec::new()).is_ok());
}

#[test]
fn transaction_commits_on_success_only() {
    let mut db = family();
    let made = db.with_transaction(|mut tx: DatabaseService| {
        let first = tx.insert_node("p".to_string(), 1, req("p", None, 0));
        let second = tx.insert_node("q".to_string(), 2, req("q", Some("p"), 0));
        (tx, first.and(second))
    });
    assert_eq!(made.unwrap().id, "q");
    assert!(db.get_node("p").is_ok());

    let failed = db.with_transaction(|mut tx: DatabaseService| {
        let first = tx.insert_node("u".to_string(), 1, req("u", None, 0));
        let second = tx.insert_node("v".to_string(), 2, req("v", Some("nobody"), 0));
        (tx, first.and(second))
    });
    assert_eq!(failed, Err(AppError::NotFound("Node with ID nobody not found".to_string())));
    assert!(db.get_node("u").is_err());
    assert_eq!(db.get_all_nodes().unwrap().len(), 6);

    let read = db.with_connection(|store: &DatabaseService| store.get_node("a"));
    assert_eq!(read.unwrap().content, "alpha");
}
