use note::models::{
    newest_first, page_stats, parse_status, CreatePageRequest, Page, PageStats, PageStatus,
    UpdatePageRequest,
};
use note::AppError;

#[test]
fn test_page_creation() {
    let page = Page::new("Test Page".to_string(), "user1".to_string());

    assert_eq!(page.title, "Test Page");
    assert_eq!(page.created_by, "user1");
    assert_eq!(page.last_edited_by, "user1");
    assert_eq!(page.status, PageStatus::Draft);
    assert!(page.root_blocks.is_empty());
    assert!(page.tags.is_empty());
}

#[test]
fn test_page_root_blocks() {
    let mut page = Page::new("Test".to_string(), "user1".to_string());

    page.add_root_block("block-1".to_string());
    page.add_root_block("block-2".to_string());
    page.add_root_block("block-1".to_string()); // Duplicate should be ignored

    assert_eq!(page.root_blocks.len(), 2);
    assert!(page.root_blocks.contains(&"block-1".to_string()));
    assert!(page.root_blocks.contains(&"block-2".to_string()));

    page.remove_root_block("block-1");
    assert_eq!(page.root_blocks.len(), 1);
    assert!(!page.root_blocks.contains(&"block-1".to_string()));
}

#[test]
fn test_page_tags() {
    let mut page = Page::new("Test".to_string(), "user1".to_string());

    page.add_tag("important".to_string());
    page.add_tag("work".to_string());
    page.add_tag("important".to_string()); // Duplicate should be ignored

    assert_eq!(page.tags.len(), 2);
    assert!(page.tags.contains(&"important".to_string()));
    assert!(page.tags.contains(&"work".to_string()));

    page.remove_tag("work");
    assert_eq!(page.tags.len(), 1);
    assert!(!page.tags.contains(&"work".to_string()));
}

#[test]
fn test_page_properties() {
    let mut page = Page::new("Test".to_string(), "user1".to_string());

    page.set_property("color".to_string(), serde_json::Value::String("blue".to_string()));
    page.set_property(
        "priority".to_string(),
        serde_json::Value::Number(serde_json::Number::from(5)),
    );

    assert_eq!(
        page.get_property("color"),
        Some(&serde_json::Value::String("blue".to_string()))
    );
    assert_eq!(
        page.get_property("priority"),
        Some(&serde_json::Value::Number(serde_json::Number::from(5)))
    );

    page.remove_property("color");
    assert_eq!(page.get_property("color"), None);
}

#[test]
fn test_page_status_conversion() {
    assert_eq!(PageStatus::from_str("draft").unwrap(), PageStatus::Draft);
    assert_eq!(PageStatus::from_str("published").unwrap(), PageStatus::Published);
    assert_eq!(PageStatus::from_str("archived").unwrap(), PageStatus::Archived);
    assert_eq!(PageStatus::from_str("deleted").unwrap(), PageStatus::Deleted);
    assert!(PageStatus::from_str("invalid").is_err());

    assert_eq!(PageStatus::Draft.to_string(), "draft");
    assert_eq!(PageStatus::Published.to_string(), "published");
}

#[test]
fn page_status_reads_any_letter_case() {
    assert_eq!(PageStatus::from_str("DRAFT"), Ok(PageStatus::Draft));
    assert_eq!(PageStatus::from_str("Archived"), Ok(PageStatus::Archived));
    assert_eq!(PageStatus::Archived.to_string(), "archived");
    assert_eq!(PageStatus::Deleted.to_string(), "deleted");
    assert_eq!(
        PageStatus::from_str("gone"),
        Err("Invalid page status: gone".to_string())
    );
    assert_eq!(PageStatus::default(), PageStatus::Draft);
}

#[test]
fn page_touch_records_the_editor() {
    let mut page = Page::new("Test".to_string(), "user1".to_string());
    assert!(page.id.starts_with("page-"));
    let before = page.updated_at;
    page.touch("user2".to_string());
    assert_eq!(page.last_edited_by, "user2");
    assert_eq!(page.created_by, "user1");
    assert!(page.updated_at >= before);
    assert_eq!(page.title, "Test");
}

#[test]
fn page_stats_count_by_status() {
    assert_eq!(
        page_stats(&Vec::new()),
        PageStats { total_pages: 0, draft_pages: 0, published_pages: 0, recent_page: None }
    );
    let mut published = Page::new("Second".to_string(), "u".to_string());
    published.status = PageStatus::Published;
    let mut archived = Page::new("Third".to_string(), "u".to_string());
    archived.status = PageStatus::Archived;
    let pages = vec![
        Page::new("First".to_string(), "u".to_string()),
        published,
        archived,
        Page::new("Fourth".to_string(), "u".to_string()),
    ];
    assert_eq!(
        page_stats(&pages),
        PageStats {
            total_pages: 4,
            draft_pages: 2,
            published_pages: 1,
            recent_page: Some("First".to_string()),
        }
    );
}

#[test]
fn page_is_created_from_a_request() {
    let request =
        CreatePageRequest { title: "T".to_string(), properties: None, tags: None, status: None };
    let page = Page::create(request, "page-1".to_string(), "u".to_string(), 5);
    assert_eq!(page.id, "page-1");
    assert_eq!(page.title, "T");
    assert_eq!(page.status, PageStatus::Draft);
    assert_eq!(page.created_at, 5);
    assert_eq!(page.updated_at, 5);
    assert_eq!(page.created_by, "u");
    assert_eq!(page.last_edited_by, "u");
    assert!(page.properties.is_empty());
    let request = CreatePageRequest {
        title: "P".to_string(),
        properties: None,
        tags: None,
        status: Some(PageStatus::Published),
    };
    assert_eq!(Page::create(request, "p".to_string(), "u".to_string(), 1).status, PageStatus::Published);
}

#[test]
fn page_update_writes_only_what_is_given() {
    let request =
        CreatePageRequest { title: "T".to_string(), properties: None, tags: None, status: None };
    let mut page = Page::create(request, "page-1".to_string(), "u".to_string(), 5);
    let nothing = UpdatePageRequest { title: None, properties: None, tags: None, status: None };
    assert!(!page.apply_update(nothing, 9));
    assert_eq!(page.updated_at, 5);
    // tags alone are not written
    let tags_only = UpdatePageRequest {
        title: None,
        properties: None,
        tags: Some(vec!["x".to_string()]),
        status: None,
    };
    assert!(!page.apply_update(tags_only, 9));
    assert!(page.tags.is_empty());
    assert_eq!(page.updated_at, 5);
    let status = UpdatePageRequest {
        title: None,
        properties: None,
        tags: None,
        status: Some(PageStatus::Archived),
    };
    assert!(page.apply_update(status, 9));
    assert_eq!(page.status, PageStatus::Archived);
    assert_eq!(page.title, "T");
    assert_eq!(page.updated_at, 9);
}

#[test]
fn status_names_are_parsed_for_commands() {
    assert_eq!(parse_status(None), Ok(None));
    assert_eq!(parse_status(Some("Published".to_string())), Ok(Some(PageStatus::Published)));
    assert_eq!(
        parse_status(Some("x".to_string())),
        Err(AppError::InvalidPageData("Invalid status: Invalid page status: x".to_string()))
    );
}

#[test]
fn pages_are_listed_newest_first() {
    let mut pages = Vec::new();
    for (title, time) in [("a", 5), ("b", 9), ("c", 5), ("d", 1)] {
        let request = CreatePageRequest {
            title: title.to_string(),
            properties: None,
            tags: None,
            status: None,
        };
        pages.push(Page::create(request, title.to_string(), "u".to_string(), time));
    }
    assert_eq!(newest_first(&pages), vec![1, 0, 2, 3]);
    assert_eq!(newest_first(&Vec::new()), Vec::<usize>::new());
}
