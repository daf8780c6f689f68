use note::models::{User, UserPreferences};
use note::utils::clock::now;

#[test]
fn test_user_creation() {
    let user = User::new("Test User".to_string(), Some("test@example.com".to_string()));

    assert_eq!(user.name, "Test User");
    assert_eq!(user.email, Some("test@example.com".to_string()));
    assert_eq!(user.preferences.theme, "system");
    assert_eq!(user.preferences.font_size, 14);
    assert!(!user.is_online);
    assert!(user.auth_token.is_none());
}

#[test]
fn test_local_user_creation() {
    let user = User::create_local_user();

    assert_eq!(user.name, "Local User");
    assert_eq!(user.email, None);
    assert!(!user.is_online);
}

#[test]
fn test_user_profile_update() {
    let mut user = User::create_local_user();

    user.update_profile(
        Some("Updated User".to_string()),
        Some("updated@example.com".to_string()),
        Some("https://example.com/avatar.png".to_string()),
    );

    assert_eq!(user.name, "Updated User");
    assert_eq!(user.email, Some("updated@example.com".to_string()));
    assert_eq!(user.avatar_url, Some("https://example.com/avatar.png".to_string()));
}

#[test]
fn test_user_shortcuts() {
    let mut user = User::create_local_user();

    user.set_shortcut("test_action".to_string(), "Ctrl+T".to_string());

    assert_eq!(user.get_shortcut("test_action"), Some(&"Ctrl+T".to_string()));
    assert_eq!(user.get_shortcut("nonexistent"), None);
}

#[test]
fn test_user_theme_update() {
    let mut user = User::create_local_user();

    user.set_theme("dark".to_string());
    assert_eq!(user.preferences.theme, "dark");
}

#[test]
fn test_user_font_size_bounds() {
    let mut user = User::create_local_user();

    user.set_font_size(100); // Should be clamped to 72
    assert_eq!(user.preferences.font_size, 72);

    user.set_font_size(5); // Should be clamped to 8
    assert_eq!(user.preferences.font_size, 8);

    user.set_font_size(16); // Should be accepted as-is
    assert_eq!(user.preferences.font_size, 16);
}

#[test]
fn test_auto_save_interval_bounds() {
    let mut user = User::create_local_user();

    user.set_auto_save_interval(1); // Should be increased to minimum 5
    assert_eq!(user.preferences.auto_save_interval, 5);

    user.set_auto_save_interval(60); // Should be accepted as-is
    assert_eq!(user.preferences.auto_save_interval, 60);
}

#[test]
fn test_default_shortcuts() {
    let prefs = UserPreferences::default();

    assert!(prefs.shortcuts.contains_key("create_block"));
    assert!(prefs.shortcuts.contains_key("indent_block"));
    assert!(prefs.shortcuts.contains_key("save"));
    assert!(prefs.shortcuts.contains_key("undo"));
    assert!(prefs.shortcuts.contains_key("redo"));
}

#[test]
fn default_preferences_are_exact() {
    let prefs = UserPreferences::default();
    assert_eq!(prefs.theme, "system");
    assert_eq!(prefs.font_size, 14);
    assert_eq!(prefs.auto_save_interval, 30);
    assert!(prefs.git_auto_commit);
    assert!(!prefs.collaboration_enabled);
    assert_eq!(prefs.shortcuts.len(), 7);
    let expected = [
        ("create_block", "Enter"),
        ("indent_block", "Tab"),
        ("outdent_block", "Shift+Tab"),
        ("delete_block", "Ctrl+D"),
        ("save", "Ctrl+S"),
        ("undo", "Ctrl+Z"),
        ("redo", "Ctrl+Y"),
    ];
    for (action, shortcut) in expected {
        assert_eq!(prefs.shortcuts.get(action), Some(&shortcut.to_string()));
    }
    assert!(!prefs.shortcuts.contains_key("quit"));
}

#[test]
fn preferences_and_presence_updates() {
    let mut user = User::create_local_user();
    let mut prefs = UserPreferences::default();
    prefs.theme = "dark".to_string();
    prefs.font_size = 16;
    let before = user.updated_at;
    user.update_preferences(prefs);
    assert_eq!(user.preferences.theme, "dark");
    assert_eq!(user.preferences.font_size, 16);
    assert!(user.updated_at >= before);

    let seen = user.last_seen;
    user.set_online(false);
    assert!(!user.is_online);
    assert_eq!(user.last_seen, seen);
    user.set_online(true);
    assert!(user.is_online);
    assert!(user.last_seen >= seen);
    user.update_last_seen();
    assert!(user.last_seen >= seen);

    user.update_profile(None, None, None);
    assert_eq!(user.name, "Local User");
    assert_eq!(user.email, None);
    assert_eq!(user.avatar_url, None);

    user.set_font_size(8);
    assert_eq!(user.preferences.font_size, 8);
    user.set_font_size(72);
    assert_eq!(user.preferences.font_size, 72);
    user.set_auto_save_interval(5);
    assert_eq!(user.preferences.auto_save_interval, 5);
    user.set_auto_save_interval(-3);
    assert_eq!(user.preferences.auto_save_interval, 5);
}

/// Waits until the clock has moved past the given time.
fn wait_until_after(time: i64) {
    while now() <= time {}
}

#[test]
fn test_user_preferences_update() {
    let mut user = User::create_local_user();

    let mut new_prefs = UserPreferences::default();
    new_prefs.theme = "dark".to_string();
    new_prefs.font_size = 16;

    let original_updated = user.updated_at;
    wait_until_after(original_updated);

    user.update_preferences(new_prefs);

    assert_eq!(user.preferences.theme, "dark");
    assert_eq!(user.preferences.font_size, 16);
    assert!(user.updated_at > original_updated);
}

#[test]
fn last_seen_is_set_to_the_given_time() {
    let mut user = User::create_local_user();
    let created = user.created_at;
    user.set_last_seen(77);
    assert_eq!(user.last_seen, 77);
    assert_eq!(user.created_at, created);
    assert_eq!(user.name, "Local User");
    assert!(!user.is_online);
    user.set_last_seen(i64::MIN);
    assert_eq!(user.last_seen, i64::MIN);
    user.update_last_seen();
    assert!(user.last_seen >= created);
}
