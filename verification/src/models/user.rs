//! Users and their preferences.

use crate::models::node::opt_text;
use crate::text_map::TextMap;
use crate::utils::clock::now;
use crate::utils::uuid_gen::{generate_id, is_random_uuid_text};
use vstd::prelude::*;
use vstd::string::*;

verus! {

/// The smallest font size that a user can set.
pub const MIN_FONT_SIZE: i32 = 8;

/// The largest font size that a user can set.
pub const MAX_FONT_SIZE: i32 = 72;

/// The shortest auto-save interval, in seconds.
pub const MIN_AUTO_SAVE_INTERVAL: i32 = 5;

/// What a user has chosen.
#[derive(Debug)]
pub struct UserPreferences {
    pub theme: String,
    pub font_size: i32,
    /// Seconds.
    pub auto_save_interval: i32,
    pub git_auto_commit: bool,
    pub collaboration_enabled: bool,
    pub shortcuts: TextMap<String>,
}

/// The mathematical value of [`UserPreferences`].
pub struct PreferencesView {
    pub theme: Seq<char>,
    pub font_size: i32,
    pub auto_save_interval: i32,
    pub git_auto_commit: bool,
    pub collaboration_enabled: bool,
    pub shortcuts: Map<Seq<char>, String>,
}

impl View for UserPreferences {
    type V = PreferencesView;

    open spec fn view(&self) -> PreferencesView {
        PreferencesView {
            theme: self.theme@,
            font_size: self.font_size,
            auto_save_interval: self.auto_save_interval,
            git_auto_commit: self.git_auto_commit,
            collaboration_enabled: self.collaboration_enabled,
            shortcuts: self.shortcuts@,
        }
    }
}

/// The actions that have a shortcut from the start.
pub open spec fn default_shortcut_keys() -> Set<Seq<char>> {
    set![
        "create_block"@,
        "indent_block"@,
        "outdent_block"@,
        "delete_block"@,
        "save"@,
        "undo"@,
        "redo"@,
    ]
}

/// The shortcut that an action has from the start.
pub open spec fn default_shortcut(action: Seq<char>) -> Seq<char> {
    if action == "redo"@ {
        "Ctrl+Y"@
    } else if action == "undo"@ {
        "Ctrl+Z"@
    } else if action == "save"@ {
        "Ctrl+S"@
    } else if action == "delete_block"@ {
        "Ctrl+D"@
    } else if action == "outdent_block"@ {
        "Shift+Tab"@
    } else if action == "indent_block"@ {
        "Tab"@
    } else {
        "Enter"@
    }
}

impl Default for UserPreferences {
    fn default() -> (p: UserPreferences)
        ensures
            p@.theme == "system"@,
            p@.font_size == 14,
            p@.auto_save_interval == 30,
            p@.git_auto_commit,
            !p@.collaboration_enabled,
            p@.shortcuts.dom() == default_shortcut_keys(),
            forall|action: Seq<char>|
                default_shortcut_keys().contains(action) ==> (#[trigger] p@.shortcuts[action])@
                    == default_shortcut(action),
    {
        let mut shortcuts: TextMap<String> = TextMap::new();
        shortcuts.insert(String::from_str("create_block"), String::from_str("Enter"));
        shortcuts.insert(String::from_str("indent_block"), String::from_str("Tab"));
        shortcuts.insert(String::from_str("outdent_block"), String::from_str("Shift+Tab"));
        shortcuts.insert(String::from_str("delete_block"), String::from_str("Ctrl+D"));
        shortcuts.insert(String::from_str("save"), String::from_str("Ctrl+S"));
        shortcuts.insert(String::from_str("undo"), String::from_str("Ctrl+Z"));
        shortcuts.insert(String::from_str("redo"), String::from_str("Ctrl+Y"));
        proof {
            reveal_strlit("create_block");
            reveal_strlit("indent_block");
            reveal_strlit("outdent_block");
            reveal_strlit("delete_block");
            reveal_strlit("save");
            reveal_strlit("undo");
            reveal_strlit("redo");
            assert("create_block"@ != "indent_block"@) by {
                assert("create_block"@[0] != "indent_block"@[0]);
            }
            assert("create_block"@.len() != "outdent_block"@.len());
            assert("create_block"@ != "delete_block"@) by {
                assert("create_block"@[0] != "delete_block"@[0]);
            }
            assert("indent_block"@ != "delete_block"@) by {
                assert("indent_block"@[0] != "delete_block"@[0]);
            }
            assert("indent_block"@.len() != "outdent_block"@.len());
            assert("delete_block"@.len() != "outdent_block"@.len());
            assert("save"@ != "undo"@) by {
                assert("save"@[0] != "undo"@[0]);
            }
            assert("save"@ != "redo"@) by {
                assert("save"@[0] != "redo"@[0]);
            }
            assert("undo"@ != "redo"@) by {
                assert("undo"@[0] != "redo"@[0]);
            }
            assert("save"@.len() != "create_block"@.len());
            assert("save"@.len() != "outdent_block"@.len());
            assert(shortcuts@.dom() =~= default_shortcut_keys());
        }
        UserPreferences {
            theme: String::from_str("system"),
            font_size: 14,
            auto_save_interval: 30,
            git_auto_commit: true,
            collaboration_enabled: false,
            shortcuts,
        }
    }
}

/// One user.
#[derive(Debug)]
pub struct User {
    pub id: String,
    pub name: String,
    pub email: Option<String>,
    pub avatar_url: Option<String>,
    pub preferences: UserPreferences,
    pub is_online: bool,
    /// Nanoseconds since the Unix epoch.
    pub last_seen: i64,
    pub auth_token: Option<String>,
    /// Nanoseconds since the Unix epoch.
    pub created_at: i64,
    /// Nanoseconds since the Unix epoch.
    pub updated_at: i64,
}

/// The mathematical value of a [`User`].
pub struct UserView {
    pub id: Seq<char>,
    pub name: Seq<char>,
    pub email: Option<Seq<char>>,
    pub avatar_url: Option<Seq<char>>,
    pub preferences: PreferencesView,
    pub is_online: bool,
    pub last_seen: i64,
    pub auth_token: Option<Seq<char>>,
    pub created_at: i64,
    pub updated_at: i64,
}

impl View for User {
    type V = UserView;

    open spec fn view(&self) -> UserView {
        UserView {
            id: self.id@,
            name: self.name@,
            email: opt_text(self.email),
            avatar_url: opt_text(self.avatar_url),
            preferences: self.preferences@,
            is_online: self.is_online,
            last_seen: self.last_seen,
            auth_token: opt_text(self.auth_token),
            created_at: self.created_at,
            updated_at: self.updated_at,
        }
    }
}

/// The font size that is stored for a request: the nearest size within the
/// bounds.
pub open spec fn clamped_font_size(font_size: i32) -> i32 {
    if font_size < MIN_FONT_SIZE {
        MIN_FONT_SIZE
    } else if font_size > MAX_FONT_SIZE {
        MAX_FONT_SIZE
    } else {
        font_size
    }
}

/// The auto-save interval that is stored for a request: the interval, but no
/// less than the minimum.
pub open spec fn floored_interval(interval: i32) -> i32 {
    if interval < MIN_AUTO_SAVE_INTERVAL {
        MIN_AUTO_SAVE_INTERVAL
    } else {
        interval
    }
}

impl User {
    /// A user with the default preferences, offline, without avatar or
    /// token, under a fresh id and stamped with the current time.
    pub fn new(name: String, email: Option<String>) -> (user: User)
        ensures
            is_random_uuid_text(user@.id),
            user@.name == name@,
            user@.email == opt_text(email),
            user@.avatar_url is None,
            !user@.is_online,
            user@.auth_token is None,
            user@.last_seen == user@.created_at,
            user@.updated_at == user@.created_at,
            user@.preferences.theme == "system"@,
            user@.preferences.font_size == 14,
            user@.preferences.auto_save_interval == 30,
            user@.preferences.git_auto_commit,
            !user@.preferences.collaboration_enabled,
            user@.preferences.shortcuts.dom() == default_shortcut_keys(),
    {
        let now = now();
        let id = generate_id();
        User {
            id,
            name,
            email,
            avatar_url: None,
            preferences: UserPreferences::default(),
            is_online: false,
            last_seen: now,
            auth_token: None,
            created_at: now,
            updated_at: now,
        }
    }

    /// The single user of a local installation.
    pub fn create_local_user() -> (user: User)
        ensures
            is_random_uuid_text(user@.id),
            user@.name == "Local User"@,
            user@.email is None,
            !user@.is_online,
            user@.auth_token is None,
            user@.preferences.theme == "system"@,
            user@.preferences.font_size == 14,
    {
        User::new(String::from_str("Local User"), None)
    }

    /// Replaces the preferences.
    pub fn update_preferences(&mut self, preferences: UserPreferences)
        ensures
            final(self)@ == (UserView {
                preferences: preferences@,
                updated_at: final(self)@.updated_at,
                ..old(self)@
            }),
    {
        self.preferences = preferences;
        self.updated_at = now();
    }

    /// Replaces the parts of the profile that are given.
    pub fn update_profile(
        &mut self,
        name: Option<String>,
        email: Option<String>,
        avatar_url: Option<String>,
    )
        ensures
            final(self)@ == (UserView {
                name: match name {
                    Some(n) => n@,
                    None => old(self)@.name,
                },
                email: match email {
                    Some(e) => Some(e@),
                    None => old(self)@.email,
                },
                avatar_url: match avatar_url {
                    Some(a) => Some(a@),
                    None => old(self)@.avatar_url,
                },
                updated_at: final(self)@.updated_at,
                ..old(self)@
            }),
    {
        match name {
            Some(n) => {
                self.name = n;
            },
            None => {},
        }
        match email {
            Some(e) => {
                self.email = Some(e);
            },
            None => {},
        }
        match avatar_url {
            Some(a) => {
                self.avatar_url = Some(a);
            },
            None => {},
        }
        self.updated_at = now();
    }

    /// Sets the online status; going online records the current time as the
    /// time last seen.
    pub fn set_online(&mut self, online: bool)
        ensures
            final(self)@ == (UserView {
                is_online: online,
                last_seen: if online {
                    final(self)@.last_seen
                } else {
                    old(self)@.last_seen
                },
                ..old(self)@
            }),
    {
        self.is_online = online;
        if online {
            self.last_seen = now();
        }
    }

    /// Records the current time as the time last seen.
    pub fn update_last_seen(&mut self)
        ensures
            final(self)@ == (UserView { last_seen: final(self)@.last_seen, ..old(self)@ }),
    {
        self.set_last_seen(now());
    }

    /// Records the given time as the time last seen.
    pub fn set_last_seen(&mut self, time: i64)
        ensures
            final(self)@ == (UserView { last_seen: time, ..old(self)@ }),
    {
        self.last_seen = time;
    }

    /// Stores the shortcut of an action.
    pub fn set_shortcut(&mut self, action: String, shortcut: String)
        ensures
            final(self)@ == (UserView {
                preferences: PreferencesView {
                    shortcuts: old(self)@.preferences.shortcuts.insert(action@, shortcut),
                    ..old(self)@.preferences
                },
                updated_at: final(self)@.updated_at,
                ..old(self)@
            }),
    {
        self.preferences.shortcuts.insert(action, shortcut);
        self.updated_at = now();
    }

    /// The shortcut of an action.
    pub fn get_shortcut(&self, action: &str) -> (r: Option<&String>)
        ensures
            r is Some <==> self@.preferences.shortcuts.contains_key(action@),
            r matches Some(s) ==> *s == self@.preferences.shortcuts[action@],
    {
        self.preferences.shortcuts.get(action)
    }

    /// Sets the theme.
    pub fn set_theme(&mut self, theme: String)
        ensures
            final(self)@ == (UserView {
                preferences: PreferencesView { theme: theme@, ..old(self)@.preferences },
                updated_at: final(self)@.updated_at,
                ..old(self)@
            }),
    {
        self.preferences.theme = theme;
        self.updated_at = now();
    }

    /// Sets the font size, brought within 8 and 72.
    pub fn set_font_size(&mut self, font_size: i32)
        ensures
            final(self)@ == (UserView {
                preferences: PreferencesView {
                    font_size: clamped_font_size(font_size),
                    ..old(self)@.preferences
                },
                updated_at: final(self)@.updated_at,
                ..old(self)@
            }),
    {
        self.preferences.font_size = if font_size < MIN_FONT_SIZE {
            MIN_FONT_SIZE
        } else if font_size > MAX_FONT_SIZE {
            MAX_FONT_SIZE
        } else {
            font_size
        };
        self.updated_at = now();
    }

    /// Sets the auto-save interval, but to no less than 5 seconds.
    pub fn set_auto_save_interval(&mut self, interval: i32)
        ensures
            final(self)@ == (UserView {
                preferences: PreferencesView {
                    auto_save_interval: floored_interval(interval),
                    ..old(self)@.preferences
                },
                updated_at: final(self)@.updated_at,
                ..old(self)@
            }),
    {
        self.preferences.auto_save_interval = if interval < MIN_AUTO_SAVE_INTERVAL {
            MIN_AUTO_SAVE_INTERVAL
        } else {
            interval
        };
        self.updated_at = now();
    }
}

/// What a caller supplies to create a user.
#[derive(Debug)]
pub struct CreateUserRequest {
    pub name: String,
    pub email: Option<String>,
    pub preferences: Option<UserPreferences>,
}

/// A partial update of a profile.
#[derive(Debug)]
pub struct UpdateUserProfileRequest {
    pub name: Option<String>,
    pub email: Option<String>,
    pub avatar_url: Option<String>,
}

/// A partial update of preferences.
#[derive(Debug)]
pub struct UpdateUserPreferencesRequest {
    pub theme: Option<String>,
    pub font_size: Option<i32>,
    pub auto_save_interval: Option<i32>,
    pub git_auto_commit: Option<bool>,
    pub collaboration_enabled: Option<bool>,
    pub shortcuts: Option<TextMap<String>>,
}

} // verus!
