//! The entities of the application.

pub mod block;
pub mod node;
pub mod page;
pub mod user;

pub use block::{
    blocks_of_page, parse_block_type, Block, BlockType, BlockView, CreateBlockRequest, MoveBlockRequest,
    UpdateBlockRequest, VectorClock,
};
pub use node::{
    CreateNodeRequest, Node, NodeView, NodeWithChildren, Properties, TreeView, UpdateNodeRequest,
};
pub use page::{
    newest_first, page_stats, parse_status, CreatePageRequest, Page, PageStats, PageStatus, PageView,
    UpdatePageRequest,
};
pub use user::{
    CreateUserRequest, UpdateUserPreferencesRequest, UpdateUserProfileRequest, User,
    UserPreferences, UserView,
};
