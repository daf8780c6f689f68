//! Identifier generation, input validation and the clock.

pub mod clock;
pub mod uuid_gen;
pub mod validation;

pub use uuid_gen::{
    extract_uuid, generate_block_id, generate_id, generate_page_id, is_valid_uuid, new_id,
    EntityKind,
};
pub use validation::{
    sanitize_text, validate_block_text, validate_max_length, validate_not_empty,
    validate_page_title, validate_uuid_format,
};
