//! Checks applied to user input before it reaches the store.

use crate::errors::AppError;
use crate::text::{
    blank, chars_of, concat3, decimal, decimal_text, is_blank, is_control, push_char,
    unicode_control,
};
use crate::utils::uuid_gen::{is_valid_uuid, uuid_text_is_valid};
use vstd::prelude::*;
use vstd::string::*;

verus! {

/// The longest page title, in bytes.
pub const MAX_PAGE_TITLE_LEN: usize = 200;

/// The longest block text, in bytes.
pub const MAX_BLOCK_TEXT_LEN: usize = 10000;

/// Rejects a value that is empty or holds only white space.
pub fn validate_not_empty(value: &str, field_name: &str) -> (r: Result<(), AppError>)
    ensures
        r is Err <==> is_blank(value@),
        r matches Err(e) ==> e matches AppError::MissingRequiredField(name) && name@
            == field_name@,
{
    if blank(value) {
        return Err(AppError::MissingRequiredField(String::from_str(field_name)));
    }
    Ok(())
}

/// The message of a value that is longer than `max_len` bytes.
pub open spec fn too_long_message(field_name: Seq<char>, max_len: usize) -> Seq<char> {
    field_name + " exceeds maximum length of "@ + decimal_text(max_len as nat) + " characters"@
}

/// Rejects a value whose UTF-8 encoding is longer than `max_len` bytes.
pub fn validate_max_length(value: &str, max_len: usize, field_name: &str) -> (r: Result<
    (),
    AppError,
>)
    ensures
        r is Err <==> value.spec_bytes().len() > max_len,
        r matches Err(e) ==> e matches AppError::InvalidBlockData(m) && m@ == too_long_message(
            field_name@,
            max_len,
        ),
{
    if value.as_bytes().len() > max_len {
        let limit = decimal(max_len);
        let message = concat3(field_name, " exceeds maximum length of ", limit.as_str()).concat(
            " characters",
        );
        return Err(AppError::InvalidBlockData(message));
    }
    Ok(())
}

/// A page title must not be blank and fits in 200 bytes.
pub fn validate_page_title(title: &str) -> (r: Result<(), AppError>)
    ensures
        r is Err <==> is_blank(title@) || title.spec_bytes().len() > MAX_PAGE_TITLE_LEN,
        r matches Err(e) ==> if is_blank(title@) {
            e matches AppError::MissingRequiredField(name) && name@ == "page title"@
        } else {
            e matches AppError::InvalidBlockData(m) && m@ == too_long_message(
                "page title"@,
                MAX_PAGE_TITLE_LEN,
            )
        },
{
    match validate_not_empty(title, "page title") {
        Err(e) => {
            return Err(e);
        },
        Ok(()) => {},
    }
    validate_max_length(title, MAX_PAGE_TITLE_LEN, "page title")
}

/// A block text may be empty and fits in 10000 bytes.
pub fn validate_block_text(text: &str) -> (r: Result<(), AppError>)
    ensures
        r is Err <==> text.spec_bytes().len() > MAX_BLOCK_TEXT_LEN,
        r matches Err(e) ==> e matches AppError::InvalidBlockData(m) && m@ == too_long_message(
            "block text"@,
            MAX_BLOCK_TEXT_LEN,
        ),
{
    validate_max_length(text, MAX_BLOCK_TEXT_LEN, "block text")
}

/// Rejects a text that does not parse as an identifier.
pub fn validate_uuid_format(id: &str, field_name: &str) -> (r: Result<(), AppError>)
    ensures
        r is Err <==> !uuid_text_is_valid(id@),
        r matches Err(e) ==> e matches AppError::InvalidBlockData(m) && m@
            == "Invalid UUID format for "@ + field_name@,
{
    if !is_valid_uuid(id) {
        let message = String::from_str("Invalid UUID format for ").concat(field_name);
        return Err(AppError::InvalidBlockData(message));
    }
    Ok(())
}

/// Whether sanitizing keeps the character: control codes go, except for line
/// feed and tab.
pub open spec fn is_kept(c: char) -> bool {
    !unicode_control(c) || c == '\n' || c == '\t'
}

/// The text without the characters that sanitizing drops.
pub open spec fn sanitized(text: Seq<char>) -> Seq<char>
    decreases text.len(),
{
    if text.len() == 0 {
        text
    } else if is_kept(text.last()) {
        sanitized(text.drop_last()).push(text.last())
    } else {
        sanitized(text.drop_last())
    }
}

/// Removes control characters other than line feed and tab.
pub fn sanitize_text(text: &str) -> (clean: String)
    ensures
        clean@ == sanitized(text@),
{
    let v = chars_of(text);
    let mut clean = String::new();
    let mut i: usize = 0;
    assert(v@.take(0) =~= Seq::<char>::empty());
    while i < v.len()
        invariant
            v@ == text@,
            i <= v.len(),
            clean@ == sanitized(v@.take(i as int)),
        decreases v.len() - i,
    {
        let c = v[i];
        assert(v@.take(i + 1).drop_last() =~= v@.take(i as int));
        if !is_control(c) || c == '\n' || c == '\t' {
            push_char(&mut clean, c);
        }
        i = i + 1;
    }
    assert(v@.take(v.len() as int) =~= v@);
    clean
}

} // verus!
