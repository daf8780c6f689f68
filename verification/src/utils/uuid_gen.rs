//! Globally unique identifiers, rendered as text.

use crate::text::{chars_of, string_of};
use vstd::prelude::*;
use vstd::string::*;

verus! {

/// Whether `uuid::Uuid::parse_str` accepts the text.
pub uninterp spec fn uuid_text_is_valid(text: Seq<char>) -> bool;

/// A lower-case hexadecimal digit.
pub open spec fn is_lower_hex(c: char) -> bool {
    ('0' <= c && c <= '9') || ('a' <= c && c <= 'f')
}

/// The shape of a random (version 4) identifier in its canonical rendering:
/// 36 characters, lower-case hexadecimal digits in groups of 8, 4, 4, 4 and 12
/// separated by hyphens, with the version and variant digits in their places.
pub open spec fn is_random_uuid_text(text: Seq<char>) -> bool {
    &&& text.len() == 36
    &&& forall|i: int|
        0 <= i < 36 ==> if i == 8 || i == 13 || i == 18 || i == 23 {
            #[trigger] text[i] == '-'
        } else {
            is_lower_hex(text[i])
        }
    &&& text[14] == '4'
    &&& (text[19] == '8' || text[19] == '9' || text[19] == 'a' || text[19] == 'b')
}

/// Calls `uuid::Uuid::new_v4` and renders the identifier with its `Display`
/// impl. Whatever the random bits, the text is the lower-case hyphenated form
/// of a version 4 identifier, and the crate's own parser accepts it.
#[verifier::external_body]
fn random_uuid_text() -> (id: String)
    ensures
        is_random_uuid_text(id@),
        uuid_text_is_valid(id@),
{
    uuid::Uuid::new_v4().to_string()
}

/// Calls `uuid::Uuid::parse_str` and reports whether it succeeded.
#[verifier::external_body]
fn parses_as_uuid(id: &str) -> (ok: bool)
    ensures
        ok == uuid_text_is_valid(id@),
{
    uuid::Uuid::parse_str(id).is_ok()
}

/// A fresh random identifier.
pub fn generate_id() -> (id: String)
    ensures
        is_random_uuid_text(id@),
        uuid_text_is_valid(id@),
{
    random_uuid_text()
}

/// A fresh identifier marked as naming a block.
pub fn generate_block_id() -> (id: String)
    ensures
        is_prefixed_id("block-"@, id@),
{
    let uuid = generate_id();
    let id = String::from_str("block-").concat(uuid.as_str());
    proof {
        assert(id@.skip("block-"@.len() as int) =~= uuid@);
        assert(id@.take("block-"@.len() as int) =~= "block-"@);
    }
    id
}

/// A fresh identifier marked as naming a page.
pub fn generate_page_id() -> (id: String)
    ensures
        is_prefixed_id("page-"@, id@),
{
    let uuid = generate_id();
    let id = String::from_str("page-").concat(uuid.as_str());
    proof {
        assert(id@.skip("page-"@.len() as int) =~= uuid@);
        assert(id@.take("page-"@.len() as int) =~= "page-"@);
    }
    id
}

/// `id` is `prefix` followed by a canonical random identifier.
pub open spec fn is_prefixed_id(prefix: Seq<char>, id: Seq<char>) -> bool {
    &&& prefix.len() <= id.len()
    &&& id.take(prefix.len() as int) == prefix
    &&& is_random_uuid_text(id.skip(prefix.len() as int))
    &&& uuid_text_is_valid(id.skip(prefix.len() as int))
}

/// The kinds of entity whose identifiers carry a prefix.
#[derive(Debug, Clone, Copy, PartialEq, Eq, Structural)]
pub enum EntityKind {
    Block,
    Page,
}

/// A fresh identifier, marked with the prefix of the kind where one is
/// given. The prefix only helps a reader: the random part alone makes the
/// identifier unique.
pub fn new_id(kind: Option<EntityKind>) -> (id: String)
    ensures
        match kind {
            None => is_random_uuid_text(id@) && uuid_text_is_valid(id@),
            Some(EntityKind::Block) => is_prefixed_id("block-"@, id@),
            Some(EntityKind::Page) => is_prefixed_id("page-"@, id@),
        },
{
    match kind {
        None => generate_id(),
        Some(EntityKind::Block) => generate_block_id(),
        Some(EntityKind::Page) => generate_page_id(),
    }
}

/// Whether the text parses as an identifier.
pub fn is_valid_uuid(id: &str) -> (ok: bool)
    ensures
        ok == uuid_text_is_valid(id@),
{
    parses_as_uuid(id)
}

/// `at` is the position of the first hyphen in `text`.
pub open spec fn is_first_hyphen(text: Seq<char>, at: int) -> bool {
    &&& 0 <= at < text.len()
    &&& text[at] == '-'
    &&& forall|j: int| 0 <= j < at ==> text[j] != '-'
}

/// What follows the first hyphen of `prefixed_id`, provided that it parses as
/// an identifier.
pub fn extract_uuid(prefixed_id: &str) -> (uuid: Option<String>)
    ensures
        match uuid {
            Some(u) => exists|at: int|
                is_first_hyphen(prefixed_id@, at) && u@ == prefixed_id@.skip(at + 1)
                    && uuid_text_is_valid(u@),
            None => forall|at: int|
                is_first_hyphen(prefixed_id@, at) ==> !uuid_text_is_valid(
                    prefixed_id@.skip(at + 1),
                ),
        },
{
    let v = chars_of(prefixed_id);
    let mut i: usize = 0;
    while i < v.len()
        invariant
            v@ == prefixed_id@,
            i <= v.len(),
            forall|j: int| 0 <= j < i ==> v@[j] != '-',
        decreases v.len() - i,
    {
        if v[i] == '-' {
            let rest = string_of(&v, i + 1, v.len());
            assert(v@.subrange(i + 1, v.len() as int) =~= v@.skip(i + 1));
            assert(is_first_hyphen(prefixed_id@, i as int));
            if is_valid_uuid(rest.as_str()) {
                return Some(rest);
            } else {
                assert forall|at: int| is_first_hyphen(prefixed_id@, at) implies at == i by {}
                return None;
            }
        }
        i = i + 1;
    }
    None
}

} // verus!
