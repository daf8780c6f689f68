//! Blocks: the units of text of a page.

use crate::errors::AppError;
use crate::models::node::opt_text;
use crate::ordering::{as_ints, lemma_stable_order_permutes, sort_positions, stable_order};
use crate::text::{add_once, lowercase, remove_text, str_eq, to_lowercase, without_text};
use crate::text_map::TextMap;
use crate::utils::clock::now;
use crate::utils::uuid_gen::{generate_block_id, is_prefixed_id};
use vstd::prelude::*;
use vstd::string::*;

verus! {

/// How a block is rendered and behaves.
#[derive(Debug, Clone, Copy, PartialEq, Eq, Structural)]
pub enum BlockType {
    Text,
    Heading,
    ListItem,
    Code,
    Quote,
    Image,
    Link,
    Reference,
}

impl Default for BlockType {
    fn default() -> (t: BlockType)
        ensures
            t == BlockType::Text,
    {
        BlockType::Text
    }
}

impl BlockType {
    /// The name of the block type.
    pub open spec fn name(self) -> Seq<char> {
        match self {
            BlockType::Text => "text"@,
            BlockType::Heading => "heading"@,
            BlockType::ListItem => "list_item"@,
            BlockType::Code => "code"@,
            BlockType::Quote => "quote"@,
            BlockType::Image => "image"@,
            BlockType::Link => "link"@,
            BlockType::Reference => "reference"@,
        }
    }

    /// The block type that a lower-case name stands for.
    pub open spec fn named(name: Seq<char>) -> Option<BlockType> {
        if name == "text"@ {
            Some(BlockType::Text)
        } else if name == "heading"@ {
            Some(BlockType::Heading)
        } else if name == "list_item"@ {
            Some(BlockType::ListItem)
        } else if name == "code"@ {
            Some(BlockType::Code)
        } else if name == "quote"@ {
            Some(BlockType::Quote)
        } else if name == "image"@ {
            Some(BlockType::Image)
        } else if name == "link"@ {
            Some(BlockType::Link)
        } else if name == "reference"@ {
            Some(BlockType::Reference)
        } else {
            None
        }
    }

    /// The name of the block type.
    pub fn to_string(&self) -> (s: String)
        ensures
            s@ == self.name(),
    {
        match self {
            BlockType::Text => String::from_str("text"),
            BlockType::Heading => String::from_str("heading"),
            BlockType::ListItem => String::from_str("list_item"),
            BlockType::Code => String::from_str("code"),
            BlockType::Quote => String::from_str("quote"),
            BlockType::Image => String::from_str("image"),
            BlockType::Link => String::from_str("link"),
            BlockType::Reference => String::from_str("reference"),
        }
    }

    /// Reads a block type from its name, in any letter case.
    pub fn from_str(s: &str) -> (r: Result<BlockType, String>)
        ensures
            match BlockType::named(lowercase(s@)) {
                Some(t) => r == Ok::<BlockType, String>(t),
                None => r matches Err(m) && m@ == "Invalid block type: "@ + s@,
            },
    {
        let lower = to_lowercase(s);
        let name = lower.as_str();
        if str_eq(name, "text") {
            Ok(BlockType::Text)
        } else if str_eq(name, "heading") {
            Ok(BlockType::Heading)
        } else if str_eq(name, "list_item") {
            Ok(BlockType::ListItem)
        } else if str_eq(name, "code") {
            Ok(BlockType::Code)
        } else if str_eq(name, "quote") {
            Ok(BlockType::Quote)
        } else if str_eq(name, "image") {
            Ok(BlockType::Image)
        } else if str_eq(name, "link") {
            Ok(BlockType::Link)
        } else if str_eq(name, "reference") {
            Ok(BlockType::Reference)
        } else {
            Err(String::from_str("Invalid block type: ").concat(s))
        }
    }
}

/// A vector clock: one counter per replica.
#[derive(Debug, PartialEq)]
pub struct VectorClock {
    pub clocks: TextMap<u64>,
}

impl VectorClock {
    /// The clock without any counter.
    pub fn new() -> (clock: VectorClock)
        ensures
            clock.clocks@ == Map::<Seq<char>, u64>::empty(),
    {
        VectorClock { clocks: TextMap::new() }
    }
}

impl Default for VectorClock {
    fn default() -> (clock: VectorClock)
        ensures
            clock.clocks@ == Map::<Seq<char>, u64>::empty(),
    {
        VectorClock::new()
    }
}

/// One block of a page.
#[derive(Debug)]
pub struct Block {
    pub id: String,
    pub text: String,
    pub page_id: String,
    pub parent_id: Option<String>,
    pub children: Vec<String>,
    pub order: i32,
    pub properties: TextMap<serde_json::Value>,
    /// Nanoseconds since the Unix epoch.
    pub created_at: i64,
    /// Nanoseconds since the Unix epoch.
    pub updated_at: i64,
    pub created_by: String,
    pub last_edited_by: String,
    pub version: i32,
    pub block_type: BlockType,
    pub vector_clock: Option<VectorClock>,
    pub operation_id: Option<String>,
}

/// The mathematical value of a [`Block`], but for its vector clock.
pub struct BlockView {
    pub id: Seq<char>,
    pub text: Seq<char>,
    pub page_id: Seq<char>,
    pub parent_id: Option<Seq<char>>,
    pub children: Seq<Seq<char>>,
    pub order: i32,
    pub properties: Map<Seq<char>, serde_json::Value>,
    pub created_at: i64,
    pub updated_at: i64,
    pub created_by: Seq<char>,
    pub last_edited_by: Seq<char>,
    pub version: i32,
    pub block_type: BlockType,
    pub has_vector_clock: bool,
    pub operation_id: Option<Seq<char>>,
}

impl View for Block {
    type V = BlockView;

    open spec fn view(&self) -> BlockView {
        BlockView {
            id: self.id@,
            text: self.text@,
            page_id: self.page_id@,
            parent_id: opt_text(self.parent_id),
            children: self.children.deep_view(),
            order: self.order,
            properties: self.properties@,
            created_at: self.created_at,
            updated_at: self.updated_at,
            created_by: self.created_by@,
            last_edited_by: self.last_edited_by@,
            version: self.version,
            block_type: self.block_type,
            has_vector_clock: self.vector_clock is Some,
            operation_id: opt_text(self.operation_id),
        }
    }
}

/// The block that `Block::new` makes under the given id and time.
pub open spec fn new_block(
    id: Seq<char>,
    now: i64,
    text: Seq<char>,
    page_id: Seq<char>,
    created_by: Seq<char>,
) -> BlockView {
    BlockView {
        id,
        text,
        page_id,
        parent_id: None,
        children: Seq::empty(),
        order: 0,
        properties: Map::empty(),
        created_at: now,
        updated_at: now,
        created_by,
        last_edited_by: created_by,
        version: 1,
        block_type: BlockType::Text,
        has_vector_clock: false,
        operation_id: None,
    }
}

impl Block {
    /// A root block of a page: a fresh block id, the current time, version 1,
    /// plain text, no children and no properties.
    pub fn new(text: String, page_id: String, created_by: String) -> (block: Block)
        ensures
            is_prefixed_id("block-"@, block@.id),
            block@ == new_block(block@.id, block@.created_at, text@, page_id@, created_by@),
    {
        let now = now();
        let id = generate_block_id();
        let block = Block {
            id,
            text,
            page_id,
            parent_id: None,
            children: Vec::new(),
            order: 0,
            properties: TextMap::new(),
            created_at: now,
            updated_at: now,
            created_by: created_by.clone(),
            last_edited_by: created_by,
            version: 1,
            block_type: BlockType::Text,
            vector_clock: None,
            operation_id: None,
        };
        assert(block@.children =~= Seq::<Seq<char>>::empty());
        block
    }

    /// A block below another one.
    pub fn new_child(
        text: String,
        page_id: String,
        parent_id: String,
        order: i32,
        created_by: String,
    ) -> (block: Block)
        ensures
            is_prefixed_id("block-"@, block@.id),
            block@ == (BlockView {
                parent_id: Some(parent_id@),
                order,
                ..new_block(block@.id, block@.created_at, text@, page_id@, created_by@)
            }),
    {
        let mut block = Block::new(text, page_id, created_by);
        block.parent_id = Some(parent_id);
        block.order = order;
        block
    }

    /// Records an edit: the current time, the editor, and one more version.
    pub fn touch(&mut self, user_id: String)
        requires
            old(self).version < i32::MAX,
        ensures
            final(self)@ == (BlockView {
                updated_at: final(self)@.updated_at,
                last_edited_by: user_id@,
                version: (old(self).version + 1) as i32,
                ..old(self)@
            }),
    {
        self.updated_at = now();
        self.last_edited_by = user_id;
        self.version = self.version + 1;
    }

    /// Replaces the text and records the edit.
    pub fn update_text(&mut self, text: String, user_id: String)
        requires
            old(self).version < i32::MAX,
        ensures
            final(self)@ == (BlockView {
                text: text@,
                updated_at: final(self)@.updated_at,
                last_edited_by: user_id@,
                version: (old(self).version + 1) as i32,
                ..old(self)@
            }),
    {
        self.text = text;
        self.touch(user_id);
    }

    /// Adds a child unless it is one already.
    pub fn add_child(&mut self, child_id: String)
        ensures
            final(self)@ == (BlockView {
                children: if old(self)@.children.contains(child_id@) {
                    old(self)@.children
                } else {
                    old(self)@.children.push(child_id@)
                },
                ..old(self)@
            }),
    {
        add_once(&mut self.children, child_id);
    }

    /// Removes a child.
    pub fn remove_child(&mut self, child_id: &str)
        ensures
            final(self)@ == (BlockView {
                children: without_text(old(self)@.children, child_id@),
                ..old(self)@
            }),
    {
        remove_text(&mut self.children, child_id);
    }

    /// Sets the parent; none makes the block a root.
    pub fn set_parent(&mut self, parent_id: Option<String>)
        ensures
            final(self)@ == (BlockView { parent_id: opt_text(parent_id), ..old(self)@ }),
    {
        self.parent_id = parent_id;
    }

    /// Sets the place among the siblings.
    pub fn set_order(&mut self, order: i32)
        ensures
            final(self)@ == (BlockView { order, ..old(self)@ }),
    {
        self.order = order;
    }

    /// Stores a property.
    pub fn set_property(&mut self, key: String, value: serde_json::Value)
        ensures
            final(self)@ == (BlockView {
                properties: old(self)@.properties.insert(key@, value),
                ..old(self)@
            }),
    {
        self.properties.insert(key, value);
    }

    /// The property stored under the key.
    pub fn get_property(&self, key: &str) -> (r: Option<&serde_json::Value>)
        ensures
            r is Some <==> self@.properties.contains_key(key@),
            r matches Some(v) ==> *v == self@.properties[key@],
    {
        self.properties.get(key)
    }

    /// Removes a property.
    pub fn remove_property(&mut self, key: &str)
        ensures
            final(self)@ == (BlockView {
                properties: old(self)@.properties.remove(key@),
                ..old(self)@
            }),
    {
        self.properties.remove(key);
    }

    /// Whether the block has no parent.
    pub fn is_root(&self) -> (root: bool)
        ensures
            root == (self@.parent_id is None),
    {
        self.parent_id.is_none()
    }

    /// Whether the block has children.
    pub fn has_children(&self) -> (any: bool)
        ensures
            any == (self@.children.len() > 0),
    {
        self.children.len() > 0
    }

    /// Changes the block type and records the edit.
    pub fn convert_type(&mut self, new_type: BlockType, user_id: String)
        requires
            old(self).version < i32::MAX,
        ensures
            final(self)@ == (BlockView {
                block_type: new_type,
                updated_at: final(self)@.updated_at,
                last_edited_by: user_id@,
                version: (old(self).version + 1) as i32,
                ..old(self)@
            }),
    {
        self.block_type = new_type;
        self.touch(user_id);
    }
}

/// Whether a block update carries anything that is written.
pub open spec fn block_update_writes(request: UpdateBlockRequest) -> bool {
    request.text is Some || request.properties is Some || request.block_type is Some
}

impl Block {
    /// The block that a request creates under the given id, author and time:
    /// plain text unless the request names a type, at place 0 unless it names
    /// one, version 1.
    pub fn create(request: CreateBlockRequest, id: String, user_id: String, now: i64) -> (block:
        Block)
        ensures
            block@ == (BlockView {
                parent_id: opt_text(request.parent_id),
                order: match request.order {
                    Some(order) => order,
                    None => 0i32,
                },
                properties: match request.properties {
                    Some(p) => p@,
                    None => Map::empty(),
                },
                block_type: match request.block_type {
                    Some(t) => t,
                    None => BlockType::Text,
                },
                ..new_block(id@, now, request.text@, request.page_id@, user_id@)
            }),
    {
        let block = Block {
            id,
            text: request.text,
            page_id: request.page_id,
            parent_id: request.parent_id,
            children: Vec::new(),
            order: match request.order {
                Some(order) => order,
                None => 0,
            },
            properties: match request.properties {
                Some(p) => p,
                None => TextMap::new(),
            },
            created_at: now,
            updated_at: now,
            created_by: user_id.clone(),
            last_edited_by: user_id,
            version: 1,
            block_type: match request.block_type {
                Some(t) => t,
                None => BlockType::Text,
            },
            vector_clock: None,
            operation_id: None,
        };
        assert(block@.children =~= Seq::<Seq<char>>::empty());
        block
    }

    /// Applies a partial update at the given time and tells whether anything
    /// was written. Text, properties and type are replaced where the request
    /// carries them, and the version grows by one; a request that carries
    /// none of them leaves the block as it is.
    pub fn apply_update(&mut self, request: UpdateBlockRequest, now: i64) -> (written: bool)
        requires
            old(self).version < i32::MAX,
        ensures
            written == block_update_writes(request),
            final(self)@ == if block_update_writes(request) {
                BlockView {
                    text: match request.text {
                        Some(t) => t@,
                        None => old(self)@.text,
                    },
                    properties: match request.properties {
                        Some(p) => p@,
                        None => old(self)@.properties,
                    },
                    block_type: match request.block_type {
                        Some(t) => t,
                        None => old(self)@.block_type,
                    },
                    updated_at: now,
                    version: (old(self).version + 1) as i32,
                    ..old(self)@
                }
            } else {
                old(self)@
            },
    {
        let written = request.text.is_some() || request.properties.is_some()
            || request.block_type.is_some();
        match request.text {
            Some(t) => {
                self.text = t;
            },
            None => {},
        }
        match request.properties {
            Some(p) => {
                self.properties = p;
            },
            None => {},
        }
        match request.block_type {
            Some(t) => {
                self.block_type = t;
            },
            None => {},
        }
        if written {
            self.updated_at = now;
            self.version = self.version + 1;
        }
        written
    }

    /// Puts the block under a new parent, or makes it a root, at a new place
    /// among its siblings; the version grows by one.
    pub fn apply_move(&mut self, request: MoveBlockRequest, now: i64)
        requires
            old(self).version < i32::MAX,
        ensures
            final(self)@ == (BlockView {
                parent_id: opt_text(request.new_parent_id),
                order: request.new_order,
                updated_at: now,
                version: (old(self).version + 1) as i32,
                ..old(self)@
            }),
    {
        self.parent_id = request.new_parent_id;
        self.order = request.new_order;
        self.updated_at = now;
        self.version = self.version + 1;
    }
}

impl DeepView for Block {
    type V = BlockView;

    open spec fn deep_view(&self) -> BlockView {
        self@
    }
}

/// The places among the first `n` blocks whose block belongs to the page,
/// ascending.
pub open spec fn places_on_page(blocks: Seq<BlockView>, page_id: Seq<char>, n: nat) -> Seq<int>
    decreases n,
{
    if n == 0 {
        Seq::empty()
    } else {
        let rest = places_on_page(blocks, page_id, (n - 1) as nat);
        if blocks[n - 1].page_id == page_id {
            rest.push(n - 1)
        } else {
            rest
        }
    }
}

/// The keys that list the blocks at the given places by `order`.
pub open spec fn order_keys(blocks: Seq<BlockView>, at: Seq<int>) -> Seq<(i64, i64)> {
    Seq::new(at.len(), |k: int| (blocks[at[k]].order as i64, 0i64))
}

/// The places of the blocks of a page, listed by `order`; blocks with the
/// same order stay in the order of the list.
pub open spec fn page_listing(blocks: Seq<BlockView>, page_id: Seq<char>) -> Seq<int> {
    let at = places_on_page(blocks, page_id, blocks.len());
    Seq::new(at.len(), |k: int| at[stable_order(order_keys(blocks, at), at.len())[k]])
}

/// The places of the blocks of a page, listed by `order`.
pub fn blocks_of_page(blocks: &Vec<Block>, page_id: &str) -> (listing: Vec<usize>)
    ensures
        as_ints(listing@) == page_listing(blocks.deep_view(), page_id@),
        forall|k: int| 0 <= k < listing@.len() ==> #[trigger] listing@[k] < blocks@.len(),
{
    let ghost all = blocks.deep_view();
    let mut at: Vec<usize> = Vec::new();
    let mut keys: Vec<(i64, i64)> = Vec::new();
    let mut i: usize = 0;
    while i < blocks.len()
        invariant
            i <= blocks.len(),
            all == blocks.deep_view(),
            as_ints(at@) == places_on_page(all, page_id@, i as nat),
            forall|k: int| 0 <= k < at@.len() ==> #[trigger] at@[k] < blocks@.len(),
            keys@ == order_keys(all, as_ints(at@)),
        decreases blocks.len() - i,
    {
        let ghost before = as_ints(at@);
        let ghost keys_before = keys@;
        if str_eq(blocks[i].page_id.as_str(), page_id) {
            at.push(i);
            keys.push((blocks[i].order as i64, 0));
            assert(as_ints(at@) =~= before.push(i as int));
            assert(keys@ =~= order_keys(all, as_ints(at@)));
        }
        i = i + 1;
    }
    let order = sort_positions(&keys);
    proof {
        lemma_stable_order_permutes(keys@, keys@.len());
    }
    let ghost sorted = stable_order(keys@, keys@.len());
    let mut listing: Vec<usize> = Vec::new();
    let mut j: usize = 0;
    while j < order.len()
        invariant
            j <= order.len(),
            order@.len() == at@.len(),
            as_ints(order@) == sorted,
            forall|k: int| 0 <= k < sorted.len() ==> 0 <= #[trigger] sorted[k] < at@.len(),
            forall|k: int| 0 <= k < at@.len() ==> #[trigger] at@[k] < blocks@.len(),
            listing@.len() == j,
            forall|k: int| 0 <= k < j ==> #[trigger] listing@[k] == at@[sorted[k]],
        decreases order.len() - j,
    {
        assert(as_ints(order@)[j as int] == order@[j as int]);
        listing.push(at[order[j]]);
        j = j + 1;
    }
    assert(as_ints(listing@) =~= page_listing(all, page_id@));
    listing
}

/// Reads the block type that a caller names, if any.
pub fn parse_block_type(block_type: Option<String>) -> (r: Result<Option<BlockType>, AppError>)
    ensures
        match block_type {
            None => r == Ok::<Option<BlockType>, AppError>(None),
            Some(name) => match BlockType::named(lowercase(name@)) {
                Some(read) => r == Ok::<Option<BlockType>, AppError>(Some(read)),
                None => r matches Err(AppError::InvalidBlockData(m)) && m@
                    == "Invalid block type: "@ + ("Invalid block type: "@ + name@),
            },
        },
{
    match block_type {
        None => Ok(None),
        Some(name) => match BlockType::from_str(name.as_str()) {
            Ok(read) => Ok(Some(read)),
            Err(why) => {
                let message = String::from_str("Invalid block type: ").concat(why.as_str());
                assert(message@ =~= "Invalid block type: "@ + ("Invalid block type: "@ + name@));
                Err(AppError::InvalidBlockData(message))
            },
        },
    }
}

/// What a caller supplies to create a block.
#[derive(Debug)]
pub struct CreateBlockRequest {
    pub text: String,
    pub page_id: String,
    pub parent_id: Option<String>,
    pub block_type: Option<BlockType>,
    pub properties: Option<TextMap<serde_json::Value>>,
    pub order: Option<i32>,
}

/// A partial update of a block.
#[derive(Debug)]
pub struct UpdateBlockRequest {
    pub text: Option<String>,
    pub properties: Option<TextMap<serde_json::Value>>,
    pub block_type: Option<BlockType>,
}

/// Where a block moves to.
#[derive(Debug)]
pub struct MoveBlockRequest {
    pub new_parent_id: Option<String>,
    pub new_order: i32,
}

} // verus!
