//! Pages: titled collections of root blocks.

use crate::errors::AppError;
use crate::models::node::opt_text;
use crate::ordering::{as_ints, lemma_stable_order_permutes, sort_positions, stable_order};
use crate::text::{add_once, lowercase, remove_text, str_eq, to_lowercase, without_text};
use crate::text_map::TextMap;
use crate::utils::clock::now;
use crate::utils::uuid_gen::{generate_page_id, is_prefixed_id};
use vstd::prelude::*;
use vstd::string::*;

verus! {

/// The stage of life of a page.
#[derive(Debug, Clone, Copy, PartialEq, Eq, Structural)]
pub enum PageStatus {
    Draft,
    Published,
    Archived,
    Deleted,
}

impl Default for PageStatus {
    fn default() -> (status: PageStatus)
        ensures
            status == PageStatus::Draft,
    {
        PageStatus::Draft
    }
}

impl PageStatus {
    /// The name of the status.
    pub open spec fn name(self) -> Seq<char> {
        match self {
            PageStatus::Draft => "draft"@,
            PageStatus::Published => "published"@,
            PageStatus::Archived => "archived"@,
            PageStatus::Deleted => "deleted"@,
        }
    }

    /// The status that a lower-case name stands for.
    pub open spec fn named(name: Seq<char>) -> Option<PageStatus> {
        if name == "draft"@ {
            Some(PageStatus::Draft)
        } else if name == "published"@ {
            Some(PageStatus::Published)
        } else if name == "archived"@ {
            Some(PageStatus::Archived)
        } else if name == "deleted"@ {
            Some(PageStatus::Deleted)
        } else {
            None
        }
    }

    /// The name of the status.
    pub fn to_string(&self) -> (s: String)
        ensures
            s@ == self.name(),
    {
        match self {
            PageStatus::Draft => String::from_str("draft"),
            PageStatus::Published => String::from_str("published"),
            PageStatus::Archived => String::from_str("archived"),
            PageStatus::Deleted => String::from_str("deleted"),
        }
    }

    /// Reads a status from its name, in any letter case.
    pub fn from_str(s: &str) -> (r: Result<PageStatus, String>)
        ensures
            match PageStatus::named(lowercase(s@)) {
                Some(status) => r == Ok::<PageStatus, String>(status),
                None => r matches Err(m) && m@ == "Invalid page status: "@ + s@,
            },
    {
        let lower = to_lowercase(s);
        let name = lower.as_str();
        if str_eq(name, "draft") {
            Ok(PageStatus::Draft)
        } else if str_eq(name, "published") {
            Ok(PageStatus::Published)
        } else if str_eq(name, "archived") {
            Ok(PageStatus::Archived)
        } else if str_eq(name, "deleted") {
            Ok(PageStatus::Deleted)
        } else {
            Err(String::from_str("Invalid page status: ").concat(s))
        }
    }
}

/// One page.
#[derive(Debug)]
pub struct Page {
    pub id: String,
    pub title: String,
    pub root_blocks: Vec<String>,
    pub properties: TextMap<serde_json::Value>,
    pub file_path: Option<String>,
    /// Nanoseconds since the Unix epoch.
    pub created_at: i64,
    /// Nanoseconds since the Unix epoch.
    pub updated_at: i64,
    pub created_by: String,
    pub last_edited_by: String,
    pub tags: Vec<String>,
    pub status: PageStatus,
}

/// The mathematical value of a [`Page`].
pub struct PageView {
    pub id: Seq<char>,
    pub title: Seq<char>,
    pub root_blocks: Seq<Seq<char>>,
    pub properties: Map<Seq<char>, serde_json::Value>,
    pub file_path: Option<Seq<char>>,
    pub created_at: i64,
    pub updated_at: i64,
    pub created_by: Seq<char>,
    pub last_edited_by: Seq<char>,
    pub tags: Seq<Seq<char>>,
    pub status: PageStatus,
}

impl View for Page {
    type V = PageView;

    open spec fn view(&self) -> PageView {
        PageView {
            id: self.id@,
            title: self.title@,
            root_blocks: self.root_blocks.deep_view(),
            properties: self.properties@,
            file_path: opt_text(self.file_path),
            created_at: self.created_at,
            updated_at: self.updated_at,
            created_by: self.created_by@,
            last_edited_by: self.last_edited_by@,
            tags: self.tags.deep_view(),
            status: self.status,
        }
    }
}

impl DeepView for Page {
    type V = PageView;

    open spec fn deep_view(&self) -> PageView {
        self@
    }
}

impl Page {
    /// A draft page without blocks, tags or properties, under a fresh page id
    /// and stamped with the current time.
    pub fn new(title: String, created_by: String) -> (page: Page)
        ensures
            is_prefixed_id("page-"@, page@.id),
            page@ == (PageView {
                id: page@.id,
                title: title@,
                root_blocks: Seq::empty(),
                properties: Map::empty(),
                file_path: None,
                created_at: page@.created_at,
                updated_at: page@.created_at,
                created_by: created_by@,
                last_edited_by: created_by@,
                tags: Seq::empty(),
                status: PageStatus::Draft,
            }),
    {
        let now = now();
        let id = generate_page_id();
        let page = Page {
            id,
            title,
            root_blocks: Vec::new(),
            properties: TextMap::new(),
            file_path: None,
            created_at: now,
            updated_at: now,
            created_by: created_by.clone(),
            last_edited_by: created_by,
            tags: Vec::new(),
            status: PageStatus::Draft,
        };
        assert(page@.root_blocks =~= Seq::<Seq<char>>::empty());
        assert(page@.tags =~= Seq::<Seq<char>>::empty());
        page
    }

    /// Records an edit: the current time and the editor.
    pub fn touch(&mut self, user_id: String)
        ensures
            final(self)@ == (PageView {
                updated_at: final(self)@.updated_at,
                last_edited_by: user_id@,
                ..old(self)@
            }),
    {
        self.updated_at = now();
        self.last_edited_by = user_id;
    }

    /// Adds a root block unless it is one already.
    pub fn add_root_block(&mut self, block_id: String)
        ensures
            final(self)@ == (PageView {
                root_blocks: if old(self)@.root_blocks.contains(block_id@) {
                    old(self)@.root_blocks
                } else {
                    old(self)@.root_blocks.push(block_id@)
                },
                ..old(self)@
            }),
    {
        add_once(&mut self.root_blocks, block_id);
    }

    /// Removes a root block.
    pub fn remove_root_block(&mut self, block_id: &str)
        ensures
            final(self)@ == (PageView {
                root_blocks: without_text(old(self)@.root_blocks, block_id@),
                ..old(self)@
            }),
    {
        remove_text(&mut self.root_blocks, block_id);
    }

    /// Adds a tag unless the page carries it already.
    pub fn add_tag(&mut self, tag: String)
        ensures
            final(self)@ == (PageView {
                tags: if old(self)@.tags.contains(tag@) {
                    old(self)@.tags
                } else {
                    old(self)@.tags.push(tag@)
                },
                ..old(self)@
            }),
    {
        add_once(&mut self.tags, tag);
    }

    /// Removes a tag.
    pub fn remove_tag(&mut self, tag: &str)
        ensures
            final(self)@ == (PageView { tags: without_text(old(self)@.tags, tag@), ..old(self)@ }),
    {
        remove_text(&mut self.tags, tag);
    }

    /// Stores a property.
    pub fn set_property(&mut self, key: String, value: serde_json::Value)
        ensures
            final(self)@ == (PageView {
                properties: old(self)@.properties.insert(key@, value),
                ..old(self)@
            }),
    {
        self.properties.insert(key, value);
    }

    /// The property stored under the key.
    pub fn get_property(&self, key: &str) -> (r: Option<&serde_json::Value>)
        ensures
            r is Some <==> self@.properties.contains_key(key@),
            r matches Some(v) ==> *v == self@.properties[key@],
    {
        self.properties.get(key)
    }

    /// Removes a property.
    pub fn remove_property(&mut self, key: &str)
        ensures
            final(self)@ == (PageView {
                properties: old(self)@.properties.remove(key@),
                ..old(self)@
            }),
    {
        self.properties.remove(key);
    }
}

/// What a caller supplies to create a page.
#[derive(Debug)]
pub struct CreatePageRequest {
    pub title: String,
    pub properties: Option<TextMap<serde_json::Value>>,
    pub tags: Option<Vec<String>>,
    pub status: Option<PageStatus>,
}

/// A partial update of a page.
#[derive(Debug)]
pub struct UpdatePageRequest {
    pub title: Option<String>,
    pub properties: Option<TextMap<serde_json::Value>>,
    pub tags: Option<Vec<String>>,
    pub status: Option<PageStatus>,
}

/// The properties that a request carries; none stands for no properties.
pub open spec fn opt_map(o: Option<TextMap<serde_json::Value>>) -> Map<
    Seq<char>,
    serde_json::Value,
> {
    match o {
        Some(p) => p@,
        None => Map::empty(),
    }
}

/// Whether a page update carries anything that is written.
pub open spec fn page_update_writes(request: UpdatePageRequest) -> bool {
    request.title is Some || request.properties is Some || request.status is Some
}

impl Page {
    /// The page that a request creates under the given id, author and time:
    /// a draft unless the request names a status, without blocks and tags.
    pub fn create(request: CreatePageRequest, id: String, user_id: String, now: i64) -> (page: Page)
        ensures
            page@ == (PageView {
                id: id@,
                title: request.title@,
                root_blocks: Seq::empty(),
                properties: opt_map(request.properties),
                file_path: None,
                created_at: now,
                updated_at: now,
                created_by: user_id@,
                last_edited_by: user_id@,
                tags: Seq::empty(),
                status: match request.status {
                    Some(status) => status,
                    None => PageStatus::Draft,
                },
            }),
    {
        let page = Page {
            id,
            title: request.title,
            root_blocks: Vec::new(),
            properties: match request.properties {
                Some(p) => p,
                None => TextMap::new(),
            },
            file_path: None,
            created_at: now,
            updated_at: now,
            created_by: user_id.clone(),
            last_edited_by: user_id,
            tags: Vec::new(),
            status: match request.status {
                Some(status) => status,
                None => PageStatus::Draft,
            },
        };
        assert(page@.root_blocks =~= Seq::<Seq<char>>::empty());
        assert(page@.tags =~= Seq::<Seq<char>>::empty());
        page
    }

    /// Applies a partial update at the given time and tells whether anything
    /// was written. Title, properties and status are replaced where the
    /// request carries them; a request that carries none of them leaves the
    /// page as it is, its time stamp included.
    pub fn apply_update(&mut self, request: UpdatePageRequest, now: i64) -> (written: bool)
        ensures
            written == page_update_writes(request),
            final(self)@ == if page_update_writes(request) {
                PageView {
                    title: match request.title {
                        Some(t) => t@,
                        None => old(self)@.title,
                    },
                    properties: match request.properties {
                        Some(p) => p@,
                        None => old(self)@.properties,
                    },
                    status: match request.status {
                        Some(status) => status,
                        None => old(self)@.status,
                    },
                    updated_at: now,
                    ..old(self)@
                }
            } else {
                old(self)@
            },
    {
        let written = request.title.is_some() || request.properties.is_some()
            || request.status.is_some();
        match request.title {
            Some(t) => {
                self.title = t;
            },
            None => {},
        }
        match request.properties {
            Some(p) => {
                self.properties = p;
            },
            None => {},
        }
        match request.status {
            Some(status) => {
                self.status = status;
            },
            None => {},
        }
        if written {
            self.updated_at = now;
        }
        written
    }
}

/// Reads the status that a caller names, if any.
pub fn parse_status(status: Option<String>) -> (r: Result<Option<PageStatus>, AppError>)
    ensures
        match status {
            None => r == Ok::<Option<PageStatus>, AppError>(None),
            Some(name) => match PageStatus::named(lowercase(name@)) {
                Some(read) => r == Ok::<Option<PageStatus>, AppError>(Some(read)),
                None => r matches Err(AppError::InvalidPageData(m)) && m@
                    == "Invalid status: "@ + ("Invalid page status: "@ + name@),
            },
        },
{
    match status {
        None => Ok(None),
        Some(name) => match PageStatus::from_str(name.as_str()) {
            Ok(read) => Ok(Some(read)),
            Err(why) => {
                let message = String::from_str("Invalid status: ").concat(why.as_str());
                assert(message@ =~= "Invalid status: "@ + ("Invalid page status: "@ + name@));
                Err(AppError::InvalidPageData(message))
            },
        },
    }
}

/// The keys that list pages by `updated_at`, newest first.
pub open spec fn recency_keys(pages: Seq<PageView>) -> Seq<(i64, i64)> {
    Seq::new(pages.len(), |k: int| ((-1 - pages[k].updated_at) as i64, 0i64))
}

/// The places of the pages, the most recently updated first; pages with the
/// same time stay in their order.
pub fn newest_first(pages: &Vec<Page>) -> (order: Vec<usize>)
    ensures
        as_ints(order@) == stable_order(recency_keys(pages.deep_view()), pages@.len()),
        forall|k: int| 0 <= k < order@.len() ==> #[trigger] order@[k] < pages@.len(),
{
    let ghost want = recency_keys(pages.deep_view());
    let mut keys: Vec<(i64, i64)> = Vec::new();
    let mut i: usize = 0;
    while i < pages.len()
        invariant
            i <= pages.len(),
            want == recency_keys(pages.deep_view()),
            keys@ == want.take(i as int),
        decreases pages.len() - i,
    {
        let key: (i64, i64) = (-1 - pages[i].updated_at, 0);
        keys.push(key);
        assert(want.take(i + 1) =~= want.take(i as int).push(key));
        i = i + 1;
    }
    assert(keys@ =~= want);
    let order = sort_positions(&keys);
    proof {
        lemma_stable_order_permutes(keys@, keys@.len());
        assert forall|k: int| 0 <= k < order@.len() implies #[trigger] order@[k] < pages@.len() by {
            assert(as_ints(order@)[k] == order@[k]);
        }
    }
    order
}

/// Counts over a list of pages.
#[derive(Debug, PartialEq)]
pub struct PageStats {
    pub total_pages: usize,
    pub draft_pages: usize,
    pub published_pages: usize,
    pub recent_page: Option<String>,
}

/// The number of pages with the status among the first `n`.
pub open spec fn count_status(pages: Seq<PageView>, status: PageStatus, n: nat) -> nat
    decreases n,
{
    if n == 0 {
        0
    } else {
        count_status(pages, status, (n - 1) as nat) + if pages[n - 1].status == status {
            1nat
        } else {
            0nat
        }
    }
}

/// No more pages have a status than there are pages.
proof fn lemma_count_status_bound(pages: Seq<PageView>, status: PageStatus, n: nat)
    ensures
        count_status(pages, status, n) <= n,
    decreases n,
{
    if n > 0 {
        lemma_count_status_bound(pages, status, (n - 1) as nat);
    }
}

/// Counts the pages, the drafts and the published ones, and names the title
/// of the first page of the list.
pub fn page_stats(pages: &Vec<Page>) -> (stats: PageStats)
    ensures
        stats.total_pages == pages@.len(),
        stats.draft_pages == count_status(pages.deep_view(), PageStatus::Draft, pages@.len()),
        stats.published_pages == count_status(
            pages.deep_view(),
            PageStatus::Published,
            pages@.len(),
        ),
        opt_text(stats.recent_page) == if pages@.len() > 0 {
            Some(pages.deep_view()[0].title)
        } else {
            None
        },
{
    let mut drafts: usize = 0;
    let mut published: usize = 0;
    let mut i: usize = 0;
    while i < pages.len()
        invariant
            i <= pages.len(),
            drafts == count_status(pages.deep_view(), PageStatus::Draft, i as nat),
            published == count_status(pages.deep_view(), PageStatus::Published, i as nat),
        decreases pages.len() - i,
    {
        proof {
            lemma_count_status_bound(pages.deep_view(), PageStatus::Draft, i as nat);
            lemma_count_status_bound(pages.deep_view(), PageStatus::Published, i as nat);
        }
        match pages[i].status {
            PageStatus::Draft => {
                drafts = drafts + 1;
            },
            PageStatus::Published => {
                published = published + 1;
            },
            _ => {},
        }
        i = i + 1;
    }
    let recent_page = if pages.len() > 0 {
        Some(pages[0].title.clone())
    } else {
        None
    };
    PageStats { total_pages: pages.len(), draft_pages: drafts, published_pages: published, recent_page }
}

} // verus!
