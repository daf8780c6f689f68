//! The node repository: create, read, update, delete and reparent.

use crate::errors::{AppError, AppResult};
use crate::json::{json_string, json_text};
use crate::models::node::{
    copy_opt_text, copy_texts, opt_text, CreateNodeRequest, Node, NodeView, NodeWithChildren,
    UpdateNodeRequest,
};
use crate::services::database::connection::{DatabaseService, NodeLink, DEFAULT_USER_ID};
use crate::services::database::model::{
    any_row, first_where, has_node, hydrated, hydrated_at, ids_at, is_child_of, is_root,
    is_within, keys_at, lemma_chain_bounded, lemma_chain_prefix, lemma_delete_keeps_forest,
    lemma_first_where_stays, lemma_position, lemma_push_keeps_forest,
    lemma_reparent_keeps_forest, lemma_rewrite_keeps_forest, lemma_update_keeps_ids,
    link_outside, listed, nth_parent, outside, places_where, position, rooted, selection,
    sort_key, tree_at, without_subtree, LinkView, Listing, StoreView,
};
use crate::ordering::{
    as_ints, lemma_stable_order_permutes, sort_positions, stable_order,
};
use crate::text::{concat3, list_holds, str_eq};
use crate::text_map::TextMap;
use crate::utils::clock::now;
use crate::utils::uuid_gen::{generate_id, is_random_uuid_text};
use vstd::prelude::*;
use vstd::string::*;

verus! {

/// The payload of the error for an id that no row carries.
pub open spec fn not_found_message(id: Seq<char>) -> Seq<char> {
    "Node with ID "@ + id + " not found"@
}

/// `r` is the `NotFound` error for `id`.
pub open spec fn is_not_found<T>(r: AppResult<T>, id: Seq<char>) -> bool {
    r matches Err(AppError::NotFound(m)) && m@ == not_found_message(id)
}

/// The `NotFound` error for `id`.
pub(crate) fn not_found<T>(id: &str) -> (r: AppResult<T>)
    ensures
        is_not_found(r, id@),
{
    Err(AppError::NotFound(concat3("Node with ID ", id, " not found")))
}

/// `r` is the `ValidationError` for an id that a row carries already.
pub open spec fn is_taken<T>(r: AppResult<T>, id: Seq<char>) -> bool {
    r matches Err(AppError::ValidationError(m)) && m@ == "Node with ID "@ + id
        + " already exists"@
}

/// Some row carries an id of the shape that fresh ids have; only then can a
/// fresh id be taken already.
pub open spec fn holds_random_id(nodes: Seq<NodeView>) -> bool {
    exists|i: int| 0 <= i < nodes.len() && is_random_uuid_text((#[trigger] nodes[i]).id)
}

/// The parent that a request names, where no row carries it.
pub open spec fn missing_parent(nodes: Seq<NodeView>, parent: Option<Seq<char>>) -> bool {
    parent matches Some(p) && !has_node(nodes, p)
}

/// The properties that a request carries; none stands for no properties.
pub open spec fn opt_properties(o: Option<TextMap<serde_json::Value>>) -> Map<
    Seq<char>,
    serde_json::Value,
> {
    match o {
        Some(p) => p@,
        None => Map::empty(),
    }
}

/// The tags that a request carries; none stands for no tags.
pub open spec fn opt_tags(o: Option<Vec<String>>) -> Seq<Seq<char>> {
    match o {
        Some(t) => t.deep_view(),
        None => Seq::empty(),
    }
}

/// The row that creating a node writes: the fields of the request, order 0
/// where none is given, the default user as author, and version 1.
pub open spec fn new_row(id: Seq<char>, now: i64, request: CreateNodeRequest) -> NodeView {
    NodeView {
        id,
        content: request.content@,
        parent_id: opt_text(request.parent_id),
        children: Seq::empty(),
        order: match request.order {
            Some(order) => order,
            None => 0i32,
        },
        properties: opt_properties(request.properties),
        tags: opt_tags(request.tags),
        created_at: now,
        updated_at: now,
        created_by: DEFAULT_USER_ID@,
        version: 1i32,
    }
}

/// Why a write to an existing node is refused.
pub enum Refusal {
    /// No row carries the id.
    NotFound,
    /// The new parent names no row.
    MissingParent,
    /// The new parent lies in the subtree of the node.
    Cycle,
    /// The version counter has reached the largest value it can hold.
    VersionLimit,
}

/// Whether, and why, the store refuses to write to the node `id` and to put
/// it under `new_parent`. No parent means that the write asks for no check of
/// the parent: the node becomes a root, or stays where it is.
pub open spec fn write_refusal(
    nodes: Seq<NodeView>,
    id: Seq<char>,
    new_parent: Option<Seq<char>>,
) -> Option<Refusal> {
    if !has_node(nodes, id) {
        Some(Refusal::NotFound)
    } else if new_parent matches Some(p) && !has_node(nodes, p) {
        Some(Refusal::MissingParent)
    } else if new_parent matches Some(p) && is_within(nodes, id, p) {
        Some(Refusal::Cycle)
    } else if nodes[position(nodes, id)].version == i32::MAX {
        Some(Refusal::VersionLimit)
    } else {
        None
    }
}

/// `r` is the error that reports the refusal `why` of a write to `id` that
/// would put it under `new_parent`: `NotFound` names the id that no row
/// carries, the node's or the parent's.
pub open spec fn is_refusal<T>(
    r: AppResult<T>,
    id: Seq<char>,
    new_parent: Option<Seq<char>>,
    why: Refusal,
) -> bool {
    match why {
        Refusal::NotFound => is_not_found(r, id),
        Refusal::MissingParent => new_parent matches Some(p) && is_not_found(r, p),
        Refusal::Cycle => r matches Err(AppError::CyclicMoveError(_)),
        Refusal::VersionLimit => r matches Err(AppError::ValidationError(_)),
    }
}

/// The row after a partial update: the fields that the request carries are
/// replaced, `updated_at` is rewritten and `version` grows by one.
pub open spec fn updated_row(row: NodeView, request: UpdateNodeRequest, now: i64) -> NodeView {
    NodeView {
        content: match request.content {
            Some(c) => c@,
            None => row.content,
        },
        parent_id: match request.parent_id {
            Some(p) => Some(p@),
            None => row.parent_id,
        },
        order: match request.order {
            Some(order) => order,
            None => row.order,
        },
        properties: match request.properties {
            Some(p) => p@,
            None => row.properties,
        },
        tags: match request.tags {
            Some(t) => t.deep_view(),
            None => row.tags,
        },
        updated_at: now,
        version: (row.version + 1) as i32,
        ..row
    }
}

/// The row after a move: parent and order are replaced, `updated_at` is
/// rewritten and `version` grows by one.
pub open spec fn moved_row(
    row: NodeView,
    new_parent: Option<Seq<char>>,
    new_order: i32,
    now: i64,
) -> NodeView {
    NodeView {
        parent_id: new_parent,
        order: new_order,
        updated_at: now,
        version: (row.version + 1) as i32,
        ..row
    }
}

/// The store after the row at place `i` was replaced.
pub open spec fn with_row_at(s: StoreView, i: int, row: NodeView) -> StoreView {
    StoreView { nodes: s.nodes.update(i, row), ..s }
}

/// The tag that marks a journal entry.
pub const JOURNAL_TAG: &'static str = "#Journal";

/// The rows that are the journal entry of `date`: roots whose content is the
/// date and which carry the journal tag.
pub open spec fn is_daily_note(date: Seq<char>) -> spec_fn(NodeView) -> bool {
    |row: NodeView| row.parent_id is None && row.content == date && row.tags.contains(JOURNAL_TAG@)
}

/// The request that creates the journal entry of `date`.
pub open spec fn is_daily_request(request: CreateNodeRequest, date: Seq<char>) -> bool {
    &&& request.content@ == date
    &&& request.parent_id is None
    &&& request.order == Some(0i32)
    &&& opt_tags(request.tags) == seq![JOURNAL_TAG@]
    &&& opt_properties(request.properties) == Map::<Seq<char>, serde_json::Value>::empty().insert(
        "type"@,
        json_string("daily_note"@),
    ).insert("date"@, json_string(date))
}

/// The store after a row was appended to its nodes.
pub open spec fn with_row(s: StoreView, row: NodeView) -> StoreView {
    StoreView { nodes: s.nodes.push(row), ..s }
}

impl DatabaseService {
    /// The key by which the listing `by` orders the row at place `i`.
    fn key(&self, i: usize, by: Listing) -> (k: (i64, i64))
        requires
            i < self.nodes.len(),
        ensures
            k == sort_key(by, self@.nodes[i as int]),
    {
        match by {
            Listing::Siblings => (self.nodes[i].order as i64, self.nodes[i].created_at),
            Listing::NewestCreated => (-1 - self.nodes[i].created_at, 0),
            Listing::NewestUpdated => (-1 - self.nodes[i].updated_at, 0),
        }
    }

    /// The places `at` in the order of the listing `by`.
    pub(crate) fn list(&self, at: &Vec<usize>, by: Listing) -> (r: Vec<usize>)
        requires
            forall|k: int| 0 <= k < at@.len() ==> #[trigger] at@[k] < self@.nodes.len(),
        ensures
            as_ints(r@) == listed(self@.nodes, as_ints(at@), by),
            forall|k: int| 0 <= k < r@.len() ==> #[trigger] r@[k] < self@.nodes.len(),
    {
        let ghost want = keys_at(self@.nodes, as_ints(at@), by);
        let mut keys: Vec<(i64, i64)> = Vec::new();
        let mut i: usize = 0;
        while i < at.len()
            invariant
                i <= at.len(),
                forall|k: int| 0 <= k < at@.len() ==> #[trigger] at@[k] < self@.nodes.len(),
                want == keys_at(self@.nodes, as_ints(at@), by),
                keys@ == want.take(i as int),
            decreases at.len() - i,
        {
            let k = self.key(at[i], by);
            keys.push(k);
            assert(want.take(i + 1) =~= want.take(i as int).push(k));
            i = i + 1;
        }
        assert(keys@ =~= want);
        let order = sort_positions(&keys);
        proof {
            lemma_stable_order_permutes(keys@, keys@.len());
        }
        let ghost sorted = stable_order(keys@, keys@.len());
        let mut r: Vec<usize> = Vec::new();
        let mut j: usize = 0;
        while j < order.len()
            invariant
                j <= order.len(),
                order@.len() == at@.len(),
                as_ints(order@) == sorted,
                forall|k: int| 0 <= k < sorted.len() ==> 0 <= #[trigger] sorted[k] < at@.len(),
                forall|k: int| 0 <= k < at@.len() ==> #[trigger] at@[k] < self@.nodes.len(),
                r@.len() == j,
                forall|k: int| 0 <= k < j ==> #[trigger] r@[k] == at@[sorted[k]],
            decreases order.len() - j,
        {
            assert(as_ints(order@)[j as int] == order@[j as int]);
            r.push(at[order[j]]);
            j = j + 1;
        }
        assert(as_ints(r@) =~= listed(self@.nodes, as_ints(at@), by));
        r
    }

    /// The places of the rows that name `id` as their parent, ascending.
    pub(crate) fn child_places(&self, id: &str) -> (r: Vec<usize>)
        ensures
            as_ints(r@) == places_where(self@.nodes, is_child_of(id@), self@.nodes.len()),
            forall|k: int| 0 <= k < r@.len() ==> #[trigger] r@[k] < self@.nodes.len(),
    {
        let mut r: Vec<usize> = Vec::new();
        let mut i: usize = 0;
        while i < self.nodes.len()
            invariant
                i <= self.nodes.len(),
                as_ints(r@) == places_where(self@.nodes, is_child_of(id@), i as nat),
                forall|k: int| 0 <= k < r@.len() ==> #[trigger] r@[k] < self@.nodes.len(),
            decreases self.nodes.len() - i,
        {
            let is_child = match &self.nodes[i].parent_id {
                Some(p) => str_eq(p.as_str(), id),
                None => false,
            };
            assert(is_child == is_child_of(id@)(self@.nodes[i as int]));
            let ghost before = as_ints(r@);
            if is_child {
                r.push(i);
                assert(as_ints(r@) =~= before.push(i as int));
            }
            i = i + 1;
        }
        r
    }

    /// The ids of the rows at the places `at`.
    pub(crate) fn ids_at(&self, at: &Vec<usize>) -> (r: Vec<String>)
        requires
            forall|k: int| 0 <= k < at@.len() ==> #[trigger] at@[k] < self@.nodes.len(),
        ensures
            r.deep_view() == ids_at(self@.nodes, as_ints(at@)),
    {
        let mut r: Vec<String> = Vec::new();
        let mut i: usize = 0;
        while i < at.len()
            invariant
                i <= at.len(),
                forall|k: int| 0 <= k < at@.len() ==> #[trigger] at@[k] < self@.nodes.len(),
                r@.len() == i,
                forall|k: int| 0 <= k < i ==> (#[trigger] r@[k])@ == self@.nodes[at@[k] as int].id,
            decreases at.len() - i,
        {
            r.push(self.nodes[at[i]].id.clone());
            i = i + 1;
        }
        assert(r.deep_view() =~= ids_at(self@.nodes, as_ints(at@)));
        r
    }

    /// The row at place `i` with its children list derived.
    pub(crate) fn hydrate(&self, i: usize) -> (node: Node)
        requires
            i < self.nodes.len(),
        ensures
            node@ == hydrated(self@.nodes, i as int),
    {
        let row = &self.nodes[i];
        let places = self.child_places(row.id.as_str());
        let in_order = self.list(&places, Listing::Siblings);
        let children = self.ids_at(&in_order);
        Node {
            id: row.id.clone(),
            content: row.content.clone(),
            parent_id: copy_opt_text(&row.parent_id),
            children,
            order: row.order,
            properties: row.properties.duplicate(),
            tags: copy_texts(&row.tags),
            created_at: row.created_at,
            updated_at: row.updated_at,
            created_by: row.created_by.clone(),
            version: row.version,
        }
    }

    /// The rows at the places `at`, each with its children list derived.
    pub(crate) fn hydrate_all(&self, at: &Vec<usize>) -> (r: Vec<Node>)
        requires
            forall|k: int| 0 <= k < at@.len() ==> #[trigger] at@[k] < self@.nodes.len(),
        ensures
            r.deep_view() == hydrated_at(self@.nodes, as_ints(at@)),
    {
        let mut r: Vec<Node> = Vec::new();
        let mut i: usize = 0;
        while i < at.len()
            invariant
                i <= at.len(),
                forall|k: int| 0 <= k < at@.len() ==> #[trigger] at@[k] < self@.nodes.len(),
                r@.len() == i,
                forall|k: int|
                    0 <= k < i ==> (#[trigger] r@[k])@ == hydrated(self@.nodes, at@[k] as int),
            decreases at.len() - i,
        {
            r.push(self.hydrate(at[i]));
            i = i + 1;
        }
        assert(r.deep_view() =~= hydrated_at(self@.nodes, as_ints(at@)));
        r
    }

    /// The places of the rows without a parent, ascending.
    pub(crate) fn root_places(&self) -> (r: Vec<usize>)
        ensures
            as_ints(r@) == places_where(self@.nodes, is_root(), self@.nodes.len()),
            forall|k: int| 0 <= k < r@.len() ==> #[trigger] r@[k] < self@.nodes.len(),
    {
        let mut r: Vec<usize> = Vec::new();
        let mut i: usize = 0;
        while i < self.nodes.len()
            invariant
                i <= self.nodes.len(),
                as_ints(r@) == places_where(self@.nodes, is_root(), i as nat),
                forall|k: int| 0 <= k < r@.len() ==> #[trigger] r@[k] < self@.nodes.len(),
            decreases self.nodes.len() - i,
        {
            let ghost before = as_ints(r@);
            assert(self.nodes[i as int].parent_id is None == is_root()(self@.nodes[i as int]));
            if self.nodes[i].parent_id.is_none() {
                r.push(i);
                assert(as_ints(r@) =~= before.push(i as int));
            }
            i = i + 1;
        }
        r
    }

    /// Every place, ascending.
    fn all_places(&self) -> (r: Vec<usize>)
        ensures
            as_ints(r@) == places_where(self@.nodes, any_row(), self@.nodes.len()),
            forall|k: int| 0 <= k < r@.len() ==> #[trigger] r@[k] < self@.nodes.len(),
    {
        let mut r: Vec<usize> = Vec::new();
        let mut i: usize = 0;
        while i < self.nodes.len()
            invariant
                i <= self.nodes.len(),
                as_ints(r@) == places_where(self@.nodes, any_row(), i as nat),
                forall|k: int| 0 <= k < r@.len() ==> #[trigger] r@[k] < self@.nodes.len(),
            decreases self.nodes.len() - i,
        {
            let ghost before = as_ints(r@);
            assert(any_row()(self@.nodes[i as int]));
            r.push(i);
            assert(as_ints(r@) =~= before.push(i as int));
            i = i + 1;
        }
        r
    }

    /// All nodes without a parent, ordered by `order` and then `created_at`.
    pub fn get_root_nodes(&self) -> (r: AppResult<Vec<Node>>)
        ensures
            r matches Ok(roots) && roots.deep_view() == selection(
                self@.nodes,
                is_root(),
                Listing::Siblings,
            ),
    {
        let places = self.root_places();
        let in_order = self.list(&places, Listing::Siblings);
        Ok(self.hydrate_all(&in_order))
    }

    /// All nodes, the most recently created first.
    pub fn get_all_nodes(&self) -> (r: AppResult<Vec<Node>>)
        ensures
            r matches Ok(all) && all.deep_view() == selection(
                self@.nodes,
                any_row(),
                Listing::NewestCreated,
            ),
    {
        let places = self.all_places();
        let in_order = self.list(&places, Listing::NewestCreated);
        Ok(self.hydrate_all(&in_order))
    }

    /// The tree below the row at place `i`, at most `fuel` levels deep.
    pub(crate) fn subtree(&self, i: usize, fuel: usize) -> (tree: NodeWithChildren)
        requires
            i < self.nodes.len(),
        ensures
            tree@ == tree_at(self@.nodes, i as int, fuel as nat),
        decreases fuel,
    {
        let node = self.hydrate(i);
        let mut child_nodes: Vec<NodeWithChildren> = Vec::new();
        if fuel > 0 {
            let places = self.child_places(self.nodes[i].id.as_str());
            let below = self.list(&places, Listing::Siblings);
            let mut k: usize = 0;
            while k < below.len()
                invariant
                    fuel > 0,
                    k <= below.len(),
                    forall|j: int| 0 <= j < below@.len() ==> #[trigger] below@[j] < self@.nodes.len(),
                    child_nodes@.len() == k,
                    forall|j: int|
                        0 <= j < k ==> (#[trigger] child_nodes@[j])@ == tree_at(
                            self@.nodes,
                            below@[j] as int,
                            (fuel - 1) as nat,
                        ),
                decreases below.len() - k,
            {
                let child = self.subtree(below[k], fuel - 1);
                child_nodes.push(child);
                k = k + 1;
            }
        }
        let tree = NodeWithChildren { node, child_nodes };
        assert(tree@.child_nodes =~= tree_at(self@.nodes, i as int, fuel as nat).child_nodes);
        tree
    }

    /// Fetches a node together with the whole tree of its descendants, the
    /// children of every node in sibling order.
    pub fn get_node_with_children(&self, node_id: &str) -> (r: AppResult<NodeWithChildren>)
        requires
            self.wf(),
        ensures
            r is Ok <==> has_node(self@.nodes, node_id@),
            r matches Ok(tree) ==> tree@ == tree_at(
                self@.nodes,
                position(self@.nodes, node_id@),
                self@.nodes.len(),
            ),
            r is Err ==> is_not_found(r, node_id@),
    {
        match self.find(node_id) {
            Some(i) => {
                proof {
                    lemma_position(self@.nodes, i as int);
                }
                Ok(self.subtree(i, self.nodes.len()))
            },
            None => not_found(node_id),
        }
    }

    /// Whether `id` is `root` or one of its descendants.
    pub(crate) fn within(&self, root: &str, id: &str) -> (r: bool)
        requires
            self.wf(),
        ensures
            r == is_within(self@.nodes, root@, id@),
    {
        let ghost nodes = self@.nodes;
        assert(nth_parent(nodes, id@, 0) == Some(id@));
        if str_eq(root, id) {
            return true;
        }
        let mut cur: usize = match self.find(id) {
            Some(i) => i,
            None => {
                assert forall|n: nat| nth_parent(nodes, id@, n) != Some(root@) by {
                    if n > 0 {
                        assert(nth_parent(nodes, id@, 1) is None);
                        if nth_parent(nodes, id@, n) is Some {
                            lemma_chain_prefix(nodes, id@, 1, n);
                        }
                    }
                }
                return false;
            },
        };
        let mut steps: usize = 0;
        while steps < self.nodes.len()
            invariant
                self.wf(),
                nodes == self@.nodes,
                cur < self.nodes.len(),
                steps <= self.nodes.len(),
                nth_parent(nodes, id@, steps as nat) == Some(nodes[cur as int].id),
                forall|j: nat| j <= steps ==> nth_parent(nodes, id@, j) != Some(root@),
            decreases self.nodes.len() - steps,
        {
            proof {
                lemma_position(nodes, cur as int);
            }
            let ghost next = nth_parent(nodes, id@, (steps + 1) as nat);
            assert(next == nodes[cur as int].parent_id);
            let parent_place = match &self.nodes[cur].parent_id {
                None => None,
                Some(p) => {
                    if str_eq(p.as_str(), root) {
                        return true;
                    }
                    self.find(p.as_str())
                },
            };
            match parent_place {
                Some(j) => {
                    cur = j;
                    steps = steps + 1;
                },
                None => {
                    assert(next is None);
                    assert forall|n: nat| nth_parent(nodes, id@, n) != Some(root@) by {
                        if n > steps && nth_parent(nodes, id@, n) is Some {
                            lemma_chain_prefix(nodes, id@, (steps + 1) as nat, n);
                        }
                    }
                    return false;
                },
            }
        }
        proof {
            lemma_position(nodes, position(nodes, id@));
            assert(rooted(nodes, id@));
            lemma_chain_bounded(nodes, id@);
        }
        false
    }

    /// Fetches a node by id, with the ids of its children in sibling order.
    pub fn get_node(&self, node_id: &str) -> (r: AppResult<Node>)
        requires
            self.wf(),
        ensures
            r is Ok <==> has_node(self@.nodes, node_id@),
            r matches Ok(node) ==> node@ == hydrated(
                self@.nodes,
                position(self@.nodes, node_id@),
            ),
            r is Err ==> is_not_found(r, node_id@),
    {
        match self.find(node_id) {
            Some(i) => {
                proof {
                    lemma_position(self@.nodes, i as int);
                }
                Ok(self.hydrate(i))
            },
            None => not_found(node_id),
        }
    }

    /// Writes a new node under the given id and time, and returns it as a
    /// read would. The id must be unused and the parent, if any, must exist;
    /// otherwise nothing is written: a taken id is a `ValidationError`, a
    /// missing parent is `NotFound`.
    pub fn insert_node(&mut self, id: String, now: i64, request: CreateNodeRequest) -> (r:
        AppResult<Node>)
        requires
            old(self).wf(),
        ensures
            final(self).wf(),
            r is Err <==> has_node(old(self)@.nodes, id@) || missing_parent(
                old(self)@.nodes,
                opt_text(request.parent_id),
            ),
            r is Err ==> final(self)@ == old(self)@,
            has_node(old(self)@.nodes, id@) ==> is_taken(r, id@),
            request.parent_id matches Some(p) ==> (!has_node(old(self)@.nodes, id@) && !has_node(
                old(self)@.nodes,
                p@,
            ) ==> is_not_found(r, p@)),
            r matches Ok(node) ==> {
                &&& node@ == new_row(id@, now, request)
                &&& final(self)@ == with_row(old(self)@, node@)
                &&& has_node(final(self)@.nodes, id@)
                &&& node@ == hydrated(final(self)@.nodes, position(final(self)@.nodes, id@))
            },
    {
        if self.find(id.as_str()).is_some() {
            return Err(
                AppError::ValidationError(
                    concat3("Node with ID ", id.as_str(), " already exists"),
                ),
            );
        }
        match &request.parent_id {
            Some(p) => {
                if self.find(p.as_str()).is_none() {
                    return not_found(p.as_str());
                }
            },
            None => {},
        }
        let ghost want = new_row(id@, now, request);
        let key = id.clone();
        let row = Node {
            id,
            content: request.content,
            parent_id: request.parent_id,
            children: Vec::new(),
            order: match request.order {
                Some(order) => order,
                None => 0,
            },
            properties: match request.properties {
                Some(p) => p,
                None => TextMap::new(),
            },
            tags: match request.tags {
                Some(t) => t,
                None => Vec::new(),
            },
            created_at: now,
            updated_at: now,
            created_by: String::from_str(DEFAULT_USER_ID),
            version: 1,
        };
        assert(row@.children =~= want.children);
        assert(row@.tags =~= want.tags);
        assert(row@ == want);
        proof {
            lemma_push_keeps_forest(self@.nodes, want);
        }
        self.nodes.push(row);
        assert(self@.nodes =~= old(self)@.nodes.push(want));
        assert(self@.links == old(self)@.links);
        self.get_node(key.as_str())
    }

    /// Decides whether the node `node_id` may be written and put under
    /// `new_parent`, and finds its place.
    pub(crate) fn check_write(&self, node_id: &str, new_parent: &Option<String>) -> (r: AppResult<
        usize,
    >)
        requires
            self.wf(),
        ensures
            match write_refusal(self@.nodes, node_id@, opt_text(*new_parent)) {
                Some(why) => is_refusal(r, node_id@, opt_text(*new_parent), why),
                None => r matches Ok(i) && i == position(self@.nodes, node_id@) && i
                    < self@.nodes.len(),
            },
    {
        let i = match self.find(node_id) {
            Some(i) => i,
            None => {
                return not_found(node_id);
            },
        };
        proof {
            lemma_position(self@.nodes, i as int);
        }
        match new_parent {
            Some(p) => {
                if self.find(p.as_str()).is_none() {
                    return not_found(p.as_str());
                }
                if self.within(node_id, p.as_str()) {
                    return Err(
                        AppError::CyclicMoveError(
                            concat3("Node with ID ", node_id, " cannot be moved into its own subtree"),
                        ),
                    );
                }
            },
            None => {},
        }
        if self.nodes[i].version == i32::MAX {
            return Err(
                AppError::ValidationError(
                    concat3("Node with ID ", node_id, " cannot be written again"),
                ),
            );
        }
        Ok(i)
    }

    /// Applies a partial update at the given time and returns the node as a
    /// read would. Only the fields that the request carries are replaced;
    /// `updated_at` is always rewritten and `version` always grows by one. A
    /// new parent must exist and must not lie in the subtree of the node.
    /// A refused update writes nothing.
    pub fn update_node_at(&mut self, node_id: &str, request: UpdateNodeRequest, now: i64) -> (r:
        AppResult<Node>)
        requires
            old(self).wf(),
        ensures
            final(self).wf(),
            forall|id: Seq<char>| has_node(final(self)@.nodes, id) == has_node(old(self)@.nodes, id),
            match write_refusal(old(self)@.nodes, node_id@, opt_text(request.parent_id)) {
                Some(why) => is_refusal(r, node_id@, opt_text(request.parent_id), why) && final(self)@ == old(
                    self,
                )@,
                None => {
                    let i = position(old(self)@.nodes, node_id@);
                    &&& final(self)@ == with_row_at(
                        old(self)@,
                        i,
                        updated_row(old(self)@.nodes[i], request, now),
                    )
                    &&& r matches Ok(node) && node@ == hydrated(final(self)@.nodes, i)
                },
            },
    {
        let i = match self.check_write(node_id, &request.parent_id) {
            Ok(i) => i,
            Err(e) => {
                return Err(e);
            },
        };
        let ghost before = self@.nodes;
        let ghost want = updated_row(before[i as int], request, now);
        let reparented = request.parent_id.is_some();
        let row = &self.nodes[i];
        let written = Node {
            id: row.id.clone(),
            content: match request.content {
                Some(c) => c,
                None => row.content.clone(),
            },
            parent_id: match request.parent_id {
                Some(p) => Some(p),
                None => copy_opt_text(&row.parent_id),
            },
            children: Vec::new(),
            order: match request.order {
                Some(order) => order,
                None => row.order,
            },
            properties: match request.properties {
                Some(p) => p,
                None => row.properties.duplicate(),
            },
            tags: match request.tags {
                Some(t) => t,
                None => copy_texts(&row.tags),
            },
            created_at: row.created_at,
            updated_at: now,
            created_by: row.created_by.clone(),
            version: row.version + 1,
        };
        assert(written@.children =~= want.children);
        assert(written@ == want);
        proof {
            lemma_update_keeps_ids(before, i as int, want);
            if reparented {
                lemma_reparent_keeps_forest(before, i as int, want);
            } else {
                lemma_rewrite_keeps_forest(before, i as int, want);
            }
        }
        self.nodes.set(i, written);
        assert(self@.nodes =~= before.update(i as int, want));
        assert(self@.links == old(self)@.links);
        assert(self@.nodes[i as int].id == node_id@);
        self.get_node(node_id)
    }

    /// Applies a partial update, stamped with the current time.
    pub fn update_node(&mut self, node_id: &str, request: UpdateNodeRequest) -> (r: AppResult<
        Node,
    >)
        requires
            old(self).wf(),
        ensures
            final(self).wf(),
            forall|id: Seq<char>| has_node(final(self)@.nodes, id) == has_node(old(self)@.nodes, id),
            match write_refusal(old(self)@.nodes, node_id@, opt_text(request.parent_id)) {
                Some(why) => is_refusal(r, node_id@, opt_text(request.parent_id), why) && final(self)@ == old(
                    self,
                )@,
                None => {
                    let i = position(old(self)@.nodes, node_id@);
                    &&& r matches Ok(node) && node@ == hydrated(final(self)@.nodes, i)
                    &&& final(self)@ == with_row_at(
                        old(self)@,
                        i,
                        updated_row(old(self)@.nodes[i], request, r->Ok_0@.updated_at),
                    )
                },
            },
    {
        let now = now();
        self.update_node_at(node_id, request, now)
    }

    /// Puts a node under a new parent, or makes it a root, at a new place
    /// among its siblings. The new parent must exist and must not lie in the
    /// subtree of the node: a move that would close a cycle is refused before
    /// anything is written.
    pub fn move_node_at(
        &mut self,
        node_id: &str,
        new_parent_id: Option<String>,
        new_order: i32,
        now: i64,
    ) -> (r: AppResult<Node>)
        requires
            old(self).wf(),
        ensures
            final(self).wf(),
            forall|id: Seq<char>| has_node(final(self)@.nodes, id) == has_node(old(self)@.nodes, id),
            match write_refusal(old(self)@.nodes, node_id@, opt_text(new_parent_id)) {
                Some(why) => is_refusal(r, node_id@, opt_text(new_parent_id), why) && final(self)@ == old(
                    self,
                )@,
                None => {
                    let i = position(old(self)@.nodes, node_id@);
                    &&& final(self)@ == with_row_at(
                        old(self)@,
                        i,
                        moved_row(old(self)@.nodes[i], opt_text(new_parent_id), new_order, now),
                    )
                    &&& r matches Ok(node) && node@ == hydrated(final(self)@.nodes, i)
                },
            },
    {
        let i = match self.check_write(node_id, &new_parent_id) {
            Ok(i) => i,
            Err(e) => {
                return Err(e);
            },
        };
        let ghost before = self@.nodes;
        let ghost want = moved_row(before[i as int], opt_text(new_parent_id), new_order, now);
        let row = &self.nodes[i];
        let written = Node {
            id: row.id.clone(),
            content: row.content.clone(),
            parent_id: new_parent_id,
            children: Vec::new(),
            order: new_order,
            properties: row.properties.duplicate(),
            tags: copy_texts(&row.tags),
            created_at: row.created_at,
            updated_at: now,
            created_by: row.created_by.clone(),
            version: row.version + 1,
        };
        assert(written@.children =~= want.children);
        assert(written@ == want);
        proof {
            lemma_update_keeps_ids(before, i as int, want);
            lemma_reparent_keeps_forest(before, i as int, want);
        }
        self.nodes.set(i, written);
        assert(self@.nodes =~= before.update(i as int, want));
        assert(self@.links == old(self)@.links);
        assert(self@.nodes[i as int].id == node_id@);
        self.get_node(node_id)
    }

    /// Moves a node, stamped with the current time.
    pub fn move_node(&mut self, node_id: &str, new_parent_id: Option<String>, new_order: i32) -> (r:
        AppResult<Node>)
        requires
            old(self).wf(),
        ensures
            final(self).wf(),
            forall|id: Seq<char>| has_node(final(self)@.nodes, id) == has_node(old(self)@.nodes, id),
            match write_refusal(old(self)@.nodes, node_id@, opt_text(new_parent_id)) {
                Some(why) => is_refusal(r, node_id@, opt_text(new_parent_id), why) && final(self)@ == old(
                    self,
                )@,
                None => {
                    let i = position(old(self)@.nodes, node_id@);
                    &&& r matches Ok(node) && node@ == hydrated(final(self)@.nodes, i)
                    &&& final(self)@ == with_row_at(
                        old(self)@,
                        i,
                        moved_row(
                            old(self)@.nodes[i],
                            opt_text(new_parent_id),
                            new_order,
                            r->Ok_0@.updated_at,
                        ),
                    )
                },
            },
    {
        let now = now();
        self.move_node_at(node_id, new_parent_id, new_order, now)
    }

    /// Deletes a node together with all its descendants and with every edge
    /// that starts or ends at one of them.
    pub fn delete_node(&mut self, node_id: &str) -> (r: AppResult<()>)
        requires
            old(self).wf(),
        ensures
            final(self).wf(),
            r is Ok <==> has_node(old(self)@.nodes, node_id@),
            r is Ok ==> final(self)@ == without_subtree(old(self)@, node_id@),
            r is Err ==> is_not_found(r, node_id@) && final(self)@ == old(self)@,
    {
        if self.find(node_id).is_none() {
            return not_found(node_id);
        }
        let ghost before = self@;
        let ghost keep_row = outside(before.nodes, node_id@);
        let ghost keep_link = link_outside(before.nodes, node_id@);
        let mut nodes: Vec<Node> = Vec::new();
        let mut i: usize = 0;
        assert(before.nodes.take(0) =~= Seq::<NodeView>::empty());
        proof {
            reveal(Seq::filter);
        }
        while i < self.nodes.len()
            invariant
                self.wf(),
                self@ == before,
                keep_row == outside(before.nodes, node_id@),
                i <= self.nodes.len(),
                nodes.deep_view() == before.nodes.take(i as int).filter(keep_row),
            decreases self.nodes.len() - i,
        {
            let ghost so_far = nodes.deep_view();
            assert(before.nodes.take(i + 1) =~= before.nodes.take(i as int).push(
                before.nodes[i as int],
            ));
            proof {
                before.nodes.take(i as int).lemma_filter_push(before.nodes[i as int], keep_row);
            }
            if !self.within(node_id, self.nodes[i].id.as_str()) {
                nodes.push(self.nodes[i].duplicate());
                assert(nodes.deep_view() =~= so_far.push(before.nodes[i as int]));
            }
            i = i + 1;
        }
        assert(before.nodes.take(self.nodes.len() as int) =~= before.nodes);
        let mut links: Vec<NodeLink> = Vec::new();
        let mut k: usize = 0;
        assert(before.links.take(0) =~= Seq::<LinkView>::empty());
        while k < self.links.len()
            invariant
                self.wf(),
                self@ == before,
                keep_link == link_outside(before.nodes, node_id@),
                k <= self.links.len(),
                links.deep_view() == before.links.take(k as int).filter(keep_link),
            decreases self.links.len() - k,
        {
            let ghost so_far = links.deep_view();
            assert(before.links.take(k + 1) =~= before.links.take(k as int).push(
                before.links[k as int],
            ));
            proof {
                before.links.take(k as int).lemma_filter_push(before.links[k as int], keep_link);
            }
            let link = &self.links[k];
            if !self.within(node_id, link.source_node_id.as_str()) && !self.within(
                node_id,
                link.target_node_id.as_str(),
            ) {
                links.push(link.duplicate());
                assert(links.deep_view() =~= so_far.push(before.links[k as int]));
            }
            k = k + 1;
        }
        assert(before.links.take(self.links.len() as int) =~= before.links);
        proof {
            lemma_delete_keeps_forest(before, node_id@);
        }
        self.nodes = nodes;
        self.links = links;
        assert(self@.users == before.users);
        Ok(())
    }

    /// The place of the first journal entry of `date`.
    fn daily_place(&self, date: &str) -> (r: Option<usize>)
        ensures
            r is Some ==> r->0 < self@.nodes.len(),
            first_where(self@.nodes, is_daily_note(date@), self@.nodes.len()) == match r {
                Some(i) => Some(i as int),
                None => None,
            },
    {
        let mut i: usize = 0;
        while i < self.nodes.len()
            invariant
                i <= self.nodes.len(),
                first_where(self@.nodes, is_daily_note(date@), i as nat) is None,
            decreases self.nodes.len() - i,
        {
            let row = &self.nodes[i];
            let hit = row.parent_id.is_none() && str_eq(row.content.as_str(), date) && list_holds(
                &row.tags,
                JOURNAL_TAG,
            );
            assert(hit == is_daily_note(date@)(self@.nodes[i as int]));
            if hit {
                proof {
                    lemma_first_where_stays(
                        self@.nodes,
                        is_daily_note(date@),
                        (i + 1) as nat,
                        self@.nodes.len(),
                    );
                }
                return Some(i);
            }
            i = i + 1;
        }
        None
    }

    /// The journal entry of `date`: the first root whose content is the date
    /// and which carries the journal tag.
    pub fn get_daily_note(&self, date: &str) -> (r: AppResult<Node>)
        ensures
            match first_where(self@.nodes, is_daily_note(date@), self@.nodes.len()) {
                Some(i) => r matches Ok(node) && node@ == hydrated(self@.nodes, i),
                None => r matches Err(AppError::NotFound(m)) && m@ == "Daily note for "@ + date@
                    + " not found"@,
            },
    {
        match self.daily_place(date) {
            Some(i) => Ok(self.hydrate(i)),
            None => Err(AppError::NotFound(concat3("Daily note for ", date, " not found"))),
        }
    }

    /// The request that creates the journal entry of `date`.
    fn daily_request(date: &str) -> (request: CreateNodeRequest)
        ensures
            is_daily_request(request, date@),
    {
        let mut properties: TextMap<serde_json::Value> = TextMap::new();
        properties.insert(String::from_str("type"), json_text("daily_note"));
        properties.insert(String::from_str("date"), json_text(date));
        let mut tags: Vec<String> = Vec::new();
        tags.push(String::from_str(JOURNAL_TAG));
        assert(tags.deep_view() =~= seq![JOURNAL_TAG@]);
        CreateNodeRequest {
            content: String::from_str(date),
            parent_id: None,
            order: Some(0),
            properties: Some(properties),
            tags: Some(tags),
        }
    }

    /// The journal entry of `date`, written under the given id and time if
    /// there is none yet. Where an entry exists the store stays as it is.
    pub fn get_or_insert_daily_note(&mut self, date: &str, id: String, now: i64) -> (r: AppResult<
        Node,
    >)
        requires
            old(self).wf(),
        ensures
            final(self).wf(),
            match first_where(old(self)@.nodes, is_daily_note(date@), old(self)@.nodes.len()) {
                Some(i) => {
                    &&& final(self)@ == old(self)@
                    &&& r matches Ok(node) && node@ == hydrated(old(self)@.nodes, i)
                },
                None => if has_node(old(self)@.nodes, id@) {
                    is_taken(r, id@) && final(self)@ == old(self)@
                } else {
                    &&& r matches Ok(node) && final(self)@ == with_row(old(self)@, node@)
                    &&& exists|request: CreateNodeRequest|
                        is_daily_request(request, date@) && r->Ok_0@ == new_row(id@, now, request)
                },
            },
    {
        match self.daily_place(date) {
            Some(i) => Ok(self.hydrate(i)),
            None => {
                let request = Self::daily_request(date);
                self.insert_node(id, now, request)
            },
        }
    }

    /// The journal entry of `date`, created under a fresh id and the current
    /// time if there is none yet. Creating fails only where the fresh id is
    /// taken, which takes a row with an id of that shape.
    pub fn get_or_create_daily_note(&mut self, date: &str) -> (r: AppResult<Node>)
        requires
            old(self).wf(),
        ensures
            final(self).wf(),
            r matches Err(e) ==> e is ValidationError && final(self)@ == old(self)@,
            match first_where(old(self)@.nodes, is_daily_note(date@), old(self)@.nodes.len()) {
                Some(i) => {
                    &&& final(self)@ == old(self)@
                    &&& r matches Ok(node) && node@ == hydrated(old(self)@.nodes, i)
                },
                None => {
                    &&& r is Err ==> holds_random_id(old(self)@.nodes)
                    &&& r matches Ok(node) ==> {
                        &&& final(self)@ == with_row(old(self)@, node@)
                        &&& is_random_uuid_text(node@.id)
                        &&& !has_node(old(self)@.nodes, node@.id)
                        &&& is_daily_note(date@)(node@)
                        &&& exists|request: CreateNodeRequest|
                            is_daily_request(request, date@) && node@ == new_row(
                                node@.id,
                                node@.created_at,
                                request,
                            )
                    }
                },
            },
    {
        let id = generate_id();
        let now = now();
        let ghost drawn = id@;
        let r = self.get_or_insert_daily_note(date, id, now);
        proof {
            if first_where(old(self)@.nodes, is_daily_note(date@), old(self)@.nodes.len()) is None {
                if r is Ok {
                    assert(r->Ok_0@.tags[0] == JOURNAL_TAG@);
                } else {
                    let i = position(old(self)@.nodes, drawn);
                    assert(is_random_uuid_text(old(self)@.nodes[i].id));
                }
            }
        }
        r
    }

    /// Creates a node under a fresh random id, stamped with the current time.
    /// Nothing is written when the parent does not exist, or in the unlikely
    /// case that the random id is already taken; the latter takes a row with
    /// an id of that shape, so that creation in a store without such a row
    /// succeeds whenever the parent is in order.
    pub fn create_node(&mut self, request: CreateNodeRequest) -> (r: AppResult<Node>)
        requires
            old(self).wf(),
        ensures
            final(self).wf(),
            missing_parent(old(self)@.nodes, opt_text(request.parent_id)) ==> r is Err,
            r is Err ==> missing_parent(old(self)@.nodes, opt_text(request.parent_id))
                || holds_random_id(old(self)@.nodes),
            r is Err ==> final(self)@ == old(self)@,
            r matches Err(e) ==> if e is ValidationError {
                holds_random_id(old(self)@.nodes)
            } else {
                request.parent_id matches Some(p) && !has_node(old(self)@.nodes, p@)
                    && is_not_found(r, p@)
            },
            r matches Ok(node) ==> {
                &&& is_random_uuid_text(node@.id)
                &&& !has_node(old(self)@.nodes, node@.id)
                &&& node@ == new_row(node@.id, node@.created_at, request)
                &&& final(self)@ == with_row(old(self)@, node@)
                &&& has_node(final(self)@.nodes, node@.id)
                &&& node@ == hydrated(final(self)@.nodes, position(final(self)@.nodes, node@.id))
            },
    {
        let id = generate_id();
        let now = now();
        let ghost drawn = id@;
        let r = self.insert_node(id, now, request);
        proof {
            if has_node(old(self)@.nodes, drawn) {
                let i = position(old(self)@.nodes, drawn);
                assert(is_random_uuid_text(old(self)@.nodes[i].id));
            }
        }
        r
    }
}

} // verus!
