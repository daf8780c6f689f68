//! Loading a store from rows: the checks that the medium would make.

use crate::errors::{AppError, AppResult};
use crate::json::{
    json_of_properties, json_of_texts, members_from_json, members_to_json, properties_of_json,
    texts_from_json, texts_of_json, texts_to_json,
};
use crate::models::node::{copy_opt_text, opt_text, Node, NodeView};
use crate::services::database::connection::{DatabaseService, NodeLink};
use crate::services::database::model::{
    has_node, lemma_chain_bounded, lemma_position, links_wf, nodes_wf, nth_parent,
    parents_exist, rooted, store_wf, unique_ids, StoreView,
};
use crate::text::str_eq;
use crate::text_map::TextMap;
use vstd::prelude::*;
use vstd::string::*;

verus! {

/// A node as the medium holds it: the structured fields written down as JSON
/// texts, and no children list.
#[derive(Debug, PartialEq)]
pub struct NodeRow {
    pub id: String,
    pub content: String,
    pub parent_id: Option<String>,
    pub order_index: i32,
    pub properties: String,
    pub tags: String,
    /// Nanoseconds since the Unix epoch.
    pub created_at: i64,
    /// Nanoseconds since the Unix epoch.
    pub updated_at: i64,
    pub created_by: String,
    pub version: i32,
}

/// The node that a row stands for. A text that cannot be read stands for an
/// empty container: the rest of the node stays available.
pub open spec fn node_of_row(row: NodeRow) -> NodeView {
    NodeView {
        id: row.id@,
        content: row.content@,
        parent_id: opt_text(row.parent_id),
        children: Seq::empty(),
        order: row.order_index,
        properties: match properties_of_json(row.properties@) {
            Some(properties) => properties,
            None => Map::empty(),
        },
        tags: match texts_of_json(row.tags@) {
            Some(tags) => tags,
            None => Seq::empty(),
        },
        created_at: row.created_at,
        updated_at: row.updated_at,
        created_by: row.created_by@,
        version: row.version,
    }
}

impl Node {
    /// Reads a node from a row of the medium. A properties or tags text that
    /// cannot be read yields an empty container, not a failure.
    pub fn from_row(row: NodeRow) -> (node: Node)
        ensures
            node@ == node_of_row(row),
    {
        let properties = match members_from_json(row.properties.as_str()) {
            Ok(members) => TextMap::from_entries(members),
            Err(_) => TextMap::new(),
        };
        let tags = match texts_from_json(row.tags.as_str()) {
            Ok(tags) => tags,
            Err(_) => Vec::new(),
        };
        let node = Node {
            id: row.id,
            content: row.content,
            parent_id: row.parent_id,
            children: Vec::new(),
            order: row.order_index,
            properties,
            tags,
            created_at: row.created_at,
            updated_at: row.updated_at,
            created_by: row.created_by,
            version: row.version,
        };
        assert(node@.children =~= Seq::<Seq<char>>::empty());
        assert(node@.tags =~= node_of_row(row).tags);
        node
    }

    /// Writes the node down as a row of the medium.
    pub fn to_row(&self) -> (r: AppResult<NodeRow>)
        ensures
            r matches Ok(row) && {
                &&& row.id@ == self@.id
                &&& row.content@ == self@.content
                &&& opt_text(row.parent_id) == self@.parent_id
                &&& row.order_index == self@.order
                &&& row.properties@ == json_of_properties(self@.properties)
                &&& row.tags@ == json_of_texts(self@.tags)
                &&& row.created_at == self@.created_at
                &&& row.updated_at == self@.updated_at
                &&& row.created_by@ == self@.created_by
                &&& row.version == self@.version
            },
    {
        let properties = match members_to_json(self.properties.entries()) {
            Ok(text) => text,
            Err(e) => {
                return Err(AppError::from_json(e));
            },
        };
        let tags = match texts_to_json(&self.tags) {
            Ok(text) => text,
            Err(e) => {
                return Err(AppError::from_json(e));
            },
        };
        Ok(
            NodeRow {
                id: self.id.clone(),
                content: self.content.clone(),
                parent_id: copy_opt_text(&self.parent_id),
                order_index: self.order,
                properties,
                tags,
                created_at: self.created_at,
                updated_at: self.updated_at,
                created_by: self.created_by.clone(),
                version: self.version,
            },
        )
    }
}

/// The rows as the store keeps them: without the derived children lists.
pub open spec fn stripped(nodes: Seq<NodeView>) -> Seq<NodeView> {
    Seq::new(nodes.len(), |k: int| NodeView { children: Seq::empty(), ..nodes[k] })
}

impl DatabaseService {
    /// Whether no two rows carry the same id.
    fn ids_are_unique(&self) -> (ok: bool)
        ensures
            ok == unique_ids(self@.nodes),
    {
        let mut i: usize = 0;
        while i < self.nodes.len()
            invariant
                i <= self.nodes.len(),
                forall|a: int, b: int|
                    0 <= a < i && 0 <= b < a ==> (#[trigger] self@.nodes[a]).id != (
                    #[trigger] self@.nodes[b]).id,
            decreases self.nodes.len() - i,
        {
            let mut j: usize = 0;
            while j < i
                invariant
                    j <= i < self.nodes.len(),
                    forall|b: int| 0 <= b < j ==> self@.nodes[i as int].id != (
                    #[trigger] self@.nodes[b]).id,
                decreases i - j,
            {
                if str_eq(self.nodes[i].id.as_str(), self.nodes[j].id.as_str()) {
                    assert(self@.nodes[i as int].id == self@.nodes[j as int].id);
                    return false;
                }
                j = j + 1;
            }
            i = i + 1;
        }
        assert forall|a: int, b: int|
            0 <= a < self@.nodes.len() && 0 <= b < self@.nodes.len() && (
            #[trigger] self@.nodes[a]).id == (#[trigger] self@.nodes[b]).id implies a == b by {
            if a < b {
                assert(self@.nodes[b].id != self@.nodes[a].id);
            } else if b < a {
                assert(self@.nodes[a].id != self@.nodes[b].id);
            }
        }
        true
    }

    /// Whether every parent reference names a row.
    fn parents_are_there(&self) -> (ok: bool)
        ensures
            ok == parents_exist(self@.nodes),
    {
        let mut i: usize = 0;
        while i < self.nodes.len()
            invariant
                i <= self.nodes.len(),
                forall|k: int|
                    0 <= k < i ==> ((#[trigger] self@.nodes[k]).parent_id matches Some(p)
                        ==> has_node(self@.nodes, p)),
            decreases self.nodes.len() - i,
        {
            let missing = match &self.nodes[i].parent_id {
                Some(p) => self.find(p.as_str()).is_none(),
                None => false,
            };
            if missing {
                assert(self@.nodes[i as int].parent_id is Some);
                return false;
            }
            i = i + 1;
        }
        true
    }

    /// Whether the chain of parents of the row at place `i` ends.
    fn chain_ends(&self, i: usize) -> (ok: bool)
        requires
            unique_ids(self@.nodes),
            parents_exist(self@.nodes),
            i < self.nodes.len(),
        ensures
            ok == rooted(self@.nodes, self@.nodes[i as int].id),
    {
        let ghost nodes = self@.nodes;
        let ghost id = nodes[i as int].id;
        let mut cur: usize = i;
        let mut steps: usize = 0;
        proof {
            lemma_position(nodes, i as int);
            assert(nth_parent(nodes, id, 0) == Some(id));
        }
        while steps < self.nodes.len()
            invariant
                nodes == self@.nodes,
                i < nodes.len(),
                id == nodes[i as int].id,
                unique_ids(nodes),
                parents_exist(nodes),
                cur < self.nodes.len(),
                steps <= self.nodes.len(),
                nth_parent(nodes, id, steps as nat) == Some(nodes[cur as int].id),
            decreases self.nodes.len() - steps,
        {
            proof {
                lemma_position(nodes, cur as int);
            }
            let next = match &self.nodes[cur].parent_id {
                Some(p) => self.find(p.as_str()),
                None => None,
            };
            match next {
                Some(j) => {
                    cur = j;
                    steps = steps + 1;
                },
                None => {
                    assert(nth_parent(nodes, id, (steps + 1) as nat) == nodes[cur as int].parent_id);
                    assert(nth_parent(nodes, id, (steps + 1) as nat) is None);
                    assert(rooted(nodes, id));
                    return true;
                },
            }
        }
        proof {
            lemma_position(nodes, i as int);
            if rooted(nodes, id) {
                lemma_chain_bounded(nodes, id);
            }
        }
        false
    }

    /// Whether the rows form a forest.
    pub(crate) fn is_forest(&self) -> (ok: bool)
        ensures
            ok == nodes_wf(self@.nodes),
    {
        if !self.ids_are_unique() || !self.parents_are_there() {
            return false;
        }
        let mut i: usize = 0;
        while i < self.nodes.len()
            invariant
                unique_ids(self@.nodes),
                parents_exist(self@.nodes),
                i <= self.nodes.len(),
                forall|k: int|
                    0 <= k < i ==> rooted(self@.nodes, (#[trigger] self@.nodes[k]).id) && self@.nodes[k].children.len()
                        == 0,
            decreases self.nodes.len() - i,
        {
            if self.nodes[i].children.len() != 0 || !self.chain_ends(i) {
                assert(self@.nodes[i as int].children.len() == self.nodes[i as int].children@.len());
                assert(!rooted(self@.nodes, self@.nodes[i as int].id) || self@.nodes[i as int].children.len()
                    != 0);
                return false;
            }
            i = i + 1;
        }
        true
    }

    /// Whether every edge joins two rows and no edge occurs twice.
    pub(crate) fn links_are_sound(&self) -> (ok: bool)
        ensures
            ok == links_wf(self@.nodes, self@.links),
    {
        let mut k: usize = 0;
        while k < self.links.len()
            invariant
                k <= self.links.len(),
                forall|a: int|
                    0 <= a < k ==> has_node(self@.nodes, (#[trigger] self@.links[a]).source)
                        && has_node(self@.nodes, self@.links[a].target),
                forall|a: int, b: int|
                    0 <= a < k && 0 <= b < a ==> #[trigger] self@.links[a] != #[trigger] self@.links[b],
            decreases self.links.len() - k,
        {
            let link = &self.links[k];
            assert(self@.links[k as int] == link@);
            if self.find(link.source_node_id.as_str()).is_none() || self.find(
                link.target_node_id.as_str(),
            ).is_none() {
                return false;
            }
            let mut j: usize = 0;
            while j < k
                invariant
                    j <= k < self.links.len(),
                    link@ == self@.links[k as int],
                    forall|b: int| 0 <= b < j ==> self@.links[k as int] != #[trigger] self@.links[b],
                decreases k - j,
            {
                let other = &self.links[j];
                assert(self@.links[j as int] == other@);
                if str_eq(link.source_node_id.as_str(), other.source_node_id.as_str()) && str_eq(
                    link.target_node_id.as_str(),
                    other.target_node_id.as_str(),
                ) {
                    assert(self@.links[k as int] == self@.links[j as int]);
                    return false;
                }
                j = j + 1;
            }
            k = k + 1;
        }
        assert forall|a: int, b: int|
            0 <= a < self@.links.len() && 0 <= b < self@.links.len() && #[trigger] self@.links[a]
                == #[trigger] self@.links[b] implies a == b by {
            if a < b {
                assert(self@.links[b] != self@.links[a]);
            } else if b < a {
                assert(self@.links[a] != self@.links[b]);
            }
        }
        true
    }

    /// Builds a store from rows, edges and user ids as they were read from
    /// the medium. The children lists of the rows are dropped. The rows must
    /// form a forest with unique ids, and the edges must join rows and be
    /// unique; otherwise no store is built.
    pub fn restore(nodes: Vec<Node>, links: Vec<NodeLink>, users: Vec<String>) -> (r: AppResult<
        DatabaseService,
    >)
        ensures
            r is Ok <==> store_wf(
                StoreView {
                    nodes: stripped(nodes.deep_view()),
                    links: links.deep_view(),
                    users: users.deep_view(),
                },
            ),
            r matches Ok(db) ==> db.wf() && db@ == (StoreView {
                nodes: stripped(nodes.deep_view()),
                links: links.deep_view(),
                users: users.deep_view(),
            }),
            r matches Err(e) ==> e is ValidationError,
    {
        let ghost given = nodes.deep_view();
        let mut rows: Vec<Node> = nodes;
        let mut i: usize = 0;
        while i < rows.len()
            invariant
                i <= rows.len(),
                rows@.len() == given.len(),
                forall|k: int|
                    0 <= k < i ==> (#[trigger] rows@[k])@ == (NodeView {
                        children: Seq::empty(),
                        ..given[k]
                    }),
                forall|k: int| i <= k < rows@.len() ==> (#[trigger] rows@[k])@ == given[k],
            decreases rows.len() - i,
        {
            let row = rows[i].duplicate();
            let bare = Node { children: Vec::new(), ..row };
            assert(bare@.children =~= Seq::<Seq<char>>::empty());
            rows.set(i, bare);
            i = i + 1;
        }
        let db = DatabaseService { nodes: rows, links, users };
        assert(db@.nodes =~= stripped(given));
        if db.is_forest() && db.links_are_sound() {
            Ok(db)
        } else {
            Err(
                AppError::ValidationError(
                    String::from_str("rows do not form a forest with sound edges"),
                ),
            )
        }
    }
}

} // verus!
