//! The content node, the unit of stored text in the hierarchy.

use crate::text_map::TextMap;
use vstd::prelude::*;

verus! {

/// Open-schema properties: JSON values under text keys.
pub type Properties = TextMap<serde_json::Value>;

/// The characters of an optional text.
pub open spec fn opt_text(o: Option<String>) -> Option<Seq<char>> {
    match o {
        Some(s) => Some(s@),
        None => None,
    }
}

/// One content node.
///
/// `children` is never stored: it is derived, on every read, from the nodes
/// whose `parent_id` names this node.
#[derive(Debug, PartialEq)]
pub struct Node {
    pub id: String,
    pub content: String,
    pub parent_id: Option<String>,
    pub children: Vec<String>,
    pub order: i32,
    pub properties: TextMap<serde_json::Value>,
    pub tags: Vec<String>,
    /// Nanoseconds since the Unix epoch.
    pub created_at: i64,
    /// Nanoseconds since the Unix epoch.
    pub updated_at: i64,
    pub created_by: String,
    pub version: i32,
}

/// The mathematical value of a [`Node`].
pub struct NodeView {
    pub id: Seq<char>,
    pub content: Seq<char>,
    pub parent_id: Option<Seq<char>>,
    pub children: Seq<Seq<char>>,
    pub order: i32,
    pub properties: Map<Seq<char>, serde_json::Value>,
    pub tags: Seq<Seq<char>>,
    pub created_at: i64,
    pub updated_at: i64,
    pub created_by: Seq<char>,
    pub version: i32,
}

impl View for Node {
    type V = NodeView;

    open spec fn view(&self) -> NodeView {
        NodeView {
            id: self.id@,
            content: self.content@,
            parent_id: opt_text(self.parent_id),
            children: self.children.deep_view(),
            order: self.order,
            properties: self.properties@,
            tags: self.tags.deep_view(),
            created_at: self.created_at,
            updated_at: self.updated_at,
            created_by: self.created_by@,
            version: self.version,
        }
    }
}

impl DeepView for Node {
    type V = NodeView;

    open spec fn deep_view(&self) -> NodeView {
        self@
    }
}

/// A copy of a list of texts.
pub fn copy_texts(v: &Vec<String>) -> (r: Vec<String>)
    ensures
        r.deep_view() == v.deep_view(),
{
    let mut r: Vec<String> = Vec::new();
    let mut i: usize = 0;
    while i < v.len()
        invariant
            i <= v.len(),
            r@.len() == i,
            forall|k: int| 0 <= k < i ==> r@[k]@ == v@[k]@,
        decreases v.len() - i,
    {
        r.push(v[i].clone());
        i = i + 1;
    }
    assert(r.deep_view() =~= v.deep_view());
    r
}

/// A copy of an optional text.
pub fn copy_opt_text(o: &Option<String>) -> (r: Option<String>)
    ensures
        opt_text(r) == opt_text(*o),
{
    match o {
        Some(s) => Some(s.clone()),
        None => None,
    }
}

impl Node {
    /// A copy of the node, field by field.
    pub fn duplicate(&self) -> (r: Node)
        ensures
            r@ == self@,
    {
        Node {
            id: self.id.clone(),
            content: self.content.clone(),
            parent_id: copy_opt_text(&self.parent_id),
            children: copy_texts(&self.children),
            order: self.order,
            properties: self.properties.duplicate(),
            tags: copy_texts(&self.tags),
            created_at: self.created_at,
            updated_at: self.updated_at,
            created_by: self.created_by.clone(),
            version: self.version,
        }
    }
}

/// A node together with the full tree of its descendants.
#[derive(Debug)]
pub struct NodeWithChildren {
    pub node: Node,
    pub child_nodes: Vec<NodeWithChildren>,
}

/// The mathematical value of a [`NodeWithChildren`].
pub struct TreeView {
    pub node: NodeView,
    pub child_nodes: Seq<TreeView>,
}

impl NodeWithChildren {
    /// The mathematical value of the tree.
    pub open spec fn view(&self) -> TreeView
        decreases self,
    {
        TreeView {
            node: self.node@,
            child_nodes: Seq::new(
                self.child_nodes@.len(),
                |i: int|
                    if 0 <= i < self.child_nodes@.len() {
                        self.child_nodes@[i]@
                    } else {
                        arbitrary()
                    },
            ),
        }
    }
}

/// The children of the view of a tree are the views of its children.
pub proof fn lemma_tree_view(tree: NodeWithChildren)
    ensures
        tree@.node == tree.node@,
        tree@.child_nodes.len() == tree.child_nodes@.len(),
        forall|j: int|
            0 <= j < tree.child_nodes@.len() ==> #[trigger] tree@.child_nodes[j]
                == tree.child_nodes@[j]@,
{
    reveal_with_fuel(NodeWithChildren::view, 2);
}

/// What a caller supplies to create a node.
#[derive(Debug)]
pub struct CreateNodeRequest {
    pub content: String,
    pub parent_id: Option<String>,
    pub order: Option<i32>,
    pub properties: Option<TextMap<serde_json::Value>>,
    pub tags: Option<Vec<String>>,
}

/// A partial update: only the fields that are present are written.
#[derive(Debug)]
pub struct UpdateNodeRequest {
    pub content: Option<String>,
    pub parent_id: Option<String>,
    pub order: Option<i32>,
    pub properties: Option<TextMap<serde_json::Value>>,
    pub tags: Option<Vec<String>>,
}

} // verus!
