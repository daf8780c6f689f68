//! Export of the tree as Markdown and of the whole store as plain values.

use crate::errors::AppResult;
use crate::models::node::{lemma_tree_view, Node, NodeView, NodeWithChildren, TreeView};
use crate::services::database::connection::{holds_link, place_in, DatabaseService, NodeLink};
use crate::services::database::model::{
    any_row, has_node, is_root, lemma_position, lemma_update_keeps_ids, listed, places_where,
    position, selection, store_wf, tree_at, unique_ids, LinkView, Listing, StoreView,
};
use crate::services::database::nodes::is_not_found;
use crate::ordering::as_ints;
use crate::services::database::schema::stripped;
use crate::utils::clock::now;
use vstd::prelude::*;
use vstd::string::*;

verus! {

/// Everything that the store holds, as plain values.
#[derive(Debug)]
pub struct ExportData {
    pub version: String,
    /// Nanoseconds since the Unix epoch.
    pub export_date: i64,
    pub nodes: Vec<Node>,
    pub links: Vec<NodeLink>,
}

/// Two spaces for each level.
pub open spec fn indent(level: nat) -> Seq<char>
    decreases level,
{
    if level == 0 {
        Seq::empty()
    } else {
        indent((level - 1) as nat) + "  "@
    }
}

/// The Markdown of a tree behind the given indentation: one bullet for each
/// node, parents before children, every level two spaces further in.
pub open spec fn markdown_behind(tree: TreeView, lead: Seq<char>) -> Seq<char>
    decreases tree, 1nat,
{
    lead + "* "@ + tree.node.content + "\n"@ + markdown_below(tree, lead).flatten_alt()
}

/// The Markdown of each child of a tree that stands behind the given
/// indentation.
pub open spec fn markdown_below(tree: TreeView, lead: Seq<char>) -> Seq<Seq<char>>
    decreases tree, 0nat,
{
    Seq::new(
        tree.child_nodes.len(),
        |k: int|
            if 0 <= k < tree.child_nodes.len() {
                markdown_behind(tree.child_nodes[k], lead + "  "@)
            } else {
                Seq::empty()
            },
    )
}

/// The Markdown of a tree whose root stands at the given level.
pub open spec fn markdown(tree: TreeView, level: nat) -> Seq<char> {
    markdown_behind(tree, indent(level))
}

/// The Markdown of the first `n` trees at level 0, each followed by an empty
/// line.
pub open spec fn markdown_list(trees: Seq<TreeView>, n: nat) -> Seq<char>
    decreases n,
{
    if n == 0 {
        Seq::empty()
    } else {
        markdown_list(trees, (n - 1) as nat) + markdown(trees[n - 1], 0) + "\n"@
    }
}

/// The title and the line that names the time of an export.
pub open spec fn export_heading(stamp: Seq<char>) -> Seq<char> {
    "# Note Export\n\n"@ + "*Exported on: "@ + stamp + "*\n\n"@
}

/// The trees below the roots, in sibling order.
pub open spec fn root_trees(nodes: Seq<NodeView>) -> Seq<TreeView> {
    let roots = listed(nodes, places_where(nodes, is_root(), nodes.len()), Listing::Siblings);
    Seq::new(roots.len(), |k: int| tree_at(nodes, roots[k], nodes.len()))
}

/// The text that names an instant, given in nanoseconds since the Unix
/// epoch: year, month, day and time of day in UTC, followed by the word UTC.
pub uninterp spec fn utc_stamp(nanos: i64) -> Seq<char>;

/// Builds the instant with `chrono::DateTime::from_timestamp_nanos`, which
/// takes every `i64`, and renders it with `DateTime::format`.
#[verifier::external_body]
fn stamp_of(nanos: i64) -> (stamp: String)
    ensures
        stamp@ == utc_stamp(nanos),
{
    chrono::DateTime::from_timestamp_nanos(nanos).format("%Y-%m-%d %H:%M:%S UTC").to_string()
}

/// The text that names an instant in the heading of an export.
pub fn export_stamp(nanos: i64) -> (stamp: String)
    ensures
        stamp@ == utc_stamp(nanos),
{
    stamp_of(nanos)
}

/// Appends the Markdown of a tree behind the given indentation.
fn render(node: &NodeWithChildren, lead: &str, out: &mut String)
    ensures
        final(out)@ == old(out)@ + markdown_behind(node@, lead@),
    decreases node,
{
    let ghost start = out@;
    proof {
        lemma_tree_view(*node);
    }
    out.append(lead);
    out.append("* ");
    out.append(node.node.content.as_str());
    out.append("\n");
    let deeper = String::from_str(lead).concat("  ");
    let ghost head = lead@ + "* "@ + node@.node.content + "\n"@;
    let ghost parts = markdown_below(node@, lead@);
    assert(out@ =~= start + head + parts.take(0).flatten_alt());
    let mut k: usize = 0;
    while k < node.child_nodes.len()
        invariant
            k <= node.child_nodes.len(),
            deeper@ == lead@ + "  "@,
            parts.len() == node.child_nodes@.len(),
            forall|j: int|
                0 <= j < parts.len() ==> #[trigger] parts[j] == markdown_behind(
                    node@.child_nodes[j],
                    lead@ + "  "@,
                ),
            out@ == start + head + parts.take(k as int).flatten_alt(),
        decreases node.child_nodes.len() - k,
    {
        let ghost before = out@;
        render(&node.child_nodes[k], deeper.as_str(), out);
        proof {
            assert(node@.child_nodes[k as int] == node.child_nodes@[k as int]@);
            assert(parts.take(k + 1).drop_last() =~= parts.take(k as int));
            assert(parts.take(k + 1).last() == parts[k as int]);
            assert(out@ =~= start + head + parts.take(k + 1).flatten_alt());
        }
        k = k + 1;
    }
    assert(parts.take(node.child_nodes.len() as int) =~= parts);
    assert(out@ =~= start + markdown_behind(node@, lead@));
}

impl DatabaseService {
    /// The Markdown of a tree whose root stands at the given level.
    pub fn node_to_markdown(&self, node: &NodeWithChildren, level: usize) -> (text: String)
        ensures
            text@ == markdown(node@, level as nat),
    {
        let mut lead = String::new();
        let mut i: usize = 0;
        assert(lead@ =~= indent(0));
        while i < level
            invariant
                i <= level,
                lead@ == indent(i as nat),
            decreases level - i,
        {
            lead.append("  ");
            i = i + 1;
        }
        let mut text = String::new();
        render(node, lead.as_str(), &mut text);
        assert(text@ =~= markdown(node@, level as nat));
        text
    }

    /// The Markdown of a node and all its descendants.
    pub fn export_node_to_markdown(&self, node_id: &str) -> (r: AppResult<String>)
        requires
            self.wf(),
        ensures
            r is Ok <==> has_node(self@.nodes, node_id@),
            r matches Ok(text) ==> text@ == markdown(
                tree_at(self@.nodes, position(self@.nodes, node_id@), self@.nodes.len()),
                0,
            ),
            r is Err ==> is_not_found(r, node_id@),
    {
        match self.get_node_with_children(node_id) {
            Ok(tree) => Ok(self.node_to_markdown(&tree, 0)),
            Err(e) => Err(e),
        }
    }

    /// The Markdown of the whole store under a heading that names the given
    /// time: the tree of each root in sibling order, an empty line between
    /// them.
    pub fn export_all_to_markdown_at(&self, stamp: &str) -> (r: AppResult<String>)
        requires
            self.wf(),
        ensures
            r matches Ok(text) && text@ == export_heading(stamp@) + markdown_list(
                root_trees(self@.nodes),
                root_trees(self@.nodes).len(),
            ),
    {
        let mut text = String::from_str("# Note Export\n\n");
        text.append("*Exported on: ");
        text.append(stamp);
        text.append("*\n\n");
        let places = self.root_places();
        let roots = self.list(&places, Listing::Siblings);
        let ghost trees = root_trees(self@.nodes);
        assert(text@ =~= export_heading(stamp@) + markdown_list(trees, 0));
        let mut k: usize = 0;
        while k < roots.len()
            invariant
                self.wf(),
                k <= roots.len(),
                trees == root_trees(self@.nodes),
                trees.len() == roots@.len(),
                as_ints(roots@) == listed(
                    self@.nodes,
                    places_where(self@.nodes, is_root(), self@.nodes.len()),
                    Listing::Siblings,
                ),
                forall|j: int| 0 <= j < roots@.len() ==> #[trigger] roots@[j] < self@.nodes.len(),
                text@ == export_heading(stamp@) + markdown_list(trees, k as nat),
            decreases roots.len() - k,
        {
            assert(as_ints(roots@)[k as int] == roots@[k as int]);
            let tree = self.subtree(roots[k], self.nodes.len());
            assert(tree@ == trees[k as int]);
            let part = self.node_to_markdown(&tree, 0);
            let ghost before = text@;
            text.append(part.as_str());
            text.append("\n");
            assert(text@ =~= export_heading(stamp@) + markdown_list(trees, (k + 1) as nat));
            k = k + 1;
        }
        Ok(text)
    }

    /// The Markdown of the whole store under a heading that names the
    /// current time.
    pub fn export_all_to_markdown(&self) -> (r: AppResult<String>)
        requires
            self.wf(),
        ensures
            r matches Ok(text) && exists|nanos: i64|
                text@ == export_heading(utc_stamp(nanos)) + markdown_list(
                    root_trees(self@.nodes),
                    root_trees(self@.nodes).len(),
                ),
    {
        let stamp = export_stamp(now());
        self.export_all_to_markdown_at(stamp.as_str())
    }

    /// Every edge, in the order of the edge table.
    pub fn get_all_links(&self) -> (r: AppResult<Vec<NodeLink>>)
        ensures
            r matches Ok(links) && links.deep_view() == self@.links,
    {
        let mut links: Vec<NodeLink> = Vec::new();
        let mut k: usize = 0;
        while k < self.links.len()
            invariant
                k <= self.links.len(),
                links@.len() == k,
                forall|j: int| 0 <= j < k ==> (#[trigger] links@[j])@ == self@.links[j],
            decreases self.links.len() - k,
        {
            links.push(self.links[k].duplicate());
            k = k + 1;
        }
        assert(links.deep_view() =~= self@.links);
        Ok(links)
    }

    /// Everything that the store holds: all nodes, the most recently created
    /// first, and all edges, under the given version and time.
    pub fn export_data(&self, version: String, export_date: i64) -> (r: AppResult<ExportData>)
        ensures
            r matches Ok(data) && {
                &&& data.version@ == version@
                &&& data.export_date == export_date
                &&& data.nodes.deep_view() == selection(
                    self@.nodes,
                    any_row(),
                    Listing::NewestCreated,
                )
                &&& data.links.deep_view() == self@.links
            },
    {
        let nodes = match self.get_all_nodes() {
            Ok(nodes) => nodes,
            Err(e) => {
                return Err(e);
            },
        };
        let links = match self.get_all_links() {
            Ok(links) => links,
            Err(e) => {
                return Err(e);
            },
        };
        Ok(ExportData { version, export_date, nodes, links })
    }
}

/// The rows after each of the first `n` incoming rows was written: over the
/// row with the same id where there is one, behind all rows otherwise.
pub open spec fn upserted(nodes: Seq<NodeView>, incoming: Seq<NodeView>, n: nat) -> Seq<NodeView>
    decreases n,
{
    if n == 0 {
        nodes
    } else {
        let before = upserted(nodes, incoming, (n - 1) as nat);
        let row = incoming[n - 1];
        if has_node(before, row.id) {
            before.update(position(before, row.id), row)
        } else {
            before.push(row)
        }
    }
}

/// The edges after each of the first `n` incoming edges was added, unless it
/// was there already.
pub open spec fn joined(links: Seq<LinkView>, incoming: Seq<LinkView>, n: nat) -> Seq<LinkView>
    decreases n,
{
    if n == 0 {
        links
    } else {
        let before = joined(links, incoming, (n - 1) as nat);
        if before.contains(incoming[n - 1]) {
            before
        } else {
            before.push(incoming[n - 1])
        }
    }
}

/// The store after the rows and edges of an export were written into it.
pub open spec fn merged(s: StoreView, nodes: Seq<NodeView>, links: Seq<LinkView>) -> StoreView {
    StoreView {
        nodes: upserted(s.nodes, stripped(nodes), nodes.len()),
        links: joined(s.links, links, links.len()),
        users: s.users,
    }
}

impl DatabaseService {
    /// Writes the rows and edges of an export into the store: a row replaces
    /// the row with the same id or is added, an edge is added unless it is
    /// there. The outcome must be a forest with sound edges; otherwise
    /// nothing is written.
    pub fn import_data(&mut self, data: &ExportData) -> (r: AppResult<()>)
        requires
            old(self).wf(),
        ensures
            final(self).wf(),
            r is Ok <==> store_wf(
                merged(old(self)@, data.nodes.deep_view(), data.links.deep_view()),
            ),
            r is Ok ==> final(self)@ == merged(
                old(self)@,
                data.nodes.deep_view(),
                data.links.deep_view(),
            ),
            r matches Err(e) ==> e is ValidationError && final(self)@ == old(self)@,
    {
        let ghost start = self@;
        let ghost incoming = stripped(data.nodes.deep_view());
        let mut rows: Vec<Node> = Vec::new();
        let mut i: usize = 0;
        while i < self.nodes.len()
            invariant
                i <= self.nodes.len(),
                rows.deep_view() == self@.nodes.take(i as int),
            decreases self.nodes.len() - i,
        {
            let ghost so_far = rows.deep_view();
            rows.push(self.nodes[i].duplicate());
            assert(rows.deep_view() =~= so_far.push(self@.nodes[i as int]));
            assert(self@.nodes.take(i + 1) =~= self@.nodes.take(i as int).push(
                self@.nodes[i as int],
            ));
            i = i + 1;
        }
        assert(self@.nodes.take(self.nodes.len() as int) =~= self@.nodes);
        let mut n: usize = 0;
        while n < data.nodes.len()
            invariant
                self@ == start,
                start.nodes == upserted(start.nodes, incoming, 0),
                incoming == stripped(data.nodes.deep_view()),
                n <= data.nodes.len(),
                rows.deep_view() == upserted(start.nodes, incoming, n as nat),
                unique_ids(rows.deep_view()),
                forall|k: int| 0 <= k < rows@.len() ==> (#[trigger] rows.deep_view()[k]).children.len()
                    == 0,
            decreases data.nodes.len() - n,
        {
            let ghost before = rows.deep_view();
            let row = data.nodes[n].duplicate();
            let bare = Node { children: Vec::new(), ..row };
            assert(bare@.children =~= Seq::<Seq<char>>::empty());
            assert(bare@ == incoming[n as int]);
            match place_in(&rows, bare.id.as_str()) {
                Some(at) => {
                    proof {
                        lemma_position(before, at as int);
                        lemma_update_keeps_ids(before, at as int, bare@);
                    }
                    rows.set(at, bare);
                    assert(rows.deep_view() =~= before.update(at as int, incoming[n as int]));
                },
                None => {
                    rows.push(bare);
                    assert(rows.deep_view() =~= before.push(incoming[n as int]));
                    assert forall|a: int, b: int|
                        0 <= a < rows@.len() && 0 <= b < rows@.len() && (
                        #[trigger] rows.deep_view()[a]).id == (#[trigger] rows.deep_view()[b]).id
                        implies a == b by {
                        if a < before.len() && b < before.len() {
                            assert(before[a].id == before[b].id);
                        } else if a < before.len() {
                            assert(before[a].id == incoming[n as int].id);
                        } else if b < before.len() {
                            assert(before[b].id == incoming[n as int].id);
                        }
                    }
                },
            }
            n = n + 1;
        }
        let ghost wanted = data.links.deep_view();
        let mut links: Vec<NodeLink> = match self.get_all_links() {
            Ok(links) => links,
            Err(e) => {
                return Err(e);
            },
        };
        let mut k: usize = 0;
        while k < data.links.len()
            invariant
                self@ == start,
                wanted == data.links.deep_view(),
                k <= data.links.len(),
                links.deep_view() == joined(start.links, wanted, k as nat),
            decreases data.links.len() - k,
        {
            let ghost before = links.deep_view();
            let link = &data.links[k];
            assert(link@ == wanted[k as int]);
            let found = holds_link(&links, link);
            if !found {
                links.push(link.duplicate());
                assert(links.deep_view() =~= before.push(wanted[k as int]));
            }
            k = k + 1;
        }
        let mut users: Vec<String> = Vec::new();
        let mut u: usize = 0;
        while u < self.users.len()
            invariant
                u <= self.users.len(),
                users@.len() == u,
                forall|q: int| 0 <= q < u ==> (#[trigger] users@[q])@ == self.users@[q]@,
            decreases self.users.len() - u,
        {
            users.push(self.users[u].clone());
            u = u + 1;
        }
        assert(users.deep_view() =~= start.users);
        assert forall|q: int| 0 <= q < rows@.len() implies stripped(rows.deep_view())[q]
            == #[trigger] rows.deep_view()[q] by {
            assert(rows.deep_view()[q].children =~= Seq::<Seq<char>>::empty());
        }
        assert(stripped(rows.deep_view()) =~= rows.deep_view());
        match DatabaseService::restore(rows, links, users) {
            Ok(db) => {
                *self = db;
                Ok(())
            },
            Err(e) => Err(e),
        }
    }
}

} // verus!
