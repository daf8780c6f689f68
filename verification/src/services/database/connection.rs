//! The store handle: the rows it owns, its invariant and its bootstrap.

use crate::errors::{AppError, AppResult};
use crate::models::node::Node;
use crate::services::database::model::{has_node, store_wf, LinkView, StoreView};
use crate::text::str_eq;
use vstd::prelude::*;
use vstd::string::*;

verus! {

/// The id of the single local actor.
pub const DEFAULT_USER_ID: &'static str = "default_user";

/// One row of the edge table.
#[derive(Debug, PartialEq)]
pub struct NodeLink {
    pub source_node_id: String,
    pub target_node_id: String,
}

impl View for NodeLink {
    type V = LinkView;

    open spec fn view(&self) -> LinkView {
        LinkView { source: self.source_node_id@, target: self.target_node_id@ }
    }
}

impl NodeLink {
    /// A copy of the edge.
    pub fn duplicate(&self) -> (r: NodeLink)
        ensures
            r@ == self@,
    {
        NodeLink {
            source_node_id: self.source_node_id.clone(),
            target_node_id: self.target_node_id.clone(),
        }
    }
}

impl DeepView for NodeLink {
    type V = LinkView;

    open spec fn deep_view(&self) -> LinkView {
        self@
    }
}

/// The store: node rows in the order in which they were written, the edge
/// table, and the ids of the known users.
pub struct DatabaseService {
    pub(crate) nodes: Vec<Node>,
    pub(crate) links: Vec<NodeLink>,
    pub(crate) users: Vec<String>,
}

impl DatabaseService {
    /// The mathematical value of the store.
    pub open(crate) spec fn view(&self) -> StoreView {
        StoreView {
            nodes: self.nodes.deep_view(),
            links: self.links.deep_view(),
            users: self.users.deep_view(),
        }
    }

    /// The invariant that every operation expects and keeps.
    pub open spec fn wf(&self) -> bool {
        store_wf(self@)
    }

    /// A bootstrapped store: no nodes, no edges, and the default local user.
    pub fn new() -> (db: DatabaseService)
        ensures
            db.wf(),
            db@.nodes.len() == 0,
            db@.links.len() == 0,
            db@.users == seq![DEFAULT_USER_ID@],
    {
        let mut users: Vec<String> = Vec::new();
        users.push(String::from_str(DEFAULT_USER_ID));
        let db = DatabaseService { nodes: Vec::new(), links: Vec::new(), users };
        assert(db@.users =~= seq![DEFAULT_USER_ID@]);
        db
    }

    /// Makes sure that a local user exists: adds the default one to a store
    /// without users and leaves any other store as it is.
    pub fn ensure_default_user(&mut self)
        ensures
            final(self)@.nodes == old(self)@.nodes,
            final(self)@.links == old(self)@.links,
            final(self)@.users == if old(self)@.users.len() == 0 {
                seq![DEFAULT_USER_ID@]
            } else {
                old(self)@.users
            },
    {
        if self.users.len() == 0 {
            self.users.push(String::from_str(DEFAULT_USER_ID));
            assert(self@.users =~= seq![DEFAULT_USER_ID@]);
        }
    }

    /// Bootstraps the store again. On a store that has a user this changes
    /// nothing.
    pub fn init_database(&mut self)
        ensures
            final(self)@.nodes == old(self)@.nodes,
            final(self)@.links == old(self)@.links,
            final(self)@.users == if old(self)@.users.len() == 0 {
                seq![DEFAULT_USER_ID@]
            } else {
                old(self)@.users
            },
    {
        self.ensure_default_user();
    }

    /// The id of the first user.
    pub fn get_default_user_id(&self) -> (r: AppResult<String>)
        ensures
            r is Ok <==> self@.users.len() > 0,
            r matches Ok(id) ==> id@ == self@.users[0],
            r matches Err(e) ==> e matches AppError::DatabaseQueryFailed(m) && m@
                == "Row not found"@,
    {
        if self.users.len() == 0 {
            return Err(AppError::DatabaseQueryFailed(String::from_str("Row not found")));
        }
        Ok(self.users[0].clone())
    }

    /// A copy of the store.
    pub fn duplicate(&self) -> (copy: DatabaseService)
        ensures
            copy@ == self@,
    {
        let mut nodes: Vec<Node> = Vec::new();
        let mut i: usize = 0;
        while i < self.nodes.len()
            invariant
                i <= self.nodes.len(),
                nodes@.len() == i,
                forall|k: int| 0 <= k < i ==> (#[trigger] nodes@[k])@ == self.nodes@[k]@,
            decreases self.nodes.len() - i,
        {
            nodes.push(self.nodes[i].duplicate());
            i = i + 1;
        }
        let mut links: Vec<NodeLink> = Vec::new();
        let mut k: usize = 0;
        while k < self.links.len()
            invariant
                k <= self.links.len(),
                links@.len() == k,
                forall|j: int| 0 <= j < k ==> (#[trigger] links@[j])@ == self.links@[j]@,
            decreases self.links.len() - k,
        {
            links.push(self.links[k].duplicate());
            k = k + 1;
        }
        let mut users: Vec<String> = Vec::new();
        let mut u: usize = 0;
        while u < self.users.len()
            invariant
                u <= self.users.len(),
                users@.len() == u,
                forall|j: int| 0 <= j < u ==> (#[trigger] users@[j])@ == self.users@[j]@,
            decreases self.users.len() - u,
        {
            users.push(self.users[u].clone());
            u = u + 1;
        }
        let copy = DatabaseService { nodes, links, users };
        assert(copy@.nodes =~= self@.nodes);
        assert(copy@.links =~= self@.links);
        assert(copy@.users =~= self@.users);
        copy
    }

    /// Runs a read against the store and hands its outcome on.
    pub fn with_connection<T, F: FnOnce(&DatabaseService) -> AppResult<T>>(
        &self,
        operation: F,
    ) -> (r: AppResult<T>)
        requires
            operation.requires((self,)),
        ensures
            operation.ensures((self,), r),
    {
        operation(self)
    }

    /// Runs an operation as one transaction. The operation works on a copy of
    /// the store and hands the copy back with its outcome. Where the outcome
    /// is a success and the copy is well formed, the copy becomes the store;
    /// otherwise the store stays exactly as it was.
    pub fn with_transaction<T, F: FnOnce(DatabaseService) -> (DatabaseService, AppResult<T>)>(
        &mut self,
        operation: F,
    ) -> (r: AppResult<T>)
        requires
            old(self).wf(),
            forall|work: DatabaseService| work@ == old(self)@ ==> operation.requires((work,)),
        ensures
            final(self).wf(),
            r is Err ==> final(self)@ == old(self)@,
            exists|work: DatabaseService, after: DatabaseService, outcome: AppResult<T>|
                work@ == old(self)@ && operation.ensures((work,), (after, outcome)) && match outcome {
                    Ok(value) => if store_wf(after@) {
                        r == Ok::<T, AppError>(value) && final(self)@ == after@
                    } else {
                        r matches Err(e) && e is ValidationError
                    },
                    Err(e) => r == Err::<T, AppError>(e),
                },
    {
        let work = self.duplicate();
        let (after, outcome) = operation(work);
        match outcome {
            Ok(value) => {
                if after.is_forest() && after.links_are_sound() {
                    *self = after;
                    Ok(value)
                } else {
                    Err(
                        AppError::ValidationError(
                            String::from_str("the transaction left the store inconsistent"),
                        ),
                    )
                }
            },
            Err(e) => Err(e),
        }
    }

    /// The place of the row that carries `id`.
    pub(crate) fn find(&self, id: &str) -> (r: Option<usize>)
        ensures
            r is Some <==> has_node(self@.nodes, id@),
            r matches Some(i) ==> i < self@.nodes.len() && self@.nodes[i as int].id == id@,
    {
        place_in(&self.nodes, id)
    }
}

/// Whether the edges hold the edge.
pub(crate) fn holds_link(links: &Vec<NodeLink>, link: &NodeLink) -> (found: bool)
    ensures
        found == links.deep_view().contains(link@),
{
    let mut j: usize = 0;
    while j < links.len()
        invariant
            j <= links.len(),
            forall|q: int| 0 <= q < j ==> #[trigger] links.deep_view()[q] != link@,
        decreases links.len() - j,
    {
        let other = &links[j];
        assert(links.deep_view()[j as int] == other@);
        if str_eq(link.source_node_id.as_str(), other.source_node_id.as_str()) && str_eq(
            link.target_node_id.as_str(),
            other.target_node_id.as_str(),
        ) {
            assert(links.deep_view()[j as int] == link@);
            return true;
        }
        j = j + 1;
    }
    false
}

/// The first place at which the rows hold a row that carries `id`.
pub(crate) fn place_in(rows: &Vec<Node>, id: &str) -> (r: Option<usize>)
    ensures
        r is Some <==> has_node(rows.deep_view(), id@),
        r matches Some(i) ==> i < rows@.len() && rows.deep_view()[i as int].id == id@,
{
    let mut i: usize = 0;
    while i < rows.len()
        invariant
            i <= rows.len(),
            forall|k: int| 0 <= k < i ==> (#[trigger] rows.deep_view()[k]).id != id@,
        decreases rows.len() - i,
    {
        if str_eq(rows[i].id.as_str(), id) {
            return Some(i);
        }
        i = i + 1;
    }
    None
}

} // verus!
