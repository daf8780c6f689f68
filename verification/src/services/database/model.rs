//! The mathematical model of the store: a sequence of node rows in the order
//! in which they were written, and a sequence of link edges.

use crate::models::node::{NodeView, TreeView};
use crate::ordering::stable_order;
use vstd::prelude::*;

verus! {

/// A directed edge of the link graph.
pub struct LinkView {
    pub source: Seq<char>,
    pub target: Seq<char>,
}

/// The mathematical value of the whole store.
pub struct StoreView {
    pub nodes: Seq<NodeView>,
    pub links: Seq<LinkView>,
    pub users: Seq<Seq<char>>,
}

/// Some row carries the id.
pub open spec fn has_node(nodes: Seq<NodeView>, id: Seq<char>) -> bool {
    exists|i: int| 0 <= i < nodes.len() && (#[trigger] nodes[i]).id == id
}

/// The place of the row that carries the id.
pub open spec fn position(nodes: Seq<NodeView>, id: Seq<char>) -> int {
    choose|i: int| 0 <= i < nodes.len() && (#[trigger] nodes[i]).id == id
}

/// No two rows carry the same id.
pub open spec fn unique_ids(nodes: Seq<NodeView>) -> bool {
    forall|i: int, j: int|
        0 <= i < nodes.len() && 0 <= j < nodes.len() && (#[trigger] nodes[i]).id == (
        #[trigger] nodes[j]).id ==> i == j
}

/// The parent named by the row of `id`; none for a root and for an id that
/// no row carries.
pub open spec fn parent_of(nodes: Seq<NodeView>, id: Seq<char>) -> Option<Seq<char>> {
    if has_node(nodes, id) {
        nodes[position(nodes, id)].parent_id
    } else {
        None
    }
}

/// The node reached from `id` by following `n` parent references: `id` itself
/// for `n == 0`, none once the chain has ended.
pub open spec fn nth_parent(nodes: Seq<NodeView>, id: Seq<char>, n: nat) -> Option<Seq<char>>
    decreases n,
{
    if n == 0 {
        Some(id)
    } else {
        match nth_parent(nodes, id, (n - 1) as nat) {
            Some(a) => parent_of(nodes, a),
            None => None,
        }
    }
}

/// `id` lies in the subtree rooted at `root`: it is `root` or one of its
/// descendants.
pub open spec fn is_within(nodes: Seq<NodeView>, root: Seq<char>, id: Seq<char>) -> bool {
    exists|n: nat| nth_parent(nodes, id, n) == Some(root)
}

/// The chain of parents of `id` ends.
pub open spec fn rooted(nodes: Seq<NodeView>, id: Seq<char>) -> bool {
    exists|n: nat| nth_parent(nodes, id, n) is None
}

/// Every parent reference names a row.
pub open spec fn parents_exist(nodes: Seq<NodeView>) -> bool {
    forall|i: int|
        0 <= i < nodes.len() ==> ((#[trigger] nodes[i]).parent_id matches Some(p) ==> has_node(
            nodes,
            p,
        ))
}

/// No node is its own ancestor.
pub open spec fn acyclic(nodes: Seq<NodeView>) -> bool {
    forall|i: int| 0 <= i < nodes.len() ==> rooted(nodes, (#[trigger] nodes[i]).id)
}

/// The rows form a forest: ids are unique, parents exist, there is no cycle,
/// and no row stores a children list.
pub open spec fn nodes_wf(nodes: Seq<NodeView>) -> bool {
    &&& unique_ids(nodes)
    &&& parents_exist(nodes)
    &&& acyclic(nodes)
    &&& forall|i: int| 0 <= i < nodes.len() ==> (#[trigger] nodes[i]).children.len() == 0
}

/// Every edge joins two rows, and no ordered pair occurs twice.
pub open spec fn links_wf(nodes: Seq<NodeView>, links: Seq<LinkView>) -> bool {
    &&& forall|k: int|
        0 <= k < links.len() ==> has_node(nodes, (#[trigger] links[k]).source) && has_node(
            nodes,
            links[k].target,
        )
    &&& forall|a: int, b: int|
        0 <= a < links.len() && 0 <= b < links.len() && #[trigger] links[a] == #[trigger] links[b]
            ==> a == b
}

/// The invariant of the store.
pub open spec fn store_wf(s: StoreView) -> bool {
    &&& nodes_wf(s.nodes)
    &&& links_wf(s.nodes, s.links)
}

/// With unique ids, the row at place `i` is the row of its id.
pub proof fn lemma_position(nodes: Seq<NodeView>, i: int)
    requires
        unique_ids(nodes),
        0 <= i < nodes.len(),
    ensures
        has_node(nodes, nodes[i].id),
        position(nodes, nodes[i].id) == i,
{
    assert(nodes[i].id == nodes[i].id);
}

/// Following `a + b` parent references is following `a`, then `b`.
pub proof fn lemma_nth_parent_add(nodes: Seq<NodeView>, id: Seq<char>, a: nat, b: nat)
    ensures
        nth_parent(nodes, id, a + b) == match nth_parent(nodes, id, a) {
            Some(x) => nth_parent(nodes, x, b),
            None => None,
        },
    decreases b,
{
    if b > 0 {
        lemma_nth_parent_add(nodes, id, a, (b - 1) as nat);
        assert((a + b - 1) as nat == a + (b - 1) as nat);
    }
}

/// Once the chain has ended it stays ended.
pub proof fn lemma_chain_prefix(nodes: Seq<NodeView>, id: Seq<char>, a: nat, b: nat)
    requires
        a <= b,
        nth_parent(nodes, id, b) is Some,
    ensures
        nth_parent(nodes, id, a) is Some,
    decreases b - a,
{
    if a < b {
        lemma_chain_prefix(nodes, id, a + 1, b);
    }
}

/// A chain that starts at a row never leaves the rows.
pub proof fn lemma_chain_stays_inside(nodes: Seq<NodeView>, id: Seq<char>, n: nat)
    requires
        parents_exist(nodes),
        has_node(nodes, id),
        nth_parent(nodes, id, n) is Some,
    ensures
        has_node(nodes, nth_parent(nodes, id, n).unwrap()),
    decreases n,
{
    if n > 0 {
        let before = nth_parent(nodes, id, (n - 1) as nat);
        assert(before is Some);
        lemma_chain_stays_inside(nodes, id, (n - 1) as nat);
        let a = before.unwrap();
        assert(nodes[position(nodes, a)].parent_id == nth_parent(nodes, id, n));
    }
}

/// A chain that meets the same node twice never ends.
proof fn lemma_cycle_never_ends(nodes: Seq<NodeView>, id: Seq<char>, i: nat, j: nat, m: nat)
    requires
        i < j,
        nth_parent(nodes, id, i) is Some,
        nth_parent(nodes, id, i) == nth_parent(nodes, id, j),
    ensures
        nth_parent(nodes, id, m) is Some,
    decreases m,
{
    if m <= j {
        lemma_chain_prefix(nodes, id, m, j);
    } else {
        let d = (j - i) as nat;
        lemma_cycle_never_ends(nodes, id, i, j, (m - d) as nat);
        lemma_nth_parent_add(nodes, id, j, (m - j) as nat);
        lemma_nth_parent_add(nodes, id, i, (m - j) as nat);
        assert(i + (m - j) as nat == (m - d) as nat);
        assert(j + (m - j) as nat == m);
    }
}

/// Among more than `m` numbers below `m`, two are equal.
proof fn lemma_pigeonhole(s: Seq<int>, m: nat)
    requires
        s.len() > m,
        forall|k: int| 0 <= k < s.len() ==> 0 <= #[trigger] s[k] < m,
    ensures
        exists|i: int, j: int| 0 <= i < j < s.len() && s[i] == s[j],
{
    if s.no_duplicates() {
        s.unique_seq_to_set();
        vstd::set_lib::lemma_int_range(0, m as int);
        assert(s.to_set().subset_of(vstd::set_lib::set_int_range(0, m as int))) by {
            assert forall|x: int| s.to_set().contains(x) implies vstd::set_lib::set_int_range(
                0,
                m as int,
            ).contains(x) by {
                let k = choose|k: int| 0 <= k < s.len() && s[k] == x;
                assert(0 <= s[k] < m);
            }
        }
        vstd::set_lib::lemma_len_subset(s.to_set(), vstd::set_lib::set_int_range(0, m as int));
        assert(false);
    } else {
        let (i, j) = choose|i: int, j: int|
            0 <= i < s.len() && 0 <= j < s.len() && i != j && s[i] == s[j];
        if i < j {
            assert(0 <= i < j < s.len() && s[i] == s[j]);
        } else {
            assert(0 <= j < i < s.len() && s[j] == s[i]);
        }
    }
}

/// In a forest the chain of parents of a row ends within as many steps as
/// there are rows.
pub proof fn lemma_chain_bounded(nodes: Seq<NodeView>, id: Seq<char>)
    requires
        unique_ids(nodes),
        parents_exist(nodes),
        has_node(nodes, id),
        rooted(nodes, id),
    ensures
        nth_parent(nodes, id, nodes.len()) is None,
{
    let len = nodes.len();
    if nth_parent(nodes, id, len) is Some {
        let places = Seq::new(
            len + 1,
            |k: int| position(nodes, nth_parent(nodes, id, k as nat).unwrap()),
        );
        assert forall|k: int| 0 <= k < places.len() implies 0 <= #[trigger] places[k] < len by {
            lemma_chain_prefix(nodes, id, k as nat, len);
            lemma_chain_stays_inside(nodes, id, k as nat);
        }
        lemma_pigeonhole(places, len);
        let (i, j) = choose|i: int, j: int| 0 <= i < j < places.len() && places[i] == places[j];
        lemma_chain_prefix(nodes, id, i as nat, len);
        lemma_chain_prefix(nodes, id, j as nat, len);
        lemma_chain_stays_inside(nodes, id, i as nat);
        lemma_chain_stays_inside(nodes, id, j as nat);
        let a = nth_parent(nodes, id, i as nat).unwrap();
        let b = nth_parent(nodes, id, j as nat).unwrap();
        assert(nodes[places[i]].id == a);
        assert(nodes[places[j]].id == b);
        let n = choose|n: nat| nth_parent(nodes, id, n) is None;
        lemma_cycle_never_ends(nodes, id, i as nat, j as nat, n);
    }
}

/// The orders in which a query can list rows.
#[derive(Debug, PartialEq, Eq, Clone, Copy, Structural)]
pub enum Listing {
    /// By `order`, then by `created_at`.
    Siblings,
    /// By `created_at`, newest first.
    NewestCreated,
    /// By `updated_at`, newest first.
    NewestUpdated,
}

/// The key by which a listing orders a row.
pub open spec fn sort_key(by: Listing, row: NodeView) -> (i64, i64) {
    match by {
        Listing::Siblings => (row.order as i64, row.created_at),
        Listing::NewestCreated => ((-1 - row.created_at) as i64, 0i64),
        Listing::NewestUpdated => ((-1 - row.updated_at) as i64, 0i64),
    }
}

/// The keys of the rows at the places `at`.
pub open spec fn keys_at(nodes: Seq<NodeView>, at: Seq<int>, by: Listing) -> Seq<(i64, i64)> {
    Seq::new(at.len(), |k: int| sort_key(by, nodes[at[k]]))
}

/// The places `at` in the order of the listing; rows with equal keys stay in
/// the order of `at`.
pub open spec fn listed(nodes: Seq<NodeView>, at: Seq<int>, by: Listing) -> Seq<int> {
    Seq::new(at.len(), |k: int| at[stable_order(keys_at(nodes, at, by), at.len())[k]])
}

/// The places among the first `n` rows whose row satisfies `pred`, ascending.
pub open spec fn places_where(nodes: Seq<NodeView>, pred: spec_fn(NodeView) -> bool, n: nat) -> Seq<
    int,
>
    decreases n,
{
    if n == 0 {
        Seq::empty()
    } else {
        let rest = places_where(nodes, pred, (n - 1) as nat);
        if pred(nodes[n - 1]) {
            rest.push(n - 1)
        } else {
            rest
        }
    }
}

/// The rows that name `id` as their parent.
pub open spec fn is_child_of(id: Seq<char>) -> spec_fn(NodeView) -> bool {
    |row: NodeView| row.parent_id == Some(id)
}

/// The ids of the rows at the places `at`.
pub open spec fn ids_at(nodes: Seq<NodeView>, at: Seq<int>) -> Seq<Seq<char>> {
    Seq::new(at.len(), |k: int| nodes[at[k]].id)
}

/// The ids of the children of `id`, ordered by `order` and then `created_at`.
pub open spec fn children_of(nodes: Seq<NodeView>, id: Seq<char>) -> Seq<Seq<char>> {
    ids_at(
        nodes,
        listed(nodes, places_where(nodes, is_child_of(id), nodes.len()), Listing::Siblings),
    )
}

/// The row at place `i` as a read returns it: with its children list derived.
pub open spec fn hydrated(nodes: Seq<NodeView>, i: int) -> NodeView {
    NodeView { children: children_of(nodes, nodes[i].id), ..nodes[i] }
}

/// The places that `places_where` yields are places of rows that satisfy the
/// predicate, in ascending order, and none is left out.
pub proof fn lemma_places_where(nodes: Seq<NodeView>, pred: spec_fn(NodeView) -> bool, n: nat)
    requires
        n <= nodes.len(),
    ensures
        places_where(nodes, pred, n).len() <= n,
        forall|k: int|
            0 <= k < places_where(nodes, pred, n).len() ==> {
                let p = #[trigger] places_where(nodes, pred, n)[k];
                0 <= p < n && pred(nodes[p])
            },
        forall|a: int, b: int|
            0 <= a < b < places_where(nodes, pred, n).len() ==> places_where(nodes, pred, n)[a]
                < places_where(nodes, pred, n)[b],
        forall|p: int|
            0 <= p < n && pred(nodes[p]) ==> #[trigger] places_where(nodes, pred, n).contains(p),
    decreases n,
{
    if n > 0 {
        let rest = places_where(nodes, pred, (n - 1) as nat);
        lemma_places_where(nodes, pred, (n - 1) as nat);
        let out = places_where(nodes, pred, n);
        assert forall|p: int| 0 <= p < n && pred(nodes[p]) implies out.contains(p) by {
            if p < n - 1 {
                assert(rest.contains(p));
                let k = choose|k: int| 0 <= k < rest.len() && rest[k] == p;
                assert(out[k] == p);
            } else {
                assert(out[rest.len() as int] == p);
            }
        }
    }
}

/// Where two stores agree on the parent of every id of a set that is closed
/// under taking parents, they agree on every chain that starts in the set.
pub proof fn lemma_chain_agrees(
    old_nodes: Seq<NodeView>,
    new_nodes: Seq<NodeView>,
    keep: spec_fn(Seq<char>) -> bool,
    id: Seq<char>,
    n: nat,
)
    requires
        forall|a: Seq<char>| #[trigger]
            keep(a) ==> parent_of(new_nodes, a) == parent_of(old_nodes, a) && (parent_of(
                old_nodes,
                a,
            ) matches Some(p) ==> keep(p)),
        keep(id),
    ensures
        nth_parent(new_nodes, id, n) == nth_parent(old_nodes, id, n),
        nth_parent(old_nodes, id, n) matches Some(a) ==> keep(a),
    decreases n,
{
    if n > 0 {
        lemma_chain_agrees(old_nodes, new_nodes, keep, id, (n - 1) as nat);
    }
}

/// A node whose parent's chain ends has a chain that ends.
pub proof fn lemma_rooted_step(nodes: Seq<NodeView>, id: Seq<char>)
    requires
        parent_of(nodes, id) matches Some(p) ==> rooted(nodes, p),
    ensures
        rooted(nodes, id),
{
    assert(nth_parent(nodes, id, 0) == Some(id));
    match parent_of(nodes, id) {
        Some(p) => {
            let m = choose|m: nat| nth_parent(nodes, p, m) is None;
            lemma_nth_parent_add(nodes, id, 1, m);
            assert(nth_parent(nodes, id, 1) == Some(p));
            assert(nth_parent(nodes, id, 1 + m) is None);
        },
        None => {
            assert(nth_parent(nodes, id, 1) is None);
        },
    }
}

/// A row whose id no row names as parent has no children.
pub proof fn lemma_no_children(nodes: Seq<NodeView>, id: Seq<char>)
    requires
        forall|i: int| 0 <= i < nodes.len() ==> (#[trigger] nodes[i]).parent_id != Some(id),
    ensures
        children_of(nodes, id) == Seq::<Seq<char>>::empty(),
{
    lemma_places_where(nodes, is_child_of(id), nodes.len());
    let places = places_where(nodes, is_child_of(id), nodes.len());
    if places.len() > 0 {
        let p = places[0];
        assert(is_child_of(id)(nodes[p]));
    }
    assert(children_of(nodes, id) =~= Seq::<Seq<char>>::empty());
}

/// Writing a row with a fresh id below an existing parent, or as a root,
/// keeps the forest and touches no other row; the new row has no children.
pub proof fn lemma_push_keeps_forest(nodes: Seq<NodeView>, row: NodeView)
    requires
        nodes_wf(nodes),
        !has_node(nodes, row.id),
        row.children.len() == 0,
        row.parent_id matches Some(p) ==> has_node(nodes, p),
    ensures
        nodes_wf(nodes.push(row)),
        forall|id: Seq<char>| has_node(nodes, id) ==> has_node(nodes.push(row), id),
        has_node(nodes.push(row), row.id),
        position(nodes.push(row), row.id) == nodes.len(),
        hydrated(nodes.push(row), nodes.len() as int) == row,
{
    let after = nodes.push(row);
    assert forall|id: Seq<char>| has_node(nodes, id) implies has_node(after, id) && position(
        after,
        id,
    ) == position(nodes, id) by {
        let i = position(nodes, id);
        assert(after[i].id == id);
        let j = position(after, id);
        if j == nodes.len() {
            assert(false);
        } else {
            assert(nodes[j].id == id);
        }
    }
    assert(after[nodes.len() as int].id == row.id);
    assert(unique_ids(after)) by {
        assert forall|i: int, j: int|
            0 <= i < after.len() && 0 <= j < after.len() && (#[trigger] after[i]).id == (
            #[trigger] after[j]).id implies i == j by {
            if i < nodes.len() && j < nodes.len() {
                assert(nodes[i].id == nodes[j].id);
            } else if i < nodes.len() {
                assert(nodes[i].id == row.id);
            } else if j < nodes.len() {
                assert(nodes[j].id == row.id);
            }
        }
    }
    lemma_position(after, nodes.len() as int);
    assert(parents_exist(after)) by {
        assert forall|i: int| 0 <= i < after.len() implies ((#[trigger] after[i]).parent_id matches Some(
            p,
        ) ==> has_node(after, p)) by {
            if i < nodes.len() {
                assert(after[i] == nodes[i]);
            }
        }
    }
    let keep = |a: Seq<char>| has_node(nodes, a);
    assert forall|a: Seq<char>| #[trigger] keep(a) implies parent_of(after, a) == parent_of(
        nodes,
        a,
    ) && (parent_of(nodes, a) matches Some(p) ==> keep(p)) by {
        let i = position(nodes, a);
        assert(after[i] == nodes[i]);
    }
    assert(acyclic(after)) by {
        assert forall|i: int| 0 <= i < after.len() implies rooted(
            after,
            (#[trigger] after[i]).id,
        ) by {
            if i < nodes.len() {
                let id = nodes[i].id;
                assert(after[i] == nodes[i]);
                let n = choose|n: nat| nth_parent(nodes, id, n) is None;
                lemma_chain_agrees(nodes, after, keep, id, n);
            } else {
                match row.parent_id {
                    Some(p) => {
                        let j = position(nodes, p);
                        assert(rooted(nodes, nodes[j].id));
                        let m = choose|m: nat| nth_parent(nodes, p, m) is None;
                        lemma_chain_agrees(nodes, after, keep, p, m);
                    },
                    None => {},
                }
                lemma_rooted_step(after, row.id);
            }
        }
    }
    assert forall|i: int| 0 <= i < after.len() implies (#[trigger] after[i]).parent_id != Some(
        row.id,
    ) by {
        if i < nodes.len() {
            assert(after[i] == nodes[i]);
        }
    }
    lemma_no_children(after, row.id);
    assert(row.children =~= Seq::<Seq<char>>::empty());
}

/// Replacing a row by one with the same id leaves every id where it was.
pub proof fn lemma_update_keeps_ids(nodes: Seq<NodeView>, i: int, row: NodeView)
    requires
        unique_ids(nodes),
        0 <= i < nodes.len(),
        row.id == nodes[i].id,
    ensures
        unique_ids(nodes.update(i, row)),
        forall|id: Seq<char>| has_node(nodes.update(i, row), id) == has_node(nodes, id),
        forall|id: Seq<char>|
            has_node(nodes, id) ==> position(nodes.update(i, row), id) == position(nodes, id),
        forall|id: Seq<char>|
            id != row.id ==> parent_of(nodes.update(i, row), id) == parent_of(nodes, id),
        parent_of(nodes.update(i, row), row.id) == row.parent_id,
{
    let after = nodes.update(i, row);
    assert forall|a: int, b: int|
        0 <= a < after.len() && 0 <= b < after.len() && (#[trigger] after[a]).id == (
        #[trigger] after[b]).id implies a == b by {
        assert(after[a].id == nodes[a].id);
        assert(after[b].id == nodes[b].id);
    }
    assert forall|id: Seq<char>| has_node(after, id) == has_node(nodes, id) by {
        if has_node(nodes, id) {
            let k = position(nodes, id);
            assert(after[k].id == id);
        }
        if has_node(after, id) {
            let k = position(after, id);
            assert(nodes[k].id == id);
        }
    }
    assert forall|id: Seq<char>| has_node(nodes, id) implies position(after, id) == position(
        nodes,
        id,
    ) by {
        let k = position(nodes, id);
        let k2 = position(after, id);
        assert(after[k].id == id);
        assert(after[k2].id == id);
    }
    assert forall|id: Seq<char>| id != row.id implies parent_of(after, id) == parent_of(
        nodes,
        id,
    ) by {
        if has_node(nodes, id) {
            let k = position(nodes, id);
            assert(nodes[k].id == id);
            assert(k != i);
        }
    }
    lemma_position(nodes, i);
    assert(after[i].id == row.id);
}

/// Rewriting a row without touching its id or its parent keeps the forest.
pub proof fn lemma_rewrite_keeps_forest(nodes: Seq<NodeView>, i: int, row: NodeView)
    requires
        nodes_wf(nodes),
        0 <= i < nodes.len(),
        row.id == nodes[i].id,
        row.parent_id == nodes[i].parent_id,
        row.children.len() == 0,
    ensures
        nodes_wf(nodes.update(i, row)),
{
    let after = nodes.update(i, row);
    lemma_update_keeps_ids(nodes, i, row);
    lemma_position(nodes, i);
    assert(parents_exist(after)) by {
        assert forall|k: int| 0 <= k < after.len() implies ((#[trigger] after[k]).parent_id matches Some(
            p,
        ) ==> has_node(after, p)) by {
            assert(after[k].parent_id == nodes[k].parent_id);
        }
    }
    let keep = |a: Seq<char>| true;
    assert(acyclic(after)) by {
        assert forall|k: int| 0 <= k < after.len() implies rooted(
            after,
            (#[trigger] after[k]).id,
        ) by {
            let id = nodes[k].id;
            assert(after[k].id == id);
            let n = choose|n: nat| nth_parent(nodes, id, n) is None;
            lemma_chain_agrees(nodes, after, keep, id, n);
        }
    }
}

/// The parent of a node of a subtree lies in the subtree, unless the node is
/// its root.
pub proof fn lemma_within_step(nodes: Seq<NodeView>, root: Seq<char>, id: Seq<char>)
    requires
        parent_of(nodes, id) matches Some(p) && is_within(nodes, root, p),
    ensures
        is_within(nodes, root, id),
{
    let p = parent_of(nodes, id).unwrap();
    let k = choose|k: nat| nth_parent(nodes, p, k) == Some(root);
    assert(nth_parent(nodes, id, 0) == Some(id));
    assert(nth_parent(nodes, id, 1) == Some(p));
    lemma_nth_parent_add(nodes, id, 1, k);
}

/// After a row was given another parent whose chain ends, every chain that
/// ended before still ends.
proof fn lemma_rooted_after_reparent(
    nodes: Seq<NodeView>,
    after: Seq<NodeView>,
    moved: Seq<char>,
    y: Seq<char>,
    n: nat,
)
    requires
        forall|a: Seq<char>| a != moved ==> parent_of(after, a) == parent_of(nodes, a),
        parent_of(after, moved) matches Some(q) ==> rooted(after, q),
        nth_parent(nodes, y, n) is None,
    ensures
        rooted(after, y),
    decreases n,
{
    assert(nth_parent(nodes, y, 0) == Some(y));
    if n > 0 {
        if y != moved {
            lemma_nth_parent_add(nodes, y, 1, (n - 1) as nat);
            assert(nth_parent(nodes, y, 1) == parent_of(nodes, y));
            match parent_of(nodes, y) {
                Some(p) => {
                    lemma_rooted_after_reparent(nodes, after, moved, p, (n - 1) as nat);
                },
                None => {},
            }
        }
        lemma_rooted_step(after, y);
    }
}

/// Giving a row a new parent keeps the forest, provided that the parent
/// exists and does not lie in the subtree of the row. Making the row a root
/// always keeps it.
pub proof fn lemma_reparent_keeps_forest(nodes: Seq<NodeView>, i: int, row: NodeView)
    requires
        nodes_wf(nodes),
        0 <= i < nodes.len(),
        row.id == nodes[i].id,
        row.children.len() == 0,
        row.parent_id matches Some(q) ==> has_node(nodes, q) && !is_within(nodes, row.id, q),
    ensures
        nodes_wf(nodes.update(i, row)),
{
    let after = nodes.update(i, row);
    let moved = row.id;
    lemma_update_keeps_ids(nodes, i, row);
    lemma_position(nodes, i);
    assert(parents_exist(after)) by {
        assert forall|k: int| 0 <= k < after.len() implies ((#[trigger] after[k]).parent_id matches Some(
            p,
        ) ==> has_node(after, p)) by {
            if k != i {
                assert(after[k].parent_id == nodes[k].parent_id);
            }
        }
    }
    match row.parent_id {
        Some(q) => {
            let keep = |a: Seq<char>| !is_within(nodes, moved, a);
            assert forall|a: Seq<char>| #[trigger] keep(a) implies parent_of(after, a)
                == parent_of(nodes, a) && (parent_of(nodes, a) matches Some(p) ==> keep(p)) by {
                assert(nth_parent(nodes, moved, 0) == Some(moved));
                match parent_of(nodes, a) {
                    Some(p) => {
                        if is_within(nodes, moved, p) {
                            lemma_within_step(nodes, moved, a);
                        }
                    },
                    None => {},
                }
            }
            let j = position(nodes, q);
            assert(rooted(nodes, nodes[j].id));
            let m = choose|m: nat| nth_parent(nodes, q, m) is None;
            lemma_chain_agrees(nodes, after, keep, q, m);
            assert(rooted(after, q));
        },
        None => {},
    }
    assert(acyclic(after)) by {
        assert forall|k: int| 0 <= k < after.len() implies rooted(
            after,
            (#[trigger] after[k]).id,
        ) by {
            let id = nodes[k].id;
            assert(after[k].id == id);
            let n = choose|n: nat| nth_parent(nodes, id, n) is None;
            lemma_rooted_after_reparent(nodes, after, moved, id, n);
        }
    }
}

/// What filtering keeps: every kept item stood in the sequence and satisfies
/// the predicate, no item that satisfies it is lost, and items that differed
/// in their key still do.
pub proof fn lemma_filter_facts<A, K>(s: Seq<A>, pred: spec_fn(A) -> bool, key: spec_fn(A) -> K)
    ensures
        forall|k: int|
            0 <= k < s.filter(pred).len() ==> pred(#[trigger] s.filter(pred)[k]) && s.contains(
                s.filter(pred)[k],
            ),
        forall|i: int| 0 <= i < s.len() && pred(s[i]) ==> s.filter(pred).contains(#[trigger] s[i]),
        (forall|i: int, j: int| 0 <= i < j < s.len() ==> key(#[trigger] s[i]) != key(#[trigger] s[j]))
            ==> (forall|a: int, b: int|
            0 <= a < b < s.filter(pred).len() ==> key(#[trigger] s.filter(pred)[a]) != key(
                #[trigger] s.filter(pred)[b],
            )),
    decreases s.len(),
{
    let out = s.filter(pred);
    if s.len() == 0 {
        reveal(Seq::filter);
    } else {
        let front = s.drop_last();
        let last = s.last();
        assert(s =~= front.push(last));
        front.lemma_filter_push(last, pred);
        lemma_filter_facts(front, pred, key);
        let inner = front.filter(pred);
        assert forall|k: int| 0 <= k < out.len() implies pred(#[trigger] out[k]) && s.contains(
            out[k],
        ) by {
            if k < inner.len() {
                assert(out[k] == inner[k]);
                let w = choose|w: int| 0 <= w < front.len() && front[w] == inner[k];
                assert(s[w] == out[k]);
            } else {
                assert(s[s.len() - 1] == out[k]);
            }
        }
        assert forall|i: int| 0 <= i < s.len() && pred(s[i]) implies out.contains(
            #[trigger] s[i],
        ) by {
            if i < front.len() {
                assert(front[i] == s[i]);
                assert(inner.contains(front[i]));
                let w = choose|w: int| 0 <= w < inner.len() && inner[w] == s[i];
                assert(out[w] == s[i]);
            } else {
                assert(out[inner.len() as int] == s[i]);
            }
        }
        if forall|i: int, j: int| 0 <= i < j < s.len() ==> key(#[trigger] s[i]) != key(#[trigger] s[j]) {
            assert forall|i: int, j: int| 0 <= i < j < front.len() implies key(#[trigger] front[i])
                != key(#[trigger] front[j]) by {
                assert(key(s[i]) != key(s[j]));
            }
            assert forall|a: int, b: int| 0 <= a < b < out.len() implies key(#[trigger] out[a])
                != key(#[trigger] out[b]) by {
                if b < inner.len() {
                    assert(key(inner[a]) != key(inner[b]));
                } else {
                    assert(out[a] == inner[a]);
                    let w = choose|w: int| 0 <= w < front.len() && front[w] == inner[a];
                    assert(key(s[w]) != key(s[s.len() - 1]));
                }
            }
        }
    }
}

/// A sequence is as long as what a predicate keeps of it and what it drops.
pub proof fn lemma_filter_splits<A>(s: Seq<A>, pred: spec_fn(A) -> bool)
    ensures
        s.filter(pred).len() + s.filter(|x: A| !pred(x)).len() == s.len(),
    decreases s.len(),
{
    let neg = |x: A| !pred(x);
    if s.len() == 0 {
        reveal(Seq::filter);
    } else {
        let front = s.drop_last();
        assert(s =~= front.push(s.last()));
        front.lemma_filter_push(s.last(), pred);
        front.lemma_filter_push(s.last(), neg);
        lemma_filter_splits(front, pred);
    }
}

/// The rows that lie outside the subtree of `id`.
pub open spec fn outside(nodes: Seq<NodeView>, id: Seq<char>) -> spec_fn(NodeView) -> bool {
    |row: NodeView| !is_within(nodes, id, row.id)
}

/// The edges that touch no node of the subtree of `id`.
pub open spec fn link_outside(nodes: Seq<NodeView>, id: Seq<char>) -> spec_fn(LinkView) -> bool {
    |link: LinkView| !is_within(nodes, id, link.source) && !is_within(nodes, id, link.target)
}

/// The store without the subtree of `id` and without the edges that touched
/// it.
pub open spec fn without_subtree(s: StoreView, id: Seq<char>) -> StoreView {
    StoreView {
        nodes: s.nodes.filter(outside(s.nodes, id)),
        links: s.links.filter(link_outside(s.nodes, id)),
        users: s.users,
    }
}

/// The number of rows in the subtree of `id`, the node itself included.
pub open spec fn subtree_size(nodes: Seq<NodeView>, id: Seq<char>) -> nat {
    nodes.filter(|row: NodeView| !outside(nodes, id)(row)).len()
}

/// Removing a subtree keeps the forest; the rows that remain are those
/// outside the subtree.
pub proof fn lemma_delete_keeps_forest(s: StoreView, id: Seq<char>)
    requires
        store_wf(s),
    ensures
        store_wf(without_subtree(s, id)),
        forall|a: Seq<char>|
            has_node(without_subtree(s, id).nodes, a) <==> has_node(s.nodes, a) && !is_within(
                s.nodes,
                id,
                a,
            ),
        forall|a: Seq<char>|
            has_node(without_subtree(s, id).nodes, a) ==> without_subtree(s, id).nodes[position(
                without_subtree(s, id).nodes,
                a,
            )] == s.nodes[position(s.nodes, a)],
{
    let nodes = s.nodes;
    let pred = outside(nodes, id);
    let after = nodes.filter(pred);
    let key = |row: NodeView| row.id;
    lemma_filter_facts(nodes, pred, key);
    assert(unique_ids(after)) by {
        assert forall|i: int, j: int|
            0 <= i < after.len() && 0 <= j < after.len() && (#[trigger] after[i]).id == (
            #[trigger] after[j]).id implies i == j by {
            if i < j {
                assert(key(after[i]) != key(after[j]));
            } else if j < i {
                assert(key(after[j]) != key(after[i]));
            }
        }
    }
    assert forall|a: Seq<char>| has_node(after, a) <==> has_node(nodes, a) && !is_within(
        nodes,
        id,
        a,
    ) by {
        if has_node(after, a) {
            let k = position(after, a);
            assert(pred(after[k]) && nodes.contains(after[k]));
            let w = choose|w: int| 0 <= w < nodes.len() && nodes[w] == after[k];
            assert(nodes[w].id == a);
        }
        if has_node(nodes, a) && !is_within(nodes, id, a) {
            let w = position(nodes, a);
            assert(pred(nodes[w]));
            assert(after.contains(nodes[w]));
            let k = choose|k: int| 0 <= k < after.len() && after[k] == nodes[w];
            assert(after[k].id == a);
        }
    }
    assert forall|a: Seq<char>| has_node(after, a) implies after[position(after, a)]
        == nodes[position(nodes, a)] by {
        let k = position(after, a);
        assert(nodes.contains(after[k]));
        let w = choose|w: int| 0 <= w < nodes.len() && nodes[w] == after[k];
        assert(nodes[w].id == a);
        assert(nodes[position(nodes, a)].id == a);
    }
    let keep = |a: Seq<char>| !is_within(nodes, id, a);
    assert forall|a: Seq<char>| #[trigger] keep(a) implies parent_of(after, a) == parent_of(
        nodes,
        a,
    ) && (parent_of(nodes, a) matches Some(p) ==> keep(p)) by {
        match parent_of(nodes, a) {
            Some(p) => {
                if is_within(nodes, id, p) {
                    lemma_within_step(nodes, id, a);
                }
            },
            None => {},
        }
    }
    assert(parents_exist(after)) by {
        assert forall|k: int| 0 <= k < after.len() implies ((#[trigger] after[k]).parent_id matches Some(
            p,
        ) ==> has_node(after, p)) by {
            let a = after[k].id;
            assert(has_node(after, a));
            lemma_position(after, k);
            assert(after[k] == nodes[position(nodes, a)]);
            assert(keep(a));
            match after[k].parent_id {
                Some(p) => {
                    assert(parent_of(nodes, a) == Some(p));
                    assert(keep(p));
                },
                None => {},
            }
        }
    }
    assert(acyclic(after)) by {
        assert forall|k: int| 0 <= k < after.len() implies rooted(
            after,
            (#[trigger] after[k]).id,
        ) by {
            let a = after[k].id;
            assert(has_node(after, a));
            let w = position(nodes, a);
            assert(rooted(nodes, nodes[w].id));
            let n = choose|n: nat| nth_parent(nodes, a, n) is None;
            lemma_chain_agrees(nodes, after, keep, a, n);
        }
    }
    assert forall|k: int| 0 <= k < after.len() implies (#[trigger] after[k]).children.len()
        == 0 by {
        assert(nodes.contains(after[k]));
        let w = choose|w: int| 0 <= w < nodes.len() && nodes[w] == after[k];
        assert(nodes[w].children.len() == 0);
    }
    let links = s.links;
    let lpred = link_outside(nodes, id);
    let left = links.filter(lpred);
    let whole = |link: LinkView| link;
    lemma_filter_facts(links, lpred, whole);
    assert(links_wf(after, left)) by {
        assert forall|k: int| 0 <= k < left.len() implies has_node(
            after,
            (#[trigger] left[k]).source,
        ) && has_node(after, left[k].target) by {
            assert(lpred(left[k]) && links.contains(left[k]));
            let w = choose|w: int| 0 <= w < links.len() && links[w] == left[k];
            assert(has_node(nodes, links[w].source) && has_node(nodes, links[w].target));
        }
        assert forall|a: int, b: int|
            0 <= a < left.len() && 0 <= b < left.len() && #[trigger] left[a]
                == #[trigger] left[b] implies a == b by {
            if a < b {
                assert(whole(left[a]) != whole(left[b]));
            } else if b < a {
                assert(whole(left[b]) != whole(left[a]));
            }
        }
    }
}

/// The rows without a parent.
pub open spec fn is_root() -> spec_fn(NodeView) -> bool {
    |row: NodeView| row.parent_id is None
}

/// Every row.
pub open spec fn any_row() -> spec_fn(NodeView) -> bool {
    |row: NodeView| true
}

/// The rows at the places `at`, each as a read returns it.
pub open spec fn hydrated_at(nodes: Seq<NodeView>, at: Seq<int>) -> Seq<NodeView> {
    Seq::new(at.len(), |k: int| hydrated(nodes, at[k]))
}

/// The rows that satisfy `pred`, in the order of the listing `by`, each as a
/// read returns it.
pub open spec fn selection(
    nodes: Seq<NodeView>,
    pred: spec_fn(NodeView) -> bool,
    by: Listing,
) -> Seq<NodeView> {
    hydrated_at(nodes, listed(nodes, places_where(nodes, pred, nodes.len()), by))
}

/// The tree below the row at place `i`, cut off `fuel` levels down. In a
/// forest, as many levels as there are rows reach every descendant.
pub open spec fn tree_at(nodes: Seq<NodeView>, i: int, fuel: nat) -> TreeView
    decreases fuel,
{
    let below = listed(
        nodes,
        places_where(nodes, is_child_of(nodes[i].id), nodes.len()),
        Listing::Siblings,
    );
    TreeView {
        node: hydrated(nodes, i),
        child_nodes: if fuel == 0 {
            Seq::empty()
        } else {
            Seq::new(below.len(), |k: int| tree_at(nodes, below[k], (fuel - 1) as nat))
        },
    }
}

/// The first place among the first `n` rows whose row satisfies `pred`.
pub open spec fn first_where(nodes: Seq<NodeView>, pred: spec_fn(NodeView) -> bool, n: nat) -> Option<
    int,
>
    decreases n,
{
    if n == 0 {
        None
    } else {
        match first_where(nodes, pred, (n - 1) as nat) {
            Some(i) => Some(i),
            None => if pred(nodes[n - 1]) {
                Some(n - 1)
            } else {
                None
            },
        }
    }
}

/// What `first_where` finds satisfies the predicate and no earlier row does;
/// it finds nothing only where no row satisfies it.
pub proof fn lemma_first_where(nodes: Seq<NodeView>, pred: spec_fn(NodeView) -> bool, n: nat)
    ensures
        match first_where(nodes, pred, n) {
            Some(i) => 0 <= i < n && pred(nodes[i]) && forall|j: int|
                0 <= j < i ==> !pred(#[trigger] nodes[j]),
            None => forall|j: int| 0 <= j < n ==> !pred(#[trigger] nodes[j]),
        },
    decreases n,
{
    if n > 0 {
        lemma_first_where(nodes, pred, (n - 1) as nat);
    }
}

/// A find among the first rows is a find among more rows.
pub proof fn lemma_first_where_stays(
    nodes: Seq<NodeView>,
    pred: spec_fn(NodeView) -> bool,
    n: nat,
    m: nat,
)
    requires
        n <= m,
        first_where(nodes, pred, n) is Some,
    ensures
        first_where(nodes, pred, m) == first_where(nodes, pred, n),
    decreases m - n,
{
    if n < m {
        lemma_first_where_stays(nodes, pred, n, (m - 1) as nat);
    }
}

/// Filtering keeps a sequence as it is where every item satisfies the
/// predicate, and keeps nothing where none does.
pub proof fn lemma_filter_all_or_none<A>(s: Seq<A>, pred: spec_fn(A) -> bool)
    ensures
        (forall|i: int| 0 <= i < s.len() ==> pred(#[trigger] s[i])) ==> s.filter(pred) == s,
        (forall|i: int| 0 <= i < s.len() ==> !pred(#[trigger] s[i])) ==> s.filter(pred).len() == 0,
    decreases s.len(),
{
    if s.len() == 0 {
        reveal(Seq::filter);
    } else {
        let front = s.drop_last();
        assert(s =~= front.push(s.last()));
        front.lemma_filter_push(s.last(), pred);
        lemma_filter_all_or_none(front, pred);
        if forall|i: int| 0 <= i < s.len() ==> pred(#[trigger] s[i]) {
            assert forall|i: int| 0 <= i < front.len() implies pred(#[trigger] front[i]) by {
                assert(front[i] == s[i]);
            }
            assert(pred(s[s.len() - 1]));
        }
        if forall|i: int| 0 <= i < s.len() ==> !pred(#[trigger] s[i]) {
            assert forall|i: int| 0 <= i < front.len() implies !pred(#[trigger] front[i]) by {
                assert(front[i] == s[i]);
            }
            assert(!pred(s[s.len() - 1]));
        }
    }
}

} // verus!
