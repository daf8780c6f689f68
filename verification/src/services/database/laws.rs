//! What holds of the node repository as a whole, stated over the model that
//! the contracts of its operations use.

use crate::models::node::{CreateNodeRequest, NodeView, UpdateNodeRequest};
use crate::services::database::model::{
    first_where, has_node, hydrated, is_child_of, is_within, keys_at, lemma_chain_bounded,
    lemma_chain_prefix, lemma_delete_keeps_forest, lemma_filter_facts, lemma_filter_splits,
    lemma_first_where, lemma_nth_parent_add, lemma_places_where, lemma_position,
    lemma_push_keeps_forest, lemma_update_keeps_ids, link_outside, listed, nodes_wf,
    nth_parent, outside, places_where, position, sort_key, store_wf, subtree_size, tree_at,
    without_subtree, LinkView, Listing, StoreView,
};
use crate::services::database::nodes::{
    is_daily_note, is_daily_request, moved_row, new_row, updated_row, with_row, with_row_at,
    write_refusal, Refusal, JOURNAL_TAG,
};
use crate::ordering::{
    lemma_stable_order_permutes, lemma_stable_order_sorted, precedes, stable_order,
};
use vstd::prelude::*;

verus! {

/// Round trip: a read of a node right after its creation yields the node that
/// the creation returned, with an empty children list.
pub proof fn law_create_then_get(s: StoreView, id: Seq<char>, now: i64, request: CreateNodeRequest)
    requires
        store_wf(s),
        !has_node(s.nodes, id),
        request.parent_id matches Some(p) ==> has_node(s.nodes, p@),
    ensures
        has_node(with_row(s, new_row(id, now, request)).nodes, id),
        hydrated(
            with_row(s, new_row(id, now, request)).nodes,
            position(with_row(s, new_row(id, now, request)).nodes, id),
        ) == new_row(id, now, request),
        new_row(id, now, request).children.len() == 0,
{
    lemma_push_keeps_forest(s.nodes, new_row(id, now, request));
}

/// Version monotonicity: an update that is not refused raises the version of
/// the node by exactly one and stamps it with the time of the update, whatever
/// the request carries, an empty request included. The stamp is later than
/// the one before whenever the clock has moved on.
pub proof fn law_update_bumps_version(
    s: StoreView,
    id: Seq<char>,
    request: UpdateNodeRequest,
    now: i64,
)
    requires
        store_wf(s),
        write_refusal(
            s.nodes,
            id,
            match request.parent_id {
                Some(p) => Some(p@),
                None => None,
            },
        ) is None,
    ensures
        ({
            let i = position(s.nodes, id);
            let after = with_row_at(s, i, updated_row(s.nodes[i], request, now));
            &&& has_node(after.nodes, id)
            &&& position(after.nodes, id) == i
            &&& hydrated(after.nodes, i).version == s.nodes[i].version + 1
            &&& hydrated(after.nodes, i).updated_at == now
            &&& hydrated(after.nodes, i).created_at == s.nodes[i].created_at
            &&& now > s.nodes[i].updated_at ==> hydrated(after.nodes, i).updated_at
                > s.nodes[i].updated_at
        }),
{
    let i = position(s.nodes, id);
    lemma_update_keeps_ids(s.nodes, i, updated_row(s.nodes[i], request, now));
}

/// Version monotonicity for moves: a move that is not refused raises the
/// version by exactly one and stamps the node with the time of the move.
pub proof fn law_move_bumps_version(
    s: StoreView,
    id: Seq<char>,
    new_parent: Option<Seq<char>>,
    new_order: i32,
    now: i64,
)
    requires
        store_wf(s),
        write_refusal(s.nodes, id, new_parent) is None,
    ensures
        ({
            let i = position(s.nodes, id);
            let after = with_row_at(s, i, moved_row(s.nodes[i], new_parent, new_order, now));
            &&& position(after.nodes, id) == i
            &&& hydrated(after.nodes, i).version == s.nodes[i].version + 1
            &&& hydrated(after.nodes, i).updated_at == now
            &&& hydrated(after.nodes, i).parent_id == new_parent
            &&& hydrated(after.nodes, i).order == new_order
        }),
{
    let i = position(s.nodes, id);
    lemma_update_keeps_ids(s.nodes, i, moved_row(s.nodes[i], new_parent, new_order, now));
}

/// Cascade deletion: deleting a node removes exactly the rows of its subtree,
/// the node and its descendants, and every edge that starts or ends at one of
/// them; no other row or edge goes, and none of the removed ids can be read
/// afterwards.
pub proof fn law_delete_cascades(s: StoreView, id: Seq<char>)
    requires
        store_wf(s),
        has_node(s.nodes, id),
    ensures
        store_wf(without_subtree(s, id)),
        subtree_size(s.nodes, id) >= 1,
        without_subtree(s, id).nodes.len() + subtree_size(s.nodes, id) == s.nodes.len(),
        forall|a: Seq<char>| is_within(s.nodes, id, a) ==> !has_node(without_subtree(s, id).nodes, a),
        forall|a: Seq<char>|
            has_node(s.nodes, a) && !is_within(s.nodes, id, a) ==> has_node(
                without_subtree(s, id).nodes,
                a,
            ),
        forall|k: int|
            0 <= k < without_subtree(s, id).links.len() ==> {
                let link = #[trigger] without_subtree(s, id).links[k];
                !is_within(s.nodes, id, link.source) && !is_within(s.nodes, id, link.target)
                    && s.links.contains(link)
            },
        forall|k: int|
            0 <= k < s.links.len() && !is_within(s.nodes, id, s.links[k].source) && !is_within(
                s.nodes,
                id,
                s.links[k].target,
            ) ==> without_subtree(s, id).links.contains(#[trigger] s.links[k]),
{
    lemma_delete_keeps_forest(s, id);
    let gone = |row: NodeView| !outside(s.nodes, id)(row);
    lemma_filter_splits(s.nodes, outside(s.nodes, id));
    assert(s.nodes.filter(|row: NodeView| !outside(s.nodes, id)(row)) == s.nodes.filter(gone));
    let key = |row: NodeView| row.id;
    lemma_filter_facts(s.nodes, gone, key);
    let i = position(s.nodes, id);
    assert(nth_parent(s.nodes, id, 0) == Some(id));
    assert(gone(s.nodes[i]));
    assert(s.nodes.filter(gone).contains(s.nodes[i]));
    let whole = |link: LinkView| link;
    lemma_filter_facts(s.links, link_outside(s.nodes, id), whole);
    assert forall|k: int| 0 <= k < without_subtree(s, id).links.len() implies {
        let link = #[trigger] without_subtree(s, id).links[k];
        !is_within(s.nodes, id, link.source) && !is_within(s.nodes, id, link.target)
            && s.links.contains(link)
    } by {
        let link = without_subtree(s, id).links[k];
        assert(link_outside(s.nodes, id)(link));
    }
    assert forall|k: int|
        0 <= k < s.links.len() && !is_within(s.nodes, id, s.links[k].source) && !is_within(
            s.nodes,
            id,
            s.links[k].target,
        ) implies without_subtree(s, id).links.contains(#[trigger] s.links[k]) by {
        assert(link_outside(s.nodes, id)(s.links[k]));
    }
}

/// Idempotent daily note: once the journal entry of a date has been written,
/// resolving the date again finds that entry, so that a second call returns
/// the same node and writes no second row.
pub proof fn law_daily_note_is_found_again(
    s: StoreView,
    date: Seq<char>,
    id: Seq<char>,
    now: i64,
    request: CreateNodeRequest,
)
    requires
        store_wf(s),
        !has_node(s.nodes, id),
        is_daily_request(request, date),
        first_where(s.nodes, is_daily_note(date), s.nodes.len()) is None,
    ensures
        ({
            let after = with_row(s, new_row(id, now, request));
            &&& after.nodes.len() == s.nodes.len() + 1
            &&& first_where(after.nodes, is_daily_note(date), after.nodes.len()) == Some(
                s.nodes.len() as int,
            )
            &&& hydrated(after.nodes, s.nodes.len() as int).id == id
        }),
{
    let row = new_row(id, now, request);
    let after = with_row(s, row);
    let pred = is_daily_note(date);
    lemma_first_where(s.nodes, pred, s.nodes.len());
    lemma_first_where(after.nodes, pred, after.nodes.len());
    assert(row.tags[0] == JOURNAL_TAG@);
    assert(pred(after.nodes[s.nodes.len() as int]));
    assert forall|j: int| 0 <= j < s.nodes.len() implies !pred(#[trigger] after.nodes[j]) by {
        assert(after.nodes[j] == s.nodes[j]);
    }
}

/// An existing journal entry is found whatever is written behind it, so that
/// it stays the entry of its date.
pub proof fn law_daily_note_stays_first(
    s: StoreView,
    date: Seq<char>,
    row: NodeView,
)
    requires
        first_where(s.nodes, is_daily_note(date), s.nodes.len()) is Some,
    ensures
        first_where(with_row(s, row).nodes, is_daily_note(date), s.nodes.len() + 1) == first_where(
            s.nodes,
            is_daily_note(date),
            s.nodes.len(),
        ),
{
    let pred = is_daily_note(date);
    let after = with_row(s, row).nodes;
    lemma_first_where(s.nodes, pred, s.nodes.len());
    lemma_first_where(after, pred, after.len());
    let i = first_where(s.nodes, pred, s.nodes.len())->0;
    assert(after[i] == s.nodes[i]);
    assert forall|j: int| 0 <= j < i implies !pred(#[trigger] after[j]) by {
        assert(after[j] == s.nodes[j]);
    }
    let found = first_where(after, pred, after.len());
    assert(found is Some);
    if found->0 < i {
        assert(!pred(after[found->0]));
    } else if found->0 > i {
        assert(!pred(after[i]));
    }
}

/// Cycle rejection: moving a node under itself or under one of its
/// descendants is refused as a cycle.
pub proof fn law_cyclic_move_refused(s: StoreView, id: Seq<char>, new_parent: Seq<char>)
    requires
        store_wf(s),
        has_node(s.nodes, id),
        has_node(s.nodes, new_parent),
        is_within(s.nodes, id, new_parent),
    ensures
        write_refusal(s.nodes, id, Some(new_parent)) == Some(Refusal::Cycle),
{
}

/// Sibling order: a listing holds each of the listed places once, and of any
/// two places the one with the smaller key comes first; rows with equal keys
/// stay in the order in which they were written.
pub proof fn law_listing_is_sorted(nodes: Seq<NodeView>, at: Seq<int>, by: Listing)
    requires
        forall|k: int| 0 <= k < at.len() ==> 0 <= #[trigger] at[k] < nodes.len(),
        forall|a: int, b: int| 0 <= a < b < at.len() ==> at[a] < at[b],
    ensures
        listed(nodes, at, by).len() == at.len(),
        forall|k: int| 0 <= k < at.len() ==> listed(nodes, at, by).contains(#[trigger] at[k]),
        forall|k: int| 0 <= k < at.len() ==> at.contains(#[trigger] listed(nodes, at, by)[k]),
        forall|a: int, b: int|
            0 <= a < b < at.len() ==> {
                let x = #[trigger] listed(nodes, at, by)[a];
                let y = #[trigger] listed(nodes, at, by)[b];
                if sort_key(by, nodes[x]) == sort_key(by, nodes[y]) {
                    x < y
                } else {
                    crate::ordering::key_le(
                        sort_key(by, nodes[x]),
                        sort_key(by, nodes[y]),
                    )
                }
            },
{
    let keys = keys_at(nodes, at, by);
    let order = stable_order(keys, at.len());
    let out = listed(nodes, at, by);
    lemma_stable_order_permutes(keys, at.len());
    lemma_stable_order_sorted(keys, at.len());
    assert forall|k: int| 0 <= k < at.len() implies out.contains(#[trigger] at[k]) by {
        assert(order.contains(k));
        let w = choose|w: int| 0 <= w < order.len() && order[w] == k;
        assert(out[w] == at[k]);
    }
    assert forall|k: int| 0 <= k < at.len() implies at.contains(#[trigger] out[k]) by {
        assert(at[order[k]] == out[k]);
    }
    assert forall|a: int, b: int| 0 <= a < b < at.len() implies {
        let x = #[trigger] out[a];
        let y = #[trigger] out[b];
        if sort_key(by, nodes[x]) == sort_key(by, nodes[y]) {
            x < y
        } else {
            crate::ordering::key_le(
                sort_key(by, nodes[x]),
                sort_key(by, nodes[y]),
            )
        }
    } by {
        assert(precedes(keys, order[a], order[b]));
        assert(keys[order[a]] == sort_key(by, nodes[at[order[a]]]));
        assert(keys[order[b]] == sort_key(by, nodes[at[order[b]]]));
    }
}

/// Two depths that both reach past the deepest branch yield the same tree.
proof fn lemma_tree_stable(nodes: Seq<NodeView>, i: int, depth: nat, f1: nat, f2: nat)
    requires
        nodes_wf(nodes),
        0 <= i < nodes.len(),
        nth_parent(nodes, nodes[i].id, depth) is Some,
        depth + f1 >= nodes.len(),
        depth + f2 >= nodes.len(),
    ensures
        tree_at(nodes, i, f1) == tree_at(nodes, i, f2),
    decreases f1,
{
    let id = nodes[i].id;
    lemma_position(nodes, i);
    lemma_chain_bounded(nodes, id);
    if depth >= nodes.len() {
        lemma_chain_prefix(nodes, id, nodes.len(), depth);
    }
    let at = places_where(nodes, is_child_of(id), nodes.len());
    lemma_places_where(nodes, is_child_of(id), nodes.len());
    law_listing_is_sorted(nodes, at, Listing::Siblings);
    let below = listed(nodes, at, Listing::Siblings);
    let left = tree_at(nodes, i, f1).child_nodes;
    let right = tree_at(nodes, i, f2).child_nodes;
    assert forall|k: int| 0 <= k < below.len() implies left[k] == right[k] by {
        let c = below[k];
        assert(at.contains(c));
        let w = choose|w: int| 0 <= w < at.len() && at[w] == c;
        assert(is_child_of(id)(nodes[at[w]]));
        lemma_position(nodes, c);
        assert(nth_parent(nodes, nodes[c].id, 0) == Some(nodes[c].id));
        assert(nth_parent(nodes, nodes[c].id, 1) == Some(id));
        lemma_nth_parent_add(nodes, nodes[c].id, 1, depth);
        lemma_tree_stable(nodes, c, depth + 1, (f1 - 1) as nat, (f2 - 1) as nat);
    }
    assert(left =~= right);
}

/// The tree that a read returns is whole: in a forest no branch is deeper
/// than there are rows, so that the depth to which the tree is followed
/// leaves nothing out, and following it further would add nothing.
pub proof fn law_tree_is_whole(nodes: Seq<NodeView>, i: int, fuel: nat)
    requires
        nodes_wf(nodes),
        0 <= i < nodes.len(),
        fuel >= nodes.len(),
    ensures
        tree_at(nodes, i, fuel) == tree_at(nodes, i, nodes.len()),
        tree_at(nodes, i, nodes.len()).child_nodes.len() == hydrated(nodes, i).children.len(),
{
    assert(nth_parent(nodes, nodes[i].id, 0) == Some(nodes[i].id));
    lemma_tree_stable(nodes, i, 0, fuel, nodes.len());
}

} // verus!
