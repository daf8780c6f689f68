//! Counts over the tree and the link graph.

use crate::errors::AppResult;
use crate::models::node::NodeView;
use crate::services::database::connection::DatabaseService;
use crate::services::database::model::{
    has_node, is_child_of, is_root, lemma_chain_bounded, lemma_nth_parent_add,
    lemma_places_where, lemma_position, nth_parent, outside, parent_of, places_where,
    subtree_size, LinkView,
};
use crate::services::database::nodes::{is_not_found, not_found, JOURNAL_TAG};
use crate::ordering::{
    as_ints, lemma_stable_order_permutes, sort_positions, stable_order,
};
use crate::text::{index_of, list_holds};
use vstd::prelude::*;

verus! {

/// Counts for one node.
#[derive(Debug, PartialEq)]
pub struct NodeStats {
    pub node_id: String,
    /// The number of nodes below the node, at any depth.
    pub descendant_count: usize,
    /// The number of ancestors of the node; 0 for a root.
    pub depth: usize,
    pub direct_children: usize,
}

/// The number of parent references that can be followed from `id`, but no
/// more than `fuel`.
pub open spec fn ancestors(nodes: Seq<NodeView>, id: Seq<char>, fuel: nat) -> nat
    decreases fuel,
{
    if fuel == 0 {
        0
    } else {
        match parent_of(nodes, id) {
            Some(p) => 1 + ancestors(nodes, p, (fuel - 1) as nat),
            None => 0,
        }
    }
}

/// The depth of a node: the number of its ancestors.
pub open spec fn depth(nodes: Seq<NodeView>, id: Seq<char>) -> nat {
    ancestors(nodes, id, nodes.len())
}

/// The number of ancestors is the number of steps after which the chain of
/// parents ends.
pub proof fn law_depth_counts_the_chain(nodes: Seq<NodeView>, id: Seq<char>, fuel: nat)
    ensures
        ancestors(nodes, id, fuel) <= fuel,
        ancestors(nodes, id, fuel) < fuel ==> nth_parent(
            nodes,
            id,
            ancestors(nodes, id, fuel) + 1,
        ) is None,
        nth_parent(nodes, id, ancestors(nodes, id, fuel)) is Some,
    decreases fuel,
{
    assert(nth_parent(nodes, id, 0) == Some(id));
    if fuel > 0 {
        match parent_of(nodes, id) {
            Some(p) => {
                law_depth_counts_the_chain(nodes, p, (fuel - 1) as nat);
                let n = ancestors(nodes, p, (fuel - 1) as nat);
                assert(nth_parent(nodes, id, 1) == Some(p));
                lemma_nth_parent_add(nodes, id, 1, n);
                lemma_nth_parent_add(nodes, id, 1, n + 1);
            },
            None => {
                assert(nth_parent(nodes, id, 1) is None);
            },
        }
    }
}

/// Counts over the whole store. The average depth of the nodes is
/// `depth_sum` divided by `total_nodes`.
#[derive(Debug, PartialEq)]
pub struct DatabaseStats {
    pub total_nodes: usize,
    pub total_links: usize,
    pub root_nodes: usize,
    pub leaf_nodes: usize,
    pub nodes_with_children: usize,
    /// The depths of all nodes, added up.
    pub depth_sum: u128,
    pub max_node_depth: usize,
    pub journal_nodes: usize,
}

/// The rows that some row names as its parent.
pub open spec fn has_child(nodes: Seq<NodeView>) -> spec_fn(NodeView) -> bool {
    |row: NodeView|
        exists|j: int| 0 <= j < nodes.len() && (#[trigger] nodes[j]).parent_id == Some(row.id)
}

/// The rows that carry the journal tag.
pub open spec fn is_journal() -> spec_fn(NodeView) -> bool {
    |row: NodeView| row.tags.contains(JOURNAL_TAG@)
}

/// The depths of the first `n` rows, added up.
pub open spec fn depth_sum(nodes: Seq<NodeView>, n: nat) -> nat
    decreases n,
{
    if n == 0 {
        0
    } else {
        depth_sum(nodes, (n - 1) as nat) + depth(nodes, nodes[n - 1].id)
    }
}

/// The greatest depth among the first `n` rows; 0 where there is none.
pub open spec fn max_depth(nodes: Seq<NodeView>, n: nat) -> nat
    decreases n,
{
    if n == 0 {
        0
    } else {
        let before = max_depth(nodes, (n - 1) as nat);
        let d = depth(nodes, nodes[n - 1].id);
        if d > before {
            d
        } else {
            before
        }
    }
}

/// The most often referenced nodes that the link statistics list.
pub const LINK_STATS_LIMIT: usize = 20;

/// The edges that end at `target`.
pub open spec fn points_to(target: Seq<char>) -> spec_fn(LinkView) -> bool {
    |link: LinkView| link.target == target
}

/// The number of edges that end at `target`.
pub open spec fn reference_count(links: Seq<LinkView>, target: Seq<char>) -> nat {
    links.filter(points_to(target)).len()
}

/// The targets of the first `n` edges, each once, in the order in which they
/// first occur.
pub open spec fn referenced(links: Seq<LinkView>, n: nat) -> Seq<Seq<char>>
    decreases n,
{
    if n == 0 {
        Seq::empty()
    } else {
        let before = referenced(links, (n - 1) as nat);
        if before.contains(links[n - 1].target) {
            before
        } else {
            before.push(links[n - 1].target)
        }
    }
}

/// The key that ranks a target with `count` references: more references
/// come first.
pub open spec fn rank_key(count: nat) -> (i64, i64) {
    if count > i64::MAX {
        (i64::MIN, 0i64)
    } else {
        ((-1 - count) as i64, 0i64)
    }
}

/// The keys of the referenced targets.
pub open spec fn rank_keys(links: Seq<LinkView>) -> Seq<(i64, i64)> {
    Seq::new(
        referenced(links, links.len()).len(),
        |k: int| rank_key(reference_count(links, referenced(links, links.len())[k])),
    )
}

/// The referenced targets with their reference counts, the most referenced
/// first; targets with the same count in the order in which they first occur.
pub open spec fn ranking(links: Seq<LinkView>) -> Seq<(Seq<char>, nat)> {
    let all = referenced(links, links.len());
    let order = stable_order(rank_keys(links), all.len());
    Seq::new(all.len(), |k: int| (all[order[k]], reference_count(links, all[order[k]])))
}

/// The texts and numbers of a list of pairs.
pub open spec fn pairs_view(v: Seq<(String, usize)>) -> Seq<(Seq<char>, nat)> {
    Seq::new(v.len(), |k: int| (v[k].0@, v[k].1 as nat))
}

impl DatabaseService {
    /// The referenced nodes with the number of edges that end at each, the
    /// most referenced first, twenty at most.
    pub fn get_link_stats(&self) -> (r: AppResult<Vec<(String, usize)>>)
        ensures
            r matches Ok(stats) && pairs_view(stats@) == ranking(self@.links).take(
                if ranking(self@.links).len() < LINK_STATS_LIMIT {
                    ranking(self@.links).len() as int
                } else {
                    LINK_STATS_LIMIT as int
                },
            ),
    {
        let ghost links = self@.links;
        let mut names: Vec<String> = Vec::new();
        let mut counts: Vec<usize> = Vec::new();
        let mut k: usize = 0;
        assert(links.take(0) =~= Seq::<LinkView>::empty());
        proof {
            reveal(Seq::filter);
        }
        assert(names.deep_view() =~= referenced(links, 0));
        while k < self.links.len()
            invariant
                links == self@.links,
                k <= links.len(),
                names.deep_view() == referenced(links, k as nat),
                counts@.len() == names@.len(),
                forall|j: int|
                    0 <= j < names@.len() ==> #[trigger] counts@[j] == links.take(k as int).filter(
                        points_to(names@[j]@),
                    ).len(),
                forall|j: int| 0 <= j < names@.len() ==> 1 <= #[trigger] counts@[j] <= k,
                forall|t: Seq<char>|
                    !names.deep_view().contains(t) ==> links.take(k as int).filter(
                        #[trigger] points_to(t),
                    ).len() == 0,
            decreases links.len() - k,
        {
            let ghost head = links.take(k as int);
            let ghost link = links[k as int];
            let ghost before_names = names.deep_view();
            let ghost before_counts = counts@;
            assert(links.take(k + 1) =~= head.push(link));
            assert forall|t: Seq<char>|
                links.take(k + 1).filter(#[trigger] points_to(t)).len() == head.filter(
                    points_to(t),
                ).len() + if link.target == t {
                    1int
                } else {
                    0int
                } by {
                head.lemma_filter_push(link, points_to(t));
            }
            let target = &self.links[k].target_node_id;
            match index_of(&names, target.as_str()) {
                Some(j) => {
                    assert(names.deep_view()[j as int] == target@);
                    let c = counts[j];
                    counts.set(j, c + 1);
                    assert forall|q: int| 0 <= q < names@.len() implies #[trigger] counts@[q]
                        == links.take(k + 1).filter(points_to(names@[q]@)).len() by {
                        assert(before_counts[q] == head.filter(points_to(names@[q]@)).len());
                        if q != j {
                            assert(names.deep_view()[q] == names@[q]@);
                            assert(names.deep_view()[j as int] == names@[j as int]@);
                            lemma_referenced_distinct(links, k as nat);
                        }
                    }
                },
                None => {
                    names.push(target.clone());
                    counts.push(1);
                    assert(names.deep_view() =~= before_names.push(target@));
                    assert forall|q: int| 0 <= q < names@.len() implies #[trigger] counts@[q]
                        == links.take(k + 1).filter(points_to(names@[q]@)).len() by {
                        if q < before_names.len() {
                            assert(before_counts[q] == head.filter(points_to(names@[q]@)).len());
                            assert(before_names[q] == names@[q]@);
                        } else {
                            assert(!before_names.contains(target@));
                        }
                    }
                    assert forall|t: Seq<char>| !names.deep_view().contains(t) implies links.take(
                        k + 1,
                    ).filter(#[trigger] points_to(t)).len() == 0 by {
                        assert(names.deep_view()[before_names.len() as int] == target@);
                        if before_names.contains(t) {
                            let w = choose|w: int| 0 <= w < before_names.len() && before_names[w] == t;
                            assert(names.deep_view()[w] == t);
                        }
                    }
                },
            }
            k = k + 1;
        }
        assert(links.take(links.len() as int) =~= links);
        let ghost all = referenced(links, links.len());
        let mut keys: Vec<(i64, i64)> = Vec::new();
        let mut q: usize = 0;
        while q < counts.len()
            invariant
                q <= counts.len(),
                counts@.len() == names@.len(),
                names.deep_view() == all,
                all == referenced(links, links.len()),
                forall|j: int|
                    0 <= j < names@.len() ==> #[trigger] counts@[j] == reference_count(
                        links,
                        names@[j]@,
                    ),
                keys@ == rank_keys(links).take(q as int),
            decreases counts.len() - q,
        {
            let c = counts[q];
            let key: (i64, i64) = if c as u64 > i64::MAX as u64 {
                (i64::MIN, 0)
            } else {
                (-1 - (c as i64), 0)
            };
            assert(all[q as int] == names@[q as int]@);
            assert(key == rank_keys(links)[q as int]);
            keys.push(key);
            assert(rank_keys(links).take(q + 1) =~= rank_keys(links).take(q as int).push(key));
            q = q + 1;
        }
        assert(rank_keys(links).take(counts.len() as int) =~= rank_keys(links));
        let order = sort_positions(&keys);
        proof {
            lemma_stable_order_permutes(keys@, keys@.len());
        }
        let ghost sorted = stable_order(keys@, keys@.len());
        let limit = if order.len() < LINK_STATS_LIMIT {
            order.len()
        } else {
            LINK_STATS_LIMIT
        };
        let mut stats: Vec<(String, usize)> = Vec::new();
        let mut t: usize = 0;
        while t < limit
            invariant
                t <= limit <= order.len(),
                order@.len() == names@.len(),
                counts@.len() == names@.len(),
                names.deep_view() == all,
                all == referenced(links, links.len()),
                as_ints(order@) == sorted,
                sorted == stable_order(rank_keys(links), all.len()),
                forall|j: int| 0 <= j < sorted.len() ==> 0 <= #[trigger] sorted[j] < names@.len(),
                forall|j: int|
                    0 <= j < names@.len() ==> #[trigger] counts@[j] == reference_count(
                        links,
                        names@[j]@,
                    ),
                pairs_view(stats@) == ranking(links).take(t as int),
            decreases limit - t,
        {
            assert(as_ints(order@)[t as int] == order@[t as int]);
            let p = order[t];
            assert(all[p as int] == names@[p as int]@);
            let ghost so_far = pairs_view(stats@);
            stats.push((names[p].clone(), counts[p]));
            assert(pairs_view(stats@) =~= so_far.push(ranking(links)[t as int]));
            assert(ranking(links).take(t + 1) =~= ranking(links).take(t as int).push(
                ranking(links)[t as int],
            ));
            t = t + 1;
        }
        Ok(stats)
    }
}

/// The referenced targets are listed once each.
proof fn lemma_referenced_distinct(links: Seq<LinkView>, n: nat)
    ensures
        forall|a: int, b: int|
            0 <= a < b < referenced(links, n).len() ==> referenced(links, n)[a] != referenced(
                links,
                n,
            )[b],
    decreases n,
{
    if n > 0 {
        lemma_referenced_distinct(links, (n - 1) as nat);
        let before = referenced(links, (n - 1) as nat);
        let out = referenced(links, n);
        if !before.contains(links[n - 1].target) {
            assert forall|a: int, b: int| 0 <= a < b < out.len() implies out[a] != out[b] by {
                if b == before.len() {
                    assert(before[a] == out[a]);
                }
            }
        }
    }
}

impl DatabaseService {
    /// Counts over the whole store.
    pub fn get_database_stats(&self) -> (r: AppResult<DatabaseStats>)
        requires
            self.wf(),
        ensures
            r matches Ok(stats) && {
                &&& stats.total_nodes == self@.nodes.len()
                &&& stats.total_links == self@.links.len()
                &&& stats.root_nodes == self@.nodes.filter(is_root()).len()
                &&& stats.nodes_with_children == self@.nodes.filter(has_child(self@.nodes)).len()
                &&& stats.leaf_nodes + stats.nodes_with_children == stats.total_nodes
                &&& stats.depth_sum == depth_sum(self@.nodes, self@.nodes.len())
                &&& stats.max_node_depth == max_depth(self@.nodes, self@.nodes.len())
                &&& stats.journal_nodes == self@.nodes.filter(is_journal()).len()
            },
    {
        let ghost nodes = self@.nodes;
        let total = self.nodes.len();
        let mut roots: usize = 0;
        let mut parents: usize = 0;
        let mut journals: usize = 0;
        let mut sum: u128 = 0;
        let mut deepest: usize = 0;
        let mut i: usize = 0;
        assert(nodes.take(0) =~= Seq::<NodeView>::empty());
        proof {
            reveal(Seq::filter);
        }
        while i < self.nodes.len()
            invariant
                self.wf(),
                nodes == self@.nodes,
                total == nodes.len(),
                i <= total,
                roots == nodes.take(i as int).filter(is_root()).len(),
                parents == nodes.take(i as int).filter(has_child(nodes)).len(),
                journals == nodes.take(i as int).filter(is_journal()).len(),
                roots <= i,
                parents <= i,
                journals <= i,
                sum == depth_sum(nodes, i as nat),
                sum <= i * total,
                deepest == max_depth(nodes, i as nat),
            decreases total - i,
        {
            let ghost head = nodes.take(i as int);
            let ghost row = nodes[i as int];
            assert(nodes.take(i + 1) =~= head.push(row));
            proof {
                head.lemma_filter_push(row, is_root());
                head.lemma_filter_push(row, has_child(nodes));
                head.lemma_filter_push(row, is_journal());
            }
            let node = &self.nodes[i];
            if node.parent_id.is_none() {
                roots = roots + 1;
            }
            let below = self.child_places(node.id.as_str());
            proof {
                lemma_places_where(nodes, is_child_of(row.id), nodes.len());
                let at = places_where(nodes, is_child_of(row.id), nodes.len());
                if at.len() > 0 {
                    assert(is_child_of(row.id)(nodes[at[0]]));
                }
                if has_child(nodes)(row) {
                    let j = choose|j: int|
                        0 <= j < nodes.len() && (#[trigger] nodes[j]).parent_id == Some(row.id);
                    assert(is_child_of(row.id)(nodes[j]));
                    assert(at.contains(j));
                }
            }
            if below.len() > 0 {
                parents = parents + 1;
            }
            if list_holds(&node.tags, JOURNAL_TAG) {
                journals = journals + 1;
            }
            let d = self.depth_at(i);
            assert(sum + d <= (i + 1) * total) by (nonlinear_arith)
                requires
                    sum <= i * total,
                    d < total,
            ;
            assert((i + 1) * total <= total * total) by (nonlinear_arith)
                requires
                    i < total,
            ;
            assert(total * total <= u128::MAX) by (nonlinear_arith)
                requires
                    total <= usize::MAX,
                    usize::MAX <= 0xffff_ffff_ffff_ffff,
            ;
            sum = sum + d as u128;
            if d > deepest {
                deepest = d;
            }
            i = i + 1;
        }
        assert(nodes.take(total as int) =~= nodes);
        Ok(
            DatabaseStats {
                total_nodes: total,
                total_links: self.links.len(),
                root_nodes: roots,
                leaf_nodes: total - parents,
                nodes_with_children: parents,
                depth_sum: sum,
                max_node_depth: deepest,
                journal_nodes: journals,
            },
        )
    }

    /// The number of ancestors of the row at place `i`.
    pub(crate) fn depth_at(&self, i: usize) -> (d: usize)
        requires
            self.wf(),
            i < self.nodes.len(),
        ensures
            d == depth(self@.nodes, self@.nodes[i as int].id),
            d < self@.nodes.len(),
    {
        let ghost nodes = self@.nodes;
        let ghost id = nodes[i as int].id;
        let mut cur: usize = i;
        let mut steps: usize = 0;
        proof {
            lemma_position(nodes, i as int);
            assert(nth_parent(nodes, id, 0) == Some(id));
        }
        while steps < self.nodes.len()
            invariant
                self.wf(),
                nodes == self@.nodes,
                id == nodes[i as int].id,
                0 <= i < nodes.len(),
                cur < self.nodes.len(),
                steps <= self.nodes.len(),
                nth_parent(nodes, id, steps as nat) == Some(nodes[cur as int].id),
                steps + ancestors(nodes, nodes[cur as int].id, (nodes.len() - steps) as nat)
                    == depth(nodes, id),
            decreases self.nodes.len() - steps,
        {
            proof {
                lemma_position(nodes, cur as int);
            }
            let next = match &self.nodes[cur].parent_id {
                Some(p) => self.find(p.as_str()),
                None => None,
            };
            match next {
                Some(j) => {
                    proof {
                        lemma_position(nodes, j as int);
                    }
                    cur = j;
                    steps = steps + 1;
                },
                None => {
                    return steps;
                },
            }
        }
        proof {
            lemma_position(nodes, i as int);
            lemma_chain_bounded(nodes, id);
        }
        0
    }

    /// Counts for one node: its direct children, all its descendants, and
    /// its ancestors.
    pub fn get_node_stats(&self, node_id: &str) -> (r: AppResult<NodeStats>)
        requires
            self.wf(),
        ensures
            r is Ok <==> has_node(self@.nodes, node_id@),
            r matches Ok(stats) ==> {
                &&& stats.node_id@ == node_id@
                &&& stats.direct_children == places_where(
                    self@.nodes,
                    is_child_of(node_id@),
                    self@.nodes.len(),
                ).len()
                &&& stats.descendant_count + 1 == subtree_size(self@.nodes, node_id@)
                &&& stats.depth == depth(self@.nodes, node_id@)
            },
            r is Err ==> is_not_found(r, node_id@),
    {
        let i = match self.find(node_id) {
            Some(i) => i,
            None => {
                return not_found(node_id);
            },
        };
        let direct_children = self.child_places(node_id).len();
        let size = self.subtree_len(node_id);
        let depth = self.depth_at(i);
        proof {
            lemma_position(self@.nodes, i as int);
            crate::services::database::laws::law_delete_cascades(self@, node_id@);
        }
        Ok(NodeStats { node_id: node_id.to_owned(), descendant_count: size - 1, depth, direct_children })
    }

    /// The number of rows in the subtree of `id`.
    pub(crate) fn subtree_len(&self, id: &str) -> (n: usize)
        requires
            self.wf(),
        ensures
            n == subtree_size(self@.nodes, id@),
    {
        let ghost nodes = self@.nodes;
        let ghost inside = |row: NodeView| !outside(nodes, id@)(row);
        let mut n: usize = 0;
        let mut i: usize = 0;
        assert(nodes.take(0) =~= Seq::<NodeView>::empty());
        proof {
            reveal(Seq::filter);
        }
        while i < self.nodes.len()
            invariant
                self.wf(),
                nodes == self@.nodes,
                inside == (|row: NodeView| !outside(nodes, id@)(row)),
                i <= self.nodes.len(),
                n == nodes.take(i as int).filter(inside).len(),
                n <= i,
            decreases self.nodes.len() - i,
        {
            assert(nodes.take(i + 1) =~= nodes.take(i as int).push(nodes[i as int]));
            proof {
                nodes.take(i as int).lemma_filter_push(nodes[i as int], inside);
            }
            if self.within(id, self.nodes[i].id.as_str()) {
                n = n + 1;
            }
            i = i + 1;
        }
        assert(nodes.take(self.nodes.len() as int) =~= nodes);
        n
    }
}

} // verus!
