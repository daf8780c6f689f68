//! The link index: the directed edges derived from the `[[reference]]`
//! texts in node content.
//!
//! Edges are only as fresh as the last resynchronization of their source:
//! nothing rewrites them when content or targets change in between.

use crate::errors::AppResult;
use crate::models::node::{Node, NodeView};
use crate::services::database::connection::{DatabaseService, NodeLink};
use crate::services::database::model::{
    first_where, has_node, hydrated, hydrated_at, lemma_filter_all_or_none, lemma_first_where,
    lemma_first_where_stays, places_where, position, store_wf, LinkView, StoreView,
};
use crate::services::database::nodes::{is_not_found, not_found, with_row};
use crate::ordering::as_ints;
use crate::text::{chars_of, contains, contains_text, is_prefix, matches_at, str_eq};
use vstd::prelude::*;

verus! {

/// The pattern of a reference: text between double brackets, as short as
/// possible.
pub const LINK_PATTERN: &'static str = r"\[\[(.*?)\]\]";

/// What `regex::Regex::captures_iter` yields for a pattern and a text: the
/// text of the first capture group of each successive match, empty where the
/// group took no part. None where `regex::Regex::new` rejects the pattern.
pub uninterp spec fn regex_first_groups(pattern: Seq<char>, text: Seq<char>) -> Option<
    Seq<Seq<char>>,
>;

/// The texts of an optional list.
pub open spec fn opt_texts(o: Option<Vec<String>>) -> Option<Seq<Seq<char>>> {
    match o {
        Some(v) => Some(v.deep_view()),
        None => None,
    }
}

/// Compiles the pattern with `regex::Regex::new`, walks the matches in the
/// text with `Regex::captures_iter` and takes the first group of each with
/// `Captures::get`.
#[verifier::external_body]
fn first_groups(pattern: &str, text: &str) -> (r: Option<Vec<String>>)
    ensures
        opt_texts(r) == regex_first_groups(pattern@, text@),
{
    let re = match regex::Regex::new(pattern) {
        Ok(re) => re,
        Err(_) => return None,
    };
    let mut groups: Vec<String> = Vec::new();
    for captures in re.captures_iter(text) {
        match captures.get(1) {
            Some(group) => groups.push(group.as_str().to_string()),
            None => groups.push(String::new()),
        }
    }
    Some(groups)
}

/// The reference texts of a content, in the order in which they occur.
pub open spec fn link_texts(content: Seq<char>) -> Seq<Seq<char>> {
    match regex_first_groups(LINK_PATTERN@, content) {
        Some(texts) => texts,
        None => Seq::empty(),
    }
}

/// The reference texts of a content, in the order in which they occur.
pub fn extract_link_texts(content: &str) -> (texts: Vec<String>)
    ensures
        texts.deep_view() == link_texts(content@),
{
    match first_groups(LINK_PATTERN, content) {
        Some(texts) => texts,
        None => {
            let texts: Vec<String> = Vec::new();
            assert(texts.deep_view() =~= Seq::<Seq<char>>::empty());
            texts
        },
    }
}

/// The rows whose content is the text.
pub open spec fn has_content(text: Seq<char>) -> spec_fn(NodeView) -> bool {
    |row: NodeView| row.content == text
}

/// The rows whose content starts with the text.
pub open spec fn starts_with_text(text: Seq<char>) -> spec_fn(NodeView) -> bool {
    |row: NodeView| is_prefix(text, row.content)
}

/// The rows whose content holds the text somewhere.
pub open spec fn mentions(text: Seq<char>) -> spec_fn(NodeView) -> bool {
    |row: NodeView| contains_text(row.content, text)
}

/// The place of the row that a reference text names: the first row whose
/// content is the text or, where there is none, the first row whose content
/// starts with it.
pub open spec fn resolve(nodes: Seq<NodeView>, text: Seq<char>) -> Option<int> {
    match first_where(nodes, has_content(text), nodes.len()) {
        Some(i) => Some(i),
        None => first_where(nodes, starts_with_text(text), nodes.len()),
    }
}

/// The ids that the first `n` reference texts resolve to, each once, in the
/// order in which they first occur.
pub open spec fn targets(nodes: Seq<NodeView>, texts: Seq<Seq<char>>, n: nat) -> Seq<Seq<char>>
    decreases n,
{
    if n == 0 {
        Seq::empty()
    } else {
        let before = targets(nodes, texts, (n - 1) as nat);
        match resolve(nodes, texts[n - 1]) {
            Some(i) => if before.contains(nodes[i].id) {
                before
            } else {
                before.push(nodes[i].id)
            },
            None => before,
        }
    }
}

/// The edges that do not start at `source`.
pub open spec fn not_from(source: Seq<char>) -> spec_fn(LinkView) -> bool {
    |link: LinkView| link.source != source
}

/// The edges that end at `target`.
pub open spec fn ends_at(target: Seq<char>) -> spec_fn(LinkView) -> bool {
    |link: LinkView| link.target == target
}

/// The edges that start at `source`.
pub open spec fn starts_at(source: Seq<char>) -> spec_fn(LinkView) -> bool {
    |link: LinkView| link.source == source
}

/// The edges from `source` to each of `to`.
pub open spec fn edges_from(source: Seq<char>, to: Seq<Seq<char>>) -> Seq<LinkView> {
    Seq::new(to.len(), |k: int| LinkView { source, target: to[k] })
}

/// Where the edges start.
pub open spec fn sources(links: Seq<LinkView>) -> Seq<Seq<char>> {
    Seq::new(links.len(), |k: int| links[k].source)
}

/// Where the edges end.
pub open spec fn ends(links: Seq<LinkView>) -> Seq<Seq<char>> {
    Seq::new(links.len(), |k: int| links[k].target)
}

/// The rows of the ids, each as a read returns it.
pub open spec fn rows_of(nodes: Seq<NodeView>, ids: Seq<Seq<char>>) -> Seq<NodeView> {
    Seq::new(ids.len(), |k: int| hydrated(nodes, position(nodes, ids[k])))
}

/// The store after the outgoing edges of `source` were replaced by the edges
/// to what the reference texts resolve to.
pub open spec fn relinked(s: StoreView, source: Seq<char>, texts: Seq<Seq<char>>) -> StoreView {
    StoreView {
        links: s.links.filter(not_from(source)) + edges_from(
            source,
            targets(s.nodes, texts, texts.len()),
        ),
        ..s
    }
}

/// What the reference texts resolve to are ids of rows, each listed once.
pub proof fn lemma_targets(nodes: Seq<NodeView>, texts: Seq<Seq<char>>, n: nat)
    ensures
        forall|k: int|
            0 <= k < targets(nodes, texts, n).len() ==> has_node(
                nodes,
                #[trigger] targets(nodes, texts, n)[k],
            ),
        forall|a: int, b: int|
            0 <= a < b < targets(nodes, texts, n).len() ==> targets(nodes, texts, n)[a]
                != targets(nodes, texts, n)[b],
    decreases n,
{
    if n > 0 {
        lemma_targets(nodes, texts, (n - 1) as nat);
        let text = texts[n - 1];
        lemma_first_where(nodes, has_content(text), nodes.len());
        lemma_first_where(nodes, starts_with_text(text), nodes.len());
        let before = targets(nodes, texts, (n - 1) as nat);
        match resolve(nodes, text) {
            Some(i) => {
                assert(nodes[i].id == nodes[i].id);
                if !before.contains(nodes[i].id) {
                    let out = before.push(nodes[i].id);
                    assert forall|a: int, b: int| 0 <= a < b < out.len() implies out[a]
                        != out[b] by {
                        if b == before.len() {
                            assert(before[a] == out[a]);
                        }
                    }
                }
            },
            None => {},
        }
    }
}

/// Replacing the outgoing edges of a row by edges to resolved references
/// keeps the store well formed.
pub proof fn lemma_relink_keeps_wf(s: StoreView, source: Seq<char>, texts: Seq<Seq<char>>)
    requires
        store_wf(s),
        has_node(s.nodes, source),
    ensures
        store_wf(relinked(s, source, texts)),
{
    let kept = s.links.filter(not_from(source));
    let to = targets(s.nodes, texts, texts.len());
    let fresh = edges_from(source, to);
    let whole = |link: LinkView| link;
    crate::services::database::model::lemma_filter_facts(s.links, not_from(source), whole);
    lemma_targets(s.nodes, texts, texts.len());
    let out = kept + fresh;
    assert forall|k: int| 0 <= k < out.len() implies has_node(s.nodes, (#[trigger] out[k]).source)
        && has_node(s.nodes, out[k].target) by {
        if k < kept.len() {
            assert(s.links.contains(kept[k]));
            let w = choose|w: int| 0 <= w < s.links.len() && s.links[w] == kept[k];
            assert(has_node(s.nodes, s.links[w].source));
        } else {
            assert(out[k] == fresh[k - kept.len()]);
            assert(has_node(s.nodes, to[k - kept.len()]));
        }
    }
    assert forall|a: int, b: int|
        0 <= a < out.len() && 0 <= b < out.len() && #[trigger] out[a] == #[trigger] out[b]
        implies a == b by {
        if a != b {
            let (lo, hi) = if a < b { (a, b) } else { (b, a) };
            if hi < kept.len() {
                assert(whole(kept[lo]) != whole(kept[hi]));
            } else if lo < kept.len() {
                assert(not_from(source)(kept[lo]));
                assert(out[hi] == fresh[hi - kept.len()]);
            } else {
                assert(out[lo] == fresh[lo - kept.len()]);
                assert(out[hi] == fresh[hi - kept.len()]);
                assert(to[lo - kept.len()] != to[hi - kept.len()]);
            }
        }
    }
}

/// The link index. It holds no state of its own: the edges live in the
/// store that each operation is given.
pub struct LinkService {}

impl LinkService {
    /// A link index.
    pub fn new() -> (service: LinkService) {
        LinkService {  }
    }

    /// The place of the row that the reference text names.
    fn resolve(db: &DatabaseService, text: &str) -> (r: Option<usize>)
        ensures
            r is Some ==> r->0 < db@.nodes.len(),
            resolve(db@.nodes, text@) == match r {
                Some(i) => Some(i as int),
                None => None,
            },
    {
        let mut i: usize = 0;
        while i < db.nodes.len()
            invariant
                i <= db.nodes.len(),
                first_where(db@.nodes, has_content(text@), i as nat) is None,
            decreases db.nodes.len() - i,
        {
            let hit = str_eq(db.nodes[i].content.as_str(), text);
            assert(hit == has_content(text@)(db@.nodes[i as int]));
            if hit {
                proof {
                    lemma_first_where_stays(
                        db@.nodes,
                        has_content(text@),
                        (i + 1) as nat,
                        db@.nodes.len(),
                    );
                }
                return Some(i);
            }
            i = i + 1;
        }
        let needle = chars_of(text);
        let mut j: usize = 0;
        while j < db.nodes.len()
            invariant
                j <= db.nodes.len(),
                needle@ == text@,
                first_where(db@.nodes, has_content(text@), db@.nodes.len()) is None,
                first_where(db@.nodes, starts_with_text(text@), j as nat) is None,
            decreases db.nodes.len() - j,
        {
            let hay = chars_of(db.nodes[j].content.as_str());
            let hit = matches_at(&needle, &hay, 0);
            assert(hit == starts_with_text(text@)(db@.nodes[j as int]));
            if hit {
                proof {
                    lemma_first_where_stays(
                        db@.nodes,
                        starts_with_text(text@),
                        (j + 1) as nat,
                        db@.nodes.len(),
                    );
                }
                return Some(j);
            }
            j = j + 1;
        }
        None
    }

    /// Replaces the outgoing edges of `source` by one edge to each node that
    /// the reference texts resolve to. Texts that name no node add nothing
    /// and are no error. Where `source` names no node nothing is written.
    pub fn set_links(&self, db: &mut DatabaseService, source: &str, texts: &Vec<String>) -> (r:
        AppResult<()>)
        requires
            old(db).wf(),
        ensures
            final(db).wf(),
            r is Ok <==> has_node(old(db)@.nodes, source@),
            r is Ok ==> final(db)@ == relinked(old(db)@, source@, texts.deep_view()),
            r is Err ==> is_not_found(r, source@) && final(db)@ == old(db)@,
    {
        if db.find(source).is_none() {
            return not_found(source);
        }
        let ghost before = db@;
        let ghost wanted = texts.deep_view();
        let mut to: Vec<String> = Vec::new();
        let mut n: usize = 0;
        assert(to.deep_view() =~= targets(before.nodes, wanted, 0));
        while n < texts.len()
            invariant
                db@ == before,
                wanted == texts.deep_view(),
                n <= texts.len(),
                to.deep_view() == targets(before.nodes, wanted, n as nat),
            decreases texts.len() - n,
        {
            let ghost so_far = to.deep_view();
            assert(wanted[n as int] == texts@[n as int]@);
            match Self::resolve(db, texts[n].as_str()) {
                Some(i) => {
                    if !crate::text::list_holds(&to, db.nodes[i].id.as_str()) {
                        to.push(db.nodes[i].id.clone());
                        assert(to.deep_view() =~= so_far.push(before.nodes[i as int].id));
                    }
                },
                None => {},
            }
            n = n + 1;
        }
        let ghost keep = not_from(source@);
        let mut links: Vec<NodeLink> = Vec::new();
        let mut k: usize = 0;
        assert(before.links.take(0) =~= Seq::<LinkView>::empty());
        proof {
            reveal(Seq::filter);
        }
        while k < db.links.len()
            invariant
                db@ == before,
                keep == not_from(source@),
                k <= db.links.len(),
                links.deep_view() == before.links.take(k as int).filter(keep),
            decreases db.links.len() - k,
        {
            let ghost so_far = links.deep_view();
            assert(before.links.take(k + 1) =~= before.links.take(k as int).push(
                before.links[k as int],
            ));
            proof {
                before.links.take(k as int).lemma_filter_push(before.links[k as int], keep);
            }
            if !str_eq(db.links[k].source_node_id.as_str(), source) {
                links.push(db.links[k].duplicate());
                assert(links.deep_view() =~= so_far.push(before.links[k as int]));
            }
            k = k + 1;
        }
        assert(before.links.take(db.links.len() as int) =~= before.links);
        let ghost kept = links.deep_view();
        let ghost ends = to.deep_view();
        let mut t: usize = 0;
        while t < to.len()
            invariant
                t <= to.len(),
                ends == to.deep_view(),
                links.deep_view() == kept + edges_from(source@, ends).take(t as int),
            decreases to.len() - t,
        {
            let ghost so_far = links.deep_view();
            links.push(
                NodeLink { source_node_id: source.to_owned(), target_node_id: to[t].clone() },
            );
            assert(links.deep_view() =~= so_far.push(edges_from(source@, ends)[t as int]));
            assert(edges_from(source@, ends).take(t + 1) =~= edges_from(source@, ends).take(
                t as int,
            ).push(edges_from(source@, ends)[t as int]));
            t = t + 1;
        }
        assert(edges_from(source@, ends).take(to.len() as int) =~= edges_from(source@, ends));
        proof {
            lemma_relink_keeps_wf(before, source@, wanted);
        }
        db.links = links;
        assert(db@.nodes == before.nodes);
        assert(db@.users == before.users);
        Ok(())
    }

    /// All nodes at which an edge to `node_id` starts, in the order of the
    /// edge table.
    pub fn get_backlinks(&self, db: &DatabaseService, node_id: &str) -> (r: AppResult<Vec<Node>>)
        requires
            db.wf(),
        ensures
            r matches Ok(found) && found.deep_view() == rows_of(
                db@.nodes,
                sources(db@.links.filter(ends_at(node_id@))),
            ),
    {
        let ghost pred = ends_at(node_id@);
        let mut found: Vec<Node> = Vec::new();
        let mut k: usize = 0;
        assert(db@.links.take(0) =~= Seq::<LinkView>::empty());
        proof {
            reveal(Seq::filter);
        }
        assert(found.deep_view() =~= rows_of(db@.nodes, sources(db@.links.take(0).filter(pred))));
        while k < db.links.len()
            invariant
                db.wf(),
                pred == ends_at(node_id@),
                k <= db.links.len(),
                found.deep_view() == rows_of(
                    db@.nodes,
                    sources(db@.links.take(k as int).filter(pred)),
                ),
            decreases db.links.len() - k,
        {
            let ghost so_far = found.deep_view();
            let ghost head = db@.links.take(k as int);
            assert(db@.links.take(k + 1) =~= head.push(db@.links[k as int]));
            proof {
                head.lemma_filter_push(db@.links[k as int], pred);
            }
            let link = &db.links[k];
            if str_eq(link.target_node_id.as_str(), node_id) {
                match db.get_node(link.source_node_id.as_str()) {
                    Ok(node) => {
                        found.push(node);
                        assert(found.deep_view() =~= so_far.push(
                            hydrated(db@.nodes, position(db@.nodes, db@.links[k as int].source)),
                        ));
                        assert(found.deep_view() =~= rows_of(
                            db@.nodes,
                            sources(head.filter(pred).push(db@.links[k as int])),
                        ));
                    },
                    Err(_) => {},
                }
            }
            k = k + 1;
        }
        assert(db@.links.take(db.links.len() as int) =~= db@.links);
        Ok(found)
    }

    /// The nodes that refer to `node_id`; another name for the backlinks.
    pub fn get_linked_references(&self, db: &DatabaseService, node_id: &str) -> (r: AppResult<
        Vec<Node>,
    >)
        requires
            db.wf(),
        ensures
            r matches Ok(found) && found.deep_view() == rows_of(
                db@.nodes,
                sources(db@.links.filter(ends_at(node_id@))),
            ),
    {
        self.get_backlinks(db, node_id)
    }

    /// All nodes at which an edge from `node_id` ends, in the order of the
    /// edge table.
    pub fn get_outgoing_links(&self, db: &DatabaseService, node_id: &str) -> (r: AppResult<
        Vec<Node>,
    >)
        requires
            db.wf(),
        ensures
            r matches Ok(found) && found.deep_view() == rows_of(
                db@.nodes,
                ends(db@.links.filter(starts_at(node_id@))),
            ),
    {
        let ghost pred = starts_at(node_id@);
        let mut found: Vec<Node> = Vec::new();
        let mut k: usize = 0;
        assert(db@.links.take(0) =~= Seq::<LinkView>::empty());
        proof {
            reveal(Seq::filter);
        }
        assert(found.deep_view() =~= rows_of(db@.nodes, ends(db@.links.take(0).filter(pred))));
        while k < db.links.len()
            invariant
                db.wf(),
                pred == starts_at(node_id@),
                k <= db.links.len(),
                found.deep_view() == rows_of(
                    db@.nodes,
                    ends(db@.links.take(k as int).filter(pred)),
                ),
            decreases db.links.len() - k,
        {
            let ghost so_far = found.deep_view();
            let ghost head = db@.links.take(k as int);
            assert(db@.links.take(k + 1) =~= head.push(db@.links[k as int]));
            proof {
                head.lemma_filter_push(db@.links[k as int], pred);
            }
            let link = &db.links[k];
            if str_eq(link.source_node_id.as_str(), node_id) {
                match db.get_node(link.target_node_id.as_str()) {
                    Ok(node) => {
                        found.push(node);
                        assert(found.deep_view() =~= so_far.push(
                            hydrated(db@.nodes, position(db@.nodes, db@.links[k as int].target)),
                        ));
                        assert(found.deep_view() =~= rows_of(
                            db@.nodes,
                            ends(head.filter(pred).push(db@.links[k as int])),
                        ));
                    },
                    Err(_) => {},
                }
            }
            k = k + 1;
        }
        assert(db@.links.take(db.links.len() as int) =~= db@.links);
        Ok(found)
    }

    /// All nodes whose content holds `probe_text` somewhere, whether or not
    /// an edge exists, in the order in which they were written. The node
    /// `node_id` is among them if its own content holds the text.
    pub fn get_unlinked_references(&self, db: &DatabaseService, node_id: &str, probe_text: &str) -> (r:
        AppResult<Vec<Node>>)
        ensures
            r is Ok <==> has_node(db@.nodes, node_id@),
            r matches Ok(found) ==> found.deep_view() == hydrated_at(
                db@.nodes,
                places_where(db@.nodes, mentions(probe_text@), db@.nodes.len()),
            ),
            r is Err ==> is_not_found(r, node_id@),
    {
        if db.find(node_id).is_none() {
            return not_found(node_id);
        }
        let mut places: Vec<usize> = Vec::new();
        let mut i: usize = 0;
        while i < db.nodes.len()
            invariant
                i <= db.nodes.len(),
                as_ints(places@) == places_where(db@.nodes, mentions(probe_text@), i as nat),
                forall|k: int| 0 <= k < places@.len() ==> #[trigger] places@[k] < db@.nodes.len(),
            decreases db.nodes.len() - i,
        {
            let ghost before = as_ints(places@);
            let hit = contains(db.nodes[i].content.as_str(), probe_text);
            assert(hit == mentions(probe_text@)(db@.nodes[i as int]));
            if hit {
                places.push(i);
                assert(as_ints(places@) =~= before.push(i as int));
            }
            i = i + 1;
        }
        Ok(db.hydrate_all(&places))
    }

    /// Recomputes the outgoing edges of a node from the reference texts in
    /// the content that the caller hands in.
    pub fn update_links_for_node(&self, db: &mut DatabaseService, node: &Node) -> (r: AppResult<
        (),
    >)
        requires
            old(db).wf(),
        ensures
            final(db).wf(),
            r is Ok <==> has_node(old(db)@.nodes, node@.id),
            r is Ok ==> final(db)@ == relinked(old(db)@, node@.id, link_texts(node@.content)),
            r is Err ==> is_not_found(r, node@.id) && final(db)@ == old(db)@,
    {
        let texts = extract_link_texts(node.content.as_str());
        self.set_links(db, node.id.as_str(), &texts)
    }
}

/// Resynchronization replaces, it does not append: afterwards the edges that
/// start at the source are exactly one edge to each node that the reference
/// texts resolve to, whatever edges it had before, and every other edge and
/// every node is as it was.
pub proof fn law_resync_replaces(s: StoreView, source: Seq<char>, texts: Seq<Seq<char>>)
    requires
        store_wf(s),
        has_node(s.nodes, source),
    ensures
        store_wf(relinked(s, source, texts)),
        relinked(s, source, texts).nodes == s.nodes,
        relinked(s, source, texts).links.filter(starts_at(source)) == edges_from(
            source,
            targets(s.nodes, texts, texts.len()),
        ),
        relinked(s, source, texts).links.filter(not_from(source)) == s.links.filter(
            not_from(source),
        ),
        forall|a: int, b: int|
            0 <= a < b < targets(s.nodes, texts, texts.len()).len() ==> targets(
                s.nodes,
                texts,
                texts.len(),
            )[a] != targets(s.nodes, texts, texts.len())[b],
{
    lemma_relink_keeps_wf(s, source, texts);
    lemma_targets(s.nodes, texts, texts.len());
    let kept = s.links.filter(not_from(source));
    let fresh = edges_from(source, targets(s.nodes, texts, texts.len()));
    let whole = |link: LinkView| link;
    crate::services::database::model::lemma_filter_facts(s.links, not_from(source), whole);
    Seq::filter_distributes_over_add(kept, fresh, starts_at(source));
    Seq::filter_distributes_over_add(kept, fresh, not_from(source));
    lemma_filter_all_or_none(kept, starts_at(source));
    lemma_filter_all_or_none(kept, not_from(source));
    lemma_filter_all_or_none(fresh, starts_at(source));
    lemma_filter_all_or_none(fresh, not_from(source));
    assert(kept.filter(starts_at(source)) =~= Seq::<LinkView>::empty());
    assert(fresh.filter(not_from(source)) =~= Seq::<LinkView>::empty());
    assert(kept.filter(starts_at(source)) + fresh.filter(starts_at(source)) =~= fresh);
    assert(kept.filter(not_from(source)) + fresh.filter(not_from(source)) =~= kept);
}

/// Unresolved references are silent: where no reference text names a node,
/// resynchronization leaves the source without outgoing edges, and writing a
/// node afterwards adds no edge; only another resynchronization does.
pub proof fn law_unresolved_is_silent(
    s: StoreView,
    source: Seq<char>,
    texts: Seq<Seq<char>>,
    later: NodeView,
)
    requires
        store_wf(s),
        has_node(s.nodes, source),
        forall|k: int| 0 <= k < texts.len() ==> resolve(s.nodes, #[trigger] texts[k]) is None,
    ensures
        relinked(s, source, texts).links.filter(starts_at(source)).len() == 0,
        relinked(s, source, texts).links == s.links.filter(not_from(source)),
        with_row(relinked(s, source, texts), later).links == relinked(s, source, texts).links,
{
    lemma_no_targets(s.nodes, texts, texts.len());
    law_resync_replaces(s, source, texts);
    assert(edges_from(source, targets(s.nodes, texts, texts.len())) =~= Seq::<LinkView>::empty());
    assert(s.links.filter(not_from(source)) + Seq::<LinkView>::empty() =~= s.links.filter(
        not_from(source),
    ));
}

/// Reference texts that name no node resolve to nothing.
proof fn lemma_no_targets(nodes: Seq<NodeView>, texts: Seq<Seq<char>>, n: nat)
    requires
        n <= texts.len(),
        forall|k: int| 0 <= k < texts.len() ==> resolve(nodes, #[trigger] texts[k]) is None,
    ensures
        targets(nodes, texts, n).len() == 0,
    decreases n,
{
    if n > 0 {
        lemma_no_targets(nodes, texts, (n - 1) as nat);
    }
}

} // verus!
