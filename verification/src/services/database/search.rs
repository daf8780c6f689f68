//! Search over the tags and properties of the nodes, as the medium matches
//! them: against the JSON text in which it holds them.

use crate::errors::{AppError, AppResult};
use crate::json::{json_of_properties, json_of_texts, members_to_json, texts_to_json};
use crate::models::node::{Node, NodeView};
use crate::services::database::connection::DatabaseService;
use crate::services::database::model::{hydrated_at, places_where, selection, Listing};
use crate::ordering::as_ints;
use crate::text::{is_like, like};
use vstd::prelude::*;
use vstd::string::*;

verus! {

/// The first `n` texts with a space between each two.
pub open spec fn spaced(texts: Seq<Seq<char>>, n: nat) -> Seq<char>
    decreases n,
{
    if n == 0 {
        Seq::empty()
    } else if n == 1 {
        texts[0]
    } else {
        spaced(texts, (n - 1) as nat) + " "@ + texts[n - 1]
    }
}

/// The pattern that finds the tags: the tags with a space between each two,
/// anywhere in the text.
pub open spec fn tag_pattern(tags: Seq<Seq<char>>) -> Seq<char> {
    "%"@ + spaced(tags, tags.len()) + "%"@
}

/// The pattern that finds a text property: the key and the value as a member
/// of a JSON object, anywhere in the text.
pub open spec fn property_pattern(key: Seq<char>, value: Seq<char>) -> Seq<char> {
    "%\""@ + key + "\":\""@ + value + "\"%"@
}

/// The rows whose tags, written as JSON, match the pattern.
pub open spec fn tags_like(pattern: Seq<char>) -> spec_fn(NodeView) -> bool {
    |row: NodeView| is_like(pattern, json_of_texts(row.tags))
}

/// The rows whose properties, written as JSON, match the pattern.
pub open spec fn properties_like(pattern: Seq<char>) -> spec_fn(NodeView) -> bool {
    |row: NodeView| is_like(pattern, json_of_properties(row.properties))
}

/// The first `limit` items; all of them where the limit is negative.
pub open spec fn limited<A>(items: Seq<A>, limit: i64) -> Seq<A> {
    if limit < 0 || limit >= items.len() {
        items
    } else {
        items.take(limit as int)
    }
}

/// Cuts a list of places down to the limit.
fn cut(places: &mut Vec<usize>, limit: i64)
    ensures
        final(places)@ == limited(old(places)@, limit),
{
    if limit >= 0 && (limit as u64) < (places.len() as u64) {
        places.truncate(limit as usize);
        assert(places@ =~= old(places)@.take(limit as int));
    }
}

impl DatabaseService {
    /// The most recently updated nodes whose tags, as the medium writes
    /// them down, hold the given tags with a space between each two; `limit`
    /// at most, all of them where the limit is negative. In the tags `%`
    /// stands for any text and `_` for any character, and ASCII letters
    /// match in either case.
    pub fn search_nodes_by_tags(&self, tags: &Vec<String>, limit: i64) -> (r: AppResult<
        Vec<Node>,
    >)
        ensures
            r matches Ok(found) && found.deep_view() == limited(
                selection(
                    self@.nodes,
                    tags_like(tag_pattern(tags.deep_view())),
                    Listing::NewestUpdated,
                ),
                limit,
            ),
    {
        let mut pattern = String::from_str("%");
        let mut n: usize = 0;
        while n < tags.len()
            invariant
                n <= tags.len(),
                pattern@ == "%"@ + spaced(tags.deep_view(), n as nat),
            decreases tags.len() - n,
        {
            if n > 0 {
                pattern.append(" ");
            }
            pattern.append(tags[n].as_str());
            assert(pattern@ =~= "%"@ + spaced(tags.deep_view(), (n + 1) as nat));
            n = n + 1;
        }
        pattern.append("%");
        let ghost pred = tags_like(tag_pattern(tags.deep_view()));
        let mut places: Vec<usize> = Vec::new();
        let mut i: usize = 0;
        while i < self.nodes.len()
            invariant
                i <= self.nodes.len(),
                pattern@ == tag_pattern(tags.deep_view()),
                pred == tags_like(tag_pattern(tags.deep_view())),
                as_ints(places@) == places_where(self@.nodes, pred, i as nat),
                forall|k: int| 0 <= k < places@.len() ==> #[trigger] places@[k] < self@.nodes.len(),
            decreases self.nodes.len() - i,
        {
            let ghost before = as_ints(places@);
            let text = match texts_to_json(&self.nodes[i].tags) {
                Ok(text) => text,
                Err(e) => {
                    return Err(AppError::from_json(e));
                },
            };
            let hit = like(pattern.as_str(), text.as_str());
            assert(hit == pred(self@.nodes[i as int]));
            if hit {
                places.push(i);
                assert(as_ints(places@) =~= before.push(i as int));
            }
            i = i + 1;
        }
        Ok(self.newest_updated(&places, limit, Ghost(pred)))
    }

    /// The most recently updated nodes whose properties, as the medium
    /// writes them down, hold the key with the text value; `limit` at most,
    /// all of them where the limit is negative. In key and value `%` stands
    /// for any text and `_` for any character, and ASCII letters match in
    /// either case.
    pub fn search_nodes_by_properties(
        &self,
        property_key: &str,
        property_value: &str,
        limit: i64,
    ) -> (r: AppResult<Vec<Node>>)
        ensures
            r matches Ok(found) && found.deep_view() == limited(
                selection(
                    self@.nodes,
                    properties_like(property_pattern(property_key@, property_value@)),
                    Listing::NewestUpdated,
                ),
                limit,
            ),
    {
        let mut pattern = String::from_str("%\"");
        pattern.append(property_key);
        pattern.append("\":\"");
        pattern.append(property_value);
        pattern.append("\"%");
        let ghost pred = properties_like(property_pattern(property_key@, property_value@));
        let mut places: Vec<usize> = Vec::new();
        let mut i: usize = 0;
        while i < self.nodes.len()
            invariant
                i <= self.nodes.len(),
                pattern@ == property_pattern(property_key@, property_value@),
                pred == properties_like(property_pattern(property_key@, property_value@)),
                as_ints(places@) == places_where(self@.nodes, pred, i as nat),
                forall|k: int| 0 <= k < places@.len() ==> #[trigger] places@[k] < self@.nodes.len(),
            decreases self.nodes.len() - i,
        {
            let ghost before = as_ints(places@);
            let text = match members_to_json(self.nodes[i].properties.entries()) {
                Ok(text) => text,
                Err(e) => {
                    return Err(AppError::from_json(e));
                },
            };
            let hit = like(pattern.as_str(), text.as_str());
            assert(hit == pred(self@.nodes[i as int]));
            if hit {
                places.push(i);
                assert(as_ints(places@) =~= before.push(i as int));
            }
            i = i + 1;
        }
        Ok(self.newest_updated(&places, limit, Ghost(pred)))
    }

    /// The rows at the given places, the most recently updated first, cut
    /// down to the limit.
    fn newest_updated(
        &self,
        places: &Vec<usize>,
        limit: i64,
        Ghost(pred): Ghost<spec_fn(NodeView) -> bool>,
    ) -> (found: Vec<Node>)
        requires
            as_ints(places@) == places_where(self@.nodes, pred, self@.nodes.len()),
            forall|k: int| 0 <= k < places@.len() ==> #[trigger] places@[k] < self@.nodes.len(),
        ensures
            found.deep_view() == limited(
                selection(self@.nodes, pred, Listing::NewestUpdated),
                limit,
            ),
    {
        let mut in_order = self.list(places, Listing::NewestUpdated);
        let ghost all = as_ints(in_order@);
        cut(&mut in_order, limit);
        let found = self.hydrate_all(&in_order);
        assert(found.deep_view() =~= limited(hydrated_at(self@.nodes, all), limit));
        found
    }
}

} // verus!
