//! Fuzzy string matching by edit distance, made tractable by a
//! vantage-point metric tree.
//!
//! The crate exposes three layers: `levenshtein` computes the edit
//! distance between two strings and proves it is a metric; `vptree`
//! builds a vantage-point tree over a corpus and answers
//! radius-bounded queries exactly; the crate root ties them together
//! by matching every string of one collection against an indexed
//! collection.

use vstd::prelude::*;

pub mod levenshtein;
pub mod vptree;

use crate::levenshtein::edit_dist;
use crate::vptree::VPTree;

verus! {

/// One query's outcome: the query string's position in its own
/// collection, and the original indices of every indexed string
/// within the radius.
pub struct Match {
    pub id: usize,
    pub connected_nodes: Vec<usize>,
}

/// What a reported match states: it carries its query's position, and
/// its connected nodes are exactly the indexed strings within the
/// radius of that query.
pub open spec fn match_ok(
    m: Match,
    qid: int,
    indexed: Seq<Seq<char>>,
    queried: Seq<Seq<char>>,
    radius: usize,
) -> bool {
    &&& m.id == qid
    &&& forall|j: usize|
        #[trigger] m.connected_nodes@.contains(j) <==> ((j as int) < indexed.len() && edit_dist(
            queried[qid],
            indexed[j as int],
        ) <= radius)
}

/// Matches two collections of strings against each other: the larger
/// collection (the second on ties) is indexed in a vantage-point tree,
/// and every string of the other collection queries it, yielding one
/// match per query string in that collection's order.
pub fn search_matches(vec1: Vec<String>, vec2: Vec<String>, radius: usize) -> (matches: Vec<
    Match,
>)
    ensures
        ({
            let v1 = vec1@.map_values(|s: String| s@);
            let v2 = vec2@.map_values(|s: String| s@);
            let indexed = if v1.len() > v2.len() {
                v1
            } else {
                v2
            };
            let queried = if v1.len() > v2.len() {
                v2
            } else {
                v1
            };
            &&& matches@.len() == queried.len()
            &&& forall|qid: int|
                0 <= qid < queried.len() ==> match_ok(
                    #[trigger] matches@[qid],
                    qid,
                    indexed,
                    queried,
                    radius,
                )
        }),
{
    let mut matches: Vec<Match> = Vec::new();
    let tree = if vec1.len() > vec2.len() {
        VPTree::new(vec1.as_slice())
    } else {
        VPTree::new(vec2.as_slice())
    };
    if vec1.len() > vec2.len() {
        let ghost indexed = vec1@.map_values(|s: String| s@);
        let ghost queried = vec2@.map_values(|s: String| s@);
        let mut id: usize = 0;
        while id < vec2.len()
            invariant
                tree.wf(),
                tree.corpus@ == indexed,
                indexed == vec1@.map_values(|s: String| s@),
                queried == vec2@.map_values(|s: String| s@),
                id <= vec2@.len(),
                matches@.len() == id,
                forall|qid: int|
                    0 <= qid < id ==> match_ok(
                        #[trigger] matches@[qid],
                        qid,
                        indexed,
                        queried,
                        radius,
                    ),
            decreases vec2@.len() - id,
        {
            let connected_nodes = tree.search(&vec2[id], radius);
            matches.push(Match { id, connected_nodes });
            id = id + 1;
        }
    } else {
        let ghost indexed = vec2@.map_values(|s: String| s@);
        let ghost queried = vec1@.map_values(|s: String| s@);
        let mut id: usize = 0;
        while id < vec1.len()
            invariant
                tree.wf(),
                tree.corpus@ == indexed,
                indexed == vec2@.map_values(|s: String| s@),
                queried == vec1@.map_values(|s: String| s@),
                id <= vec1@.len(),
                matches@.len() == id,
                forall|qid: int|
                    0 <= qid < id ==> match_ok(
                        #[trigger] matches@[qid],
                        qid,
                        indexed,
                        queried,
                        radius,
                    ),
            decreases vec1@.len() - id,
        {
            let connected_nodes = tree.search(&vec1[id], radius);
            matches.push(Match { id, connected_nodes });
            id = id + 1;
        }
    }
    matches
}

} // verus!
