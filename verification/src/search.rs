//! The non-numeric half of search: how strongly a query matches each field of each node, as
//! the fuzzy matcher scores it, and the subgraph a search result is laid out on. Turning
//! scores into weighted, normalized relevance is floating-point work and stays with the caller.

use vstd::prelude::*;
use vstd::hash_map::HashMapWithView;

use crate::graph::model::{link_pairs, GraphData, GraphNode};
use crate::text::strings_view;

verus! {

broadcast use vstd::hash_map::group_hash_map_axioms;

#[verifier::external_type_specification]
#[verifier::external_body]
pub struct ExMatcher(nucleo_matcher::Matcher);

/// The score the fuzzy matcher gives `text` against `query`, or `None` when it does not match.
pub uninterp spec fn fuzzy_score(query: Seq<char>, text: Seq<char>) -> Option<u32>;

/// The Unicode lower-case form of a text.
pub uninterp spec fn lowercase(text: Seq<char>) -> Seq<char>;

/// A fuzzy matcher with the default configuration, and the scratch space it matches in.
pub struct FuzzyMatcher {
    matcher: nucleo_matcher::Matcher,
    buf: Vec<char>,
}

/// `nucleo_matcher::Matcher::new(Config::DEFAULT)`: a matcher with the default configuration.
/// Nothing is claimed of the value; it is only ever handed back to [`pattern_score`].
#[verifier::external_body]
fn default_matcher() -> nucleo_matcher::Matcher {
    nucleo_matcher::Matcher::new(nucleo_matcher::Config::DEFAULT)
}

/// The longest query, in characters, the matcher scores without overflow: its own needle limit.
/// A word's score is a `u16` that grows by at most 26 per matched character plus a few fixed
/// bonuses, so a needle of this many characters stays below `u16::MAX`.
pub const MAX_QUERY_CHARS: usize = 2048;

/// `Pattern::parse(query, CaseMatching::Ignore, Normalization::Smart)` scored against `text`
/// with `Pattern::score`, on a matcher made by [`default_matcher`]. Claimed: the score is
/// [`fuzzy_score`] of the two texts, for any scratch buffer. Pattern scoring sets the case and
/// normalization settings of the matcher from the pattern on every call, and every other
/// setting stays the default, so the result depends on the two texts alone. The matcher
/// panics on a text of more than `u32::MAX` characters, and a word's `u16` score overflows on
/// a needle far beyond [`MAX_QUERY_CHARS`] (no word's needle is longer than the query), so the
/// query is bounded as well.
#[verifier::external_body]
fn pattern_score(
    matcher: &mut nucleo_matcher::Matcher,
    buf: &mut Vec<char>,
    query: &str,
    text: &str,
) -> (r: Option<u32>)
    requires
        query@.len() <= MAX_QUERY_CHARS,
        text@.len() <= u32::MAX,
    ensures
        r == fuzzy_score(query@, text@),
{
    let pattern = nucleo_matcher::pattern::Pattern::parse(
        query,
        nucleo_matcher::pattern::CaseMatching::Ignore,
        nucleo_matcher::pattern::Normalization::Smart,
    );
    pattern.score(nucleo_matcher::Utf32Str::new(text, buf), matcher)
}

/// `str::to_lowercase`: the text with every character mapped to its Unicode lower case.
#[verifier::external_body]
fn to_lowercase(text: &str) -> (r: String)
    ensures
        r@ == lowercase(text@),
{
    text.to_lowercase()
}

impl FuzzyMatcher {
    pub fn new() -> FuzzyMatcher {
        FuzzyMatcher { matcher: default_matcher(), buf: Vec::new() }
    }

    /// The fuzzy score of `text` against `query`, zero when it does not match.
    pub fn score(&mut self, query: &str, text: &str) -> (r: u32)
        requires
            query@.len() <= MAX_QUERY_CHARS,
            text@.len() <= u32::MAX,
        ensures
            r == score_or_zero(fuzzy_score(query@, text@)),
    {
        match pattern_score(&mut self.matcher, &mut self.buf, query, text) {
            Some(s) => s,
            None => 0,
        }
    }
}

pub open spec fn score_or_zero(s: Option<u32>) -> u32 {
    match s {
        Some(v) => v,
        None => 0,
    }
}

/// The best score among `texts`, zero when there are none.
pub open spec fn best_score(query: Seq<char>, texts: Seq<Seq<char>>) -> u32
    decreases texts.len(),
{
    if texts.len() == 0 {
        0
    } else {
        let rest = best_score(query, texts.drop_last());
        let s = score_or_zero(fuzzy_score(query, texts.last()));
        if s > rest {
            s
        } else {
            rest
        }
    }
}

/// The best score is the maximum over all the texts: at least the score of every one of them,
/// and the score of one of them (zero when there are none).
pub proof fn best_score_is_the_maximum(query: Seq<char>, texts: Seq<Seq<char>>)
    ensures
        forall|k: int|
            0 <= k < texts.len() ==> best_score(query, texts) >= score_or_zero(
                fuzzy_score(query, #[trigger] texts[k]),
            ),
        texts.len() == 0 ==> best_score(query, texts) == 0,
        texts.len() > 0 ==> exists|k: int|
            0 <= k < texts.len() && best_score(query, texts) == score_or_zero(
                fuzzy_score(query, #[trigger] texts[k]),
            ),
    decreases texts.len(),
{
    if texts.len() > 0 {
        let init = texts.drop_last();
        best_score_is_the_maximum(query, init);
        assert forall|k: int| 0 <= k < texts.len() implies best_score(query, texts) >= score_or_zero(
            fuzzy_score(query, #[trigger] texts[k]),
        ) by {
            if k < init.len() {
                assert(init[k] == texts[k]);
            }
        }
        let last = texts.len() - 1;
        assert(texts[last] == texts.last());
        if init.len() > 0 {
            let k = choose|k: int|
                0 <= k < init.len() && best_score(query, init) == score_or_zero(
                    fuzzy_score(query, #[trigger] init[k]),
                );
            assert(init[k] == texts[k]);
        }
    }
}

/// What the matcher makes of one node.
pub struct LexicalEvidence {
    /// Score of the node's name.
    pub name_score: u32,
    /// How many characters longer than the query the name is (zero when it is not longer).
    pub name_extra: usize,
    /// Whether the name is the query, ignoring case.
    pub exact_name: bool,
    /// Score of the node's label.
    pub label_score: u32,
    /// Best score among the node's property values.
    pub props_score: u32,
}

/// The property values of a node, in key order.
pub open spec fn prop_values(node: GraphNode) -> Seq<Seq<char>> {
    node.props.entries_view().map_values(|e: (Seq<char>, String)| e.1@)
}

/// Every text of `node` the matcher is run on is within its limit.
pub open spec fn matchable(node: GraphNode) -> bool {
    &&& node.name@.len() <= u32::MAX
    &&& node.label@.len() <= u32::MAX
    &&& forall|i: int| 0 <= i < prop_values(node).len() ==> (#[trigger] prop_values(node)[i]).len() <= u32::MAX
}

pub open spec fn evidence_of(e: LexicalEvidence, query: Seq<char>, node: GraphNode) -> bool {
    &&& e.name_score == score_or_zero(fuzzy_score(query, node.name@))
    &&& e.name_extra == (if node.name@.len() > query.len() {
        node.name@.len() - query.len()
    } else {
        0
    })
    &&& e.exact_name == (lowercase(node.name@) == lowercase(query))
    &&& e.label_score == score_or_zero(fuzzy_score(query, node.label@))
    &&& e.props_score == best_score(query, prop_values(node))
}

/// Score every node against `query`: its name, its label, and the best of its property values,
/// with the facts the ranking needs about the name.
pub fn lexical_evidence(data: &GraphData, query: &str) -> (r: Vec<LexicalEvidence>)
    requires
        query@.len() <= MAX_QUERY_CHARS,
        forall|i: int| 0 <= i < data.nodes_view().len() ==> matchable(#[trigger] data.nodes_view()[i]),
    ensures
        r@.len() == data.nodes_view().len(),
        forall|i: int|
            0 <= i < r@.len() ==> evidence_of(#[trigger] r@[i], query@, data.nodes_view()[i]),
        forall|i: int, k: int|
            0 <= i < r@.len() && 0 <= k < prop_values(data.nodes_view()[i]).len() ==> (
            #[trigger] r@[i]).props_score >= score_or_zero(
                fuzzy_score(query@, #[trigger] prop_values(data.nodes_view()[i])[k]),
            ),
{
    let nodes = data.nodes();
    let mut matcher = FuzzyMatcher::new();
    let query_lower = to_lowercase(query);
    let query_chars = query.unicode_len();
    let mut out: Vec<LexicalEvidence> = Vec::new();
    let mut i: usize = 0;
    while i < nodes.len()
        invariant
            i <= nodes@.len(),
            nodes@ == data.nodes_view(),
            query@.len() <= MAX_QUERY_CHARS,
            forall|k: int| 0 <= k < nodes@.len() ==> matchable(#[trigger] nodes@[k]),
            query_lower@ == lowercase(query@),
            query_chars == query@.len(),
            out@.len() == i,
            forall|k: int| 0 <= k < i ==> evidence_of(#[trigger] out@[k], query@, nodes@[k]),
            forall|k: int, p: int|
                0 <= k < i && 0 <= p < prop_values(nodes@[k]).len() ==> (#[trigger] out@[k]).props_score
                    >= score_or_zero(fuzzy_score(query@, #[trigger] prop_values(nodes@[k])[p])),
        decreases nodes@.len() - i,
    {
        let node = &nodes[i];
        assert(matchable(nodes@[i as int]));
        let name_score = matcher.score(query, node.name.as_str());
        let name_chars = node.name.as_str().unicode_len();
        let name_extra = if name_chars > query_chars {
            name_chars - query_chars
        } else {
            0
        };
        let name_lower = to_lowercase(node.name.as_str());
        let exact_name = name_lower == query_lower;
        let label_score = matcher.score(query, node.label.as_str());
        let values = node.props.as_slice();
        let ghost vals = prop_values(*node);
        let mut best: u32 = 0;
        let mut j: usize = 0;
        assert(vals.take(0) =~= Seq::<Seq<char>>::empty());
        while j < values.len()
            invariant
                j <= values@.len() == vals.len(),
                vals == prop_values(*node),
                query@.len() <= MAX_QUERY_CHARS,
                forall|k: int| 0 <= k < vals.len() ==> (#[trigger] vals[k]).len() <= u32::MAX,
                forall|k: int| 0 <= k < values@.len() ==> (#[trigger] values@[k]).1@ == vals[k],
                best == best_score(query@, vals.take(j as int)),
            decreases values@.len() - j,
        {
            let s = matcher.score(query, values[j].1.as_str());
            assert(vals.take(j + 1).drop_last() =~= vals.take(j as int));
            if s > best {
                best = s;
            }
            j = j + 1;
        }
        assert(vals.take(j as int) =~= vals);
        proof {
            best_score_is_the_maximum(query@, vals);
        }
        out.push(LexicalEvidence { name_score, name_extra, exact_name, label_score, props_score: best });
        i = i + 1;
    }
    out
}

/// For each graph index that one of `visible` stands at, its slot among `visible` (the last
/// slot, were a node listed twice), both as `u32`.
pub open spec fn local_slots(index: Map<Seq<char>, usize>, visible: Seq<Seq<char>>) -> Map<u32, u32>
    decreases visible.len(),
{
    if visible.len() == 0 {
        Map::empty()
    } else {
        let rest = local_slots(index, visible.drop_last());
        if index.contains_key(visible.last()) {
            rest.insert(index[visible.last()] as u32, (visible.len() - 1) as u32)
        } else {
            rest
        }
    }
}

/// The edges among the visible nodes, renumbered to slots, in link order.
pub open spec fn local_pairs(slots: Map<u32, u32>, pairs: Seq<(u32, u32)>) -> Seq<(u32, u32)>
    decreases pairs.len(),
{
    if pairs.len() == 0 {
        Seq::empty()
    } else {
        let rest = local_pairs(slots, pairs.drop_last());
        let p = pairs.last();
        if slots.contains_key(p.0) && slots.contains_key(p.1) {
            rest.push((slots[p.0], slots[p.1]))
        } else {
            rest
        }
    }
}

/// The edges of the subgraph a search result is laid out on: every link whose ends are both
/// among `visible`, with each end renumbered to its slot in `visible`.
pub fn local_edges(data: &GraphData, visible: &[String]) -> (r: Vec<(u32, u32)>)
    ensures
        r@ == local_pairs(
            local_slots(data.id_index(), strings_view(visible@)),
            link_pairs(data.id_index(), data.links_view()),
        ),
{
    let ghost vis = strings_view(visible@);
    let mut slots: HashMapWithView<u32, u32> = HashMapWithView::new();
    let mut k: usize = 0;
    assert(vis.take(0) =~= Seq::<Seq<char>>::empty());
    while k < visible.len()
        invariant
            k <= visible@.len() == vis.len(),
            vis == strings_view(visible@),
            slots@ == local_slots(data.id_index(), vis.take(k as int)),
        decreases visible@.len() - k,
    {
        assert(vis.take(k + 1).drop_last() =~= vis.take(k as int));
        assert(vis.take(k + 1).last() == visible@[k as int]@);
        match data.index_of(visible[k].as_str()) {
            Some(i) => {
                slots.insert(i as u32, k as u32);
            },
            None => {},
        }
        k = k + 1;
    }
    assert(vis.take(k as int) =~= vis);
    let pairs = data.edge_pairs();
    let mut out: Vec<(u32, u32)> = Vec::new();
    let mut j: usize = 0;
    assert(pairs@.take(0) =~= Seq::<(u32, u32)>::empty());
    while j < pairs.len()
        invariant
            j <= pairs@.len(),
            out@ == local_pairs(slots@, pairs@.take(j as int)),
        decreases pairs@.len() - j,
    {
        let (s, t) = pairs[j];
        assert(pairs@.take(j + 1).drop_last() =~= pairs@.take(j as int));
        match (slots.get(&s), slots.get(&t)) {
            (Some(a), Some(b)) => {
                out.push((*a, *b));
            },
            _ => {},
        }
        j = j + 1;
    }
    assert(pairs@.take(j as int) =~= pairs@);
    out
}

} // verus!
