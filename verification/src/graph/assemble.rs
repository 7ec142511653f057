//! Assembling a fetched graph from its rows: node rows first, keyed by id (a later row for the
//! same id replaces the earlier one), then relationship rows, which count towards the degree
//! of both ends and are kept only when both ends were fetched.

use vstd::prelude::*;
use vstd::hash_map::StringHashMap;

use crate::graph::model::{GraphData, GraphLink, GraphNode};
use crate::graph::options::FetchOptions;
use crate::graph::shape::{
    clean_props, cleaned_props, display_label, display_name, label_group, pick_label, pick_name,
    text_entries, RawProps,
};
use crate::sorted_map::{lemma_lex_total, lex_less};
use crate::text::{sort_texts, strings_view};

verus! {

broadcast use vstd::hash_map::group_hash_map_axioms;

/// Whether `n` is the node a row with this id, labels and properties becomes.
pub open spec fn is_row_node(
    n: GraphNode,
    id: Seq<char>,
    labels: Seq<Seq<char>>,
    props: RawProps,
    opts: FetchOptions,
) -> bool {
    &&& n.id@ == id
    &&& n.name@ == display_name(props, strings_view(opts.name_keys@))
    &&& n.label@ == display_label(labels, strings_view(opts.wrapper_labels@))
    &&& n.group@ == label_group(labels, strings_view(opts.wrapper_labels@))
    &&& n.deg == 0
    &&& text_entries(n.props) == cleaned_props(
        props,
        strings_view(opts.skip_props@),
        opts.max_prop_chars as nat,
    )
}

/// `n` with its degree replaced.
pub open spec fn with_deg(n: GraphNode, deg: u32) -> GraphNode {
    GraphNode { id: n.id, name: n.name, label: n.label, group: n.group, deg, props: n.props }
}

/// `m` with the degree of the node under `k` raised by one.
pub open spec fn bump(m: Map<Seq<char>, GraphNode>, k: Seq<char>) -> Map<Seq<char>, GraphNode> {
    m.insert(k, with_deg(m[k], (m[k].deg + 1) as u32))
}

/// A graph being assembled from rows.
pub struct GraphBuilder {
    slots: Vec<Option<GraphNode>>,
    positions: StringHashMap<usize>,
    links: Vec<GraphLink>,
}

impl GraphBuilder {
    /// The nodes so far, by id.
    pub closed spec fn node_map(&self) -> Map<Seq<char>, GraphNode> {
        Map::new(
            |k: Seq<char>| self.positions@.contains_key(k),
            |k: Seq<char>| self.slots@[self.positions@[k] as int]->Some_0,
        )
    }

    /// The links kept so far, in row order.
    pub closed spec fn links_view(&self) -> Seq<GraphLink> {
        self.links@
    }

    pub closed spec fn wf(&self) -> bool {
        &&& forall|k: Seq<char>|
            #[trigger] self.positions@.contains_key(k) ==> self.positions@[k] < self.slots@.len()
                && self.slots@[self.positions@[k] as int] is Some
                && self.slots@[self.positions@[k] as int]->Some_0.id@ == k
        &&& forall|i: int|
            0 <= i < self.slots@.len() ==> (#[trigger] self.slots@[i]) is Some
                && self.positions@.contains_key(self.slots@[i]->Some_0.id@)
                && self.positions@[self.slots@[i]->Some_0.id@] == i
        &&& self.links@.len() <= 0x7fff_ffff
        &&& forall|k: Seq<char>|
            #[trigger] self.positions@.contains_key(k) ==> self.slots@[self.positions@[
                k
            ] as int]->Some_0.deg <= 2 * self.links@.len()
    }

    pub fn new() -> (b: GraphBuilder)
        ensures
            b.wf(),
            b.node_map() == Map::<Seq<char>, GraphNode>::empty(),
            b.links_view() == Seq::<GraphLink>::empty(),
    {
        let b = GraphBuilder { slots: Vec::new(), positions: StringHashMap::new(), links: Vec::new() };
        assert(b.node_map() =~= Map::<Seq<char>, GraphNode>::empty());
        b
    }

    /// Number of distinct nodes so far.
    pub fn node_count(&self) -> (n: usize)
        requires
            self.wf(),
        ensures
            n == self.node_map().len(),
    {
        proof {
            self.lemma_dom_len();
        }
        self.slots.len()
    }

    /// Number of links kept so far.
    pub fn link_count(&self) -> (n: usize)
        ensures
            n == self.links_view().len(),
    {
        self.links.len()
    }

    proof fn lemma_dom_len(&self)
        requires
            self.wf(),
        ensures
            self.node_map().dom().len() == self.slots@.len(),
            self.node_map().dom().finite(),
    {
        let dom = self.node_map().dom();
        let ids = self.slots@.map_values(|o: Option<GraphNode>| o->Some_0.id@);
        assert forall|a: int, b: int| 0 <= a < b < ids.len() implies ids[a] != ids[b] by {
            assert(self.slots@[a] is Some);
            assert(self.slots@[b] is Some);
            assert(ids[a] == self.slots@[a]->Some_0.id@);
            assert(ids[b] == self.slots@[b]->Some_0.id@);
        }
        assert(ids.no_duplicates());
        assert forall|k: Seq<char>| dom.contains(k) <==> ids.contains(k) by {
            if dom.contains(k) {
                assert(self.positions@.contains_key(k));
                let p = self.positions@[k] as int;
                assert(ids[p] == k);
            }
            if ids.contains(k) {
                let i = choose|i: int| 0 <= i < ids.len() && ids[i] == k;
                assert(self.slots@[i] is Some);
                assert(ids[i] == self.slots@[i]->Some_0.id@);
            }
        }
        assert(dom =~= ids.to_set());
        ids.unique_seq_to_set();
        vstd::seq_lib::seq_to_set_is_finite(ids);
    }

    /// Add a node row: the row becomes a node (display name, display label, group and cleaned
    /// properties chosen as [`pick_name`], [`pick_label`] and [`clean_props`] choose them),
    /// replacing any earlier node with the same id.
    pub fn add_node_row(&mut self, id: String, labels: &[String], props: &RawProps, opts: &FetchOptions)
        requires
            old(self).wf(),
        ensures
            final(self).wf(),
            final(self).node_map().dom() == old(self).node_map().dom().insert(id@),
            is_row_node(final(self).node_map()[id@], id@, strings_view(labels@), *props, *opts),
            forall|k: Seq<char>|
                k != id@ && #[trigger] old(self).node_map().contains_key(k) ==> final(self).node_map()[k]
                    == old(self).node_map()[k],
            final(self).links_view() == old(self).links_view(),
    {
        let (label, group) = pick_label(labels, opts.wrapper_labels.as_slice());
        let node = GraphNode {
            id: id.clone(),
            name: pick_name(props, opts.name_keys.as_slice()),
            label,
            group,
            deg: 0,
            props: clean_props(props, opts),
        };
        let ghost old_map = self.node_map();
        match self.positions.get(id.as_str()) {
            Some(p) => {
                let p: usize = *p;
                self.slots[p] = Some(node);
            },
            None => {
                let p = self.slots.len();
                self.slots.push(Some(node));
                self.positions.insert(id, p);
            },
        }
        proof {
            assert(self.node_map().dom() =~= old_map.dom().insert(id@));
            assert forall|k: Seq<char>|
                k != id@ && #[trigger] old_map.contains_key(k) implies self.node_map()[k]
                == old_map[k] by {
            }
        }
    }

    /// Add a relationship row. It is kept, and counted towards the degree of both ends, only
    /// when both ends are nodes already added; otherwise nothing changes. Returns whether it
    /// was kept.
    pub fn add_link_row(&mut self, source: String, target: String, rel: String) -> (kept: bool)
        requires
            old(self).wf(),
            old(self).links_view().len() < 0x7fff_ffff,
        ensures
            final(self).wf(),
            kept == (old(self).node_map().contains_key(source@) && old(self).node_map().contains_key(
                target@,
            )),
            kept ==> final(self).node_map() == bump(bump(old(self).node_map(), source@), target@),
            kept ==> final(self).links_view() == old(self).links_view().push(
                (GraphLink { source, target, rel }),
            ),
            !kept ==> final(self).node_map() == old(self).node_map() && final(self).links_view()
                == old(self).links_view(),
    {
        let ps = match self.positions.get(source.as_str()) {
            Some(p) => *p,
            None => {
                return false;
            },
        };
        let pt = match self.positions.get(target.as_str()) {
            Some(p) => *p,
            None => {
                return false;
            },
        };
        let ghost m0 = self.node_map();
        let ghost slots0 = self.slots@;
        assert(self.slots@[ps as int]->Some_0.deg <= 2 * self.links@.len());
        let mut a = self.slots[ps].take().unwrap();
        a.deg = a.deg + 1;
        self.slots[ps] = Some(a);
        let ghost m1 = self.node_map();
        proof {
            assert(m1 =~= bump(m0, source@));
        }
        assert(self.slots@[pt as int]->Some_0.deg <= 2 * self.links@.len() + 1);
        let mut b = self.slots[pt].take().unwrap();
        b.deg = b.deg + 1;
        self.slots[pt] = Some(b);
        proof {
            assert(self.node_map() =~= bump(m1, target@));
        }
        self.links.push(GraphLink { source, target, rel });
        proof {
            assert forall|k: Seq<char>| #[trigger] self.positions@.contains_key(k) implies self.slots@[
                self.positions@[k] as int]->Some_0.deg <= 2 * self.links@.len() by {
                assert(slots0[self.positions@[k] as int]->Some_0.deg <= 2 * (self.links@.len()
                    - 1));
            }
        }
        true
    }

    /// The assembled graph: the nodes in ascending id order, then the links in row order.
    pub fn finish(self) -> (g: GraphData)
        requires
            self.wf(),
        ensures
            forall|i: int, j: int|
                0 <= i < j < g.nodes_view().len() ==> lex_less(
                    #[trigger] g.nodes_view()[i].id@,
                    #[trigger] g.nodes_view()[j].id@,
                ),
            forall|i: int|
                0 <= i < g.nodes_view().len() ==> self.node_map().contains_key(
                    #[trigger] g.nodes_view()[i].id@,
                ) && g.nodes_view()[i] == self.node_map()[g.nodes_view()[i].id@],
            forall|k: Seq<char>|
                #[trigger] self.node_map().contains_key(k) ==> exists|i: int|
                    0 <= i < g.nodes_view().len() && #[trigger] g.nodes_view()[i].id@ == k,
            g.links_view() == self.links_view(),
    {
        let GraphBuilder { mut slots, positions, links } = self;
        let ghost map = self.node_map();
        let mut ids: Vec<String> = Vec::new();
        let mut i: usize = 0;
        while i < slots.len()
            invariant
                i <= slots@.len(),
                slots@ == self.slots@,
                ids@.len() == i,
                forall|j: int|
                    0 <= j < i ==> (#[trigger] ids@[j])@ == slots@[j]->Some_0.id@,
                forall|j: int| 0 <= j < slots@.len() ==> (#[trigger] slots@[j]) is Some,
            decreases slots@.len() - i,
        {
            match &slots[i] {
                Some(n) => ids.push(n.id.clone()),
                None => {},
            }
            i = i + 1;
        }
        let ghost arrival = strings_view(ids@);
        proof {
            assert forall|a: int, b: int| 0 <= a < b < arrival.len() implies arrival[a]
                != arrival[b] by {
                assert(self.slots@[a] is Some);
                assert(self.slots@[b] is Some);
                assert(arrival[a] == ids@[a]@);
                assert(arrival[b] == ids@[b]@);
            }
            assert(arrival.no_duplicates());
            arrival.lemma_multiset_has_no_duplicates();
        }
        sort_texts(&mut ids);
        let ghost sorted = strings_view(ids@);
        proof {
            assert forall|x: Seq<char>| sorted.to_multiset().contains(x) implies sorted.to_multiset().count(x) == 1 by {
                assert(arrival.to_multiset().contains(x));
            }
            sorted.lemma_multiset_has_no_duplicates_conv();
            assert forall|x: Seq<char>| #[trigger] sorted.contains(x) <==> arrival.contains(x) by {
                vstd::seq_lib::to_multiset_contains(sorted, x);
                vstd::seq_lib::to_multiset_contains(arrival, x);
            }
        }
        let mut nodes: Vec<GraphNode> = Vec::new();
        let mut k: usize = 0;
        while k < ids.len()
            invariant
                k <= ids@.len(),
                sorted == strings_view(ids@),
                sorted.no_duplicates(),
                forall|x: Seq<char>| #[trigger] sorted.contains(x) <==> arrival.contains(x),
                arrival.len() == self.slots@.len(),
                forall|j: int| 0 <= j < arrival.len() ==> #[trigger] arrival[j] == self.slots@[j]->Some_0.id@,
                positions@ == self.positions@,
                slots@.len() == self.slots@.len(),
                self.wf(),
                map == self.node_map(),
                nodes@.len() == k,
                forall|j: int| 0 <= j < k ==> #[trigger] nodes@[j] == map[sorted[j]],
                forall|j: int|
                    k <= j < sorted.len() ==> slots@[positions@[#[trigger] sorted[j]] as int]
                        == self.slots@[positions@[sorted[j]] as int],
            decreases ids@.len() - k,
        {
            let ghost key = sorted[k as int];
            assert(ids@[k as int]@ == key);
            proof {
                assert(sorted.contains(key));
                assert(arrival.contains(key));
                let a = choose|a: int| 0 <= a < arrival.len() && arrival[a] == key;
                assert(self.slots@[a] is Some);
            }
            let p = *positions.get(ids[k].as_str()).unwrap();
            assert(slots@[p as int] == self.slots@[p as int]);
            let ghost before = slots@;
            let node = slots[p].take().unwrap();
            proof {
                assert forall|j: int|
                    k + 1 <= j < sorted.len() implies slots@[positions@[#[trigger] sorted[j]] as int]
                    == self.slots@[positions@[sorted[j]] as int] by {
                    let q = positions@[sorted[j]];
                    assert(sorted[j] != key);
                    assert(sorted.contains(sorted[j]));
                    assert(arrival.contains(sorted[j]));
                    let a = choose|a: int| 0 <= a < arrival.len() && arrival[a] == sorted[j];
                    assert(self.slots@[a] is Some);
                    assert(self.slots@[q as int]->Some_0.id@ == sorted[j]);
                    assert(self.slots@[p as int]->Some_0.id@ == key);
                    assert(q != p);
                    assert(before[q as int] == self.slots@[q as int]);
                }
            }
            nodes.push(node);
            k = k + 1;
        }
        proof {
            let g_nodes = nodes@;
            assert forall|i: int, j: int| 0 <= i < j < g_nodes.len() implies lex_less(
                #[trigger] g_nodes[i].id@,
                #[trigger] g_nodes[j].id@,
            ) by {
                assert(sorted.contains(sorted[i]) && arrival.contains(sorted[i]));
                assert(sorted.contains(sorted[j]) && arrival.contains(sorted[j]));
                let a = choose|a: int| 0 <= a < arrival.len() && arrival[a] == sorted[i];
                let b = choose|b: int| 0 <= b < arrival.len() && arrival[b] == sorted[j];
                assert(self.slots@[a] is Some);
                assert(self.slots@[b] is Some);
                assert(g_nodes[i].id@ == sorted[i]);
                assert(g_nodes[j].id@ == sorted[j]);
                assert(!lex_less(ids@[j]@, ids@[i]@));
                lemma_lex_total(sorted[i], sorted[j]);
            }
            assert forall|i: int| 0 <= i < g_nodes.len() implies map.contains_key(
                #[trigger] g_nodes[i].id@,
            ) && g_nodes[i] == map[g_nodes[i].id@] by {
                assert(sorted.contains(sorted[i]) && arrival.contains(sorted[i]));
                let a = choose|a: int| 0 <= a < arrival.len() && arrival[a] == sorted[i];
                assert(self.slots@[a] is Some);
            }
            assert forall|key: Seq<char>| #[trigger] map.contains_key(key) implies exists|i: int|
                0 <= i < g_nodes.len() && #[trigger] g_nodes[i].id@ == key by {
                let p = self.positions@[key] as int;
                assert(arrival[p] == key);
                assert(arrival.contains(key));
                assert(sorted.contains(key));
                let i = choose|i: int| 0 <= i < sorted.len() && sorted[i] == key;
                assert(self.slots@[p] is Some);
                assert(g_nodes[i].id@ == key);
            }
        }
        GraphData::new(nodes, links)
    }
}

/// The node map after relationship rows `rows` (source and target ids) have been added in
/// order, as [`GraphBuilder::add_link_row`] adds each one.
pub open spec fn after_links(m: Map<Seq<char>, GraphNode>, rows: Seq<(Seq<char>, Seq<char>)>) -> Map<
    Seq<char>,
    GraphNode,
>
    decreases rows.len(),
{
    if rows.len() == 0 {
        m
    } else {
        let before = after_links(m, rows.drop_last());
        let r = rows.last();
        if before.contains_key(r.0) && before.contains_key(r.1) {
            bump(bump(before, r.0), r.1)
        } else {
            before
        }
    }
}

/// How many ends of the kept rows (both ends among `held`) are `k`.
pub open spec fn incidence(rows: Seq<(Seq<char>, Seq<char>)>, held: Set<Seq<char>>, k: Seq<char>) -> int
    decreases rows.len(),
{
    if rows.len() == 0 {
        0
    } else {
        let r = rows.last();
        incidence(rows.drop_last(), held, k) + if held.contains(r.0) && held.contains(r.1) {
            (if r.0 == k {
                1int
            } else {
                0int
            }) + (if r.1 == k {
                1int
            } else {
                0int
            })
        } else {
            0int
        }
    }
}

/// A node's degree counts exactly the ends of the kept relationship rows that are that node
/// (a self-loop counts twice): the renderer sizes nodes by degree, so degree must match the
/// links actually emitted.
pub proof fn degrees_count_kept_links(
    m: Map<Seq<char>, GraphNode>,
    rows: Seq<(Seq<char>, Seq<char>)>,
    k: Seq<char>,
)
    requires
        m.contains_key(k),
        forall|j: Seq<char>| #[trigger] m.contains_key(j) ==> m[j].deg + 2 * rows.len() <= u32::MAX,
    ensures
        after_links(m, rows).dom() == m.dom(),
        after_links(m, rows)[k].deg == m[k].deg + incidence(rows, m.dom(), k),
    decreases rows.len(),
{
    if rows.len() > 0 {
        let init = rows.drop_last();
        degrees_count_kept_links(m, init, k);
        let before = after_links(m, init);
        let r = rows.last();
        assert forall|j: Seq<char>| #[trigger] before.contains_key(j) implies before[j].deg
            <= m[j].deg + 2 * init.len() by {
            degrees_count_kept_links(m, init, j);
            lemma_incidence_bound(init, m.dom(), j);
        }
        if before.contains_key(r.0) && before.contains_key(r.1) {
            let b1 = bump(before, r.0);
            assert(b1.dom() =~= before.dom());
            assert(bump(b1, r.1).dom() =~= before.dom());
        }
    }
}

proof fn lemma_incidence_bound(rows: Seq<(Seq<char>, Seq<char>)>, held: Set<Seq<char>>, k: Seq<char>)
    ensures
        0 <= incidence(rows, held, k) <= 2 * rows.len(),
    decreases rows.len(),
{
    if rows.len() > 0 {
        lemma_incidence_bound(rows.drop_last(), held, k);
    }
}

} // verus!
