//! The `{nodes, links}` payload, and the indices built alongside it: an id index (so a detail
//! lookup is constant time) and undirected adjacency (so search can expand outward without
//! scanning every link).

use vstd::prelude::*;
use vstd::hash_map::StringHashMap;

use crate::graph::csr::{
    adjacency_counts_are_symmetric, adjacency_degrees_sum, adjacency_has_no_self_loops,
    adjacency_is_symmetric, adjacent, degree_total, lemma_occurrences_absent, occurrences,
    proper_ends, Csr,
};
use crate::sorted_map::SortedMap;

verus! {

broadcast use vstd::hash_map::group_hash_map_axioms;

pub struct GraphNode {
    pub id: String,
    pub name: String,
    pub label: String,
    pub group: String,
    pub deg: u32,
    /// Held server-side: served per node, never with the whole graph.
    pub props: SortedMap<String>,
}

pub struct GraphLink {
    pub source: String,
    pub target: String,
    pub rel: String,
}

/// One node *with* its properties, borrowed from the graph it belongs to.
pub struct NodeDetail<'a> {
    pub id: &'a str,
    pub name: &'a str,
    pub label: &'a str,
    pub group: &'a str,
    pub deg: u32,
    pub props: &'a SortedMap<String>,
}

pub open spec fn node_ids(nodes: Seq<GraphNode>) -> Seq<Seq<char>> {
    nodes.map_values(|n: GraphNode| n.id@)
}

/// The id index: each id mapped to the last position that holds it.
pub open spec fn index_map(ids: Seq<Seq<char>>) -> Map<Seq<char>, usize>
    decreases ids.len(),
{
    if ids.len() == 0 {
        Map::empty()
    } else {
        index_map(ids.drop_last()).insert(ids.last(), (ids.len() - 1) as usize)
    }
}

/// The index pair of every link whose two ends the index holds, in link order.
pub open spec fn link_pairs(index: Map<Seq<char>, usize>, links: Seq<GraphLink>) -> Seq<(u32, u32)>
    decreases links.len(),
{
    if links.len() == 0 {
        Seq::empty()
    } else {
        let rest = link_pairs(index, links.drop_last());
        let l = links.last();
        if index.contains_key(l.source@) && index.contains_key(l.target@) {
            rest.push((index[l.source@] as u32, index[l.target@] as u32))
        } else {
            rest
        }
    }
}

/// The links that join two distinct indexed nodes, as index pairs: the edges of the adjacency.
pub open spec fn link_ends(index: Map<Seq<char>, usize>, links: Seq<GraphLink>) -> Seq<
    (usize, usize),
>
    decreases links.len(),
{
    if links.len() == 0 {
        Seq::empty()
    } else {
        let rest = link_ends(index, links.drop_last());
        let l = links.last();
        if index.contains_key(l.source@) && index.contains_key(l.target@) && index[l.source@]
            != index[l.target@] {
            rest.push((index[l.source@], index[l.target@]))
        } else {
            rest
        }
    }
}

pub proof fn lemma_index_map(ids: Seq<Seq<char>>)
    requires
        ids.len() <= usize::MAX,
    ensures
        forall|k: Seq<char>|
            #[trigger] index_map(ids).contains_key(k) ==> index_map(ids)[k] < ids.len() && ids[index_map(
                ids,
            )[k] as int] == k,
        forall|i: int| 0 <= i < ids.len() ==> index_map(ids).contains_key(#[trigger] ids[i]),
    decreases ids.len(),
{
    if ids.len() > 0 {
        let init = ids.drop_last();
        lemma_index_map(init);
        assert forall|k: Seq<char>| #[trigger] index_map(ids).contains_key(k) implies index_map(
            ids,
        )[k] < ids.len() && ids[index_map(ids)[k] as int] == k by {
            if k != ids.last() {
                assert(index_map(init).contains_key(k));
                assert(index_map(ids)[k] == index_map(init)[k]);
                let j = index_map(init)[k] as int;
                assert(init[j] == k);
                assert(ids[j] == init[j]);
            } else {
                assert(index_map(ids)[k] == ids.len() - 1);
            }
        }
        assert forall|i: int| 0 <= i < ids.len() implies index_map(ids).contains_key(
            #[trigger] ids[i],
        ) by {
            if i < ids.len() - 1 {
                assert(ids.drop_last()[i] == ids[i]);
            }
        }
    }
}

proof fn lemma_link_ends(index: Map<Seq<char>, usize>, links: Seq<GraphLink>, n: nat)
    requires
        forall|k: Seq<char>| #[trigger] index.contains_key(k) ==> index[k] < n,
    ensures
        proper_ends(link_ends(index, links), n),
        link_ends(index, links).len() <= links.len(),
    decreases links.len(),
{
    if links.len() > 0 {
        lemma_link_ends(index, links.drop_last(), n);
    }
}

pub struct GraphData {
    nodes: Vec<GraphNode>,
    links: Vec<GraphLink>,
    index: StringHashMap<usize>,
    adjacency: Csr,
}

impl GraphData {
    pub closed spec fn nodes_view(&self) -> Seq<GraphNode> {
        self.nodes@
    }

    pub closed spec fn links_view(&self) -> Seq<GraphLink> {
        self.links@
    }

    /// The id index of this graph.
    pub open spec fn id_index(&self) -> Map<Seq<char>, usize> {
        index_map(node_ids(self.nodes_view()))
    }

    /// The edges of this graph's adjacency.
    pub open spec fn edges(&self) -> Seq<(usize, usize)> {
        link_ends(self.id_index(), self.links_view())
    }

    #[verifier::type_invariant]
    closed spec fn consistent(self) -> bool {
        &&& self.index@ == index_map(node_ids(self.nodes@))
        &&& self.adjacency.node_count() == self.nodes@.len()
        &&& forall|v: int|
            0 <= v < self.nodes@.len() ==> #[trigger] self.adjacency.list(v) == adjacent(
                link_ends(index_map(node_ids(self.nodes@)), self.links@),
                v,
            )
    }

    /// Build the payload and its indices together, so they can never drift apart.
    pub fn new(nodes: Vec<GraphNode>, links: Vec<GraphLink>) -> (g: GraphData)
        requires
            links@.len() * 2 <= u32::MAX,
        ensures
            g.nodes_view() == nodes@,
            g.links_view() == links@,
    {
        let ghost ids = node_ids(nodes@);
        let mut index: StringHashMap<usize> = StringHashMap::new();
        let mut i: usize = 0;
        assert(ids.take(0) =~= Seq::<Seq<char>>::empty());
        while i < nodes.len()
            invariant
                i <= nodes@.len() == ids.len(),
                ids == node_ids(nodes@),
                index@ == index_map(ids.take(i as int)),
            decreases nodes@.len() - i,
        {
            assert(ids.take(i + 1).drop_last() =~= ids.take(i as int));
            assert(ids.take(i + 1).last() == nodes@[i as int].id@);
            index.insert(nodes[i].id.clone(), i);
            i = i + 1;
        }
        assert(ids.take(i as int) =~= ids);
        proof {
            lemma_index_map(ids);
        }
        let mut ends: Vec<(usize, usize)> = Vec::new();
        let mut k: usize = 0;
        assert(links@.take(0) =~= Seq::<GraphLink>::empty());
        while k < links.len()
            invariant
                k <= links@.len(),
                index@ == index_map(ids),
                ends@ == link_ends(index@, links@.take(k as int)),
            decreases links@.len() - k,
        {
            assert(links@.take(k + 1).drop_last() =~= links@.take(k as int));
            let l = &links[k];
            match (index.get(l.source.as_str()), index.get(l.target.as_str())) {
                (Some(s), Some(t)) => {
                    if *s != *t {
                        ends.push((*s, *t));
                    }
                },
                _ => {},
            }
            k = k + 1;
        }
        assert(links@.take(k as int) =~= links@);
        proof {
            lemma_link_ends(index@, links@, nodes@.len() as nat);
        }
        let adjacency = Csr::from_ends(nodes.len(), &ends);
        GraphData { nodes, links, index, adjacency }
    }

    pub fn nodes(&self) -> (r: &Vec<GraphNode>)
        ensures
            r@ == self.nodes_view(),
    {
        &self.nodes
    }

    pub fn links(&self) -> (r: &Vec<GraphLink>)
        ensures
            r@ == self.links_view(),
    {
        &self.links
    }

    /// Index of the node with `id`, if the graph holds it (the last such node, were an id
    /// held twice).
    pub fn index_of(&self, id: &str) -> (r: Option<usize>)
        ensures
            r == (if self.id_index().contains_key(id@) {
                Some(self.id_index()[id@])
            } else {
                None
            }),
            r matches Some(i) ==> i < self.nodes_view().len() && self.nodes_view()[i as int].id@
                == id@,
    {
        proof {
            use_type_invariant(self);
        }
        assert(self.nodes@.len() == self.nodes.len());
        proof {
            lemma_index_map(node_ids(self.nodes@));
        }
        match self.index.get(id) {
            Some(i) => Some(*i),
            None => None,
        }
    }

    /// The neighbouring node indices of node `i`, in constant time: the other end of every
    /// link between `i` and another node, in link order.
    pub fn neighbours(&self, i: usize) -> (r: &[u32])
        requires
            i < self.nodes_view().len(),
        ensures
            r@ == adjacent(self.edges(), i as int),
    {
        proof {
            use_type_invariant(self);
        }
        self.adjacency.of(i)
    }

    /// The index pair of every link whose ends are both in the graph, in link order.
    pub fn edge_pairs(&self) -> (r: Vec<(u32, u32)>)
        ensures
            r@ == link_pairs(self.id_index(), self.links_view()),
    {
        proof {
            use_type_invariant(self);
        }
        let mut pairs: Vec<(u32, u32)> = Vec::new();
        let mut k: usize = 0;
        assert(self.links@.take(0) =~= Seq::<GraphLink>::empty());
        while k < self.links.len()
            invariant
                k <= self.links@.len(),
                self.index@ == self.id_index(),
                pairs@ == link_pairs(self.index@, self.links@.take(k as int)),
            decreases self.links@.len() - k,
        {
            assert(self.links@.take(k + 1).drop_last() =~= self.links@.take(k as int));
            let l = &self.links[k];
            match (self.index.get(l.source.as_str()), self.index.get(l.target.as_str())) {
                (Some(s), Some(t)) => {
                    pairs.push((*s as u32, *t as u32));
                },
                _ => {},
            }
            k = k + 1;
        }
        assert(self.links@.take(k as int) =~= self.links@);
        pairs
    }

    /// The node with `id`, with its properties, or `None` when the graph does not hold it.
    pub fn detail(&self, id: &str) -> (r: Option<NodeDetail<'_>>)
        ensures
            match r {
                Some(d) => {
                    &&& self.id_index().contains_key(id@)
                    &&& self.id_index()[id@] < self.nodes_view().len()
                    &&& {
                        let n = self.nodes_view()[self.id_index()[id@] as int];
                        &&& d.id@ == n.id@
                        &&& d.name@ == n.name@
                        &&& d.label@ == n.label@
                        &&& d.group@ == n.group@
                        &&& d.deg == n.deg
                        &&& *d.props == n.props
                    }
                },
                None => !self.id_index().contains_key(id@),
            },
    {
        match self.index_of(id) {
            Some(i) => {
                let n = &self.nodes[i];
                Some(
                    NodeDetail {
                        id: n.id.as_str(),
                        name: n.name.as_str(),
                        label: n.label.as_str(),
                        group: n.group.as_str(),
                        deg: n.deg,
                        props: &n.props,
                    },
                )
            },
            None => None,
        }
    }
}

/// The graph's adjacency is undirected: `v` is a neighbour of `u` exactly when `u` is a
/// neighbour of `v`, whichever way the links between them point.
pub proof fn neighbours_are_symmetric(g: GraphData, u: usize, v: usize)
    requires
        u < g.nodes_view().len(),
        v < g.nodes_view().len(),
        g.nodes_view().len() <= u32::MAX,
    ensures
        adjacent(g.edges(), u as int).contains(v as u32) <==> adjacent(g.edges(), v as int).contains(
            u as u32,
        ),
{
    let ids = node_ids(g.nodes_view());
    lemma_index_map(ids);
    lemma_link_ends(g.id_index(), g.links_view(), g.nodes_view().len() as nat);
    adjacency_is_symmetric(g.edges(), g.nodes_view().len() as nat, u, v);
}

/// Neighbour lists count every link between two distinct nodes once at each end: `v` occurs
/// among `u`'s neighbours exactly as often as `u` among `v`'s, no node is its own neighbour, and
/// the lists of all nodes together hold two entries per such link.
pub proof fn neighbour_lists_count_each_link_twice(g: GraphData, u: usize, v: usize)
    requires
        u < g.nodes_view().len(),
        v < g.nodes_view().len(),
        g.nodes_view().len() <= u32::MAX,
    ensures
        occurrences(adjacent(g.edges(), u as int), v as u32) == occurrences(
            adjacent(g.edges(), v as int),
            u as u32,
        ),
        occurrences(adjacent(g.edges(), u as int), u as u32) == 0,
        degree_total(g.edges(), g.nodes_view().len() as nat) == 2 * g.edges().len(),
{
    let n = g.nodes_view().len() as nat;
    let ids = node_ids(g.nodes_view());
    lemma_index_map(ids);
    lemma_link_ends(g.id_index(), g.links_view(), n);
    adjacency_counts_are_symmetric(g.edges(), n, u, v);
    adjacency_has_no_self_loops(g.edges(), n, u);
    lemma_occurrences_absent(adjacent(g.edges(), u as int), u as u32);
    adjacency_degrees_sum(g.edges(), n);
}

} // verus!
