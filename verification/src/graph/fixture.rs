//! A synthetic graph generator, for benchmarking and CI: reproducible, and needing no database.

use vstd::prelude::*;

use crate::graph::csr::{adjacent, lemma_sum_bump, lemma_sum_prefix_elem, lemma_sum_zero, seq_sum};
use crate::graph::model::{index_map, link_ends, node_ids, GraphData, GraphLink, GraphNode};
use crate::graph::options::FetchOptions;
use crate::graph::shape::{stringify_value, text_entries, truncated, PropValue};
use crate::number::{decimal, decimal_string, lemma_decimal_injective};
use crate::sorted_map::SortedMap;

verus! {

pub const XORSHIFT_MULTIPLIER: u64 = 0x2545_F491_4F6C_DD1D;

/// One xorshift64 step.
pub open spec fn xorshift(x: u64) -> u64 {
    let a = x ^ (x >> 12u64);
    let b = a ^ (a << 25u64);
    b ^ (b >> 27u64)
}

/// The output that goes with a state: the state times the xorshift64* multiplier, wrapped.
pub open spec fn scramble(x: u64) -> u64 {
    ((x as nat * XORSHIFT_MULTIPLIER as nat) % 0x1_0000_0000_0000_0000) as u64
}

/// The state a zero seed starts from, since xorshift never leaves the all-zero state.
pub const ZERO_SEED_STATE: u64 = 0x9E37_79B9_7F4A_7C15;

/// The generator state a seed starts from: the seed itself, except for zero, which starts from
/// [`ZERO_SEED_STATE`]. Every bit of the seed counts.
pub open spec fn seed_state(seed: u64) -> u64 {
    if seed == 0 {
        ZERO_SEED_STATE
    } else {
        seed
    }
}

/// Deterministic xorshift64* generator: the same seed always gives the same sequence.
pub struct XorShift {
    state: u64,
}

impl XorShift {
    pub closed spec fn state(&self) -> u64 {
        self.state
    }

    /// A generator seeded with `seed`, starting from [`seed_state`].
    pub fn from_seed(seed: u64) -> (r: XorShift)
        ensures
            r.state() == seed_state(seed),
    {
        let state: u64 = if seed == 0 {
            ZERO_SEED_STATE
        } else {
            seed
        };
        XorShift { state }
    }

    /// The next value.
    pub fn next(&mut self) -> (r: u64)
        ensures
            final(self).state() == xorshift(old(self).state()),
            r == scramble(xorshift(old(self).state())),
    {
        let mut x: u64 = self.state;
        x = x ^ (x >> 12u64);
        x = x ^ (x << 25u64);
        x = x ^ (x >> 27u64);
        self.state = x;
        x.wrapping_mul(XORSHIFT_MULTIPLIER)
    }

    /// Uniform in `0..n`.
    pub fn below(&mut self, n: usize) -> (r: usize)
        requires
            n != 0,
        ensures
            final(self).state() == xorshift(old(self).state()),
            r == scramble(xorshift(old(self).state())) % (n as u64),
            r < n,
    {
        let v = self.next();
        (v % (n as u64)) as usize
    }
}

fn holds(v: &Vec<usize>, x: usize) -> (r: bool)
    ensures
        r == v@.contains(x),
{
    let mut i: usize = 0;
    while i < v.len()
        invariant
            i <= v.len(),
            forall|k: int| 0 <= k < i ==> v@[k] != x,
        decreases v.len() - i,
    {
        if v[i] == x {
            return true;
        }
        i = i + 1;
    }
    false
}

/// The structural promises of a preferential-attachment edge list over `n` nodes: each edge
/// runs from a node to an earlier one, edges are grouped by their source in ascending order,
/// and no source links the same target twice.
pub open spec fn attachment_edges(pairs: Seq<(usize, usize)>, n: nat) -> bool {
    &&& forall|k: int| 0 <= k < pairs.len() ==> (#[trigger] pairs[k]).1 < pairs[k].0 < n
    &&& forall|k: int, j: int|
        0 <= k < j < pairs.len() ==> (#[trigger] pairs[k]).0 <= (#[trigger] pairs[j]).0
    &&& forall|k: int, j: int|
        0 <= k < j < pairs.len() && (#[trigger] pairs[k]).0 == (#[trigger] pairs[j]).0 ==> pairs[k].1
            != pairs[j].1
}

/// One draw from the pool: advance the generator, then pick uniformly by its output.
pub open spec fn draw(pool: Seq<usize>, s: u64) -> (usize, u64) {
    let s1 = xorshift(s);
    (pool[(scramble(s1) % (pool.len() as u64)) as int], s1)
}

/// Redraw while the pick has already been chosen, at most four times in all.
pub open spec fn redraw(chosen: Seq<usize>, pool: Seq<usize>, pick: usize, s: u64, tries: nat) -> (
    usize,
    u64,
)
    decreases 4 - tries,
{
    if tries < 4 && chosen.contains(pick) {
        let (p, s1) = draw(pool, s);
        redraw(chosen, pool, p, s1, tries + 1)
    } else {
        (pick, s)
    }
}

/// One round of target selection: a draw, its redraws, and the pick kept unless it repeats.
pub open spec fn pick_round(chosen: Seq<usize>, pool: Seq<usize>, s: u64) -> (Seq<usize>, u64) {
    let (p0, s1) = draw(pool, s);
    let (p, s2) = redraw(chosen, pool, p0, s1, 0);
    (
        if chosen.contains(p) {
            chosen
        } else {
            chosen.push(p)
        },
        s2,
    )
}

/// The targets one node picks in `r` rounds, and the generator state after them.
pub open spec fn pick_rounds(pool: Seq<usize>, s: u64, r: nat) -> (Seq<usize>, u64)
    decreases r,
{
    if r == 0 {
        (Seq::empty(), s)
    } else {
        let (c, s1) = pick_rounds(pool, s, (r - 1) as nat);
        pick_round(c, pool, s1)
    }
}

/// What the draw pool gains when node `i` links to each of `c`: both ends of every edge.
pub open spec fn pool_growth(i: usize, c: Seq<usize>) -> Seq<usize>
    decreases c.len(),
{
    if c.len() == 0 {
        Seq::empty()
    } else {
        pool_growth(i, c.drop_last()) + seq![i, c.last()]
    }
}

/// The edges, draw pool and generator state once nodes `1..i` have picked their targets,
/// starting from generator state `s`.
pub open spec fn attachment_state(m: nat, s: u64, i: nat) -> (Seq<(usize, usize)>, Seq<usize>, u64)
    decreases i,
{
    if i <= 1 {
        (Seq::empty(), seq![0usize], s)
    } else {
        let (pairs, pool, s1) = attachment_state(m, s, (i - 1) as nat);
        let k = (i - 1) as usize;
        let rounds = if m < i - 1 {
            m
        } else {
            (i - 1) as nat
        };
        let (c, s2) = pick_rounds(pool, s1, rounds);
        (pairs + c.map_values(|t: usize| (k, t)), pool + pool_growth(k, c), s2)
    }
}

proof fn lemma_adjacent_push(pairs: Seq<(usize, usize)>, e: (usize, usize), v: int)
    requires
        e.0 != e.1,
    ensures
        adjacent(pairs.push(e), v).len() == adjacent(pairs, v).len() + (if v == e.0 || v == e.1 {
            1int
        } else {
            0int
        }),
{
    assert(pairs.push(e).drop_last() =~= pairs);
}

/// Grow a preferential-attachment edge list over `n` nodes: node `i` draws up to
/// `min(m, i)` distinct earlier targets, each drawn with probability proportional to degree
/// (plus one for node 0). Also returns each node's degree.
pub fn attachment(n: usize, m: usize, rng: &mut XorShift) -> (r: (Vec<(usize, usize)>, Vec<u32>))
    requires
        1 <= m <= n,
        n * m * 2 <= u32::MAX,
    ensures
        attachment_edges(r.0@, n as nat),
        r.0@.len() <= (n - 1) * m,
        r.1@.len() == n,
        forall|v: int| 0 <= v < n ==> #[trigger] r.1@[v] == adjacent(r.0@, v).len(),
        seq_sum(r.1@) == 2 * r.0@.len(),
        r.0@ == attachment_state(m as nat, old(rng).state(), n as nat).0,
        final(rng).state() == attachment_state(m as nat, old(rng).state(), n as nat).2,
{
    let ghost s0 = rng.state();
    let mut pairs: Vec<(usize, usize)> = Vec::new();
    let mut degs: Vec<u32> = vec![0u32; n];
    let mut targets: Vec<usize> = vec![0usize];
    proof {
        lemma_sum_zero(degs@);
    }
    let mut i: usize = 1;
    while i < n
        invariant
            1 <= i <= n,
            1 <= m <= n,
            n * m * 2 <= u32::MAX,
            targets@.len() >= 1,
            forall|k: int| 0 <= k < targets@.len() ==> #[trigger] targets@[k] < i,
            attachment_edges(pairs@, i as nat),
            pairs@.len() <= (i - 1) * m,
            degs@.len() == n,
            forall|v: int| 0 <= v < n ==> #[trigger] degs@[v] == adjacent(pairs@, v).len(),
            seq_sum(degs@) == 2 * pairs@.len(),
            (pairs@, targets@, rng.state()) == attachment_state(m as nat, s0, i as nat),
        decreases n - i,
    {
        let ghost st = rng.state();
        let ghost pool0 = targets@;
        let rounds = if m < i {
            m
        } else {
            i
        };
        let mut chosen: Vec<usize> = Vec::new();
        let mut r: usize = 0;
        while r < rounds
            invariant
                r <= rounds <= m,
                rounds <= i,
                targets@.len() >= 1,
                forall|k: int| 0 <= k < targets@.len() ==> #[trigger] targets@[k] < i,
                chosen@.len() <= r,
                forall|k: int| 0 <= k < chosen@.len() ==> #[trigger] chosen@[k] < i,
                chosen@.no_duplicates(),
                targets@ == pool0,
                (chosen@, rng.state()) == pick_rounds(pool0, st, r as nat),
            decreases rounds - r,
        {
            let ghost st_r = rng.state();
            let ghost c_r = chosen@;
            let mut pick = targets[rng.below(targets.len())];
            let ghost goal = redraw(c_r, pool0, pick, rng.state(), 0);
            let mut tries: usize = 0;
            while tries < 4 && holds(&chosen, pick)
                invariant
                    tries <= 4,
                    pick < i,
                    targets@.len() >= 1,
                    forall|k: int| 0 <= k < targets@.len() ==> #[trigger] targets@[k] < i,
                    targets@ == pool0,
                    chosen@ == c_r,
                    redraw(c_r, pool0, pick, rng.state(), tries as nat) == goal,
                decreases 4 - tries,
            {
                pick = targets[rng.below(targets.len())];
                tries = tries + 1;
            }
            assert(goal == (pick, rng.state()));
            if !holds(&chosen, pick) {
                chosen.push(pick);
            }
            assert((chosen@, rng.state()) == pick_round(c_r, pool0, st_r));
            r = r + 1;
        }
        let ghost s_after = rng.state();
        let ghost before = pairs@;
        let mut j: usize = 0;
        while j < chosen.len()
            invariant
                1 <= i < n,
                1 <= m <= n,
                n * m * 2 <= u32::MAX,
                chosen@.len() <= m,
                forall|k: int| 0 <= k < chosen@.len() ==> #[trigger] chosen@[k] < i,
                chosen@.no_duplicates(),
                j <= chosen@.len(),
                attachment_edges(before, i as nat),
                before.len() <= (i - 1) * m,
                pairs@ == before + chosen@.take(j as int).map_values(|t: usize| (i, t)),
                targets@.len() >= 1,
                forall|k: int| 0 <= k < targets@.len() ==> #[trigger] targets@[k] <= i,
                degs@.len() == n,
                forall|v: int| 0 <= v < n ==> #[trigger] degs@[v] == adjacent(pairs@, v).len(),
                seq_sum(degs@) == 2 * pairs@.len(),
                rng.state() == s_after,
                targets@ == pool0 + pool_growth(i, chosen@.take(j as int)),
            decreases chosen@.len() - j,
        {
            let t = chosen[j];
            proof {
                assert(pairs@.len() == before.len() + j);
                assert(pairs@.len() + 1 <= (i - 1) * m + m) by (nonlinear_arith)
                    requires
                        pairs@.len() == before.len() + j,
                        before.len() <= (i - 1) * m,
                        j < m,
                ;
                assert((i - 1) * m + m == i * m) by (nonlinear_arith);
                assert(i * m <= n * m) by (nonlinear_arith)
                    requires
                        i < n,
                ;
                lemma_sum_prefix_elem(degs@, i as int);
                lemma_sum_prefix_elem(degs@, t as int);
                lemma_sum_bump(degs@, i as int);
            }
            degs[i] = degs[i] + 1;
            proof {
                lemma_sum_prefix_elem(degs@, t as int);
                lemma_sum_bump(degs@, t as int);
            }
            degs[t] = degs[t] + 1;
            let ghost prev = pairs@;
            pairs.push((i, t));
            proof {
                assert forall|v: int| 0 <= v < n implies #[trigger] degs@[v] == adjacent(
                    pairs@,
                    v,
                ).len() by {
                    lemma_adjacent_push(prev, (i, t), v);
                }
                assert(chosen@.take(j + 1) =~= chosen@.take(j as int).push(t));
                assert(pairs@ =~= before + chosen@.take(j + 1).map_values(|t: usize| (i, t)));
            }
            targets.push(i);
            targets.push(t);
            proof {
                assert(chosen@.take(j + 1).drop_last() =~= chosen@.take(j as int));
                assert(targets@ =~= pool0 + pool_growth(i, chosen@.take(j + 1)));
            }
            j = j + 1;
        }
        proof {
            assert(chosen@.take(j as int) =~= chosen@);
            assert(pairs@ =~= before + chosen@.map_values(|t: usize| (i, t)));
            let p = pairs@;
            assert(p.len() <= i * m) by (nonlinear_arith)
                requires
                    p.len() == before.len() + chosen@.len(),
                    before.len() <= (i - 1) * m,
                    chosen@.len() <= m,
            ;
            assert forall|k: int| 0 <= k < p.len() implies (#[trigger] p[k]).1 < p[k].0 < i + 1 by {
                if k >= before.len() {
                    assert(p[k] == (i, chosen@[k - before.len()]));
                }
            }
            assert forall|k: int, l: int| 0 <= k < l < p.len() implies (#[trigger] p[k]).0 <= (
            #[trigger] p[l]).0 by {
                if l >= before.len() {
                    assert(p[l] == (i, chosen@[l - before.len()]));
                }
                if k >= before.len() {
                    assert(p[k] == (i, chosen@[k - before.len()]));
                }
            }
            assert forall|k: int, l: int|
                0 <= k < l < p.len() && (#[trigger] p[k]).0 == (#[trigger] p[l]).0 implies p[k].1
                != p[l].1 by {
                if l >= before.len() {
                    assert(p[l] == (i, chosen@[l - before.len()]));
                    if k >= before.len() {
                        assert(p[k] == (i, chosen@[k - before.len()]));
                    }
                }
            }
        }
        i = i + 1;
    }
    (pairs, degs)
}

/// The labels the fixture cycles through.
pub open spec fn fixture_label(j: int) -> Seq<char> {
    if j == 0 {
        "Service"@
    } else if j == 1 {
        "Container"@
    } else if j == 2 {
        "Host"@
    } else if j == 3 {
        "Package"@
    } else if j == 4 {
        "Certificate"@
    } else if j == 5 {
        "Skill"@
    } else if j == 6 {
        "Volume"@
    } else {
        "DomainName"@
    }
}

fn label_of(i: usize) -> (r: &'static str)
    ensures
        r@ == fixture_label((i % 8) as int),
{
    let j: usize = i % 8;
    if j == 0 {
        "Service"
    } else if j == 1 {
        "Container"
    } else if j == 2 {
        "Host"
    } else if j == 3 {
        "Package"
    } else if j == 4 {
        "Certificate"
    } else if j == 5 {
        "Skill"
    } else if j == 6 {
        "Volume"
    } else {
        "DomainName"
    }
}

pub open spec fn fixture_id(i: nat) -> Seq<char> {
    "fixture:"@ + decimal(i)
}

pub open spec fn fixture_name(i: nat) -> Seq<char> {
    fixture_label((i % 8) as int) + "-"@ + decimal(i)
}

pub open spec fn fixture_description(i: nat) -> Seq<char> {
    "Synthetic "@ + fixture_label((i % 8) as int) + " #"@ + decimal(i)
        + " generated for benchmarking. This padding approximates a realistic property payload."@
}

/// The property bag of fixture node `i`, in ascending key order.
pub open spec fn fixture_props(i: nat, max: nat) -> Seq<(Seq<char>, Seq<char>)> {
    seq![
        ("description"@, truncated(fixture_description(i), max)),
        ("index"@, decimal(i)),
        ("name"@, fixture_name(i)),
    ]
}

fn fixture_node(i: usize, deg: u32, max_prop_chars: usize) -> (node: GraphNode)
    ensures
        node.id@ == fixture_id(i as nat),
        node.name@ == fixture_name(i as nat),
        node.label@ == fixture_label((i % 8) as int),
        node.group@ == Seq::<char>::empty(),
        node.deg == deg,
        text_entries(node.props) == fixture_props(i as nat, max_prop_chars as nat),
{
    let label = label_of(i);
    let number = decimal_string(i as u64);
    let mut id = "fixture:".to_owned();
    id.append(number.as_str());
    let mut name = label.to_owned();
    name.append("-");
    name.append(number.as_str());
    let mut description = "Synthetic ".to_owned();
    description.append(label);
    description.append(" #");
    description.append(number.as_str());
    description.append(
        " generated for benchmarking. This padding approximates a realistic property payload.",
    );
    let mut props: SortedMap<String> = SortedMap::new();
    let description_key = "description";
    let index_key = "index";
    let name_key = "name";
    proof {
        reveal_strlit("description");
        reveal_strlit("index");
        reveal_strlit("name");
    }
    props.push_last(
        description_key.to_owned(),
        stringify_value(&PropValue::Text(description), max_prop_chars),
    );
    props.push_last(index_key.to_owned(), number.clone());
    props.push_last(name_key.to_owned(), name.clone());
    assert(text_entries(props) =~= fixture_props(i as nat, max_prop_chars as nat));
    GraphNode { id, name, label: label.to_owned(), group: String::new(), deg, props }
}

proof fn lemma_fixture_ids_distinct(a: nat, b: nat)
    requires
        fixture_id(a) == fixture_id(b),
    ensures
        a == b,
{
    let p = "fixture:"@;
    assert(fixture_id(a).subrange(p.len() as int, fixture_id(a).len() as int) =~= decimal(a));
    assert(fixture_id(b).subrange(p.len() as int, fixture_id(b).len() as int) =~= decimal(b));
    lemma_decimal_injective(a, b);
}

proof fn lemma_index_map_distinct(ids: Seq<Seq<char>>)
    requires
        ids.no_duplicates(),
        ids.len() <= usize::MAX,
    ensures
        forall|i: int|
            0 <= i < ids.len() ==> #[trigger] index_map(ids).contains_key(ids[i]) && index_map(
                ids,
            )[ids[i]] == i,
    decreases ids.len(),
{
    if ids.len() > 0 {
        let init = ids.drop_last();
        lemma_index_map_distinct(init);
        assert forall|i: int| 0 <= i < ids.len() implies #[trigger] index_map(ids).contains_key(
            ids[i],
        ) && index_map(ids)[ids[i]] == i by {
            if i < ids.len() - 1 {
                assert(init[i] == ids[i]);
                assert(index_map(init).contains_key(init[i]));
                assert(ids[i] != ids[ids.len() - 1]);
                assert(index_map(ids) == index_map(init).insert(ids.last(), (ids.len() - 1) as usize));
            } else {
                assert(index_map(ids) == index_map(init).insert(ids.last(), (ids.len() - 1) as usize));
            }
        }
    }
}

proof fn lemma_fixture_link_ends(
    index: Map<Seq<char>, usize>,
    links: Seq<GraphLink>,
    pairs: Seq<(usize, usize)>,
    n: nat,
)
    requires
        links.len() == pairs.len(),
        forall|v: nat| v < n ==> index.contains_key(#[trigger] fixture_id(v)) && index[fixture_id(v)]
            == v,
        forall|k: int|
            0 <= k < pairs.len() ==> (#[trigger] pairs[k]).1 < pairs[k].0 < n
                && links[k].source@ == fixture_id(pairs[k].0 as nat) && links[k].target@
                == fixture_id(pairs[k].1 as nat),
    ensures
        link_ends(index, links) == pairs,
    decreases links.len(),
{
    if links.len() > 0 {
        lemma_fixture_link_ends(index, links.drop_last(), pairs.drop_last(), n);
        let p = pairs.last();
        assert(pairs[pairs.len() - 1] == p);
        let a = p.0 as nat;
        let b = p.1 as nat;
        assert(index.contains_key(fixture_id(a)) && index[fixture_id(a)] == a);
        assert(index.contains_key(fixture_id(b)) && index[fixture_id(b)] == b);
        assert(pairs.drop_last().push(p) =~= pairs);
    }
}

/// The node count of a fixture asked for `n` nodes: at least one.
pub open spec fn fixture_size(n: usize) -> nat {
    if n == 0 {
        1
    } else {
        n as nat
    }
}

/// The links each fixture node asks for: `edges_per_node`, clamped to `1..=` the node count.
pub open spec fn fixture_fanout(n: usize, edges_per_node: usize) -> nat {
    if edges_per_node < 1 {
        1
    } else if edges_per_node > fixture_size(n) {
        fixture_size(n)
    } else {
        edges_per_node as nat
    }
}

/// `g` is the fixture graph of `n` nodes, `edges_per_node` links per node and generator seed
/// `seed`, with property values cut at `max_prop_chars` characters.
pub open spec fn is_fixture(
    g: GraphData,
    n: usize,
    edges_per_node: usize,
    seed: u64,
    max_prop_chars: usize,
) -> bool {
    let n1 = fixture_size(n);
    let m = fixture_fanout(n, edges_per_node);
    let nodes = g.nodes_view();
    let links = g.links_view();
    let edges = g.edges();
    &&& nodes.len() == n1
    &&& forall|i: int|
        0 <= i < n1 ==> {
            &&& (#[trigger] nodes[i]).id@ == fixture_id(i as nat)
            &&& nodes[i].name@ == fixture_name(i as nat)
            &&& nodes[i].label@ == fixture_label(i % 8)
            &&& nodes[i].group@ == Seq::<char>::empty()
            &&& text_entries(nodes[i].props) == fixture_props(i as nat, max_prop_chars as nat)
            &&& nodes[i].deg == adjacent(edges, i).len()
        }
    &&& edges == attachment_state(m, seed_state(seed), n1).0
    &&& edges.len() == links.len()
    &&& links.len() <= (n1 - 1) * m
    &&& attachment_edges(edges, n1)
    &&& forall|k: int|
        0 <= k < links.len() ==> (#[trigger] links[k]).source@ == nodes[edges[k].0 as int].id@
            && links[k].target@ == nodes[edges[k].1 as int].id@ && links[k].rel@ == "LINKS_TO"@
    &&& seq_sum(nodes.map_values(|v: GraphNode| v.deg)) == 2 * links.len()
}

/// Build a synthetic graph of `n` nodes (at least one) by preferential attachment: each node
/// after the first links to up to `edges_per_node` distinct earlier nodes, drawn in proportion
/// to their degree, so hubs emerge as they do in real topologies. Deterministic given `seed`.
/// The fetch caps do not apply: `n * edges_per_node` bounds the link count.
pub fn fixture(n: usize, edges_per_node: usize, seed: u64, opts: &FetchOptions) -> (g: GraphData)
    requires
        fixture_size(n) * fixture_fanout(n, edges_per_node) * 2 <= u32::MAX,
    ensures
        is_fixture(g, n, edges_per_node, seed, opts.max_prop_chars),
{
    let n1: usize = if n == 0 {
        1
    } else {
        n
    };
    let m: usize = if edges_per_node < 1 {
        1
    } else if edges_per_node > n1 {
        n1
    } else {
        edges_per_node
    };
    let mut rng = XorShift::from_seed(seed);
    let (pairs, degs) = attachment(n1, m, &mut rng);
    let mut nodes: Vec<GraphNode> = Vec::new();
    let mut i: usize = 0;
    while i < n1
        invariant
            i <= n1 == degs@.len(),
            nodes@.len() == i,
            forall|v: int|
                0 <= v < i ==> {
                    &&& (#[trigger] nodes@[v]).id@ == fixture_id(v as nat)
                    &&& nodes@[v].name@ == fixture_name(v as nat)
                    &&& nodes@[v].label@ == fixture_label(v % 8)
                    &&& nodes@[v].group@ == Seq::<char>::empty()
                    &&& text_entries(nodes@[v].props) == fixture_props(
                        v as nat,
                        opts.max_prop_chars as nat,
                    )
                    &&& nodes@[v].deg == degs@[v]
                },
        decreases n1 - i,
    {
        nodes.push(fixture_node(i, degs[i], opts.max_prop_chars));
        i = i + 1;
    }
    let mut links: Vec<GraphLink> = Vec::new();
    let mut k: usize = 0;
    while k < pairs.len()
        invariant
            k <= pairs@.len(),
            nodes@.len() == n1,
            attachment_edges(pairs@, n1 as nat),
            forall|v: int| 0 <= v < n1 ==> (#[trigger] nodes@[v]).id@ == fixture_id(v as nat),
            links@.len() == k,
            forall|j: int|
                0 <= j < k ==> (#[trigger] links@[j]).source@ == fixture_id(pairs@[j].0 as nat)
                    && links@[j].target@ == fixture_id(pairs@[j].1 as nat) && links@[j].rel@
                    == "LINKS_TO"@,
        decreases pairs@.len() - k,
    {
        let (s, t) = pairs[k];
        assert(pairs@[k as int].1 < pairs@[k as int].0 < n1);
        let rel = "LINKS_TO".to_owned();
        links.push(GraphLink { source: nodes[s].id.clone(), target: nodes[t].id.clone(), rel });
        k = k + 1;
    }
    proof {
        let ids = node_ids(nodes@);
        assert forall|a: int, b: int| 0 <= a < b < ids.len() implies ids[a] != ids[b] by {
            if ids[a] == ids[b] {
                assert(ids[a] == fixture_id(a as nat));
                assert(ids[b] == fixture_id(b as nat));
                lemma_fixture_ids_distinct(a as nat, b as nat);
            }
        }
        assert(ids.no_duplicates());
        lemma_index_map_distinct(ids);
        assert forall|v: nat| v < n1 implies index_map(ids).contains_key(
            #[trigger] fixture_id(v),
        ) && index_map(ids)[fixture_id(v)] == v by {
            assert(ids[v as int] == fixture_id(v));
            assert(index_map(ids).contains_key(ids[v as int]));
        }
        lemma_fixture_link_ends(index_map(ids), links@, pairs@, n1 as nat);
        assert(links@.len() * 2 <= u32::MAX) by (nonlinear_arith)
            requires
                links@.len() <= (n1 - 1) * m,
                n1 * m * 2 <= u32::MAX,
                n1 >= 1,
        ;
        assert(nodes@.map_values(|v: GraphNode| v.deg) =~= degs@);
    }
    GraphData::new(nodes, links)
}

/// The fixture is deterministic: two graphs built from the same size, fan-out, seed and cut
/// hold the same nodes, in the same order, joined by the same links.
pub proof fn fixture_is_deterministic(
    a: GraphData,
    b: GraphData,
    n: usize,
    edges_per_node: usize,
    seed: u64,
    max_prop_chars: usize,
)
    requires
        is_fixture(a, n, edges_per_node, seed, max_prop_chars),
        is_fixture(b, n, edges_per_node, seed, max_prop_chars),
    ensures
        a.edges() == b.edges(),
        a.nodes_view().len() == b.nodes_view().len(),
        forall|i: int|
            0 <= i < a.nodes_view().len() ==> {
                &&& (#[trigger] a.nodes_view()[i]).id@ == b.nodes_view()[i].id@
                &&& a.nodes_view()[i].name@ == b.nodes_view()[i].name@
                &&& a.nodes_view()[i].label@ == b.nodes_view()[i].label@
                &&& a.nodes_view()[i].group@ == b.nodes_view()[i].group@
                &&& a.nodes_view()[i].deg == b.nodes_view()[i].deg
                &&& text_entries(a.nodes_view()[i].props) == text_entries(b.nodes_view()[i].props)
            },
        a.links_view().len() == b.links_view().len(),
        forall|k: int|
            0 <= k < a.links_view().len() ==> {
                &&& (#[trigger] a.links_view()[k]).source@ == b.links_view()[k].source@
                &&& a.links_view()[k].target@ == b.links_view()[k].target@
                &&& a.links_view()[k].rel@ == b.links_view()[k].rel@
            },
{
    assert forall|k: int| 0 <= k < a.links_view().len() implies {
        &&& (#[trigger] a.links_view()[k]).source@ == b.links_view()[k].source@
        &&& a.links_view()[k].target@ == b.links_view()[k].target@
        &&& a.links_view()[k].rel@ == b.links_view()[k].rel@
    } by {
        let e = a.edges()[k];
        assert(a.links_view()[k].source@ == fixture_id(e.0 as nat));
        assert(b.links_view()[k].source@ == fixture_id(e.0 as nat));
        assert(a.links_view()[k].target@ == fixture_id(e.1 as nat));
        assert(b.links_view()[k].target@ == fixture_id(e.1 as nat));
    }
}

/// One xorshift64 step loses nothing: distinct states step to distinct states.
pub proof fn lemma_xorshift_injective(a: u64, b: u64)
    requires
        a != b,
    ensures
        xorshift(a) != xorshift(b),
{
    let a1 = a ^ (a >> 12u64);
    let b1 = b ^ (b >> 12u64);
    assert(a1 != b1) by (bit_vector)
        requires
            a != b,
            a1 == a ^ (a >> 12u64),
            b1 == b ^ (b >> 12u64),
    ;
    let a2 = a1 ^ (a1 << 25u64);
    let b2 = b1 ^ (b1 << 25u64);
    assert(a2 != b2) by (bit_vector)
        requires
            a1 != b1,
            a2 == a1 ^ (a1 << 25u64),
            b2 == b1 ^ (b1 << 25u64),
    ;
    assert(a2 ^ (a2 >> 27u64) != b2 ^ (b2 >> 27u64)) by (bit_vector)
        requires
            a2 != b2,
    ;
}

/// The generator state after `k` steps from state `s`.
pub open spec fn state_after(s: u64, k: nat) -> u64
    decreases k,
{
    if k == 0 {
        s
    } else {
        xorshift(state_after(s, (k - 1) as nat))
    }
}

/// Every bit of the seed counts: two different seeds give generators whose states differ at
/// every step, save the zero seed and [`ZERO_SEED_STATE`], which start from the same state.
pub proof fn distinct_seeds_never_meet(a: u64, b: u64, k: nat)
    requires
        a != b,
        !(a == 0 && b == ZERO_SEED_STATE),
        !(b == 0 && a == ZERO_SEED_STATE),
    ensures
        state_after(seed_state(a), k) != state_after(seed_state(b), k),
    decreases k,
{
    if k > 0 {
        distinct_seeds_never_meet(a, b, (k - 1) as nat);
        lemma_xorshift_injective(
            state_after(seed_state(a), (k - 1) as nat),
            state_after(seed_state(b), (k - 1) as nat),
        );
    }
}

/// The documented link budget is a ceiling: a fixture of `n` nodes never has more than
/// `n * edges_per_node` links. It has fewer: node 0 has no earlier node to link to, node `i`
/// links to at most `i` earlier ones, and a draw that keeps repeating a target is dropped.
pub proof fn fixture_links_within_budget(
    g: GraphData,
    n: usize,
    edges_per_node: usize,
    seed: u64,
    max_prop_chars: usize,
)
    requires
        is_fixture(g, n, edges_per_node, seed, max_prop_chars),
        edges_per_node >= 1,
    ensures
        g.links_view().len() <= n * edges_per_node,
{
    let n1 = fixture_size(n);
    let m = fixture_fanout(n, edges_per_node);
    assert(m <= edges_per_node);
    assert((n1 - 1) * m <= n * edges_per_node) by (nonlinear_arith)
        requires
            n1 >= 1,
            n1 - 1 <= n,
            m <= edges_per_node,
    ;
}

/// The fetch caps never truncate a fixture: two fixtures of the same size, fan-out and seed
/// that differ only in their options' caps (their property cut the same) are the same graph,
/// of `max(n, 1)` nodes, whatever the caps say.
pub proof fn fixture_ignores_fetch_caps(
    a: GraphData,
    b: GraphData,
    n: usize,
    edges_per_node: usize,
    seed: u64,
    opts_a: FetchOptions,
    opts_b: FetchOptions,
)
    requires
        is_fixture(a, n, edges_per_node, seed, opts_a.max_prop_chars),
        is_fixture(b, n, edges_per_node, seed, opts_b.max_prop_chars),
        opts_a.max_prop_chars == opts_b.max_prop_chars,
    ensures
        a.nodes_view().len() == fixture_size(n),
        b.nodes_view().len() == fixture_size(n),
        a.edges() == b.edges(),
        forall|i: int|
            0 <= i < a.nodes_view().len() ==> {
                &&& (#[trigger] a.nodes_view()[i]).id@ == b.nodes_view()[i].id@
                &&& a.nodes_view()[i].name@ == b.nodes_view()[i].name@
                &&& a.nodes_view()[i].deg == b.nodes_view()[i].deg
                &&& text_entries(a.nodes_view()[i].props) == text_entries(b.nodes_view()[i].props)
            },
        a.links_view().len() == b.links_view().len(),
        forall|k: int|
            0 <= k < a.links_view().len() ==> {
                &&& (#[trigger] a.links_view()[k]).source@ == b.links_view()[k].source@
                &&& a.links_view()[k].target@ == b.links_view()[k].target@
            },
{
    fixture_is_deterministic(a, b, n, edges_per_node, seed, opts_a.max_prop_chars);
}

} // verus!
