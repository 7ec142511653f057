//! Undirected adjacency in compressed sparse row form: one contiguous run of neighbour indices
//! per node, so neighbours-of-a-node is a constant-time slice rather than a scan of every edge.

use vstd::prelude::*;

verus! {

/// What one edge `(s, t)` adds to node `v`'s neighbour list.
pub open spec fn contribution(e: (usize, usize), v: int) -> Seq<u32> {
    if e.0 == v {
        seq![e.1 as u32]
    } else if e.1 == v {
        seq![e.0 as u32]
    } else {
        Seq::empty()
    }
}

/// Node `v`'s neighbours: the other end of each edge that touches it, in edge order.
pub open spec fn adjacent(ends: Seq<(usize, usize)>, v: int) -> Seq<u32>
    decreases ends.len(),
{
    if ends.len() == 0 {
        Seq::empty()
    } else {
        adjacent(ends.drop_last(), v) + contribution(ends.last(), v)
    }
}

/// Edges whose ends are distinct nodes below `n`.
pub open spec fn proper_ends(ends: Seq<(usize, usize)>, n: nat) -> bool {
    forall|k: int|
        0 <= k < ends.len() ==> (#[trigger] ends[k]).0 < n && ends[k].1 < n && ends[k].0
            != ends[k].1
}

pub open spec fn seq_sum(s: Seq<u32>) -> int
    decreases s.len(),
{
    if s.len() == 0 {
        0
    } else {
        seq_sum(s.drop_last()) + s.last()
    }
}

pub proof fn lemma_sum_bump(s: Seq<u32>, i: int)
    requires
        0 <= i < s.len(),
        s[i] < u32::MAX,
    ensures
        seq_sum(s.update(i, (s[i] + 1) as u32)) == seq_sum(s) + 1,
    decreases s.len(),
{
    let t = s.update(i, (s[i] + 1) as u32);
    if i == s.len() - 1 {
        assert(t.drop_last() =~= s.drop_last());
    } else {
        lemma_sum_bump(s.drop_last(), i);
        assert(t.drop_last() =~= s.drop_last().update(i, (s[i] + 1) as u32));
    }
}

proof fn lemma_sum_prefix(s: Seq<u32>, k: int)
    requires
        0 <= k <= s.len(),
    ensures
        0 <= seq_sum(s.take(k)) <= seq_sum(s),
    decreases s.len() - k,
{
    if k < s.len() {
        lemma_sum_prefix(s, k + 1);
        assert(s.take(k + 1).drop_last() =~= s.take(k));
    } else {
        assert(s.take(k) =~= s);
    }
    lemma_sum_nonneg(s.take(k));
}

pub proof fn lemma_sum_nonneg(s: Seq<u32>)
    ensures
        seq_sum(s) >= 0,
    decreases s.len(),
{
    if s.len() > 0 {
        lemma_sum_nonneg(s.drop_last());
    }
}

proof fn lemma_adjacent_prefix_len(ends: Seq<(usize, usize)>, k: int, v: int)
    requires
        0 <= k <= ends.len(),
    ensures
        adjacent(ends.take(k), v).len() <= adjacent(ends, v).len(),
    decreases ends.len() - k,
{
    if k < ends.len() {
        lemma_adjacent_prefix_len(ends, k + 1, v);
        assert(ends.take(k + 1).drop_last() =~= ends.take(k));
    } else {
        assert(ends.take(k) =~= ends);
    }
}

/// Compressed sparse row adjacency.
pub struct Csr {
    offsets: Vec<u32>,
    neighbours: Vec<u32>,
}

impl Csr {
    #[verifier::type_invariant]
    closed spec fn well_formed(self) -> bool {
        &&& self.offsets@.len() >= 1
        &&& self.offsets@[0] == 0
        &&& self.offsets@.last() == self.neighbours@.len()
        &&& forall|i: int, j: int|
            0 <= i <= j < self.offsets@.len() ==> self.offsets@[i] <= self.offsets@[j]
    }

    /// Number of nodes.
    pub closed spec fn node_count(&self) -> nat {
        (self.offsets@.len() - 1) as nat
    }

    /// Neighbour list of node `i`.
    pub closed spec fn list(&self, i: int) -> Seq<u32> {
        self.neighbours@.subrange(self.offsets@[i] as int, self.offsets@[i + 1] as int)
    }

    /// Build the adjacency of `n` nodes from edges between distinct nodes below `n`.
    pub fn from_ends(n: usize, ends: &Vec<(usize, usize)>) -> (c: Csr)
        requires
            proper_ends(ends@, n as nat),
            ends@.len() * 2 <= u32::MAX,
        ensures
            c.node_count() == n,
            forall|v: int| 0 <= v < n ==> #[trigger] c.list(v) == adjacent(ends@, v),
    {
        let mut degree: Vec<u32> = vec![0u32; n];
        let mut k: usize = 0;
        assert(ends@.take(0) =~= Seq::<(usize, usize)>::empty());
        proof {
            assert forall|m: int| 0 <= m <= n implies seq_sum(#[trigger] degree@.take(m)) == 0 by {
                lemma_sum_zero(degree@.take(m));
            }
            assert(degree@.take(n as int) =~= degree@);
        }
        while k < ends.len()
            invariant
                k <= ends@.len(),
                ends@.len() * 2 <= u32::MAX,
                proper_ends(ends@, n as nat),
                degree@.len() == n,
                forall|v: int|
                    0 <= v < n ==> #[trigger] degree@[v] == adjacent(ends@.take(k as int), v).len(),
                seq_sum(degree@) == 2 * k,
            decreases ends@.len() - k,
        {
            let (s, t) = ends[k];
            assert(ends@.take(k + 1).drop_last() =~= ends@.take(k as int));
            assert(ends@.take(k + 1).last() == ends@[k as int]);
            proof {
                lemma_sum_prefix_elem(degree@, s as int);
                lemma_sum_prefix_elem(degree@, t as int);
            }
            proof {
                lemma_sum_bump(degree@, s as int);
            }
            degree[s] = degree[s] + 1;
            proof {
                lemma_sum_prefix_elem(degree@, t as int);
                lemma_sum_bump(degree@, t as int);
            }
            degree[t] = degree[t] + 1;
            k = k + 1;
        }
        assert(ends@.take(k as int) =~= ends@);
        let mut offsets: Vec<u32> = Vec::new();
        let mut running: u32 = 0;
        let mut v: usize = 0;
        assert(degree@.take(0) =~= Seq::<u32>::empty());
        while v < n
            invariant
                v <= n == degree@.len(),
                seq_sum(degree@) == 2 * ends@.len(),
                ends@.len() * 2 <= u32::MAX,
                offsets@.len() == v,
                running == seq_sum(degree@.take(v as int)),
                forall|u: int| 0 <= u < v ==> #[trigger] offsets@[u] == seq_sum(degree@.take(u)),
            decreases n - v,
        {
            proof {
                lemma_sum_prefix(degree@, v + 1);
                assert(degree@.take(v + 1).drop_last() =~= degree@.take(v as int));
            }
            offsets.push(running);
            running = running + degree[v];
            v = v + 1;
        }
        offsets.push(running);
        assert(degree@.take(n as int) =~= degree@);
        proof {
            assert forall|i: int, j: int|
                0 <= i <= j < offsets@.len() implies offsets@[i] <= offsets@[j] by {
                lemma_sum_prefix(degree@.take(j), i);
                assert(degree@.take(j).take(i) =~= degree@.take(i));
            }
            assert forall|u: int| 0 <= u < n implies #[trigger] offsets@[u + 1] == offsets@[u]
                + degree@[u] by {
                assert(degree@.take(u + 1).drop_last() =~= degree@.take(u));
            }
        }
        let mut cursor = offsets.clone();
        assert(cursor@ =~= offsets@);
        let mut neighbours: Vec<u32> = vec![0u32; running as usize];
        let mut k: usize = 0;
        assert(ends@.take(0) =~= Seq::<(usize, usize)>::empty());
        proof {
            assert forall|u: int| 0 <= u < n implies neighbours@.subrange(
                offsets@[u] as int,
                cursor@[u] as int,
            ) == adjacent(#[trigger] ends@.take(0), u) by {
                assert(offsets@[u] <= offsets@[n as int]);
                assert(neighbours@.subrange(offsets@[u] as int, cursor@[u] as int) =~= Seq::<
                    u32,
                >::empty());
            }
        }
        while k < ends.len()
            invariant
                k <= ends@.len(),
                proper_ends(ends@, n as nat),
                offsets@.len() == n + 1 == cursor@.len(),
                neighbours@.len() == offsets@[n as int],
                forall|i: int, j: int|
                    0 <= i <= j < offsets@.len() ==> offsets@[i] <= offsets@[j],
                forall|u: int|
                    0 <= u < n ==> #[trigger] offsets@[u + 1] == offsets@[u] + adjacent(ends@, u).len(),
                forall|u: int|
                    0 <= u < n ==> #[trigger] cursor@[u] == offsets@[u] + adjacent(
                        ends@.take(k as int),
                        u,
                    ).len(),
                forall|u: int|
                    0 <= u < n ==> neighbours@.subrange(offsets@[u] as int, cursor@[u] as int)
                        == adjacent(#[trigger] ends@.take(k as int), u),
            decreases ends@.len() - k,
        {
            let (s, t) = ends[k];
            let ghost pre = ends@.take(k as int);
            let ghost post = ends@.take(k + 1);
            assert(post.drop_last() =~= pre);
            assert(post.last() == ends@[k as int]);
            proof {
                lemma_adjacent_prefix_len(ends@, k + 1, s as int);
                lemma_adjacent_prefix_len(ends@, k + 1, t as int);
                assert(adjacent(post, s as int) == adjacent(pre, s as int) + seq![t as u32]);
                assert(adjacent(post, t as int) == adjacent(pre, t as int) + seq![s as u32]);
            }
            let ghost nb0 = neighbours@;
            let ghost cur0 = cursor@;
            assert(cursor@[s as int] == offsets@[s as int] + adjacent(pre, s as int).len());
            assert(offsets@[s + 1] == offsets@[s as int] + adjacent(ends@, s as int).len());
            assert(offsets@[s + 1] <= offsets@[n as int]);
            assert(cursor@[t as int] == offsets@[t as int] + adjacent(pre, t as int).len());
            assert(offsets@[t + 1] == offsets@[t as int] + adjacent(ends@, t as int).len());
            assert(offsets@[t + 1] <= offsets@[n as int]);
            let ps = cursor[s];
            neighbours[ps as usize] = t as u32;
            cursor[s] = ps + 1;
            let ghost nb1 = neighbours@;
            let ghost cur1 = cursor@;
            proof {
                assert forall|u: int| 0 <= u < n implies nb1.subrange(
                    offsets@[u] as int,
                    cur1[u] as int,
                ) == (if u == s {
                    adjacent(post, u)
                } else {
                    adjacent(pre, u)
                }) by {
                    if u == s {
                        assert(nb1.subrange(offsets@[u] as int, cur1[u] as int) =~= nb0.subrange(
                            offsets@[u] as int,
                            cur0[u] as int,
                        ).push(t as u32));
                    } else {
                        assert(offsets@[u + 1] <= offsets@[s as int] || offsets@[s + 1]
                            <= offsets@[u]) by {
                            if u < s {
                                assert(offsets@[u + 1] <= offsets@[s as int]);
                            } else {
                                assert(offsets@[s + 1] <= offsets@[u]);
                            }
                        }
                        lemma_adjacent_prefix_len(ends@, k as int, u);
                        assert(cur0[u] <= offsets@[u + 1]);
                        assert(ps < offsets@[s + 1]);
                        assert(cur1[u] == cur0[u]);
                        assert(nb1.subrange(offsets@[u] as int, cur1[u] as int) =~= nb0.subrange(
                            offsets@[u] as int,
                            cur0[u] as int,
                        ));
                    }
                }
            }
            let pt = cursor[t];
            neighbours[pt as usize] = s as u32;
            cursor[t] = pt + 1;
            proof {
                assert forall|u: int| 0 <= u < n implies neighbours@.subrange(
                    offsets@[u] as int,
                    cursor@[u] as int,
                ) == adjacent(post, u) by {
                    if u == t {
                        assert(neighbours@.subrange(offsets@[u] as int, cursor@[u] as int)
                            =~= nb1.subrange(offsets@[u] as int, cur1[u] as int).push(
                            s as u32,
                        ));
                    } else {
                        assert(offsets@[u + 1] <= offsets@[t as int] || offsets@[t + 1]
                            <= offsets@[u]) by {
                            if u < t {
                                assert(offsets@[u + 1] <= offsets@[t as int]);
                            } else {
                                assert(offsets@[t + 1] <= offsets@[u]);
                            }
                        }
                        lemma_adjacent_prefix_len(ends@, k + 1, u);
                        assert(cur1[u] <= offsets@[u + 1]);
                        assert(pt < offsets@[t + 1]);
                        assert(cursor@[u] == cur1[u]);
                        assert(neighbours@.subrange(offsets@[u] as int, cursor@[u] as int)
                            =~= nb1.subrange(offsets@[u] as int, cur1[u] as int));
                        if u != s {
                            assert(adjacent(post, u) == adjacent(pre, u));
                        }
                    }
                }
            }
            k = k + 1;
        }
        assert(ends@.take(k as int) =~= ends@);
        let c = Csr { offsets, neighbours };
        assert forall|v: int| 0 <= v < n implies #[trigger] c.list(v) == adjacent(ends@, v) by {
            assert(cursor@[v] == offsets@[v + 1]);
        }
        c
    }

    /// The neighbours of node `i`, in constant time.
    pub fn of(&self, i: usize) -> (r: &[u32])
        requires
            i < self.node_count(),
        ensures
            r@ == self.list(i as int),
    {
        proof {
            use_type_invariant(self);
        }
        assert(self.offsets@.len() == self.offsets.len());
        let lo = self.offsets[i] as usize;
        let hi = self.offsets[i + 1] as usize;
        let all = self.neighbours.as_slice();
        &all[lo..hi]
    }
}

pub proof fn lemma_sum_zero(s: Seq<u32>)
    requires
        forall|i: int| 0 <= i < s.len() ==> s[i] == 0,
    ensures
        seq_sum(s) == 0,
    decreases s.len(),
{
    if s.len() > 0 {
        lemma_sum_zero(s.drop_last());
    }
}

/// A single element never exceeds the sum.
pub proof fn lemma_sum_prefix_elem(s: Seq<u32>, i: int)
    requires
        0 <= i < s.len(),
    ensures
        s[i] <= seq_sum(s),
    decreases s.len(),
{
    if i == s.len() - 1 {
        lemma_sum_nonneg(s.drop_last());
    } else {
        lemma_sum_prefix_elem(s.drop_last(), i);
    }
}

/// The usable edges of a layout: index pairs between distinct nodes below `n`, in order.
/// Out-of-range pairs and self-loops are dropped.
pub open spec fn usable_edges(n: nat, edges: Seq<(u32, u32)>) -> Seq<(usize, usize)>
    decreases edges.len(),
{
    if edges.len() == 0 {
        Seq::empty()
    } else {
        let rest = usable_edges(n, edges.drop_last());
        let e = edges.last();
        if (e.0 as nat) < n && (e.1 as nat) < n && e.0 != e.1 {
            rest.push((e.0 as usize, e.1 as usize))
        } else {
            rest
        }
    }
}

proof fn lemma_usable_edges(n: nat, edges: Seq<(u32, u32)>)
    ensures
        proper_ends(usable_edges(n, edges), n),
        usable_edges(n, edges).len() <= edges.len(),
    decreases edges.len(),
{
    if edges.len() > 0 {
        lemma_usable_edges(n, edges.drop_last());
    }
}

impl Csr {
    /// Build the adjacency of `n` nodes from index pairs, ignoring out-of-range pairs and
    /// self-loops rather than treating them as errors.
    pub fn build(n: usize, edges: &[(u32, u32)]) -> (c: Csr)
        requires
            edges@.len() * 2 <= u32::MAX,
        ensures
            c.node_count() == n,
            forall|v: int|
                0 <= v < n ==> #[trigger] c.list(v) == adjacent(usable_edges(n as nat, edges@), v),
    {
        let mut ends: Vec<(usize, usize)> = Vec::new();
        let mut k: usize = 0;
        assert(edges@.take(0) =~= Seq::<(u32, u32)>::empty());
        while k < edges.len()
            invariant
                k <= edges@.len(),
                ends@ == usable_edges(n as nat, edges@.take(k as int)),
            decreases edges@.len() - k,
        {
            let (s, t) = edges[k];
            assert(edges@.take(k + 1).drop_last() =~= edges@.take(k as int));
            if (s as usize) < n && (t as usize) < n && s != t {
                ends.push((s as usize, t as usize));
            }
            k = k + 1;
        }
        assert(edges@.take(k as int) =~= edges@);
        proof {
            lemma_usable_edges(n as nat, edges@);
        }
        Csr::from_ends(n, &ends)
    }
}

/// Adjacency is undirected: `v` is among `u`'s neighbours exactly when `u` is among `v`'s.
pub proof fn adjacency_is_symmetric(ends: Seq<(usize, usize)>, n: nat, u: usize, v: usize)
    requires
        proper_ends(ends, n),
        n <= u32::MAX,
        u < n,
        v < n,
    ensures
        adjacent(ends, u as int).contains(v as u32) <==> adjacent(ends, v as int).contains(u as u32),
    decreases ends.len(),
{
    if ends.len() > 0 {
        let init = ends.drop_last();
        assert(proper_ends(init, n)) by {
            assert forall|k: int| 0 <= k < init.len() implies (#[trigger] init[k]).0 < n && init[k].1
                < n && init[k].0 != init[k].1 by {
                assert(init[k] == ends[k]);
            }
        }
        adjacency_is_symmetric(init, n, u, v);
        let e = ends.last();
        assert(ends[ends.len() - 1] == e);
        lemma_concat_contains(adjacent(init, u as int), contribution(e, u as int), v as u32);
        lemma_concat_contains(adjacent(init, v as int), contribution(e, v as int), u as u32);
        assert(e.0 < n && e.1 < n);
        assert(e.0 as u32 == e.0 && e.1 as u32 == e.1 && u as u32 == u && v as u32 == v);
        let cu = contribution(e, u as int);
        let cv = contribution(e, v as int);
        if e.0 == u && e.1 == v {
            assert(cu =~= seq![v as u32]);
            assert(cv =~= seq![u as u32]);
            assert(cu[0] == v as u32 && cv[0] == u as u32);
        } else if e.1 == u && e.0 == v {
            assert(cu =~= seq![v as u32]);
            assert(cv =~= seq![u as u32]);
            assert(cu[0] == v as u32 && cv[0] == u as u32);
        } else {
            if cu.contains(v as u32) {
                assert(cu.len() == 1);
                assert(cu[0] == v as u32);
            }
            if cv.contains(u as u32) {
                assert(cv.len() == 1);
                assert(cv[0] == u as u32);
            }
        }
    }
}

/// No node is its own neighbour.
pub proof fn adjacency_has_no_self_loops(ends: Seq<(usize, usize)>, n: nat, u: usize)
    requires
        proper_ends(ends, n),
        n <= u32::MAX,
        u < n,
    ensures
        !adjacent(ends, u as int).contains(u as u32),
    decreases ends.len(),
{
    if ends.len() > 0 {
        let init = ends.drop_last();
        assert(proper_ends(init, n)) by {
            assert forall|k: int| 0 <= k < init.len() implies (#[trigger] init[k]).0 < n && init[k].1
                < n && init[k].0 != init[k].1 by {
                assert(init[k] == ends[k]);
            }
        }
        adjacency_has_no_self_loops(init, n, u);
        let e = ends.last();
        assert(ends[ends.len() - 1] == e);
        lemma_concat_contains(adjacent(init, u as int), contribution(e, u as int), u as u32);
        assert(e.0 < n && e.1 < n);
        if contribution(e, u as int).contains(u as u32) {
            assert(contribution(e, u as int)[0] == u as u32);
        }
    }
}

/// How often `x` occurs in `s`.
pub open spec fn occurrences(s: Seq<u32>, x: u32) -> nat
    decreases s.len(),
{
    if s.len() == 0 {
        0
    } else {
        occurrences(s.drop_last(), x) + if s.last() == x {
            1nat
        } else {
            0nat
        }
    }
}

proof fn lemma_occurrences_concat(a: Seq<u32>, b: Seq<u32>, x: u32)
    ensures
        occurrences(a + b, x) == occurrences(a, x) + occurrences(b, x),
    decreases b.len(),
{
    if b.len() == 0 {
        assert(a + b =~= a);
    } else {
        lemma_occurrences_concat(a, b.drop_last(), x);
        assert((a + b).drop_last() =~= a + b.drop_last());
        assert((a + b).last() == b.last());
    }
}

proof fn lemma_occurrences_contribution(e: (usize, usize), v: int, x: u32)
    ensures
        occurrences(contribution(e, v), x) == if contribution(e, v).len() == 1 && contribution(
            e,
            v,
        )[0] == x {
            1nat
        } else {
            0nat
        },
        contribution(e, v).len() <= 1,
{
    let c = contribution(e, v);
    if c.len() == 1 {
        assert(c.drop_last() =~= Seq::<u32>::empty());
        assert(occurrences(c.drop_last(), x) == 0);
        assert(c.last() == c[0]);
    }
}

/// Adjacency is undirected with multiplicity: `v` occurs among `u`'s neighbours exactly as
/// often as `u` occurs among `v`'s, once for each edge between them.
pub proof fn adjacency_counts_are_symmetric(ends: Seq<(usize, usize)>, n: nat, u: usize, v: usize)
    requires
        proper_ends(ends, n),
        n <= u32::MAX,
        u < n,
        v < n,
    ensures
        occurrences(adjacent(ends, u as int), v as u32) == occurrences(
            adjacent(ends, v as int),
            u as u32,
        ),
    decreases ends.len(),
{
    if ends.len() > 0 {
        let init = ends.drop_last();
        assert(proper_ends(init, n)) by {
            assert forall|k: int| 0 <= k < init.len() implies (#[trigger] init[k]).0 < n && init[k].1
                < n && init[k].0 != init[k].1 by {
                assert(init[k] == ends[k]);
            }
        }
        adjacency_counts_are_symmetric(init, n, u, v);
        let e = ends.last();
        assert(ends[ends.len() - 1] == e);
        assert(e.0 < n && e.1 < n && e.0 != e.1);
        lemma_occurrences_concat(adjacent(init, u as int), contribution(e, u as int), v as u32);
        lemma_occurrences_concat(adjacent(init, v as int), contribution(e, v as int), u as u32);
        lemma_occurrences_contribution(e, u as int, v as u32);
        lemma_occurrences_contribution(e, v as int, u as u32);
        assert(e.0 as u32 == e.0 && e.1 as u32 == e.1 && u as u32 == u && v as u32 == v);
    }
}

/// A value that does not occur in `s` is counted zero times.
pub proof fn lemma_occurrences_absent(s: Seq<u32>, x: u32)
    requires
        !s.contains(x),
    ensures
        occurrences(s, x) == 0,
    decreases s.len(),
{
    if s.len() > 0 {
        let init = s.drop_last();
        assert forall|p: int| 0 <= p < init.len() implies init[p] != x by {
            assert(init[p] == s[p]);
        }
        lemma_occurrences_absent(init, x);
        assert(s[s.len() - 1] == s.last());
    }
}

/// The total length of the neighbour lists of nodes `0..k`.
pub open spec fn degree_total(ends: Seq<(usize, usize)>, k: nat) -> int
    decreases k,
{
    if k == 0 {
        0
    } else {
        degree_total(ends, (k - 1) as nat) + adjacent(ends, k - 1).len()
    }
}

proof fn lemma_degree_total_push(ends: Seq<(usize, usize)>, e: (usize, usize), k: nat)
    requires
        e.0 != e.1,
    ensures
        degree_total(ends.push(e), k) == degree_total(ends, k) + (if e.0 < k {
            1int
        } else {
            0int
        }) + (if e.1 < k {
            1int
        } else {
            0int
        }),
    decreases k,
{
    if k > 0 {
        lemma_degree_total_push(ends, e, (k - 1) as nat);
        assert(ends.push(e).drop_last() =~= ends);
        assert(ends.push(e).last() == e);
    }
}

/// Every edge is listed twice, once at each end: the neighbour lists of all `n` nodes hold
/// twice as many entries as there are edges.
pub proof fn adjacency_degrees_sum(ends: Seq<(usize, usize)>, n: nat)
    requires
        proper_ends(ends, n),
    ensures
        degree_total(ends, n) == 2 * ends.len(),
    decreases ends.len(),
{
    if ends.len() == 0 {
        assert forall|k: nat| k <= n implies degree_total(ends, k) == 0 by {
            lemma_degree_total_empty(ends, k);
        }
    } else {
        let init = ends.drop_last();
        assert(proper_ends(init, n)) by {
            assert forall|k: int| 0 <= k < init.len() implies (#[trigger] init[k]).0 < n && init[k].1
                < n && init[k].0 != init[k].1 by {
                assert(init[k] == ends[k]);
            }
        }
        adjacency_degrees_sum(init, n);
        let e = ends.last();
        assert(ends[ends.len() - 1] == e);
        assert(init.push(e) =~= ends);
        lemma_degree_total_push(init, e, n);
    }
}

proof fn lemma_degree_total_empty(ends: Seq<(usize, usize)>, k: nat)
    requires
        ends.len() == 0,
    ensures
        degree_total(ends, k) == 0,
    decreases k,
{
    if k > 0 {
        lemma_degree_total_empty(ends, (k - 1) as nat);
    }
}

proof fn lemma_concat_contains(a: Seq<u32>, b: Seq<u32>, x: u32)
    ensures
        (a + b).contains(x) <==> a.contains(x) || b.contains(x),
{
    if (a + b).contains(x) {
        let p = choose|p: int| 0 <= p < (a + b).len() && (a + b)[p] == x;
        if p < a.len() {
            assert(a[p] == x);
        } else {
            assert(b[p - a.len()] == x);
        }
    }
    if a.contains(x) {
        let p = choose|p: int| 0 <= p < a.len() && a[p] == x;
        assert((a + b)[p] == x);
    }
    if b.contains(x) {
        let p = choose|p: int| 0 <= p < b.len() && b[p] == x;
        assert((a + b)[p + a.len()] == x);
    }
}

} // verus!
