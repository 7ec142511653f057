//! The optional semantic-search tier: which nodes get embedded, in what order and batches, and
//! the text each node is represented by. The requests themselves are the caller's.

use vstd::prelude::*;
use vstd::utf8::{encode_scalar, encode_utf8};

use crate::graph::model::{GraphData, GraphNode};
use crate::number::{parse_usize, parse_usize_spec, parse_u64, parse_u64_spec};
use crate::text::{chars_of, text_equal, trim, trim_bounds};

verus! {

/// `s` without any trailing `c`, as `str::trim_end_matches(c)` gives it.
pub open spec fn strip_trailing(s: Seq<char>, c: char) -> Seq<char>
    decreases s.len(),
{
    if s.len() > 0 && s.last() == c {
        strip_trailing(s.drop_last(), c)
    } else {
        s
    }
}

/// The embedding service's base URL as configured: trimmed, without trailing slashes; `None`
/// when the setting is blank, which disables the tier.
pub open spec fn embed_url(raw: Seq<char>) -> Option<Seq<char>> {
    if trim(raw).len() == 0 {
        None
    } else {
        Some(strip_trailing(trim(raw), '/'))
    }
}

pub struct EmbedOptions {
    /// Base URL of the embedding service. `None` disables the tier.
    pub url: Option<String>,
    pub model: String,
    /// Nodes sent per request; at least one.
    pub batch: usize,
    /// Ceiling on how many nodes get embedded, highest degree first.
    pub max_nodes: usize,
    /// Request timeout, in seconds.
    pub timeout_secs: u64,
}

/// Which numeric setting of an [`EmbedOptions`] was not a non-negative integer, and its text.
pub enum EmbedSettingError {
    Batch(String),
    MaxNodes(String),
    TimeoutSecs(String),
}

impl EmbedOptions {
    /// Whether the semantic tier is configured at all.
    pub fn enabled(&self) -> (r: bool)
        ensures
            r == self.url is Some,
    {
        self.url.is_some()
    }

    /// Build the options from their textual settings. The first numeric setting that does not
    /// parse is reported; a batch size of zero is raised to one.
    pub fn from_settings(
        url: &str,
        model: &str,
        batch: &str,
        max_nodes: &str,
        timeout_secs: &str,
    ) -> (r: Result<EmbedOptions, EmbedSettingError>)
        ensures
            match r {
                Ok(o) => {
                    &&& match (o.url, embed_url(url@)) {
                        (Some(u), Some(v)) => u@ == v,
                        (None, None) => true,
                        _ => false,
                    }
                    &&& o.model@ == model@
                    &&& parse_usize_spec(batch@) matches Some(b) && o.batch == if b < 1 {
                        1
                    } else {
                        b
                    }
                    &&& parse_usize_spec(max_nodes@) == Some(o.max_nodes)
                    &&& parse_u64_spec(timeout_secs@) == Some(o.timeout_secs)
                },
                Err(EmbedSettingError::Batch(raw)) => raw@ == batch@ && parse_usize_spec(batch@) is None,
                Err(EmbedSettingError::MaxNodes(raw)) => raw@ == max_nodes@ && parse_usize_spec(
                    batch@,
                ) is Some && parse_usize_spec(max_nodes@) is None,
                Err(EmbedSettingError::TimeoutSecs(raw)) => raw@ == timeout_secs@
                    && parse_usize_spec(batch@) is Some && parse_usize_spec(max_nodes@) is Some
                    && parse_u64_spec(timeout_secs@) is None,
            },
    {
        let batch_v = match parse_usize(batch) {
            Some(v) => v,
            None => {
                return Err(EmbedSettingError::Batch(batch.to_owned()));
            },
        };
        let max_nodes_v = match parse_usize(max_nodes) {
            Some(v) => v,
            None => {
                return Err(EmbedSettingError::MaxNodes(max_nodes.to_owned()));
            },
        };
        let timeout_v = match parse_u64(timeout_secs) {
            Some(v) => v,
            None => {
                return Err(EmbedSettingError::TimeoutSecs(timeout_secs.to_owned()));
            },
        };
        let chars = chars_of(url);
        let (a, b) = trim_bounds(&chars);
        let url_v = if a == b {
            None
        } else {
            let mut e: usize = b;
            while e > a && chars[e - 1] == '/'
                invariant
                    a <= e <= b <= chars@.len(),
                    strip_trailing(chars@.subrange(a as int, b as int), '/') == strip_trailing(
                        chars@.subrange(a as int, e as int),
                        '/',
                    ),
                decreases e,
            {
                assert(chars@.subrange(a as int, e as int).drop_last() =~= chars@.subrange(
                    a as int,
                    e - 1,
                ));
                e = e - 1;
            }
            assert(strip_trailing(chars@.subrange(a as int, e as int), '/') == chars@.subrange(
                a as int,
                e as int,
            ));
            Some(url.substring_char(a, e).to_owned())
        };
        Ok(
            EmbedOptions {
                url: url_v,
                model: model.to_owned(),
                batch: if batch_v < 1 {
                    1
                } else {
                    batch_v
                },
                max_nodes: max_nodes_v,
                timeout_secs: timeout_v,
            },
        )
    }
}

/// The text of a node's description so far, extended with its properties from `entries` on:
/// `; key: value` for each, skipping the `name` key, stopping once the text is longer than
/// 900 bytes.
pub open spec fn described(acc: Seq<char>, entries: Seq<(Seq<char>, Seq<char>)>) -> Seq<char>
    decreases entries.len(),
{
    if entries.len() == 0 {
        acc
    } else if entries[0].0 == seq!['n', 'a', 'm', 'e'] {
        described(acc, entries.drop_first())
    } else {
        let next = acc + seq![';', ' '] + entries[0].0 + seq![':', ' '] + entries[0].1;
        if encode_utf8(next).len() > 900 {
            next
        } else {
            described(next, entries.drop_first())
        }
    }
}

/// The text a node is represented by for embedding: `name (label)`, then its properties.
pub open spec fn node_text_spec(node: GraphNode) -> Seq<char> {
    described(
        node.name@ + seq![' ', '('] + node.label@ + seq![')'],
        node.props.entries_view().map_values(|e: (Seq<char>, String)| (e.0, e.1@)),
    )
}

/// The `; key: value` segments a node's properties contribute to its text, in key order, the
/// `name` key left out.
pub open spec fn prop_segments(entries: Seq<(Seq<char>, Seq<char>)>) -> Seq<Seq<char>>
    decreases entries.len(),
{
    if entries.len() == 0 {
        Seq::empty()
    } else if entries[0].0 == seq!['n', 'a', 'm', 'e'] {
        prop_segments(entries.drop_first())
    } else {
        seq![seq![';', ' '] + entries[0].0 + seq![':', ' '] + entries[0].1] + prop_segments(
            entries.drop_first(),
        )
    }
}

proof fn lemma_take_flatten(s0: Seq<char>, rest: Seq<Seq<char>>, j: int)
    requires
        1 <= j <= rest.len() + 1,
    ensures
        (seq![s0] + rest).take(j).flatten() == s0 + rest.take(j - 1).flatten(),
{
    let x = (seq![s0] + rest).take(j);
    assert(x.len() > 0);
    assert(x.first() == s0);
    assert(x.drop_first() =~= rest.take(j - 1));
}

proof fn lemma_described_stops(acc: Seq<char>, entries: Seq<(Seq<char>, Seq<char>)>) -> (m: int)
    ensures
        0 <= m <= prop_segments(entries).len(),
        described(acc, entries) == acc + prop_segments(entries).take(m).flatten(),
        prop_segments(entries).len() > 0 ==> m >= 1,
        forall|j: int|
            1 <= j < m ==> encode_utf8(acc + (#[trigger] prop_segments(entries).take(j)).flatten()).len()
                <= 900,
        m < prop_segments(entries).len() ==> encode_utf8(
            acc + prop_segments(entries).take(m).flatten(),
        ).len() > 900,
    decreases entries.len(),
{
    let segs = prop_segments(entries);
    if entries.len() == 0 {
        assert(segs.take(0) =~= Seq::<Seq<char>>::empty());
        assert(acc + Seq::<Seq<char>>::empty().flatten() =~= acc);
        0
    } else if entries[0].0 == seq!['n', 'a', 'm', 'e'] {
        lemma_described_stops(acc, entries.drop_first())
    } else {
        let rest = entries.drop_first();
        let r = prop_segments(rest);
        let s0 = seq![';', ' '] + entries[0].0 + seq![':', ' '] + entries[0].1;
        let next = acc + seq![';', ' '] + entries[0].0 + seq![':', ' '] + entries[0].1;
        assert(next =~= acc + s0);
        assert(segs == seq![s0] + r);
        if 900 < encode_utf8(next).len() {
            lemma_take_flatten(s0, r, 1);
            assert(r.take(0) =~= Seq::<Seq<char>>::empty());
            assert(s0 + Seq::<Seq<char>>::empty().flatten() =~= s0);
            assert(acc + segs.take(1).flatten() =~= next);
            1
        } else {
            let m1 = lemma_described_stops(next, rest);
            let m = m1 + 1;
            lemma_take_flatten(s0, r, m);
            assert(acc + (s0 + r.take(m1).flatten()) =~= next + r.take(m1).flatten());
            assert forall|j: int| 1 <= j < m implies encode_utf8(
                acc + (#[trigger] segs.take(j)).flatten(),
            ).len() <= 900 by {
                lemma_take_flatten(s0, r, j);
                assert(acc + (s0 + r.take(j - 1).flatten()) =~= next + r.take(j - 1).flatten());
                if j == 1 {
                    assert(r.take(0) =~= Seq::<Seq<char>>::empty());
                    assert(next + Seq::<Seq<char>>::empty().flatten() =~= next);
                } else {
                    assert(encode_utf8(next + r.take(j - 1).flatten()).len() <= 900);
                }
            }
            m
        }
    }
}

/// A node's text is `name (label)` followed by the `; key: value` segments of its properties in
/// key order (the `name` key left out), and it stops only once it has grown past 900 bytes:
/// at least one segment is kept when there is one, every shorter cut that keeps a segment is at
/// most 900 bytes, and a text that leaves segments out is over 900 bytes.
pub proof fn node_text_stops_only_past_900_bytes(node: GraphNode) -> (m: int)
    ensures
        ({
            let head = node.name@ + seq![' ', '('] + node.label@ + seq![')'];
            let segs = prop_segments(
                node.props.entries_view().map_values(|e: (Seq<char>, String)| (e.0, e.1@)),
            );
            &&& 0 <= m <= segs.len()
            &&& node_text_spec(node) == head + segs.take(m).flatten()
            &&& segs.len() > 0 ==> m >= 1
            &&& forall|j: int|
                1 <= j < m ==> encode_utf8(head + (#[trigger] segs.take(j)).flatten()).len() <= 900
            &&& m < segs.len() ==> encode_utf8(head + segs.take(m).flatten()).len() > 900
        }),
{
    lemma_described_stops(
        node.name@ + seq![' ', '('] + node.label@ + seq![')'],
        node.props.entries_view().map_values(|e: (Seq<char>, String)| (e.0, e.1@)),
    )
}

/// Whether `s` takes more than `limit` bytes in UTF-8, as `s.len() > limit` tells.
fn utf8_len_exceeds(s: &str, limit: usize) -> (r: bool)
    requires
        limit <= 0x1_0000,
    ensures
        r == (encode_utf8(s@).len() > limit),
{
    let chars = chars_of(s);
    let mut count: usize = 0;
    let mut i: usize = 0;
    assert(chars@.skip(0) =~= chars@);
    while i < chars.len()
        invariant
            i <= chars@.len(),
            chars@ == s@,
            count <= limit <= 0x1_0000,
            encode_utf8(s@).len() == count + encode_utf8(chars@.skip(i as int)).len(),
        decreases chars@.len() - i,
    {
        let u = chars[i] as u32;
        let width: usize = if u <= 0x7f {
            1
        } else if u <= 0x7ff {
            2
        } else if u <= 0xffff {
            3
        } else {
            4
        };
        assert(chars@.skip(i as int)[0] == chars@[i as int]);
        assert(chars@.skip(i as int).drop_first() =~= chars@.skip(i + 1));
        proof {
            vstd::utf8::char_is_scalar(chars@[i as int]);
        }
        assert(encode_scalar(u).len() == width);
        count = count + width;
        if count > limit {
            return true;
        }
        i = i + 1;
    }
    assert(chars@.skip(i as int) =~= Seq::<char>::empty());
    false
}

/// The text a node is represented by. Name and label first because they carry the most
/// signal, then property values.
pub fn node_text(node: &GraphNode) -> (s: String)
    ensures
        s@ == node_text_spec(*node),
{
    let mut s = node.name.clone();
    let open_paren = " (";
    let close_paren = ")";
    let separator = "; ";
    let colon = ": ";
    let name_key = "name";
    proof {
        reveal_strlit(" (");
        reveal_strlit(")");
        reveal_strlit("; ");
        reveal_strlit(": ");
        reveal_strlit("name");
    }
    s.append(open_paren);
    s.append(node.label.as_str());
    s.append(close_paren);
    assert(s@ =~= node.name@ + seq![' ', '('] + node.label@ + seq![')']);
    assert(name_key@ =~= seq!['n', 'a', 'm', 'e']);
    assert(separator@ =~= seq![';', ' ']);
    assert(colon@ =~= seq![':', ' ']);
    let entries = node.props.as_slice();
    let ghost ev = node.props.entries_view().map_values(|e: (Seq<char>, String)| (e.0, e.1@));
    let mut i: usize = 0;
    assert(ev.skip(0) =~= ev);
    while i < entries.len()
        invariant
            i <= entries@.len() == ev.len(),
            ev == node.props.entries_view().map_values(|e: (Seq<char>, String)| (e.0, e.1@)),
            forall|k: int|
                0 <= k < entries@.len() ==> (#[trigger] entries@[k]).0@ == node.props.entries_view()[k].0
                    && entries@[k].1 == node.props.entries_view()[k].1,
            described(s@, ev.skip(i as int)) == node_text_spec(*node),
            name_key@ == seq!['n', 'a', 'm', 'e'],
            separator@ == seq![';', ' '],
            colon@ == seq![':', ' '],
        decreases entries@.len() - i,
    {
        let (k, v) = (&entries[i].0, &entries[i].1);
        assert(ev.skip(i as int)[0] == (k@, v@));
        assert(ev.skip(i as int).drop_first() =~= ev.skip(i + 1));
        if text_equal(k.as_str(), name_key) {
            i = i + 1;
            continue;
        }
        let ghost before = s@;
        s.append(separator);
        s.append(k.as_str());
        s.append(colon);
        s.append(v.as_str());
        assert(s@ =~= before + seq![';', ' '] + k@ + seq![':', ' '] + v@);
        if utf8_len_exceeds(s.as_str(), 900) {
            return s;
        }
        i = i + 1;
    }
    assert(ev.skip(i as int) =~= Seq::<(Seq<char>, Seq<char>)>::empty());
    s
}

/// Embedding order: higher degree first, then lower index.
pub open spec fn ranks_before(deg: Seq<u32>, a: usize, b: usize) -> bool {
    deg[a as int] > deg[b as int] || (deg[a as int] == deg[b as int] && a < b)
}

/// `s` strictly in embedding order, which also means no node twice.
pub open spec fn ranked(deg: Seq<u32>, s: Seq<usize>) -> bool {
    forall|i: int, j: int| 0 <= i < j < s.len() ==> ranks_before(deg, #[trigger] s[i], #[trigger] s[j])
}

pub open spec fn all_below(s: Seq<usize>, n: nat) -> bool {
    forall|i: int| 0 <= i < s.len() ==> (#[trigger] s[i] as nat) < n
}

proof fn lemma_push_contains(s: Seq<usize>, x: usize)
    ensures
        forall|y: usize| #[trigger] s.push(x).contains(y) <==> s.contains(y) || y == x,
{
    assert forall|y: usize| #[trigger] s.push(x).contains(y) <==> s.contains(y) || y == x by {
        if s.push(x).contains(y) && y != x {
            let p = choose|p: int| 0 <= p < s.push(x).len() && s.push(x)[p] == y;
            assert(s[p] == y);
        }
        if s.contains(y) {
            let p = choose|p: int| 0 <= p < s.len() && s[p] == y;
            assert(s.push(x)[p] == y);
        }
        if y == x {
            assert(s.push(x)[s.len() as int] == x);
        }
    }
}

fn merge_ranked(a: &Vec<usize>, b: &Vec<usize>, deg: &Vec<u32>) -> (r: Vec<usize>)
    requires
        ranked(deg@, a@),
        ranked(deg@, b@),
        all_below(a@, deg@.len()),
        all_below(b@, deg@.len()),
        forall|x: usize| a@.contains(x) ==> !b@.contains(x),
    ensures
        ranked(deg@, r@),
        all_below(r@, deg@.len()),
        r@.len() == a@.len() + b@.len(),
        forall|x: usize| #[trigger] r@.contains(x) <==> a@.contains(x) || b@.contains(x),
{
    let mut r: Vec<usize> = Vec::new();
    let mut i: usize = 0;
    let mut j: usize = 0;
    while i < a.len() || j < b.len()
        invariant
            i <= a@.len(),
            j <= b@.len(),
            ranked(deg@, a@),
            ranked(deg@, b@),
            all_below(a@, deg@.len()),
            all_below(b@, deg@.len()),
            forall|x: usize| a@.contains(x) ==> !b@.contains(x),
            ranked(deg@, r@),
            all_below(r@, deg@.len()),
            r@.len() == i + j,
            forall|x: usize|
                #[trigger] r@.contains(x) <==> a@.take(i as int).contains(x) || b@.take(
                    j as int,
                ).contains(x),
            r@.len() > 0 && i < a@.len() ==> ranks_before(deg@, r@.last(), a@[i as int]),
            r@.len() > 0 && j < b@.len() ==> ranks_before(deg@, r@.last(), b@[j as int]),
        decreases a@.len() + b@.len() - i - j,
    {
        let take_a = if i < a.len() && j < b.len() {
            let x = a[i];
            let y = b[j];
            deg[x] > deg[y] || (deg[x] == deg[y] && x < y)
        } else {
            i < a.len()
        };
        let ghost before = r@;
        let x = if take_a {
            a[i]
        } else {
            b[j]
        };
        proof {
            if take_a && j < b@.len() {
                assert(a@[i as int] != b@[j as int]) by {
                    assert(a@.contains(a@[i as int]));
                }
            }
        }
        r.push(x);
        proof {
            assert forall|p: int, q: int| 0 <= p < q < r@.len() implies ranks_before(
                deg@,
                #[trigger] r@[p],
                #[trigger] r@[q],
            ) by {
                if q == r@.len() - 1 && p < q - 1 {
                    assert(ranks_before(deg@, before[p], before.last()));
                }
            }
            if take_a {
                assert(a@.take(i + 1) =~= a@.take(i as int).push(x));
                if i + 1 < a@.len() {
                    assert(ranks_before(deg@, a@[i as int], a@[i + 1]));
                }
                if j < b@.len() {
                    assert(ranks_before(deg@, x, b@[j as int]));
                }
            } else {
                assert(b@.take(j + 1) =~= b@.take(j as int).push(x));
                if j + 1 < b@.len() {
                    assert(ranks_before(deg@, b@[j as int], b@[j + 1]));
                }
                if i < a@.len() {
                    assert(b@[j as int] != a@[i as int]) by {
                        assert(a@.contains(a@[i as int]));
                    }
                    assert(ranks_before(deg@, x, a@[i as int]));
                }
            }
            lemma_push_contains(before, x);
            lemma_push_contains(a@.take(i as int), x);
            lemma_push_contains(b@.take(j as int), x);
            if take_a {
                assert forall|y: usize| #[trigger] r@.contains(y) <==> a@.take(i + 1).contains(y)
                    || b@.take(j as int).contains(y) by {
                    assert(before.contains(y) <==> a@.take(i as int).contains(y) || b@.take(
                        j as int,
                    ).contains(y));
                }
            } else {
                assert forall|y: usize| #[trigger] r@.contains(y) <==> a@.take(i as int).contains(y)
                    || b@.take(j + 1).contains(y) by {
                    assert(before.contains(y) <==> a@.take(i as int).contains(y) || b@.take(
                        j as int,
                    ).contains(y));
                }
            }
        }
        if take_a {
            i = i + 1;
        } else {
            j = j + 1;
        }
    }
    assert(a@.take(i as int) =~= a@);
    assert(b@.take(j as int) =~= b@);
    r
}

/// `v` in embedding order.
fn sort_ranked(v: &[usize], deg: &Vec<u32>) -> (r: Vec<usize>)
    requires
        v@.no_duplicates(),
        all_below(v@, deg@.len()),
    ensures
        ranked(deg@, r@),
        all_below(r@, deg@.len()),
        r@.len() == v@.len(),
        forall|x: usize| #[trigger] r@.contains(x) <==> v@.contains(x),
    decreases v@.len(),
{
    if v.len() <= 1 {
        let r = vstd::slice::slice_to_vec(v);
        return r;
    }
    let mid = v.len() / 2;
    let (left, right) = v.split_at(mid);
    proof {
        assert forall|x: usize| left@.contains(x) implies !right@.contains(x) by {
            let p = choose|p: int| 0 <= p < left@.len() && left@[p] == x;
            if right@.contains(x) {
                let q = choose|q: int| 0 <= q < right@.len() && right@[q] == x;
                assert(v@[p] == v@[q + mid]);
            }
        }
        assert forall|p: int, q: int| 0 <= p < q < left@.len() implies left@[p] != left@[q] by {
            assert(left@[p] == v@[p] && left@[q] == v@[q]);
        }
        assert forall|p: int, q: int| 0 <= p < q < right@.len() implies right@[p] != right@[q] by {
            assert(right@[p] == v@[p + mid] && right@[q] == v@[q + mid]);
        }
        assert forall|p: int| 0 <= p < left@.len() implies (#[trigger] left@[p] as nat) < deg@.len() by {
            assert(left@[p] == v@[p]);
        }
        assert forall|p: int| 0 <= p < right@.len() implies (#[trigger] right@[p] as nat) < deg@.len() by {
            assert(right@[p] == v@[p + mid]);
        }
    }
    let sl = sort_ranked(left, deg);
    let sr = sort_ranked(right, deg);
    let r = merge_ranked(&sl, &sr, deg);
    proof {
        assert forall|x: usize| #[trigger] r@.contains(x) <==> v@.contains(x) by {
            if v@.contains(x) {
                let p = choose|p: int| 0 <= p < v@.len() && v@[p] == x;
                if p < mid {
                    assert(left@[p] == x);
                } else {
                    assert(right@[p - mid] == x);
                }
            }
            if left@.contains(x) {
                let p = choose|p: int| 0 <= p < left@.len() && left@[p] == x;
                assert(v@[p] == x);
            }
            if right@.contains(x) {
                let p = choose|p: int| 0 <= p < right@.len() && right@[p] == x;
                assert(v@[p + mid] == x);
            }
        }
    }
    r
}

/// The nodes to embed, highest degree first (ties broken by lower index), at most
/// `max_nodes` of them: the first `min(max_nodes, n)` nodes of that order.
pub fn embedding_order(data: &GraphData, max_nodes: usize) -> (order: Vec<usize>)
    ensures
        ({
            let deg = data.nodes_view().map_values(|v: GraphNode| v.deg);
            let n = data.nodes_view().len();
            &&& order@.len() == if max_nodes < n { max_nodes as int } else { n as int }
            &&& all_below(order@, n)
            &&& ranked(deg, order@)
            &&& forall|v: usize| (v as nat) < n && !order@.contains(v) ==> forall|i: int|
                0 <= i < order@.len() ==> ranks_before(deg, #[trigger] order@[i], v)
        }),
{
    let nodes = data.nodes();
    let n = nodes.len();
    let mut deg: Vec<u32> = Vec::new();
    let mut all: Vec<usize> = Vec::new();
    let mut i: usize = 0;
    while i < n
        invariant
            i <= n == nodes@.len(),
            deg@ == nodes@.take(i as int).map_values(|v: GraphNode| v.deg),
            all@.len() == i,
            forall|k: int| 0 <= k < i ==> #[trigger] all@[k] == k,
        decreases n - i,
    {
        deg.push(nodes[i].deg);
        all.push(i);
        assert(nodes@.take(i + 1).map_values(|v: GraphNode| v.deg) =~= nodes@.take(
            i as int,
        ).map_values(|v: GraphNode| v.deg).push(nodes@[i as int].deg));
        i = i + 1;
    }
    assert(nodes@.take(n as int) =~= nodes@);
    let ghost degs = deg@;
    proof {
        assert(all@.no_duplicates());
        assert(all_below(all@, deg@.len()));
    }
    let mut sorted = sort_ranked(all.as_slice(), &deg);
    let k = if max_nodes < n {
        max_nodes
    } else {
        n
    };
    let ghost full = sorted@;
    sorted.truncate(k);
    proof {
        assert(sorted@ =~= full.take(k as int));
        assert forall|v: usize| (v as nat) < n && !sorted@.contains(v) implies forall|i: int|
            0 <= i < sorted@.len() ==> ranks_before(degs, #[trigger] sorted@[i], v) by {
            assert(all@[v as int] == v);
            assert(all@.contains(v));
            assert(full.contains(v));
            let q = choose|q: int| 0 <= q < full.len() && full[q] == v;
            assert forall|i: int| 0 <= i < sorted@.len() implies ranks_before(
                degs,
                #[trigger] sorted@[i],
                v,
            ) by {
                if q < k {
                    assert(sorted@[q] == v);
                }
                assert(full[i] == sorted@[i]);
            }
        }
    }
    sorted
}

/// `order` cut into consecutive batches of `batch` nodes; the last may be shorter.
pub fn embedding_batches(order: &[usize], batch: usize) -> (batches: Vec<Vec<usize>>)
    requires
        batch >= 1,
    ensures
        forall|b: int| 0 <= b < batches@.len() ==> 1 <= (#[trigger] batches@[b])@.len() <= batch,
        forall|b: int| 0 <= b < batches@.len() - 1 ==> (#[trigger] batches@[b])@.len() == batch,
        batches@.map_values(|v: Vec<usize>| v@).fold_left(Seq::<usize>::empty(), |acc: Seq<usize>, s: Seq<usize>| acc + s) == order@,
{
    let mut batches: Vec<Vec<usize>> = Vec::new();
    let mut start: usize = 0;
    let ghost mut flat: Seq<usize> = Seq::empty();
    while start < order.len()
        invariant
            start <= order@.len(),
            batch >= 1,
            forall|b: int| 0 <= b < batches@.len() ==> 1 <= (#[trigger] batches@[b])@.len() <= batch,
            forall|b: int| 0 <= b < batches@.len() - 1 ==> (#[trigger] batches@[b])@.len() == batch,
            batches@.len() > 0 && batches@.last()@.len() < batch ==> start == order@.len(),
            batches@.map_values(|v: Vec<usize>| v@).fold_left(Seq::<usize>::empty(), |acc: Seq<usize>, s: Seq<usize>| acc + s) == order@.take(start as int),
        decreases order@.len() - start,
    {
        let end = if order.len() - start > batch {
            start + batch
        } else {
            order.len()
        };
        let mut chunk: Vec<usize> = Vec::new();
        let mut i: usize = start;
        while i < end
            invariant
                start <= i <= end <= order@.len(),
                chunk@ == order@.subrange(start as int, i as int),
            decreases end - i,
        {
            chunk.push(order[i]);
            assert(order@.subrange(start as int, i + 1) =~= order@.subrange(start as int, i as int).push(order@[i as int]));
            i = i + 1;
        }
        let ghost prev = batches@;
        batches.push(chunk);
        proof {
            let f = |v: Vec<usize>| v@;
            let g = |acc: Seq<usize>, s: Seq<usize>| acc + s;
            assert(batches@.map_values(f) =~= prev.map_values(f).push(chunk@));
            prev.map_values(f).lemma_fold_left_split(Seq::<usize>::empty(), g, prev.map_values(f).len() as int);
            assert(batches@.map_values(f).drop_last() =~= prev.map_values(f));
            assert(order@.take(end as int) =~= order@.take(start as int) + order@.subrange(start as int, end as int));
        }
        start = end;
    }
    assert(order@.take(start as int) =~= order@);
    batches
}

/// The embedding order puts hubs first: along a ranked order degrees never rise, nodes of equal
/// degree come in index order, and no node comes twice; a node left out of a ranked selection
/// has no higher degree than any node in it.
pub proof fn embedding_order_puts_hubs_first(deg: Seq<u32>, order: Seq<usize>, left_out: usize)
    requires
        ranked(deg, order),
        forall|i: int| 0 <= i < order.len() ==> ranks_before(deg, #[trigger] order[i], left_out),
    ensures
        forall|i: int, j: int|
            0 <= i < j < order.len() ==> deg[(#[trigger] order[i]) as int] >= deg[(
            #[trigger] order[j]) as int],
        forall|i: int, j: int|
            0 <= i < j < order.len() && deg[(#[trigger] order[i]) as int] == deg[(
            #[trigger] order[j]) as int] ==> order[i] < order[j],
        order.no_duplicates(),
        forall|i: int| 0 <= i < order.len() ==> deg[(#[trigger] order[i]) as int] >= deg[left_out as int],
{
    assert forall|i: int, j: int| 0 <= i < j < order.len() implies order[i] != order[j] by {
        assert(ranks_before(deg, order[i], order[j]));
    }
}

} // verus!
