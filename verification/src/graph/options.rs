//! Runtime shaping options for a graph fetch.
//!
//! Everything schema-specific lives here and is configuration rather than code, so pointing the
//! viewer at a different database never requires a change here.

use vstd::prelude::*;

use crate::number::{parse_i64, parse_i64_spec};
use crate::text::{chars_of, is_white_space, strings_view, trim, trim_end, trim_range, trim_start};

verus! {

/// The pieces of `s` between occurrences of `sep`, as `str::split` yields them: one more piece
/// than there are separators, empty pieces included.
pub open spec fn split_on(s: Seq<char>, sep: char) -> Seq<Seq<char>>
    decreases s.len(),
{
    if s.len() == 0 {
        seq![Seq::<char>::empty()]
    } else {
        let init = split_on(s.drop_last(), sep);
        if s.last() == sep {
            init.push(Seq::<char>::empty())
        } else {
            init.update(init.len() - 1, init.last().push(s.last()))
        }
    }
}

/// The trimmed pieces that are not empty, in order.
pub open spec fn nonempty_trimmed(pieces: Seq<Seq<char>>) -> Seq<Seq<char>>
    decreases pieces.len(),
{
    if pieces.len() == 0 {
        Seq::empty()
    } else {
        let rest = nonempty_trimmed(pieces.drop_last());
        let t = trim(pieces.last());
        if t.len() > 0 {
            rest.push(t)
        } else {
            rest
        }
    }
}

/// A comma-separated list: each item trimmed, empty items dropped.
pub open spec fn csv_items(raw: Seq<char>) -> Seq<Seq<char>> {
    nonempty_trimmed(split_on(raw, ','))
}


proof fn lemma_split_nonempty(s: Seq<char>, sep: char)
    ensures
        split_on(s, sep).len() >= 1,
    decreases s.len(),
{
    if s.len() > 0 {
        lemma_split_nonempty(s.drop_last(), sep);
    }
}

/// `items` joined with `sep` between neighbours, as `[String]::join` does.
pub open spec fn joined(items: Seq<Seq<char>>, sep: char) -> Seq<char>
    decreases items.len(),
{
    if items.len() == 0 {
        Seq::empty()
    } else if items.len() == 1 {
        items[0]
    } else {
        joined(items.drop_last(), sep).push(sep) + items.last()
    }
}

proof fn lemma_subrange_excludes(s: Seq<char>, i: int, j: int, c: char)
    requires
        0 <= i <= j <= s.len(),
        !s.contains(c),
    ensures
        !s.subrange(i, j).contains(c),
{
    assert forall|p: int| 0 <= p < j - i implies s.subrange(i, j)[p] != c by {
        assert(s.subrange(i, j)[p] == s[i + p]);
    }
}

proof fn lemma_trim_start_shape(s: Seq<char>)
    ensures
        trim_start(s).len() <= s.len(),
        trim_start(s) == s.subrange(s.len() - trim_start(s).len(), s.len() as int),
        trim_start(s).len() == 0 || !is_white_space(trim_start(s)[0]),
    decreases s.len(),
{
    if s.len() > 0 && is_white_space(s[0]) {
        lemma_trim_start_shape(s.drop_first());
        let t = trim_start(s);
        assert(s.drop_first().subrange(s.len() - 1 - t.len(), s.len() - 1) =~= s.subrange(
            s.len() - t.len(),
            s.len() as int,
        ));
    } else {
        assert(s.subrange(0, s.len() as int) =~= s);
    }
}

proof fn lemma_trim_end_shape(s: Seq<char>)
    ensures
        trim_end(s).len() <= s.len(),
        trim_end(s) == s.subrange(0, trim_end(s).len() as int),
        trim_end(s).len() == 0 || !is_white_space(trim_end(s).last()),
    decreases s.len(),
{
    if s.len() > 0 && is_white_space(s.last()) {
        lemma_trim_end_shape(s.drop_last());
        let t = trim_end(s);
        assert(s.drop_last().subrange(0, t.len() as int) =~= s.subrange(0, t.len() as int));
    } else {
        assert(s.subrange(0, s.len() as int) =~= s);
    }
}

/// Trimming keeps out what the text keeps out, and trims nothing more the second time.
proof fn lemma_trim_shape(s: Seq<char>, c: char)
    ensures
        !s.contains(c) ==> !trim(s).contains(c),
        trim(trim(s)) == trim(s),
{
    let t0 = trim_start(s);
    let t = trim(s);
    lemma_trim_start_shape(s);
    lemma_trim_end_shape(t0);
    if !s.contains(c) {
        lemma_subrange_excludes(s, s.len() - t0.len(), s.len() as int, c);
        lemma_subrange_excludes(t0, 0, t.len() as int, c);
    }
    if t.len() == 0 {
        assert(trim_start(t) == t);
        assert(trim_end(t) == t);
    } else {
        assert(t[0] == t0[0]);
        assert(trim_start(t) == t);
        assert(trim_end(t) == t);
    }
}

proof fn lemma_split_pieces_exclude(s: Seq<char>, sep: char)
    ensures
        forall|i: int| 0 <= i < split_on(s, sep).len() ==> !(#[trigger] split_on(s, sep)[i]).contains(sep),
    decreases s.len(),
{
    lemma_split_nonempty(s, sep);
    if s.len() > 0 {
        let init = split_on(s.drop_last(), sep);
        lemma_split_pieces_exclude(s.drop_last(), sep);
        lemma_split_nonempty(s.drop_last(), sep);
        let c = s.last();
        if c != sep {
            let p = init.last().push(c);
            assert(init.last() == init[init.len() - 1]);
            assert(!p.contains(sep)) by {
                assert forall|k: int| 0 <= k < p.len() implies p[k] != sep by {
                    if k < init.last().len() {
                        assert(p[k] == init.last()[k]);
                    }
                }
            }
        }
    }
}

proof fn lemma_split_no_sep(s: Seq<char>, sep: char)
    requires
        !s.contains(sep),
    ensures
        split_on(s, sep) == seq![s],
    decreases s.len(),
{
    if s.len() > 0 {
        let i = s.drop_last();
        lemma_subrange_excludes(s, 0, s.len() - 1, sep);
        assert(i =~= s.subrange(0, s.len() - 1));
        lemma_split_no_sep(i, sep);
        assert(s[s.len() - 1] == s.last());
        assert(i.push(s.last()) =~= s);
        assert(split_on(s, sep) =~= seq![s]);
    } else {
        assert(s =~= Seq::<char>::empty());
        assert(split_on(s, sep) =~= seq![s]);
    }
}

proof fn lemma_split_append(a: Seq<char>, b: Seq<char>, sep: char)
    requires
        !b.contains(sep),
    ensures
        split_on(a + b, sep) == split_on(a, sep).update(
            split_on(a, sep).len() - 1,
            split_on(a, sep).last() + b,
        ),
    decreases b.len(),
{
    lemma_split_nonempty(a, sep);
    let sa = split_on(a, sep);
    if b.len() == 0 {
        assert(a + b =~= a);
        assert(sa.last() + b =~= sa.last());
        assert(sa.update(sa.len() - 1, sa.last() + b) =~= sa);
    } else {
        let bi = b.drop_last();
        lemma_subrange_excludes(b, 0, b.len() - 1, sep);
        assert(bi =~= b.subrange(0, b.len() - 1));
        lemma_split_append(a, bi, sep);
        assert((a + b).drop_last() =~= a + bi);
        assert((a + b).last() == b.last());
        assert(b[b.len() - 1] == b.last());
        let prev = split_on(a + bi, sep);
        assert(prev.len() == sa.len());
        assert(prev.last() == sa.last() + bi);
        assert((sa.last() + bi).push(b.last()) =~= sa.last() + b);
        assert(split_on(a + b, sep) =~= sa.update(sa.len() - 1, sa.last() + b));
    }
}

proof fn lemma_split_joined(items: Seq<Seq<char>>, sep: char)
    requires
        items.len() >= 1,
        forall|i: int| 0 <= i < items.len() ==> !(#[trigger] items[i]).contains(sep),
    ensures
        split_on(joined(items, sep), sep) == items,
    decreases items.len(),
{
    if items.len() == 1 {
        lemma_split_no_sep(items[0], sep);
        assert(seq![items[0]] =~= items);
    } else {
        let init = items.drop_last();
        assert forall|i: int| 0 <= i < init.len() implies !(#[trigger] init[i]).contains(sep) by {
            assert(init[i] == items[i]);
        }
        lemma_split_joined(init, sep);
        let a = joined(init, sep).push(sep);
        assert(a.drop_last() =~= joined(init, sep));
        assert(a.last() == sep);
        assert(split_on(a, sep) == init.push(Seq::<char>::empty()));
        assert(items[items.len() - 1] == items.last());
        lemma_split_append(a, items.last(), sep);
        assert(Seq::<char>::empty() + items.last() =~= items.last());
        assert(init.push(Seq::<char>::empty()).update(init.len() as int, items.last()) =~= items);
    }
}

proof fn lemma_nonempty_trimmed_shape(pieces: Seq<Seq<char>>, sep: char)
    requires
        forall|i: int| 0 <= i < pieces.len() ==> !(#[trigger] pieces[i]).contains(sep),
    ensures
        forall|i: int|
            0 <= i < nonempty_trimmed(pieces).len() ==> {
                &&& (#[trigger] nonempty_trimmed(pieces)[i]).len() > 0
                &&& trim(nonempty_trimmed(pieces)[i]) == nonempty_trimmed(pieces)[i]
                &&& !nonempty_trimmed(pieces)[i].contains(sep)
            },
    decreases pieces.len(),
{
    if pieces.len() > 0 {
        let init = pieces.drop_last();
        assert forall|i: int| 0 <= i < init.len() implies !(#[trigger] init[i]).contains(sep) by {
            assert(init[i] == pieces[i]);
        }
        lemma_nonempty_trimmed_shape(init, sep);
        assert(pieces[pieces.len() - 1] == pieces.last());
        lemma_trim_shape(pieces.last(), sep);
        let rest = nonempty_trimmed(init);
        let t = trim(pieces.last());
        if t.len() > 0 {
            assert(nonempty_trimmed(pieces) == rest.push(t));
            assert forall|i: int| 0 <= i < rest.push(t).len() implies {
                &&& (#[trigger] rest.push(t)[i]).len() > 0
                &&& trim(rest.push(t)[i]) == rest.push(t)[i]
                &&& !rest.push(t)[i].contains(sep)
            } by {
                if i < rest.len() {
                    assert(rest.push(t)[i] == rest[i]);
                }
            }
        }
    }
}

proof fn lemma_nonempty_trimmed_fixed(items: Seq<Seq<char>>)
    requires
        forall|i: int| 0 <= i < items.len() ==> (#[trigger] items[i]).len() > 0 && trim(items[i]) == items[i],
    ensures
        nonempty_trimmed(items) == items,
    decreases items.len(),
{
    if items.len() > 0 {
        let init = items.drop_last();
        assert forall|i: int| 0 <= i < init.len() implies (#[trigger] init[i]).len() > 0 && trim(
            init[i],
        ) == init[i] by {
            assert(init[i] == items[i]);
        }
        lemma_nonempty_trimmed_fixed(init);
        assert(items[items.len() - 1] == items.last());
        assert(init.push(items.last()) =~= items);
    }
}

/// A parsed list survives a round trip: joining its items with commas and parsing that again
/// gives the same items, since every item is non-empty, already trimmed, and holds no comma.
pub proof fn csv_rejoined_is_unchanged(raw: Seq<char>)
    ensures
        csv_items(joined(csv_items(raw), ',')) == csv_items(raw),
        forall|i: int|
            0 <= i < csv_items(raw).len() ==> {
                &&& (#[trigger] csv_items(raw)[i]).len() > 0
                &&& trim(csv_items(raw)[i]) == csv_items(raw)[i]
                &&& !csv_items(raw)[i].contains(',')
            },
{
    let items = csv_items(raw);
    lemma_split_pieces_exclude(raw, ',');
    lemma_nonempty_trimmed_shape(split_on(raw, ','), ',');
    if items.len() == 0 {
        let e = Seq::<char>::empty();
        assert(joined(items, ',') == e);
        assert(split_on(e, ',') == seq![e]);
        assert(trim_start(e) == e);
        assert(trim_end(e) == e);
        let one = seq![e];
        assert(one.drop_last() =~= Seq::<Seq<char>>::empty());
        assert(one.last() == e);
        assert(trim(e) == e);
        assert(nonempty_trimmed(Seq::<Seq<char>>::empty()) == Seq::<Seq<char>>::empty());
        assert(nonempty_trimmed(one) =~= items);
    } else {
        lemma_split_joined(items, ',');
        lemma_nonempty_trimmed_fixed(items);
    }
}

/// Parse a comma-separated list, tolerating white space around items and empty items.
pub fn csv(raw: &str) -> (items: Vec<String>)
    ensures
        strings_view(items@) == csv_items(raw@),
{
    let chars = chars_of(raw);
    let n = chars.len();
    let mut items: Vec<String> = Vec::new();
    let mut start: usize = 0;
    let mut i: usize = 0;
    assert(chars@.subrange(0, 0) =~= Seq::<char>::empty());
    assert(split_on(Seq::<char>::empty(), ',').drop_last().push(Seq::<char>::empty())
        =~= split_on(Seq::<char>::empty(), ','));
    while i < n
        invariant
            start <= i <= n == chars.len(),
            chars@ == raw@,
            split_on(chars@.subrange(0, i as int), ',') == split_on(
                chars@.subrange(0, start as int),
                ',',
            ).drop_last().push(chars@.subrange(start as int, i as int)),
            strings_view(items@) == nonempty_trimmed(
                split_on(chars@.subrange(0, start as int), ',').drop_last(),
            ),
            start == 0 || chars@[start - 1] == ',',
        decreases n - i,
    {
        let ghost pre = chars@.subrange(0, i as int);
        let ghost next = chars@.subrange(0, i + 1);
        assert(next.drop_last() =~= pre);
        assert(next.last() == chars@[i as int]);
        proof {
            lemma_split_nonempty(pre, ',');
        }
        if chars[i] == ',' {
            let (x, y) = trim_range(&chars, start, i);
            let ghost done = split_on(chars@.subrange(0, start as int), ',').drop_last();
            assert(split_on(next, ',') == split_on(pre, ',').push(Seq::<char>::empty()));
            assert(split_on(next, ',').drop_last() =~= done.push(
                chars@.subrange(start as int, i as int),
            ));
            assert(done.push(chars@.subrange(start as int, i as int)).drop_last() =~= done);
            if x < y {
                let piece = raw.substring_char(x, y).to_owned();
                items.push(piece);
                assert(strings_view(items@) =~= strings_view(items@).drop_last().push(piece@));
            }
            assert(strings_view(items@) == nonempty_trimmed(split_on(next, ',').drop_last()));
            start = i + 1;
            assert(chars@.subrange(start as int, (i + 1) as int) =~= Seq::<char>::empty());
            assert(split_on(next, ',') =~= split_on(next, ',').drop_last().push(
                chars@.subrange(start as int, (i + 1) as int),
            ));
        } else {
            assert(chars@.subrange(start as int, i + 1) =~= chars@.subrange(
                start as int,
                i as int,
            ).push(chars@[i as int]));
        }
        i = i + 1;
    }
    let (x, y) = trim_range(&chars, start, n);
    let ghost done = split_on(chars@.subrange(0, start as int), ',').drop_last();
    assert(chars@.subrange(0, n as int) =~= raw@);
    assert(split_on(raw@, ',').drop_last() =~= done);
    proof {
        lemma_split_nonempty(raw@, ',');
    }
    if x < y {
        let piece = raw.substring_char(x, y).to_owned();
        items.push(piece);
        assert(strings_view(items@) =~= strings_view(items@).drop_last().push(piece@));
    }
    items
}

/// Property keys dropped from the payload by default: vector embeddings, which are large,
/// unreadable, and would dominate the response.
pub const DEFAULT_SKIP_PROPS: &'static str = "embedding,vector";

/// Property keys tried, in order, when choosing a node's display name. Deliberately broad: the
/// first one a node actually has wins, so one default suits several schemas.
pub const DEFAULT_NAME_KEYS: &'static str = "name,title,displayName,id,hostname,canonical";

/// Caps exist because this viewer renders the *whole* graph: the honest failure is a truncated
/// graph with a warning, not a hung request.
pub const DEFAULT_MAX_NODES: i64 = 10000;

pub const DEFAULT_MAX_RELS: i64 = 20000;

/// Longest property value rendered before truncation.
pub const DEFAULT_MAX_PROP_CHARS: usize = 600;

/// Runtime shaping options, schema-agnostic by construction.
pub struct FetchOptions {
    /// Labels that namespace a node rather than describe it. They are dropped when picking the
    /// display label, and the first one a node carries becomes its `group`.
    pub wrapper_labels: Vec<String>,
    /// Property keys never sent to the browser.
    pub skip_props: Vec<String>,
    /// Property keys tried in order when choosing a node's display name.
    pub name_keys: Vec<String>,
    /// Only fetch nodes carrying one of these labels. Empty means every label.
    pub node_labels: Vec<String>,
    /// Only fetch relationships of these types. Empty means every type.
    pub rel_types: Vec<String>,
    pub max_nodes: i64,
    pub max_rels: i64,
    /// Longest property value rendered before truncation.
    pub max_prop_chars: usize,
}

impl Default for FetchOptions {
    fn default() -> (o: Self)
        ensures
            o.wrapper_labels@.len() == 0,
            strings_view(o.skip_props@) == csv_items(DEFAULT_SKIP_PROPS@),
            strings_view(o.name_keys@) == csv_items(DEFAULT_NAME_KEYS@),
            o.node_labels@.len() == 0,
            o.rel_types@.len() == 0,
            o.max_nodes == DEFAULT_MAX_NODES,
            o.max_rels == DEFAULT_MAX_RELS,
            o.max_prop_chars == DEFAULT_MAX_PROP_CHARS,
    {
        FetchOptions {
            wrapper_labels: Vec::new(),
            skip_props: csv(DEFAULT_SKIP_PROPS),
            name_keys: csv(DEFAULT_NAME_KEYS),
            node_labels: Vec::new(),
            rel_types: Vec::new(),
            max_nodes: DEFAULT_MAX_NODES,
            max_rels: DEFAULT_MAX_RELS,
            max_prop_chars: DEFAULT_MAX_PROP_CHARS,
        }
    }
}

/// A limit setting's value: its text parsed as an integer, when that integer is positive.
pub open spec fn positive_limit(s: Seq<char>) -> Option<i64> {
    match parse_i64_spec(s) {
        Some(v) => if v > 0 {
            Some(v)
        } else {
            None
        },
        None => None,
    }
}

/// A limit setting parsed: `Some` exactly when the text is a positive integer.
fn parse_limit(text: &str) -> (r: Option<i64>)
    ensures
        r == positive_limit(text@),
{
    match parse_i64(text) {
        Some(v) => if v > 0 {
            Some(v)
        } else {
            None
        },
        None => None,
    }
}

/// Which limit setting of a [`FetchOptions`] was not a positive integer, and the text it held.
pub enum FetchSettingError {
    MaxNodes(String),
    MaxRels(String),
    MaxPropChars(String),
}

impl FetchOptions {
    /// Build the options from their textual settings: the list settings are comma-separated,
    /// the limits are positive integers. The first limit that is not one is reported.
    pub fn from_settings(
        wrapper_labels: &str,
        skip_props: &str,
        name_keys: &str,
        node_labels: &str,
        rel_types: &str,
        max_nodes: &str,
        max_rels: &str,
        max_prop_chars: &str,
    ) -> (r: Result<FetchOptions, FetchSettingError>)
        ensures
            match r {
                Ok(o) => {
                    &&& strings_view(o.wrapper_labels@) == csv_items(wrapper_labels@)
                    &&& strings_view(o.skip_props@) == csv_items(skip_props@)
                    &&& strings_view(o.name_keys@) == csv_items(name_keys@)
                    &&& strings_view(o.node_labels@) == csv_items(node_labels@)
                    &&& strings_view(o.rel_types@) == csv_items(rel_types@)
                    &&& positive_limit(max_nodes@) == Some(o.max_nodes)
                    &&& positive_limit(max_rels@) == Some(o.max_rels)
                    &&& positive_limit(max_prop_chars@) matches Some(v) && o.max_prop_chars == v
                        as usize
                },
                Err(FetchSettingError::MaxNodes(raw)) => raw@ == max_nodes@ && positive_limit(
                    max_nodes@,
                ) is None,
                Err(FetchSettingError::MaxRels(raw)) => raw@ == max_rels@ && positive_limit(
                    max_nodes@,
                ) is Some && positive_limit(max_rels@) is None,
                Err(FetchSettingError::MaxPropChars(raw)) => raw@ == max_prop_chars@
                    && positive_limit(max_nodes@) is Some && positive_limit(max_rels@) is Some
                    && positive_limit(max_prop_chars@) is None,
            },
    {
        let max_nodes_v = match parse_limit(max_nodes) {
            Some(v) => v,
            None => {
                return Err(FetchSettingError::MaxNodes(max_nodes.to_owned()));
            },
        };
        let max_rels_v = match parse_limit(max_rels) {
            Some(v) => v,
            None => {
                return Err(FetchSettingError::MaxRels(max_rels.to_owned()));
            },
        };
        let max_prop_chars_v = match parse_limit(max_prop_chars) {
            Some(v) => v,
            None => {
                return Err(FetchSettingError::MaxPropChars(max_prop_chars.to_owned()));
            },
        };
        Ok(
            FetchOptions {
                wrapper_labels: csv(wrapper_labels),
                skip_props: csv(skip_props),
                name_keys: csv(name_keys),
                node_labels: csv(node_labels),
                rel_types: csv(rel_types),
                max_nodes: max_nodes_v,
                max_rels: max_rels_v,
                max_prop_chars: max_prop_chars_v as usize,
            },
        )
    }
}

} // verus!
