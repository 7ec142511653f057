//! Turning raw rows into display values: which label to show, which property is the node's
//! name, and which properties to send at all. Pure functions over a row.

use vstd::prelude::*;

use crate::graph::options::FetchOptions;
use crate::sorted_map::{lex_less, SortedMap};
use crate::text::{is_blank_str, strings_view, text_equal, trim};

verus! {

/// One property value of a row, as the logic reads it.
pub enum PropValue {
    /// A text value.
    Text(String),
    /// An absent value.
    Null,
    /// Any other value (number, boolean, list, map), in its compact JSON rendering.
    Json(String),
}

/// The raw property bag of a row: `None` when the row's properties are not a map at all.
pub type RawProps = Option<SortedMap<PropValue>>;

/// The display text of a value before truncation.
pub open spec fn value_text(v: PropValue) -> Seq<char> {
    match v {
        PropValue::Text(s) => s@,
        PropValue::Null => Seq::empty(),
        PropValue::Json(s) => s@,
    }
}

/// The horizontal ellipsis that marks a truncated value.
pub open spec fn ellipsis() -> char {
    '\u{2026}'
}

/// `t` cut to its first `max` characters, with an ellipsis appended, when it is longer.
pub open spec fn truncated(t: Seq<char>, max: nat) -> Seq<char> {
    if t.len() > max {
        t.take(max as int).push(ellipsis())
    } else {
        t
    }
}

/// Stringify and truncate a property value for display. Truncation counts characters, never
/// bytes, so it cannot split a character.
pub fn stringify_value(val: &PropValue, max_chars: usize) -> (r: String)
    ensures
        r@ == truncated(value_text(*val), max_chars as nat),
{
    let text: &str = match val {
        PropValue::Text(s) => s.as_str(),
        PropValue::Null => "",
        PropValue::Json(s) => s.as_str(),
    };
    proof {
        reveal_strlit("");
    }
    let count = text.unicode_len();
    if count > max_chars {
        let mut out = text.substring_char(0, max_chars).to_owned();
        let mark = "\u{2026}";
        proof {
            reveal_strlit("\u{2026}");
        }
        out.append(mark);
        assert(out@ =~= text@.take(max_chars as int).push(ellipsis()));
        out
    } else {
        text.to_owned()
    }
}

/// The entries of a property bag that survive the skip list, each value stringified.
pub open spec fn cleaned(
    entries: Seq<(Seq<char>, PropValue)>,
    skip: Seq<Seq<char>>,
    max: nat,
) -> Seq<(Seq<char>, Seq<char>)>
    decreases entries.len(),
{
    if entries.len() == 0 {
        Seq::empty()
    } else {
        let rest = cleaned(entries.drop_last(), skip, max);
        let last = entries.last();
        if skip.contains(last.0) {
            rest
        } else {
            rest.push((last.0, truncated(value_text(last.1), max)))
        }
    }
}

/// The cleaned bag of a row, given its raw properties.
pub open spec fn cleaned_props(props: RawProps, skip: Seq<Seq<char>>, max: nat) -> Seq<
    (Seq<char>, Seq<char>),
> {
    match props {
        Some(m) => cleaned(m.entries_view(), skip, max),
        None => Seq::empty(),
    }
}

/// The text form of a bag's entries.
pub open spec fn text_entries(m: SortedMap<String>) -> Seq<(Seq<char>, Seq<char>)> {
    m.entries_view().map_values(|e: (Seq<char>, String)| (e.0, e.1@))
}

/// Whether `key` is one of `list`.
pub fn contains_text(list: &[String], key: &str) -> (r: bool)
    ensures
        r == strings_view(list@).contains(key@),
{
    let mut i: usize = 0;
    while i < list.len()
        invariant
            i <= list.len(),
            forall|j: int| 0 <= j < i ==> list@[j]@ != key@,
        decreases list.len() - i,
    {
        if text_equal(list[i].as_str(), key) {
            assert(strings_view(list@)[i as int] == key@);
            return true;
        }
        i = i + 1;
    }
    proof {
        if strings_view(list@).contains(key@) {
            let j = choose|j: int| 0 <= j < list@.len() && strings_view(list@)[j] == key@;
            assert(list@[j]@ == key@);
        }
    }
    false
}

proof fn lemma_cleaned_keys(entries: Seq<(Seq<char>, PropValue)>, skip: Seq<Seq<char>>, max: nat)
    ensures
        forall|j: int|
            0 <= j < cleaned(entries, skip, max).len() ==> exists|k: int|
                0 <= k < entries.len() && entries[k].0 == #[trigger] cleaned(
                    entries,
                    skip,
                    max,
                )[j].0,
    decreases entries.len(),
{
    if entries.len() > 0 {
        let init = entries.drop_last();
        lemma_cleaned_keys(init, skip, max);
        let c = cleaned(entries, skip, max);
        assert forall|j: int| 0 <= j < c.len() implies exists|k: int|
            0 <= k < entries.len() && entries[k].0 == #[trigger] c[j].0 by {
            if j < cleaned(init, skip, max).len() {
                let k = choose|k: int|
                    0 <= k < init.len() && init[k].0 == #[trigger] cleaned(init, skip, max)[j].0;
                assert(entries[k].0 == c[j].0);
            } else {
                assert(entries[entries.len() - 1].0 == c[j].0);
            }
        }
    }
}

/// Keep the properties that are not on the skip list, stringified and truncated for display.
/// The result keeps the bag's ascending key order.
pub fn clean_props(props: &RawProps, opts: &FetchOptions) -> (out: SortedMap<String>)
    ensures
        text_entries(out) == cleaned_props(
            *props,
            strings_view(opts.skip_props@),
            opts.max_prop_chars as nat,
        ),
{
    let mut out: SortedMap<String> = SortedMap::new();
    let ghost skip = strings_view(opts.skip_props@);
    let ghost max = opts.max_prop_chars as nat;
    match props {
        None => {
            assert(text_entries(out) =~= Seq::<(Seq<char>, Seq<char>)>::empty());
        },
        Some(m) => {
            let entries = m.as_slice();
            let ghost ev = m.entries_view();
            let mut i: usize = 0;
            assert(ev.take(0) =~= Seq::<(Seq<char>, PropValue)>::empty());
            assert(text_entries(out) =~= Seq::<(Seq<char>, Seq<char>)>::empty());
            while i < entries.len()
                invariant
                    i <= entries@.len() == ev.len(),
                    ev == m.entries_view(),
                    skip == strings_view(opts.skip_props@),
                    max == opts.max_prop_chars as nat,
                    crate::sorted_map::keys_ascending(ev),
                    forall|k: int|
                        0 <= k < entries@.len() ==> (#[trigger] entries@[k]).0@ == ev[k].0
                            && entries@[k].1 == ev[k].1,
                    text_entries(out) == cleaned(ev.take(i as int), skip, max),
                decreases entries@.len() - i,
            {
                let entry = &entries[i];
                let ghost before = out.entries_view();
                assert(ev.take(i + 1).drop_last() =~= ev.take(i as int));
                assert(ev.take(i + 1).last() == ev[i as int]);
                if !contains_text(opts.skip_props.as_slice(), entry.0.as_str()) {
                    let text = stringify_value(&entry.1, opts.max_prop_chars);
                    proof {
                        lemma_cleaned_keys(ev.take(i as int), skip, max);
                        if before.len() > 0 {
                            let c = cleaned(ev.take(i as int), skip, max);
                            assert(text_entries(out)[before.len() - 1].0 == before.last().0);
                            assert(c[c.len() - 1].0 == before.last().0);
                            let k = choose|k: int|
                                0 <= k < ev.take(i as int).len() && ev.take(i as int)[k].0
                                    == #[trigger] c[c.len() - 1].0;
                            assert(ev[k].0 == before.last().0);
                            assert(lex_less(ev[k].0, ev[i as int].0));
                        }
                    }
                    out.push_last(entry.0.clone(), text);
                    assert(text_entries(out) =~= cleaned(ev.take(i + 1), skip, max));
                }
                i = i + 1;
            }
            assert(ev.take(i as int) =~= ev);
        },
    }
    out
}

/// The first of `labels` whose membership in `wrappers` is `want`, if any.
pub open spec fn first_where(labels: Seq<Seq<char>>, wrappers: Seq<Seq<char>>, want: bool) -> Option<
    Seq<char>,
>
    decreases labels.len(),
{
    if labels.len() == 0 {
        None
    } else if wrappers.contains(labels[0]) == want {
        Some(labels[0])
    } else {
        first_where(labels.drop_first(), wrappers, want)
    }
}

/// The display label: the first label that is not a wrapper; failing that the first label;
/// failing that `Node`.
pub open spec fn display_label(labels: Seq<Seq<char>>, wrappers: Seq<Seq<char>>) -> Seq<char> {
    match first_where(labels, wrappers, false) {
        Some(l) => l,
        None => if labels.len() > 0 {
            labels[0]
        } else {
            seq!['N', 'o', 'd', 'e']
        },
    }
}

/// The group: the first wrapper label the node carries, or empty.
pub open spec fn label_group(labels: Seq<Seq<char>>, wrappers: Seq<Seq<char>>) -> Seq<char> {
    match first_where(labels, wrappers, true) {
        Some(l) => l,
        None => Seq::empty(),
    }
}

fn find_label(labels: &[String], wrappers: &[String], want: bool) -> (r: Option<usize>)
    ensures
        match r {
            Some(i) => i < labels@.len() && first_where(
                strings_view(labels@),
                strings_view(wrappers@),
                want,
            ) == Some(labels@[i as int]@),
            None => first_where(strings_view(labels@), strings_view(wrappers@), want) is None,
        },
{
    let ghost ls = strings_view(labels@);
    let ghost ws = strings_view(wrappers@);
    let mut i: usize = 0;
    assert(ls.skip(0) =~= ls);
    while i < labels.len()
        invariant
            i <= labels@.len() == ls.len(),
            ls == strings_view(labels@),
            ws == strings_view(wrappers@),
            first_where(ls, ws, want) == first_where(ls.skip(i as int), ws, want),
        decreases labels@.len() - i,
    {
        assert(ls.skip(i as int)[0] == labels@[i as int]@);
        if contains_text(wrappers, labels[i].as_str()) == want {
            return Some(i);
        }
        assert(ls.skip(i as int).drop_first() =~= ls.skip(i + 1));
        i = i + 1;
    }
    None
}

/// Return `(display_label, group)`. The display label is the first label that is not a
/// configured wrapper; `group` is the first wrapper the node carries, or empty when none are
/// configured or matched.
pub fn pick_label(labels: &[String], wrappers: &[String]) -> (r: (String, String))
    ensures
        r.0@ == display_label(strings_view(labels@), strings_view(wrappers@)),
        r.1@ == label_group(strings_view(labels@), strings_view(wrappers@)),
{
    let specific = match find_label(labels, wrappers, false) {
        Some(i) => labels[i].clone(),
        None => if labels.len() > 0 {
            labels[0].clone()
        } else {
            let fallback = "Node";
            proof {
                reveal_strlit("Node");
            }
            fallback.to_owned()
        },
    };
    let group = match find_label(labels, wrappers, true) {
        Some(i) => labels[i].clone(),
        None => String::new(),
    };
    (specific, group)
}

/// The text of a value fit to be a display name: a text value that is not blank.
pub open spec fn usable_text(v: PropValue) -> Option<Seq<char>> {
    match v {
        PropValue::Text(s) => if trim(s@).len() > 0 {
            Some(s@)
        } else {
            None
        },
        _ => None,
    }
}

/// The first of `keys` that `m` maps to a usable text, and that text.
pub open spec fn first_named(m: Map<Seq<char>, PropValue>, keys: Seq<Seq<char>>) -> Option<
    Seq<char>,
>
    decreases keys.len(),
{
    if keys.len() == 0 {
        None
    } else if m.contains_key(keys[0]) && usable_text(m[keys[0]]) is Some {
        usable_text(m[keys[0]])
    } else {
        first_named(m, keys.drop_first())
    }
}

/// The first usable text among the entries, in their order.
pub open spec fn first_usable(entries: Seq<(Seq<char>, PropValue)>) -> Option<Seq<char>>
    decreases entries.len(),
{
    if entries.len() == 0 {
        None
    } else if usable_text(entries[0].1) is Some {
        usable_text(entries[0].1)
    } else {
        first_usable(entries.drop_first())
    }
}

/// The display name of a row: the first usable text under a key of `keys`, in the order of
/// `keys`; else the first usable text in ascending key order; else `?`.
pub open spec fn display_name(props: RawProps, keys: Seq<Seq<char>>) -> Seq<char> {
    match props {
        None => seq!['?'],
        Some(m) => match first_named(m@, keys) {
            Some(s) => s,
            None => match first_usable(m.entries_view()) {
                Some(s) => s,
                None => seq!['?'],
            },
        },
    }
}

fn usable(v: &PropValue) -> (r: Option<&String>)
    ensures
        match r {
            Some(s) => usable_text(*v) == Some(s@),
            None => usable_text(*v) is None,
        },
{
    match v {
        PropValue::Text(s) => if is_blank_str(s.as_str()) {
            None
        } else {
            Some(s)
        },
        _ => None,
    }
}

/// Pick a display name: the first non-blank text under one of `name_keys`, else the first
/// non-blank text property in ascending key order (deterministic, not driver order), else `?`.
pub fn pick_name(props: &RawProps, name_keys: &[String]) -> (r: String)
    ensures
        r@ == display_name(*props, strings_view(name_keys@)),
{
    let unknown = "?";
    proof {
        reveal_strlit("?");
    }
    match props {
        None => unknown.to_owned(),
        Some(m) => {
            let ghost ks = strings_view(name_keys@);
            let mut i: usize = 0;
            assert(ks.skip(0) =~= ks);
            while i < name_keys.len()
                invariant
                    i <= name_keys@.len() == ks.len(),
                    ks == strings_view(name_keys@),
                    *props == Some(*m),
                    first_named(m@, ks) == first_named(m@, ks.skip(i as int)),
                decreases name_keys@.len() - i,
            {
                assert(ks.skip(i as int)[0] == name_keys@[i as int]@);
                match m.get(name_keys[i].as_str()) {
                    Some(v) => match usable(v) {
                        Some(s) => {
                            assert(m@.contains_key(ks.skip(i as int)[0]));
                            assert(m@[ks.skip(i as int)[0]] == *v);
                            assert(first_named(m@, ks.skip(i as int)) == usable_text(*v));
                            return s.clone();
                        },
                        None => {},
                    },
                    None => {},
                }
                assert(ks.skip(i as int).drop_first() =~= ks.skip(i + 1));
                i = i + 1;
            }
            assert(ks.skip(i as int) =~= Seq::<Seq<char>>::empty());
            let entries = m.as_slice();
            let ghost ev = m.entries_view();
            let mut j: usize = 0;
            assert(ev.skip(0) =~= ev);
            while j < entries.len()
                invariant
                    j <= entries@.len() == ev.len(),
                    ev == m.entries_view(),
                    *props == Some(*m),
                    first_named(m@, strings_view(name_keys@)) is None,
                    forall|k: int|
                        0 <= k < entries@.len() ==> (#[trigger] entries@[k]).0@ == ev[k].0
                            && entries@[k].1 == ev[k].1,
                    first_usable(ev) == first_usable(ev.skip(j as int)),
                decreases entries@.len() - j,
            {
                assert(ev.skip(j as int)[0] == ev[j as int]);
                match usable(&entries[j].1) {
                    Some(s) => {
                        assert(ev.skip(j as int)[0].1 == entries@[j as int].1);
                        assert(first_usable(ev.skip(j as int)) == usable_text(entries@[j as int].1));
                        return s.clone();
                    },
                    None => {},
                }
                assert(ev.skip(j as int).drop_first() =~= ev.skip(j + 1));
                j = j + 1;
            }
            unknown.to_owned()
        },
    }
}

/// A property named on the skip list never reaches the cleaned bag, whatever else the bag
/// holds.
pub proof fn skipped_keys_never_appear(props: RawProps, skip: Seq<Seq<char>>, max: nat, key: Seq<char>)
    requires
        skip.contains(key),
    ensures
        forall|j: int|
            0 <= j < cleaned_props(props, skip, max).len() ==> (#[trigger] cleaned_props(
                props,
                skip,
                max,
            )[j]).0 != key,
{
    match props {
        Some(m) => lemma_cleaned_skips(m.entries_view(), skip, max, key),
        None => {},
    }
}

proof fn lemma_cleaned_skips(
    entries: Seq<(Seq<char>, PropValue)>,
    skip: Seq<Seq<char>>,
    max: nat,
    key: Seq<char>,
)
    requires
        skip.contains(key),
    ensures
        forall|j: int|
            0 <= j < cleaned(entries, skip, max).len() ==> (#[trigger] cleaned(entries, skip, max)[j]).0
                != key,
    decreases entries.len(),
{
    if entries.len() > 0 {
        let init = entries.drop_last();
        lemma_cleaned_skips(init, skip, max, key);
        let rest = cleaned(init, skip, max);
        let c = cleaned(entries, skip, max);
        assert forall|j: int| 0 <= j < c.len() implies (#[trigger] c[j]).0 != key by {
            if j < rest.len() {
                assert(c[j] == rest[j]);
            } else {
                assert(c[j].0 == entries.last().0);
                assert(!skip.contains(entries.last().0));
            }
        }
    }
}

/// Where a wrapper label stands among a node's two labels does not matter: either way the
/// other label is displayed and the wrapper is the group.
pub proof fn wrapper_position_does_not_matter(
    wrapper: Seq<char>,
    label: Seq<char>,
    wrappers: Seq<Seq<char>>,
)
    requires
        wrappers.contains(wrapper),
        !wrappers.contains(label),
    ensures
        display_label(seq![wrapper, label], wrappers) == label,
        display_label(seq![label, wrapper], wrappers) == label,
        label_group(seq![wrapper, label], wrappers) == wrapper,
        label_group(seq![label, wrapper], wrappers) == wrapper,
{
    reveal_with_fuel(first_where, 3);
    assert(seq![wrapper, label].drop_first() =~= seq![label]);
    assert(seq![label, wrapper].drop_first() =~= seq![wrapper]);
    assert(seq![label].drop_first() =~= Seq::<Seq<char>>::empty());
    assert(seq![wrapper].drop_first() =~= Seq::<Seq<char>>::empty());
}

proof fn lemma_first_named_at(m: Map<Seq<char>, PropValue>, keys: Seq<Seq<char>>, j: int)
    requires
        0 <= j < keys.len(),
        m.contains_key(keys[j]),
        m[keys[j]] is Text,
        trim(m[keys[j]]->Text_0@).len() > 0,
        forall|i: int|
            0 <= i < j ==> !(m.contains_key(#[trigger] keys[i]) && m[keys[i]] is Text && trim(
                m[keys[i]]->Text_0@,
            ).len() > 0),
    ensures
        first_named(m, keys) == Some(m[keys[j]]->Text_0@),
    decreases j,
{
    if j > 0 {
        let rest = keys.drop_first();
        assert(!(m.contains_key(keys[0]) && m[keys[0]] is Text && trim(m[keys[0]]->Text_0@).len()
            > 0));
        assert forall|i: int| 0 <= i < j - 1 implies !(m.contains_key(#[trigger] rest[i])
            && m[rest[i]] is Text && trim(m[rest[i]]->Text_0@).len() > 0) by {
            assert(rest[i] == keys[i + 1]);
        }
        assert(rest[j - 1] == keys[j]);
        lemma_first_named_at(m, rest, j - 1);
    }
}

/// The name keys decide the display name in their order: when one of them holds a non-blank
/// text, the display name is the text under the first such key. Keys that are absent, blank,
/// or hold something other than text are passed over, never cutting the search short.
pub proof fn name_is_the_first_named_text(props: RawProps, keys: Seq<Seq<char>>, j: int)
    requires
        props is Some,
        0 <= j < keys.len(),
        props->Some_0@.contains_key(keys[j]),
        props->Some_0@[keys[j]] is Text,
        trim(props->Some_0@[keys[j]]->Text_0@).len() > 0,
        forall|i: int|
            0 <= i < j ==> !(props->Some_0@.contains_key(#[trigger] keys[i]) && props->Some_0@[keys[i]] is Text
                && trim(props->Some_0@[keys[i]]->Text_0@).len() > 0),
    ensures
        display_name(props, keys) == props->Some_0@[keys[j]]->Text_0@,
{
    lemma_first_named_at(props->Some_0@, keys, j);
}

proof fn lemma_first_where_at(labels: Seq<Seq<char>>, wrappers: Seq<Seq<char>>, want: bool, j: int)
    requires
        0 <= j <= labels.len(),
        j < labels.len() ==> wrappers.contains(labels[j]) == want,
        forall|i: int| 0 <= i < j ==> wrappers.contains(#[trigger] labels[i]) != want,
    ensures
        first_where(labels, wrappers, want) == if j < labels.len() {
            Some(labels[j])
        } else {
            None::<Seq<char>>
        },
    decreases j,
{
    if j > 0 {
        let rest = labels.drop_first();
        assert(wrappers.contains(labels[0]) != want);
        assert forall|i: int| 0 <= i < j - 1 implies wrappers.contains(#[trigger] rest[i]) != want by {
            assert(rest[i] == labels[i + 1]);
        }
        if j < labels.len() {
            assert(rest[j - 1] == labels[j]);
        }
        lemma_first_where_at(rest, wrappers, want, j - 1);
    }
}

/// The display label is the first label that is not a wrapper; when every label is a wrapper it
/// is the first label, and with no labels at all it is `Node`. The group is the first wrapper
/// label, and empty when the node carries none.
pub proof fn label_is_the_first_non_wrapper(labels: Seq<Seq<char>>, wrappers: Seq<Seq<char>>, j: int, w: int)
    requires
        0 <= j <= labels.len(),
        j < labels.len() ==> !wrappers.contains(labels[j]),
        forall|i: int| 0 <= i < j ==> wrappers.contains(#[trigger] labels[i]),
        0 <= w <= labels.len(),
        w < labels.len() ==> wrappers.contains(labels[w]),
        forall|i: int| 0 <= i < w ==> !wrappers.contains(#[trigger] labels[i]),
    ensures
        j < labels.len() ==> display_label(labels, wrappers) == labels[j],
        j == labels.len() && labels.len() > 0 ==> display_label(labels, wrappers) == labels[0],
        labels.len() == 0 ==> display_label(labels, wrappers) == seq!['N', 'o', 'd', 'e'],
        w < labels.len() ==> label_group(labels, wrappers) == labels[w],
        w == labels.len() ==> label_group(labels, wrappers) == Seq::<char>::empty(),
{
    lemma_first_where_at(labels, wrappers, false, j);
    lemma_first_where_at(labels, wrappers, true, w);
}

proof fn lemma_first_usable_at(entries: Seq<(Seq<char>, PropValue)>, p: int)
    requires
        0 <= p <= entries.len(),
        p < entries.len() ==> entries[p].1 is Text && trim(entries[p].1->Text_0@).len() > 0,
        forall|q: int|
            0 <= q < p ==> !((#[trigger] entries[q]).1 is Text && trim(entries[q].1->Text_0@).len()
                > 0),
    ensures
        first_usable(entries) == if p < entries.len() {
            Some(entries[p].1->Text_0@)
        } else {
            None::<Seq<char>>
        },
    decreases p,
{
    if p > 0 {
        let rest = entries.drop_first();
        assert(!(entries[0].1 is Text && trim(entries[0].1->Text_0@).len() > 0));
        assert forall|q: int| 0 <= q < p - 1 implies !((#[trigger] rest[q]).1 is Text && trim(
            rest[q].1->Text_0@,
        ).len() > 0) by {
            assert(rest[q] == entries[q + 1]);
        }
        if p < entries.len() {
            assert(rest[p - 1] == entries[p]);
        }
        lemma_first_usable_at(rest, p - 1);
    }
}

proof fn lemma_first_named_none(m: Map<Seq<char>, PropValue>, keys: Seq<Seq<char>>)
    requires
        forall|i: int|
            0 <= i < keys.len() ==> !(m.contains_key(#[trigger] keys[i]) && m[keys[i]] is Text && trim(
                m[keys[i]]->Text_0@,
            ).len() > 0),
    ensures
        first_named(m, keys) is None,
    decreases keys.len(),
{
    if keys.len() > 0 {
        let rest = keys.drop_first();
        assert(!(m.contains_key(keys[0]) && m[keys[0]] is Text && trim(m[keys[0]]->Text_0@).len()
            > 0));
        assert forall|i: int| 0 <= i < rest.len() implies !(m.contains_key(#[trigger] rest[i])
            && m[rest[i]] is Text && trim(m[rest[i]]->Text_0@).len() > 0) by {
            assert(rest[i] == keys[i + 1]);
        }
        lemma_first_named_none(m, rest);
    }
}

/// When no name key holds a non-blank text, the display name falls back to the first non-blank
/// text property in the bag's ascending key order (the smallest such key, whatever order the row
/// listed them in); with none at all it is `?`.
pub proof fn name_falls_back_to_the_smallest_key(props: RawProps, keys: Seq<Seq<char>>, p: int)
    requires
        props is Some,
        forall|i: int|
            0 <= i < keys.len() ==> !(props->Some_0@.contains_key(#[trigger] keys[i])
                && props->Some_0@[keys[i]] is Text && trim(props->Some_0@[keys[i]]->Text_0@).len() > 0),
        0 <= p <= props->Some_0.entries_view().len(),
        p < props->Some_0.entries_view().len() ==> props->Some_0.entries_view()[p].1 is Text && trim(
            props->Some_0.entries_view()[p].1->Text_0@,
        ).len() > 0,
        forall|q: int|
            0 <= q < p ==> !((#[trigger] props->Some_0.entries_view()[q]).1 is Text && trim(
                props->Some_0.entries_view()[q].1->Text_0@,
            ).len() > 0),
    ensures
        p < props->Some_0.entries_view().len() ==> display_name(props, keys)
            == props->Some_0.entries_view()[p].1->Text_0@,
        p == props->Some_0.entries_view().len() ==> display_name(props, keys) == seq!['?'],
{
    lemma_first_named_none(props->Some_0@, keys);
    lemma_first_usable_at(props->Some_0.entries_view(), p);
}

/// Truncation keeps the first `max` characters and marks the cut: a text of at most `max`
/// characters is unchanged, a longer one becomes its first `max` characters followed by the
/// ellipsis, so the result never exceeds `max + 1` characters.
pub proof fn truncation_keeps_a_prefix(t: Seq<char>, max: nat)
    ensures
        t.len() <= max ==> truncated(t, max) == t,
        t.len() > max ==> truncated(t, max).len() == max + 1 && truncated(t, max)[max as int]
            == '\u{2026}',
        forall|i: int| 0 <= i < t.len() && i < max ==> #[trigger] truncated(t, max)[i] == t[i],
        truncated(t, max).len() <= max + 1,
{
}

} // verus!
