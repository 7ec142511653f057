//! A map from text keys to values that keeps its entries in ascending key order, as a
//! `BTreeMap<String, V>` does. Keys are ordered lexicographically by code point, which is the
//! order `str`'s `Ord` gives (byte order of UTF-8 is code-point order).

use vstd::prelude::*;

use crate::text::{chars_equal, chars_of};

verus! {

/// Lexicographic order on character sequences, by code point.
pub open spec fn lex_less(a: Seq<char>, b: Seq<char>) -> bool
    decreases a.len(),
{
    if b.len() == 0 {
        false
    } else if a.len() == 0 {
        true
    } else if a[0] != b[0] {
        a[0] < b[0]
    } else {
        lex_less(a.drop_first(), b.drop_first())
    }
}

pub proof fn lemma_lex_irreflexive(a: Seq<char>)
    ensures
        !lex_less(a, a),
    decreases a.len(),
{
    if a.len() > 0 {
        lemma_lex_irreflexive(a.drop_first());
    }
}

pub proof fn lemma_lex_transitive(a: Seq<char>, b: Seq<char>, c: Seq<char>)
    requires
        lex_less(a, b),
        lex_less(b, c),
    ensures
        lex_less(a, c),
    decreases a.len(),
{
    if a.len() > 0 && b.len() > 0 && c.len() > 0 && a[0] == b[0] && b[0] == c[0] {
        lemma_lex_transitive(a.drop_first(), b.drop_first(), c.drop_first());
    }
}

pub proof fn lemma_lex_total(a: Seq<char>, b: Seq<char>)
    ensures
        a != b ==> lex_less(a, b) || lex_less(b, a),
    decreases a.len(),
{
    if a.len() > 0 && b.len() > 0 {
        if a[0] == b[0] {
            lemma_lex_total(a.drop_first(), b.drop_first());
            if a.drop_first() == b.drop_first() {
                assert(a =~= seq![a[0]] + a.drop_first());
                assert(b =~= seq![b[0]] + b.drop_first());
            }
        }
    } else if a.len() == 0 && b.len() == 0 {
        assert(a =~= b);
    }
}

/// Whether `a` orders before `b`.
pub fn chars_less(a: &[char], b: &[char]) -> (r: bool)
    ensures
        r == lex_less(a@, b@),
{
    let mut i: usize = 0;
    assert(a@.skip(0) =~= a@);
    assert(b@.skip(0) =~= b@);
    while i < a.len() && i < b.len() && a[i] == b[i]
        invariant
            i <= a.len(),
            i <= b.len(),
            lex_less(a@, b@) == lex_less(a@.skip(i as int), b@.skip(i as int)),
        decreases a.len() - i,
    {
        assert(a@.skip(i as int).drop_first() =~= a@.skip(i + 1));
        assert(b@.skip(i as int).drop_first() =~= b@.skip(i + 1));
        i = i + 1;
    }
    if i == b.len() {
        false
    } else if i == a.len() {
        true
    } else {
        assert(a@.skip(i as int)[0] == a@[i as int]);
        assert(b@.skip(i as int)[0] == b@[i as int]);
        a[i] < b[i]
    }
}

/// Keys strictly ascending: sorted, and no key twice.
pub open spec fn keys_ascending<V>(s: Seq<(Seq<char>, V)>) -> bool {
    forall|i: int, j: int| 0 <= i < j < s.len() ==> lex_less(#[trigger] s[i].0, #[trigger] s[j].0)
}

/// Some position at which `k` stands as a key of `s`.
pub open spec fn key_position<V>(s: Seq<(Seq<char>, V)>, k: Seq<char>) -> int {
    choose|i: int| 0 <= i < s.len() && #[trigger] s[i].0 == k
}

/// The map a sequence of entries describes.
pub open spec fn entries_map<V>(s: Seq<(Seq<char>, V)>) -> Map<Seq<char>, V> {
    Map::new(
        |k: Seq<char>| exists|i: int| 0 <= i < s.len() && #[trigger] s[i].0 == k,
        |k: Seq<char>| s[key_position(s, k)].1,
    )
}

pub proof fn lemma_entries_map_at<V>(s: Seq<(Seq<char>, V)>, i: int)
    requires
        keys_ascending(s),
        0 <= i < s.len(),
    ensures
        entries_map(s).contains_key(s[i].0),
        entries_map(s)[s[i].0] == s[i].1,
{
    let k = s[i].0;
    assert(entries_map(s).contains_key(k));
    let j = key_position(s, k);
    if j != i {
        if j < i {
            assert(lex_less(s[j].0, s[i].0));
        } else {
            assert(lex_less(s[i].0, s[j].0));
        }
        lemma_lex_irreflexive(k);
    }
}

pub proof fn lemma_entries_map_absent<V>(s: Seq<(Seq<char>, V)>, k: Seq<char>)
    requires
        forall|i: int| 0 <= i < s.len() ==> s[i].0 != k,
    ensures
        !entries_map(s).contains_key(k),
{
}

proof fn lemma_insert_absent<V>(s: Seq<(Seq<char>, V)>, p: int, k: Seq<char>, v: V)
    requires
        keys_ascending(s),
        0 <= p <= s.len(),
        forall|i: int| 0 <= i < p ==> lex_less(#[trigger] s[i].0, k),
        forall|i: int| p <= i < s.len() ==> lex_less(k, #[trigger] s[i].0),
    ensures
        keys_ascending(s.insert(p, (k, v))),
        entries_map(s.insert(p, (k, v))) == entries_map(s).insert(k, v),
{
    let t = s.insert(p, (k, v));
    assert forall|i: int, j: int| 0 <= i < j < t.len() implies lex_less(
        #[trigger] t[i].0,
        #[trigger] t[j].0,
    ) by {
        if j < p {
        } else if j == p {
        } else if i < p {
            lemma_lex_transitive(s[i].0, k, s[j - 1].0);
        } else if i == p {
        } else {
            assert(lex_less(s[i - 1].0, s[j - 1].0));
        }
    }
    let a = entries_map(t);
    let b = entries_map(s).insert(k, v);
    assert forall|key: Seq<char>| #[trigger] a.contains_key(key) <==> b.contains_key(key) by {
        if a.contains_key(key) {
            let i = choose|i: int| 0 <= i < t.len() && #[trigger] t[i].0 == key;
            if i < p {
                assert(s[i].0 == key);
            } else if i > p {
                assert(s[i - 1].0 == key);
            }
        }
        if b.contains_key(key) && key != k {
            let i = choose|i: int| 0 <= i < s.len() && #[trigger] s[i].0 == key;
            if i < p {
                assert(t[i].0 == key);
            } else {
                assert(t[i + 1].0 == key);
            }
        }
        if key == k {
            assert(t[p].0 == key);
        }
    }
    assert forall|key: Seq<char>| #[trigger] a.contains_key(key) implies a[key] == b[key] by {
        let i = choose|i: int| 0 <= i < t.len() && #[trigger] t[i].0 == key;
        lemma_entries_map_at(t, i);
        if i < p {
            lemma_entries_map_at(s, i);
            assert(s[i].0 == key);
            lemma_lex_irreflexive(k);
        } else if i > p {
            lemma_entries_map_at(s, i - 1);
            assert(s[i - 1].0 == key);
            lemma_lex_irreflexive(k);
        }
    }
    assert(a =~= b);
}

proof fn lemma_update_present<V>(s: Seq<(Seq<char>, V)>, p: int, v: V)
    requires
        keys_ascending(s),
        0 <= p < s.len(),
    ensures
        keys_ascending(s.update(p, (s[p].0, v))),
        entries_map(s.update(p, (s[p].0, v))) == entries_map(s).insert(s[p].0, v),
{
    let k = s[p].0;
    let t = s.update(p, (k, v));
    assert forall|i: int, j: int| 0 <= i < j < t.len() implies lex_less(
        #[trigger] t[i].0,
        #[trigger] t[j].0,
    ) by {
        assert(t[i].0 == s[i].0 && t[j].0 == s[j].0);
    }
    let a = entries_map(t);
    let b = entries_map(s).insert(k, v);
    assert forall|key: Seq<char>| #[trigger] a.contains_key(key) <==> b.contains_key(key) by {
        if a.contains_key(key) {
            let i = choose|i: int| 0 <= i < t.len() && #[trigger] t[i].0 == key;
            assert(s[i].0 == key);
        }
        if b.contains_key(key) && key != k {
            let i = choose|i: int| 0 <= i < s.len() && #[trigger] s[i].0 == key;
            assert(t[i].0 == key);
        }
        if key == k {
            assert(t[p].0 == key);
        }
    }
    assert forall|key: Seq<char>| #[trigger] a.contains_key(key) implies a[key] == b[key] by {
        let i = choose|i: int| 0 <= i < t.len() && #[trigger] t[i].0 == key;
        lemma_entries_map_at(t, i);
        lemma_entries_map_at(s, i);
        if i != p {
            assert(s[i].0 == key);
            if i < p {
                assert(lex_less(s[i].0, s[p].0));
            } else {
                assert(lex_less(s[p].0, s[i].0));
            }
            lemma_lex_irreflexive(key);
        }
    }
    assert(a =~= b);
}

/// A text-keyed map held in ascending key order.
pub struct SortedMap<V> {
    entries: Vec<(String, V)>,
}

impl<V> SortedMap<V> {
    /// The entries, in ascending key order, each key taken by its characters.
    pub closed spec fn entries_view(&self) -> Seq<(Seq<char>, V)> {
        self.entries@.map_values(|e: (String, V)| (e.0@, e.1))
    }

    #[verifier::type_invariant]
    closed spec fn ascending(self) -> bool {
        keys_ascending(self.entries_view())
    }

    pub fn new() -> (m: Self)
        ensures
            m.entries_view() == Seq::<(Seq<char>, V)>::empty(),
    {
        let m = SortedMap { entries: Vec::new() };
        assert(m.entries_view() =~= Seq::<(Seq<char>, V)>::empty());
        m
    }

    pub fn len(&self) -> (n: usize)
        ensures
            n == self.entries_view().len(),
    {
        self.entries.len()
    }

    /// The entries in ascending key order.
    pub fn as_slice(&self) -> (r: &[(String, V)])
        ensures
            r@.len() == self.entries_view().len(),
            forall|i: int|
                0 <= i < r@.len() ==> (#[trigger] r@[i]).0@ == self.entries_view()[i].0 && r@[i].1
                    == self.entries_view()[i].1,
            keys_ascending(self.entries_view()),
    {
        proof {
            use_type_invariant(self);
        }
        self.entries.as_slice()
    }

    /// The position at which `key` stands or would stand: the number of keys before it.
    fn position(&self, key: &[char]) -> (p: usize)
        ensures
            p <= self.entries_view().len(),
            forall|i: int| 0 <= i < p ==> lex_less(#[trigger] self.entries_view()[i].0, key@),
            forall|i: int|
                p <= i < self.entries_view().len() ==> !lex_less(
                    #[trigger] self.entries_view()[i].0,
                    key@,
                ),
    {
        proof {
            use_type_invariant(self);
        }
        let mut lo: usize = 0;
        let mut hi: usize = self.entries.len();
        while lo < hi
            invariant
                lo <= hi <= self.entries_view().len() == self.entries@.len(),
                keys_ascending(self.entries_view()),
                forall|i: int| 0 <= i < lo ==> lex_less(#[trigger] self.entries_view()[i].0, key@),
                forall|i: int|
                    hi <= i < self.entries_view().len() ==> !lex_less(
                        #[trigger] self.entries_view()[i].0,
                        key@,
                    ),
            decreases hi - lo,
        {
            let mid = lo + (hi - lo) / 2;
            let k = chars_of(self.entries[mid].0.as_str());
            assert(self.entries_view()[mid as int].0 == self.entries@[mid as int].0@);
            if chars_less(k.as_slice(), key) {
                proof {
                    assert forall|i: int| 0 <= i <= mid implies lex_less(
                        #[trigger] self.entries_view()[i].0,
                        key@,
                    ) by {
                        if i < mid {
                            lemma_lex_transitive(
                                self.entries_view()[i].0,
                                self.entries_view()[mid as int].0,
                                key@,
                            );
                        }
                    }
                }
                lo = mid + 1;
            } else {
                proof {
                    assert forall|i: int|
                        mid <= i < self.entries_view().len() implies !lex_less(
                        #[trigger] self.entries_view()[i].0,
                        key@,
                    ) by {
                        if i > mid && lex_less(self.entries_view()[i].0, key@) {
                            lemma_lex_transitive(
                                self.entries_view()[mid as int].0,
                                self.entries_view()[i].0,
                                key@,
                            );
                        }
                    }
                }
                hi = mid;
            }
        }
        lo
    }
    /// The value stored under `key`, if any.
    pub fn get(&self, key: &str) -> (r: Option<&V>)
        ensures
            match r {
                Some(v) => self@.contains_key(key@) && *v == self@[key@],
                None => !self@.contains_key(key@),
            },
    {
        proof {
            use_type_invariant(self);
        }
        let kc = chars_of(key);
        let p = self.position(kc.as_slice());
        if p < self.entries.len() {
            let here = chars_of(self.entries[p].0.as_str());
            assert(self.entries_view()[p as int].0 == self.entries@[p as int].0@);
            if chars_equal(here.as_slice(), kc.as_slice()) {
                proof {
                    lemma_entries_map_at(self.entries_view(), p as int);
                }
                return Some(&self.entries[p].1);
            }
        }
        proof {
            let s = self.entries_view();
            assert forall|i: int| 0 <= i < s.len() implies s[i].0 != key@ by {
                if i < p {
                    lemma_lex_irreflexive(key@);
                } else if i > p {
                    if s[i].0 == key@ {
                        assert(lex_less(s[p as int].0, s[i].0));
                        lemma_lex_total(s[p as int].0, key@);
                    }
                }
            }
            lemma_entries_map_absent(s, key@);
        }
        None
    }

    /// Store `value` under `key`, replacing what was there.
    pub fn insert(&mut self, key: String, value: V)
        ensures
            final(self)@ == old(self)@.insert(key@, value),
    {
        proof {
            use_type_invariant(&*self);
        }
        let ghost s = self.entries_view();
        let kc = chars_of(key.as_str());
        let p = self.position(kc.as_slice());
        let mut entries: Vec<(String, V)> = Vec::new();
        std::mem::swap(&mut entries, &mut self.entries);
        assert(entries@.map_values(|e: (String, V)| (e.0@, e.1)) == s);
        let mut present = false;
        if p < entries.len() {
            let here = chars_of(entries[p].0.as_str());
            assert(s[p as int].0 == entries@[p as int].0@);
            present = chars_equal(here.as_slice(), kc.as_slice());
        }
        if present {
            entries[p] = (key, value);
            proof {
                lemma_update_present(s, p as int, value);
                assert(entries@.map_values(|e: (String, V)| (e.0@, e.1)) =~= s.update(
                    p as int,
                    (s[p as int].0, value),
                ));
            }
        } else {
            proof {
                assert forall|i: int| p <= i < s.len() implies lex_less(key@, #[trigger] s[i].0) by {
                    lemma_lex_total(s[i].0, key@);
                    if i > p && s[i].0 == key@ {
                        assert(lex_less(s[p as int].0, s[i].0));
                    }
                }
                lemma_insert_absent(s, p as int, key@, value);
            }
            entries.insert(p, (key, value));
            assert(entries@.map_values(|e: (String, V)| (e.0@, e.1)) =~= s.insert(
                p as int,
                (key@, value),
            ));
        }
        self.entries = entries;
    }

    /// Append an entry whose key orders after every key already held.
    pub fn push_last(&mut self, key: String, value: V)
        requires
            old(self).entries_view().len() == 0 || lex_less(
                old(self).entries_view().last().0,
                key@,
            ),
        ensures
            final(self).entries_view() == old(self).entries_view().push((key@, value)),
    {
        proof {
            use_type_invariant(&*self);
        }
        let ghost s = self.entries_view();
        let mut entries: Vec<(String, V)> = Vec::new();
        std::mem::swap(&mut entries, &mut self.entries);
        assert(entries@.map_values(|e: (String, V)| (e.0@, e.1)) == s);
        entries.push((key, value));
        proof {
            let t = s.push((key@, value));
            assert(entries@.map_values(|e: (String, V)| (e.0@, e.1)) =~= t);
            assert forall|i: int, j: int| 0 <= i < j < t.len() implies lex_less(
                #[trigger] t[i].0,
                #[trigger] t[j].0,
            ) by {
                if j == s.len() && i < s.len() - 1 {
                    lemma_lex_transitive(s[i].0, s.last().0, key@);
                }
            }
        }
        self.entries = entries;
    }
}

impl<V> View for SortedMap<V> {
    type V = Map<Seq<char>, V>;

    open spec fn view(&self) -> Map<Seq<char>, V> {
        entries_map(self.entries_view())
    }
}

/// Reading a key back after storing under it gives what was stored, and every other key reads
/// as before.
pub proof fn read_after_insert<V>(m: SortedMap<V>, key: Seq<char>, value: V, other: Seq<char>)
    ensures
        m@.insert(key, value).contains_key(key),
        m@.insert(key, value)[key] == value,
        other != key ==> m@.insert(key, value).contains_key(other) == m@.contains_key(other),
        other != key && m@.contains_key(other) ==> m@.insert(key, value)[other] == m@[other],
{
}

} // verus!
