//! Maps from sensor sources to what is known of them, in key order.

use vstd::prelude::*;
use vstd::std_specs::iter::IteratorSpec;

verus! {

/// The name of a sensor source. It is opaque: nothing but its order and its
/// equality is ever looked at.
pub type SourceKey = String;

/// The order of keys: that of their first differing characters, by code
/// point, with a proper prefix first.
pub open spec fn before(a: Seq<char>, b: Seq<char>) -> bool
    decreases a.len(),
{
    if b.len() == 0 {
        false
    } else if a.len() == 0 {
        true
    } else if a[0] == b[0] {
        before(a.drop_first(), b.drop_first())
    } else {
        (a[0] as int) < (b[0] as int)
    }
}

/// Whether key `a` comes before key `b`.
pub(crate) fn comes_before(a: &String, b: &String) -> (r: bool)
    ensures
        r == before(a@, b@),
{
    let mut left = a.as_str().chars();
    let mut right = b.as_str().chars();
    let n: usize = a.as_str().unicode_len();
    let mut i: usize = 0;
    loop
        invariant
            left.remaining().len() == n - i,
            i <= n,
            before(a@, b@) == before(left.remaining(), right.remaining()),
        decreases n - i,
    {
        match (left.next(), right.next()) {
            (_, None) => {
                return false;
            },
            (None, Some(_)) => {
                return true;
            },
            (Some(c), Some(d)) => {
                if c != d {
                    return c < d;
                }
            },
        }
        i = i + 1;
    }
}

/// No key comes before itself.
pub proof fn lemma_before_irreflexive(a: Seq<char>)
    ensures
        !before(a, a),
    decreases a.len(),
{
    if a.len() > 0 {
        lemma_before_irreflexive(a.drop_first());
    }
}

/// What comes before comes before all that follows.
pub proof fn lemma_before_transitive(a: Seq<char>, b: Seq<char>, c: Seq<char>)
    requires
        before(a, b),
        before(b, c),
    ensures
        before(a, c),
    decreases a.len(),
{
    if a.len() > 0 && a[0] == b[0] && b[0] == c[0] {
        lemma_before_transitive(a.drop_first(), b.drop_first(), c.drop_first());
    }
}

/// Of two keys one comes first.
pub proof fn lemma_before_total(a: Seq<char>, b: Seq<char>)
    ensures
        a == b || before(a, b) || before(b, a),
    decreases a.len(),
{
    if a.len() > 0 && b.len() > 0 && a[0] == b[0] {
        lemma_before_total(a.drop_first(), b.drop_first());
        if a.drop_first() == b.drop_first() {
            assert(a =~= seq![a[0]] + a.drop_first());
            assert(b =~= seq![b[0]] + b.drop_first());
        }
    } else if a.len() == 0 && b.len() == 0 {
        assert(a =~= b);
    }
}

/// The entries are in strictly increasing key order.
pub open spec fn sorted<V>(s: Seq<(Seq<char>, V)>) -> bool {
    forall|i: int, j: int| 0 <= i < j < s.len() ==> before(#[trigger] s[i].0, #[trigger] s[j].0)
}

/// Some entry has the key `k`.
pub open spec fn has_key<V>(s: Seq<(Seq<char>, V)>, k: Seq<char>) -> bool {
    exists|i: int| 0 <= i < s.len() && #[trigger] s[i].0 == k
}

/// The place of the entry with the key `k`.
pub open spec fn place<V>(s: Seq<(Seq<char>, V)>, k: Seq<char>) -> int {
    choose|i: int| 0 <= i < s.len() && #[trigger] s[i].0 == k
}

/// The value under the key `k`.
pub open spec fn lookup<V>(s: Seq<(Seq<char>, V)>, k: Seq<char>) -> Option<V> {
    if has_key(s, k) {
        Some(s[place(s, k)].1)
    } else {
        None
    }
}

/// Sorted entries have distinct keys, so a key's place is the only one.
pub proof fn lemma_place<V>(s: Seq<(Seq<char>, V)>, i: int)
    requires
        sorted(s),
        0 <= i < s.len(),
    ensures
        has_key(s, s[i].0),
        place(s, s[i].0) == i,
        lookup(s, s[i].0) == Some(s[i].1),
{
    let k = s[i].0;
    assert(s[i].0 == k);
    let j = place(s, k);
    lemma_before_irreflexive(k);
    if j < i {
        assert(before(s[j].0, s[i].0));
    } else if i < j {
        assert(before(s[i].0, s[j].0));
    }
}

/// What is looked up is the value of the entry with that key; nothing is found
/// where there is none.
pub proof fn law_lookup_finds_the_entry<V>(s: Seq<(Seq<char>, V)>, k: Seq<char>)
    requires
        sorted(s),
    ensures
        forall|i: int|
            0 <= i < s.len() && (#[trigger] s[i]).0 == k ==> lookup(s, k) == Some(s[i].1),
        (forall|i: int| 0 <= i < s.len() ==> (#[trigger] s[i]).0 != k) ==> lookup(s, k) is None,
{
    assert forall|i: int| 0 <= i < s.len() && (#[trigger] s[i]).0 == k implies lookup(s, k)
        == Some(s[i].1) by {
        lemma_place(s, i);
    }
    if has_key(s, k) {
        assert(s[place(s, k)].0 == k);
    }
}

/// Keys are ordered by the code points at which they first differ, and a key
/// stands before those that go on from it.
pub proof fn law_keys_are_ordered_by_code_point(a: Seq<char>, b: Seq<char>, n: int)
    requires
        0 <= n <= a.len(),
        n <= b.len(),
        forall|i: int| 0 <= i < n ==> #[trigger] a[i] == b[i],
        n < a.len() && n < b.len() ==> a[n] != b[n],
    ensures
        before(a, b) <==> n < b.len() && (n == a.len() || (a[n] as int) < (b[n] as int)),
    decreases n,
{
    if n > 0 {
        assert(a[0] == b[0]);
        let (c, d) = (a.drop_first(), b.drop_first());
        assert forall|i: int| 0 <= i < n - 1 implies #[trigger] c[i] == d[i] by {
            assert(a[i + 1] == b[i + 1]);
        }
        law_keys_are_ordered_by_code_point(c, d, n - 1);
    }
}

/// Two sorted sequences that give the same value for every key are the same.
pub proof fn lemma_sorted_determined<V>(a: Seq<(Seq<char>, V)>, b: Seq<(Seq<char>, V)>)
    requires
        sorted(a),
        sorted(b),
        forall|k: Seq<char>| #[trigger] lookup(a, k) == lookup(b, k),
    ensures
        a == b,
    decreases a.len(),
{
    if a.len() == 0 {
        if b.len() > 0 {
            lemma_place(b, 0);
            assert(lookup(a, b[0].0) == lookup(b, b[0].0));
        }
        assert(a =~= b);
    } else if b.len() == 0 {
        lemma_place(a, 0);
        assert(lookup(a, a[0].0) == lookup(b, a[0].0));
    } else {
        let (x, y) = (a.last(), b.last());
        lemma_place(a, a.len() - 1);
        lemma_place(b, b.len() - 1);
        assert(lookup(a, x.0) == lookup(b, x.0));
        assert(lookup(a, y.0) == lookup(b, y.0));
        assert(x.0 == y.0) by {
            let i = place(b, x.0);
            let j = place(a, y.0);
            assert(b[i].0 == x.0 && a[j].0 == y.0);
            lemma_before_irreflexive(x.0);
            if i < b.len() - 1 && j < a.len() - 1 {
                assert(before(b[i].0, b[b.len() - 1].0));
                assert(before(a[j].0, a[a.len() - 1].0));
                lemma_before_transitive(x.0, y.0, x.0);
            }
        }
        assert(x == y);
        assert forall|k: Seq<char>| #[trigger] lookup(a.drop_last(), k) == lookup(
            b.drop_last(),
            k,
        ) by {
            lemma_lookup_drop_last(a, k);
            lemma_lookup_drop_last(b, k);
            assert(lookup(a, k) == lookup(b, k));
        }
        lemma_sorted_determined(a.drop_last(), b.drop_last());
        assert(a =~= a.drop_last().push(x));
        assert(b =~= b.drop_last().push(y));
    }
}

/// Dropping the last entry forgets its key and no other.
proof fn lemma_lookup_drop_last<V>(s: Seq<(Seq<char>, V)>, k: Seq<char>)
    requires
        sorted(s),
        s.len() > 0,
    ensures
        sorted(s.drop_last()),
        lookup(s.drop_last(), k) == if k == s.last().0 {
            None
        } else {
            lookup(s, k)
        },
{
    let t = s.drop_last();
    assert forall|i: int, j: int| 0 <= i < j < t.len() implies before(
        #[trigger] t[i].0,
        #[trigger] t[j].0,
    ) by {
        assert(t[i] == s[i] && t[j] == s[j]);
    }
    if has_key(t, k) {
        let i = place(t, k);
        assert(t[i].0 == k);
        assert(s[i] == t[i]);
        lemma_place(s, i);
        lemma_place(s, s.len() - 1);
        lemma_place(t, i);
    } else if has_key(s, k) {
        let i = place(s, k);
        assert(s[i].0 == k);
        if i < s.len() - 1 {
            assert(t[i].0 == k);
        }
    }
}

/// The entries with the values replaced by what they stand for.
pub open spec fn viewed<V: View>(s: Seq<(Seq<char>, V)>) -> Seq<(Seq<char>, V::V)> {
    s.map_values(|e: (Seq<char>, V)| (e.0, e.1@))
}

/// Replacing the values moves no key.
pub proof fn lemma_viewed<V: View>(s: Seq<(Seq<char>, V)>)
    requires
        sorted(s),
    ensures
        sorted(viewed(s)),
        forall|k: Seq<char>| #[trigger] has_key(viewed(s), k) == has_key(s, k),
        forall|k: Seq<char>| #[trigger]
            lookup(viewed(s), k) == match lookup(s, k) {
                Some(st) => Some(st@),
                None => None,
            },
{
    let v = viewed(s);
    assert forall|i: int, j: int| 0 <= i < j < v.len() implies before(
        #[trigger] v[i].0,
        #[trigger] v[j].0,
    ) by {
        assert(v[i].0 == s[i].0 && v[j].0 == s[j].0);
    }
    assert forall|k: Seq<char>|
        (#[trigger] has_key(v, k) == has_key(s, k)) && lookup(v, k) == match lookup(s, k) {
            Some(st) => Some(st@),
            None => None,
        } by {
        if has_key(s, k) {
            let i = place(s, k);
            assert(s[i].0 == k);
            assert(v[i].0 == k);
            lemma_place(s, i);
            lemma_place(v, i);
        } else if has_key(v, k) {
            let i = place(v, k);
            assert(v[i].0 == k);
            assert(s[i].0 == k);
        }
    }
    assert forall|k: Seq<char>| #[trigger]
        lookup(v, k) == match lookup(s, k) {
            Some(st) => Some(st@),
            None => None,
        } by {
        assert(has_key(v, k) == has_key(s, k));
    }
}

/// Replacing the values leaves the order as it is.
pub proof fn lemma_viewed_sorted<V: View>(s: Seq<(Seq<char>, V)>)
    ensures
        sorted(viewed(s)) == sorted(s),
{
    let v = viewed(s);
    assert forall|i: int| 0 <= i < s.len() implies (#[trigger] v[i]).0 == s[i].0 by {}
    if sorted(v) {
        assert forall|i: int, j: int| 0 <= i < j < s.len() implies before(
            #[trigger] s[i].0,
            #[trigger] s[j].0,
        ) by {
            assert(before(v[i].0, v[j].0));
        }
    }
    if sorted(s) {
        lemma_viewed(s);
    }
}

/// A map from source keys to values, held in key order.
#[derive(Debug, Clone)]
pub struct SourceMap<V> {
    entries: Vec<(SourceKey, V)>,
}

impl<V> View for SourceMap<V> {
    type V = Seq<(Seq<char>, V)>;

    /// The entries in key order.
    closed spec fn view(&self) -> Seq<(Seq<char>, V)> {
        self.entries@.map_values(|e: (SourceKey, V)| (e.0@, e.1))
    }
}

impl<V> SourceMap<V> {
    /// The entries are in key order, each key once.
    pub open spec fn wf(&self) -> bool {
        sorted(self@)
    }

    /// A map without entries.
    pub fn new() -> (r: SourceMap<V>)
        ensures
            r@ == Seq::<(Seq<char>, V)>::empty(),
            r.wf(),
    {
        SourceMap { entries: Vec::new() }
    }

    /// The number of entries.
    pub fn len(&self) -> (r: usize)
        ensures
            r == self@.len(),
    {
        self.entries.len()
    }

    /// Whether there is no entry.
    pub fn is_empty(&self) -> (r: bool)
        ensures
            r == (self@.len() == 0),
    {
        self.entries.len() == 0
    }

    /// The key of the entry at `i`.
    pub fn key_at(&self, i: usize) -> (r: &SourceKey)
        requires
            i < self@.len(),
        ensures
            r@ == self@[i as int].0,
    {
        &self.entries[i].0
    }

    /// The value of the entry at `i`.
    pub fn value_at(&self, i: usize) -> (r: &V)
        requires
            i < self@.len(),
        ensures
            *r == self@[i as int].1,
    {
        &self.entries[i].1
    }

    /// Replaces the value of the entry at `i`.
    pub fn set_value_at(&mut self, i: usize, value: V)
        requires
            i < old(self)@.len(),
        ensures
            final(self)@ == old(self)@.update(i as int, (old(self)@[i as int].0, value)),
            old(self).wf() ==> final(self).wf(),
    {
        let key: SourceKey = self.entries[i].0.clone();
        self.entries.set(i, (key, value));
        proof {
            assert(self@ =~= old(self)@.update(i as int, (old(self)@[i as int].0, value)));
            if old(self).wf() {
                assert forall|a: int, b: int| 0 <= a < b < self@.len() implies before(
                    #[trigger] self@[a].0,
                    #[trigger] self@[b].0,
                ) by {
                    assert(self@[a].0 == old(self)@[a].0 && self@[b].0 == old(self)@[b].0);
                }
            }
        }
    }

    /// The place of a key, if it is there.
    pub fn find(&self, key: &SourceKey) -> (r: Option<usize>)
        ensures
            r is Some <==> has_key(self@, key@),
            r matches Some(i) ==> i < self@.len() && self@[i as int].0 == key@,
    {
        let mut i: usize = 0;
        while i < self.entries.len()
            invariant
                i <= self.entries@.len(),
                self@.len() == self.entries@.len(),
                forall|j: int| 0 <= j < i ==> #[trigger] self@[j].0 != key@,
            decreases self.entries@.len() - i,
        {
            assert(self@[i as int].0 == self.entries@[i as int].0@);
            if self.entries[i].0 == *key {
                return Some(i);
            }
            i = i + 1;
        }
        None
    }

    /// Whether the map has a value for the key.
    pub fn contains_key(&self, key: &SourceKey) -> (r: bool)
        ensures
            r == has_key(self@, key@),
    {
        self.find(key).is_some()
    }

    /// The value under a key.
    pub fn get(&self, key: &SourceKey) -> (r: Option<&V>)
        requires
            self.wf(),
        ensures
            r matches Some(v) ==> lookup(self@, key@) == Some(*v),
            r is None <==> lookup(self@, key@) is None,
    {
        match self.find(key) {
            Some(i) => {
                proof {
                    lemma_place(self@, i as int);
                }
                Some(&self.entries[i].1)
            },
            None => None,
        }
    }

    /// Puts a value under a key, in place of the one that was there.
    pub fn insert(&mut self, key: SourceKey, value: V)
        requires
            old(self).wf(),
        ensures
            final(self).wf(),
            forall|k: Seq<char>| #[trigger] lookup(final(self)@, k) == if k == key@ {
                Some(value)
            } else {
                lookup(old(self)@, k)
            },
            final(self)@.len() == old(self)@.len() + (if has_key(old(self)@, key@) {
                0int
            } else {
                1int
            }),
    {
        if let Some(i) = self.find(&key) {
            self.set_value_at(i, value);
            proof {
                lemma_lookup_update(old(self)@, i as int, value);
            }
            return ;
        }
        let mut i: usize = 0;
        while i < self.entries.len() && comes_before(&self.entries[i].0, &key)
            invariant
                i <= self.entries@.len(),
                self@.len() == self.entries@.len(),
                forall|j: int| 0 <= j < i ==> before(#[trigger] self@[j].0, key@),
            decreases self.entries@.len() - i,
        {
            i = i + 1;
        }
        let ghost k = key@;
        proof {
            assert forall|j: int| i <= j < self@.len() implies before(k, #[trigger] self@[j].0) by {
                assert(self@[i as int].0 == self.entries@[i as int].0@);
                assert(!has_key(self@, k));
                lemma_before_total(self@[i as int].0, k);
                if i < j {
                    lemma_before_transitive(k, self@[i as int].0, self@[j].0);
                }
            }
        }
        self.entries.insert(i, (key, value));
        proof {
            assert(self@ =~= old(self)@.insert(i as int, (k, value)));
            lemma_lookup_insert(old(self)@, i as int, k, value);
        }
    }

    /// Takes the entry with the key out.
    pub fn remove(&mut self, key: &SourceKey)
        requires
            old(self).wf(),
        ensures
            final(self).wf(),
            forall|k: Seq<char>| #[trigger] lookup(final(self)@, k) == if k == key@ {
                None
            } else {
                lookup(old(self)@, k)
            },
            final(self)@.len() == old(self)@.len() - (if has_key(old(self)@, key@) {
                1int
            } else {
                0int
            }),
    {
        if let Some(i) = self.find(key) {
            self.entries.remove(i);
            proof {
                assert(self@ =~= old(self)@.remove(i as int));
                lemma_lookup_remove(old(self)@, i as int);
            }
        }
    }
}

impl<V: Copy> SourceMap<V> {
    /// The same entries once more.
    pub(crate) fn copied(&self) -> (r: SourceMap<V>)
        ensures
            r@ == self@,
    {
        let mut entries: Vec<(SourceKey, V)> = Vec::new();
        let mut i: usize = 0;
        while i < self.entries.len()
            invariant
                i <= self.entries@.len(),
                entries@.len() == i,
                forall|j: int|
                    0 <= j < i ==> (#[trigger] entries@[j]).0@ == self.entries@[j].0@
                        && entries@[j].1 == self.entries@[j].1,
            decreases self.entries@.len() - i,
        {
            entries.push((self.entries[i].0.clone(), self.entries[i].1));
            i = i + 1;
        }
        let r = SourceMap { entries };
        assert(r@ =~= self@);
        r
    }
}

impl<V> Default for SourceMap<V> {
    fn default() -> (r: SourceMap<V>)
        ensures
            r@ == Seq::<(Seq<char>, V)>::empty(),
            r.wf(),
    {
        SourceMap::new()
    }
}

/// Replacing a value changes what its key gives, and nothing else.
proof fn lemma_lookup_update<V>(s: Seq<(Seq<char>, V)>, i: int, value: V)
    requires
        sorted(s),
        0 <= i < s.len(),
    ensures
        forall|k: Seq<char>| #[trigger] lookup(s.update(i, (s[i].0, value)), k) == if k == s[i].0 {
            Some(value)
        } else {
            lookup(s, k)
        },
{
    let t = s.update(i, (s[i].0, value));
    assert forall|a: int, b: int| 0 <= a < b < t.len() implies before(
        #[trigger] t[a].0,
        #[trigger] t[b].0,
    ) by {
        assert(t[a].0 == s[a].0 && t[b].0 == s[b].0);
    }
    assert forall|k: Seq<char>| #[trigger] lookup(t, k) == if k == s[i].0 {
        Some(value)
    } else {
        lookup(s, k)
    } by {
        if has_key(s, k) {
            let j = place(s, k);
            assert(s[j].0 == k);
            assert(t[j].0 == k);
            lemma_place(s, j);
            lemma_place(t, j);
            lemma_place(s, i);
        } else if has_key(t, k) {
            let j = place(t, k);
            assert(t[j].0 == k);
            assert(s[j].0 == k);
        }
        lemma_place(t, i);
    }
}

/// An entry put in its place adds its key, and changes nothing else.
proof fn lemma_lookup_insert<V>(s: Seq<(Seq<char>, V)>, i: int, key: Seq<char>, value: V)
    requires
        sorted(s),
        0 <= i <= s.len(),
        forall|j: int| 0 <= j < i ==> before(#[trigger] s[j].0, key),
        forall|j: int| i <= j < s.len() ==> before(key, #[trigger] s[j].0),
    ensures
        sorted(s.insert(i, (key, value))),
        forall|k: Seq<char>| #[trigger] lookup(s.insert(i, (key, value)), k) == if k == key {
            Some(value)
        } else {
            lookup(s, k)
        },
{
    let t = s.insert(i, (key, value));
    assert forall|a: int, b: int| 0 <= a < b < t.len() implies before(
        #[trigger] t[a].0,
        #[trigger] t[b].0,
    ) by {
        if a < i {
            assert(t[a] == s[a]);
        } else if a > i {
            assert(t[a] == s[a - 1]);
        }
        if b < i {
            assert(t[b] == s[b]);
        } else if b > i {
            assert(t[b] == s[b - 1]);
        }
    }
    assert(t[i] == (key, value));
    lemma_place(t, i);
    assert forall|k: Seq<char>| #[trigger] lookup(t, k) == if k == key {
        Some(value)
    } else {
        lookup(s, k)
    } by {
        if k != key {
            if has_key(s, k) {
                let j = place(s, k);
                assert(s[j].0 == k);
                let m = if j < i { j } else { j + 1 };
                assert(t[m] == s[j]);
                lemma_place(s, j);
                lemma_place(t, m);
            } else if has_key(t, k) {
                let j = place(t, k);
                assert(t[j].0 == k);
                let m = if j < i { j } else { j - 1 };
                assert(t[j] == s[m]);
                assert(s[m].0 == k);
            }
        }
    }
}

/// Taking an entry out forgets its key, and nothing else.
proof fn lemma_lookup_remove<V>(s: Seq<(Seq<char>, V)>, i: int)
    requires
        sorted(s),
        0 <= i < s.len(),
    ensures
        sorted(s.remove(i)),
        forall|k: Seq<char>| #[trigger] lookup(s.remove(i), k) == if k == s[i].0 {
            None
        } else {
            lookup(s, k)
        },
{
    let t = s.remove(i);
    assert forall|a: int, b: int| 0 <= a < b < t.len() implies before(
        #[trigger] t[a].0,
        #[trigger] t[b].0,
    ) by {
        assert(t[a] == if a < i { s[a] } else { s[a + 1] });
        assert(t[b] == if b < i { s[b] } else { s[b + 1] });
    }
    lemma_place(s, i);
    assert forall|k: Seq<char>| #[trigger] lookup(t, k) == if k == s[i].0 {
        None
    } else {
        lookup(s, k)
    } by {
        if has_key(t, k) {
            let j = place(t, k);
            assert(t[j].0 == k);
            let m = if j < i { j } else { j + 1 };
            assert(t[j] == s[m]);
            lemma_place(s, m);
            lemma_place(t, j);
        } else if has_key(s, k) {
            let j = place(s, k);
            assert(s[j].0 == k);
            if j != i {
                let m = if j < i { j } else { j - 1 };
                assert(t[m] == s[j]);
                assert(t[m].0 == k);
            }
        }
    }
}

} // verus!
