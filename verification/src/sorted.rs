//! Association lists kept in the dictionary order of their keys.
//!
//! A list in this order is determined by the pairs it holds, so whatever is
//! computed from it does not depend on the order in which the pairs arrived.

use crate::text::{
    chars_of, compare_chars, lemma_text_lt_asymmetric, lemma_text_lt_irreflexive,
    lemma_text_lt_total, lemma_text_lt_transitive, text_lt, Relation,
};
use vstd::prelude::*;

verus! {

/// The keys of `s` grow strictly from front to back.
pub open spec fn sorted<T>(s: Seq<(Seq<char>, T)>) -> bool {
    forall|i: int, j: int| 0 <= i < j < s.len() ==> text_lt(#[trigger] s[i].0, #[trigger] s[j].0)
}

/// The number of leading pairs of `s` whose key comes before `key`.
pub open spec fn rank<T>(s: Seq<(Seq<char>, T)>, key: Seq<char>) -> int
    decreases s.len(),
{
    if s.len() == 0 || !text_lt(s[0].0, key) {
        0
    } else {
        1 + rank(s.drop_first(), key)
    }
}

/// Some pair of `s` has the key `key`.
pub open spec fn has_key<T>(s: Seq<(Seq<char>, T)>, key: Seq<char>) -> bool {
    exists|i: int| 0 <= i < s.len() && #[trigger] s[i].0 == key
}

/// The value that the sorted list `s` holds under `key`.
pub open spec fn lookup<T>(s: Seq<(Seq<char>, T)>, key: Seq<char>) -> Option<T> {
    let i = rank(s, key);
    if i < s.len() && s[i].0 == key {
        Some(s[i].1)
    } else {
        None
    }
}

/// The sorted list `s` with `value` under `key`, in place of what it held there.
pub open spec fn put<T>(s: Seq<(Seq<char>, T)>, key: Seq<char>, value: T) -> Seq<(Seq<char>, T)> {
    let i = rank(s, key);
    if i < s.len() && s[i].0 == key {
        s.update(i, (key, value))
    } else {
        s.insert(i, (key, value))
    }
}

/// `rank` stops at the first pair whose key does not come before `key`.
pub proof fn lemma_rank<T>(s: Seq<(Seq<char>, T)>, key: Seq<char>)
    ensures
        0 <= rank(s, key) <= s.len(),
        forall|j: int| 0 <= j < rank(s, key) ==> text_lt(#[trigger] s[j].0, key),
        rank(s, key) < s.len() ==> !text_lt(s[rank(s, key)].0, key),
    decreases s.len(),
{
    if s.len() > 0 && text_lt(s[0].0, key) {
        let t = s.drop_first();
        lemma_rank(t, key);
        assert forall|j: int| 0 <= j < rank(s, key) implies text_lt(#[trigger] s[j].0, key) by {
            if j > 0 {
                assert(s[j] == t[j - 1]);
            }
        }
        if rank(s, key) < s.len() {
            assert(s[rank(s, key)] == t[rank(t, key)]);
        }
    }
}

/// The first position whose key does not come before `key` is `rank`.
pub proof fn lemma_rank_at<T>(s: Seq<(Seq<char>, T)>, key: Seq<char>, i: int)
    requires
        0 <= i <= s.len(),
        forall|j: int| 0 <= j < i ==> text_lt(#[trigger] s[j].0, key),
        i < s.len() ==> !text_lt(s[i].0, key),
    ensures
        rank(s, key) == i,
    decreases s.len(),
{
    if i > 0 {
        let t = s.drop_first();
        assert(text_lt(s[0].0, key));
        assert forall|j: int| 0 <= j < i - 1 implies text_lt(#[trigger] t[j].0, key) by {
            assert(t[j] == s[j + 1]);
        }
        if i < s.len() {
            assert(t[i - 1] == s[i]);
        }
        lemma_rank_at(t, key, i - 1);
    }
}

/// In a sorted list, a key is found at its rank or nowhere.
pub proof fn lemma_lookup<T>(s: Seq<(Seq<char>, T)>, key: Seq<char>)
    requires
        sorted(s),
    ensures
        lookup(s, key) is Some <==> has_key(s, key),
        forall|i: int| 0 <= i < s.len() && #[trigger] s[i].0 == key ==> i == rank(s, key),
{
    lemma_rank(s, key);
    let r = rank(s, key);
    assert forall|i: int| 0 <= i < s.len() && #[trigger] s[i].0 == key implies i == r by {
        lemma_text_lt_irreflexive(key);
        if i < r {
            assert(text_lt(s[i].0, key));
        } else if i > r {
            assert(text_lt(s[r].0, s[i].0));
        }
    }
    if lookup(s, key) is Some {
        assert(s[r].0 == key);
    }
}

/// Putting a pair into a sorted list leaves it sorted.
pub proof fn lemma_put_sorted<T>(s: Seq<(Seq<char>, T)>, key: Seq<char>, value: T)
    requires
        sorted(s),
    ensures
        sorted(put(s, key, value)),
{
    lemma_rank(s, key);
    let r = rank(s, key);
    let p = put(s, key, value);
    if r < s.len() && s[r].0 == key {
        assert forall|i: int, j: int| 0 <= i < j < p.len() implies text_lt(
            #[trigger] p[i].0,
            #[trigger] p[j].0,
        ) by {
            assert(p[i].0 == s[i].0 && p[j].0 == s[j].0);
        }
    } else {
        if r < s.len() {
            lemma_text_lt_total(s[r].0, key);
        }
        assert forall|i: int, j: int| 0 <= i < j < p.len() implies text_lt(
            #[trigger] p[i].0,
            #[trigger] p[j].0,
        ) by {
            if j < r {
                assert(p[i] == s[i] && p[j] == s[j]);
            } else if j == r {
                assert(p[i] == s[i]);
            } else if i < r {
                assert(p[i] == s[i] && p[j] == s[j - 1]);
            } else if i == r {
                assert(p[j] == s[j - 1]);
                if j - 1 > r {
                    assert(text_lt(s[r].0, s[j - 1].0));
                    lemma_text_lt_transitive(key, s[r].0, s[j - 1].0);
                }
            } else {
                assert(p[i] == s[i - 1] && p[j] == s[j - 1]);
            }
        }
    }
}

/// What a sorted list holds after a pair was put into it.
pub proof fn lemma_put_lookup<T>(s: Seq<(Seq<char>, T)>, key: Seq<char>, value: T, other: Seq<char>)
    requires
        sorted(s),
    ensures
        lookup(put(s, key, value), other) == if other == key {
            Some(value)
        } else {
            lookup(s, other)
        },
{
    let p = put(s, key, value);
    let r = rank(s, key);
    lemma_put_sorted(s, key, value);
    lemma_rank(s, key);
    lemma_lookup(p, other);
    lemma_lookup(s, other);
    lemma_rank(p, other);
    lemma_rank(s, other);
    let found = r < s.len() && s[r].0 == key;
    assert(p[r] == (key, value));
    if other == key {
        assert(0 <= r < p.len() && p[r].0 == other);
        assert(has_key(p, other));
    } else if lookup(s, other) is Some {
        let i = rank(s, other);
        let k = if found || i < r {
            i
        } else {
            i + 1
        };
        assert(p[k] == s[i]);
        assert(0 <= k < p.len() && p[k].0 == other);
        assert(has_key(p, other));
    } else if lookup(p, other) is Some {
        let k = rank(p, other);
        let i = if found || k < r {
            k
        } else {
            k - 1
        };
        assert(p[k] == s[i]);
        assert(0 <= i < s.len() && s[i].0 == other);
        assert(has_key(s, other));
    }
}

/// Two sorted lists that hold the same pairs are the same list.
pub proof fn lemma_sorted_canonical<T>(a: Seq<(Seq<char>, T)>, b: Seq<(Seq<char>, T)>)
    requires
        sorted(a),
        sorted(b),
        forall|key: Seq<char>| lookup(a, key) == lookup(b, key),
    ensures
        a == b,
    decreases a.len(),
{
    if a.len() == 0 {
        if b.len() > 0 {
            lemma_lookup(b, b[0].0);
            lemma_lookup(a, b[0].0);
            assert(has_key(b, b[0].0));
        }
        assert(a =~= b);
    } else {
        let ka = a[0].0;
        lemma_lookup(a, ka);
        lemma_lookup(b, ka);
        assert(has_key(a, ka));
        assert(b.len() > 0);
        let kb = b[0].0;
        lemma_lookup(a, kb);
        lemma_lookup(b, kb);
        assert(has_key(b, kb));
        let i = rank(a, kb);
        let j = rank(b, ka);
        assert(a[i].0 == kb && b[j].0 == ka);
        if j > 0 {
            assert(text_lt(b[0].0, b[j].0));
            if i > 0 {
                assert(text_lt(a[0].0, a[i].0));
                lemma_text_lt_asymmetric(ka, kb);
            } else {
                lemma_text_lt_irreflexive(ka);
            }
        }
        assert(a[0] == b[0]);
        let ta = a.drop_first();
        let tb = b.drop_first();
        assert forall|key: Seq<char>| lookup(ta, key) == lookup(tb, key) by {
            lemma_tail_lookup(a, key);
            lemma_tail_lookup(b, key);
        }
        assert(sorted(ta)) by {
            assert forall|x: int, y: int| 0 <= x < y < ta.len() implies text_lt(
                #[trigger] ta[x].0,
                #[trigger] ta[y].0,
            ) by {
                assert(ta[x] == a[x + 1] && ta[y] == a[y + 1]);
            }
        }
        assert(sorted(tb)) by {
            assert forall|x: int, y: int| 0 <= x < y < tb.len() implies text_lt(
                #[trigger] tb[x].0,
                #[trigger] tb[y].0,
            ) by {
                assert(tb[x] == b[x + 1] && tb[y] == b[y + 1]);
            }
        }
        lemma_sorted_canonical(ta, tb);
        assert(a =~= seq![a[0]] + ta);
        assert(b =~= seq![b[0]] + tb);
    }
}

/// What the rest of a sorted list holds, once its first pair is set aside.
proof fn lemma_tail_lookup<T>(s: Seq<(Seq<char>, T)>, key: Seq<char>)
    requires
        sorted(s),
        s.len() > 0,
    ensures
        lookup(s.drop_first(), key) == if key == s[0].0 {
            None
        } else {
            lookup(s, key)
        },
{
    let t = s.drop_first();
    assert(sorted(t)) by {
        assert forall|x: int, y: int| 0 <= x < y < t.len() implies text_lt(
            #[trigger] t[x].0,
            #[trigger] t[y].0,
        ) by {
            assert(t[x] == s[x + 1] && t[y] == s[y + 1]);
        }
    }
    lemma_lookup(s, key);
    lemma_lookup(t, key);
    lemma_rank(s, key);
    lemma_rank(t, key);
    if lookup(t, key) is Some {
        let k = rank(t, key);
        assert(t[k] == s[k + 1]);
        assert(has_key(s, key));
        assert(text_lt(s[0].0, s[k + 1].0));
        lemma_text_lt_irreflexive(key);
    } else if key != s[0].0 && lookup(s, key) is Some {
        let i = rank(s, key);
        assert(t[i - 1] == s[i]);
        assert(has_key(t, key));
    }
}

/// Putting twice under one key leaves what was put last.
pub proof fn lemma_put_twice<T>(s: Seq<(Seq<char>, T)>, key: Seq<char>, first: T, last: T)
    requires
        sorted(s),
    ensures
        put(put(s, key, first), key, last) == put(s, key, last),
{
    lemma_put_sorted(s, key, first);
    lemma_put_sorted(put(s, key, first), key, last);
    lemma_put_sorted(s, key, last);
    assert forall|other: Seq<char>| lookup(put(put(s, key, first), key, last), other) == lookup(
        put(s, key, last),
        other,
    ) by {
        lemma_put_lookup(s, key, first, other);
        lemma_put_lookup(put(s, key, first), key, last, other);
        lemma_put_lookup(s, key, last, other);
    }
    lemma_sorted_canonical(put(put(s, key, first), key, last), put(s, key, last));
}

/// Putting under two different keys gives the same list in either order.
pub proof fn lemma_put_commutes<T>(
    s: Seq<(Seq<char>, T)>,
    key: Seq<char>,
    value: T,
    other_key: Seq<char>,
    other_value: T,
)
    requires
        sorted(s),
        key != other_key,
    ensures
        put(put(s, key, value), other_key, other_value) == put(
            put(s, other_key, other_value),
            key,
            value,
        ),
{
    let one = put(put(s, key, value), other_key, other_value);
    let other = put(put(s, other_key, other_value), key, value);
    lemma_put_sorted(s, key, value);
    lemma_put_sorted(put(s, key, value), other_key, other_value);
    lemma_put_sorted(s, other_key, other_value);
    lemma_put_sorted(put(s, other_key, other_value), key, value);
    assert forall|k: Seq<char>| lookup(one, k) == lookup(other, k) by {
        lemma_put_lookup(s, key, value, k);
        lemma_put_lookup(put(s, key, value), other_key, other_value, k);
        lemma_put_lookup(s, other_key, other_value, k);
        lemma_put_lookup(put(s, other_key, other_value), key, value, k);
    }
    lemma_sorted_canonical(one, other);
}

/// The pairs of `s` with `f` applied to each value.
pub open spec fn map_pairs<T, U>(s: Seq<(Seq<char>, T)>, f: spec_fn(T) -> U) -> Seq<(Seq<char>, U)> {
    Seq::new(s.len(), |i: int| (s[i].0, f(s[i].1)))
}

/// Changing the values of a list does not change where a key belongs in it.
pub proof fn lemma_map_pairs_rank<T, U>(s: Seq<(Seq<char>, T)>, f: spec_fn(T) -> U, key: Seq<char>)
    ensures
        rank(map_pairs(s, f), key) == rank(s, key),
    decreases s.len(),
{
    if s.len() > 0 && text_lt(s[0].0, key) {
        lemma_map_pairs_rank(s.drop_first(), f, key);
        assert(map_pairs(s, f).drop_first() =~= map_pairs(s.drop_first(), f));
    }
}

/// Changing the values of a list changes what is found under a key in the
/// same way.
pub proof fn lemma_map_pairs_lookup<T, U>(s: Seq<(Seq<char>, T)>, f: spec_fn(T) -> U, key: Seq<char>)
    ensures
        lookup(map_pairs(s, f), key) == match lookup(s, key) {
            Some(v) => Some(f(v)),
            None => None,
        },
{
    lemma_map_pairs_rank(s, f, key);
    lemma_rank(s, key);
}

/// Putting a pair and then changing the values is changing the values and
/// then putting the changed pair.
pub proof fn lemma_map_pairs_put<T, U>(
    s: Seq<(Seq<char>, T)>,
    f: spec_fn(T) -> U,
    key: Seq<char>,
    value: T,
)
    ensures
        map_pairs(put(s, key, value), f) == put(map_pairs(s, f), key, f(value)),
{
    lemma_map_pairs_rank(s, f, key);
    lemma_rank(s, key);
    assert(map_pairs(put(s, key, value), f) =~= put(map_pairs(s, f), key, f(value)));
}

/// A map from text keys to values, held as a list in the order of its keys.
#[derive(Debug, PartialEq, Eq)]
pub struct SortedMap<V> {
    pub entries: Vec<(String, V)>,
}

impl<V> SortedMap<V> {
    /// The pairs of the map, front to back, each key as its characters.
    pub open spec fn model(&self) -> Seq<(Seq<char>, V)> {
        Seq::new(self.entries@.len(), |i: int| (self.entries@[i].0@, self.entries@[i].1))
    }

    /// The keys grow strictly from front to back.
    pub open spec fn wf(&self) -> bool {
        sorted(self.model())
    }

    /// The empty map.
    pub fn new() -> (m: Self)
        ensures
            m.entries@.len() == 0,
            m.model() == Seq::<(Seq<char>, V)>::empty(),
            m.wf(),
    {
        let m = SortedMap { entries: Vec::new() };
        assert(m.model() =~= Seq::<(Seq<char>, V)>::empty());
        m
    }

    /// The number of pairs.
    pub fn len(&self) -> (n: usize)
        ensures
            n == self.model().len(),
    {
        self.entries.len()
    }

    /// The key of the pair at position `i`.
    pub fn key_at(&self, i: usize) -> (key: &String)
        requires
            i < self.model().len(),
        ensures
            key@ == self.model()[i as int].0,
    {
        &self.entries[i].0
    }

    /// The value of the pair at position `i`.
    pub fn value_at(&self, i: usize) -> (value: &V)
        requires
            i < self.model().len(),
        ensures
            *value == self.model()[i as int].1,
    {
        &self.entries[i].1
    }

    /// Where `key` belongs in the map, and whether the pair there has it.
    pub fn search(&self, key: &Vec<char>) -> (r: (usize, bool))
        ensures
            r.0 == rank(self.model(), key@),
            r.1 == (r.0 < self.model().len() && self.model()[r.0 as int].0 == key@),
    {
        let mut i: usize = 0;
        while i < self.entries.len()
            invariant
                i <= self.entries.len(),
                forall|j: int| 0 <= j < i ==> text_lt(#[trigger] self.model()[j].0, key@),
            decreases self.entries.len() - i,
        {
            let here = chars_of(self.entries[i].0.as_str());
            assert(here@ == self.model()[i as int].0);
            match compare_chars(&here, key) {
                Relation::Before => {
                    i += 1;
                },
                Relation::Same => {
                    proof {
                        lemma_text_lt_irreflexive(key@);
                        lemma_rank_at(self.model(), key@, i as int);
                    }
                    return (i, true);
                },
                Relation::After => {
                    proof {
                        lemma_text_lt_asymmetric(key@, here@);
                        lemma_rank_at(self.model(), key@, i as int);
                    }
                    return (i, false);
                },
            }
        }
        proof {
            lemma_rank_at(self.model(), key@, i as int);
        }
        (i, false)
    }

    /// The value under `key`, if the map holds one.
    pub fn get(&self, key: &str) -> (value: Option<&V>)
        ensures
            match value {
                Some(v) => lookup(self.model(), key@) == Some(*v),
                None => lookup(self.model(), key@) is None,
            },
    {
        let chars = chars_of(key);
        let (i, found) = self.search(&chars);
        if found {
            Some(&self.entries[i].1)
        } else {
            None
        }
    }

    /// Puts `value` under `key` and hands back what the map held there.
    pub fn insert(&mut self, key: String, value: V) -> (previous: Option<V>)
        ensures
            final(self).model() == put(old(self).model(), key@, value),
            previous == lookup(old(self).model(), key@),
            old(self).wf() ==> final(self).wf(),
    {
        let chars = chars_of(key.as_str());
        let (i, found) = self.search(&chars);
        proof {
            lemma_rank(self.model(), key@);
            if self.wf() {
                lemma_put_sorted(self.model(), key@, value);
            }
        }
        if found {
            let replaced = self.entries.remove(i);
            self.entries.insert(i, (key, value));
            assert(self.model() =~= put(old(self).model(), key@, value));
            Some(replaced.1)
        } else {
            self.entries.insert(i, (key, value));
            assert(self.model() =~= put(old(self).model(), key@, value));
            None
        }
    }

    /// Puts `value` in place of the value at position `i` and hands back the
    /// value that stood there. The key stays.
    pub fn replace_at(&mut self, i: usize, value: V) -> (previous: V)
        requires
            i < old(self).model().len(),
        ensures
            final(self).model() == old(self).model().update(
                i as int,
                (old(self).model()[i as int].0, value),
            ),
            previous == old(self).model()[i as int].1,
            old(self).wf() ==> final(self).wf(),
    {
        let replaced = self.entries.remove(i);
        self.entries.insert(i, (replaced.0, value));
        assert(self.model() =~= old(self).model().update(
            i as int,
            (old(self).model()[i as int].0, value),
        ));
        proof {
            if old(self).wf() {
                assert forall|x: int, y: int| 0 <= x < y < self.model().len() implies text_lt(
                    #[trigger] self.model()[x].0,
                    #[trigger] self.model()[y].0,
                ) by {
                    assert(self.model()[x].0 == old(self).model()[x].0);
                    assert(self.model()[y].0 == old(self).model()[y].0);
                }
            }
        }
        replaced.1
    }
}

} // verus!
