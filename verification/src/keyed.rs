//! Lists of entries that are found by a key, one entry at most under each.
use vstd::prelude::*;

verus! {

/// A value that is told from others of its type by a key.
pub trait Keyed {
    type K;

    /// The key of the value.
    spec fn key_of(&self) -> Self::K;

    /// Whether the two values have the same key.
    fn same_key(&self, other: &Self) -> (same: bool)
        ensures
            same == (self.key_of() == other.key_of()),
    ;

    /// A copy of the value.
    fn duplicate(&self) -> (copy: Self) where Self: Sized
        ensures
            copy == *self,
    ;
}

/// No two entries of `s` stand under the same key.
pub open spec fn keys_distinct<C: Keyed, V>(s: Seq<(C, V)>) -> bool {
    forall|i: int, j: int|
        0 <= i < j < s.len() ==> (#[trigger] s[i]).0.key_of() != (#[trigger] s[j]).0.key_of()
}

/// Whether `s` has an entry under the key `key`.
pub open spec fn has_entry<C: Keyed, V>(s: Seq<(C, V)>, key: C::K) -> bool {
    exists|i: int| 0 <= i < s.len() && (#[trigger] s[i]).0.key_of() == key
}

/// The index of the entry of `s` under the key `key`.
pub open spec fn entry_index<C: Keyed, V>(s: Seq<(C, V)>, key: C::K) -> int {
    choose|i: int| 0 <= i < s.len() && (#[trigger] s[i]).0.key_of() == key
}

/// `s` with `value` under the key of `cursor`: in the place of the value
/// that was under it, or at the end.
pub open spec fn with_entry<C: Keyed, V>(s: Seq<(C, V)>, cursor: C, value: V) -> Seq<
    (C, V),
> {
    if has_entry(s, cursor.key_of()) {
        let i = entry_index(s, cursor.key_of());
        s.update(i, (s[i].0, value))
    } else {
        s.push((cursor, value))
    }
}

/// Putting a value under a key keeps the keys distinct, and changes
/// what is found under that key only.
pub proof fn lemma_with_entry<C: Keyed, V>(s: Seq<(C, V)>, cursor: C, value: V)
    requires
        keys_distinct(s),
    ensures
        keys_distinct(with_entry(s, cursor, value)),
        has_entry(with_entry(s, cursor, value), cursor.key_of()),
        with_entry(s, cursor, value)[entry_index(with_entry(s, cursor, value), cursor.key_of())].1
            == value,
        forall|k: C::K|
            k != cursor.key_of() ==> (has_entry(with_entry(s, cursor, value), k) <==> has_entry(s, k)),
        forall|k: C::K|
            k != cursor.key_of() && has_entry(s, k) ==> entry_index(with_entry(s, cursor, value), k)
                == entry_index(s, k) && with_entry(s, cursor, value)[entry_index(s, k)] == s[entry_index(
                s,
                k,
            )],
{
    let t = with_entry(s, cursor, value);
    if has_entry(s, cursor.key_of()) {
        let i = entry_index(s, cursor.key_of());
        assert(t[i].0.key_of() == cursor.key_of());
        assert forall|a: int, b: int| 0 <= a < b < t.len() implies (#[trigger] t[a]).0.key_of() != (
        #[trigger] t[b]).0.key_of() by {
            assert(s[a].0.key_of() != s[b].0.key_of());
        }
    } else {
        assert(t[s.len() as int].0.key_of() == cursor.key_of());
        assert forall|a: int, b: int| 0 <= a < b < t.len() implies (#[trigger] t[a]).0.key_of() != (
        #[trigger] t[b]).0.key_of() by {
            if b < s.len() {
                assert(s[a].0.key_of() != s[b].0.key_of());
            } else {
                assert(s[a].0.key_of() != cursor.key_of());
            }
        }
    }
    lemma_entry_unique(t, entry_index(t, cursor.key_of()), cursor.key_of());
    assert forall|k: C::K| k != cursor.key_of() implies (has_entry(t, k) <==> has_entry(s, k)) by {
        if has_entry(t, k) {
            let i = entry_index(t, k);
            assert(s[i].0.key_of() == k);
        }
        if has_entry(s, k) {
            let i = entry_index(s, k);
            assert(t[i].0.key_of() == k);
        }
    }
    assert forall|k: C::K| k != cursor.key_of() && has_entry(s, k) implies entry_index(t, k)
        == entry_index(s, k) && t[entry_index(s, k)] == s[entry_index(s, k)] by {
        let i = entry_index(s, k);
        assert(t[i].0.key_of() == k);
        lemma_entry_unique(t, i, k);
    }
}

/// Where keys are distinct, the entry under a key is the only one.
pub proof fn lemma_entry_unique<C: Keyed, V>(s: Seq<(C, V)>, i: int, key: C::K)
    requires
        keys_distinct(s),
        0 <= i < s.len(),
        s[i].0.key_of() == key,
    ensures
        has_entry(s, key),
        entry_index(s, key) == i,
{
    let j = entry_index(s, key);
    if j < i {
        assert(s[j].0.key_of() != s[i].0.key_of());
    }
    if i < j {
        assert(s[i].0.key_of() != s[j].0.key_of());
    }
}

/// The index of the entry of `v` under the key of `cursor`, if there is one.
pub fn find_entry<C: Keyed, V>(v: &Vec<(C, V)>, cursor: &C) -> (found: Option<usize>)
    ensures
        found is Some <==> has_entry(v@, cursor.key_of()),
        found is Some ==> found->0 < v@.len() && v@[found->0 as int].0.key_of() == cursor.key_of(),
        found is Some && keys_distinct(v@) ==> found->0 == entry_index(v@, cursor.key_of()),
{
    let mut i: usize = 0;
    while i < v.len()
        invariant
            i <= v.len(),
            forall|k: int| 0 <= k < i ==> (#[trigger] v@[k]).0.key_of() != cursor.key_of(),
        decreases v.len() - i,
    {
        if v[i].0.same_key(cursor) {
            proof {
                if keys_distinct(v@) {
                    lemma_entry_unique(v@, i as int, cursor.key_of());
                }
            }
            return Some(i);
        }
        i += 1;
    }
    None
}

/// Puts `value` under the key of `cursor` in `v`.
pub(crate) fn put_entry<C: Keyed, V>(v: &mut Vec<(C, V)>, cursor: C, value: V)
    requires
        keys_distinct(old(v)@),
    ensures
        final(v)@ == with_entry(old(v)@, cursor, value),
        keys_distinct(final(v)@),
{
    proof {
        lemma_with_entry(v@, cursor, value);
    }
    match find_entry(v, &cursor) {
        Some(i) => {
            let held = v[i].0.duplicate();
            v.set(i, (held, value));
        },
        None => {
            v.push((cursor, value));
        },
    }
}

/// The list `s` as a map from the keys to what the values hold.
pub open spec fn entry_map<C: Keyed, V: View>(s: Seq<(C, V)>) -> Map<C::K, V::V> {
    Map::new(|k: C::K| has_entry(s, k), |k: C::K| s[entry_index(s, k)].1@)
}

/// Putting a value under a key in the list puts it under that key in the
/// map.
pub proof fn lemma_entry_map_put<C: Keyed, V: View>(s: Seq<(C, V)>, cursor: C, value: V)
    requires
        keys_distinct(s),
    ensures
        entry_map(with_entry(s, cursor, value)) == entry_map(s).insert(cursor.key_of(), value@),
{
    lemma_with_entry(s, cursor, value);
    let t = with_entry(s, cursor, value);
    assert forall|k: C::K| #[trigger] entry_map(t).dom().contains(k) <==> entry_map(s).insert(
        cursor.key_of(),
        value@,
    ).dom().contains(k) by {}
    assert forall|k: C::K| #[trigger] entry_map(t).dom().contains(k) implies entry_map(t)[k]
        == entry_map(s).insert(cursor.key_of(), value@)[k] by {}
    assert(entry_map(t) =~= entry_map(s).insert(cursor.key_of(), value@));
}

/// The entry at an index of a list of distinct keys is what the map has
/// under its key.
pub proof fn lemma_entry_map_at<C: Keyed, V: View>(s: Seq<(C, V)>, i: int)
    requires
        keys_distinct(s),
        0 <= i < s.len(),
    ensures
        entry_map(s).dom().contains(s[i].0.key_of()),
        entry_map(s)[s[i].0.key_of()] == s[i].1@,
{
    lemma_entry_unique(s, i, s[i].0.key_of());
}

/// A list without entries is the empty map.
pub proof fn lemma_entry_map_empty<C: Keyed, V: View>(s: Seq<(C, V)>)
    requires
        s.len() == 0,
    ensures
        entry_map(s) == Map::<C::K, V::V>::empty(),
{
    assert(entry_map(s) =~= Map::<C::K, V::V>::empty());
}

/// The first entries of a list of distinct keys have distinct keys, and
/// one entry more puts its value under its key in the map.
pub proof fn lemma_entry_map_take<C: Keyed, V: View>(s: Seq<(C, V)>, i: int)
    requires
        keys_distinct(s),
        0 <= i < s.len(),
    ensures
        keys_distinct(s.take(i)),
        keys_distinct(s.take(i + 1)),
        !has_entry(s.take(i), s[i].0.key_of()),
        entry_map(s.take(i + 1)) == entry_map(s.take(i)).insert(s[i].0.key_of(), s[i].1@),
{
    let front = s.take(i);
    assert forall|a: int, b: int| 0 <= a < b < front.len() implies (#[trigger] front[a]).0.key_of()
        != (#[trigger] front[b]).0.key_of() by {
        assert(s[a].0.key_of() != s[b].0.key_of());
    }
    if has_entry(front, s[i].0.key_of()) {
        let j = entry_index(front, s[i].0.key_of());
        assert(s[j].0.key_of() != s[i].0.key_of());
    }
    assert(s.take(i + 1) =~= with_entry(front, s[i].0, s[i].1));
    lemma_entry_map_put(front, s[i].0, s[i].1);
}

/// Two lists with the same keys in the same places, all distinct, are the
/// same map if the values in each place hold the same.
pub proof fn lemma_entry_map_alike<C: Keyed, V: View>(a: Seq<(C, V)>, b: Seq<(C, V)>)
    requires
        keys_distinct(a),
        a.len() == b.len(),
        forall|i: int|
            0 <= i < a.len() ==> (#[trigger] a[i]).0.key_of() == b[i].0.key_of() && a[i].1@
                == b[i].1@,
    ensures
        keys_distinct(b),
        entry_map(a) == entry_map(b),
{
    assert forall|x: int, y: int| 0 <= x < y < b.len() implies (#[trigger] b[x]).0.key_of() != (
    #[trigger] b[y]).0.key_of() by {
        assert(a[x].0.key_of() != a[y].0.key_of());
    }
    assert forall|k: C::K| has_entry(a, k) <==> has_entry(b, k) by {
        if has_entry(a, k) {
            let i = entry_index(a, k);
            assert(b[i].0.key_of() == k);
        }
        if has_entry(b, k) {
            let i = entry_index(b, k);
            assert(a[i].0.key_of() == k);
        }
    }
    assert forall|k: C::K| has_entry(a, k) implies a[entry_index(a, k)].1@ == b[entry_index(b, k)].1@ by {
        let i = entry_index(a, k);
        assert(b[i].0.key_of() == k);
        lemma_entry_unique(b, i, k);
    }
    assert(entry_map(a) =~= entry_map(b));
}

} // verus!
