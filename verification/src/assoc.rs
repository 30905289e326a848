//! Association lists with a mathematical `Map` view. Later entries win, so
//! appending is insertion; the orchestrator's tables additionally keep their
//! keys unique.

use vstd::prelude::*;

verus! {

/// The map an association list denotes; a later entry shadows an earlier one.
pub open spec fn gmap<K, V>(s: Seq<(K, V)>) -> Map<K, V>
    decreases s.len(),
{
    if s.len() == 0 {
        Map::empty()
    } else {
        gmap(s.drop_last()).insert(s.last().0, s.last().1)
    }
}

pub open spec fn gkeys_unique<K, V>(s: Seq<(K, V)>) -> bool {
    forall|i: int, j: int|
        0 <= i < j < s.len() ==> (#[trigger] s[i]).0 != (#[trigger] s[j]).0
}

pub proof fn lemma_gmap_push<K, V>(s: Seq<(K, V)>, k: K, v: V)
    ensures
        gmap(s.push((k, v))) == gmap(s).insert(k, v),
{
    assert(s.push((k, v)).drop_last() == s);
}

/// The entry at `i` is the last one with its key, so the map holds its value.
pub proof fn lemma_gmap_get<K, V>(s: Seq<(K, V)>, i: int)
    requires
        0 <= i < s.len(),
        forall|j: int| i < j < s.len() ==> (#[trigger] s[j]).0 != s[i].0,
    ensures
        gmap(s).contains_key(s[i].0),
        gmap(s)[s[i].0] == s[i].1,
    decreases s.len(),
{
    if i == s.len() - 1 {
    } else {
        lemma_gmap_get(s.drop_last(), i);
    }
}

pub proof fn lemma_gmap_absent<K, V>(s: Seq<(K, V)>, k: K)
    requires
        forall|j: int| 0 <= j < s.len() ==> (#[trigger] s[j]).0 != k,
    ensures
        !gmap(s).contains_key(k),
    decreases s.len(),
{
    if s.len() > 0 {
        lemma_gmap_absent(s.drop_last(), k);
    }
}

/// An entry's key is in the map.
pub proof fn lemma_gmap_contains_of_index<K, V>(s: Seq<(K, V)>, i: int)
    requires
        0 <= i < s.len(),
    ensures
        gmap(s).contains_key(s[i].0),
    decreases s.len(),
{
    if i < s.len() - 1 && s.last().0 != s[i].0 {
        lemma_gmap_contains_of_index(s.drop_last(), i);
    }
}

/// Every key the map holds stands in the list.
pub proof fn lemma_gmap_key_has_index<K, V>(s: Seq<(K, V)>, k: K)
    requires
        gmap(s).contains_key(k),
    ensures
        exists|j: int| 0 <= j < s.len() && (#[trigger] s[j]).0 == k,
    decreases s.len(),
{
    if s.len() > 0 && s.last().0 != k {
        lemma_gmap_key_has_index(s.drop_last(), k);
        let j = choose|j: int| 0 <= j < s.drop_last().len() && (#[trigger] s.drop_last()[j]).0 == k;
        assert(s[j].0 == k);
    }
}

/// Removing the entry of a unique key removes exactly that key.
pub proof fn lemma_gmap_remove_at<K, V>(s: Seq<(K, V)>, i: int)
    requires
        gkeys_unique(s),
        0 <= i < s.len(),
    ensures
        gmap(s.remove(i)) == gmap(s).remove(s[i].0),
        gkeys_unique(s.remove(i)),
    decreases s.len(),
{
    if i == s.len() - 1 {
        assert(s.remove(i) == s.drop_last());
        lemma_gmap_no_key(s.drop_last(), s[i].0);
        assert(gmap(s.drop_last()) =~= gmap(s).remove(s[i].0));
    } else {
        lemma_gmap_remove_at(s.drop_last(), i);
        assert(s.remove(i).drop_last() == s.drop_last().remove(i));
        assert(s.remove(i).last() == s.last());
        assert(gmap(s.remove(i)) =~= gmap(s).remove(s[i].0));
    }
}

/// With unique keys, dropping the last entry forgets only its own key.
proof fn lemma_gmap_no_key<K, V>(s: Seq<(K, V)>, k: K)
    requires
        forall|j: int| 0 <= j < s.len() ==> (#[trigger] s[j]).0 != k,
    ensures
        !gmap(s).contains_key(k),
{
    lemma_gmap_absent(s, k);
}

/// Looks a key up in an integer-keyed association list.
pub fn alookup<'a, V>(s: &'a Vec<(usize, V)>, k: usize) -> (r: Option<&'a V>)
    ensures
        match r {
            Some(v) => gmap(s@).contains_key(k) && *v == gmap(s@)[k],
            None => !gmap(s@).contains_key(k),
        },
{
    let mut i: usize = s.len();
    while i > 0
        invariant
            i <= s@.len(),
            forall|j: int| i <= j < s@.len() ==> (#[trigger] s@[j]).0 != k,
        decreases i,
    {
        i = i - 1;
        let entry = &s[i];
        if entry.0 == k {
            proof {
                lemma_gmap_get(s@, i as int);
            }
            return Some(&entry.1);
        }
    }
    proof {
        lemma_gmap_absent(s@, k);
    }
    None
}

/// Looks a pair key up in an association list keyed by node pairs.
pub fn plookup<'a, V>(s: &'a Vec<((usize, usize), V)>, k0: usize, k1: usize) -> (r: Option<
    &'a V,
>)
    ensures
        match r {
            Some(v) => gmap(s@).contains_key((k0, k1)) && *v == gmap(s@)[(k0, k1)],
            None => !gmap(s@).contains_key((k0, k1)),
        },
{
    let mut i: usize = s.len();
    while i > 0
        invariant
            i <= s@.len(),
            forall|j: int| i <= j < s@.len() ==> (#[trigger] s@[j]).0 != (k0, k1),
        decreases i,
    {
        i = i - 1;
        let entry = &s[i];
        if entry.0.0 == k0 && entry.0.1 == k1 {
            proof {
                lemma_gmap_get(s@, i as int);
            }
            return Some(&entry.1);
        }
    }
    proof {
        lemma_gmap_absent(s@, (k0, k1));
    }
    None
}

/// Updating a key's last entry in place is insertion into the denoted map.
pub proof fn lemma_gmap_update_last<K, V>(s: Seq<(K, V)>, i: int, v: V)
    requires
        0 <= i < s.len(),
        forall|l: int| i < l < s.len() ==> (#[trigger] s[l]).0 != s[i].0,
    ensures
        gmap(s.update(i, (s[i].0, v))) == gmap(s).insert(s[i].0, v),
    decreases s.len(),
{
    let s2 = s.update(i, (s[i].0, v));
    if i == s.len() - 1 {
        assert(s2.drop_last() == s.drop_last());
        assert(gmap(s2) =~= gmap(s).insert(s[i].0, v));
    } else {
        lemma_gmap_update_last(s.drop_last(), i, v);
        assert(s2.drop_last() == s.drop_last().update(i, (s[i].0, v)));
        assert(s2.last() == s.last());
        assert(gmap(s2) =~= gmap(s).insert(s[i].0, v));
    }
}

/// Inserts: the last entry of the key is updated in place, or a fresh entry
/// is appended, so a key never accumulates duplicates.
pub fn aset<V>(s: &mut Vec<(usize, V)>, k: usize, v: V)
    ensures
        gmap(final(s)@) == gmap(old(s)@).insert(k, v),
        gmap(old(s)@).contains_key(k) ==> final(s)@.len() == old(s)@.len(),
        !gmap(old(s)@).contains_key(k) ==> final(s)@.len() == old(s)@.len() + 1,
{
    let mut i: usize = s.len();
    while i > 0
        invariant
            *s == *old(s),
            i <= s@.len(),
            forall|j: int| i <= j < s@.len() ==> (#[trigger] s@[j]).0 != k,
        decreases i,
    {
        i = i - 1;
        if s[i].0 == k {
            proof {
                lemma_gmap_contains_of_index(s@, i as int);
                lemma_gmap_update_last(s@, i as int, v);
            }
            let e = &mut s[i];
            e.1 = v;
            return ;
        }
    }
    proof {
        lemma_gmap_absent(s@, k);
        lemma_gmap_push(s@, k, v);
    }
    s.push((k, v));
}

/// Appends, which inserts into the denoted map.
pub fn apush<V>(s: &mut Vec<(usize, V)>, k: usize, v: V)
    ensures
        final(s)@ == old(s)@.push((k, v)),
        gmap(final(s)@) == gmap(old(s)@).insert(k, v),
{
    proof {
        lemma_gmap_push(s@, k, v);
    }
    s.push((k, v));
}

/// Removes a key's entry and hands its value out, keeping keys unique.
pub fn atake<V>(s: &mut Vec<(usize, V)>, k: usize) -> (r: Option<V>)
    requires
        gkeys_unique(old(s)@),
    ensures
        gkeys_unique(final(s)@),
        match r {
            Some(_) => gmap(old(s)@).contains_key(k),
            None => !gmap(old(s)@).contains_key(k) && *final(s) == *old(s),
        },
        r is Some ==> r == Some(gmap(old(s)@)[k]) && gmap(final(s)@) == gmap(old(s)@).remove(k)
            && final(s)@.len() + 1 == old(s)@.len(),
{
    let mut i: usize = 0;
    while i < s.len()
        invariant
            i <= s@.len(),
            forall|j: int| 0 <= j < i ==> (#[trigger] s@[j]).0 != k,
            gkeys_unique(s@),
            *s == *old(s),
        decreases s@.len() - i,
    {
        if s[i].0 == k {
            proof {
                lemma_gmap_get(s@, i as int);
                lemma_gmap_remove_at(s@, i as int);
            }
            let e = s.remove(i);
            return Some(e.1);
        }
        i = i + 1;
    }
    proof {
        lemma_gmap_absent(s@, k);
    }
    None
}

} // verus!
