//! Association lists: sequences of key/value pairs read as finite maps.
use vstd::prelude::*;

verus! {

/// No key occurs twice in the list.
pub open spec fn keys_distinct<K, V>(s: Seq<(K, V)>) -> bool {
    forall|i: int, j: int| 0 <= i < j < s.len() ==> s[i].0 != s[j].0
}

/// The map that the list stands for; a later pair wins over an earlier one.
pub open spec fn map_of<K, V>(s: Seq<(K, V)>) -> Map<K, V>
    decreases s.len(),
{
    if s.len() == 0 {
        Map::empty()
    } else {
        map_of(s.drop_last()).insert(s.last().0, s.last().1)
    }
}

/// The keys of the map are the keys of the list.
pub proof fn lemma_map_of_dom<K, V>(s: Seq<(K, V)>)
    ensures
        forall|k: K| #[trigger]
            map_of(s).dom().contains(k) <==> exists|i: int| 0 <= i < s.len() && s[i].0 == k,
        map_of(s).dom().finite(),
    decreases s.len(),
{
    if s.len() > 0 {
        lemma_map_of_dom(s.drop_last());
        assert forall|k: K| #[trigger]
            map_of(s).dom().contains(k) <==> exists|i: int| 0 <= i < s.len() && s[i].0 == k by {
            if map_of(s).dom().contains(k) && k != s.last().0 {
                let i = choose|i: int| 0 <= i < s.len() - 1 && s.drop_last()[i].0 == k;
                assert(s[i].0 == k);
            }
            if exists|i: int| 0 <= i < s.len() && s[i].0 == k {
                let i = choose|i: int| 0 <= i < s.len() && s[i].0 == k;
                if i < s.len() - 1 {
                    assert(s.drop_last()[i].0 == k);
                }
            }
        }
    }
}

/// With distinct keys, each pair of the list is an entry of the map.
pub proof fn lemma_map_of_index<K, V>(s: Seq<(K, V)>, i: int)
    requires
        keys_distinct(s),
        0 <= i < s.len(),
    ensures
        map_of(s).dom().contains(s[i].0),
        map_of(s)[s[i].0] == s[i].1,
    decreases s.len(),
{
    if i < s.len() - 1 {
        lemma_map_of_index(s.drop_last(), i);
        assert(s.drop_last()[i] == s[i]);
    }
}

/// Every pair of a list with distinct keys is an entry of its map.
pub proof fn lemma_map_of_all<K, V>(s: Seq<(K, V)>)
    requires
        keys_distinct(s),
    ensures
        forall|i: int|
            #![trigger s[i]]
            0 <= i < s.len() ==> map_of(s).dom().contains(s[i].0) && map_of(s)[s[i].0] == s[i].1,
{
    assert forall|i: int| #![trigger s[i]] 0 <= i < s.len() implies map_of(s).dom().contains(
        s[i].0,
    ) && map_of(s)[s[i].0] == s[i].1 by {
        lemma_map_of_index(s, i);
    }
}

/// Replacing the value of one pair updates that entry of the map.
pub proof fn lemma_map_of_update<K, V>(s: Seq<(K, V)>, i: int, v: V)
    requires
        keys_distinct(s),
        0 <= i < s.len(),
    ensures
        keys_distinct(s.update(i, (s[i].0, v))),
        map_of(s.update(i, (s[i].0, v))) == map_of(s).insert(s[i].0, v),
{
    let t = s.update(i, (s[i].0, v));
    lemma_map_of_dom(s);
    lemma_map_of_dom(t);
    lemma_map_of_all(s);
    lemma_map_of_all(t);
    assert forall|k: K| #[trigger] map_of(t).dom().contains(k) <==> map_of(s).insert(
        s[i].0,
        v,
    ).dom().contains(k) by {
        if map_of(s).dom().contains(k) {
            let j = choose|j: int| 0 <= j < s.len() && s[j].0 == k;
            assert(t[j].0 == k);
        }
        if map_of(t).dom().contains(k) {
            let j = choose|j: int| 0 <= j < t.len() && t[j].0 == k;
            assert(s[j].0 == k);
        }
    }
    assert forall|k: K| #[trigger] map_of(t).dom().contains(k) implies map_of(t)[k] == map_of(
        s,
    ).insert(s[i].0, v)[k] by {
        let j = choose|j: int| 0 <= j < t.len() && t[j].0 == k;
        assert(map_of(t)[t[j].0] == t[j].1);
        if j != i {
            assert(map_of(s)[s[j].0] == s[j].1);
        }
    }
    assert(map_of(t) =~= map_of(s).insert(s[i].0, v));
}

/// Appending a pair with a new key keeps the keys distinct and adds the entry.
pub proof fn lemma_map_of_push<K, V>(s: Seq<(K, V)>, k: K, v: V)
    requires
        keys_distinct(s),
        !map_of(s).dom().contains(k),
    ensures
        keys_distinct(s.push((k, v))),
        map_of(s.push((k, v))) == map_of(s).insert(k, v),
{
    lemma_map_of_dom(s);
    let t = s.push((k, v));
    assert(t.drop_last() =~= s);
    assert forall|i: int, j: int| 0 <= i < j < t.len() implies t[i].0 != t[j].0 by {
        if j == s.len() {
            assert(s[i].0 == t[i].0);
        }
    }
}

/// Appending the next pair of `s` to a list that holds the entries of `s`
/// with keys in `x`, all of them keys of earlier pairs, gives the entries with
/// keys in `x` and the new key.
pub proof fn lemma_map_of_push_restrict<K, V>(s: Seq<(K, V)>, l: Seq<(K, V)>, x: Set<K>, i: int)
    requires
        keys_distinct(s),
        keys_distinct(l),
        0 <= i < s.len(),
        map_of(l) == map_of(s).restrict(x),
        forall|k: K| #[trigger] x.contains(k) ==> exists|j: int| 0 <= j < i && s[j].0 == k,
    ensures
        keys_distinct(l.push(s[i])),
        map_of(l.push(s[i])) == map_of(s).restrict(x.insert(s[i].0)),
{
    lemma_map_of_dom(s);
    lemma_map_of_index(s, i);
    if x.contains(s[i].0) {
        let j = choose|j: int| 0 <= j < i && s[j].0 == s[i].0;
        assert(false);
    }
    lemma_map_of_push(l, s[i].0, s[i].1);
    assert(map_of(l.push(s[i])) =~= map_of(s).restrict(x.insert(s[i].0)));
}

} // verus!

verus! {

/// The pairs of a list keyed by strings, with the keys as text.
pub open spec fn keyed<V>(s: Seq<(String, V)>) -> Seq<(Seq<char>, V)> {
    s.map_values(|e: (String, V)| (e.0@, e.1))
}

/// The pairs of `s` whose key is not `k`, in order.
pub open spec fn without_key<K, V>(s: Seq<(K, V)>, k: K) -> Seq<(K, V)>
    decreases s.len(),
{
    if s.len() == 0 {
        Seq::empty()
    } else if s.last().0 == k {
        without_key(s.drop_last(), k)
    } else {
        without_key(s.drop_last(), k).push(s.last())
    }
}

/// Dropping the pairs of one key drops that key from the map.
pub proof fn lemma_without_key<K, V>(s: Seq<(K, V)>, k: K)
    ensures
        map_of(without_key(s, k)) == map_of(s).remove(k),
    decreases s.len(),
{
    if s.len() > 0 {
        lemma_without_key(s.drop_last(), k);
        if s.last().0 == k {
            assert(map_of(s).remove(k) =~= map_of(s.drop_last()).remove(k));
        } else {
            let w = without_key(s.drop_last(), k);
            assert(w.push(s.last()).drop_last() =~= w);
            assert(map_of(s).remove(k) =~= map_of(s.drop_last()).remove(k).insert(s.last().0, s.last().1));
        }
    } else {
        assert(map_of(s).remove(k) =~= Map::empty());
    }
}

/// Sets the value of `key`: drops the pairs with that key and appends the
/// new pair, so that a list with distinct keys keeps them distinct.
pub fn set_by_name<V>(entries: &mut Vec<(String, V)>, key: String, value: V)
    ensures
        map_of(keyed(final(entries)@)) == map_of(keyed(old(entries)@)).insert(key@, value),
        keys_distinct(keyed(old(entries)@)) ==> keys_distinct(keyed(final(entries)@)),
{
    let ghost orig = entries@;
    let ghost es = keyed(orig);
    let mut kept: Vec<(String, V)> = Vec::new();
    let mut rest: Vec<(String, V)> = Vec::new();
    std::mem::swap(&mut rest, entries);
    let ghost mut i: int = 0;
    while rest.len() > 0
        invariant
            es == keyed(orig),
            0 <= i <= orig.len(),
            rest@ == orig.skip(i),
            keyed(kept@) == without_key(es.take(i), key@),
            keys_distinct(es) ==> keys_distinct(keyed(kept@)),
            forall|j: int| 0 <= j < kept@.len() ==> keyed(kept@)[j].0 != key@,
            forall|j: int| #![trigger keyed(kept@)[j]] 0 <= j < kept@.len() ==> exists|m: int| 0 <= m < i && keyed(kept@)[j] == es[m],
        decreases rest@.len(),
    {
        let ghost before = keyed(kept@);
        assert(es.take(i + 1).drop_last() =~= es.take(i));
        assert(orig.skip(i)[0] == orig[i]);
        let e = rest.remove(0);
        assert(rest@ =~= orig.skip(i + 1));
        if e.0 != key {
            let ghost ev = (e.0@, e.1);
            assert(ev == es[i]);
            proof {
                if keys_distinct(es) {
                    assert forall|j: int| 0 <= j < before.len() implies before[j].0 != ev.0 by {
                        let m = choose|m: int| 0 <= m < i && before[j] == es[m];
                        assert(es[m].0 != es[i].0);
                    }
                }
            }
            kept.push(e);
            proof {
                let after = keyed(kept@);
                assert(after =~= before.push(ev));
                assert forall|j: int| #![trigger keyed(kept@)[j]] 0 <= j < kept@.len() implies exists|m: int| 0 <= m < i + 1 && keyed(kept@)[j] == es[m] by {
                    if j < before.len() {
                        assert(after[j] == before[j]);
                        let m = choose|m: int| 0 <= m < i && before[j] == es[m];
                        assert(after[j] == es[m]);
                    } else {
                        assert(after[j] == es[i]);
                    }
                }
            }
        } else {
            assert(es[i].0 == key@);
        }
        proof {
            i = i + 1;
        }
    }
    assert(orig.skip(i).len() == 0);
    assert(i == orig.len());
    assert(es.take(i) =~= es);
    proof {
        lemma_without_key(es, key@);
    }
    let ghost k = key@;
    let ghost before = keyed(kept@);
    kept.push((key, value));
    assert(keyed(kept@) =~= before.push((k, value)));
    assert(map_of(keyed(kept@)) =~= map_of(es).insert(k, value)) by {
        assert(before.push((k, value)).drop_last() =~= before);
        assert(map_of(before.push((k, value))) == map_of(before).insert(k, value));
        assert(map_of(es).remove(k).insert(k, value) =~= map_of(es).insert(k, value));
    }
    *entries = kept;
}

} // verus!
