use vstd::prelude::*;

verus! {

/// The table that a run of named values makes when each is stored in turn: every
/// name that occurs, with the last value that carries it.
pub open spec fn map_of<V>(s: Seq<(Seq<u8>, V)>) -> Map<Seq<u8>, V>
    decreases s.len(),
{
    if s.len() == 0 {
        Map::empty()
    } else {
        map_of(s.drop_last()).insert(s.last().0, s.last().1)
    }
}

/// No name occurs twice.
pub open spec fn distinct_keys<V>(s: Seq<(Seq<u8>, V)>) -> bool {
    forall|i: int, j: int| #![trigger s[i], s[j]] 0 <= i < j < s.len() ==> s[i].0 != s[j].0
}

/// Without the last of distinct names, the names are distinct.
pub proof fn lemma_distinct_drop_last<V>(s: Seq<(Seq<u8>, V)>)
    requires
        distinct_keys(s),
        s.len() > 0,
    ensures
        distinct_keys(s.drop_last()),
{
    let front = s.drop_last();
    assert forall|a: int, b: int| 0 <= a < b < front.len() implies front[a].0 != front[b].0 by {
        assert(front[a] == s[a] && front[b] == s[b]);
    }
}

/// Among distinct names, each value is what the table holds for its name.
pub proof fn lemma_map_of_lookup<V>(s: Seq<(Seq<u8>, V)>, i: int)
    requires
        distinct_keys(s),
        0 <= i < s.len(),
    ensures
        map_of(s).contains_key(s[i].0),
        map_of(s)[s[i].0] == s[i].1,
    decreases s.len(),
{
    if i < s.len() - 1 {
        let front = s.drop_last();
        lemma_distinct_drop_last(s);
        lemma_map_of_lookup(front, i);
        assert(front[i] == s[i]);
        assert(s[i].0 != s[s.len() - 1].0);
    }
}

/// A name that no value carries is not in the table.
pub proof fn lemma_map_of_absent<V>(s: Seq<(Seq<u8>, V)>, key: Seq<u8>)
    requires
        forall|i: int| 0 <= i < s.len() ==> (#[trigger] s[i]).0 != key,
    ensures
        !map_of(s).contains_key(key),
    decreases s.len(),
{
    if s.len() > 0 {
        let front = s.drop_last();
        assert forall|i: int| 0 <= i < front.len() implies (#[trigger] front[i]).0 != key by {
            assert(front[i] == s[i]);
        }
        lemma_map_of_absent(front, key);
        assert(s[s.len() - 1].0 != key);
    }
}

/// Every name of the table is carried by some value of the run.
pub proof fn lemma_map_of_key_index<V>(s: Seq<(Seq<u8>, V)>, key: Seq<u8>) -> (i: int)
    requires
        map_of(s).contains_key(key),
    ensures
        0 <= i < s.len(),
        s[i].0 == key,
    decreases s.len(),
{
    if s.len() == 0 {
        0
    } else if s.last().0 == key {
        s.len() - 1
    } else {
        let i = lemma_map_of_key_index(s.drop_last(), key);
        assert(s.drop_last()[i] == s[i]);
        i
    }
}

/// Replacing the value at one place, under the same name, replaces it in the
/// table.
pub proof fn lemma_map_of_update<V>(s: Seq<(Seq<u8>, V)>, i: int, value: V)
    requires
        distinct_keys(s),
        0 <= i < s.len(),
    ensures
        distinct_keys(s.update(i, (s[i].0, value))),
        map_of(s.update(i, (s[i].0, value))) == map_of(s).insert(s[i].0, value),
    decreases s.len(),
{
    let key = s[i].0;
    let t = s.update(i, (key, value));
    assert forall|a: int, b: int| 0 <= a < b < t.len() implies t[a].0 != t[b].0 by {
        assert(t[a].0 == s[a].0 && t[b].0 == s[b].0);
    }
    let front = s.drop_last();
    if i == s.len() - 1 {
        assert(t.drop_last() =~= front);
        assert(map_of(t) =~= map_of(s).insert(key, value));
    } else {
        lemma_distinct_drop_last(s);
        assert(t.drop_last() =~= front.update(i, (front[i].0, value)));
        assert(t.last() == s.last());
        lemma_map_of_update(front, i, value);
        assert(s[i].0 != s[s.len() - 1].0);
        assert(map_of(t) =~= map_of(s).insert(key, value));
    }
}

/// Appending a value under a new name keeps the names distinct and adds the
/// value to the table.
pub proof fn lemma_map_of_push<V>(s: Seq<(Seq<u8>, V)>, key: Seq<u8>, value: V)
    requires
        distinct_keys(s),
        !map_of(s).contains_key(key),
    ensures
        distinct_keys(s.push((key, value))),
        map_of(s.push((key, value))) == map_of(s).insert(key, value),
{
    let t = s.push((key, value));
    assert(t.drop_last() =~= s);
    assert forall|a: int, b: int| 0 <= a < b < t.len() implies t[a].0 != t[b].0 by {
        assert(t[a] == s[a]);
        if b < s.len() {
            assert(t[b] == s[b]);
        } else {
            lemma_map_of_lookup(s, a);
        }
    }
}

} // verus!
