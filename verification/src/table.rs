use crate::entry::EntryView;
use crate::index_format::all_wf;
use crate::order::{bytes_less, lemma_less_irreflexive, lemma_less_total};
use vstd::prelude::*;

verus! {

/// Whether the entries stand in strictly ascending order of their paths, so that
/// no path occurs twice.
pub open spec fn sorted_by_path(s: Seq<EntryView>) -> bool {
    forall|i: int, j: int|
        #![trigger s[i], s[j]]
        0 <= i < j < s.len() ==> bytes_less(s[i].path, s[j].path)
}

/// The table that a run of entries makes when each is stored in turn: every path
/// that occurs, with the last entry that carries it.
pub open spec fn table_of(s: Seq<EntryView>) -> Map<Seq<u8>, EntryView>
    decreases s.len(),
{
    if s.len() == 0 {
        Map::empty()
    } else {
        table_of(s.drop_last()).insert(s.last().path, s.last())
    }
}

/// Putting an entry at its place in a sorted run keeps the run sorted and adds
/// the entry to its table.
pub proof fn lemma_table_insert(s: Seq<EntryView>, i: int, e: EntryView)
    requires
        sorted_by_path(s),
        0 <= i <= s.len(),
        forall|j: int| 0 <= j < i ==> bytes_less(#[trigger] s[j].path, e.path),
        forall|j: int| i <= j < s.len() ==> bytes_less(e.path, #[trigger] s[j].path),
    ensures
        sorted_by_path(s.insert(i, e)),
        table_of(s.insert(i, e)) == table_of(s).insert(e.path, e),
    decreases s.len(),
{
    let t = s.insert(i, e);
    assert(sorted_by_path(t)) by {
        assert forall|a: int, b: int| 0 <= a < b < t.len() implies bytes_less(
            t[a].path,
            t[b].path,
        ) by {
            if a < i && b > i {
                assert(t[a] == s[a] && t[b] == s[b - 1]);
            } else if a < i && b < i {
                assert(t[a] == s[a] && t[b] == s[b]);
            } else if a > i {
                assert(t[a] == s[a - 1] && t[b] == s[b - 1]);
            }
        }
    }
    if i == s.len() {
        assert(t.drop_last() =~= s);
    } else {
        let last = s.last();
        let front = s.drop_last();
        assert(t.drop_last() =~= front.insert(i, e));
        assert(t.last() == last);
        assert(sorted_by_path(front)) by {
            assert forall|a: int, b: int| 0 <= a < b < front.len() implies bytes_less(
                front[a].path,
                front[b].path,
            ) by {
                assert(front[a] == s[a] && front[b] == s[b]);
            }
        }
        assert forall|j: int| 0 <= j < i implies bytes_less(#[trigger] front[j].path, e.path) by {
            assert(front[j] == s[j]);
        }
        assert forall|j: int| i <= j < front.len() implies bytes_less(
            e.path,
            #[trigger] front[j].path,
        ) by {
            assert(front[j] == s[j]);
        }
        lemma_table_insert(front, i, e);
        assert(bytes_less(e.path, s[s.len() - 1].path));
        lemma_less_irreflexive(e.path);
        assert(table_of(t) =~= table_of(s).insert(e.path, e));
    }
}

/// Replacing an entry of a sorted run by one with the same path keeps the run
/// sorted and replaces the entry in its table.
pub proof fn lemma_table_update(s: Seq<EntryView>, i: int, e: EntryView)
    requires
        sorted_by_path(s),
        0 <= i < s.len(),
        s[i].path == e.path,
    ensures
        sorted_by_path(s.update(i, e)),
        table_of(s.update(i, e)) == table_of(s).insert(e.path, e),
    decreases s.len(),
{
    let t = s.update(i, e);
    assert(sorted_by_path(t)) by {
        assert forall|a: int, b: int| 0 <= a < b < t.len() implies bytes_less(
            t[a].path,
            t[b].path,
        ) by {
            assert(t[a].path == s[a].path && t[b].path == s[b].path);
        }
    }
    let front = s.drop_last();
    if i == s.len() - 1 {
        assert(t.drop_last() =~= front);
        assert(table_of(t) =~= table_of(s).insert(e.path, e));
    } else {
        assert(t.drop_last() =~= front.update(i, e));
        assert(t.last() == s.last());
        assert(sorted_by_path(front)) by {
            assert forall|a: int, b: int| 0 <= a < b < front.len() implies bytes_less(
                front[a].path,
                front[b].path,
            ) by {
                assert(front[a] == s[a] && front[b] == s[b]);
            }
        }
        lemma_table_update(front, i, e);
        assert(bytes_less(s[i].path, s[s.len() - 1].path));
        lemma_less_irreflexive(e.path);
        assert(table_of(t) =~= table_of(s).insert(e.path, e));
    }
}

/// `after` is `before` with `e` stored: in place of the entry of the same path,
/// or as a new entry.
pub open spec fn stored_in(before: Seq<EntryView>, after: Seq<EntryView>, e: EntryView) -> bool {
    exists|i: int|
        #![trigger before.update(i, e)]
        #![trigger before.insert(i, e)]
        0 <= i <= before.len() && ((i < before.len() && before[i].path == e.path && after
            == before.update(i, e)) || after == before.insert(i, e))
}

/// In a sorted run each entry is what the table holds for its path.
pub proof fn lemma_sorted_lookup(s: Seq<EntryView>, i: int)
    requires
        sorted_by_path(s),
        0 <= i < s.len(),
    ensures
        table_of(s).contains_key(s[i].path),
        table_of(s)[s[i].path] == s[i],
    decreases s.len(),
{
    if i < s.len() - 1 {
        let front = s.drop_last();
        lemma_sorted_drop_last(s);
        lemma_sorted_lookup(front, i);
        assert(front[i] == s[i]);
        assert(bytes_less(s[i].path, s[s.len() - 1].path));
        lemma_less_irreflexive(s[i].path);
    }
}

/// Every path of the table is the path of some entry of the run.
pub proof fn lemma_table_key_index(s: Seq<EntryView>, path: Seq<u8>) -> (i: int)
    requires
        table_of(s).contains_key(path),
    ensures
        0 <= i < s.len(),
        s[i].path == path,
    decreases s.len(),
{
    if s.len() == 0 {
        0
    } else if s.last().path == path {
        s.len() - 1
    } else {
        let i = lemma_table_key_index(s.drop_last(), path);
        assert(s.drop_last()[i] == s[i]);
        i
    }
}

proof fn lemma_sorted_drop_last(s: Seq<EntryView>)
    requires
        sorted_by_path(s),
        s.len() > 0,
    ensures
        sorted_by_path(s.drop_last()),
        !table_of(s.drop_last()).contains_key(s.last().path),
        table_of(s.drop_last()) == table_of(s).remove(s.last().path),
{
    let front = s.drop_last();
    assert forall|a: int, b: int| 0 <= a < b < front.len() implies bytes_less(
        front[a].path,
        front[b].path,
    ) by {
        assert(front[a] == s[a] && front[b] == s[b]);
    }
    if table_of(front).contains_key(s.last().path) {
        let k = lemma_table_key_index(front, s.last().path);
        assert(front[k] == s[k]);
        assert(bytes_less(s[k].path, s[s.len() - 1].path));
        lemma_less_irreflexive(s[k].path);
    }
    assert(table_of(front) =~= table_of(s).remove(s.last().path));
}

/// Determinism: two sorted runs with the same table are the same run, so a set
/// of entries has one serialized form, whatever the order in which its entries
/// were stored.
pub proof fn lemma_sorted_unique(s: Seq<EntryView>, t: Seq<EntryView>)
    requires
        sorted_by_path(s),
        sorted_by_path(t),
        table_of(s) == table_of(t),
    ensures
        s == t,
    decreases s.len(),
{
    if s.len() == 0 {
        if t.len() > 0 {
            assert(table_of(t).contains_key(t.last().path));
        }
        assert(s =~= t);
    } else {
        assert(table_of(s).contains_key(s.last().path));
        assert(t.len() > 0);
        let ls = s.last();
        let lt = t.last();
        assert(table_of(t).contains_key(lt.path));
        let j = lemma_table_key_index(t, ls.path);
        let i = lemma_table_key_index(s, lt.path);
        if j < t.len() - 1 && i < s.len() - 1 {
            assert(bytes_less(t[j].path, t[t.len() - 1].path));
            assert(bytes_less(s[i].path, s[s.len() - 1].path));
            lemma_less_total(ls.path, lt.path);
        }
        assert(ls.path == lt.path);
        lemma_sorted_lookup(s, s.len() - 1);
        lemma_sorted_lookup(t, t.len() - 1);
        assert(ls == lt);
        lemma_sorted_drop_last(s);
        lemma_sorted_drop_last(t);
        lemma_sorted_unique(s.drop_last(), t.drop_last());
        assert(s =~= s.drop_last().push(ls));
        assert(t =~= t.drop_last().push(lt));
    }
}

/// Overwrite: storing two entries for one path, one after the other, leaves what
/// storing the second alone leaves; in the sorted run that holds the result,
/// exactly one entry has that path, and it is the second.
pub proof fn lemma_store_twice(
    before: Map<Seq<u8>, EntryView>,
    first: EntryView,
    second: EntryView,
    after: Seq<EntryView>,
)
    requires
        first.path == second.path,
        sorted_by_path(after),
        table_of(after) == before.insert(first.path, first).insert(second.path, second),
    ensures
        table_of(after) == before.insert(second.path, second),
        exists|i: int| 0 <= i < after.len() && after[i] == second,
        forall|i: int|
            0 <= i < after.len() && (#[trigger] after[i]).path == second.path ==> after[i]
                == second,
        forall|i: int, j: int|
            #![trigger after[i], after[j]]
            0 <= i < after.len() && 0 <= j < after.len() && after[i].path == second.path
                && after[j].path == second.path ==> i == j,
{
    assert(table_of(after) =~= before.insert(second.path, second));
    let k = lemma_table_key_index(after, second.path);
    lemma_sorted_lookup(after, k);
    assert forall|i: int| 0 <= i < after.len() && (#[trigger] after[i]).path
        == second.path implies after[i] == second by {
        lemma_sorted_lookup(after, i);
    }
    assert forall|i: int, j: int|
        #![trigger after[i], after[j]]
        0 <= i < after.len() && 0 <= j < after.len() && after[i].path == second.path
            && after[j].path == second.path implies i == j by {
        lemma_less_irreflexive(second.path);
        if i < j {
            assert(bytes_less(after[i].path, after[j].path));
        } else if j < i {
            assert(bytes_less(after[j].path, after[i].path));
        }
    }
}

/// Storing an entry that can be written in a run of such entries leaves a run of
/// such entries.
pub proof fn lemma_stored_all_wf(before: Seq<EntryView>, after: Seq<EntryView>, e: EntryView)
    requires
        all_wf(before),
        e.wf(),
        stored_in(before, after, e),
    ensures
        all_wf(after),
{
    let i = choose|i: int|
        #![trigger before.update(i, e)]
        #![trigger before.insert(i, e)]
        0 <= i <= before.len() && ((i < before.len() && before[i].path == e.path && after
            == before.update(i, e)) || after == before.insert(i, e));
    assert forall|k: int| 0 <= k < after.len() implies (#[trigger] after[k]).wf() by {
        if after == before.insert(i, e) {
            if k < i {
                assert(after[k] == before[k]);
            } else if k > i {
                assert(after[k] == before[k - 1]);
            }
        } else {
            if k != i {
                assert(after[k] == before[k]);
            }
        }
    }
}

} // verus!
