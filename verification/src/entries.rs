//! Lists of named values that stand for maps.

use crate::text::same_str;
use vstd::prelude::*;

verus! {

/// The map that a list of entries stands for.
pub open spec fn entry_map<V: View>(e: Seq<(String, V)>) -> Map<Seq<char>, V::V>
    decreases e.len(),
{
    if e.len() == 0 {
        Map::empty()
    } else {
        entry_map(e.drop_last()).insert(e.last().0@, e.last().1@)
    }
}

/// No name occurs twice.
pub open spec fn distinct<V>(e: Seq<(String, V)>) -> bool {
    forall|i: int, j: int|
        0 <= i < j < e.len() ==> (#[trigger] e[i]).0@ != (#[trigger] e[j]).0@
}

/// A name that no entry has is not in the map.
pub proof fn lemma_absent<V: View>(e: Seq<(String, V)>, name: Seq<char>)
    requires
        forall|i: int| 0 <= i < e.len() ==> (#[trigger] e[i]).0@ != name,
    ensures
        !entry_map(e).dom().contains(name),
    decreases e.len(),
{
    if e.len() > 0 {
        assert forall|i: int| 0 <= i < e.drop_last().len() implies (#[trigger] e.drop_last()[i]).0@
            != name by {
            assert(e.drop_last()[i] == e[i]);
        }
        lemma_absent(e.drop_last(), name);
    }
}

/// The map has the value of every entry under its name.
pub proof fn lemma_present<V: View>(e: Seq<(String, V)>, k: int)
    requires
        0 <= k < e.len(),
        distinct(e),
    ensures
        entry_map(e).dom().contains(e[k].0@),
        entry_map(e)[e[k].0@] == e[k].1@,
    decreases e.len(),
{
    if k < e.len() - 1 {
        assert(forall|i: int| 0 <= i < e.drop_last().len() ==> e.drop_last()[i] == e[i]);
        lemma_present(e.drop_last(), k);
        assert(e[k].0@ != e[e.len() - 1].0@);
    }
}

proof fn lemma_replaced<V: View>(e: Seq<(String, V)>, k: int, entry: (String, V))
    requires
        0 <= k < e.len(),
        e[k].0@ == entry.0@,
        distinct(e),
    ensures
        entry_map(e.update(k, entry)) == entry_map(e).insert(entry.0@, entry.1@),
    decreases e.len(),
{
    let f = e.update(k, entry);
    if k == e.len() - 1 {
        assert(f.drop_last() =~= e.drop_last());
        assert(entry_map(f) =~= entry_map(e).insert(entry.0@, entry.1@));
    } else {
        assert(f.drop_last() =~= e.drop_last().update(k, entry));
        assert(forall|i: int| 0 <= i < e.drop_last().len() ==> e.drop_last()[i] == e[i]);
        lemma_replaced(e.drop_last(), k, entry);
        assert(e[k].0@ != e[e.len() - 1].0@);
        assert(entry_map(f) =~= entry_map(e).insert(entry.0@, entry.1@));
    }
}

/// The position of the entry with the given name.
pub(crate) fn position<V: View>(entries: &Vec<(String, V)>, name: &str) -> (r: Option<usize>)
    requires
        distinct(entries@),
    ensures
        match r {
            Some(k) => k < entries@.len() && entries@[k as int].0@ == name@ && entry_map(
                entries@,
            ).dom().contains(name@) && entry_map(entries@)[name@] == entries@[k as int].1@,
            None => !entry_map(entries@).dom().contains(name@) && forall|k: int|
                0 <= k < entries@.len() ==> (#[trigger] entries@[k]).0@ != name@,
        },
{
    let mut i: usize = 0;
    while i < entries.len()
        invariant
            0 <= i <= entries@.len(),
            distinct(entries@),
            forall|k: int| 0 <= k < i ==> (#[trigger] entries@[k]).0@ != name@,
        decreases entries.len() - i,
    {
        if same_str(entries[i].0.as_str(), name) {
            proof {
                lemma_present(entries@, i as int);
            }
            return Some(i);
        }
        i = i + 1;
    }
    proof {
        lemma_absent(entries@, name@);
    }
    None
}

/// Puts a value under a name, in place of the one that stands there.
pub(crate) fn put<V: View>(entries: &mut Vec<(String, V)>, name: String, value: V)
    requires
        distinct(old(entries)@),
    ensures
        distinct(final(entries)@),
        entry_map(final(entries)@) == entry_map(old(entries)@).insert(name@, value@),
{
    let ghost before = entries@;
    match position(entries, name.as_str()) {
        Some(k) => {
            let entry: (String, V) = (name, value);
            proof {
                lemma_replaced(before, k as int, entry);
            }
            entries.set(k, entry);
        },
        None => {
            let entry: (String, V) = (name, value);
            entries.push(entry);
            assert(entries@.drop_last() =~= before);
        },
    }
}

} // verus!
