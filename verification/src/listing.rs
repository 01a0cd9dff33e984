//! Maps keyed by user id, listed in ascending order of the key.
use std::collections::BTreeMap;
use vstd::prelude::*;

verus! {

broadcast use {
    vstd::std_specs::btree::group_btree_axioms,
    vstd::laws_cmp::group_laws_cmp,
};

/// The entries of `m` whose keys are below `bound`, by ascending key.
pub open spec fn entries_below<V>(m: Map<u32, V>, bound: nat) -> Seq<(u32, V)>
    decreases bound,
{
    if bound == 0 {
        Seq::empty()
    } else {
        let key = (bound - 1) as u32;
        let smaller = entries_below(m, (bound - 1) as nat);
        if m.contains_key(key) {
            smaller.push((key, m[key]))
        } else {
            smaller
        }
    }
}

/// The entries of `m`, by ascending key.
pub open spec fn entries<V>(m: Map<u32, V>) -> Seq<(u32, V)> {
    entries_below(m, 0x1_0000_0000)
}

/// `list` names every entry of `m` once, by ascending key.
pub open spec fn lists<V>(list: Seq<(u32, V)>, m: Map<u32, V>) -> bool {
    &&& forall|i: int, j: int| 0 <= i < j < list.len() ==> list[i].0 < list[j].0
    &&& forall|i: int| #![trigger list[i]] 0 <= i < list.len() ==> m.contains_key(list[i].0) && m[list[i].0] == list[i].1
    &&& forall|key: u32| #[trigger]
        m.contains_key(key) ==> exists|i: int| 0 <= i < list.len() && (#[trigger] list[i]).0 == key
}

proof fn lemma_lists_below<V>(list: Seq<(u32, V)>, m: Map<u32, V>, bound: nat, count: int)
    requires
        lists(list, m),
        bound <= 0x1_0000_0000,
        0 <= count <= list.len(),
        forall|i: int| 0 <= i < count ==> (#[trigger] list[i]).0 < bound,
        forall|i: int| count <= i < list.len() ==> (#[trigger] list[i]).0 >= bound,
    ensures
        entries_below(m, bound) == list.take(count),
    decreases bound,
{
    if bound == 0 {
        if count > 0 {
            assert(list[0].0 < 0);
        }
        assert(list.take(count) =~= Seq::<(u32, V)>::empty());
    } else {
        let key = (bound - 1) as u32;
        if m.contains_key(key) {
            let i = choose|i: int| 0 <= i < list.len() && (#[trigger] list[i]).0 == key;
            assert(i < count);
            if i < count - 1 {
                assert(list[i].0 < list[count - 1].0);
            }
            assert(list[count - 1].0 == key);
            lemma_lists_below(list, m, (bound - 1) as nat, count - 1);
            assert(list.take(count) =~= list.take(count - 1).push(list[count - 1]));
        } else {
            lemma_lists_below(list, m, (bound - 1) as nat, count);
        }
    }
}

/// There is one listing of `m`.
pub proof fn lemma_lists_is_entries<V>(list: Seq<(u32, V)>, m: Map<u32, V>)
    requires
        lists(list, m),
    ensures
        list == entries(m),
{
    lemma_lists_below(list, m, 0x1_0000_0000, list.len() as int);
    assert(list.take(list.len() as int) =~= list);
}

proof fn lemma_entries_below_lists<V>(m: Map<u32, V>, bound: nat)
    requires
        bound <= 0x1_0000_0000,
    ensures
        ({
            let list = entries_below(m, bound);
            &&& forall|i: int, j: int| 0 <= i < j < list.len() ==> list[i].0 < list[j].0
            &&& forall|i: int| #![trigger list[i]]
                0 <= i < list.len() ==> list[i].0 < bound && m.contains_key(list[i].0) && m[list[i].0]
                    == list[i].1
            &&& forall|key: u32| #[trigger]
                m.contains_key(key) && key < bound ==> exists|i: int|
                    0 <= i < list.len() && (#[trigger] list[i]).0 == key
        }),
    decreases bound,
{
    if bound > 0 {
        lemma_entries_below_lists(m, (bound - 1) as nat);
        let smaller = entries_below(m, (bound - 1) as nat);
        let list = entries_below(m, bound);
        assert forall|key: u32| #[trigger] m.contains_key(key) && key < bound implies exists|i: int|
            0 <= i < list.len() && (#[trigger] list[i]).0 == key by {
            if key == bound - 1 {
                assert(list[list.len() - 1].0 == key);
            } else {
                let i = choose|i: int| 0 <= i < smaller.len() && (#[trigger] smaller[i]).0 == key;
                assert(list[i].0 == key);
            }
        }
    }
}

/// `entries` lists its map.
pub proof fn lemma_entries_lists<V>(m: Map<u32, V>)
    ensures
        lists(entries(m), m),
{
    lemma_entries_below_lists(m, 0x1_0000_0000);
}

proof fn lemma_entries_below_len<V>(m: Map<u32, V>, bound: nat)
    ensures
        entries_below(m, bound).len() <= bound,
    decreases bound,
{
    if bound > 0 {
        lemma_entries_below_len(m, (bound - 1) as nat);
    }
}

/// There are no more entries than keys.
pub proof fn lemma_entries_len<V>(m: Map<u32, V>)
    ensures
        entries(m).len() <= 0x1_0000_0000,
{
    lemma_entries_below_len(m, 0x1_0000_0000);
}

/// The entries of `map`, by ascending key.
pub fn listed<V: Copy>(map: &BTreeMap<u32, V>) -> (list: Vec<(u32, V)>)
    ensures
        list@ == entries(map@),
{
    let mut list: Vec<(u32, V)> = Vec::new();
    let iter = map.iter();
    let ghost all = vstd::std_specs::iter::IteratorSpec::remaining(&iter);
    let ghost keys = all.map_values(|entry: (&u32, &V)| *entry.0);
    assert(vstd::std_specs::btree::increasing_seq(keys));
    for entry in it: iter
        invariant
            it.seq() == all,
            list@.len() == it.index(),
            forall|i: int| 0 <= i < list@.len() ==> #[trigger] list@[i] == (*all[i].0, *all[i].1),
    {
        list.push((*entry.0, *entry.1));
    }
    proof {
        assert forall|i: int, j: int| 0 <= i < j < list@.len() implies list@[i].0 < list@[j].0 by {
            assert(vstd::laws_cmp::obeys_cmp::<u32>());
            assert(vstd::std_specs::cmp::OrdSpec::cmp_spec(&keys[i], &keys[j]) is Less);
            assert(keys[i] == list@[i].0 && keys[j] == list@[j].0);
        }
        assert forall|key: u32| #[trigger] map@.contains_key(key) implies exists|i: int|
            0 <= i < list@.len() && (#[trigger] list@[i]).0 == key by {
            assert(all.contains((&key, &map@[key])));
            let i = choose|i: int| 0 <= i < all.len() && all[i] == (&key, &map@[key]);
            assert(list@[i].0 == key);
        }
        assert forall|i: int| #![trigger list@[i]] 0 <= i < list@.len() implies map@.contains_key(
            list@[i].0,
        ) && map@[list@[i].0] == list@[i].1 by {
            assert(map@.contains_key(*all[i].0));
        }
        lemma_lists_is_entries(list@, map@);
    }
    list
}

/// The entries are those of the map, each once, by ascending key.
pub proof fn law_entries<V>(m: Map<u32, V>)
    ensures
        forall|i: int, j: int|
            0 <= i < j < entries(m).len() ==> (#[trigger] entries(m)[i]).0 < (
            #[trigger] entries(m)[j]).0,
        forall|i: int|
            0 <= i < entries(m).len() ==> m.contains_key((#[trigger] entries(m)[i]).0)
                && entries(m)[i].1 == m[entries(m)[i].0],
        forall|key: u32| #[trigger]
            m.contains_key(key) ==> entries(m).contains((key, m[key])),
{
    lemma_entries_lists(m);
    assert forall|key: u32| #[trigger] m.contains_key(key) implies entries(m).contains(
        (key, m[key]),
    ) by {
        let i = choose|i: int| 0 <= i < entries(m).len() && (#[trigger] entries(m)[i]).0 == key;
        assert(entries(m)[i] == (key, m[key]));
    }
}

} // verus!
