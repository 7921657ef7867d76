//! Sets of task ids.

use std::collections::HashSet;
use vstd::prelude::*;
use vstd::seq_lib::seq_to_set_is_finite;
use vstd::std_specs::hash::spec_hash_keys_iter;
use vstd::std_specs::iter::IteratorSpec;

verus! {

/// A set of ids held in memory is finite, and it is empty exactly when its
/// size is zero.
pub proof fn lemma_ids_finite(ids: &HashSet<usize>)
    ensures
        ids@.finite(),
        ids@.len() == 0 <==> ids@.is_empty(),
{
    let listed = spec_hash_keys_iter(ids).remaining().unref();
    seq_to_set_is_finite(listed);
    assert(listed.to_set() == ids@);
    if ids@.len() == 0 {
        ids@.lemma_len0_is_empty();
    }
    if ids@.is_empty() {
        assert(ids@ =~= Set::<usize>::empty());
    }
}

/// Taking one more item of a list adds that item to the set of those taken.
pub proof fn lemma_take_to_set<A>(list: Seq<A>, count: int)
    requires
        0 <= count < list.len(),
    ensures
        list.take(count + 1).to_set() == list.take(count).to_set().insert(list[count]),
        list.take(0).to_set() == Set::<A>::empty(),
        count + 1 == list.len() ==> list.take(count + 1) == list,
{
    let shorter = list.take(count);
    let longer = list.take(count + 1);
    assert(longer =~= shorter.push(list[count]));
    assert forall|item: A| longer.to_set().contains(item) == shorter.to_set().insert(list[count]).contains(item) by {
        if shorter.contains(item) {
            let k = choose|k: int| 0 <= k < shorter.len() && shorter[k] == item;
            assert(longer[k] == item);
        }
        if item == list[count] {
            assert(longer[count] == item);
        }
    }
    assert(longer.to_set() =~= shorter.to_set().insert(list[count]));
    assert(list.take(0).to_set() =~= Set::<A>::empty());
    if count + 1 == list.len() {
        assert(longer =~= list);
    }
}

/// Taking nothing of a list leaves the empty set, and taking all of it
/// leaves the list.
pub proof fn lemma_take_all<A>(list: Seq<A>)
    ensures
        list.take(0).to_set() == Set::<A>::empty(),
        list.take(list.len() as int) == list,
{
    assert(list.take(0).to_set() =~= Set::<A>::empty());
    assert(list.take(list.len() as int) =~= list);
}

/// The ids of `ids` as a list, each id once, in no particular order.
pub fn ids_to_vec(ids: &HashSet<usize>) -> (list: Vec<usize>)
    ensures
        list@.to_set() == ids@,
        list@.no_duplicates(),
{
    let mut list: Vec<usize> = Vec::new();
    for id in it: ids.iter()
        invariant
            list@.len() == it.index(),
            forall|k: int| 0 <= k < list@.len() ==> list@[k] == *it.seq()[k],
            it.seq().unref().to_set() == ids@,
            it.seq().no_duplicates(),
            it.index() == it.seq().len() ==> list@ == it.seq().unref(),
    {
        list.push(*id);
        assert(it.index() + 1 == it.seq().len() ==> list@ =~= it.seq().unref());
    }
    list
}

/// Empties `ids` and returns what it held as a list, each id once, in no
/// particular order.
pub fn drain_ids(ids: &mut HashSet<usize>) -> (list: Vec<usize>)
    ensures
        list@.to_set() == old(ids)@,
        list@.no_duplicates(),
        final(ids)@ == Set::<usize>::empty(),
{
    let list = ids_to_vec(ids);
    ids.clear();
    list
}

/// The set of the ids of `list`.
pub fn ids_from_vec(list: &Vec<usize>) -> (ids: HashSet<usize>)
    ensures
        ids@ == list@.to_set(),
{
    let mut ids: HashSet<usize> = HashSet::new();
    let mut i: usize = 0;
    proof {
        lemma_take_all(list@);
    }
    while i < list.len()
        invariant
            i <= list@.len(),
            ids@ == list@.take(i as int).to_set(),
        decreases list@.len() - i,
    {
        ids.insert(list[i]);
        proof {
            lemma_take_to_set(list@, i as int);
        }
        i += 1;
    }
    proof {
        lemma_take_all(list@);
    }
    ids
}

/// Appends to `list` the items of `more`.
pub fn append_ids(list: &mut Vec<usize>, more: &Vec<usize>)
    ensures
        final(list)@ == old(list)@ + more@,
{
    let mut i: usize = 0;
    while i < more.len()
        invariant
            i <= more@.len(),
            list@ == old(list)@ + more@.take(i as int),
        decreases more@.len() - i,
    {
        list.push(more[i]);
        assert(more@.take(i + 1) =~= more@.take(i as int).push(more@[i as int]));
        i += 1;
    }
    assert(more@.take(more@.len() as int) =~= more@);
}

} // verus!
