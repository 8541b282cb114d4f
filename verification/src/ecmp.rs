//! First-hop lists: what they are made of, how entries are looked up and
//! merged, and how the lists of all nodes are handed out as a map.
use std::collections::HashMap;
use vstd::prelude::*;

verus! {

/// `h` is the hop node of some entry of `l`.
pub open spec fn lists_hop(l: Seq<(usize, usize)>, h: int) -> bool {
    exists|i: int| 0 <= i < l.len() && (#[trigger] l[i]).0 == h
}

/// No hop node comes twice in `l`.
pub open spec fn hops_distinct(l: Seq<(usize, usize)>) -> bool {
    forall|i: int, j: int| 0 <= i < j < l.len() ==> (#[trigger] l[i]).0 != (#[trigger] l[j]).0
}

/// The first-hop lists of the nodes, as sequences.
pub open spec fn lists_of(hops: Seq<Vec<(usize, usize)>>) -> Seq<Seq<(usize, usize)>> {
    hops.map_values(|l: Vec<(usize, usize)>| l@)
}

/// Whether some entry of `l` has the hop node `h`.
pub fn lists_node(l: &Vec<(usize, usize)>, h: usize) -> (b: bool)
    ensures
        b == lists_hop(l@, h as int),
{
    let mut i: usize = 0;
    while i < l.len()
        invariant
            i <= l@.len(),
            forall|k: int| 0 <= k < i ==> (#[trigger] l@[k]).0 != h,
        decreases l@.len() - i,
    {
        if l[i].0 == h {
            return true;
        }
        i = i + 1;
    }
    false
}

/// The equal-cost merge: appends to `existing` each inherited hop whose hop
/// node it does not list yet.
pub fn merge_hops(existing: &mut Vec<(usize, usize)>, inherited: &Vec<(usize, usize)>)
    ensures
        final(existing)@.len() >= old(existing)@.len(),
        final(existing)@.subrange(0, old(existing)@.len() as int) == old(existing)@,
        forall|i: int|
            old(existing)@.len() <= i < final(existing)@.len() ==> exists|k: int|
                0 <= k < inherited@.len() && #[trigger] final(existing)@[i] == inherited@[k],
        forall|k: int|
            0 <= k < inherited@.len() ==> lists_hop(final(existing)@, (#[trigger] inherited@[k]).0 as int),
        hops_distinct(old(existing)@) ==> hops_distinct(final(existing)@),
        (forall|k: int|
            0 <= k < inherited@.len() ==> lists_hop(old(existing)@, (#[trigger] inherited@[k]).0 as int))
            ==> final(existing)@ == old(existing)@,
{
    let ghost start = existing@;
    let mut k: usize = 0;
    while k < inherited.len()
        invariant
            k <= inherited@.len(),
            existing@.len() >= start.len(),
            existing@.subrange(0, start.len() as int) == start,
            forall|i: int|
                start.len() <= i < existing@.len() ==> exists|j: int|
                    0 <= j < k && #[trigger] existing@[i] == inherited@[j] && !lists_hop(start, existing@[i].0 as int),
            forall|j: int| 0 <= j < k ==> lists_hop(existing@, (#[trigger] inherited@[j]).0 as int),
            hops_distinct(start) ==> hops_distinct(existing@),
        decreases inherited@.len() - k,
    {
        let hop = inherited[k];
        let ghost before = existing@;
        if !lists_node(existing, hop.0) {
            existing.push(hop);
            proof {
                assert(existing@.subrange(0, start.len() as int) =~= before.subrange(0, start.len() as int));
                assert forall|j: int| 0 <= j < k + 1 implies lists_hop(existing@, (#[trigger] inherited@[j]).0 as int) by {
                    if j < k {
                        let i = choose|i: int| 0 <= i < before.len() && (#[trigger] before[i]).0 == inherited@[j].0;
                        assert(existing@[i] == before[i]);
                    } else {
                        assert(existing@[before.len() as int] == hop);
                    }
                }
                assert forall|i: int|
                    start.len() <= i < existing@.len() implies exists|j: int|
                        0 <= j < k + 1 && #[trigger] existing@[i] == inherited@[j] && !lists_hop(start, existing@[i].0 as int) by {
                    if i < before.len() {
                        assert(existing@[i] == before[i]);
                    } else {
                        assert(existing@[i] == inherited@[k as int]);
                        if lists_hop(start, hop.0 as int) {
                            let m = choose|m: int| 0 <= m < start.len() && (#[trigger] start[m]).0 == hop.0;
                            assert(before[m] == start[m]);
                            assert(lists_hop(before, hop.0 as int));
                        }
                    }
                }
                if hops_distinct(start) {
                    assert forall|a: int, b: int| 0 <= a < b < existing@.len() implies (#[trigger] existing@[a]).0 != (#[trigger] existing@[b]).0 by {
                        if b == before.len() {
                            assert(existing@[a] == before[a]);
                        } else {
                            assert(existing@[a] == before[a] && existing@[b] == before[b]);
                        }
                    }
                }
            }
        }
        k = k + 1;
    }
    proof {
        if forall|j: int| 0 <= j < inherited@.len() ==> lists_hop(start, (#[trigger] inherited@[j]).0 as int) {
            if existing@.len() > start.len() {
                let i = start.len() as int;
                let j = choose|j: int| 0 <= j < k && #[trigger] existing@[i] == inherited@[j] && !lists_hop(start, existing@[i].0 as int);
                assert(lists_hop(start, inherited@[j].0 as int));
            }
            assert(existing@ =~= existing@.subrange(0, start.len() as int));
        }
    }
}

/// `n` empty first-hop lists.
pub fn empty_lists(n: usize) -> (lists: Vec<Vec<(usize, usize)>>)
    ensures
        lists@.len() == n,
        forall|v: int| 0 <= v < n ==> (#[trigger] lists@[v])@.len() == 0,
{
    let mut lists: Vec<Vec<(usize, usize)>> = Vec::new();
    let mut i: usize = 0;
    while i < n
        invariant
            i <= n,
            lists@.len() == i,
            forall|v: int| 0 <= v < i ==> (#[trigger] lists@[v])@.len() == 0,
        decreases n - i,
    {
        lists.push(Vec::new());
        i = i + 1;
    }
    lists
}

/// The map from each node with a nonempty list to that list.
pub open spec fn nonempty_lists(lists: Seq<Vec<(usize, usize)>>) -> Map<usize, Vec<(usize, usize)>> {
    Map::new(|k: usize| k < lists.len() && lists[k as int]@.len() > 0, |k: usize| lists[k as int])
}

/// Moves the nonempty lists of a node-indexed vector into a map keyed by node.
pub fn into_list_map(lists: Vec<Vec<(usize, usize)>>) -> (m: HashMap<usize, Vec<(usize, usize)>>)
    ensures
        m@ == nonempty_lists(lists@),
{
    broadcast use vstd::std_specs::hash::group_hash_axioms;

    let ghost all = lists@;
    let mut lists = lists;
    let mut m: HashMap<usize, Vec<(usize, usize)>> = HashMap::new();
    while lists.len() > 0
        invariant
            lists@ == all.subrange(0, lists@.len() as int),
            lists@.len() <= all.len(),
            m@ == Map::new(
                |k: usize| lists@.len() <= k < all.len() && all[k as int]@.len() > 0,
                |k: usize| all[k as int],
            ),
        decreases lists@.len(),
    {
        let k = lists.len() - 1;
        let last = lists.pop();
        match last {
            Some(l) => {
                if l.len() > 0 {
                    m.insert(k, l);
                }
            },
            None => {},
        }
        assert(m@ =~= Map::new(
            |j: usize| lists@.len() <= j < all.len() && all[j as int]@.len() > 0,
            |j: usize| all[j as int],
        ));
    }
    assert(m@ =~= nonempty_lists(all));
    m
}

} // verus!
