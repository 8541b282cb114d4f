//! `MinScored<K, T>` pairs a score with a scored node for the search frontier,
//! ordered in reverse by the score so that the greatest element is the one
//! with the least score.
use core::cmp::Ordering;
use vstd::prelude::*;
use vstd::std_specs::cmp::{PartialEqSpecImpl, PartialOrdSpecImpl};

verus! {

/// A score `K` and a scored object `T` held as a pair.  `MinScored` compares in
/// reverse order by the score alone, so that a max-priority frontier hands
/// out the pair with the least score first.
#[derive(Copy, Clone, Debug)]
pub struct MinScored<K, T>(pub K, pub T);

/// How `MinScored` orders two scores: the lesser score is the greater element.
pub open spec fn reverse_score_order(a: u64, b: u64) -> Ordering {
    if a == b {
        Ordering::Equal
    } else if a < b {
        Ordering::Greater
    } else {
        Ordering::Less
    }
}

impl<T> MinScored<u64, T> {
    /// The total order of `MinScored`: the reverse of the scores' order.
    /// (Integer scores have no NaN, so the order needs no case for it.)
    pub fn cmp(&self, other: &Self) -> (o: Ordering)
        ensures
            o == reverse_score_order(self.0, other.0),
            self.0 < other.0 ==> o == Ordering::Greater,
            self.0 > other.0 ==> o == Ordering::Less,
            self.0 == other.0 ==> o == Ordering::Equal,
    {
        let a = self.0;
        let b = other.0;
        if a == b {
            Ordering::Equal
        } else if a < b {
            Ordering::Greater
        } else {
            Ordering::Less
        }
    }
}

impl<T> PartialEq for MinScored<u64, T> {
    fn eq(&self, other: &Self) -> (r: bool) {
        match self.cmp(other) {
            Ordering::Equal => true,
            _ => false,
        }
    }
}

impl<T> PartialEqSpecImpl for MinScored<u64, T> {
    open spec fn obeys_eq_spec() -> bool {
        true
    }

    open spec fn eq_spec(&self, other: &Self) -> bool {
        self.0 == other.0
    }
}

impl<T> Eq for MinScored<u64, T> {

}

impl<T> PartialOrd for MinScored<u64, T> {
    fn partial_cmp(&self, other: &Self) -> (r: Option<Ordering>) {
        Some(self.cmp(other))
    }
}

impl<T> PartialOrdSpecImpl for MinScored<u64, T> {
    open spec fn obeys_partial_cmp_spec() -> bool {
        true
    }

    open spec fn partial_cmp_spec(&self, other: &Self) -> Option<Ordering> {
        Some(reverse_score_order(self.0, other.0))
    }
}

/// The score at position `i` of a frontier.
pub open spec fn score_at<T>(frontier: Seq<MinScored<u64, T>>, i: usize) -> u64 {
    frontier[i as int].0
}

/// Takes out of the frontier its greatest element under `MinScored`'s order,
/// that is one with the least score (the first such one).
pub fn pop_min<T: Copy>(frontier: &mut Vec<MinScored<u64, T>>) -> (r: Option<MinScored<u64, T>>)
    ensures
        match r {
            None => old(frontier)@.len() == 0 && final(frontier)@ == old(frontier)@,
            Some(m) => exists|i: int|
                {
                    &&& 0 <= i < old(frontier)@.len()
                    &&& old(frontier)@[i] == m
                    &&& final(frontier)@ == old(frontier)@.remove(i)
                    &&& forall|j: int|
                        0 <= j < old(frontier)@.len() ==> m.0 <= (#[trigger] old(frontier)@[j]).0
                    &&& forall|j: int| 0 <= j < i ==> m.0 < (#[trigger] old(frontier)@[j]).0
                },
        },
{
    if frontier.len() == 0 {
        return None;
    }
    let mut best: usize = 0;
    let mut j: usize = 1;
    while j < frontier.len()
        invariant
            0 <= best < j <= frontier@.len(),
            forall|k: int| 0 <= k < j ==> score_at(frontier@, best) <= (#[trigger] frontier@[k]).0,
            forall|k: int| 0 <= k < best ==> score_at(frontier@, best) < (#[trigger] frontier@[k]).0,
        decreases frontier@.len() - j,
    {
        match frontier[j].cmp(&frontier[best]) {
            Ordering::Greater => {
                best = j;
            },
            _ => {},
        }
        j = j + 1;
    }
    let m = frontier.remove(best);
    Some(m)
}

} // verus!
