//! Sets of line numbers listed in ascending order.

use std::collections::BTreeMap;
use vstd::laws_cmp::group_laws_cmp;
use vstd::prelude::*;
use vstd::std_specs::btree::{axiom_increasing_seq_meaning, group_btree_axioms, spec_keys_iter};
use vstd::std_specs::cmp::OrdSpec;
use vstd::std_specs::iter::IteratorSpec;

verus! {

/// One more than the largest line number.
pub const LINE_LIMIT: u64 = 0x1_0000_0000;

pub open spec fn strictly_increasing(s: Seq<u32>) -> bool {
    forall|i: int, j: int| 0 <= i < j < s.len() ==> s[i] < s[j]
}

/// The members of `set` below `bound`, smallest first.
pub open spec fn ascending_below(set: Set<u32>, bound: nat) -> Seq<u32>
    decreases bound,
{
    if bound == 0 {
        Seq::empty()
    } else {
        let below = ascending_below(set, (bound - 1) as nat);
        if set.contains((bound - 1) as u32) {
            below.push((bound - 1) as u32)
        } else {
            below
        }
    }
}

/// The members of `set`, smallest first.
pub open spec fn ascending(set: Set<u32>) -> Seq<u32> {
    ascending_below(set, LINE_LIMIT as nat)
}

/// Whether `s` holds exactly the members of `set` below `bound`.
pub open spec fn lists_below(s: Seq<u32>, set: Set<u32>, bound: nat) -> bool {
    forall|x: u32| s.contains(x) <==> set.contains(x) && x < bound
}

/// Whether `s` holds exactly the members of `set`.
pub open spec fn lists(s: Seq<u32>, set: Set<u32>) -> bool {
    forall|x: u32| s.contains(x) <==> set.contains(x)
}

pub proof fn lemma_ascending_below(set: Set<u32>, bound: nat)
    requires
        bound <= LINE_LIMIT,
    ensures
        strictly_increasing(ascending_below(set, bound)),
        lists_below(ascending_below(set, bound), set, bound),
    decreases bound,
{
    let s = ascending_below(set, bound);
    if bound > 0 {
        let below = ascending_below(set, (bound - 1) as nat);
        let top = (bound - 1) as u32;
        lemma_ascending_below(set, (bound - 1) as nat);
        assert forall|i: int| 0 <= i < below.len() implies below[i] < top by {
            assert(below.contains(below[i]));
        }
        assert forall|x: u32| s.contains(x) <==> set.contains(x) && x < bound by {
            if s.contains(x) {
                let i = choose|i: int| 0 <= i < s.len() && s[i] == x;
                if i < below.len() {
                    assert(below.contains(x));
                }
            }
            if set.contains(x) && x < bound {
                if x == top {
                    assert(s[s.len() - 1] == x);
                } else {
                    assert(below.contains(x));
                    let i = choose|i: int| 0 <= i < below.len() && below[i] == x;
                    assert(s[i] == x);
                }
            }
        }
    }
}

/// The ascending listing holds each member of the set once, in order.
pub proof fn lemma_ascending(set: Set<u32>)
    ensures
        strictly_increasing(ascending(set)),
        lists(ascending(set), set),
        ascending(set).no_duplicates(),
{
    lemma_ascending_below(set, LINE_LIMIT as nat);
}

pub proof fn lemma_ascending_below_unique(s: Seq<u32>, set: Set<u32>, bound: nat)
    requires
        bound <= LINE_LIMIT,
        strictly_increasing(s),
        lists_below(s, set, bound),
    ensures
        s == ascending_below(set, bound),
    decreases bound,
{
    if bound == 0 {
        if s.len() > 0 {
            assert(s.contains(s[0]));
        }
        assert(s =~= Seq::<u32>::empty());
    } else {
        let top = (bound - 1) as u32;
        if set.contains(top) {
            assert(s.contains(top));
            let k = choose|k: int| 0 <= k < s.len() && s[k] == top;
            if k < s.len() - 1 {
                assert(s.contains(s[s.len() - 1]));
            }
            let head = s.drop_last();
            assert forall|x: u32| head.contains(x) <==> set.contains(x) && x < bound - 1 by {
                if head.contains(x) {
                    let i = choose|i: int| 0 <= i < head.len() && head[i] == x;
                    assert(s[i] == x);
                    assert(s.contains(x));
                }
                if set.contains(x) && x < bound - 1 {
                    assert(s.contains(x));
                    let i = choose|i: int| 0 <= i < s.len() && s[i] == x;
                    assert(head[i] == x);
                }
            }
            lemma_ascending_below_unique(head, set, (bound - 1) as nat);
            assert(s =~= head.push(top));
        } else {
            assert forall|x: u32| s.contains(x) <==> set.contains(x) && x < bound - 1 by {}
            lemma_ascending_below_unique(s, set, (bound - 1) as nat);
        }
    }
}

/// A strictly increasing sequence that holds exactly the members of a set
/// is the ascending listing of that set.
pub proof fn lemma_ascending_unique(s: Seq<u32>, set: Set<u32>)
    requires
        strictly_increasing(s),
        lists(s, set),
    ensures
        s == ascending(set),
{
    lemma_ascending_below_unique(s, set, LINE_LIMIT as nat);
}

/// The line numbers that the map has an entry for, smallest first.
pub fn line_numbers(lines: &BTreeMap<u32, u64>) -> (numbers: Vec<u32>)
    ensures
        numbers@ == ascending(lines@.dom()),
{
    broadcast use group_btree_axioms;
    broadcast use group_laws_cmp;

    let mut numbers: Vec<u32> = Vec::new();
    let keys = lines.keys();
    let ghost listed = keys.remaining();
    assert(keys == spec_keys_iter(lines));
    for key in it: keys
        invariant
            it.seq() == listed,
            numbers@.len() == it.index(),
            forall|i: int| 0 <= i < numbers@.len() ==> numbers@[i] == *listed[i],
    {
        numbers.push(*key);
    }
    proof {
        assert(numbers@ =~= listed.unref());
        axiom_increasing_seq_meaning::<&u32>(listed);
        assert forall|i: int, j: int| 0 <= i < j < numbers@.len() implies numbers@[i]
            < numbers@[j] by {
            assert(OrdSpec::cmp_spec(&listed[i], &listed[j]) is Less);
        }
        assert forall|x: u32| numbers@.contains(x) <==> lines@.dom().contains(x) by {
            assert(numbers@.to_set().contains(x) <==> numbers@.contains(x));
        }
        lemma_ascending_unique(numbers@, lines@.dom());
    }
    numbers
}

} // verus!
