//! Which lines of a file belong to which of its functions.
//!
//! A function owns the lines from its start up to the next start of any
//! function of the file, or up to the end of the file. Functions that start
//! on the same line own the same lines. Lines that no function owns are
//! orphans: they belong to the file itself.

use crate::ascending::{
    ascending, lemma_ascending, lemma_ascending_unique, line_numbers, lists, strictly_increasing,
};
use crate::input::{function_views, starts_of, Function};
use std::collections::BTreeMap;
use vstd::prelude::*;

verus! {

/// The smallest of `starts` that is greater than `start`, if there is one.
pub open spec fn next_start(starts: Seq<u32>, start: u32) -> Option<u32>
    decreases starts.len(),
{
    if starts.len() == 0 {
        None
    } else {
        let last = starts.last();
        match next_start(starts.drop_last(), start) {
            Some(least) => if start < last && last < least {
                Some(last)
            } else {
                Some(least)
            },
            None => if start < last {
                Some(last)
            } else {
                None
            },
        }
    }
}

/// What `next_start` finds is one of the starts, lies behind `start`, and
/// no start behind `start` is smaller; it finds nothing only where no start
/// lies behind `start`.
pub proof fn lemma_next_start(starts: Seq<u32>, start: u32)
    ensures
        match next_start(starts, start) {
            Some(least) => {
                &&& start < least
                &&& starts.contains(least)
                &&& forall|i: int| 0 <= i < starts.len() && start < starts[i] ==> least <= starts[i]
            },
            None => forall|i: int| 0 <= i < starts.len() ==> starts[i] <= start,
        },
    decreases starts.len(),
{
    if starts.len() > 0 {
        let head = starts.drop_last();
        lemma_next_start(head, start);
        match next_start(head, start) {
            Some(least) => {
                let i = choose|i: int| 0 <= i < head.len() && head[i] == least;
                assert(starts[i] == least);
            },
            None => {},
        }
        match next_start(starts, start) {
            Some(least) => {
                if least == starts.last() {
                    assert(starts[starts.len() - 1] == least);
                }
                assert forall|i: int| 0 <= i < starts.len() && start < starts[i] implies least
                    <= starts[i] by {
                    if i < head.len() {
                        assert(head[i] == starts[i]);
                    }
                }
            },
            None => {
                assert forall|i: int| 0 <= i < starts.len() implies starts[i] <= start by {
                    if i < head.len() {
                        assert(head[i] == starts[i]);
                    }
                }
            },
        }
    }
}

/// The line behind the last line of a file: one more than its largest line
/// number, or zero where it has no lines.
pub open spec fn end_boundary(lines: Set<u32>) -> nat {
    let all = ascending(lines);
    if all.len() == 0 {
        0
    } else {
        (all.last() + 1) as nat
    }
}

/// Where the lines of a function that starts at `start` end: at the next
/// start of a function, or at `end` where none follows.
pub open spec fn function_end(starts: Seq<u32>, start: u32, end: nat) -> nat {
    match next_start(starts, start) {
        Some(least) => least as nat,
        None => end,
    }
}

/// The lines of the file that a function starting at `start` owns.
pub open spec fn claimed(lines: Set<u32>, starts: Seq<u32>, start: u32) -> Set<u32> {
    Set::new(
        |n: u32| lines.contains(n) && start <= n < function_end(starts, start, end_boundary(lines)),
    )
}

/// Whether one of the functions owns line `n`.
pub open spec fn claimed_by_any(lines: Set<u32>, starts: Seq<u32>, n: u32) -> bool {
    exists|i: int| 0 <= i < starts.len() && #[trigger] claimed(lines, starts, starts[i]).contains(n)
}

/// The lines of the file that no function owns.
pub open spec fn orphaned(lines: Set<u32>, starts: Seq<u32>) -> Set<u32> {
    Set::new(|n: u32| lines.contains(n) && !claimed_by_any(lines, starts, n))
}

/// Those of `all` that `keep` holds of, in the order of `all`.
pub open spec fn kept(all: Seq<u32>, keep: spec_fn(u32) -> bool) -> Seq<u32>
    decreases all.len(),
{
    if all.len() == 0 {
        Seq::empty()
    } else if keep(all.last()) {
        kept(all.drop_last(), keep).push(all.last())
    } else {
        kept(all.drop_last(), keep)
    }
}

pub proof fn lemma_kept(all: Seq<u32>, keep: spec_fn(u32) -> bool)
    requires
        strictly_increasing(all),
    ensures
        strictly_increasing(kept(all, keep)),
        forall|x: u32| #[trigger] kept(all, keep).contains(x) ==> all.contains(x) && keep(x),
        forall|x: u32| #[trigger] all.contains(x) && keep(x) ==> kept(all, keep).contains(x),
    decreases all.len(),
{
    let out = kept(all, keep);
    if all.len() > 0 {
        let head = all.drop_last();
        let last = all.last();
        let before = kept(head, keep);
        lemma_kept(head, keep);
        assert forall|x: u32| head.contains(x) implies all.contains(x) && x < last by {
            let k = choose|k: int| 0 <= k < head.len() && head[k] == x;
            assert(all[k] == x);
        }
        assert forall|i: int| 0 <= i < before.len() implies before[i] < last by {
            assert(before.contains(before[i]));
        }
        assert forall|x: u32| #[trigger] out.contains(x) implies all.contains(x) && keep(x) by {
            let i = choose|i: int| 0 <= i < out.len() && out[i] == x;
            if i < before.len() {
                assert(before[i] == x);
                assert(before.contains(x));
            } else {
                assert(all[all.len() - 1] == x);
            }
        }
        assert forall|x: u32| #[trigger] all.contains(x) && keep(x) implies out.contains(x) by {
            let k = choose|k: int| 0 <= k < all.len() && all[k] == x;
            if k < head.len() {
                assert(head[k] == x);
                assert(head.contains(x));
                assert(before.contains(x));
                let i = choose|i: int| 0 <= i < before.len() && before[i] == x;
                assert(out[i] == x);
            } else {
                assert(out[out.len() - 1] == x);
            }
        }
    }
}

/// Those of `all` whose flag is not set, in the order of `all`.
pub open spec fn unflagged(all: Seq<u32>, flags: Seq<bool>) -> Seq<u32>
    recommends
        all.len() == flags.len(),
    decreases all.len(),
{
    if all.len() == 0 {
        Seq::empty()
    } else if flags.last() {
        unflagged(all.drop_last(), flags.drop_last())
    } else {
        unflagged(all.drop_last(), flags.drop_last()).push(all.last())
    }
}

pub proof fn lemma_unflagged_kept(all: Seq<u32>, flags: Seq<bool>, keep: spec_fn(u32) -> bool)
    requires
        all.len() == flags.len(),
        forall|j: int| 0 <= j < all.len() ==> (keep(#[trigger] all[j]) <==> !flags[j]),
    ensures
        unflagged(all, flags) == kept(all, keep),
    decreases all.len(),
{
    if all.len() > 0 {
        let head = all.drop_last();
        assert forall|j: int| 0 <= j < head.len() implies (keep(#[trigger] head[j])
            <==> !flags.drop_last()[j]) by {
            assert(head[j] == all[j]);
        }
        lemma_unflagged_kept(head, flags.drop_last(), keep);
        assert(keep(all[all.len() - 1]) <==> !flags[all.len() - 1]);
    }
}

/// The lines of a file shared out among its functions.
#[derive(Debug, Clone, PartialEq, Eq)]
pub struct Attribution {
    /// For each function, in their order, the lines it owns, ascending.
    pub methods: Vec<Vec<u32>>,
    /// The lines that no function owns, ascending.
    pub orphans: Vec<u32>,
}

impl Attribution {
    /// Whether this is how the lines are shared out among functions that
    /// start at `starts`.
    pub open spec fn shares(self, lines: Set<u32>, starts: Seq<u32>) -> bool {
        &&& self.methods@.len() == starts.len()
        &&& forall|i: int|
            0 <= i < starts.len() ==> (#[trigger] self.methods@[i])@ == ascending(
                claimed(lines, starts, starts[i]),
            )
        &&& self.orphans@ == ascending(orphaned(lines, starts))
    }
}

/// Collects the starts of the functions.
pub fn function_starts(functions: &Vec<(String, Function)>) -> (starts: Vec<u32>)
    ensures
        starts@ == starts_of(function_views(functions@)),
{
    let mut starts: Vec<u32> = Vec::new();
    let mut i: usize = 0;
    while i < functions.len()
        invariant
            i <= functions.len(),
            starts@ == starts_of(function_views(functions@.take(i as int))),
        decreases functions.len() - i,
    {
        starts.push(functions[i].1.start);
        i = i + 1;
        assert(starts@ =~= starts_of(function_views(functions@.take(i as int))));
    }
    assert(functions@.take(i as int) =~= functions@);
    starts
}

/// The end of the file: one more than the last of its line numbers.
pub fn file_end(all_lines: &Vec<u32>) -> (end: u64)
    ensures
        end == if all_lines@.len() == 0 {
            0
        } else {
            all_lines@.last() + 1
        },
{
    if all_lines.len() == 0 {
        0
    } else {
        all_lines[all_lines.len() - 1] as u64 + 1
    }
}

/// Finds where the lines of a function that starts at `start` end.
pub fn find_function_end(starts: &Vec<u32>, start: u32, end: u64) -> (func_end: u64)
    ensures
        func_end == function_end(starts@, start, end as nat),
{
    let mut least: Option<u32> = None;
    let mut i: usize = 0;
    while i < starts.len()
        invariant
            i <= starts.len(),
            least == next_start(starts@.take(i as int), start),
        decreases starts.len() - i,
    {
        assert(starts@.take(i + 1).drop_last() =~= starts@.take(i as int));
        let candidate = starts[i];
        if candidate > start {
            least = match least {
                Some(l) => if candidate < l {
                    Some(candidate)
                } else {
                    Some(l)
                },
                None => Some(candidate),
            };
        }
        i = i + 1;
    }
    assert(starts@.take(i as int) =~= starts@);
    match least {
        Some(l) => l as u64,
        None => end,
    }
}

/// The test whether a line lies from `start` up to, and not at, `func_end`.
pub open spec fn range_test(start: u32, func_end: nat) -> spec_fn(u32) -> bool {
    |n: u32| start <= n < func_end
}

/// Picks the lines from `start` up to `func_end` out of all lines of the
/// file, and marks each of them as claimed.
pub fn lines_in_function(
    all_lines: &Vec<u32>,
    start: u32,
    func_end: u64,
    claimed: &mut Vec<bool>,
) -> (lines: Vec<u32>)
    requires
        old(claimed)@.len() == all_lines@.len(),
    ensures
        lines@ == kept(all_lines@, range_test(start, func_end as nat)),
        final(claimed)@.len() == all_lines@.len(),
        forall|j: int|
            0 <= j < all_lines@.len() ==> (#[trigger] final(claimed)@[j] <==> old(claimed)@[j]
                || range_test(start, func_end as nat)(all_lines@[j])),
{
    let ghost keep = range_test(start, func_end as nat);
    let mut lines: Vec<u32> = Vec::new();
    let mut j: usize = 0;
    while j < all_lines.len()
        invariant
            j <= all_lines.len(),
            claimed@.len() == all_lines@.len(),
            keep == range_test(start, func_end as nat),
            lines@ == kept(all_lines@.take(j as int), keep),
            forall|k: int|
                0 <= k < j ==> (#[trigger] claimed@[k] <==> old(claimed)@[k] || keep(
                    all_lines@[k],
                )),
            forall|k: int| j <= k < all_lines@.len() ==> claimed@[k] == old(claimed)@[k],
        decreases all_lines.len() - j,
    {
        assert(all_lines@.take(j + 1).drop_last() =~= all_lines@.take(j as int));
        let line = all_lines[j];
        if line >= start && (line as u64) < func_end {
            lines.push(line);
            claimed.set(j, true);
        }
        j = j + 1;
    }
    assert(all_lines@.take(j as int) =~= all_lines@);
    lines
}

/// The lines that were not marked as claimed.
pub fn unclaimed_lines(all_lines: &Vec<u32>, claimed: &Vec<bool>) -> (lines: Vec<u32>)
    requires
        claimed@.len() == all_lines@.len(),
    ensures
        lines@ == unflagged(all_lines@, claimed@),
{
    let mut lines: Vec<u32> = Vec::new();
    let mut j: usize = 0;
    while j < all_lines.len()
        invariant
            j <= all_lines.len(),
            claimed@.len() == all_lines@.len(),
            lines@ == unflagged(all_lines@.take(j as int), claimed@.take(j as int)),
        decreases all_lines.len() - j,
    {
        assert(all_lines@.take(j + 1).drop_last() =~= all_lines@.take(j as int));
        assert(claimed@.take(j + 1).drop_last() =~= claimed@.take(j as int));
        if !claimed[j] {
            lines.push(all_lines[j]);
        }
        j = j + 1;
    }
    assert(all_lines@.take(j as int) =~= all_lines@);
    assert(claimed@.take(j as int) =~= claimed@);
    lines
}

/// Shares the lines of a file out among its functions.
pub fn attribute(lines: &BTreeMap<u32, u64>, functions: &Vec<(String, Function)>) -> (shared:
    Attribution)
    ensures
        shared.shares(lines@.dom(), starts_of(function_views(functions@))),
{
    let ghost dom = lines@.dom();
    let all_lines = line_numbers(lines);
    let end = file_end(&all_lines);
    let starts = function_starts(functions);
    proof {
        lemma_ascending(dom);
    }

    let mut claimed_flags: Vec<bool> = Vec::new();
    let mut j: usize = 0;
    while j < all_lines.len()
        invariant
            j <= all_lines.len(),
            claimed_flags@.len() == j,
            forall|k: int| 0 <= k < j ==> !claimed_flags@[k],
        decreases all_lines.len() - j,
    {
        claimed_flags.push(false);
        j = j + 1;
    }

    let mut methods: Vec<Vec<u32>> = Vec::new();
    let mut i: usize = 0;
    while i < starts.len()
        invariant
            i <= starts.len(),
            all_lines@ == ascending(dom),
            strictly_increasing(all_lines@),
            lists(all_lines@, dom),
            end == end_boundary(dom),
            claimed_flags@.len() == all_lines@.len(),
            methods@.len() == i,
            forall|m: int|
                0 <= m < i ==> (#[trigger] methods@[m])@ == ascending(
                    claimed(dom, starts@, starts@[m]),
                ),
            forall|k: int|
                0 <= k < all_lines@.len() ==> (#[trigger] claimed_flags@[k] <==> exists|m: int|
                    0 <= m < i && #[trigger] claimed(dom, starts@, starts@[m]).contains(
                        all_lines@[k],
                    )),
        decreases starts.len() - i,
    {
        let start = starts[i];
        let func_end = find_function_end(&starts, start, end);
        let ghost before = claimed_flags@;
        let own = lines_in_function(&all_lines, start, func_end, &mut claimed_flags);
        proof {
            let keep = range_test(start, func_end as nat);
            let set = claimed(dom, starts@, start);
            lemma_kept(all_lines@, keep);
            assert forall|x: u32| own@.contains(x) <==> set.contains(x) by {
                assert(keep(x) == range_test(start, func_end as nat)(x));
            }
            lemma_ascending_unique(own@, set);
            assert forall|k: int| 0 <= k < all_lines@.len() implies (
            #[trigger] claimed_flags@[k] <==> exists|m: int|
                0 <= m < i + 1 && #[trigger] claimed(dom, starts@, starts@[m]).contains(
                    all_lines@[k],
                )) by {
                assert(all_lines@.contains(all_lines@[k]));
                assert(set.contains(all_lines@[k]) <==> keep(all_lines@[k]));
                assert(claimed_flags@[k] <==> before[k] || keep(all_lines@[k]));
                if claimed_flags@[k] {
                    if before[k] {
                        let m = choose|m: int|
                            0 <= m < i && #[trigger] claimed(dom, starts@, starts@[m]).contains(
                                all_lines@[k],
                            );
                        assert(0 <= m < i + 1);
                    } else {
                        assert(claimed(dom, starts@, starts@[i as int]).contains(all_lines@[k]));
                    }
                }
            }
        }
        methods.push(own);
        i = i + 1;
    }

    let orphans = unclaimed_lines(&all_lines, &claimed_flags);
    proof {
        let keep = |n: u32| !claimed_by_any(dom, starts@, n);
        let set = orphaned(dom, starts@);
        assert forall|k: int| 0 <= k < all_lines@.len() implies (keep(#[trigger] all_lines@[k])
            <==> !claimed_flags@[k]) by {
            assert(keep(all_lines@[k]) == !claimed_by_any(dom, starts@, all_lines@[k]));
        }
        lemma_unflagged_kept(all_lines@, claimed_flags@, keep);
        lemma_kept(all_lines@, keep);
        assert forall|x: u32| orphans@.contains(x) <==> set.contains(x) by {
            assert(keep(x) == !claimed_by_any(dom, starts@, x));
        }
        lemma_ascending_unique(orphans@, set);
    }
    Attribution { methods, orphans }
}

/// Functions that start on different lines own no line in common.
pub proof fn lemma_claims_disjoint(lines: Set<u32>, starts: Seq<u32>, i: int, j: int, n: u32)
    requires
        0 <= i < starts.len(),
        0 <= j < starts.len(),
        starts[i] != starts[j],
    ensures
        !(claimed(lines, starts, starts[i]).contains(n) && claimed(
            lines,
            starts,
            starts[j],
        ).contains(n)),
{
    lemma_next_start(starts, starts[i]);
    lemma_next_start(starts, starts[j]);
}

/// Every line of the file stands in the list of each function that owns
/// it, or in the list of orphans where no function owns it, and nowhere
/// else; it stands once in each such list; two functions have a line in
/// common only where they start on the same line, and then they have all
/// their lines in common.
pub proof fn lemma_attribution_partitions(shared: Attribution, lines: Set<u32>, starts: Seq<u32>)
    requires
        shared.shares(lines, starts),
    ensures
        shared.orphans@.no_duplicates(),
        forall|i: int| 0 <= i < starts.len() ==> (#[trigger] shared.methods@[i])@.no_duplicates(),
        forall|n: u32|
            lines.contains(n) ==> (#[trigger] shared.orphans@.contains(n) <==> forall|i: int|
                0 <= i < starts.len() ==> !(#[trigger] shared.methods@[i])@.contains(n)),
        forall|n: u32| #[trigger] shared.orphans@.contains(n) ==> lines.contains(n),
        forall|i: int, n: u32|
            0 <= i < starts.len() && (#[trigger] shared.methods@[i])@.contains(n)
                ==> #[trigger] lines.contains(n),
        forall|i: int, j: int, n: u32|
            #![trigger shared.methods@[i]@.contains(n), shared.methods@[j]@.contains(n)]
            0 <= i < starts.len() && 0 <= j < starts.len() && shared.methods@[i]@.contains(n)
                && shared.methods@[j]@.contains(n) ==> starts[i] == starts[j],
        forall|i: int, j: int|
            0 <= i < starts.len() && 0 <= j < starts.len() && starts[i] == starts[j] ==> (
            #[trigger] shared.methods@[i])@ == (#[trigger] shared.methods@[j])@,
{
    lemma_ascending(orphaned(lines, starts));
    assert forall|i: int| 0 <= i < starts.len() implies (#[trigger] shared.methods@[i])@.no_duplicates()
        && lists(shared.methods@[i]@, claimed(lines, starts, starts[i])) by {
        lemma_ascending(claimed(lines, starts, starts[i]));
    }
    assert forall|n: u32| lines.contains(n) implies (#[trigger] shared.orphans@.contains(n)
        <==> forall|i: int|
        0 <= i < starts.len() ==> !(#[trigger] shared.methods@[i])@.contains(n)) by {
        if shared.orphans@.contains(n) {
            assert(orphaned(lines, starts).contains(n));
            assert forall|i: int| 0 <= i < starts.len() implies !(
            #[trigger] shared.methods@[i])@.contains(n) by {
                assert(lists(shared.methods@[i]@, claimed(lines, starts, starts[i])));
                assert(!claimed(lines, starts, starts[i]).contains(n));
            }
        } else {
            assert(!orphaned(lines, starts).contains(n));
            let i = choose|i: int|
                0 <= i < starts.len() && #[trigger] claimed(lines, starts, starts[i]).contains(n);
            assert(lists(shared.methods@[i]@, claimed(lines, starts, starts[i])));
            assert(shared.methods@[i]@.contains(n));
        }
    }
    assert forall|i: int, n: u32|
        0 <= i < starts.len() && (#[trigger] shared.methods@[i])@.contains(n) implies #[trigger] lines.contains(
        n,
    ) by {
        assert(lists(shared.methods@[i]@, claimed(lines, starts, starts[i])));
    }
    assert forall|i: int, j: int, n: u32|
        #![trigger shared.methods@[i]@.contains(n), shared.methods@[j]@.contains(n)]
        0 <= i < starts.len() && 0 <= j < starts.len() && shared.methods@[i]@.contains(n)
            && shared.methods@[j]@.contains(n) implies starts[i] == starts[j] by {
        assert(lists(shared.methods@[i]@, claimed(lines, starts, starts[i])));
        assert(lists(shared.methods@[j]@, claimed(lines, starts, starts[j])));
        if starts[i] != starts[j] {
            lemma_claims_disjoint(lines, starts, i, j, n);
        }
    }
}

} // verus!
