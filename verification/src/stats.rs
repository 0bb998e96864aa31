//! Line and branch counts of a set of lines, and the rates they give.

use crate::tree::{line_views, Condition, Line, LineView};
use vstd::prelude::*;

verus! {

/// How many of the lines were hit at least once.
pub open spec fn covered_lines(leaves: Seq<LineView>) -> nat
    decreases leaves.len(),
{
    if leaves.len() == 0 {
        0
    } else {
        covered_lines(leaves.drop_last()) + if leaves.last().covered() {
            1nat
        } else {
            0nat
        }
    }
}

/// How many of the conditions were taken.
pub open spec fn taken_conditions(conditions: Seq<Condition>) -> nat
    decreases conditions.len(),
{
    if conditions.len() == 0 {
        0
    } else {
        taken_conditions(conditions.drop_last()) + if conditions.last().covered {
            1nat
        } else {
            0nat
        }
    }
}

/// The number of conditions of all the lines together.
pub open spec fn total_conditions(leaves: Seq<LineView>) -> nat
    decreases leaves.len(),
{
    if leaves.len() == 0 {
        0
    } else {
        total_conditions(leaves.drop_last()) + leaves.last().conditions().len()
    }
}

/// The number of taken conditions of all the lines together.
pub open spec fn covered_conditions(leaves: Seq<LineView>) -> nat
    decreases leaves.len(),
{
    if leaves.len() == 0 {
        0
    } else {
        covered_conditions(leaves.drop_last()) + taken_conditions(leaves.last().conditions())
    }
}

/// Whether the counts of the lines fit the integers that hold them.
pub open spec fn countable(leaves: Seq<LineView>) -> bool {
    leaves.len() <= u64::MAX && total_conditions(leaves) <= u64::MAX
}

pub proof fn lemma_taken_at_most_all(conditions: Seq<Condition>)
    ensures
        taken_conditions(conditions) <= conditions.len(),
    decreases conditions.len(),
{
    if conditions.len() > 0 {
        lemma_taken_at_most_all(conditions.drop_last());
    }
}

/// No more lines are covered than there are, and no more conditions taken
/// than there are.
pub proof fn lemma_covered_at_most_valid(leaves: Seq<LineView>)
    ensures
        covered_lines(leaves) <= leaves.len(),
        covered_conditions(leaves) <= total_conditions(leaves),
    decreases leaves.len(),
{
    if leaves.len() > 0 {
        lemma_covered_at_most_valid(leaves.drop_last());
        lemma_taken_at_most_all(leaves.last().conditions());
    }
}

/// The counts of two runs of lines add up to the counts of the runs joined.
pub proof fn lemma_counts_concat(a: Seq<LineView>, b: Seq<LineView>)
    ensures
        covered_lines(a + b) == covered_lines(a) + covered_lines(b),
        total_conditions(a + b) == total_conditions(a) + total_conditions(b),
        covered_conditions(a + b) == covered_conditions(a) + covered_conditions(b),
    decreases b.len(),
{
    if b.len() == 0 {
        assert(a + b =~= a);
    } else {
        lemma_counts_concat(a, b.drop_last());
        assert((a + b).drop_last() =~= a + b.drop_last());
        assert((a + b).last() == b.last());
    }
}

/// The lines but the one at position `k`.
pub open spec fn without(leaves: Seq<LineView>, k: int) -> Seq<LineView> {
    leaves.take(k) + leaves.skip(k + 1)
}

/// The counts of lines are those of the lines but one, and of that one.
pub proof fn lemma_counts_without(leaves: Seq<LineView>, k: int)
    requires
        0 <= k < leaves.len(),
    ensures
        covered_lines(leaves) == covered_lines(without(leaves, k)) + covered_lines(seq![leaves[k]]),
        total_conditions(leaves) == total_conditions(without(leaves, k)) + total_conditions(
            seq![leaves[k]],
        ),
        covered_conditions(leaves) == covered_conditions(without(leaves, k)) + covered_conditions(
            seq![leaves[k]],
        ),
{
    let before = leaves.take(k);
    let one = seq![leaves[k]];
    let after = leaves.skip(k + 1);
    lemma_counts_concat(before, one);
    lemma_counts_concat(before + one, after);
    lemma_counts_concat(before, after);
    assert(before + one + after =~= leaves);
}

/// Whether no two of the lines have the same number.
pub open spec fn distinct_numbers(leaves: Seq<LineView>) -> bool {
    forall|i: int, j: int|
        0 <= i < j < leaves.len() ==> (#[trigger] leaves[i]).number() != (
        #[trigger] leaves[j]).number()
}

/// Lines with distinct numbers give the same counts in whatever order they
/// stand: where two runs of such lines hold the same lines, they are of the
/// same length and have the same counts.
pub proof fn lemma_counts_rearranged(a: Seq<LineView>, b: Seq<LineView>)
    requires
        distinct_numbers(a),
        distinct_numbers(b),
        forall|i: int| 0 <= i < a.len() ==> b.contains(#[trigger] a[i]),
        forall|j: int| 0 <= j < b.len() ==> a.contains(#[trigger] b[j]),
    ensures
        a.len() == b.len(),
        covered_lines(a) == covered_lines(b),
        total_conditions(a) == total_conditions(b),
        covered_conditions(a) == covered_conditions(b),
    decreases a.len(),
{
    if a.len() == 0 {
        if b.len() > 0 {
            assert(a.contains(b[0]));
        }
        assert(b =~= Seq::<LineView>::empty());
    } else {
        let x = a.last();
        let head = a.drop_last();
        assert(b.contains(a[a.len() - 1]));
        let k = choose|k: int| 0 <= k < b.len() && b[k] == x;
        let rest = without(b, k);
        assert forall|j: int| 0 <= j < rest.len() implies rest[j] == b[if j < k {
            j
        } else {
            j + 1
        }] by {}
        assert(distinct_numbers(rest)) by {
            assert forall|i: int, j: int| 0 <= i < j < rest.len() implies (
            #[trigger] rest[i]).number() != (#[trigger] rest[j]).number() by {
                let bi = if i < k { i } else { i + 1 };
                let bj = if j < k { j } else { j + 1 };
                assert(rest[i] == b[bi] && rest[j] == b[bj]);
            }
        }
        assert forall|i: int| 0 <= i < head.len() implies rest.contains(#[trigger] head[i]) by {
            assert(head[i] == a[i]);
            assert(b.contains(a[i]));
            let j = choose|j: int| 0 <= j < b.len() && b[j] == a[i];
            assert(a[i].number() != a[a.len() - 1].number());
            if j < k {
                assert(rest[j] == a[i]);
            } else {
                assert(j > k);
                assert(rest[j - 1] == a[i]);
            }
        }
        assert forall|j: int| 0 <= j < rest.len() implies head.contains(#[trigger] rest[j]) by {
            let bj = if j < k { j } else { j + 1 };
            assert(rest[j] == b[bj]);
            assert(a.contains(b[bj]));
            let i = choose|i: int| 0 <= i < a.len() && a[i] == b[bj];
            if bj < k {
                assert(b[bj].number() != b[k].number());
            } else {
                assert(b[k].number() != b[bj].number());
            }
            assert(head[i] == rest[j]);
        }
        lemma_counts_rearranged(head, rest);
        lemma_counts_without(b, k);
        let one = seq![x];
        assert(one.drop_last() =~= Seq::<LineView>::empty());
        assert(one.last() == x);
        assert(covered_lines(one.drop_last()) == 0);
        assert(total_conditions(one.drop_last()) == 0);
        assert(covered_conditions(one.drop_last()) == 0);
    }
}

/// The counts of a run of lines joined to another fit exactly when the
/// counts of both fit and their sums fit, and are then the sums.
pub proof fn lemma_counted_concat(a: Seq<LineView>, b: Seq<LineView>)
    ensures
        countable(a + b) ==> countable(a) && countable(b),
        countable(a + b) <==> countable(a) && countable(b) && a.len() + b.len() <= u64::MAX
            && total_conditions(a) + total_conditions(b) <= u64::MAX,
        countable(a + b) ==> {
            &&& stats_of(a + b).lines_valid == stats_of(a).lines_valid + stats_of(b).lines_valid
            &&& stats_of(a + b).lines_covered == stats_of(a).lines_covered + stats_of(
                b,
            ).lines_covered
            &&& stats_of(a + b).branches_valid == stats_of(a).branches_valid + stats_of(
                b,
            ).branches_valid
            &&& stats_of(a + b).branches_covered == stats_of(a).branches_covered + stats_of(
                b,
            ).branches_covered
        },
{
    lemma_counts_concat(a, b);
    lemma_covered_at_most_valid(a);
    lemma_covered_at_most_valid(b);
    lemma_covered_at_most_valid(a + b);
}

/// A ratio of two counts. The rates that are made here have a denominator
/// that is not zero.
#[derive(Debug, Clone, Copy, PartialEq, Eq)]
pub struct Rate {
    pub numerator: u64,
    pub denominator: u64,
}

/// The rate of `covered` among `valid`; zero where nothing is valid.
pub open spec fn rate_of(covered: u64, valid: u64) -> Rate {
    if valid > 0 {
        Rate { numerator: covered, denominator: valid }
    } else {
        Rate { numerator: 0, denominator: 1 }
    }
}

/// The aggregate counts of a subtree of the report.
#[derive(Debug, Clone, Copy, PartialEq, Eq)]
pub struct CoverageStats {
    pub lines_covered: u64,
    pub lines_valid: u64,
    pub branches_covered: u64,
    pub branches_valid: u64,
    pub complexity: u64,
}

/// The counts of the given lines. Complexity is not computed: it is zero.
pub open spec fn stats_of(leaves: Seq<LineView>) -> CoverageStats
    recommends
        countable(leaves),
{
    CoverageStats {
        lines_covered: covered_lines(leaves) as u64,
        lines_valid: leaves.len() as u64,
        branches_covered: covered_conditions(leaves) as u64,
        branches_valid: total_conditions(leaves) as u64,
        complexity: 0,
    }
}

/// What a computation of the counts of `leaves` returns: the counts where
/// they fit, nothing where they do not.
pub open spec fn counted(leaves: Seq<LineView>) -> Option<CoverageStats> {
    if countable(leaves) {
        Some(stats_of(leaves))
    } else {
        None
    }
}

fn count_taken(conditions: &Vec<Condition>) -> (taken: usize)
    ensures
        taken == taken_conditions(conditions@),
{
    let mut taken: usize = 0;
    let mut i: usize = 0;
    while i < conditions.len()
        invariant
            i <= conditions.len(),
            taken == taken_conditions(conditions@.take(i as int)),
            taken <= i,
        decreases conditions.len() - i,
    {
        assert(conditions@.take(i + 1).drop_last() =~= conditions@.take(i as int));
        if conditions[i].covered {
            taken = taken + 1;
        }
        i = i + 1;
    }
    assert(conditions@.take(i as int) =~= conditions@);
    taken
}

impl CoverageStats {
    /// The counts of no lines at all.
    pub fn empty() -> (stats: CoverageStats)
        ensures
            stats == stats_of(Seq::empty()),
    {
        CoverageStats {
            lines_covered: 0,
            lines_valid: 0,
            branches_covered: 0,
            branches_valid: 0,
            complexity: 0,
        }
    }

    /// Counts the lines given: how many there are, how many were hit, how
    /// many conditions they hold and how many of those were taken.
    pub fn from_lines(lines: &Vec<Line>) -> (stats: Option<CoverageStats>)
        ensures
            stats == counted(line_views(lines@)),
    {
        let ghost leaves = line_views(lines@);
        let mut lines_covered: u64 = 0;
        let mut branches_covered: u64 = 0;
        let mut branches_valid: u64 = 0;
        let mut i: usize = 0;
        while i < lines.len()
            invariant
                i <= lines.len(),
                leaves == line_views(lines@),
                lines_covered == covered_lines(leaves.take(i as int)),
                branches_covered == covered_conditions(leaves.take(i as int)),
                branches_valid == total_conditions(leaves.take(i as int)),
            decreases lines.len() - i,
        {
            proof {
                assert(leaves.take(i + 1).drop_last() =~= leaves.take(i as int));
                assert(leaves.take(i + 1).last() == lines@[i as int]@);
                lemma_covered_at_most_valid(leaves.take(i + 1));
                lemma_counts_concat(leaves.take(i + 1), leaves.skip(i + 1));
                assert(leaves.take(i + 1) + leaves.skip(i + 1) =~= leaves);
            }
            if lines[i].covered() {
                lines_covered = lines_covered + 1;
            }
            match &lines[i] {
                Line::Plain { .. } => {},
                Line::Branch { conditions, .. } => {
                    let taken = count_taken(conditions);
                    proof {
                        lemma_taken_at_most_all(conditions@);
                    }
                    match branches_valid.checked_add(conditions.len() as u64) {
                        Some(sum) => {
                            branches_valid = sum;
                            branches_covered = branches_covered + taken as u64;
                        },
                        None => {
                            return None;
                        },
                    }
                },
            }
            i = i + 1;
        }
        assert(leaves.take(i as int) =~= leaves);
        Some(
            CoverageStats {
                lines_covered,
                lines_valid: lines.len() as u64,
                branches_covered,
                branches_valid,
                complexity: 0,
            },
        )
    }

    /// The counts of two sets of lines taken together.
    pub fn combine(self, other: CoverageStats) -> (sum: Option<CoverageStats>)
        ensures
            sum is Some <==> self.lines_valid + other.lines_valid <= u64::MAX
                && self.lines_covered + other.lines_covered <= u64::MAX
                && self.branches_valid + other.branches_valid <= u64::MAX
                && self.branches_covered + other.branches_covered <= u64::MAX,
            sum matches Some(s) ==> s.lines_valid == self.lines_valid + other.lines_valid
                && s.lines_covered == self.lines_covered + other.lines_covered
                && s.branches_valid == self.branches_valid + other.branches_valid
                && s.branches_covered == self.branches_covered + other.branches_covered
                && s.complexity == 0,
    {
        let lines_valid = self.lines_valid.checked_add(other.lines_valid);
        let lines_covered = self.lines_covered.checked_add(other.lines_covered);
        let branches_valid = self.branches_valid.checked_add(other.branches_valid);
        let branches_covered = self.branches_covered.checked_add(other.branches_covered);
        match (lines_valid, lines_covered, branches_valid, branches_covered) {
            (Some(lv), Some(lc), Some(bv), Some(bc)) => Some(
                CoverageStats {
                    lines_covered: lc,
                    lines_valid: lv,
                    branches_covered: bc,
                    branches_valid: bv,
                    complexity: 0,
                },
            ),
            _ => None,
        }
    }

    /// Covered lines among valid lines; zero where no line is valid.
    pub fn line_rate(&self) -> (rate: Rate)
        ensures
            rate == rate_of(self.lines_covered, self.lines_valid),
            rate.denominator > 0,
            self.lines_valid == 0 ==> rate.numerator == 0,
    {
        if self.lines_valid > 0 {
            Rate { numerator: self.lines_covered, denominator: self.lines_valid }
        } else {
            Rate { numerator: 0, denominator: 1 }
        }
    }

    /// Taken conditions among all conditions; zero where there is none.
    pub fn branch_rate(&self) -> (rate: Rate)
        ensures
            rate == rate_of(self.branches_covered, self.branches_valid),
            rate.denominator > 0,
            self.branches_valid == 0 ==> rate.numerator == 0,
    {
        if self.branches_valid > 0 {
            Rate { numerator: self.branches_covered, denominator: self.branches_valid }
        } else {
            Rate { numerator: 0, denominator: 1 }
        }
    }
}

/// The counts of a subtree are a function of its lines: two computations
/// over the same lines give the same counts, however often they are made.
pub proof fn lemma_counts_repeat(
    leaves: Seq<LineView>,
    first: Option<CoverageStats>,
    second: Option<CoverageStats>,
)
    requires
        first == counted(leaves),
        second == counted(leaves),
    ensures
        first == second,
        first matches Some(stats) ==> rate_of(stats.lines_covered, stats.lines_valid) == rate_of(
            second->0.lines_covered,
            second->0.lines_valid,
        ) && rate_of(stats.branches_covered, stats.branches_valid) == rate_of(
            second->0.branches_covered,
            second->0.branches_valid,
        ),
{
}

/// The rates of a subtree whose lines can be counted: covered lines among
/// all its lines, and taken conditions among all its conditions; each is
/// zero where there is nothing to count.
pub proof fn lemma_rates_of_leaves(leaves: Seq<LineView>)
    requires
        countable(leaves),
    ensures
        ({
            let stats = stats_of(leaves);
            let lines = rate_of(stats.lines_covered, stats.lines_valid);
            let branches = rate_of(stats.branches_covered, stats.branches_valid);
            &&& stats.lines_valid == leaves.len()
            &&& stats.lines_covered == covered_lines(leaves)
            &&& stats.branches_valid == total_conditions(leaves)
            &&& stats.branches_covered == covered_conditions(leaves)
            &&& stats.complexity == 0
            &&& leaves.len() > 0 ==> lines.numerator == covered_lines(leaves) && lines.denominator
                == leaves.len()
            &&& leaves.len() == 0 ==> lines.numerator == 0 && lines.denominator == 1
            &&& total_conditions(leaves) > 0 ==> branches.numerator == covered_conditions(leaves)
                && branches.denominator == total_conditions(leaves)
            &&& total_conditions(leaves) == 0 ==> branches.numerator == 0 && branches.denominator
                == 1
            &&& lines.numerator <= lines.denominator
            &&& branches.numerator <= branches.denominator
        }),
{
    lemma_covered_at_most_valid(leaves);
}

} // verus!
