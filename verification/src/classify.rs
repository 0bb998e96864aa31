//! From a line number to the line that the report shows for it.

use crate::input::branch_views;
use crate::tree::{Condition, ConditionType, Line, LineView};
use std::collections::BTreeMap;
use vstd::laws_cmp::group_laws_cmp;
use vstd::prelude::*;
use vstd::std_specs::btree::group_btree_axioms;

verus! {

/// One condition for each branch outcome, numbered by its position, covered
/// where the branch was taken.
pub open spec fn conditions_of(outcomes: Seq<bool>) -> Seq<Condition> {
    Seq::new(
        outcomes.len(),
        |i: int|
            Condition { number: i as usize, cond_type: ConditionType::Jump, covered: outcomes[i] },
    )
}

/// The hits recorded for a line; none recorded counts as zero.
pub open spec fn hits_of(number: u32, lines: Map<u32, u64>) -> u64 {
    if lines.contains_key(number) {
        lines[number]
    } else {
        0
    }
}

/// The line shown for `number`: a branch line with its conditions where
/// branch outcomes were recorded for it, a plain line otherwise.
pub open spec fn classify(
    number: u32,
    lines: Map<u32, u64>,
    branches: Map<u32, Seq<bool>>,
) -> LineView {
    if branches.contains_key(number) {
        LineView::Branch {
            number,
            hits: hits_of(number, lines),
            conditions: conditions_of(branches[number]),
        }
    } else {
        LineView::Plain { number, hits: hits_of(number, lines) }
    }
}

/// The conditions of a line with the given branch outcomes.
pub fn conditions_from(outcomes: &Vec<bool>) -> (conditions: Vec<Condition>)
    ensures
        conditions@ == conditions_of(outcomes@),
{
    let mut conditions: Vec<Condition> = Vec::new();
    let mut i: usize = 0;
    while i < outcomes.len()
        invariant
            i <= outcomes.len(),
            conditions@ == conditions_of(outcomes@.take(i as int)),
        decreases outcomes.len() - i,
    {
        conditions.push(
            Condition { number: i, cond_type: ConditionType::Jump, covered: outcomes[i] },
        );
        i = i + 1;
        assert(conditions@ =~= conditions_of(outcomes@.take(i as int)));
    }
    assert(outcomes@.take(i as int) =~= outcomes@);
    conditions
}

/// Builds the line for `number` from the hits and branch outcomes of its
/// file.
pub fn line_from_number(
    number: u32,
    lines: &BTreeMap<u32, u64>,
    branches: &BTreeMap<u32, Vec<bool>>,
) -> (line: Line)
    ensures
        line@ == classify(number, lines@, branch_views(branches@)),
{
    broadcast use group_btree_axioms;
    broadcast use group_laws_cmp;

    let hits = match lines.get(&number) {
        Some(h) => *h,
        None => 0,
    };
    match branches.get(&number) {
        Some(outcomes) => Line::Branch { number, hits, conditions: conditions_from(outcomes) },
        None => Line::Plain { number, hits },
    }
}

/// A line is a branch line exactly where branch outcomes were recorded for
/// its number. It then holds one condition for each outcome, in their
/// order: the condition at a position has that position for its number, is
/// a jump, and is covered exactly where the outcome is true. The hits of a
/// line are those recorded for its number, or zero.
pub proof fn lemma_classify(number: u32, lines: Map<u32, u64>, branches: Map<u32, Seq<bool>>)
    ensures
        ({
            let line = classify(number, lines, branches);
            &&& line.number() == number
            &&& line.hits() == hits_of(number, lines)
            &&& !lines.contains_key(number) ==> line.hits() == 0
            &&& line is Branch <==> branches.contains_key(number)
            &&& line is Plain <==> !branches.contains_key(number)
            &&& branches.contains_key(number) ==> {
                &&& line.conditions().len() == branches[number].len()
                &&& forall|i: int|
                    0 <= i < branches[number].len() ==> {
                        &&& i <= usize::MAX ==> (#[trigger] line.conditions()[i]).number == i
                        &&& line.conditions()[i].cond_type == ConditionType::Jump
                        &&& line.conditions()[i].covered == branches[number][i]
                    }
            }
        }),
{
}

} // verus!
