//! The decisions of an interactive session in which a person reviews
//! duplicate groups and deletes files: what a menu selection means, which
//! files are marked for deletion to begin with, when a selection has to be
//! confirmed once more, and what a deletion has recovered. Showing the
//! prompts and deleting the files is left to the caller.

use crate::duplicates::{lemma_totals_of_prefix, total_redundant_copies, DuplicateGroup};
use vstd::prelude::*;

verus! {

/// What the person has chosen to do next.
#[derive(Debug, Clone, Copy, PartialEq)]
pub enum Action {
    /// Review the group with this index.
    ReviewGroup(usize),
    /// Delete all files but the first of each group.
    DeleteAllDuplicates,
    /// Scan the directory again.
    Rescan,
    /// Leave.
    Quit,
}

/// How a review of one group goes on once files have been selected.
#[derive(Debug, Clone, PartialEq)]
pub enum ReviewStep {
    /// Every file of the group is selected: ask whether all copies are
    /// really to go.
    ConfirmAll(Vec<usize>),
    /// These files are to be deleted.
    Done(Vec<usize>),
}

/// Opens the main menu. With no group there is nothing to choose, and the
/// menu leads to `Quit` at once; otherwise its entries are to be shown:
/// review a group, delete all duplicates, rescan, quit, in this order.
pub fn menu_start(group_count: usize) -> (decided: Option<Action>)
    ensures
        decided == (if group_count == 0 {
            Some(Action::Quit)
        } else {
            None
        }),
{
    if group_count == 0 {
        Some(Action::Quit)
    } else {
        None
    }
}

/// What the selected entry of the main menu leads to. The first entry
/// leads to no action yet: a group has to be picked. The second deletes all
/// duplicates, the third rescans; the last, like anything beyond it, quits.
pub fn menu_selected(selection: usize) -> (decided: Option<Action>)
    ensures
        decided == (if selection == 0 {
            None
        } else if selection == 1 {
            Some(Action::DeleteAllDuplicates)
        } else if selection == 2 {
            Some(Action::Rescan)
        } else {
            Some(Action::Quit)
        }),
{
    match selection {
        0 => None,
        1 => Some(Action::DeleteAllDuplicates),
        2 => Some(Action::Rescan),
        _ => Some(Action::Quit),
    }
}

/// The action that follows once a group has been picked from the list.
pub fn group_selected(index: usize) -> (action: Action)
    ensures
        action == Action::ReviewGroup(index),
{
    Action::ReviewGroup(index)
}

/// The marks with which the review of a group of `count` files begins:
/// every file but the first is marked for deletion.
pub fn default_selection(count: usize) -> (marks: Vec<bool>)
    ensures
        marks@ == Seq::new(count as nat, |i: int| i > 0),
{
    let mut marks: Vec<bool> = Vec::new();
    let mut i: usize = 0;
    while i < count
        invariant
            i <= count,
            marks@ == Seq::new(i as nat, |i: int| i > 0),
        decreases count - i,
    {
        marks.push(i > 0);
        assert(marks@ =~= Seq::new((i + 1) as nat, |i: int| i > 0));
        i += 1;
    }
    marks
}

/// Looks at what was selected in a group of `count` files. As many
/// selections as the group has files would leave no copy: that has to be
/// confirmed first. Anything less stands as it is.
pub fn review_selected(selections: Vec<usize>, count: usize) -> (step: ReviewStep)
    ensures
        step == (if selections@.len() == count {
            ReviewStep::ConfirmAll(selections)
        } else {
            ReviewStep::Done(selections)
        }),
{
    if selections.len() == count {
        ReviewStep::ConfirmAll(selections)
    } else {
        ReviewStep::Done(selections)
    }
}

/// What is deleted after the question whether all copies are to go: the
/// selection if the answer was yes, nothing if it was no.
pub fn review_confirmed(selections: Vec<usize>, proceed: bool) -> (chosen: Vec<usize>)
    ensures
        chosen@ == (if proceed {
            selections@
        } else {
            Seq::empty()
        }),
{
    if proceed {
        selections
    } else {
        Vec::new()
    }
}

/// The indices among `indices` that name a file of a group of `count`
/// files, in their order; one that is out of range is passed over.
pub fn valid_indices(indices: &[usize], count: usize) -> (valid: Vec<usize>)
    ensures
        valid@ == indices@.filter(|index: usize| index < count),
{
    let mut valid: Vec<usize> = Vec::new();
    let mut i: usize = 0;
    assert(indices@.take(0).filter(|index: usize| index < count) =~= Seq::<usize>::empty()) by {
        reveal(Seq::filter);
    }
    while i < indices.len()
        invariant
            i <= indices.len(),
            valid@ == indices@.take(i as int).filter(|index: usize| index < count),
        decreases indices.len() - i,
    {
        proof {
            assert(indices@.take(i + 1) =~= indices@.take(i as int).push(indices@[i as int]));
            indices@.take(i as int).lemma_filter_push(
                indices@[i as int],
                |index: usize| index < count,
            );
        }
        if indices[i] < count {
            valid.push(indices[i]);
        }
        i += 1;
    }
    assert(indices@.take(i as int) =~= indices@);
    valid
}

/// The indices of all files but the first of a group of `count` files.
pub fn all_but_first(count: usize) -> (indices: Vec<usize>)
    ensures
        indices@.len() == (if count >= 1 {
            count - 1
        } else {
            0
        }),
        forall|k: int| 0 <= k < indices@.len() ==> indices@[k] == k + 1,
{
    let mut indices: Vec<usize> = Vec::new();
    let mut i: usize = 1;
    while i < count
        invariant
            1 <= i,
            i <= count || i == 1,
            indices@.len() == i - 1,
            forall|k: int| 0 <= k < indices@.len() ==> indices@[k] == k + 1,
        decreases count - i,
    {
        indices.push(i);
        i += 1;
    }
    indices
}

/// How many of the attempts succeeded.
pub open spec fn successes(outcomes: Seq<bool>) -> nat {
    outcomes.filter(|deleted: bool| deleted).len()
}

/// The bytes recovered from a group whose files have `size` bytes each,
/// where `outcomes` tells of each attempt to delete one of them whether the
/// file is gone.
pub fn deleted_bytes(size: u64, outcomes: &[bool]) -> (bytes: u64)
    requires
        size * successes(outcomes@) <= u64::MAX,
    ensures
        bytes == size * successes(outcomes@),
{
    let mut bytes: u64 = 0;
    let mut i: usize = 0;
    assert(successes(outcomes@.take(0)) == 0) by {
        reveal(Seq::filter);
    }
    assert(size * 0 == 0);
    while i < outcomes.len()
        invariant
            i <= outcomes.len(),
            bytes == size * successes(outcomes@.take(i as int)),
            size * successes(outcomes@) <= u64::MAX,
        decreases outcomes.len() - i,
    {
        proof {
            let earlier = outcomes@.take(i as int);
            assert(outcomes@.take(i + 1) =~= earlier.push(outcomes@[i as int]));
            earlier.lemma_filter_push(outcomes@[i as int], |deleted: bool| deleted);
            lemma_successes_of_prefix(outcomes@, i + 1);
            let before = successes(earlier);
            let after = successes(outcomes@.take(i + 1));
            let all = successes(outcomes@);
            assert(size * after <= size * all) by (nonlinear_arith)
                requires
                    after <= all,
            ;
            assert(after == before + 1 ==> size * after == size * before + size)
                by (nonlinear_arith);
        }
        if outcomes[i] {
            bytes = bytes + size;
        }
        i += 1;
    }
    assert(outcomes@.take(i as int) =~= outcomes@);
    bytes
}

/// Among the first `n` attempts there are no more successes than among
/// all.
pub proof fn lemma_successes_of_prefix(outcomes: Seq<bool>, n: int)
    requires
        0 <= n <= outcomes.len(),
    ensures
        successes(outcomes.take(n)) <= successes(outcomes),
    decreases outcomes.len(),
{
    if n == outcomes.len() {
        assert(outcomes.take(n) =~= outcomes);
    } else {
        let front = outcomes.drop_last();
        assert(front.take(n) =~= outcomes.take(n));
        lemma_successes_of_prefix(front, n);
        assert(front.push(outcomes.last()) =~= outcomes);
        front.lemma_filter_push(outcomes.last(), |deleted: bool| deleted);
    }
}

/// How many files deleting all duplicates would remove: all but the first
/// of every group.
pub fn files_to_delete(groups: &[DuplicateGroup]) -> (count: usize)
    requires
        forall|k: int| 0 <= k < groups@.len() ==> (#[trigger] groups@[k]).paths@.len() >= 1,
        total_redundant_copies(groups@) <= usize::MAX,
    ensures
        count == total_redundant_copies(groups@),
{
    let mut count: usize = 0;
    let mut i: usize = 0;
    while i < groups.len()
        invariant
            i <= groups.len(),
            count == total_redundant_copies(groups@.take(i as int)),
            forall|k: int| 0 <= k < groups@.len() ==> (#[trigger] groups@[k]).paths@.len() >= 1,
            total_redundant_copies(groups@) <= usize::MAX,
        decreases groups.len() - i,
    {
        proof {
            assert(groups@.take(i + 1).drop_last() =~= groups@.take(i as int));
            lemma_totals_of_prefix(groups@, i + 1);
        }
        count = count + (groups[i].paths.len() - 1);
        i += 1;
    }
    assert(groups@.take(i as int) =~= groups@);
    count
}

} // verus!
