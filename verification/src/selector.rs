use vstd::prelude::*;

use crate::backend::Match;

verus! {

/// What the caller should do with a banded candidate set: take the first
/// candidate without asking, or put the whole set to the user.
#[derive(Debug, Clone, Copy, PartialEq, Eq, Structural)]
pub enum SelectPlan {
    TakeFirst,
    Prompt,
}

/// Decide whether a candidate set needs interactive disambiguation. A set
/// with a single candidate is taken as it stands and is never prompted for;
/// only a set with two or more candidates reaches the user.
pub fn select_plan(candidates: &Vec<Match>) -> (r: SelectPlan)
    requires
        candidates@.len() >= 1,
    ensures
        r is Prompt <==> candidates@.len() > 1,
        candidates@.len() == 1 ==> r is TakeFirst,
{
    if candidates.len() > 1 {
        SelectPlan::Prompt
    } else {
        SelectPlan::TakeFirst
    }
}

/// Turn the outcome of a prompt (or of the decision not to prompt) into the
/// chosen candidate index, if any: a cancelled prompt chooses nothing; a
/// chosen index out of the candidate range also chooses nothing.
pub fn chosen_index(candidates: &Vec<Match>, choice: Option<usize>) -> (r: Option<usize>)
    ensures
        r matches Some(i) ==> choice == Some(i) && i < candidates@.len(),
        r is None <==> (choice is None || choice->0 >= candidates@.len()),
{
    match choice {
        Some(i) => {
            if i < candidates.len() {
                Some(i)
            } else {
                None
            }
        },
        None => None,
    }
}

} // verus!
