//! The order of two pages under the rules, in the form that sorting takes.

use crate::pages::{is_sorted, ordered, Rule};
use std::cmp::Ordering;
use vstd::prelude::*;

verus! {

/// How two pages stand to each other: a page equals itself, a page is less
/// than another where no rule puts the other first, and greater where one
/// does.
pub fn compare(rules: &Vec<Rule>, before: u8, after: u8) -> (order: Ordering)
    ensures
        before == after ==> order == Ordering::Equal,
        before != after && ordered(rules@, before, after) ==> order == Ordering::Less,
        before != after && !ordered(rules@, before, after) ==> order == Ordering::Greater,
{
    if before == after {
        Ordering::Equal
    } else if is_sorted(rules, before, after) {
        Ordering::Less
    } else {
        Ordering::Greater
    }
}

} // verus!
