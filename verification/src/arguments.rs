//! What was asked for on the command line.

use vstd::prelude::*;

verus! {

/// What an optional string reads.
pub open spec fn reading(text: Option<String>) -> Option<Seq<char>> {
    match text {
        Some(t) => Some(t@),
        None => None,
    }
}

/// The path of a `justfile` and the recipe in it, of at most two values: one
/// value alone is a recipe.
pub fn justfile_arguments(values: &[String]) -> (path_and_target: (Option<String>, Option<String>))
    requires
        values@.len() <= 2,
    ensures
        reading(path_and_target.0) == if values@.len() == 2 { Some(values@[0]@) } else { None },
        reading(path_and_target.1) == if values@.len() == 2 {
            Some(values@[1]@)
        } else if values@.len() == 1 {
            Some(values@[0]@)
        } else {
            None
        },
{
    if values.len() == 0 {
        (None, None)
    } else if values.len() == 1 {
        (None, Some(values[0].clone()))
    } else {
        (Some(values[0].clone()), Some(values[1].clone()))
    }
}

} // verus!
