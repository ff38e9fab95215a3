//! Fixed arrays of one element per leg, as values of their contents.

use crate::config::MAX_LEGS;
use vstd::prelude::*;

verus! {

/// The array holding `contents`.
pub open spec fn array_from<T>(contents: Seq<T>) -> [T; MAX_LEGS] {
    choose|array: [T; MAX_LEGS]| #[trigger] array@ == contents
}

/// Some array holds `contents`, if there are as many as fit.
pub broadcast proof fn array_from_holds<T>(contents: Seq<T>)
    requires
        contents.len() == MAX_LEGS,
    ensures
        (#[trigger] array_from(contents))@ == contents,
{
    let array: [T; MAX_LEGS] = [
        contents[0],
        contents[1],
        contents[2],
        contents[3],
        contents[4],
        contents[5],
        contents[6],
        contents[7],
    ];
    assert(array@ =~= contents);
}

/// An array is determined by what it holds.
pub proof fn array_is<T>(array: [T; MAX_LEGS])
    ensures
        array_from(array@) == array,
{
    array_from_holds(array@);
    assert(array_from(array@) =~= array);
}

} // verus!
