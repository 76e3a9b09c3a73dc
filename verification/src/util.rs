//! Small helpers shared by the other modules.

use vstd::prelude::*;
use vstd::std_specs::cmp::PartialEqSpec;

verus! {

/// Whether `i` is the first position of `items` that holds a value equal to `item`.
pub open spec fn is_first_match<T: PartialEq>(items: Seq<T>, item: T, i: int) -> bool {
    &&& 0 <= i < items.len()
    &&& items[i].eq_spec(&item)
    &&& forall|j: int| 0 <= j < i ==> !(#[trigger] items[j]).eq_spec(&item)
}

/// Finds the first position of `items` that holds a value equal to `item`.
pub fn locate<T: PartialEq>(items: &[T], item: &T) -> (found: Option<usize>)
    ensures
        T::obeys_eq_spec() ==> match found {
            Some(i) => is_first_match(items@, *item, i as int),
            None => forall|j: int| 0 <= j < items@.len() ==> !(#[trigger] items@[j]).eq_spec(item),
        },
{
    let mut i: usize = 0;
    while i < items.len()
        invariant
            i <= items@.len(),
            T::obeys_eq_spec() ==> forall|j: int| 0 <= j < i ==> !(#[trigger] items@[j]).eq_spec(item),
        decreases items@.len() - i,
    {
        if items[i] == *item {
            return Some(i);
        }
        i += 1;
    }
    None
}

} // verus!
