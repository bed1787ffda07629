use vstd::prelude::*;
use vstd::std_specs::cmp::PartialEqSpec;

verus! {

/// The index of the first item of `collection` equal to `target`; `Err(0)` when
/// no item is.
pub fn find<T, Y>(collection: &Vec<T>, target: &Y) -> (r: Result<usize, usize>) where Y: Ord, T: PartialEq<Y>
    ensures
        T::obeys_eq_spec() ==> match r {
            Ok(i) => i < collection@.len() && collection@[i as int].eq_spec(target) && forall|k: int|
                0 <= k < i ==> !(#[trigger] collection@[k]).eq_spec(target),
            Err(e) => e == 0 && forall|k: int| 0 <= k < collection@.len() ==> !(#[trigger] collection@[k]).eq_spec(target),
        },
        r matches Ok(i) ==> i < collection@.len(),
{
    let mut i: usize = 0;
    while i < collection.len()
        invariant
            i <= collection@.len(),
            T::obeys_eq_spec() ==> forall|k: int| 0 <= k < i ==> !(#[trigger] collection@[k]).eq_spec(target),
        decreases collection@.len() - i,
    {
        if collection[i].eq(target) {
            return Ok(i);
        }
        i = i + 1;
    }
    return Err(0);
}

} // verus!
