use vstd::prelude::*;

verus! {

/// The same items in the opposite order, so that `pop` hands them out first
/// to last.
pub(crate) fn reversed<T>(items: Vec<T>) -> (r: Vec<T>)
    ensures
        r@ == items@.reverse(),
{
    let ghost given = items@;
    let mut rest = items;
    let mut r: Vec<T> = Vec::new();
    while rest.len() > 0
        invariant
            rest@.len() + r@.len() == given.len(),
            rest@ == given.take(rest@.len() as int),
            forall|j: int| 0 <= j < r@.len() ==> r@[j] == given[given.len() - 1 - j],
        decreases rest@.len(),
    {
        let last = rest.pop().unwrap();
        r.push(last);
    }
    r
}

} // verus!
