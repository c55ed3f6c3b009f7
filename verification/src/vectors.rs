//! Taking a vector apart from the front.

use vstd::prelude::*;

verus! {

/// The elements back to front, so that `pop` gives them front to back.
pub fn reversed<T>(items: Vec<T>) -> (r: Vec<T>)
    ensures
        r@ == items@.reverse(),
{
    let ghost all = items@;
    let mut items = items;
    let mut r: Vec<T> = Vec::new();
    while items.len() > 0
        invariant
            all =~= items@ + r@.reverse(),
        decreases items@.len(),
    {
        match items.pop() {
            Some(x) => r.push(x),
            None => {},
        }
    }
    assert(r@ =~= all.reverse());
    r
}

} // verus!
