//! Moving the items of a vector.

use vstd::prelude::*;

verus! {

/// The items of `v` in reverse order.
pub fn reversed<T>(v: Vec<T>) -> (out: Vec<T>)
    ensures
        out@.len() == v@.len(),
        forall|i: int| 0 <= i < out@.len() ==> #[trigger] out@[i] == v@[v@.len() - 1 - i],
{
    let mut rest = v;
    let mut out: Vec<T> = Vec::new();
    while rest.len() > 0
        invariant
            rest@.len() + out@.len() == v@.len(),
            forall|i: int| 0 <= i < rest@.len() ==> #[trigger] rest@[i] == v@[i],
            forall|i: int| 0 <= i < out@.len() ==> #[trigger] out@[i] == v@[v@.len() - 1 - i],
        decreases rest@.len(),
    {
        let item = rest.pop();
        match item {
            Some(item) => {
                out.push(item);
            },
            None => {},
        }
    }
    out
}

/// Every item of `v`, made optional, in the same order.
pub fn wrapped<T>(v: Vec<T>) -> (out: Vec<Option<T>>)
    ensures
        out@.len() == v@.len(),
        forall|i: int| 0 <= i < out@.len() ==> #[trigger] out@[i] == Some(v@[i]),
{
    let mut rest = reversed(v);
    let ghost backwards = rest@;
    let mut out: Vec<Option<T>> = Vec::new();
    while rest.len() > 0
        invariant
            rest@.len() + out@.len() == v@.len(),
            backwards.len() == v@.len(),
            forall|i: int| 0 <= i < backwards.len() ==> #[trigger] backwards[i] == v@[v@.len() - 1 - i],
            forall|i: int| 0 <= i < rest@.len() ==> #[trigger] rest@[i] == backwards[i],
            forall|i: int| 0 <= i < out@.len() ==> #[trigger] out@[i] == Some(v@[i]),
        decreases rest@.len(),
    {
        let ghost at = out@.len() as int;
        let item = rest.pop();
        proof {
            assert(backwards[v@.len() - 1 - at] == v@[at]);
        }
        out.push(item);
    }
    out
}

/// Takes the item at `i` out of `v`, leaving nothing in its place.
pub fn take_at<T>(v: &mut Vec<Option<T>>, i: usize) -> (item: Option<T>)
    requires
        i < old(v)@.len(),
    ensures
        item == old(v)@[i as int],
        final(v)@ == old(v)@.update(i as int, None),
{
    let mut slot: Option<T> = None;
    std::mem::swap(&mut slot, &mut v[i]);
    slot
}

} // verus!
