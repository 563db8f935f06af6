//! List helpers that speak of what the elements hold.

use vstd::prelude::*;

verus! {

/// Adds an item to the end of a list.
pub fn add_item<T: DeepView>(v: &mut Vec<T>, item: T)
    ensures
        final(v)@ == old(v)@.push(item),
        final(v).deep_view() == old(v).deep_view().push(item.deep_view()),
{
    let ghost before = v.deep_view();
    v.push(item);
    assert(v.deep_view() =~= before.push(item.deep_view()));
}

/// Adds the items of another list to the end of a list.
pub fn add_items<T: DeepView>(v: &mut Vec<T>, items: Vec<T>)
    ensures
        final(v).deep_view() == old(v).deep_view() + items.deep_view(),
        final(v)@.len() == old(v)@.len() + items@.len(),
{
    let ghost before = v.deep_view();
    let mut items = items;
    let ghost more = items.deep_view();
    v.append(&mut items);
    assert(v.deep_view() =~= before + more);
}

} // verus!
