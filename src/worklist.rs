//! The bounded recalculation worklist, held in a `heapless::Deque`.
use vstd::prelude::*;

verus! {

/// The capacity of the recalculation worklist.
pub const WORKLIST_CAPACITY: usize = 1024;

#[verifier::external_type_specification]
#[verifier::external_body]
#[verifier::reject_recursive_types(T)]
pub struct ExDeque<T, const N: usize>(heapless::Deque<T, N>);

/// The cells held by a worklist, front first, as `(x, y)` pairs.
pub uninterp spec fn worklist_items(d: heapless::Deque<(u8, u8), 1024>) -> Seq<(u8, u8)>;

/// Relies on `heapless::Deque::new`: a new deque is empty.
#[verifier::external_body]
pub(crate) fn worklist_new() -> (r: heapless::Deque<(u8, u8), 1024>)
    ensures
        worklist_items(r) == Seq::<(u8, u8)>::empty(),
{
    heapless::Deque::new()
}

/// Relies on `heapless::Deque::clear`: every item is removed.
#[verifier::external_body]
pub(crate) fn worklist_clear(d: &mut heapless::Deque<(u8, u8), 1024>)
    ensures
        worklist_items(*final(d)) == Seq::<(u8, u8)>::empty(),
{
    d.clear()
}

/// Relies on `heapless::Deque::push_back`: below capacity the item is appended
/// at the back; at capacity the deque is unchanged and the item handed back.
#[verifier::external_body]
pub(crate) fn worklist_push_back(d: &mut heapless::Deque<(u8, u8), 1024>, item: (u8, u8))
    -> (r: Result<(), (u8, u8)>)
    ensures
        r is Ok <==> worklist_items(*old(d)).len() < 1024,
        r matches Ok(_) ==> worklist_items(*final(d)) == worklist_items(*old(d)).push(item),
        r matches Err(back) ==> back == item && worklist_items(*final(d)) == worklist_items(*old(d)),
{
    d.push_back(item)
}

/// Relies on `heapless::Deque::pop_back`: the last item is removed and returned;
/// an empty deque gives `None` and stays empty.
#[verifier::external_body]
pub(crate) fn worklist_pop_back(d: &mut heapless::Deque<(u8, u8), 1024>) -> (r: Option<(u8, u8)>)
    ensures
        worklist_items(*old(d)).len() == 0 ==> r is None && worklist_items(*final(d))
            == worklist_items(*old(d)),
        worklist_items(*old(d)).len() > 0 ==> r == Some(worklist_items(*old(d)).last())
            && worklist_items(*final(d)) == worklist_items(*old(d)).drop_last(),
{
    d.pop_back()
}

} // verus!
