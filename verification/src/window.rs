//! The window buffer: a bounded FIFO of the most recently seen values.
//!
//! The buffer itself is `bounded_vec_deque::BoundedVecDeque`, used through
//! trusted wrappers. Its contents and its length limit are named by
//! uninterpreted spec functions, and each wrapper states over those names
//! what the crate's source shows of the method it calls.

use bounded_vec_deque::BoundedVecDeque;
use vstd::prelude::*;

verus! {

#[verifier::external_type_specification]
#[verifier::external_body]
#[verifier::reject_recursive_types(T)]
pub struct ExBoundedVecDeque<T>(BoundedVecDeque<T>);

/// The values held by the deque, front first.
pub uninterp spec fn window_model(q: BoundedVecDeque<String>) -> Seq<Seq<char>>;

/// The length limit the deque was created with.
pub uninterp spec fn window_limit(q: BoundedVecDeque<String>) -> nat;

/// Relies on `BoundedVecDeque::new`: a fresh deque is empty and keeps the
/// length limit it was created with.
#[verifier::external_body]
pub(crate) fn window_new(limit: usize) -> (q: BoundedVecDeque<String>)
    ensures
        window_model(q) == Seq::<Seq<char>>::empty(),
        window_limit(q) == limit as nat,
{
    BoundedVecDeque::new(limit)
}

/// Relies on `BoundedVecDeque::push_back`: appends the value at the tail;
/// if the deque is already at its length limit, it first removes and
/// returns the head.
#[verifier::external_body]
pub(crate) fn push_to_window(q: &mut BoundedVecDeque<String>, value: String) -> (evicted: Option<
    String,
>)
    requires
        window_limit(*old(q)) >= 1,
    ensures
        window_limit(*final(q)) == window_limit(*old(q)),
        if window_model(*old(q)).len() < window_limit(*old(q)) {
            evicted is None && window_model(*final(q)) == window_model(*old(q)).push(value@)
        } else {
            &&& evicted matches Some(e) && e@ == window_model(*old(q))[0]
            &&& window_model(*final(q)) == window_model(*old(q)).drop_first().push(value@)
        },
{
    q.push_back(value)
}

} // verus!
