//! The parser's stacks: `SmallVec`s that keep the first 128 entries inline
//! and spill to the heap beyond. Each stack has a name for the sequence of
//! entries it holds, bottom first.
use vstd::prelude::*;

use smallvec::SmallVec;

use crate::machine::{ObjectParseState, StateWithCursor};
use crate::value::Json;

verus! {

/// A stack held in a `SmallVec`; what it holds is only known through the
/// names below.
#[verifier::external_body]
#[verifier::reject_recursive_types(T)]
pub struct Stack<T> {
    inner: SmallVec<[T; 128]>,
}

pub uninterp spec fn open_items(s: Stack<StateWithCursor>) -> Seq<StateWithCursor>;

/// Relies on `SmallVec::new`: an empty stack of open constructs.
#[verifier::external_body]
pub(crate) fn new_opens() -> (r: Stack<StateWithCursor>)
    ensures
        open_items(r) == Seq::<StateWithCursor>::empty(),
{
    Stack { inner: SmallVec::new() }
}

/// Relies on `SmallVec::push`: `x` goes on top, the rest stays.
#[verifier::external_body]
pub(crate) fn push_opens(s: &mut Stack<StateWithCursor>, x: StateWithCursor)
    ensures
        open_items(*final(s)) == open_items(*old(s)).push(x),
{
    s.inner.push(x)
}

/// Relies on `SmallVec::pop`: the top entry comes off, or `None` when empty.
#[verifier::external_body]
pub(crate) fn pop_opens(s: &mut Stack<StateWithCursor>) -> (r: Option<StateWithCursor>)
    ensures
        open_items(*old(s)).len() > 0 ==> r == Some(open_items(*old(s)).last()) && open_items(*final(s))
            == open_items(*old(s)).drop_last(),
        open_items(*old(s)).len() == 0 ==> r is None && open_items(*final(s)) == open_items(*old(s)),
{
    s.inner.pop()
}

/// Relies on `SmallVec::as_slice`: the entries, bottom first.
#[verifier::external_body]
pub(crate) fn opens_slice(s: &Stack<StateWithCursor>) -> (r: &[StateWithCursor])
    ensures
        r@ == open_items(*s),
{
    s.inner.as_slice()
}

pub uninterp spec fn value_items(s: Stack<Json>) -> Seq<Json>;

/// Relies on `SmallVec::new`: an empty stack of completed values.
#[verifier::external_body]
pub(crate) fn new_values() -> (r: Stack<Json>)
    ensures
        value_items(r) == Seq::<Json>::empty(),
{
    Stack { inner: SmallVec::new() }
}

/// Relies on `SmallVec::push`: `x` goes on top, the rest stays.
#[verifier::external_body]
pub(crate) fn push_values(s: &mut Stack<Json>, x: Json)
    ensures
        value_items(*final(s)) == value_items(*old(s)).push(x),
{
    s.inner.push(x)
}

/// Relies on `SmallVec::pop`: the top entry comes off, or `None` when empty.
#[verifier::external_body]
pub(crate) fn pop_values(s: &mut Stack<Json>) -> (r: Option<Json>)
    ensures
        value_items(*old(s)).len() > 0 ==> r == Some(value_items(*old(s)).last()) && value_items(*final(s))
            == value_items(*old(s)).drop_last(),
        value_items(*old(s)).len() == 0 ==> r is None && value_items(*final(s)) == value_items(*old(s)),
{
    s.inner.pop()
}

/// Relies on `SmallVec::as_slice`: the entries, bottom first.
#[verifier::external_body]
pub(crate) fn values_slice(s: &Stack<Json>) -> (r: &[Json])
    ensures
        r@ == value_items(*s),
{
    s.inner.as_slice()
}

pub uninterp spec fn start_items(s: Stack<usize>) -> Seq<usize>;

/// Relies on `SmallVec::new`: an empty stack of start positions.
#[verifier::external_body]
pub(crate) fn new_starts() -> (r: Stack<usize>)
    ensures
        start_items(r) == Seq::<usize>::empty(),
{
    Stack { inner: SmallVec::new() }
}

/// Relies on `SmallVec::push`: `x` goes on top, the rest stays.
#[verifier::external_body]
pub(crate) fn push_starts(s: &mut Stack<usize>, x: usize)
    ensures
        start_items(*final(s)) == start_items(*old(s)).push(x),
{
    s.inner.push(x)
}

/// Relies on `SmallVec::pop`: the top entry comes off, or `None` when empty.
#[verifier::external_body]
pub(crate) fn pop_starts(s: &mut Stack<usize>) -> (r: Option<usize>)
    ensures
        start_items(*old(s)).len() > 0 ==> r == Some(start_items(*old(s)).last()) && start_items(*final(s))
            == start_items(*old(s)).drop_last(),
        start_items(*old(s)).len() == 0 ==> r is None && start_items(*final(s)) == start_items(*old(s)),
{
    s.inner.pop()
}

/// Relies on `SmallVec::as_slice`: the entries, bottom first.
#[verifier::external_body]
pub(crate) fn starts_slice(s: &Stack<usize>) -> (r: &[usize])
    ensures
        r@ == start_items(*s),
{
    s.inner.as_slice()
}

pub uninterp spec fn phase_items(s: Stack<ObjectParseState>) -> Seq<ObjectParseState>;

/// Relies on `SmallVec::new`: an empty stack of object phases.
#[verifier::external_body]
pub(crate) fn new_phases() -> (r: Stack<ObjectParseState>)
    ensures
        phase_items(r) == Seq::<ObjectParseState>::empty(),
{
    Stack { inner: SmallVec::new() }
}

/// Relies on `SmallVec::push`: `x` goes on top, the rest stays.
#[verifier::external_body]
pub(crate) fn push_phases(s: &mut Stack<ObjectParseState>, x: ObjectParseState)
    ensures
        phase_items(*final(s)) == phase_items(*old(s)).push(x),
{
    s.inner.push(x)
}

/// Relies on `SmallVec::pop`: the top entry comes off, or `None` when empty.
#[verifier::external_body]
pub(crate) fn pop_phases(s: &mut Stack<ObjectParseState>) -> (r: Option<ObjectParseState>)
    ensures
        phase_items(*old(s)).len() > 0 ==> r == Some(phase_items(*old(s)).last()) && phase_items(*final(s))
            == phase_items(*old(s)).drop_last(),
        phase_items(*old(s)).len() == 0 ==> r is None && phase_items(*final(s)) == phase_items(*old(s)),
{
    s.inner.pop()
}

/// Relies on `SmallVec::as_slice`: the entries, bottom first.
#[verifier::external_body]
pub(crate) fn phases_slice(s: &Stack<ObjectParseState>) -> (r: &[ObjectParseState])
    ensures
        r@ == phase_items(*s),
{
    s.inner.as_slice()
}

} // verus!
