//! Fixed-capacity lists of board cells, kept in `arrayvec::ArrayVec`.
//!
//! Verus does not look inside an `ArrayVec`. The functions of this file are
//! the only places where one is touched; what each of them promises is taken
//! from the source of the arrayvec crate and is not proved here.

use vstd::prelude::*;
use arrayvec::ArrayVec;
use crate::search::Frame;

verus! {

/// The most cells a list can hold: one for every cell of the board.
pub const STACK_SIZE: usize = 64;

/// `arrayvec::ArrayVec`, a vector with a fixed capacity that stores its
/// elements inline.
#[verifier::external_type_specification]
#[verifier::external_body]
#[verifier::reject_recursive_types(T)]
pub struct ExArrayVec<T, const CAP: usize>(ArrayVec<T, CAP>);

/// The cells held by a list, oldest first.
pub uninterp spec fn cells_of(v: ArrayVec<(usize, usize), 64>) -> Seq<(usize, usize)>;

/// `ArrayVec::new`: a list that holds nothing.
#[verifier::external_body]
pub(crate) fn cells_new() -> (v: ArrayVec<(usize, usize), STACK_SIZE>)
    ensures
        cells_of(v) == Seq::<(usize, usize)>::empty(),
{
    ArrayVec::new()
}

/// `ArrayVec::len`: the number of cells held, which never exceeds the
/// capacity.
#[verifier::external_body]
pub(crate) fn cells_len(v: &ArrayVec<(usize, usize), STACK_SIZE>) -> (n: usize)
    ensures
        n == cells_of(*v).len(),
        n <= 64,
{
    v.len()
}

/// `ArrayVec::push`: appends a cell. The crate panics when the list is full,
/// so there must be room.
#[verifier::external_body]
pub(crate) fn cells_push(v: &mut ArrayVec<(usize, usize), STACK_SIZE>, c: (usize, usize))
    requires
        cells_of(*old(v)).len() < 64,
    ensures
        cells_of(*final(v)) == cells_of(*old(v)).push(c),
{
    v.push(c)
}

/// `ArrayVec::pop`: removes and returns the newest cell, or returns `None`
/// and leaves an empty list as it is.
#[verifier::external_body]
pub(crate) fn cells_pop(v: &mut ArrayVec<(usize, usize), STACK_SIZE>) -> (r: Option<(usize, usize)>)
    ensures
        cells_of(*old(v)).len() == 0 ==> r.is_none() && cells_of(*final(v)) == cells_of(*old(v)),
        cells_of(*old(v)).len() > 0 ==> r == Some(cells_of(*old(v)).last()) && cells_of(*final(v))
            == cells_of(*old(v)).drop_last(),
{
    v.pop()
}

/// The frames held by a search stack, the root first.
pub uninterp spec fn frames_of(v: ArrayVec<Frame, 64>) -> Seq<Frame>;

/// `ArrayVec::new`: a stack that holds nothing.
#[verifier::external_body]
pub(crate) fn frames_new() -> (v: ArrayVec<Frame, STACK_SIZE>)
    ensures
        frames_of(v) == Seq::<Frame>::empty(),
{
    ArrayVec::new()
}

/// `ArrayVec::len`: the number of frames held, which never exceeds the
/// capacity.
#[verifier::external_body]
pub(crate) fn frames_len(v: &ArrayVec<Frame, STACK_SIZE>) -> (n: usize)
    ensures
        n == frames_of(*v).len(),
        n <= 64,
{
    v.len()
}

/// `ArrayVec::push`: puts a frame on top. The crate panics when the stack is
/// full, so there must be room.
#[verifier::external_body]
pub(crate) fn frames_push(v: &mut ArrayVec<Frame, STACK_SIZE>, f: Frame)
    requires
        frames_of(*old(v)).len() < 64,
    ensures
        frames_of(*final(v)) == frames_of(*old(v)).push(f),
{
    v.push(f)
}

/// `ArrayVec::pop`: takes the top frame off and returns it, or returns `None`
/// and leaves an empty stack as it is.
#[verifier::external_body]
pub(crate) fn frames_pop(v: &mut ArrayVec<Frame, STACK_SIZE>) -> (r: Option<Frame>)
    ensures
        frames_of(*old(v)).len() == 0 ==> r.is_none() && frames_of(*final(v)) == frames_of(*old(v)),
        frames_of(*old(v)).len() > 0 ==> r == Some(frames_of(*old(v)).last()) && frames_of(
            *final(v),
        ) == frames_of(*old(v)).drop_last(),
{
    v.pop()
}

/// `last_mut` of the stack as a slice: the top frame, to be changed in
/// place. The frames below it stay as they are.
#[verifier::external_body]
pub(crate) fn frames_last_mut(v: &mut ArrayVec<Frame, STACK_SIZE>) -> (r: &mut Frame)
    requires
        frames_of(*old(v)).len() > 0,
    ensures
        *r == frames_of(*old(v)).last(),
        frames_of(*final(v)) == frames_of(*old(v)).update(
            frames_of(*old(v)).len() - 1,
            *final(r),
        ),
{
    v.last_mut().unwrap()
}

} // verus!
