//! The samples that a resampler still needs.
//!
//! A linear resampler walks over its input at a fractional position. Which two
//! samples it interpolates, when it has to wait for more input and what it can
//! forget depends only on the whole part of that position, and stands here.

use vstd::prelude::*;

verus! {

/// Input samples that are not fully consumed.
pub struct SampleWindow<S> {
    buf: Vec<S>,
}

impl<S> View for SampleWindow<S> {
    type V = Seq<S>;

    closed spec fn view(&self) -> Seq<S> {
        self.buf@
    }
}

impl<S: Copy> SampleWindow<S> {
    /// An empty window.
    pub fn new() -> (r: Self)
        ensures
            r@ == Seq::<S>::empty(),
    {
        SampleWindow { buf: Vec::new() }
    }

    /// Appends input.
    pub fn extend(&mut self, input: &[S])
        ensures
            final(self)@ == old(self)@ + input@,
    {
        let mut more = vstd::slice::slice_to_vec(input);
        self.buf.append(&mut more);
    }

    /// The two samples around a position whose whole part is `index`, if both
    /// have arrived.
    pub fn pair_at(&self, index: usize) -> (r: Option<(S, S)>)
        ensures
            r == (if index + 1 < self@.len() {
                Some((self@[index as int], self@[index + 1]))
            } else {
                None
            }),
    {
        if index < self.buf.len() && index + 1 < self.buf.len() {
            Some((self.buf[index], self.buf[index + 1]))
        } else {
            None
        }
    }

    /// Forgets what lies before a position whose whole part is `index`, and
    /// returns by how much the position moves back.
    pub fn discard(&mut self, index: usize) -> (consumed: usize)
        ensures
            consumed == (if index < old(self)@.len() {
                index as int
            } else {
                old(self)@.len() as int
            }),
            final(self)@ == old(self)@.subrange(consumed as int, old(self)@.len() as int),
    {
        let consumed: usize = if index < self.buf.len() {
            index
        } else {
            self.buf.len()
        };
        self.buf = self.buf.split_off(consumed);
        consumed
    }
}

/// After a discard, a position that moved back by the returned amount sees the
/// same samples as before.
pub proof fn law_discard_keeps_what_is_ahead<S>(buf: Seq<S>, index: int, consumed: int, ahead: int)
    requires
        0 <= index,
        consumed == (if index < buf.len() {
            index
        } else {
            buf.len() as int
        }),
        index <= ahead < buf.len(),
    ensures
        0 <= ahead - consumed < buf.subrange(consumed, buf.len() as int).len(),
        buf.subrange(consumed, buf.len() as int)[ahead - consumed] == buf[ahead],
{
}

} // verus!
