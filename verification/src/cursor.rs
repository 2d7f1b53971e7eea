//! The cursor adapter: bidirectional, lazy iteration over a borrowed
//! sequence of items.
//!
//! The engine idiom is a pair of position markers: a forward cursor that
//! starts at the first element, and a reverse cursor that starts one past
//! the last element (the end sentinel). Forward iteration yields the item
//! at the forward cursor and then advances it; reverse iteration first
//! steps the reverse cursor backward and then yields. The asymmetry keeps
//! the two directions from double-yielding or skipping an item, and makes
//! them meet cleanly in the middle when both are driven at once. A cursor
//! pair borrows its collection; advancing it never copies the collection.

use vstd::prelude::*;

verus! {

/// A forward/reverse cursor pair over a borrowed sequence.
pub struct SeqCursor<'a, T> {
    items: &'a Vec<T>,
    /// Index of the next item a forward step yields.
    fwd: usize,
    /// One past the last item a backward step may yield.
    rev: usize,
}

impl<'a, T> SeqCursor<'a, T> {
    /// The whole underlying sequence.
    pub closed spec fn items_view(self) -> Seq<T> {
        self.items@
    }

    /// The forward cursor position.
    pub closed spec fn fwd_pos(self) -> int {
        self.fwd as int
    }

    /// The reverse cursor position.
    pub closed spec fn rev_pos(self) -> int {
        self.rev as int
    }

    /// The cursors sit inside the sequence, forward at or before reverse.
    pub open spec fn wf(self) -> bool {
        0 <= self.fwd_pos() <= self.rev_pos() <= self.items_view().len()
    }

    /// Everything yielded by forward steps so far, in yield order.
    pub open spec fn yielded_forward(self) -> Seq<T> {
        self.items_view().take(self.fwd_pos())
    }

    /// Everything yielded by backward steps so far; the last item of this
    /// sequence was the first one yielded.
    pub open spec fn yielded_backward(self) -> Seq<T> {
        self.items_view().skip(self.rev_pos())
    }

    /// The items neither direction has yielded yet.
    pub open spec fn remaining(self) -> Seq<T> {
        self.items_view().subrange(self.fwd_pos(), self.rev_pos())
    }

    /// A fresh cursor pair: forward at the first element, reverse at the
    /// end sentinel.
    pub fn new(items: &'a Vec<T>) -> (r: Self)
        ensures
            r.wf(),
            r.items_view() == items@,
            r.fwd_pos() == 0,
            r.rev_pos() == items@.len(),
    {
        SeqCursor { items, fwd: 0, rev: items.len() }
    }

    /// How many items remain.
    pub fn len(&self) -> (r: usize)
        requires
            self.wf(),
        ensures
            r == self.remaining().len(),
    {
        self.rev - self.fwd
    }

    /// Whether the two cursors have met (equivalently, whether the forward
    /// cursor has reached the end of what is left to yield).
    pub fn is_exhausted(&self) -> (r: bool)
        requires
            self.wf(),
        ensures
            r == (self.remaining().len() == 0),
    {
        self.fwd == self.rev
    }

    /// Yield the item at the forward cursor, then advance the cursor.
    ///
    /// Returns nothing once the forward cursor has met the reverse cursor
    /// or the end sentinel.
    pub fn next(&mut self) -> (r: Option<&'a T>)
        requires
            old(self).wf(),
        ensures
            final(self).wf(),
            final(self).items_view() == old(self).items_view(),
            old(self).remaining().len() == 0 ==> r is None && *final(self) == *old(self),
            old(self).remaining().len() > 0 ==> {
                &&& r == Some(&old(self).items_view()[old(self).fwd_pos()])
                &&& final(self).fwd_pos() == old(self).fwd_pos() + 1
                &&& final(self).rev_pos() == old(self).rev_pos()
            },
    {
        if self.fwd == self.rev || self.fwd == self.items.len() {
            None
        } else {
            let item = &self.items[self.fwd];
            self.fwd += 1;
            Some(item)
        }
    }

    /// Step the reverse cursor backward, then yield the item it reached.
    ///
    /// Returns nothing once the reverse cursor has met the forward cursor
    /// or the begin marker.
    pub fn next_back(&mut self) -> (r: Option<&'a T>)
        requires
            old(self).wf(),
        ensures
            final(self).wf(),
            final(self).items_view() == old(self).items_view(),
            old(self).remaining().len() == 0 ==> r is None && *final(self) == *old(self),
            old(self).remaining().len() > 0 ==> {
                &&& r == Some(&old(self).items_view()[old(self).rev_pos() - 1])
                &&& final(self).rev_pos() == old(self).rev_pos() - 1
                &&& final(self).fwd_pos() == old(self).fwd_pos()
            },
    {
        if self.rev == self.fwd || self.rev == 0 {
            None
        } else {
            self.rev -= 1;
            Some(&self.items[self.rev])
        }
    }

    /// Copy this cursor pair: the positions are copied, never the
    /// underlying collection.
    pub fn duplicate(&self) -> (r: Self)
        ensures
            r == *self,
    {
        SeqCursor { items: self.items, fwd: self.fwd, rev: self.rev }
    }

    /// The meeting law: at every point, what the forward direction has
    /// yielded, what is still to come, and what the backward direction has
    /// yielded partition the whole sequence, in order and without overlap.
    /// Once the cursors meet, the two yielded parts alone cover every item
    /// exactly once — however the forward and backward steps were
    /// interleaved.
    pub proof fn lemma_meeting(self)
        requires
            self.wf(),
        ensures
            self.yielded_forward() + self.remaining() + self.yielded_backward()
                == self.items_view(),
            self.remaining().len() == 0 ==> self.yielded_forward() + self.yielded_backward()
                == self.items_view(),
    {
        assert(self.yielded_forward() + self.remaining() + self.yielded_backward()
            =~= self.items_view());
        if self.remaining().len() == 0 {
            assert(self.yielded_forward() + self.yielded_backward() =~= self.items_view());
        }
    }
}

} // verus!
