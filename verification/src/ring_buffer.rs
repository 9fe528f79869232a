//! A cyclic ordered container with a movable cursor.
//!
//! The cursor is always a valid index once the buffer is non-empty; an empty
//! buffer has no current element. `forward` and `back` move circularly,
//! wrapping at both ends, and are no-ops on an empty buffer. `insert`
//! advances the cursor and inserts at the new cursor position, so the newest
//! entry becomes the current one.

use vstd::prelude::*;

verus! {

#[derive(Clone)]
pub struct RingBuffer<T> {
    values: Vec<T>,
    cursor: usize,
}

pub struct RingBufferIter<'a, T> {
    buffer: &'a RingBuffer<T>,
    cursor: usize,
    iter_count: usize,
}

/// The cursor position after one forward (clockwise) step.
pub open spec fn step_forward(len: int, cur: int) -> int {
    if cur + 1 >= len {
        0
    } else {
        cur + 1
    }
}

/// The cursor position after one backward (counter-clockwise) step.
pub open spec fn step_back(len: int, cur: int) -> int {
    if len == 0 {
        0
    } else if cur == 0 {
        len - 1
    } else {
        cur - 1
    }
}

impl<T> View for RingBuffer<T> {
    type V = Seq<T>;

    closed spec fn view(&self) -> Seq<T> {
        self.values@
    }
}

impl<T: Clone> RingBuffer<T> {
    /// The cursor is a valid index whenever the buffer is non-empty.
    pub closed spec fn wf(&self) -> bool {
        if self.values@.len() == 0 {
            self.cursor == 0
        } else {
            self.cursor < self.values@.len()
        }
    }

    pub closed spec fn cursor_index(&self) -> int {
        self.cursor as int
    }

    /// What well-formedness says of the cursor, for callers that reason
    /// about the buffer through its view.
    pub proof fn lemma_wf_bounds(&self)
        requires
            self.wf(),
        ensures
            0 <= self.cursor_index(),
            self@.len() == 0 ==> self.cursor_index() == 0,
            self@.len() > 0 ==> self.cursor_index() < self@.len(),
    {
    }

    pub fn new() -> (r: Self)
        ensures
            r@ =~= Seq::<T>::empty(),
            r.cursor_index() == 0,
            r.wf(),
    {
        Self { values: Vec::new(), cursor: 0 }
    }

    pub fn from_vec(values: Vec<T>) -> (r: Self)
        ensures
            r@ == values@,
            r.cursor_index() == 0,
            r.wf(),
    {
        Self { cursor: 0, values }
    }

    /// Advances the cursor, then inserts at the new cursor position, making
    /// the inserted value the current one.
    pub fn insert(&mut self, value: T)
        requires
            old(self).wf(),
        ensures
            final(self).cursor_index() == step_forward(
                old(self)@.len() as int,
                old(self).cursor_index(),
            ),
            final(self)@ == old(self)@.insert(final(self).cursor_index(), value),
            final(self)@.len() == old(self)@.len() + 1,
            final(self)@[final(self).cursor_index()] == value,
            final(self).wf(),
    {
        self.forward();
        self.values.insert(self.cursor, value);
    }

    /// Moves the cursor one step forward, wrapping to the front at the end;
    /// a no-op on an empty buffer.
    pub fn forward(&mut self)
        requires
            old(self).wf(),
        ensures
            final(self)@ == old(self)@,
            final(self).cursor_index() == step_forward(
                old(self)@.len() as int,
                old(self).cursor_index(),
            ),
            final(self).wf(),
    {
        let len = self.values.len();
        if self.cursor + 1 >= len {
            self.cursor = 0;
        } else {
            self.cursor = self.cursor + 1;
        }
    }

    /// The same forward step under the name the kill-ring uses.
    pub fn rotate(&mut self)
        requires
            old(self).wf(),
        ensures
            final(self)@ == old(self)@,
            final(self).cursor_index() == step_forward(
                old(self)@.len() as int,
                old(self).cursor_index(),
            ),
            final(self).wf(),
    {
        self.forward();
    }

    /// Moves the cursor one step back, wrapping to the end at the front;
    /// a no-op on an empty buffer.
    pub fn back(&mut self)
        requires
            old(self).wf(),
        ensures
            final(self)@ == old(self)@,
            final(self).cursor_index() == step_back(
                old(self)@.len() as int,
                old(self).cursor_index(),
            ),
            final(self).wf(),
    {
        if self.values.len() == 0 {
            return ;
        }
        if self.cursor == 0 {
            self.cursor = self.values.len() - 1;
        } else {
            self.cursor = self.cursor - 1;
        }
    }

    /// The current element: `None` exactly when the buffer is empty.
    pub fn current(&self) -> (r: Option<&T>)
        requires
            self.wf(),
        ensures
            match r {
                None => self@.len() == 0,
                Some(v) => self@.len() > 0 && *v == self@[self.cursor_index()],
            },
    {
        match self.values.len() {
            0 => None,
            _ => Some(&self.values[self.cursor]),
        }
    }

    /// A clone of the current element: `None` exactly when the buffer is empty.
    pub fn clone_current(&self) -> (r: Option<T>)
        requires
            self.wf(),
        ensures
            match r {
                None => self@.len() == 0,
                Some(v) => self@.len() > 0 && cloned(self@[self.cursor_index()], v),
            },
    {
        match self.current() {
            None => None,
            Some(s) => Some(s.clone()),
        }
    }

    pub fn len(&self) -> (r: usize)
        ensures
            r == self@.len(),
    {
        self.values.len()
    }

    /// A fresh traversal that starts at the current cursor and visits every
    /// element exactly once; it does not move the buffer's own cursor.
    pub fn iter<'a>(&'a self) -> (r: RingBufferIter<'a, T>)
        requires
            self.wf(),
        ensures
            r.wf(),
            r.buffer_view() == self@,
            r.start_index() == self.cursor_index(),
            r.count() == 0,
    {
        RingBufferIter { buffer: self, cursor: self.cursor, iter_count: 0 }
    }
}

impl<'a, T: Clone> RingBufferIter<'a, T> {
    pub closed spec fn wf(&self) -> bool {
        &&& self.buffer.wf()
        &&& self.iter_count <= self.buffer@.len()
        &&& if self.buffer@.len() == 0 {
            self.cursor == 0
        } else {
            self.cursor < self.buffer@.len()
        }
    }

    pub closed spec fn buffer_view(&self) -> Seq<T> {
        self.buffer@
    }

    /// The index the traversal currently stands on.
    pub closed spec fn start_index(&self) -> int {
        self.cursor as int
    }

    /// How many elements the traversal has already yielded.
    pub closed spec fn count(&self) -> int {
        self.iter_count as int
    }

    pub fn forward(&mut self)
        requires
            old(self).wf(),
            old(self).count() < old(self).buffer_view().len(),
        ensures
            final(self).wf(),
            final(self).buffer_view() == old(self).buffer_view(),
            final(self).count() == old(self).count() + 1,
            final(self).start_index() == step_forward(
                old(self).buffer_view().len() as int,
                old(self).start_index(),
            ),
    {
        let len = self.buffer.len();
        self.iter_count = self.iter_count + 1;
        if self.cursor + 1 >= len {
            self.cursor = 0;
        } else {
            self.cursor = self.cursor + 1;
        }
    }

    pub fn current(&self) -> (r: Option<&T>)
        requires
            self.wf(),
        ensures
            match r {
                None => self.buffer_view().len() == 0,
                Some(v) => self.buffer_view().len() > 0 && *v == self.buffer_view()[self.start_index()],
            },
    {
        if self.cursor >= self.buffer.len() {
            None
        } else {
            Some(&self.buffer.values[self.cursor])
        }
    }

    /// Yields a clone of the element under the traversal and steps forward;
    /// `None` once every element has been visited.
    pub fn next(&mut self) -> (r: Option<T>)
        requires
            old(self).wf(),
        ensures
            final(self).wf(),
            final(self).buffer_view() == old(self).buffer_view(),
            if old(self).count() == old(self).buffer_view().len() {
                r is None && *final(self) == *old(self)
            } else {
                &&& r matches Some(v) && cloned(old(self).buffer_view()[old(self).start_index()], v)
                &&& final(self).count() == old(self).count() + 1
                &&& final(self).start_index() == step_forward(
                    old(self).buffer_view().len() as int,
                    old(self).start_index(),
                )
            },
    {
        if self.iter_count == self.buffer.len() {
            return None;
        }
        let value = match self.current() {
            None => None,
            Some(c) => Some(c.clone()),
        };
        self.forward();
        value
    }
}

} // verus!
