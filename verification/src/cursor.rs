//! Snapshot cursors.
//!
//! Every sequence-producing query materialises its full result when it
//! is called.  A cursor walks such a snapshot: it owns the captured
//! entries, so later mutation of the store it came from cannot change
//! what the cursor will still yield.  It is finite, exhausted after
//! yielding every captured element, and not restartable.

use vstd::prelude::*;

use crate::keyorder::copy_key;
use crate::model::entries_view;

verus! {

/// A cursor over a snapshot of `(key, value)` entries.
pub struct Cursor<V> {
    items: Vec<(Vec<u8>, V)>,
    index: usize,
}

impl<V: Copy> Cursor<V> {
    /// The entries captured when the snapshot was taken.
    pub closed spec fn snapshot(&self) -> Seq<(Seq<u8>, V)> {
        entries_view(self.items@)
    }

    /// How many entries have been yielded so far.
    pub closed spec fn position(&self) -> int {
        self.index as int
    }

    pub open spec fn wf(&self) -> bool {
        0 <= self.position() <= self.snapshot().len()
    }

    /// Wrap a materialised result sequence in a cursor.
    pub fn new(items: Vec<(Vec<u8>, V)>) -> (c: Self)
        ensures
            c.snapshot() == entries_view(items@),
            c.position() == 0,
            c.wf(),
    {
        Cursor { items, index: 0 }
    }

    /// The next captured entry, or nothing once the snapshot is
    /// exhausted.  The snapshot itself never changes.
    pub fn next(&mut self) -> (r: Option<(Vec<u8>, V)>)
        requires
            old(self).wf(),
        ensures
            final(self).wf(),
            final(self).snapshot() == old(self).snapshot(),
            match r {
                Some(e) => old(self).position() < old(self).snapshot().len() && e.0@
                    == old(self).snapshot()[old(self).position()].0 && e.1
                    == old(self).snapshot()[old(self).position()].1 && final(self).position()
                    == old(self).position() + 1,
                None => old(self).position() == old(self).snapshot().len()
                    && final(self).position() == old(self).position(),
            },
    {
        if self.index < self.items.len() {
            let key = copy_key(&self.items[self.index].0);
            let value = self.items[self.index].1;
            self.index = self.index + 1;
            Some((key, value))
        } else {
            None
        }
    }

    /// How many entries are still to come.
    pub fn remaining(&self) -> (n: usize)
        requires
            self.wf(),
        ensures
            n == self.snapshot().len() - self.position(),
    {
        self.items.len() - self.index
    }
}

} // verus!
