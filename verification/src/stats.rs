//! Counting the bytes that pass through a writer.

use vstd::prelude::*;

verus! {

/// A writer together with the number of bytes that it has taken so far.
pub struct WriteStatistics<W> {
    pub inner: W,
    pub count: usize,
}

impl<W> WriteStatistics<W> {
    /// Wraps a writer that has taken nothing yet.
    pub fn new(inner: W) -> (stats: Self)
        ensures
            stats.inner == inner,
            stats.count == 0,
    {
        WriteStatistics { inner, count: 0 }
    }

    /// Accounts for a write that the inner writer reported: `size` more bytes
    /// were taken.
    pub fn written(&mut self, size: usize)
        requires
            old(self).count + size <= usize::MAX,
        ensures
            final(self).count == old(self).count + size,
            final(self).inner == old(self).inner,
    {
        self.count = self.count + size;
    }
}

} // verus!
