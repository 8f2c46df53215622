//! A monotonically increasing counter of trained nodes, with a total
//! that can grow as branches are discovered.

use vstd::prelude::*;

verus! {

/// Progress over the training run: `count` of `total` units done.
pub struct Progress {
    pub count: u64,
    pub total: u64,
}

impl Progress {
    /// A fresh counter at zero.
    pub fn new(total: u64) -> (r: Progress)
        ensures
            r.count == 0,
            r.total == total,
    {
        Progress { count: 0, total }
    }

    /// Counts `n` more units done (saturating).
    pub fn add(&mut self, n: u64)
        ensures
            final(self).count == if old(self).count + n <= u64::MAX {
                old(self).count + n
            } else {
                u64::MAX as int
            },
            final(self).count >= old(self).count,
            final(self).total == old(self).total,
    {
        if self.count <= u64::MAX - n {
            self.count = self.count + n;
        } else {
            self.count = u64::MAX;
        }
    }

    /// Raises the total by `n` more expected units (saturating).
    pub fn add_total(&mut self, n: u64)
        ensures
            final(self).total == if old(self).total + n <= u64::MAX {
                old(self).total + n
            } else {
                u64::MAX as int
            },
            final(self).total >= old(self).total,
            final(self).count == old(self).count,
    {
        if self.total <= u64::MAX - n {
            self.total = self.total + n;
        } else {
            self.total = u64::MAX;
        }
    }
}

} // verus!
