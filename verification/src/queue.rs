//! The work queue of the scan: one LIFO buffer of pending work per worker,
//! with non-blocking push and pop, and theft from other workers' buffers.
//!
//! Each buffer carries a `waiting` counter, the number of other workers
//! currently attempting to steal from it. A thief prefers a non-empty buffer
//! nobody waits on, and otherwise the least-contended non-empty buffer, so
//! idle workers do not all stampede towards the same donor.

use vstd::prelude::*;

verus! {

/// One worker's buffer of pending work.
pub struct WorkerBuffer<T> {
    /// The pending items, newest last.
    pub items: Vec<T>,
    /// How many other workers are trying to steal from this buffer.
    pub waiting: usize,
}

/// The buffers of all workers.
pub struct WorkQueue<T> {
    pub bufs: Vec<WorkerBuffer<T>>,
}

impl<T> WorkQueue<T> {
    /// The number of workers.
    pub open spec fn num_workers(self) -> nat {
        self.bufs@.len()
    }

    /// The pending items of worker `w`.
    pub open spec fn items_of(self, w: int) -> Seq<T> {
        self.bufs@[w].items@
    }

    /// The waiting count of worker `w`'s buffer.
    pub open spec fn waiting_of(self, w: int) -> nat {
        self.bufs@[w].waiting as nat
    }

    /// `j` is a buffer that `me` could steal from: another worker's, and
    /// not empty.
    pub open spec fn donor_ok(self, me: int, j: int) -> bool {
        0 <= j < self.num_workers() && j != me && self.items_of(j).len() > 0
    }

    /// `j` is the donor the stealing rule picks for `me`: the first
    /// non-empty buffer nobody waits on, or, when every non-empty buffer is
    /// waited on, the first one with the fewest waiters.
    pub open spec fn is_steal_choice(self, me: int, j: int) -> bool {
        self.donor_ok(me, j) && if self.waiting_of(j) == 0 {
            forall|k: int|
                0 <= k < j ==> !(self.donor_ok(me, k) && self.waiting_of(k) == 0)
        } else {
            (forall|k: int| self.donor_ok(me, k) ==> self.waiting_of(k) > 0) && (forall|k: int|
                self.donor_ok(me, k) ==> self.waiting_of(j) <= self.waiting_of(k)) && (forall|
                k: int,
            |
                0 <= k < j && self.donor_ok(me, k) ==> self.waiting_of(k) > self.waiting_of(j))
        }
    }

    /// A queue of `n` empty buffers.
    pub fn new(n: usize) -> (r: WorkQueue<T>)
        ensures
            r.num_workers() == n,
            forall|j: int| 0 <= j < n ==> r.items_of(j).len() == 0,
            forall|j: int| 0 <= j < n ==> r.waiting_of(j) == 0,
    {
        let mut bufs: Vec<WorkerBuffer<T>> = Vec::new();
        let mut i: usize = 0;
        while i < n
            invariant
                i <= n,
                bufs@.len() == i,
                forall|j: int| 0 <= j < i ==> bufs@[j].items@.len() == 0,
                forall|j: int| 0 <= j < i ==> bufs@[j].waiting == 0,
            decreases n - i,
        {
            bufs.push(WorkerBuffer { items: Vec::new(), waiting: 0 });
            i += 1;
        }
        WorkQueue { bufs }
    }

    /// Appends `t` to worker `w`'s own buffer.
    pub fn push(&mut self, w: usize, t: T)
        requires
            w < old(self).num_workers(),
        ensures
            final(self).num_workers() == old(self).num_workers(),
            forall|j: int|
                0 <= j < old(self).num_workers() && j != w ==> final(self).bufs@[j] == old(
                    self,
                ).bufs@[j],
            final(self).items_of(w as int) == old(self).items_of(w as int).push(t),
            final(self).waiting_of(w as int) == old(self).waiting_of(w as int),
    {
        let buf = &mut self.bufs[w];
        buf.items.push(t);
    }

    /// Removes and returns the most recently pushed item of worker `w`'s
    /// own buffer, if any.
    pub fn pop(&mut self, w: usize) -> (r: Option<T>)
        requires
            w < old(self).num_workers(),
        ensures
            final(self).num_workers() == old(self).num_workers(),
            forall|j: int|
                0 <= j < old(self).num_workers() && j != w ==> final(self).bufs@[j] == old(
                    self,
                ).bufs@[j],
            final(self).waiting_of(w as int) == old(self).waiting_of(w as int),
            old(self).items_of(w as int).len() == 0 ==> r is None && final(self).items_of(
                w as int,
            ) == old(self).items_of(w as int),
            old(self).items_of(w as int).len() > 0 ==> r == Some(
                old(self).items_of(w as int).last(),
            ) && final(self).items_of(w as int) == old(self).items_of(w as int).drop_last(),
    {
        let buf = &mut self.bufs[w];
        buf.items.pop()
    }

    /// The donor that the stealing rule selects for `me`, if any buffer can
    /// be stolen from at all.
    pub fn steal_target(&self, me: usize) -> (r: Option<usize>)
        requires
            me < self.num_workers(),
        ensures
            r is None ==> forall|k: int| !self.donor_ok(me as int, k),
            r matches Some(j) ==> self.is_steal_choice(me as int, j as int),
    {
        let n = self.bufs.len();
        let mut best: Option<usize> = None;
        let mut k: usize = 0;
        while k < n
            invariant
                me < n,
                n == self.num_workers(),
                k <= n,
                forall|i: int|
                    0 <= i < k ==> !(self.donor_ok(me as int, i) && self.waiting_of(i) == 0),
                match best {
                    None => forall|i: int| 0 <= i < k ==> !self.donor_ok(me as int, i),
                    Some(b) => (b < k && self.donor_ok(me as int, b as int) && self.waiting_of(
                        b as int,
                    ) > 0 && (forall|i: int|
                        0 <= i < k && self.donor_ok(me as int, i) ==> self.waiting_of(
                            b as int,
                        ) <= self.waiting_of(i)) && (forall|i: int|
                        0 <= i < b && self.donor_ok(me as int, i) ==> self.waiting_of(i)
                            > self.waiting_of(b as int))),
                },
            decreases n - k,
        {
            if k != me {
                let len_k = self.bufs[k].items.len();
                let waiting_k = self.bufs[k].waiting;
                if len_k > 0 {
                    if waiting_k == 0 {
                        return Some(k);
                    }
                    match best {
                        None => {
                            best = Some(k);
                        },
                        Some(b) => {
                            if waiting_k < self.bufs[b].waiting {
                                best = Some(k);
                            }
                        },
                    }
                }
            }
            k += 1;
        }
        best
    }

    /// Steals one item: picks the donor the stealing rule selects, raises
    /// its waiting count while taking the item, and lowers it again.
    pub fn steal(&mut self, me: usize) -> (r: Option<T>)
        requires
            me < old(self).num_workers(),
        ensures
            final(self).num_workers() == old(self).num_workers(),
            r is None ==> (forall|k: int| !old(self).donor_ok(me as int, k)) && *final(self)
                == *old(self),
            r matches Some(t) ==> exists|j: int|
                {
                    &&& #[trigger] old(self).is_steal_choice(me as int, j)
                    &&& t == old(self).items_of(j).last()
                    &&& final(self).bufs@ == old(self).bufs@.update(
                        j,
                        WorkerBuffer {
                            items: final(self).bufs@[j].items,
                            waiting: old(self).bufs@[j].waiting,
                        },
                    )
                    &&& final(self).items_of(j) == old(self).items_of(j).drop_last()
                    &&& final(self).waiting_of(j) == old(self).waiting_of(j)
                },
    {
        match self.steal_target(me) {
            None => None,
            Some(j) => {
                let ghost pre = *self;
                // The ceiling guard never fires with a bounded worker pool;
                // it only keeps the counter from wrapping.
                let cur = self.bufs[j].waiting;
                if cur < usize::MAX {
                    let buf = &mut self.bufs[j];
                    buf.waiting = cur + 1;
                }
                let buf = &mut self.bufs[j];
                let r = buf.items.pop();
                let buf = &mut self.bufs[j];
                buf.waiting = cur;
                proof {
                    assert(self.bufs@ =~= pre.bufs@.update(
                        j as int,
                        WorkerBuffer {
                            items: self.bufs@[j as int].items,
                            waiting: pre.bufs@[j as int].waiting,
                        },
                    ));
                }
                r
            },
        }
    }
}

} // verus!
