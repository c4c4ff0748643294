//! The per-channel engine: a bounded ingestion queue, an append-only event
//! log, and a bounded, lossy broadcast ring for fan-out to subscribers.
//!
//! Publishing enqueues a batch (or reports backpressure when the queue is
//! full); a worker step drains one batch, appends its events to the log and
//! broadcasts it; subscribers read the broadcast stream through independent
//! cursors, skipping over batches that have fallen out of the bounded ring
//! rather than ever blocking the publisher.

use vstd::prelude::*;
use vstd::seq_lib::lemma_flatten_concat;
use crate::event::{batch_view, Event};

verus! {

/// Capacity of the ingestion queue, in pending batches.
pub const QUEUE_CAP: usize = 512;

/// Capacity of the broadcast replay ring, in batches.
pub const RING_CAP: usize = 512;

/// The engine for one channel.
///
/// `history` is the ghost record of every batch ever broadcast, in arrival
/// order; `total` is its length, and `ring` holds the most recent `RING_CAP`
/// of those batches for subscribers to catch up on.
pub struct ChannelEngine {
    /// Append-only log of all drained events, in arrival order.
    pub log: Vec<Event>,
    /// Pending batches, not yet drained by the worker.
    pub queue: Vec<Vec<Event>>,
    /// The most recent broadcast batches (a suffix of the broadcast history).
    pub ring: Vec<Vec<Event>>,
    /// Number of batches ever broadcast.
    pub total: usize,
    /// Ghost: the payloads of every batch ever broadcast, in arrival order.
    pub history: Ghost<Seq<Seq<Seq<char>>>>,
}

impl ChannelEngine {
    /// The payloads of the logged events, in order.
    pub open spec fn log_view(&self) -> Seq<Seq<char>> {
        batch_view(self.log@)
    }

    /// The payloads of the queued batches, in arrival order.
    pub open spec fn queue_views(&self) -> Seq<Seq<Seq<char>>> {
        self.queue@.map_values(|b: Vec<Event>| batch_view(b@))
    }

    /// The payloads of the batches retained in the broadcast ring.
    pub open spec fn ring_views(&self) -> Seq<Seq<Seq<char>>> {
        self.ring@.map_values(|b: Vec<Event>| batch_view(b@))
    }

    /// All batches ever broadcast, in arrival order.
    pub open spec fn hist(&self) -> Seq<Seq<Seq<char>>> {
        self.history@
    }

    /// Index of the oldest batch still held by the broadcast ring.
    pub open spec fn ring_start(&self) -> int {
        self.total - self.ring@.len()
    }

    /// Where a subscriber whose cursor is `cursor` actually resumes reading:
    /// a cursor that has fallen behind the ring skips forward (lossy
    /// catch-up) instead of blocking anyone.
    pub open spec fn resume_at(&self, cursor: int) -> int {
        if cursor < self.ring_start() {
            self.ring_start()
        } else {
            cursor
        }
    }

    /// Well-formedness: the log is exactly the concatenation of the broadcast
    /// history, the ring is the most recent suffix of that history, and both
    /// buffers respect their bounds.
    pub open spec fn wf(&self) -> bool {
        &&& self.total == self.hist().len()
        &&& self.ring@.len() <= RING_CAP
        &&& self.ring@.len() <= self.total
        &&& self.ring_views() == self.hist().skip(self.ring_start())
        &&& self.log_view() == self.hist().flatten()
        &&& self.queue@.len() <= QUEUE_CAP
    }

    /// A fresh engine: empty log, empty queue, nothing broadcast.
    pub fn new() -> (r: ChannelEngine)
        ensures
            r.wf(),
            r.log_view() == Seq::<Seq<char>>::empty(),
            r.queue@.len() == 0,
            r.ring@.len() == 0,
            r.total == 0,
            r.hist() == Seq::<Seq<Seq<char>>>::empty(),
    {
        let r = ChannelEngine {
            log: Vec::new(),
            queue: Vec::new(),
            ring: Vec::new(),
            total: 0,
            history: Ghost(Seq::empty()),
        };
        proof {
            assert(r.log_view() =~= Seq::<Seq<char>>::empty());
            assert(r.ring_views() =~= r.hist().skip(0));
            assert(r.hist().flatten() =~= Seq::<Seq<char>>::empty());
        }
        r
    }

    /// Non-blocking publish: enqueue one batch, or report backpressure when
    /// the ingestion queue is saturated. Never touches the log, the ring or
    /// any subscriber state.
    pub fn enqueue(&mut self, batch: Vec<Event>) -> (accepted: bool)
        requires
            old(self).wf(),
        ensures
            final(self).wf(),
            accepted == (old(self).queue@.len() < QUEUE_CAP),
            !accepted ==> *final(self) == *old(self),
            accepted ==> final(self).queue@ == old(self).queue@.push(batch),
            final(self).log == old(self).log,
            final(self).ring == old(self).ring,
            final(self).total == old(self).total,
            final(self).hist() == old(self).hist(),
    {
        if self.queue.len() < QUEUE_CAP {
            self.queue.push(batch);
            true
        } else {
            false
        }
    }

    /// One worker step: dequeue the oldest pending batch, append its events
    /// to the log, and broadcast it (making it the newest ring entry, and
    /// evicting the oldest entry when the ring is full). Returns whether any
    /// batch was pending.
    pub fn drain_step(&mut self) -> (progressed: bool)
        requires
            old(self).wf(),
            old(self).total < usize::MAX,
        ensures
            final(self).wf(),
            progressed == (old(self).queue@.len() > 0),
            !progressed ==> *final(self) == *old(self),
            progressed ==> final(self).queue_views() == old(self).queue_views().drop_first(),
            progressed ==> final(self).total == old(self).total + 1,
            progressed ==> final(self).hist() == old(self).hist().push(
                old(self).queue_views()[0],
            ),
            progressed ==> final(self).log_view() == old(self).log_view()
                + old(self).queue_views()[0],
            progressed ==> final(self).ring@.len() == (if old(self).ring@.len() < RING_CAP {
                old(self).ring@.len() + 1
            } else {
                RING_CAP as nat
            }),
    {
        if self.queue.len() == 0 {
            return false;
        }
        let batch = self.queue.remove(0);
        let ghost bv = batch_view(batch@);
        proof {
            assert(bv == old(self).queue_views()[0]);
            assert(self.queue_views() =~= old(self).queue_views().drop_first());
        }
        append_batch(&mut self.log, &batch);
        self.total = self.total + 1;
        let ghost pre_hist = self.history@;
        self.history = Ghost(self.history@.push(bv));
        proof {
            lemma_flatten_concat(pre_hist, seq![bv]);
            assert(pre_hist + seq![bv] =~= self.history@);
            seq![bv].lemma_flatten_one_element();
            assert(self.log_view() =~= self.history@.flatten());
        }
        let ghost pre_ring = self.ring@;
        let ghost pre_views = self.ring_views();
        let ghost start = old(self).ring_start();
        self.ring.push(batch);
        proof {
            assert forall|k: int| 0 <= k < pre_ring.len() + 1 implies self.ring_views()[k]
                == self.hist().skip(start)[k] by {
                if k < pre_ring.len() {
                    assert(self.ring_views()[k] == pre_views[k]);
                    assert(pre_views[k] == old(self).hist().skip(start)[k]);
                    assert(self.hist().skip(start)[k] == old(self).hist()[start + k]);
                } else {
                    assert(self.ring_views()[k] == bv);
                    assert(self.hist().skip(start)[k] == self.hist()[old(self).total as int]);
                }
            }
            assert(self.ring_views() =~= self.hist().skip(start));
        }
        if self.ring.len() > RING_CAP {
            let ghost mid_views = self.ring_views();
            let _evicted = self.ring.remove(0);
            proof {
                assert forall|k: int| 0 <= k < self.ring@.len() implies self.ring_views()[k]
                    == self.hist().skip(start + 1)[k] by {
                    assert(self.ring@[k] == pre_ring.push(batch).remove(0)[k]);
                    assert(self.ring_views()[k] == mid_views[k + 1]);
                    assert(mid_views[k + 1] == self.hist().skip(start)[k + 1]);
                }
                assert(self.ring_views() =~= self.hist().skip(self.ring_start()));
            }
        } else {
            proof {
                assert(self.ring_views() =~= self.hist().skip(self.ring_start()));
            }
        }
        true
    }

    /// A consistent snapshot of the full event log.
    pub fn snapshot(&self) -> (r: Vec<Event>)
        ensures
            batch_view(r@) == self.log_view(),
    {
        let r = self.log.clone();
        proof {
            assert(r@ =~= self.log@);
            assert(batch_view(r@) =~= self.log_view());
        }
        r
    }

    /// Open a fan-out cursor positioned at the current end of the broadcast
    /// stream: a new subscriber sees only events published from now on.
    pub fn open_cursor(&self) -> (c: usize)
        ensures
            c == self.total,
    {
        self.total
    }

    /// One subscriber read: return the next broadcast batch at (or, after a
    /// lossy skip, ahead of) `cursor`, together with the advanced cursor; or
    /// no batch when the subscriber has seen everything broadcast so far.
    pub fn fetch(&self, cursor: usize) -> (r: (usize, Option<Vec<Event>>))
        requires
            self.wf(),
            cursor <= self.total,
        ensures
            self.resume_at(cursor as int) < self.total ==> r.0 == self.resume_at(
                cursor as int,
            ) + 1,
            self.resume_at(cursor as int) < self.total ==> (r.1 matches Some(b)
                && batch_view(b@) == self.hist()[self.resume_at(cursor as int)]),
            self.resume_at(cursor as int) >= self.total ==> r.0 == self.resume_at(cursor as int)
                && r.1 is None,
            r.0 <= self.total,
            cursor <= r.0,
    {
        let start = self.total - self.ring.len();
        let c = if cursor < start {
            start
        } else {
            cursor
        };
        if c < self.total {
            let idx = c - start;
            let b = self.ring[idx].clone();
            proof {
                assert(b@ =~= self.ring@[idx as int]@);
                assert(self.ring_views()[idx as int] == self.hist().skip(self.ring_start())[
                    idx as int
                ]);
                assert(batch_view(b@) == self.hist()[c as int]);
            }
            (c + 1, Some(b))
        } else {
            (c, None)
        }
    }
}

/// Append every event of `batch` (by clone) to `log`, preserving order.
fn append_batch(log: &mut Vec<Event>, batch: &Vec<Event>)
    ensures
        final(log)@.len() == old(log)@.len() + batch@.len(),
        batch_view(final(log)@) == batch_view(old(log)@) + batch_view(batch@),
{
    let mut i: usize = 0;
    while i < batch.len()
        invariant
            i <= batch@.len(),
            log@.len() == old(log)@.len() + i,
            batch_view(log@) == batch_view(old(log)@) + batch_view(batch@.take(i as int)),
        decreases batch@.len() - i,
    {
        let e = batch[i].clone();
        proof {
            let pre = log@;
            let post = log@.push(e);
            let rhs = batch_view(old(log)@) + batch_view(batch@.take(i + 1));
            assert(batch_view(post).len() == rhs.len());
            assert forall|k: int| 0 <= k < post.len() implies batch_view(post)[k] == rhs[k] by {
                if k < pre.len() {
                    assert(batch_view(post)[k] == pre[k]@);
                    assert(batch_view(pre)[k] == pre[k]@);
                } else {
                    assert(batch_view(post)[k] == e@);
                    assert(rhs[k] == batch@.take(i + 1)[k - old(log)@.len()]@);
                }
            }
            assert(batch_view(post) =~= rhs);
        }
        log.push(e);
        i = i + 1;
    }
    proof {
        assert(batch@.take(batch@.len() as int) =~= batch@);
    }
}

/// Law: the event log is prefix-consistent. Whenever the broadcast history
/// only grows (as every engine step guarantees), the log only grows too: what
/// a reader saw earlier is a prefix of what any later reader sees, so events
/// are never reordered, dropped or duplicated in the log.
pub proof fn law_log_prefix_consistent(pre: ChannelEngine, post: ChannelEngine)
    requires
        pre.wf(),
        post.wf(),
        pre.hist().is_prefix_of(post.hist()),
    ensures
        pre.log_view().is_prefix_of(post.log_view()),
{
    let tail = post.hist().skip(pre.hist().len() as int);
    assert(post.hist() =~= pre.hist() + tail);
    lemma_flatten_concat(pre.hist(), tail);
    assert(post.log_view() =~= pre.log_view() + tail.flatten());
    assert(post.log_view().take(pre.log_view().len() as int) =~= pre.log_view());
}

} // verus!
