//! The subscription lifecycle: opening a subscription, the task's delivery
//! step, and the task's reaction to the sink's verdict.
//!
//! A subscription task is a state machine driven by its owner: each
//! `subscription_step` call decides the next action (wait, or forward one
//! batch to the user's sink); the owner performs the delivery and hands the
//! outcome back through `report_delivery`. Cancellation is removal of the
//! task from the bus, which `delete_user`, `delete_channel` and `delete_app`
//! perform for every task they own; a removed task's next step reports that
//! it is gone. A subscription starts at the current end of the broadcast
//! stream: it sees new events only, never history.

use vstd::prelude::*;
use crate::bus::{
    find_channel, lemma_app_witness, lemma_channel_preserved, lemma_tasks_filter, task_not_id,
    tasks_without_id, Bus, BusError, SubTask,
};
use crate::event::{batch_view, Event};

verus! {

/// What one subscription step asks its driver to do.
pub enum SubStep {
    /// No running task has this id: the subscription is over.
    Gone,
    /// The subscriber has seen everything broadcast so far; wait for more.
    Wait,
    /// Forward this batch to the named user's sink.
    Deliver(String, Vec<Event>),
}

/// The sink's verdict on one delivery, reported back by the driver.
#[derive(Clone, Copy, Debug, PartialEq, Eq, Structural)]
pub enum SinkStatus {
    /// The batch was accepted.
    Accepted,
    /// One delivery failed, but the sink may recover: the subscription
    /// continues.
    TransientError,
    /// The sink is permanently gone: the subscription stops.
    Closed,
}

/// What `subscribe` does: refuse a missing user, app or channel and register
/// nothing; otherwise register one fresh task for the user, bound to the
/// channel, whose cursor starts at the current end of the broadcast stream.
pub open spec fn subscribe_post(
    pre: Bus,
    post: Bus,
    name: Seq<char>,
    app: Seq<char>,
    ch: Seq<char>,
    r: Result<usize, BusError>,
) -> bool {
    &&& (r is Ok <==> pre.has_user(name) && pre.has_channel(app, ch))
    &&& (r is Err ==> r == Err::<usize, BusError>(BusError::NotFound) && post == pre)
    &&& (r matches Ok(id) ==> {
        let t = post.tasks@.last();
        &&& id == pre.next_task_id
        &&& post.tasks@ == pre.tasks@.push(t)
        &&& t.id == pre.next_task_id
        &&& t.user@ == name
        &&& t.app@ == app
        &&& t.channel@ == ch
        &&& t.cursor == pre.engine_at(app, ch).total
        &&& post.apps == pre.apps
        &&& post.users == pre.users
        &&& post.next_task_id == pre.next_task_id + 1
    })
}

/// What one `subscription_step` does. For a running task it reads the
/// channel's broadcast stream at the task's cursor: either there is nothing
/// new (wait, nothing changes), or the next retained batch — after a lossy
/// skip over batches that fell out of the ring — is handed out for delivery
/// to the task's user, and only the cursor advances.
pub open spec fn step_post(pre: Bus, post: Bus, id: int, act: SubStep) -> bool {
    let ti = pre.task_at(id);
    let t = pre.tasks@[ti];
    let eng = pre.engine_at(t.app@, t.channel@);
    let resume = eng.resume_at(t.cursor as int);
    &&& (!pre.has_task(id) ==> act == SubStep::Gone && post == pre)
    &&& (pre.has_task(id) && resume >= eng.total ==> act == SubStep::Wait && post == pre)
    &&& (pre.has_task(id) && resume < eng.total ==> {
        let nt = post.tasks@[ti];
        &&& (act matches SubStep::Deliver(u, b) && u@ == t.user@ && batch_view(b@) == eng.hist()[
            resume
        ])
        &&& post.tasks@ == pre.tasks@.update(ti, nt)
        &&& nt.id == t.id
        &&& nt.user == t.user
        &&& nt.app == t.app
        &&& nt.channel == t.channel
        &&& nt.cursor == resume + 1
        &&& post.apps == pre.apps
        &&& post.users == pre.users
        &&& post.next_task_id == pre.next_task_id
    })
}

/// What `report_delivery` does: a permanently closed sink stops (removes) the
/// subscription; any other verdict, a failed single delivery included, leaves
/// the subscription running and the bus unchanged.
pub open spec fn report_post(pre: Bus, post: Bus, id: int, status: SinkStatus) -> bool {
    &&& (status != SinkStatus::Closed ==> post == pre)
    &&& (status == SinkStatus::Closed ==> {
        &&& post.tasks@ == pre.tasks@.filter(task_not_id(id))
        &&& !post.has_task(id)
        &&& post.apps == pre.apps
        &&& post.users == pre.users
        &&& post.next_task_id == pre.next_task_id
    })
}

impl Bus {
    /// Subscribe the named user to a channel: register a task that will
    /// forward every batch broadcast from now on to that user's sink.
    /// Returns the task id driven by `subscription_step`. Refused with
    /// `NotFound` when the user, the app or the channel does not exist, and
    /// then registers nothing.
    pub fn subscribe(&mut self, name: &String, app: &String, ch: &String) -> (r: Result<
        usize,
        BusError,
    >)
        requires
            old(self).wf(),
            old(self).next_task_id < usize::MAX,
        ensures
            final(self).wf(),
            subscribe_post(*old(self), *final(self), name@, app@, ch@, r),
    {
        if self.find_user(name).is_none() {
            return Err(BusError::NotFound);
        }
        let ai = match self.find_app(app) {
            None => {
                return Err(BusError::NotFound);
            },
            Some(a) => a,
        };
        let ci = match find_channel(&self.apps[ai].channels, ch) {
            None => {
                return Err(BusError::NotFound);
            },
            Some(c) => c,
        };
        let cursor = self.apps[ai].channels[ci].engine.open_cursor();
        let tid = self.next_task_id;
        self.next_task_id = tid + 1;
        self.tasks.push(
            SubTask {
                id: tid,
                user: name.clone(),
                app: app.clone(),
                channel: ch.clone(),
                cursor,
            },
        );
        proof {
            let pre = *old(self);
            let post = *self;
            let n = pre.tasks@.len() as int;
            assert forall|i: int, j: int| 0 <= i < j < post.tasks@.len() implies (
            #[trigger] post.tasks@[i]).id != (#[trigger] post.tasks@[j]).id by {
                if j < n {
                    assert(pre.tasks@[i].id != pre.tasks@[j].id);
                } else {
                    assert(post.tasks@[i] == pre.tasks@[i]);
                    assert(pre.tasks@[i].id < pre.next_task_id);
                }
            }
            assert forall|i: int| 0 <= i < post.tasks@.len() implies post.task_ok(
                #[trigger] post.tasks@[i],
            ) && post.tasks@[i].id < post.next_task_id by {
                let t = post.tasks@[i];
                if i < n {
                    assert(t == pre.tasks@[i]);
                    assert(pre.task_ok(t));
                    let uk = choose|k: int|
                        0 <= k < pre.users@.len() && (#[trigger] pre.users@[k])@ == t.user@;
                    assert(post.users@[uk]@ == t.user@);
                    let pai = pre.app_at(t.app@);
                    lemma_app_witness(pre, pai);
                    lemma_channel_preserved(pre, post, t.app@, t.channel@, pai, pai);
                } else {
                    let uk = pre.user_at(name@);
                    assert(post.users@[uk]@ == t.user@);
                    lemma_channel_preserved(pre, post, app@, ch@, ai as int, ai as int);
                }
            }
        }
        Ok(tid)
    }

    /// One step of the subscription task with this id: hand out the next
    /// broadcast batch for delivery to the owning user (skipping batches that
    /// fell out of the bounded ring), or report that there is nothing new, or
    /// that the task is gone.
    pub fn subscription_step(&mut self, id: usize) -> (act: SubStep)
        requires
            old(self).wf(),
        ensures
            final(self).wf(),
            step_post(*old(self), *final(self), id as int, act),
    {
        let ti = match self.find_task(id) {
            None => {
                return SubStep::Gone;
            },
            Some(t) => t,
        };
        let user = self.tasks[ti].user.clone();
        let app = self.tasks[ti].app.clone();
        let ch = self.tasks[ti].channel.clone();
        let cursor = self.tasks[ti].cursor;
        let ai = match self.find_app(&app) {
            None => {
                // Unreachable: a running task's channel (and so its app)
                // exists, by well-formedness.
                proof {
                    assert(false);
                }
                return SubStep::Gone;
            },
            Some(a) => a,
        };
        let ci = match find_channel(&self.apps[ai].channels, &ch) {
            None => {
                // Unreachable for the same reason: the channel exists.
                proof {
                    assert(false);
                }
                return SubStep::Gone;
            },
            Some(c) => c,
        };
        let fetched = self.apps[ai].channels[ci].engine.fetch(cursor);
        match fetched.1 {
            None => SubStep::Wait,
            Some(b) => {
                let tk = &mut self.tasks[ti];
                tk.cursor = fetched.0;
                proof {
                    let pre = *old(self);
                    let post = *self;
                    assert forall|i: int, j: int| 0 <= i < j < post.tasks@.len() implies (
                    #[trigger] post.tasks@[i]).id != (#[trigger] post.tasks@[j]).id by {
                        assert(pre.tasks@[i].id != pre.tasks@[j].id);
                        assert(post.tasks@[i].id == pre.tasks@[i].id);
                        assert(post.tasks@[j].id == pre.tasks@[j].id);
                    }
                    assert forall|i: int| 0 <= i < post.tasks@.len() implies post.task_ok(
                        #[trigger] post.tasks@[i],
                    ) && post.tasks@[i].id < post.next_task_id by {
                        let t = post.tasks@[i];
                        let pt = pre.tasks@[i];
                        assert(pre.task_ok(pt));
                        assert(t.user == pt.user && t.app == pt.app && t.channel == pt.channel);
                        let uk = choose|k: int|
                            0 <= k < pre.users@.len() && (#[trigger] pre.users@[k])@ == pt.user@;
                        assert(post.users@[uk]@ == t.user@);
                        let pai = pre.app_at(pt.app@);
                        lemma_app_witness(pre, pai);
                        lemma_channel_preserved(pre, post, pt.app@, pt.channel@, pai, pai);
                    }
                }
                SubStep::Deliver(user, b)
            },
        }
    }

    /// Record the sink's verdict on a delivery handed out by
    /// `subscription_step`: a permanently closed sink stops the subscription;
    /// a transient failure (or success) leaves it running.
    pub fn report_delivery(&mut self, id: usize, status: SinkStatus)
        requires
            old(self).wf(),
        ensures
            final(self).wf(),
            report_post(*old(self), *final(self), id as int, status),
    {
        match status {
            SinkStatus::Closed => {
                let kept = tasks_without_id(&self.tasks, id);
                self.tasks = kept;
                proof {
                    let pre = *old(self);
                    let post = *self;
                    broadcast use vstd::seq_lib::group_filter_ensures;

                    lemma_tasks_filter(pre.tasks@, task_not_id(id as int));
                    assert(!post.has_task(id as int));
                    assert forall|i: int| 0 <= i < post.tasks@.len() implies post.task_ok(
                        #[trigger] post.tasks@[i],
                    ) && post.tasks@[i].id < post.next_task_id by {
                        let t = post.tasks@[i];
                        assert(pre.tasks@.contains(t));
                        let pi = choose|k: int| 0 <= k < pre.tasks@.len() && pre.tasks@[k] == t;
                        assert(pre.task_ok(t));
                        let uk = choose|k: int|
                            0 <= k < pre.users@.len() && (#[trigger] pre.users@[k])@ == t.user@;
                        assert(post.users@[uk]@ == t.user@);
                        let pai = pre.app_at(t.app@);
                        lemma_app_witness(pre, pai);
                        lemma_channel_preserved(pre, post, t.app@, t.channel@, pai, pai);
                    }
                }
            },
            _ => {},
        }
    }
}

} // verus!
