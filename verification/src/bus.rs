//! The bus: the app/channel registry, the user registry, and the running
//! subscription tasks, together with every operation the event bus offers.
//!
//! The bus is a state machine. Registry operations (create/delete of apps,
//! channels and users), publishing and reading are synchronous; the channel
//! workers and the subscription tasks are driven by explicit steps
//! (`drain_channel`, `subscription_step`, `report_delivery`) so that a caller
//! owns all scheduling.

use vstd::prelude::*;
use crate::engine::{ChannelEngine, QUEUE_CAP, RING_CAP};
use crate::event::{batch_view, Event};

verus! {

/// Why an operation was refused.
#[derive(Clone, Copy, Debug, PartialEq, Eq, Structural)]
pub enum BusError {
    /// A referenced app, channel or user does not exist.
    NotFound,
    /// A create named a key that is already taken.
    AlreadyExists,
    /// The channel's ingestion queue is saturated; retry or drop.
    Backpressure,
}

/// One channel under an app: its key and its engine.
pub struct ChannelEntry {
    pub id: String,
    pub engine: ChannelEngine,
}

/// One app: its key and its channels.
pub struct AppEntry {
    pub id: String,
    pub channels: Vec<ChannelEntry>,
}

/// One running subscription: a (user, app, channel) binding with a private
/// cursor into the channel's broadcast stream. The user is held by name — a
/// back-reference for delivery routing, never an ownership edge.
pub struct SubTask {
    pub id: usize,
    pub user: String,
    pub app: String,
    pub channel: String,
    pub cursor: usize,
}

/// The whole event bus.
pub struct Bus {
    pub apps: Vec<AppEntry>,
    pub users: Vec<String>,
    pub tasks: Vec<SubTask>,
    pub next_task_id: usize,
}

pub open spec fn apps_distinct(apps: Seq<AppEntry>) -> bool {
    forall|i: int, j: int|
        0 <= i < j < apps.len() ==> (#[trigger] apps[i]).id@ != (#[trigger] apps[j]).id@
}

pub open spec fn channels_distinct(chs: Seq<ChannelEntry>) -> bool {
    forall|i: int, j: int|
        0 <= i < j < chs.len() ==> (#[trigger] chs[i]).id@ != (#[trigger] chs[j]).id@
}

pub open spec fn users_distinct(users: Seq<String>) -> bool {
    forall|i: int, j: int|
        0 <= i < j < users.len() ==> (#[trigger] users[i])@ != (#[trigger] users[j])@
}

pub open spec fn tasks_distinct(tasks: Seq<SubTask>) -> bool {
    forall|i: int, j: int|
        0 <= i < j < tasks.len() ==> (#[trigger] tasks[i]).id != (#[trigger] tasks[j]).id
}

pub open spec fn seq_has_channel(chs: Seq<ChannelEntry>, id: Seq<char>) -> bool {
    exists|j: int| 0 <= j < chs.len() && (#[trigger] chs[j]).id@ == id
}

pub open spec fn channel_at(chs: Seq<ChannelEntry>, id: Seq<char>) -> int {
    choose|j: int| 0 <= j < chs.len() && (#[trigger] chs[j]).id@ == id
}

/// Every engine of the app is well-formed and its channel keys are unique.
pub open spec fn app_wf(a: AppEntry) -> bool {
    &&& channels_distinct(a.channels@)
    &&& forall|j: int| 0 <= j < a.channels@.len() ==> (#[trigger] a.channels@[j]).engine.wf()
}

impl Bus {
    pub open spec fn has_app(self, id: Seq<char>) -> bool {
        exists|i: int| 0 <= i < self.apps@.len() && (#[trigger] self.apps@[i]).id@ == id
    }

    pub open spec fn app_at(self, id: Seq<char>) -> int {
        choose|i: int| 0 <= i < self.apps@.len() && (#[trigger] self.apps@[i]).id@ == id
    }

    /// The channels of an existing app.
    pub open spec fn channels_of(self, id: Seq<char>) -> Seq<ChannelEntry> {
        self.apps@[self.app_at(id)].channels@
    }

    pub open spec fn has_channel(self, app: Seq<char>, ch: Seq<char>) -> bool {
        self.has_app(app) && seq_has_channel(self.channels_of(app), ch)
    }

    /// The engine of an existing channel.
    pub open spec fn engine_at(self, app: Seq<char>, ch: Seq<char>) -> ChannelEngine {
        self.channels_of(app)[channel_at(self.channels_of(app), ch)].engine
    }

    pub open spec fn has_user(self, name: Seq<char>) -> bool {
        exists|i: int| 0 <= i < self.users@.len() && (#[trigger] self.users@[i])@ == name
    }

    pub open spec fn user_at(self, name: Seq<char>) -> int {
        choose|i: int| 0 <= i < self.users@.len() && (#[trigger] self.users@[i])@ == name
    }

    pub open spec fn has_task(self, id: int) -> bool {
        exists|i: int| 0 <= i < self.tasks@.len() && (#[trigger] self.tasks@[i]).id == id
    }

    pub open spec fn task_at(self, id: int) -> int {
        choose|i: int| 0 <= i < self.tasks@.len() && (#[trigger] self.tasks@[i]).id == id
    }

    /// A task is only ever registered for a live user on a live channel, with
    /// a cursor inside that channel's broadcast stream.
    pub open spec fn task_ok(self, t: SubTask) -> bool {
        &&& self.has_user(t.user@)
        &&& self.has_channel(t.app@, t.channel@)
        &&& t.cursor <= self.engine_at(t.app@, t.channel@).total
    }

    /// Well-formedness of the whole bus: unique keys throughout, well-formed
    /// engines, fresh task ids, and no task orphaned from its user or its
    /// channel.
    pub open spec fn wf(self) -> bool {
        &&& apps_distinct(self.apps@)
        &&& forall|i: int| 0 <= i < self.apps@.len() ==> app_wf(#[trigger] self.apps@[i])
        &&& users_distinct(self.users@)
        &&& tasks_distinct(self.tasks@)
        &&& forall|i: int| 0 <= i < self.tasks@.len() ==> (#[trigger] self.tasks@[i]).id
            < self.next_task_id
        &&& forall|i: int| 0 <= i < self.tasks@.len() ==> self.task_ok(#[trigger] self.tasks@[i])
    }

    /// An empty bus: no apps, no users, no tasks.
    pub fn new() -> (r: Bus)
        ensures
            r.wf(),
            r.apps@.len() == 0,
            r.users@.len() == 0,
            r.tasks@.len() == 0,
            r.next_task_id == 0,
    {
        Bus { apps: Vec::new(), users: Vec::new(), tasks: Vec::new(), next_task_id: 0 }
    }
}

/// With unique app keys, any index holding `id` is the looked-up index.
pub proof fn lemma_app_witness(b: Bus, i: int)
    requires
        apps_distinct(b.apps@),
        0 <= i < b.apps@.len(),
    ensures
        b.has_app(b.apps@[i].id@),
        b.app_at(b.apps@[i].id@) == i,
{
    assert(b.has_app(b.apps@[i].id@));
    let j = b.app_at(b.apps@[i].id@);
    if i < j {
        assert(b.apps@[i].id@ != b.apps@[j].id@);
    } else if j < i {
        assert(b.apps@[j].id@ != b.apps@[i].id@);
    }
}

/// With unique channel keys, any index holding `id` is the looked-up index.
pub proof fn lemma_channel_witness(chs: Seq<ChannelEntry>, j: int)
    requires
        channels_distinct(chs),
        0 <= j < chs.len(),
    ensures
        seq_has_channel(chs, chs[j].id@),
        channel_at(chs, chs[j].id@) == j,
{
    assert(seq_has_channel(chs, chs[j].id@));
    let k = channel_at(chs, chs[j].id@);
    if j < k {
        assert(chs[j].id@ != chs[k].id@);
    } else if k < j {
        assert(chs[k].id@ != chs[j].id@);
    }
}

/// With unique user names, any index holding `name` is the looked-up index.
pub proof fn lemma_user_witness(b: Bus, i: int)
    requires
        users_distinct(b.users@),
        0 <= i < b.users@.len(),
    ensures
        b.has_user(b.users@[i]@),
        b.user_at(b.users@[i]@) == i,
{
    assert(b.has_user(b.users@[i]@));
    let j = b.user_at(b.users@[i]@);
    if i < j {
        assert(b.users@[i]@ != b.users@[j]@);
    } else if j < i {
        assert(b.users@[j]@ != b.users@[i]@);
    }
}

/// With unique task ids, any index holding `id` is the looked-up index.
pub proof fn lemma_task_witness(b: Bus, i: int)
    requires
        tasks_distinct(b.tasks@),
        0 <= i < b.tasks@.len(),
    ensures
        b.has_task(b.tasks@[i].id as int),
        b.task_at(b.tasks@[i].id as int) == i,
{
    assert(b.has_task(b.tasks@[i].id as int));
    let j = b.task_at(b.tasks@[i].id as int);
    if i < j {
        assert(b.tasks@[i].id != b.tasks@[j].id);
    } else if j < i {
        assert(b.tasks@[j].id != b.tasks@[i].id);
    }
}

impl Bus {
    /// Index of the app named `id`, when it exists.
    pub(crate) fn find_app(&self, id: &String) -> (r: Option<usize>)
        requires
            apps_distinct(self.apps@),
        ensures
            r is Some ==> {
                let i = r->Some_0 as int;
                &&& i < self.apps@.len()
                &&& self.apps@[i].id@ == id@
                &&& self.has_app(id@)
                &&& self.app_at(id@) == i
            },
            r is None ==> !self.has_app(id@),
    {
        let mut i: usize = 0;
        while i < self.apps.len()
            invariant
                apps_distinct(self.apps@),
                i <= self.apps@.len(),
                forall|k: int| 0 <= k < i ==> (#[trigger] self.apps@[k]).id@ != id@,
            decreases self.apps@.len() - i,
        {
            if self.apps[i].id == *id {
                proof {
                    lemma_app_witness(*self, i as int);
                }
                return Some(i);
            }
            i = i + 1;
        }
        None
    }

    /// Index of the user named `name`, when it exists.
    pub(crate) fn find_user(&self, name: &String) -> (r: Option<usize>)
        requires
            users_distinct(self.users@),
        ensures
            r is Some ==> {
                let i = r->Some_0 as int;
                &&& i < self.users@.len()
                &&& self.users@[i]@ == name@
                &&& self.has_user(name@)
                &&& self.user_at(name@) == i
            },
            r is None ==> !self.has_user(name@),
    {
        let mut i: usize = 0;
        while i < self.users.len()
            invariant
                users_distinct(self.users@),
                i <= self.users@.len(),
                forall|k: int| 0 <= k < i ==> (#[trigger] self.users@[k])@ != name@,
            decreases self.users@.len() - i,
        {
            if self.users[i] == *name {
                proof {
                    lemma_user_witness(*self, i as int);
                }
                return Some(i);
            }
            i = i + 1;
        }
        None
    }

    /// Index of the running task with this id, when there is one.
    pub(crate) fn find_task(&self, id: usize) -> (r: Option<usize>)
        requires
            tasks_distinct(self.tasks@),
        ensures
            r is Some ==> {
                let i = r->Some_0 as int;
                &&& i < self.tasks@.len()
                &&& self.tasks@[i].id == id
                &&& self.has_task(id as int)
                &&& self.task_at(id as int) == i
            },
            r is None ==> !self.has_task(id as int),
    {
        let mut i: usize = 0;
        while i < self.tasks.len()
            invariant
                tasks_distinct(self.tasks@),
                i <= self.tasks@.len(),
                forall|k: int| 0 <= k < i ==> (#[trigger] self.tasks@[k]).id != id,
            decreases self.tasks@.len() - i,
        {
            if self.tasks[i].id == id {
                proof {
                    lemma_task_witness(*self, i as int);
                }
                return Some(i);
            }
            i = i + 1;
        }
        None
    }
}

/// A channel that exists in the earlier of a pair of states, and its engine,
/// are preserved when the app entry holding it recurs unchanged in the later
/// state (possibly at another index).
pub(crate) proof fn lemma_channel_preserved(
    pre: Bus,
    post: Bus,
    app: Seq<char>,
    ch: Seq<char>,
    pi: int,
    qi: int,
)
    requires
        apps_distinct(pre.apps@),
        apps_distinct(post.apps@),
        pre.has_channel(app, ch),
        0 <= pi < pre.apps@.len(),
        pre.apps@[pi].id@ == app,
        0 <= qi < post.apps@.len(),
        post.apps@[qi] == pre.apps@[pi],
    ensures
        post.has_channel(app, ch),
        post.engine_at(app, ch) == pre.engine_at(app, ch),
        post.app_at(app) == qi,
{
    lemma_app_witness(pre, pi);
    lemma_app_witness(post, qi);
    assert(post.channels_of(app) == pre.channels_of(app));
}

/// What `create_app` does: refuse a taken key and change nothing, or append
/// one empty app and touch nothing else.
pub open spec fn create_app_post(pre: Bus, post: Bus, id: Seq<char>, r: Result<
    (),
    BusError,
>) -> bool {
    &&& (r is Ok <==> !pre.has_app(id))
    &&& (r is Err ==> r == Err::<(), BusError>(BusError::AlreadyExists) && post == pre)
    &&& (r is Ok ==> post.apps@ == pre.apps@.push(post.apps@.last()) && post.apps@.last().id@ == id
        && post.apps@.last().channels@.len() == 0 && post.users == pre.users && post.tasks
        == pre.tasks && post.next_task_id == pre.next_task_id)
}

/// What `create_user` does: refuse a taken name and change nothing, or append
/// one user (with an empty subscription set) and touch nothing else.
pub open spec fn create_user_post(pre: Bus, post: Bus, name: Seq<char>, r: Result<
    (),
    BusError,
>) -> bool {
    &&& (r is Ok <==> !pre.has_user(name))
    &&& (r is Err ==> r == Err::<(), BusError>(BusError::AlreadyExists) && post == pre)
    &&& (r is Ok ==> post.users@ == pre.users@.push(post.users@.last()) && post.users@.last()@
        == name && post.apps == pre.apps && post.tasks == pre.tasks && post.next_task_id
        == pre.next_task_id)
}

/// What `create_channel` does: refuse a missing app or a taken channel key
/// and change nothing, or append one fresh channel (empty log, empty queue,
/// nothing broadcast) under the app and touch nothing else.
pub open spec fn create_channel_post(pre: Bus, post: Bus, app: Seq<char>, ch: Seq<char>, r: Result<
    (),
    BusError,
>) -> bool {
    let ai = pre.app_at(app);
    &&& (r is Ok <==> pre.has_app(app) && !pre.has_channel(app, ch))
    &&& (!pre.has_app(app) ==> r == Err::<(), BusError>(BusError::NotFound) && post == pre)
    &&& (pre.has_app(app) && pre.has_channel(app, ch) ==> r == Err::<(), BusError>(
        BusError::AlreadyExists,
    ) && post == pre)
    &&& (r is Ok ==> {
        let entry = post.apps@[ai];
        &&& post.apps@ == pre.apps@.update(ai, entry)
        &&& entry.id == pre.apps@[ai].id
        &&& entry.channels@ == pre.apps@[ai].channels@.push(entry.channels@.last())
        &&& entry.channels@.last().id@ == ch
        &&& entry.channels@.last().engine.total == 0
        &&& entry.channels@.last().engine.queue@.len() == 0
        &&& entry.channels@.last().engine.log_view() == Seq::<Seq<char>>::empty()
        &&& post.has_channel(app, ch)
        &&& post.users == pre.users
        &&& post.tasks == pre.tasks
        &&& post.next_task_id == pre.next_task_id
    })
}

impl Bus {
    /// Create an empty app named `id`; refused with `AlreadyExists` when the
    /// key is taken.
    pub fn create_app(&mut self, id: String) -> (r: Result<(), BusError>)
        requires
            old(self).wf(),
        ensures
            final(self).wf(),
            create_app_post(*old(self), *final(self), id@, r),
    {
        match self.find_app(&id) {
            Some(_) => Err(BusError::AlreadyExists),
            None => {
                self.apps.push(AppEntry { id, channels: Vec::new() });
                proof {
                    let pre = *old(self);
                    let post = *self;
                    let n = pre.apps@.len() as int;
                    assert forall|i: int, j: int| 0 <= i < j < post.apps@.len() implies (
                    #[trigger] post.apps@[i]).id@ != (#[trigger] post.apps@[j]).id@ by {
                        if j < n {
                            assert(pre.apps@[i].id@ != pre.apps@[j].id@);
                        } else {
                            assert(post.apps@[i] == pre.apps@[i]);
                            if post.apps@[i].id@ == post.apps@[j].id@ {
                                assert(pre.has_app(post.apps@[j].id@));
                            }
                        }
                    }
                    assert(app_wf(post.apps@[n])) by {
                        assert(post.apps@[n].channels@.len() == 0);
                    }
                    assert forall|i: int| 0 <= i < post.tasks@.len() implies post.task_ok(
                        #[trigger] post.tasks@[i],
                    ) by {
                        let t = post.tasks@[i];
                        assert(pre.task_ok(t));
                        let ui = choose|k: int|
                            0 <= k < pre.users@.len() && (#[trigger] pre.users@[k])@ == t.user@;
                        assert(post.users@[ui]@ == t.user@);
                        let ai = pre.app_at(t.app@);
                        lemma_channel_preserved(pre, post, t.app@, t.channel@, ai, ai);
                    }
                    assert(post.apps@.last().channels@.len() == 0);
                }
                Ok(())
            },
        }
    }

    /// Create a user named `name` with no subscriptions; refused with
    /// `AlreadyExists` when the name is taken. The caller associates the
    /// user's delivery sink with the name.
    pub fn create_user(&mut self, name: String) -> (r: Result<(), BusError>)
        requires
            old(self).wf(),
        ensures
            final(self).wf(),
            create_user_post(*old(self), *final(self), name@, r),
    {
        match self.find_user(&name) {
            Some(_) => Err(BusError::AlreadyExists),
            None => {
                self.users.push(name);
                proof {
                    let pre = *old(self);
                    let post = *self;
                    let n = pre.users@.len() as int;
                    assert forall|i: int, j: int| 0 <= i < j < post.users@.len() implies (
                    #[trigger] post.users@[i])@ != (#[trigger] post.users@[j])@ by {
                        if j < n {
                            assert(pre.users@[i]@ != pre.users@[j]@);
                        } else {
                            assert(post.users@[i] == pre.users@[i]);
                            if post.users@[i]@ == post.users@[j]@ {
                                assert(pre.has_user(post.users@[j]@));
                            }
                        }
                    }
                    assert forall|i: int| 0 <= i < post.tasks@.len() implies post.task_ok(
                        #[trigger] post.tasks@[i],
                    ) by {
                        let t = post.tasks@[i];
                        assert(pre.task_ok(t));
                        let ui = choose|k: int|
                            0 <= k < pre.users@.len() && (#[trigger] pre.users@[k])@ == t.user@;
                        assert(post.users@[ui]@ == t.user@);
                        let ai = pre.app_at(t.app@);
                        lemma_channel_preserved(pre, post, t.app@, t.channel@, ai, ai);
                    }
                }
                Ok(())
            },
        }
    }

    /// Create a channel named `ch` under the app named `app`, with a fresh
    /// engine; refused with `NotFound` when the app is missing and with
    /// `AlreadyExists` when the channel key is taken.
    pub fn create_channel(&mut self, app: &String, ch: String) -> (r: Result<(), BusError>)
        requires
            old(self).wf(),
        ensures
            final(self).wf(),
            create_channel_post(*old(self), *final(self), app@, ch@, r),
    {
        let ai = match self.find_app(app) {
            None => {
                return Err(BusError::NotFound);
            },
            Some(ai) => ai,
        };
        match find_channel(&self.apps[ai].channels, &ch) {
            Some(_) => Err(BusError::AlreadyExists),
            None => {
                let entry = &mut self.apps[ai];
                entry.channels.push(ChannelEntry { id: ch, engine: ChannelEngine::new() });
                proof {
                    let pre = *old(self);
                    let post = *self;
                    let pch = pre.apps@[ai as int].channels@;
                    let n = pch.len() as int;
                    let nch = post.apps@[ai as int].channels@;
                    assert(nch == pch.push(nch.last()));
                    assert forall|i: int, j: int| 0 <= i < j < nch.len() implies (
                    #[trigger] nch[i]).id@ != (#[trigger] nch[j]).id@ by {
                        if j < n {
                            assert(pch[i].id@ != pch[j].id@);
                        } else {
                            assert(nch[i] == pch[i]);
                            if nch[i].id@ == nch[j].id@ {
                                assert(seq_has_channel(pch, nch[j].id@));
                            }
                        }
                    }
                    assert(app_wf(post.apps@[ai as int]));
                    assert(apps_distinct(post.apps@)) by {
                        assert forall|i: int, j: int| 0 <= i < j < post.apps@.len() implies (
                        #[trigger] post.apps@[i]).id@ != (#[trigger] post.apps@[j]).id@ by {
                            assert(pre.apps@[i].id@ != pre.apps@[j].id@);
                            assert(post.apps@[i].id@ == pre.apps@[i].id@);
                            assert(post.apps@[j].id@ == pre.apps@[j].id@);
                        }
                    }
                    assert forall|i: int| 0 <= i < post.tasks@.len() implies post.task_ok(
                        #[trigger] post.tasks@[i],
                    ) by {
                        let t = post.tasks@[i];
                        assert(pre.task_ok(t));
                        let ui = choose|k: int|
                            0 <= k < pre.users@.len() && (#[trigger] pre.users@[k])@ == t.user@;
                        assert(post.users@[ui]@ == t.user@);
                        let pai = pre.app_at(t.app@);
                        lemma_app_witness(pre, pai);
                        lemma_app_witness(post, pai);
                        if pai != ai as int {
                            lemma_channel_preserved(pre, post, t.app@, t.channel@, pai, pai);
                        } else {
                            let cj = channel_at(pch, t.channel@);
                            lemma_channel_witness(pch, cj);
                            lemma_channel_witness(nch, cj);
                            assert(post.engine_at(t.app@, t.channel@) == pre.engine_at(
                                t.app@,
                                t.channel@,
                            ));
                        }
                    }
                    lemma_app_witness(post, ai as int);
                    lemma_channel_witness(nch, n);
                    assert(post.has_channel(app@, ch@));
                }
                Ok(())
            },
        }
    }
}

/// Index of the channel named `id` among `channels`, when it exists.
pub(crate) fn find_channel(channels: &Vec<ChannelEntry>, id: &String) -> (r: Option<usize>)
    requires
        channels_distinct(channels@),
    ensures
        r is Some ==> {
            let j = r->Some_0 as int;
            &&& j < channels@.len()
            &&& channels@[j].id@ == id@
            &&& seq_has_channel(channels@, id@)
            &&& channel_at(channels@, id@) == j
        },
        r is None ==> !seq_has_channel(channels@, id@),
{
    let mut j: usize = 0;
    while j < channels.len()
        invariant
            channels_distinct(channels@),
            j <= channels@.len(),
            forall|k: int| 0 <= k < j ==> (#[trigger] channels@[k]).id@ != id@,
        decreases channels@.len() - j,
    {
        if channels[j].id == *id {
            proof {
                lemma_channel_witness(channels@, j as int);
            }
            return Some(j);
        }
        j = j + 1;
    }
    None
}

impl Clone for SubTask {
    fn clone(&self) -> (r: SubTask)
        ensures
            r == *self,
    {
        SubTask {
            id: self.id,
            user: self.user.clone(),
            app: self.app.clone(),
            channel: self.channel.clone(),
            cursor: self.cursor,
        }
    }
}

/// Keep the tasks that do not belong to the named user.
pub open spec fn task_not_user(name: Seq<char>) -> spec_fn(SubTask) -> bool {
    |t: SubTask| t.user@ != name
}

/// Keep the tasks that are not bound to a channel of the named app.
pub open spec fn task_not_app(id: Seq<char>) -> spec_fn(SubTask) -> bool {
    |t: SubTask| t.app@ != id
}

/// Keep the tasks that are not bound to the named channel.
pub open spec fn task_not_channel(app: Seq<char>, ch: Seq<char>) -> spec_fn(SubTask) -> bool {
    |t: SubTask| t.app@ != app || t.channel@ != ch
}

/// Keep the tasks other than the one with the given id.
pub open spec fn task_not_id(id: int) -> spec_fn(SubTask) -> bool {
    |t: SubTask| t.id != id
}

proof fn lemma_filter_singleton<A>(x: A, p: spec_fn(A) -> bool)
    ensures
        p(x) ==> seq![x].filter(p) == seq![x],
        !p(x) ==> seq![x].filter(p) == Seq::<A>::empty(),
{
    reveal_with_fuel(Seq::filter, 3);
    let s = seq![x];
    assert(s.drop_last() =~= Seq::<A>::empty());
    assert(Seq::<A>::empty().filter(p) =~= Seq::<A>::empty());
    if p(x) {
        assert(s.filter(p) =~= Seq::<A>::empty().push(x));
        assert(Seq::<A>::empty().push(x) =~= s);
    }
}

/// Filtering a duplicate-free sequence keeps it duplicate-free and keeps only
/// elements of the original.
proof fn lemma_filter_no_dup_subset<A>(s: Seq<A>, p: spec_fn(A) -> bool)
    requires
        s.no_duplicates(),
    ensures
        s.filter(p).no_duplicates(),
        forall|k: int| 0 <= k < s.filter(p).len() ==> s.contains(#[trigger] s.filter(p)[k]),
    decreases s.len(),
{
    reveal_with_fuel(Seq::filter, 2);
    if s.len() > 0 {
        let dl = s.drop_last();
        assert(dl.no_duplicates());
        lemma_filter_no_dup_subset(dl, p);
        let f = s.filter(p);
        let fd = dl.filter(p);
        assert forall|k: int| 0 <= k < f.len() implies s.contains(f[k]) by {
            if k < fd.len() {
                assert(dl.contains(fd[k]));
                let m = choose|m: int| 0 <= m < dl.len() && dl[m] == fd[k];
                assert(s[m] == fd[k]);
            } else {
                assert(f[k] == s.last());
                assert(s[s.len() - 1] == s.last());
            }
        }
        if p(s.last()) {
            assert(f == fd.push(s.last()));
            if fd.contains(s.last()) {
                let m = choose|m: int| 0 <= m < fd.len() && fd[m] == s.last();
                assert(dl.contains(fd[m]));
                let q = choose|q: int| 0 <= q < dl.len() && dl[q] == fd[m];
                assert(s[q] == s[s.len() - 1]);
                assert(false);
            }
            assert forall|i: int, j: int|
                0 <= i < f.len() && 0 <= j < f.len() && i != j implies f[i] != f[j] by {
                if i < fd.len() && j < fd.len() {
                    assert(fd[i] != fd[j]);
                } else if i < fd.len() {
                    assert(f[j] == s.last());
                    if f[i] == s.last() {
                        assert(fd.contains(fd[i]));
                        assert(false);
                    }
                } else {
                    assert(f[i] == s.last());
                    if f[j] == s.last() {
                        assert(fd.contains(fd[j]));
                        assert(false);
                    }
                }
            }
        }
    }
}

/// Filtering tasks keeps their ids unique and keeps only original tasks.
pub(crate) proof fn lemma_tasks_filter(s: Seq<SubTask>, p: spec_fn(SubTask) -> bool)
    requires
        tasks_distinct(s),
    ensures
        tasks_distinct(s.filter(p)),
        forall|k: int| 0 <= k < s.filter(p).len() ==> s.contains(#[trigger] s.filter(p)[k]),
{
    assert(s.no_duplicates()) by {
        assert forall|i: int, j: int|
            0 <= i < s.len() && 0 <= j < s.len() && i != j implies s[i] != s[j] by {
            if i < j {
                assert(s[i].id != s[j].id);
            } else {
                assert(s[j].id != s[i].id);
            }
        }
    }
    lemma_filter_no_dup_subset(s, p);
    let f = s.filter(p);
    assert forall|i: int, j: int| 0 <= i < j < f.len() implies (#[trigger] f[i]).id != (
    #[trigger] f[j]).id by {
        assert(s.contains(f[i]));
        assert(s.contains(f[j]));
        let ki = choose|k: int| 0 <= k < s.len() && s[k] == f[i];
        let kj = choose|k: int| 0 <= k < s.len() && s[k] == f[j];
        assert(f[i] != f[j]);
        if f[i].id == f[j].id {
            if ki < kj {
                assert(s[ki].id != s[kj].id);
            } else if kj < ki {
                assert(s[kj].id != s[ki].id);
            }
            assert(false);
        }
    }
}

/// Removing one user keeps names unique, drops exactly that name, and keeps
/// every other user.
proof fn lemma_users_remove(s: Seq<String>, i: int)
    requires
        users_distinct(s),
        0 <= i < s.len(),
    ensures
        users_distinct(s.remove(i)),
        forall|k: int| 0 <= k < s.remove(i).len() ==> (#[trigger] s.remove(i)[k])@ != s[i]@,
{
    s.remove_ensures(i);
    let r = s.remove(i);
    assert forall|k: int| 0 <= k < r.len() implies (#[trigger] r[k])@ != s[i]@ by {
        if k < i {
            assert(r[k] == s[k]);
        } else {
            assert(r[k] == s[k + 1]);
        }
    }
    assert forall|a: int, b: int| 0 <= a < b < r.len() implies (#[trigger] r[a])@ != (
    #[trigger] r[b])@ by {
        let sa: int = if a < i {
            a
        } else {
            a + 1
        };
        let sb: int = if b < i {
            b
        } else {
            b + 1
        };
        assert(r[a] == s[sa]);
        assert(r[b] == s[sb]);
        assert(s[sa]@ != s[sb]@);
    }
}

/// Removing one app keeps keys unique and drops exactly that key.
proof fn lemma_apps_remove(s: Seq<AppEntry>, i: int)
    requires
        apps_distinct(s),
        0 <= i < s.len(),
    ensures
        apps_distinct(s.remove(i)),
        forall|k: int| 0 <= k < s.remove(i).len() ==> (#[trigger] s.remove(i)[k]).id@ != s[i].id@,
{
    s.remove_ensures(i);
    let r = s.remove(i);
    assert forall|k: int| 0 <= k < r.len() implies (#[trigger] r[k]).id@ != s[i].id@ by {
        if k < i {
            assert(r[k] == s[k]);
        } else {
            assert(r[k] == s[k + 1]);
        }
    }
    assert forall|a: int, b: int| 0 <= a < b < r.len() implies (#[trigger] r[a]).id@ != (
    #[trigger] r[b]).id@ by {
        let sa: int = if a < i {
            a
        } else {
            a + 1
        };
        let sb: int = if b < i {
            b
        } else {
            b + 1
        };
        assert(r[a] == s[sa]);
        assert(r[b] == s[sb]);
        assert(s[sa].id@ != s[sb].id@);
    }
}

/// Removing one channel keeps keys unique and drops exactly that key.
proof fn lemma_channels_remove(s: Seq<ChannelEntry>, i: int)
    requires
        channels_distinct(s),
        0 <= i < s.len(),
    ensures
        channels_distinct(s.remove(i)),
        forall|k: int| 0 <= k < s.remove(i).len() ==> (#[trigger] s.remove(i)[k]).id@ != s[i].id@,
{
    s.remove_ensures(i);
    let r = s.remove(i);
    assert forall|k: int| 0 <= k < r.len() implies (#[trigger] r[k]).id@ != s[i].id@ by {
        if k < i {
            assert(r[k] == s[k]);
        } else {
            assert(r[k] == s[k + 1]);
        }
    }
    assert forall|a: int, b: int| 0 <= a < b < r.len() implies (#[trigger] r[a]).id@ != (
    #[trigger] r[b]).id@ by {
        let sa: int = if a < i {
            a
        } else {
            a + 1
        };
        let sb: int = if b < i {
            b
        } else {
            b + 1
        };
        assert(r[a] == s[sa]);
        assert(r[b] == s[sb]);
        assert(s[sa].id@ != s[sb].id@);
    }
}

/// The tasks of `tasks` that do not belong to the named user, in order.
fn tasks_without_user(tasks: &Vec<SubTask>, name: &String) -> (r: Vec<SubTask>)
    ensures
        r@ == tasks@.filter(task_not_user(name@)),
{
    let mut kept: Vec<SubTask> = Vec::new();
    let mut i: usize = 0;
    proof {
        assert(tasks@.take(0) =~= Seq::<SubTask>::empty());
    }
    while i < tasks.len()
        invariant
            i <= tasks@.len(),
            kept@ == tasks@.take(i as int).filter(task_not_user(name@)),
        decreases tasks@.len() - i,
    {
        let keep = !(tasks[i].user == *name);
        proof {
            let pred = task_not_user(name@);
            let t = tasks@[i as int];
            assert(keep == pred(t));
            assert(tasks@.take(i as int + 1) =~= tasks@.take(i as int) + seq![t]);
            Seq::filter_distributes_over_add(tasks@.take(i as int), seq![t], pred);
            lemma_filter_singleton(t, pred);
            if pred(t) {
                assert(tasks@.take(i as int + 1).filter(pred) =~= kept@.push(t));
            } else {
                assert(tasks@.take(i as int + 1).filter(pred) =~= kept@);
            }
        }
        if keep {
            kept.push(tasks[i].clone());
        }
        i = i + 1;
    }
    proof {
        assert(tasks@.take(tasks@.len() as int) =~= tasks@);
    }
    kept
}

/// The tasks of `tasks` not bound to a channel of the named app, in order.
fn tasks_without_app(tasks: &Vec<SubTask>, id: &String) -> (r: Vec<SubTask>)
    ensures
        r@ == tasks@.filter(task_not_app(id@)),
{
    let mut kept: Vec<SubTask> = Vec::new();
    let mut i: usize = 0;
    proof {
        assert(tasks@.take(0) =~= Seq::<SubTask>::empty());
    }
    while i < tasks.len()
        invariant
            i <= tasks@.len(),
            kept@ == tasks@.take(i as int).filter(task_not_app(id@)),
        decreases tasks@.len() - i,
    {
        let keep = !(tasks[i].app == *id);
        proof {
            let pred = task_not_app(id@);
            let t = tasks@[i as int];
            assert(keep == pred(t));
            assert(tasks@.take(i as int + 1) =~= tasks@.take(i as int) + seq![t]);
            Seq::filter_distributes_over_add(tasks@.take(i as int), seq![t], pred);
            lemma_filter_singleton(t, pred);
            if pred(t) {
                assert(tasks@.take(i as int + 1).filter(pred) =~= kept@.push(t));
            } else {
                assert(tasks@.take(i as int + 1).filter(pred) =~= kept@);
            }
        }
        if keep {
            kept.push(tasks[i].clone());
        }
        i = i + 1;
    }
    proof {
        assert(tasks@.take(tasks@.len() as int) =~= tasks@);
    }
    kept
}

/// The tasks of `tasks` not bound to the named channel, in order.
fn tasks_without_channel(tasks: &Vec<SubTask>, app: &String, ch: &String) -> (r: Vec<SubTask>)
    ensures
        r@ == tasks@.filter(task_not_channel(app@, ch@)),
{
    let mut kept: Vec<SubTask> = Vec::new();
    let mut i: usize = 0;
    proof {
        assert(tasks@.take(0) =~= Seq::<SubTask>::empty());
    }
    while i < tasks.len()
        invariant
            i <= tasks@.len(),
            kept@ == tasks@.take(i as int).filter(task_not_channel(app@, ch@)),
        decreases tasks@.len() - i,
    {
        let keep = !(tasks[i].app == *app) || !(tasks[i].channel == *ch);
        proof {
            let pred = task_not_channel(app@, ch@);
            let t = tasks@[i as int];
            assert(keep == pred(t));
            assert(tasks@.take(i as int + 1) =~= tasks@.take(i as int) + seq![t]);
            Seq::filter_distributes_over_add(tasks@.take(i as int), seq![t], pred);
            lemma_filter_singleton(t, pred);
            if pred(t) {
                assert(tasks@.take(i as int + 1).filter(pred) =~= kept@.push(t));
            } else {
                assert(tasks@.take(i as int + 1).filter(pred) =~= kept@);
            }
        }
        if keep {
            kept.push(tasks[i].clone());
        }
        i = i + 1;
    }
    proof {
        assert(tasks@.take(tasks@.len() as int) =~= tasks@);
    }
    kept
}

/// The payloads of a `get_events` result, for stating laws about it.
pub open spec fn events_result_view(r: Result<Vec<Event>, BusError>) -> Result<
    Seq<Seq<char>>,
    BusError,
> {
    match r {
        Ok(v) => Ok(batch_view(v@)),
        Err(e) => Err(e),
    }
}

/// What `get_events` returns: the full log of an existing channel (a
/// consistent, arrival-ordered prefix of everything published), `NotFound`
/// otherwise. The bus is not changed.
pub open spec fn get_events_post(b: Bus, app: Seq<char>, ch: Seq<char>, r: Result<
    Seq<Seq<char>>,
    BusError,
>) -> bool {
    &&& (r is Ok <==> b.has_channel(app, ch))
    &&& (r is Err ==> r == Err::<Seq<Seq<char>>, BusError>(BusError::NotFound))
    &&& (r matches Ok(v) ==> v == b.engine_at(app, ch).log_view())
}

/// What `publish` does: refuse a missing channel (`NotFound`) or a saturated
/// ingestion queue (`Backpressure`) and change nothing; otherwise append the
/// batch to that queue and touch nothing else — never the log, the broadcast
/// state, or any subscriber.
pub open spec fn publish_post(
    pre: Bus,
    post: Bus,
    app: Seq<char>,
    ch: Seq<char>,
    batch: Seq<Seq<char>>,
    r: Result<(), BusError>,
) -> bool {
    let ai = pre.app_at(app);
    let chs = pre.channels_of(app);
    let ci = channel_at(chs, ch);
    let eng = pre.engine_at(app, ch);
    &&& (r is Ok <==> pre.has_channel(app, ch) && eng.queue@.len() < QUEUE_CAP)
    &&& (!pre.has_channel(app, ch) ==> r == Err::<(), BusError>(BusError::NotFound) && post == pre)
    &&& (pre.has_channel(app, ch) && eng.queue@.len() >= QUEUE_CAP ==> r == Err::<(), BusError>(
        BusError::Backpressure,
    ) && post == pre)
    &&& (r is Ok ==> {
        let entry = post.apps@[ai];
        let neng = entry.channels@[ci].engine;
        &&& post.apps@ == pre.apps@.update(ai, entry)
        &&& entry.id == pre.apps@[ai].id
        &&& entry.channels@ == chs.update(ci, entry.channels@[ci])
        &&& entry.channels@[ci].id == chs[ci].id
        &&& neng.queue_views() == eng.queue_views().push(batch)
        &&& neng.log == eng.log
        &&& neng.ring == eng.ring
        &&& neng.total == eng.total
        &&& neng.hist() == eng.hist()
        &&& post.has_channel(app, ch)
        &&& post.engine_at(app, ch) == neng
        &&& post.users == pre.users
        &&& post.tasks == pre.tasks
        &&& post.next_task_id == pre.next_task_id
    })
}

/// What one worker step (`drain_channel`) does: on an existing channel with a
/// pending batch, dequeue the oldest batch, append its events to the log and
/// broadcast it, touching nothing else; report whether a batch was pending.
pub open spec fn drain_post(pre: Bus, post: Bus, app: Seq<char>, ch: Seq<char>, r: Result<
    bool,
    BusError,
>) -> bool {
    let ai = pre.app_at(app);
    let chs = pre.channels_of(app);
    let ci = channel_at(chs, ch);
    let eng = pre.engine_at(app, ch);
    &&& (r is Ok <==> pre.has_channel(app, ch))
    &&& (r is Err ==> r == Err::<bool, BusError>(BusError::NotFound) && post == pre)
    &&& (r matches Ok(p) ==> p == (eng.queue@.len() > 0))
    &&& (r == Ok::<bool, BusError>(false) ==> post == pre)
    &&& (r == Ok::<bool, BusError>(true) ==> {
        let entry = post.apps@[ai];
        let neng = entry.channels@[ci].engine;
        &&& post.apps@ == pre.apps@.update(ai, entry)
        &&& entry.id == pre.apps@[ai].id
        &&& entry.channels@ == chs.update(ci, entry.channels@[ci])
        &&& entry.channels@[ci].id == chs[ci].id
        &&& neng.queue_views() == eng.queue_views().drop_first()
        &&& neng.total == eng.total + 1
        &&& neng.hist() == eng.hist().push(eng.queue_views()[0])
        &&& neng.log_view() == eng.log_view() + eng.queue_views()[0]
        &&& neng.ring@.len() == (if eng.ring@.len() < RING_CAP {
            eng.ring@.len() + 1
        } else {
            RING_CAP as nat
        })
        &&& post.has_channel(app, ch)
        &&& post.engine_at(app, ch) == neng
        &&& post.users == pre.users
        &&& post.tasks == pre.tasks
        &&& post.next_task_id == pre.next_task_id
    })
}

impl Bus {
    /// Read the full event log of a channel: a consistent, arrival-ordered
    /// snapshot. Safe to call at any time; never changes the bus, so two
    /// reads with no intervening worker step return the same events.
    pub fn get_events(&self, app: &String, ch: &String) -> (r: Result<Vec<Event>, BusError>)
        requires
            self.wf(),
        ensures
            get_events_post(*self, app@, ch@, events_result_view(r)),
    {
        let ai = match self.find_app(app) {
            None => {
                return Err(BusError::NotFound);
            },
            Some(a) => a,
        };
        let ci = match find_channel(&self.apps[ai].channels, ch) {
            None => {
                return Err(BusError::NotFound);
            },
            Some(c) => c,
        };
        Ok(self.apps[ai].channels[ci].engine.snapshot())
    }

    /// Publish one batch: enqueue it on the channel's bounded ingestion
    /// queue. Never blocks and never waits on any subscriber: a full queue is
    /// reported as `Backpressure` at once. The events reach the log and the
    /// broadcast stream when the worker drains them, in arrival order.
    pub fn publish(&mut self, app: &String, ch: &String, batch: Vec<Event>) -> (r: Result<
        (),
        BusError,
    >)
        requires
            old(self).wf(),
        ensures
            final(self).wf(),
            publish_post(*old(self), *final(self), app@, ch@, batch_view(batch@), r),
    {
        let ai = match self.find_app(app) {
            None => {
                return Err(BusError::NotFound);
            },
            Some(a) => a,
        };
        let ci = match find_channel(&self.apps[ai].channels, ch) {
            None => {
                return Err(BusError::NotFound);
            },
            Some(c) => c,
        };
        if self.apps[ai].channels[ci].engine.queue.len() >= QUEUE_CAP {
            return Err(BusError::Backpressure);
        }
        let entry = &mut self.apps[ai];
        let chan = &mut entry.channels[ci];
        let accepted = chan.engine.enqueue(batch);
        proof {
            let pre = *old(self);
            let post = *self;
            assert(accepted);
            let peng = pre.engine_at(app@, ch@);
            let neng = post.apps@[ai as int].channels@[ci as int].engine;
            assert(neng.queue@ == peng.queue@.push(batch));
            assert(neng.queue_views() =~= peng.queue_views().push(batch_view(batch@)));
            assert(apps_distinct(post.apps@)) by {
                assert forall|i: int, j: int| 0 <= i < j < post.apps@.len() implies (
                #[trigger] post.apps@[i]).id@ != (#[trigger] post.apps@[j]).id@ by {
                    assert(pre.apps@[i].id@ != pre.apps@[j].id@);
                    assert(post.apps@[i].id@ == pre.apps@[i].id@);
                    assert(post.apps@[j].id@ == pre.apps@[j].id@);
                }
            }
            let pch = pre.apps@[ai as int].channels@;
            let nch = post.apps@[ai as int].channels@;
            assert(app_wf(post.apps@[ai as int])) by {
                assert forall|i: int, j: int| 0 <= i < j < nch.len() implies (
                #[trigger] nch[i]).id@ != (#[trigger] nch[j]).id@ by {
                    assert(pch[i].id@ != pch[j].id@);
                    assert(nch[i].id@ == pch[i].id@);
                    assert(nch[j].id@ == pch[j].id@);
                }
                assert forall|j: int| 0 <= j < nch.len() implies (
                #[trigger] nch[j]).engine.wf() by {
                    if j != ci as int {
                        assert(nch[j] == pch[j]);
                    }
                }
            }
            lemma_app_witness(post, ai as int);
            lemma_channel_witness(nch, ci as int);
            assert(post.has_channel(app@, ch@));
            assert(post.engine_at(app@, ch@) == nch[ci as int].engine);
            assert forall|i: int| 0 <= i < post.tasks@.len() implies post.task_ok(
                #[trigger] post.tasks@[i],
            ) by {
                let t = post.tasks@[i];
                assert(pre.task_ok(t));
                let uk = choose|k: int|
                    0 <= k < pre.users@.len() && (#[trigger] pre.users@[k])@ == t.user@;
                assert(post.users@[uk]@ == t.user@);
                let pai = pre.app_at(t.app@);
                lemma_app_witness(pre, pai);
                if pai != ai as int {
                    lemma_channel_preserved(pre, post, t.app@, t.channel@, pai, pai);
                } else {
                    lemma_app_witness(post, ai as int);
                    let cj = channel_at(pch, t.channel@);
                    lemma_channel_witness(pch, cj);
                    lemma_channel_witness(nch, cj);
                    assert(post.engine_at(t.app@, t.channel@).total == pre.engine_at(
                        t.app@,
                        t.channel@,
                    ).total);
                }
            }
        }
        Ok(())
    }

    /// One step of a channel's worker: drain the oldest pending batch into
    /// the log and broadcast it to the channel's subscribers. Returns whether
    /// a batch was pending. The caller loops this, one channel's worker never
    /// contending with another's.
    pub fn drain_channel(&mut self, app: &String, ch: &String) -> (r: Result<bool, BusError>)
        requires
            old(self).wf(),
            old(self).has_channel(app@, ch@) ==> old(self).engine_at(app@, ch@).total
                < usize::MAX,
        ensures
            final(self).wf(),
            drain_post(*old(self), *final(self), app@, ch@, r),
    {
        let ai = match self.find_app(app) {
            None => {
                return Err(BusError::NotFound);
            },
            Some(a) => a,
        };
        let ci = match find_channel(&self.apps[ai].channels, ch) {
            None => {
                return Err(BusError::NotFound);
            },
            Some(c) => c,
        };
        if self.apps[ai].channels[ci].engine.queue.len() == 0 {
            return Ok(false);
        }
        let entry = &mut self.apps[ai];
        let chan = &mut entry.channels[ci];
        let progressed = chan.engine.drain_step();
        proof {
            let pre = *old(self);
            let post = *self;
            assert(progressed);
            assert(apps_distinct(post.apps@)) by {
                assert forall|i: int, j: int| 0 <= i < j < post.apps@.len() implies (
                #[trigger] post.apps@[i]).id@ != (#[trigger] post.apps@[j]).id@ by {
                    assert(pre.apps@[i].id@ != pre.apps@[j].id@);
                    assert(post.apps@[i].id@ == pre.apps@[i].id@);
                    assert(post.apps@[j].id@ == pre.apps@[j].id@);
                }
            }
            let pch = pre.apps@[ai as int].channels@;
            let nch = post.apps@[ai as int].channels@;
            assert(app_wf(post.apps@[ai as int])) by {
                assert forall|i: int, j: int| 0 <= i < j < nch.len() implies (
                #[trigger] nch[i]).id@ != (#[trigger] nch[j]).id@ by {
                    assert(pch[i].id@ != pch[j].id@);
                    assert(nch[i].id@ == pch[i].id@);
                    assert(nch[j].id@ == pch[j].id@);
                }
                assert forall|j: int| 0 <= j < nch.len() implies (
                #[trigger] nch[j]).engine.wf() by {
                    if j != ci as int {
                        assert(nch[j] == pch[j]);
                    }
                }
            }
            lemma_app_witness(post, ai as int);
            lemma_channel_witness(nch, ci as int);
            assert(post.has_channel(app@, ch@));
            assert(post.engine_at(app@, ch@) == nch[ci as int].engine);
            assert forall|i: int| 0 <= i < post.tasks@.len() implies post.task_ok(
                #[trigger] post.tasks@[i],
            ) by {
                let t = post.tasks@[i];
                assert(pre.task_ok(t));
                let uk = choose|k: int|
                    0 <= k < pre.users@.len() && (#[trigger] pre.users@[k])@ == t.user@;
                assert(post.users@[uk]@ == t.user@);
                let pai = pre.app_at(t.app@);
                lemma_app_witness(pre, pai);
                if pai != ai as int {
                    lemma_channel_preserved(pre, post, t.app@, t.channel@, pai, pai);
                } else {
                    lemma_app_witness(post, ai as int);
                    let cj = channel_at(pch, t.channel@);
                    lemma_channel_witness(pch, cj);
                    lemma_channel_witness(nch, cj);
                    if cj != ci as int {
                        assert(post.engine_at(t.app@, t.channel@) == pre.engine_at(
                            t.app@,
                            t.channel@,
                        ));
                    } else {
                        assert(post.engine_at(t.app@, t.channel@).total == pre.engine_at(
                            t.app@,
                            t.channel@,
                        ).total + 1);
                    }
                }
            }
        }
        Ok(true)
    }
}

/// What `delete_user` does: refuse a missing name and change nothing, or
/// remove the user and cancel every one of its subscription tasks — all of
/// them, before the call returns — leaving apps and channels untouched.
pub open spec fn delete_user_post(pre: Bus, post: Bus, name: Seq<char>, r: Result<
    (),
    BusError,
>) -> bool {
    &&& (r is Ok <==> pre.has_user(name))
    &&& (r is Err ==> r == Err::<(), BusError>(BusError::NotFound) && post == pre)
    &&& (r is Ok ==> {
        &&& post.users@ == pre.users@.remove(pre.user_at(name))
        &&& !post.has_user(name)
        &&& post.tasks@ == pre.tasks@.filter(task_not_user(name))
        &&& (forall|k: int| 0 <= k < post.tasks@.len() ==> (#[trigger] post.tasks@[k]).user@
            != name)
        &&& post.apps == pre.apps
        &&& post.next_task_id == pre.next_task_id
    })
}

/// What `delete_app` does: refuse a missing key and change nothing, or remove
/// the app with every channel it contains and cancel every subscription task
/// bound to any of those channels. The operation requires every queue under
/// the app to be drained first, so teardown drops no accepted batch.
pub open spec fn delete_app_post(pre: Bus, post: Bus, id: Seq<char>, r: Result<
    (),
    BusError,
>) -> bool {
    &&& (r is Ok <==> pre.has_app(id))
    &&& (r is Err ==> r == Err::<(), BusError>(BusError::NotFound) && post == pre)
    &&& (r is Ok ==> {
        &&& post.apps@ == pre.apps@.remove(pre.app_at(id))
        &&& !post.has_app(id)
        &&& post.tasks@ == pre.tasks@.filter(task_not_app(id))
        &&& post.users == pre.users
        &&& post.next_task_id == pre.next_task_id
    })
}

/// What `delete_channel` does: refuse a missing app or channel and change
/// nothing, or remove the channel and cancel every subscription task bound to
/// it, leaving every other channel untouched. The operation requires the
/// channel's ingestion queue to be drained first, so teardown drops no
/// accepted batch.
pub open spec fn delete_channel_post(pre: Bus, post: Bus, app: Seq<char>, ch: Seq<char>, r: Result<
    (),
    BusError,
>) -> bool {
    let ai = pre.app_at(app);
    &&& (r is Ok <==> pre.has_channel(app, ch))
    &&& (r is Err ==> r == Err::<(), BusError>(BusError::NotFound) && post == pre)
    &&& (r is Ok ==> {
        let entry = post.apps@[ai];
        &&& post.apps@ == pre.apps@.update(ai, entry)
        &&& entry.id == pre.apps@[ai].id
        &&& entry.channels@ == pre.channels_of(app).remove(
            channel_at(pre.channels_of(app), ch),
        )
        &&& !post.has_channel(app, ch)
        &&& post.tasks@ == pre.tasks@.filter(task_not_channel(app, ch))
        &&& post.users == pre.users
        &&& post.next_task_id == pre.next_task_id
    })
}

impl Bus {
    /// Delete the user named `name`: cancel every subscription task it owns
    /// (all of them, before the call returns), then drop the user; the caller
    /// releases the user's sink. Refused with `NotFound` for an unknown name.
    pub fn delete_user(&mut self, name: &String) -> (r: Result<(), BusError>)
        requires
            old(self).wf(),
        ensures
            final(self).wf(),
            delete_user_post(*old(self), *final(self), name@, r),
    {
        let ui = match self.find_user(name) {
            None => {
                return Err(BusError::NotFound);
            },
            Some(u) => u,
        };
        let _removed = self.users.remove(ui);
        let kept = tasks_without_user(&self.tasks, name);
        self.tasks = kept;
        proof {
            let pre = *old(self);
            let post = *self;
            lemma_users_remove(pre.users@, ui as int);
            lemma_tasks_filter(pre.tasks@, task_not_user(name@));
            broadcast use vstd::seq_lib::group_filter_ensures;
            assert(!post.has_user(name@));
            assert forall|i: int| 0 <= i < post.tasks@.len() implies post.task_ok(
                #[trigger] post.tasks@[i],
            ) && post.tasks@[i].id < post.next_task_id by {
                let t = post.tasks@[i];
                assert(pre.tasks@.contains(t));
                let pi = choose|k: int| 0 <= k < pre.tasks@.len() && pre.tasks@[k] == t;
                assert(pre.task_ok(t));
                assert(t.user@ != name@);
                let uk = choose|k: int|
                    0 <= k < pre.users@.len() && (#[trigger] pre.users@[k])@ == t.user@;
                pre.users@.remove_ensures(ui as int);
                if uk < ui as int {
                    assert(post.users@[uk]@ == t.user@);
                } else {
                    assert(pre.users@[ui as int]@ == name@);
                    assert(uk != ui as int);
                    assert(post.users@[uk - 1]@ == t.user@);
                }
                let pai = pre.app_at(t.app@);
                lemma_channel_preserved(pre, post, t.app@, t.channel@, pai, pai);
            }
        }
        Ok(())
    }

    /// Delete the app named `id`, tearing down every channel under it and
    /// cancelling every subscription task bound to any of those channels.
    /// As for `delete_channel`, the caller drains every channel of the app
    /// first (the precondition holds it to that), so teardown drops no
    /// accepted batch. Refused with `NotFound` for an unknown key.
    pub fn delete_app(&mut self, id: &String) -> (r: Result<(), BusError>)
        requires
            old(self).wf(),
            old(self).has_app(id@) ==> forall|j: int|
                0 <= j < old(self).channels_of(id@).len() ==> (#[trigger] old(self).channels_of(
                    id@,
                )[j]).engine.queue@.len() == 0,
        ensures
            final(self).wf(),
            delete_app_post(*old(self), *final(self), id@, r),
    {
        let ai = match self.find_app(id) {
            None => {
                return Err(BusError::NotFound);
            },
            Some(a) => a,
        };
        let _removed = self.apps.remove(ai);
        let kept = tasks_without_app(&self.tasks, id);
        self.tasks = kept;
        proof {
            let pre = *old(self);
            let post = *self;
            lemma_apps_remove(pre.apps@, ai as int);
            lemma_tasks_filter(pre.tasks@, task_not_app(id@));
            broadcast use vstd::seq_lib::group_filter_ensures;
            pre.apps@.remove_ensures(ai as int);
            assert(!post.has_app(id@));
            assert forall|i: int| 0 <= i < post.apps@.len() implies app_wf(
                #[trigger] post.apps@[i],
            ) by {
                if i < ai as int {
                    assert(post.apps@[i] == pre.apps@[i]);
                } else {
                    assert(post.apps@[i] == pre.apps@[i + 1]);
                }
            }
            assert forall|i: int| 0 <= i < post.tasks@.len() implies post.task_ok(
                #[trigger] post.tasks@[i],
            ) && post.tasks@[i].id < post.next_task_id by {
                let t = post.tasks@[i];
                assert(pre.tasks@.contains(t));
                let pi = choose|k: int| 0 <= k < pre.tasks@.len() && pre.tasks@[k] == t;
                assert(pre.task_ok(t));
                assert(t.app@ != id@);
                let uk = choose|k: int|
                    0 <= k < pre.users@.len() && (#[trigger] pre.users@[k])@ == t.user@;
                assert(post.users@[uk]@ == t.user@);
                let pai = pre.app_at(t.app@);
                lemma_app_witness(pre, pai);
                assert(pai != ai as int);
                if pai < ai as int {
                    assert(post.apps@[pai] == pre.apps@[pai]);
                    lemma_channel_preserved(pre, post, t.app@, t.channel@, pai, pai);
                } else {
                    assert(post.apps@[pai - 1] == pre.apps@[pai]);
                    lemma_channel_preserved(pre, post, t.app@, t.channel@, pai, pai - 1);
                }
            }
        }
        Ok(())
    }

    /// Delete the channel named `ch` under the app named `app`, discarding
    /// its engine and cancelling every subscription task bound to it.
    /// Teardown is ordered: the caller first stops publishing, then drives
    /// `drain_channel` until the ingestion queue is empty — so every accepted
    /// batch has been applied to the log and broadcast — and only then
    /// deletes; the precondition holds a caller to that order, so no accepted
    /// batch is ever dropped by teardown. Refused with `NotFound` when app or
    /// channel is missing.
    pub fn delete_channel(&mut self, app: &String, ch: &String) -> (r: Result<(), BusError>)
        requires
            old(self).wf(),
            old(self).has_channel(app@, ch@) ==> old(self).engine_at(app@, ch@).queue@.len()
                == 0,
        ensures
            final(self).wf(),
            delete_channel_post(*old(self), *final(self), app@, ch@, r),
    {
        let ai = match self.find_app(app) {
            None => {
                return Err(BusError::NotFound);
            },
            Some(a) => a,
        };
        let ci = match find_channel(&self.apps[ai].channels, ch) {
            None => {
                return Err(BusError::NotFound);
            },
            Some(c) => c,
        };
        let entry = &mut self.apps[ai];
        let _removed = entry.channels.remove(ci);
        let kept = tasks_without_channel(&self.tasks, app, ch);
        self.tasks = kept;
        proof {
            let pre = *old(self);
            let post = *self;
            let pch = pre.apps@[ai as int].channels@;
            let nch = post.apps@[ai as int].channels@;
            assert(nch == pch.remove(ci as int));
            lemma_channels_remove(pch, ci as int);
            lemma_tasks_filter(pre.tasks@, task_not_channel(app@, ch@));
            broadcast use vstd::seq_lib::group_filter_ensures;
            pch.remove_ensures(ci as int);
            assert(apps_distinct(post.apps@)) by {
                assert forall|i: int, j: int| 0 <= i < j < post.apps@.len() implies (
                #[trigger] post.apps@[i]).id@ != (#[trigger] post.apps@[j]).id@ by {
                    assert(pre.apps@[i].id@ != pre.apps@[j].id@);
                    assert(post.apps@[i].id@ == pre.apps@[i].id@);
                    assert(post.apps@[j].id@ == pre.apps@[j].id@);
                }
            }
            assert(app_wf(post.apps@[ai as int]));
            lemma_app_witness(post, ai as int);
            assert(!post.has_channel(app@, ch@));
            assert forall|i: int| 0 <= i < post.tasks@.len() implies post.task_ok(
                #[trigger] post.tasks@[i],
            ) && post.tasks@[i].id < post.next_task_id by {
                let t = post.tasks@[i];
                assert(pre.tasks@.contains(t));
                let pi = choose|k: int| 0 <= k < pre.tasks@.len() && pre.tasks@[k] == t;
                assert(pre.task_ok(t));
                let uk = choose|k: int|
                    0 <= k < pre.users@.len() && (#[trigger] pre.users@[k])@ == t.user@;
                assert(post.users@[uk]@ == t.user@);
                let pai = pre.app_at(t.app@);
                lemma_app_witness(pre, pai);
                if pai != ai as int {
                    lemma_channel_preserved(pre, post, t.app@, t.channel@, pai, pai);
                } else {
                    assert(t.app@ == pre.apps@[ai as int].id@);
                    assert(t.channel@ != ch@);
                    lemma_app_witness(post, ai as int);
                    let cj = channel_at(pch, t.channel@);
                    lemma_channel_witness(pch, cj);
                    assert(pch[ci as int].id@ == ch@);
                    assert(cj != ci as int);
                    if cj < ci as int {
                        assert(nch[cj] == pch[cj]);
                        lemma_channel_witness(nch, cj);
                    } else {
                        assert(nch[cj - 1] == pch[cj]);
                        lemma_channel_witness(nch, cj - 1);
                    }
                    assert(post.engine_at(t.app@, t.channel@) == pre.engine_at(
                        t.app@,
                        t.channel@,
                    ));
                }
            }
        }
        Ok(())
    }
}

/// The tasks of `tasks` other than the one with the given id, in order.
pub(crate) fn tasks_without_id(tasks: &Vec<SubTask>, id: usize) -> (r: Vec<SubTask>)
    ensures
        r@ == tasks@.filter(task_not_id(id as int)),
{
    let mut kept: Vec<SubTask> = Vec::new();
    let mut i: usize = 0;
    proof {
        assert(tasks@.take(0) =~= Seq::<SubTask>::empty());
    }
    while i < tasks.len()
        invariant
            i <= tasks@.len(),
            kept@ == tasks@.take(i as int).filter(task_not_id(id as int)),
        decreases tasks@.len() - i,
    {
        let keep = !(tasks[i].id == id);
        proof {
            let pred = task_not_id(id as int);
            let t = tasks@[i as int];
            assert(keep == pred(t));
            assert(tasks@.take(i as int + 1) =~= tasks@.take(i as int) + seq![t]);
            Seq::filter_distributes_over_add(tasks@.take(i as int), seq![t], pred);
            lemma_filter_singleton(t, pred);
            if pred(t) {
                assert(tasks@.take(i as int + 1).filter(pred) =~= kept@.push(t));
            } else {
                assert(tasks@.take(i as int + 1).filter(pred) =~= kept@);
            }
        }
        if keep {
            kept.push(tasks[i].clone());
        }
        i = i + 1;
    }
    proof {
        assert(tasks@.take(tasks@.len() as int) =~= tasks@);
    }
    kept
}

} // verus!
