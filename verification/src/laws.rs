//! Laws of the bus: properties that hold across operations, stated over the
//! operations' post-relations and proved once and for all.

use vstd::prelude::*;
use crate::bus::{
    create_app_post, delete_user_post, drain_post, get_events_post, publish_post, Bus, BusError,
};
use crate::subscription::{step_post, SubStep};

verus! {

/// Law: on every well-formed bus, a channel's log is exactly the
/// concatenation of its broadcast history in arrival order — the full,
/// duplicate-free record of every batch the worker has applied.
pub proof fn law_log_is_flattened_history(b: Bus, app: Seq<char>, ch: Seq<char>)
    requires
        b.wf(),
        b.has_channel(app, ch),
    ensures
        b.engine_at(app, ch).log_view() == b.engine_at(app, ch).hist().flatten(),
{
    let ai = b.app_at(app);
    let chs = b.channels_of(app);
    let ci = crate::bus::channel_at(chs, ch);
    assert(crate::bus::app_wf(b.apps@[ai]));
    assert(chs[ci].engine.wf());
}

/// Law: the log read by `get_events` is prefix-consistent and arrival-ordered
/// across worker steps. A read before a drain step is a prefix of a read
/// after it: events are never reordered, dropped or duplicated by draining.
pub proof fn law_prefix_consistent_reads(
    pre: Bus,
    post: Bus,
    app: Seq<char>,
    ch: Seq<char>,
    r1: Result<Seq<Seq<char>>, BusError>,
    d: Result<bool, BusError>,
    r2: Result<Seq<Seq<char>>, BusError>,
)
    requires
        pre.wf(),
        pre.has_channel(app, ch),
        get_events_post(pre, app, ch, r1),
        drain_post(pre, post, app, ch, d),
        get_events_post(post, app, ch, r2),
    ensures
        r1 is Ok,
        r2 is Ok,
        r1->Ok_0.is_prefix_of(r2->Ok_0),
{
    if d == Ok::<bool, BusError>(true) {
        let v1 = r1->Ok_0;
        let v2 = r2->Ok_0;
        assert(v2 == v1 + pre.engine_at(app, ch).queue_views()[0]);
        assert(v2.take(v1.len() as int) =~= v1);
    } else {
        assert(post == pre);
        assert(r2->Ok_0.take(r1->Ok_0.len() as int) =~= r1->Ok_0);
    }
}

/// Law: publishing a batch on a quiet channel and letting the worker drain it
/// appends exactly that batch, in order, at the end of the log and of the
/// broadcast history — nothing lost, nothing reordered, nothing duplicated.
pub proof fn law_publish_drain_appends(
    s0: Bus,
    s1: Bus,
    s2: Bus,
    app: Seq<char>,
    ch: Seq<char>,
    batch: Seq<Seq<char>>,
    rp: Result<(), BusError>,
    rd: Result<bool, BusError>,
)
    requires
        s0.wf(),
        s0.has_channel(app, ch),
        s0.engine_at(app, ch).queue@.len() == 0,
        publish_post(s0, s1, app, ch, batch, rp),
        drain_post(s1, s2, app, ch, rd),
    ensures
        rp == Ok::<(), BusError>(()),
        rd == Ok::<bool, BusError>(true),
        s2.engine_at(app, ch).log_view() == s0.engine_at(app, ch).log_view() + batch,
        s2.engine_at(app, ch).hist() == s0.engine_at(app, ch).hist().push(batch),
{
    let e0 = s0.engine_at(app, ch);
    let e1 = s1.engine_at(app, ch);
    assert(e0.queue@.len() < crate::engine::QUEUE_CAP);
    assert(rp is Ok);
    assert(rp == Ok::<(), BusError>(rp->Ok_0));
    assert(rp->Ok_0 == ());
    assert(e1.queue_views() == e0.queue_views().push(batch));
    assert(e0.queue_views().len() == 0);
    assert(e1.queue_views()[0] == batch);
    assert(e1.queue@.len() == e1.queue_views().len());
    assert(e1.log_view() == e0.log_view()) by {
        assert(e1.log == e0.log);
    }
}

/// One publish of `batch` followed by the worker step that applies it, with
/// the states in between well-formed, as every execution guarantees.
pub open spec fn drained_round(
    pre: Bus,
    post: Bus,
    app: Seq<char>,
    ch: Seq<char>,
    batch: Seq<Seq<char>>,
) -> bool {
    exists|mid: Bus, rp: Result<(), BusError>, rd: Result<bool, BusError>|
        #![trigger publish_post(pre, mid, app, ch, batch, rp), drain_post(mid, post, app, ch, rd)]
        publish_post(pre, mid, app, ch, batch, rp) && drain_post(mid, post, app, ch, rd)
            && mid.wf() && post.wf()
}

/// Law: for every sequence of publishes to one channel, each applied by the
/// worker, the log grows by exactly those batches, in arrival order — never
/// reordered, never duplicated, none lost. `states` are the bus states
/// between rounds; `batches` the published batches, oldest first.
pub proof fn law_all_publishes_in_order(
    states: Seq<Bus>,
    batches: Seq<Seq<Seq<char>>>,
    app: Seq<char>,
    ch: Seq<char>,
)
    requires
        states.len() == batches.len() + 1,
        states[0].wf(),
        states[0].has_channel(app, ch),
        states[0].engine_at(app, ch).queue@.len() == 0,
        forall|i: int|
            0 <= i < batches.len() ==> drained_round(
                states[i],
                states[i + 1],
                app,
                ch,
                #[trigger] batches[i],
            ),
    ensures
        states.last().wf(),
        states.last().has_channel(app, ch),
        states.last().engine_at(app, ch).queue@.len() == 0,
        states.last().engine_at(app, ch).hist() == states[0].engine_at(app, ch).hist() + batches,
        states.last().engine_at(app, ch).log_view() == states[0].engine_at(app, ch).log_view()
            + batches.flatten(),
    decreases batches.len(),
{
    broadcast use vstd::seq_lib::group_seq_properties;

    let e0 = states[0].engine_at(app, ch);
    if batches.len() == 0 {
        assert(states.last() == states[0]);
        assert(e0.hist() + batches =~= e0.hist());
        assert(batches.flatten() =~= Seq::<Seq<char>>::empty());
        assert(e0.log_view() + batches.flatten() =~= e0.log_view());
    } else {
        let n = batches.len() as int;
        let pstates = states.drop_last();
        let pbatches = batches.drop_last();
        assert forall|i: int| 0 <= i < pbatches.len() implies drained_round(
            pstates[i],
            pstates[i + 1],
            app,
            ch,
            #[trigger] pbatches[i],
        ) by {
            assert(pbatches[i] == batches[i]);
            assert(pstates[i] == states[i]);
            assert(pstates[i + 1] == states[i + 1]);
        }
        law_all_publishes_in_order(pstates, pbatches, app, ch);
        let prev = states[n - 1];
        assert(prev == pstates.last());
        assert(drained_round(prev, states[n], app, ch, batches[n - 1]));
        let (mid, rp, rd): (Bus, Result<(), BusError>, Result<bool, BusError>) = choose|
            mid: Bus,
            rp: Result<(), BusError>,
            rd: Result<bool, BusError>,
        |
            #![trigger publish_post(prev, mid, app, ch, batches[n - 1], rp), drain_post(mid, states[n], app, ch, rd)]
            publish_post(prev, mid, app, ch, batches[n - 1], rp) && drain_post(
                mid,
                states[n],
                app,
                ch,
                rd,
            ) && mid.wf() && states[n].wf();
        law_publish_drain_appends(prev, mid, states[n], app, ch, batches[n - 1], rp, rd);
        let elast = states[n].engine_at(app, ch);
        let eprev = prev.engine_at(app, ch);
        let emid = mid.engine_at(app, ch);
        assert(elast.queue_views() == emid.queue_views().drop_first());
        assert(emid.queue_views() == eprev.queue_views().push(batches[n - 1]));
        assert(eprev.queue_views().len() == 0);
        assert(elast.queue@.len() == elast.queue_views().len());
        assert(states.last() == states[n]);
        assert(elast.hist() =~= e0.hist() + batches) by {
            assert(elast.hist() == eprev.hist().push(batches[n - 1]));
            assert(eprev.hist() == e0.hist() + pbatches);
        }
        assert(elast.log_view() =~= e0.log_view() + batches.flatten()) by {
            assert(elast.log_view() == eprev.log_view() + batches[n - 1]);
            assert(eprev.log_view() == e0.log_view() + pbatches.flatten());
            Seq::lemma_flatten_push(pbatches, batches[n - 1]);
            assert(pbatches.push(batches[n - 1]) =~= batches);
            assert(pbatches.push(batches[n - 1]).flatten() == batches.flatten());
        }
    }
}

/// Law: creating a second app under a taken id fails with `AlreadyExists`
/// and changes nothing at all — in particular the first app and every channel
/// under it are unaffected.
pub proof fn law_duplicate_create_app(
    pre: Bus,
    mid: Bus,
    post: Bus,
    id: Seq<char>,
    r1: Result<(), BusError>,
    r2: Result<(), BusError>,
)
    requires
        create_app_post(pre, mid, id, r1),
        create_app_post(mid, post, id, r2),
        r1 == Ok::<(), BusError>(()),
    ensures
        r2 == Err::<(), BusError>(BusError::AlreadyExists),
        post == mid,
{
    assert(mid.apps@[mid.apps@.len() - 1].id@ == id);
    assert(mid.has_app(id));
}

/// Law: deleting a user cancels all of that user's subscriptions. After
/// `delete_user` returns, no step of any subscription task delivers to that
/// user's sink — even when a publish happens in between.
pub proof fn law_deleted_user_gets_no_delivery(
    s0: Bus,
    s1: Bus,
    s2: Bus,
    s3: Bus,
    name: Seq<char>,
    app: Seq<char>,
    ch: Seq<char>,
    batch: Seq<Seq<char>>,
    rd: Result<(), BusError>,
    rp: Result<(), BusError>,
    tid: int,
    act: SubStep,
)
    requires
        s0.wf(),
        delete_user_post(s0, s1, name, rd),
        rd == Ok::<(), BusError>(()),
        publish_post(s1, s2, app, ch, batch, rp),
        step_post(s2, s3, tid, act),
    ensures
        act matches SubStep::Deliver(u, b) ==> u@ != name,
{
    assert(s2.tasks == s1.tasks);
    if act matches SubStep::Deliver(u, b) {
        assert(s2.has_task(tid));
        let ti = s2.task_at(tid);
        assert(0 <= ti < s2.tasks@.len());
        assert(s2.tasks@[ti].user@ != name);
    }
}

/// Law: the outcome of a publish depends only on the registry of apps and
/// channels (the target queue included), never on any subscriber: a slow or
/// stuck subscriber cannot block or fail a publish, and a publish never
/// touches the subscriptions.
pub proof fn law_publish_ignores_subscribers(
    pre1: Bus,
    post1: Bus,
    pre2: Bus,
    post2: Bus,
    app: Seq<char>,
    ch: Seq<char>,
    batch: Seq<Seq<char>>,
    r1: Result<(), BusError>,
    r2: Result<(), BusError>,
)
    requires
        pre1.wf(),
        pre2.wf(),
        pre1.apps == pre2.apps,
        publish_post(pre1, post1, app, ch, batch, r1),
        publish_post(pre2, post2, app, ch, batch, r2),
    ensures
        r1 == r2,
        post1.tasks == pre1.tasks,
        post2.tasks == pre2.tasks,
{
    assert(pre1.apps@ == pre2.apps@);
    if pre1.has_app(app) {
        let i = pre1.app_at(app);
        crate::bus::lemma_app_witness(pre1, i);
        crate::bus::lemma_app_witness(pre2, i);
        assert(pre2.has_app(app));
        assert(pre2.app_at(app) == i);
        assert(pre1.channels_of(app) == pre2.channels_of(app));
        assert(pre1.has_channel(app, ch) == pre2.has_channel(app, ch));
        assert(pre1.has_channel(app, ch) ==> pre1.engine_at(app, ch) == pre2.engine_at(app, ch));
        if pre1.has_channel(app, ch) {
            if pre1.engine_at(app, ch).queue@.len() < crate::engine::QUEUE_CAP {
                assert(r1 is Ok);
                assert(r2 is Ok);
                assert(r1 == Ok::<(), BusError>(r1->Ok_0));
                assert(r1->Ok_0 == ());
                assert(r2 == Ok::<(), BusError>(r2->Ok_0));
                assert(r2->Ok_0 == ());
            } else {
                assert(r1 == Err::<(), BusError>(BusError::Backpressure));
            }
        } else {
            assert(r1 == Err::<(), BusError>(BusError::NotFound));
        }
    } else {
        if pre2.has_app(app) {
            let i = pre2.app_at(app);
            assert(pre1.apps@[i].id@ == app);
            assert(false);
        }
    }
}

/// Law: a subscriber that has not fallen behind the broadcast ring receives
/// the batches exactly in broadcast order: each step delivers the batch at
/// its cursor and advances the cursor by one — no skip, no duplicate, no
/// reordering — regardless of any other subscriber.
pub proof fn law_subscriber_in_order(pre: Bus, post: Bus, tid: int, act: SubStep)
    requires
        pre.wf(),
        step_post(pre, post, tid, act),
        pre.has_task(tid),
        pre.engine_at(
            pre.tasks@[pre.task_at(tid)].app@,
            pre.tasks@[pre.task_at(tid)].channel@,
        ).ring_start() <= pre.tasks@[pre.task_at(tid)].cursor,
    ensures
        ({
            let t = pre.tasks@[pre.task_at(tid)];
            let eng = pre.engine_at(t.app@, t.channel@);
            &&& (t.cursor < eng.total ==> (act matches SubStep::Deliver(u, b) && u@ == t.user@
                && batch_view_is(b, eng.hist()[t.cursor as int]) && post.tasks@[pre.task_at(
                tid,
            )].cursor == t.cursor + 1))
            &&& (t.cursor >= eng.total ==> act == SubStep::Wait && post == pre)
        }),
{
    let t = pre.tasks@[pre.task_at(tid)];
    let eng = pre.engine_at(t.app@, t.channel@);
    assert(eng.resume_at(t.cursor as int) == t.cursor);
}

/// Law: fan-out delivery is guaranteed, not merely bounded. A subscriber
/// opened on a channel, followed by one accepted publish applied by one
/// worker step, receives on its next step exactly the published batch,
/// delivered to exactly the subscribing user — never an earlier event
/// (subscriptions start from now, not from history) and never nothing.
pub proof fn law_subscriber_receives_published_batch(
    s0: Bus,
    s1: Bus,
    s2: Bus,
    s3: Bus,
    s4: Bus,
    name: Seq<char>,
    app: Seq<char>,
    ch: Seq<char>,
    batch: Seq<Seq<char>>,
    tid: usize,
    rp: Result<(), BusError>,
    rd: Result<bool, BusError>,
    act: SubStep,
)
    requires
        s0.wf(),
        s1.wf(),
        s2.wf(),
        s3.wf(),
        s0.has_user(name),
        s0.has_channel(app, ch),
        s0.engine_at(app, ch).queue@.len() == 0,
        crate::subscription::subscribe_post(s0, s1, name, app, ch, Ok::<usize, BusError>(tid)),
        publish_post(s1, s2, app, ch, batch, rp),
        drain_post(s2, s3, app, ch, rd),
        step_post(s3, s4, tid as int, act),
    ensures
        rp is Ok,
        rd == Ok::<bool, BusError>(true),
        act matches SubStep::Deliver(u, b) && u@ == name && batch_view_is(b, batch),
{
    let e0 = s0.engine_at(app, ch);
    let ai = s0.app_at(app);
    crate::bus::lemma_app_witness(s0, ai);
    crate::bus::lemma_app_witness(s1, ai);
    assert(crate::bus::app_wf(s0.apps@[ai]));
    let ci = crate::bus::channel_at(s0.channels_of(app), ch);
    assert(s0.channels_of(app)[ci].engine.wf());
    assert(e0.wf());
    assert(s1.has_channel(app, ch));
    assert(s1.engine_at(app, ch) == e0) by {
        assert(s1.channels_of(app) == s0.channels_of(app));
    }
    let t = s1.tasks@.last();
    let n = s0.tasks@.len() as int;
    assert(t.id == tid && t.user@ == name && t.app@ == app && t.channel@ == ch && t.cursor
        == e0.total);
    assert(rp is Ok);
    let e2 = s2.engine_at(app, ch);
    assert(e2.queue_views() == e0.queue_views().push(batch));
    assert(e0.queue_views().len() == 0);
    assert(e2.queue_views()[0] == batch);
    assert(e2.queue@.len() == e2.queue_views().len());
    assert(rd == Ok::<bool, BusError>(rd->Ok_0));
    assert(rd == Ok::<bool, BusError>(true));
    let e3 = s3.engine_at(app, ch);
    assert(e3.total == e0.total + 1);
    assert(e3.hist() == e0.hist().push(batch));
    assert(e3.ring@.len() >= 1) by {
        assert(crate::engine::RING_CAP >= 1);
    }
    assert(s3.tasks@ == s0.tasks@.push(t));
    assert(s3.tasks@[n] == t);
    assert(s3.has_task(tid as int));
    crate::bus::lemma_task_witness(s3, n);
    assert(s3.task_at(tid as int) == n);
    assert(e3.ring_start() <= e0.total as int);
    assert(e3.resume_at(t.cursor as int) == t.cursor as int);
    assert(e0.total == e0.hist().len());
    assert(e3.hist()[t.cursor as int] == batch);
    assert(act matches SubStep::Deliver(u, b) && u@ == name && batch_view_is(b, batch));
}

/// Law: a subscriber that keeps up receives every batch, in order. When a
/// task is caught up (its cursor at the end of the broadcast stream) and a
/// publish is applied by the worker, the task's next step delivers exactly
/// that batch to the task's user and leaves the task caught up again — so
/// over any number of such rounds, the subscriber receives all published
/// batches in publish order, whatever any other (even stuck) subscriber does.
pub proof fn law_caught_up_subscriber_receives_each_batch(
    s1: Bus,
    s2: Bus,
    s3: Bus,
    s4: Bus,
    tid: usize,
    batch: Seq<Seq<char>>,
    rp: Result<(), BusError>,
    rd: Result<bool, BusError>,
    act: SubStep,
)
    requires
        s1.wf(),
        s2.wf(),
        s3.wf(),
        s4.wf(),
        s1.has_task(tid as int),
        ({
            let t = s1.tasks@[s1.task_at(tid as int)];
            &&& t.cursor == s1.engine_at(t.app@, t.channel@).total
            &&& s1.engine_at(t.app@, t.channel@).queue@.len() == 0
            &&& publish_post(s1, s2, t.app@, t.channel@, batch, rp)
            &&& drain_post(s2, s3, t.app@, t.channel@, rd)
        }),
        step_post(s3, s4, tid as int, act),
    ensures
        rp is Ok,
        rd == Ok::<bool, BusError>(true),
        ({
            let t = s1.tasks@[s1.task_at(tid as int)];
            let nt = s4.tasks@[s4.task_at(tid as int)];
            &&& (act matches SubStep::Deliver(u, b) && u@ == t.user@ && batch_view_is(b, batch))
            &&& s4.has_task(tid as int)
            &&& nt.user == t.user
            &&& nt.app == t.app
            &&& nt.channel == t.channel
            &&& nt.cursor == s4.engine_at(t.app@, t.channel@).total
            &&& s4.engine_at(t.app@, t.channel@).queue@.len() == 0
        }),
{
    let ti = s1.task_at(tid as int);
    let t = s1.tasks@[ti];
    let app = t.app@;
    let ch = t.channel@;
    assert(s1.task_ok(t));
    let e1 = s1.engine_at(app, ch);
    let ai = s1.app_at(app);
    crate::bus::lemma_app_witness(s1, ai);
    assert(crate::bus::app_wf(s1.apps@[ai]));
    let ci = crate::bus::channel_at(s1.channels_of(app), ch);
    assert(s1.channels_of(app)[ci].engine.wf());
    assert(e1.wf());
    assert(rp is Ok);
    let e2 = s2.engine_at(app, ch);
    assert(e2.queue_views() == e1.queue_views().push(batch));
    assert(e1.queue_views().len() == 0);
    assert(e2.queue_views()[0] == batch);
    assert(e2.queue@.len() == e2.queue_views().len());
    assert(rd == Ok::<bool, BusError>(rd->Ok_0));
    assert(rd == Ok::<bool, BusError>(true));
    let e3 = s3.engine_at(app, ch);
    assert(e3.total == e1.total + 1);
    assert(e3.hist() == e1.hist().push(batch));
    assert(e3.queue_views() == e2.queue_views().drop_first());
    assert(e3.queue@.len() == e3.queue_views().len());
    assert(e3.ring@.len() >= 1) by {
        assert(crate::engine::RING_CAP >= 1);
    }
    assert(s3.tasks@ == s1.tasks@);
    assert(s3.tasks@[ti] == t);
    assert(s3.has_task(tid as int));
    crate::bus::lemma_task_witness(s3, ti);
    assert(s3.task_at(tid as int) == ti);
    assert(e3.ring_start() <= e1.total as int);
    assert(e3.resume_at(t.cursor as int) == t.cursor as int);
    assert(e1.total == e1.hist().len());
    assert(e3.hist()[t.cursor as int] == batch);
    assert(act matches SubStep::Deliver(u, b) && u@ == t.user@ && batch_view_is(b, batch));
    let nt = s4.tasks@[ti];
    assert(nt.id == t.id);
    assert(s4.tasks@[ti] == nt);
    crate::bus::lemma_task_witness(s4, ti);
    assert(s4.task_at(tid as int) == ti);
    assert(s4.engine_at(app, ch) == e3) by {
        crate::bus::lemma_app_witness(s3, s3.app_at(app));
        crate::bus::lemma_app_witness(s4, s3.app_at(app));
        assert(s4.channels_of(app) == s3.channels_of(app));
    }
    assert(nt.cursor == e3.total);
}

/// The payloads carried by an executable batch equal the given batch of
/// payloads.
pub open spec fn batch_view_is(b: Vec<crate::event::Event>, v: Seq<Seq<char>>) -> bool {
    crate::event::batch_view(b@) == v
}

/// Law: `get_events` is idempotent. Two reads of the same bus state return
/// identical results: the same events in the same order, or the same error.
pub proof fn law_get_events_idempotent(
    b: Bus,
    app: Seq<char>,
    ch: Seq<char>,
    r1: Result<Seq<Seq<char>>, BusError>,
    r2: Result<Seq<Seq<char>>, BusError>,
)
    requires
        get_events_post(b, app, ch, r1),
        get_events_post(b, app, ch, r2),
    ensures
        r1 == r2,
{
}

/// Law: subscribing to a channel under a nonexistent app fails with
/// `NotFound` and registers no task: the bus is left exactly as it was.
pub proof fn law_subscribe_missing_app(
    pre: Bus,
    post: Bus,
    name: Seq<char>,
    app: Seq<char>,
    ch: Seq<char>,
    r: Result<usize, BusError>,
)
    requires
        crate::subscription::subscribe_post(pre, post, name, app, ch, r),
        !pre.has_app(app),
    ensures
        r == Err::<usize, BusError>(BusError::NotFound),
        post == pre,
{
    assert(!pre.has_channel(app, ch));
}

} // verus!
