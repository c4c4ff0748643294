use event_bus::bus::{Bus, BusError};
use event_bus::event::Event;
use event_bus::subscription::{SinkStatus, SubStep};

fn s(x: &str) -> String {
    x.to_string()
}

fn ev(x: &str) -> Event {
    Event::new(s(x))
}

fn batch(xs: &[&str]) -> Vec<Event> {
    xs.iter().map(|x| ev(x)).collect()
}

fn payloads(v: &[Event]) -> Vec<String> {
    v.iter().map(|e| e.payload().clone()).collect()
}

/// Publish one batch and let the worker drain it.
fn publish_drained(bus: &mut Bus, app: &str, ch: &str, xs: &[&str]) {
    bus.publish(&s(app), &s(ch), batch(xs)).unwrap();
    assert!(bus.drain_channel(&s(app), &s(ch)).unwrap());
}

#[test]
fn create_app_twice_fails_and_changes_nothing() {
    let mut bus = Bus::new();
    assert_eq!(bus.create_app(s("a1")), Ok(()));
    assert_eq!(bus.create_channel(&s("a1"), s("c1")), Ok(()));
    publish_drained(&mut bus, "a1", "c1", &["x"]);
    assert_eq!(bus.create_app(s("a1")), Err(BusError::AlreadyExists));
    // The first app's channels are unaffected.
    let events = bus.get_events(&s("a1"), &s("c1")).unwrap();
    assert_eq!(payloads(&events), vec![s("x")]);
}

#[test]
fn create_channel_under_missing_app_fails() {
    let mut bus = Bus::new();
    assert_eq!(bus.create_channel(&s("nope"), s("c")), Err(BusError::NotFound));
}

#[test]
fn create_channel_twice_fails() {
    let mut bus = Bus::new();
    bus.create_app(s("a")).unwrap();
    bus.create_channel(&s("a"), s("c")).unwrap();
    assert_eq!(bus.create_channel(&s("a"), s("c")), Err(BusError::AlreadyExists));
}

#[test]
fn delete_app_removes_it_and_its_channels() {
    let mut bus = Bus::new();
    bus.create_app(s("a")).unwrap();
    bus.create_channel(&s("a"), s("c")).unwrap();
    assert_eq!(bus.delete_app(&s("a")), Ok(()));
    assert!(matches!(bus.get_events(&s("a"), &s("c")), Err(BusError::NotFound)));
    assert_eq!(bus.delete_app(&s("a")), Err(BusError::NotFound));
}

#[test]
fn delete_channel_then_publish_is_not_found() {
    let mut bus = Bus::new();
    bus.create_app(s("a")).unwrap();
    bus.create_channel(&s("a"), s("c")).unwrap();
    assert_eq!(bus.delete_channel(&s("a"), &s("c")), Ok(()));
    assert_eq!(bus.publish(&s("a"), &s("c"), batch(&["x"])), Err(BusError::NotFound));
    assert_eq!(bus.delete_channel(&s("a"), &s("c")), Err(BusError::NotFound));
}

#[test]
fn get_events_on_missing_channel_is_not_found() {
    let mut bus = Bus::new();
    bus.create_app(s("a")).unwrap();
    assert!(matches!(bus.get_events(&s("a"), &s("c")), Err(BusError::NotFound)));
    assert!(matches!(bus.get_events(&s("b"), &s("c")), Err(BusError::NotFound)));
}

#[test]
fn get_events_is_idempotent() {
    let mut bus = Bus::new();
    bus.create_app(s("a")).unwrap();
    bus.create_channel(&s("a"), s("c")).unwrap();
    publish_drained(&mut bus, "a", "c", &["x", "y"]);
    let r1 = bus.get_events(&s("a"), &s("c")).unwrap();
    let r2 = bus.get_events(&s("a"), &s("c")).unwrap();
    assert_eq!(payloads(&r1), payloads(&r2));
    assert_eq!(payloads(&r1), vec![s("x"), s("y")]);
}

#[test]
fn events_arrive_in_publish_order() {
    let mut bus = Bus::new();
    bus.create_app(s("a")).unwrap();
    bus.create_channel(&s("a"), s("c")).unwrap();
    publish_drained(&mut bus, "a", "c", &["e1", "e2"]);
    publish_drained(&mut bus, "a", "c", &["e3"]);
    publish_drained(&mut bus, "a", "c", &["e4", "e5"]);
    let events = bus.get_events(&s("a"), &s("c")).unwrap();
    assert_eq!(payloads(&events), vec![s("e1"), s("e2"), s("e3"), s("e4"), s("e5")]);
}

#[test]
fn undrained_events_are_not_visible_yet() {
    let mut bus = Bus::new();
    bus.create_app(s("a")).unwrap();
    bus.create_channel(&s("a"), s("c")).unwrap();
    bus.publish(&s("a"), &s("c"), batch(&["x"])).unwrap();
    assert_eq!(payloads(&bus.get_events(&s("a"), &s("c")).unwrap()), Vec::<String>::new());
    assert!(bus.drain_channel(&s("a"), &s("c")).unwrap());
    assert_eq!(payloads(&bus.get_events(&s("a"), &s("c")).unwrap()), vec![s("x")]);
    // Nothing left to drain.
    assert!(!bus.drain_channel(&s("a"), &s("c")).unwrap());
}

#[test]
fn publish_backpressure_at_queue_bound() {
    let mut bus = Bus::new();
    bus.create_app(s("a")).unwrap();
    bus.create_channel(&s("a"), s("c")).unwrap();
    for _ in 0..512 {
        assert_eq!(bus.publish(&s("a"), &s("c"), batch(&["x"])), Ok(()));
    }
    assert_eq!(bus.publish(&s("a"), &s("c"), batch(&["x"])), Err(BusError::Backpressure));
    // Draining one batch makes room again.
    assert!(bus.drain_channel(&s("a"), &s("c")).unwrap());
    assert_eq!(bus.publish(&s("a"), &s("c"), batch(&["x"])), Ok(()));
}

#[test]
fn create_user_twice_fails() {
    let mut bus = Bus::new();
    assert_eq!(bus.create_user(s("bob")), Ok(()));
    assert_eq!(bus.create_user(s("bob")), Err(BusError::AlreadyExists));
}

#[test]
fn delete_missing_user_is_not_found() {
    let mut bus = Bus::new();
    assert_eq!(bus.delete_user(&s("bob")), Err(BusError::NotFound));
}

#[test]
fn subscribe_missing_app_registers_no_task() {
    let mut bus = Bus::new();
    bus.create_user(s("bob")).unwrap();
    assert_eq!(bus.subscribe(&s("bob"), &s("a"), &s("c")), Err(BusError::NotFound));
    // Nothing was registered: the next successful subscription gets the
    // first task id.
    bus.create_app(s("a")).unwrap();
    bus.create_channel(&s("a"), s("c")).unwrap();
    assert_eq!(bus.subscribe(&s("bob"), &s("a"), &s("c")), Ok(0));
}

#[test]
fn subscribe_missing_user_or_channel_is_not_found() {
    let mut bus = Bus::new();
    bus.create_app(s("a")).unwrap();
    bus.create_channel(&s("a"), s("c")).unwrap();
    assert_eq!(bus.subscribe(&s("bob"), &s("a"), &s("c")), Err(BusError::NotFound));
    bus.create_user(s("bob")).unwrap();
    assert_eq!(bus.subscribe(&s("bob"), &s("a"), &s("x")), Err(BusError::NotFound));
}

#[test]
fn subscriber_sees_only_events_published_after_subscribing() {
    let mut bus = Bus::new();
    bus.create_app(s("a1")).unwrap();
    bus.create_channel(&s("a1"), s("c1")).unwrap();
    publish_drained(&mut bus, "a1", "c1", &["x"]);
    assert_eq!(payloads(&bus.get_events(&s("a1"), &s("c1")).unwrap()), vec![s("x")]);

    bus.create_user(s("bob")).unwrap();
    let tid = bus.subscribe(&s("bob"), &s("a1"), &s("c1")).unwrap();
    publish_drained(&mut bus, "a1", "c1", &["y"]);
    match bus.subscription_step(tid) {
        SubStep::Deliver(user, b) => {
            assert_eq!(user, s("bob"));
            assert_eq!(payloads(&b), vec![s("y")]);
        }
        _ => panic!("expected a delivery of y"),
    }
    bus.report_delivery(tid, SinkStatus::Accepted);
    // Caught up now.
    assert!(matches!(bus.subscription_step(tid), SubStep::Wait));

    bus.delete_user(&s("bob")).unwrap();
    publish_drained(&mut bus, "a1", "c1", &["z"]);
    // The deleted user's task is gone: no delivery happens.
    assert!(matches!(bus.subscription_step(tid), SubStep::Gone));
    // The log still holds the full history.
    let events = bus.get_events(&s("a1"), &s("c1")).unwrap();
    assert_eq!(payloads(&events), vec![s("x"), s("y"), s("z")]);
}

#[test]
fn deleting_a_user_cancels_all_its_subscriptions() {
    let mut bus = Bus::new();
    bus.create_app(s("a")).unwrap();
    bus.create_channel(&s("a"), s("c1")).unwrap();
    bus.create_channel(&s("a"), s("c2")).unwrap();
    bus.create_user(s("u")).unwrap();
    let t1 = bus.subscribe(&s("u"), &s("a"), &s("c1")).unwrap();
    let t2 = bus.subscribe(&s("u"), &s("a"), &s("c2")).unwrap();
    assert_eq!(bus.delete_user(&s("u")), Ok(()));
    publish_drained(&mut bus, "a", "c1", &["x"]);
    publish_drained(&mut bus, "a", "c2", &["y"]);
    assert!(matches!(bus.subscription_step(t1), SubStep::Gone));
    assert!(matches!(bus.subscription_step(t2), SubStep::Gone));
}

#[test]
fn slow_subscriber_never_blocks_publishing_or_others() {
    let mut bus = Bus::new();
    bus.create_app(s("a")).unwrap();
    bus.create_channel(&s("a"), s("c")).unwrap();
    bus.create_user(s("slow")).unwrap();
    bus.create_user(s("fast")).unwrap();
    let _slow = bus.subscribe(&s("slow"), &s("a"), &s("c")).unwrap();
    let fast = bus.subscribe(&s("fast"), &s("a"), &s("c")).unwrap();
    // The slow subscriber never reads; publishing stays possible and the
    // fast subscriber receives all batches in order.
    for i in 0..5 {
        let data = format!("b{}", i);
        assert_eq!(bus.publish(&s("a"), &s("c"), vec![ev(&data)]), Ok(()));
        assert!(bus.drain_channel(&s("a"), &s("c")).unwrap());
    }
    let mut got: Vec<String> = Vec::new();
    loop {
        match bus.subscription_step(fast) {
            SubStep::Deliver(user, b) => {
                assert_eq!(user, s("fast"));
                got.extend(payloads(&b));
                bus.report_delivery(fast, SinkStatus::Accepted);
            }
            SubStep::Wait => break,
            SubStep::Gone => panic!("fast subscriber vanished"),
        }
    }
    assert_eq!(got, vec![s("b0"), s("b1"), s("b2"), s("b3"), s("b4")]);
}

#[test]
fn lagging_subscriber_skips_evicted_batches() {
    let mut bus = Bus::new();
    bus.create_app(s("a")).unwrap();
    bus.create_channel(&s("a"), s("c")).unwrap();
    bus.create_user(s("u")).unwrap();
    let tid = bus.subscribe(&s("u"), &s("a"), &s("c")).unwrap();
    // Broadcast one more batch than the replay ring holds: the oldest batch
    // falls out, and the lagging subscriber resumes after it.
    for i in 0..513 {
        let data = format!("b{}", i);
        bus.publish(&s("a"), &s("c"), vec![ev(&data)]).unwrap();
        assert!(bus.drain_channel(&s("a"), &s("c")).unwrap());
    }
    match bus.subscription_step(tid) {
        SubStep::Deliver(_, b) => assert_eq!(payloads(&b), vec![s("b1")]),
        _ => panic!("expected a delivery"),
    }
}

#[test]
fn transient_failure_keeps_subscription_closed_sink_stops_it() {
    let mut bus = Bus::new();
    bus.create_app(s("a")).unwrap();
    bus.create_channel(&s("a"), s("c")).unwrap();
    bus.create_user(s("u")).unwrap();
    let tid = bus.subscribe(&s("u"), &s("a"), &s("c")).unwrap();
    publish_drained(&mut bus, "a", "c", &["x"]);
    assert!(matches!(bus.subscription_step(tid), SubStep::Deliver(_, _)));
    // One failed push is tolerated: the subscription continues.
    bus.report_delivery(tid, SinkStatus::TransientError);
    publish_drained(&mut bus, "a", "c", &["y"]);
    match bus.subscription_step(tid) {
        SubStep::Deliver(_, b) => assert_eq!(payloads(&b), vec![s("y")]),
        _ => panic!("expected the subscription to continue"),
    }
    // A permanently closed sink stops it.
    bus.report_delivery(tid, SinkStatus::Closed);
    publish_drained(&mut bus, "a", "c", &["z"]);
    assert!(matches!(bus.subscription_step(tid), SubStep::Gone));
}

#[test]
fn deleting_a_channel_cancels_its_subscriptions() {
    let mut bus = Bus::new();
    bus.create_app(s("a")).unwrap();
    bus.create_channel(&s("a"), s("c")).unwrap();
    bus.create_user(s("u")).unwrap();
    let tid = bus.subscribe(&s("u"), &s("a"), &s("c")).unwrap();
    bus.delete_channel(&s("a"), &s("c")).unwrap();
    assert!(matches!(bus.subscription_step(tid), SubStep::Gone));
}

#[test]
fn event_payload_round_trip() {
    let e = Event::new(s("hello"));
    assert_eq!(e.payload(), &s("hello"));
    let copy = e.clone();
    assert_eq!(copy.payload(), &s("hello"));
}

#[test]
fn final_batches_reach_subscribers_before_channel_teardown() {
    let mut bus = Bus::new();
    bus.create_app(s("a")).unwrap();
    bus.create_channel(&s("a"), s("c")).unwrap();
    bus.create_user(s("u")).unwrap();
    let tid = bus.subscribe(&s("u"), &s("a"), &s("c")).unwrap();
    // A batch is accepted while the channel is about to be torn down: the
    // worker first applies it, the subscriber receives it, and only then is
    // the channel deleted (cancelling the subscription).
    bus.publish(&s("a"), &s("c"), batch(&["last"])).unwrap();
    assert!(bus.drain_channel(&s("a"), &s("c")).unwrap());
    match bus.subscription_step(tid) {
        SubStep::Deliver(user, b) => {
            assert_eq!(user, s("u"));
            assert_eq!(payloads(&b), vec![s("last")]);
        }
        _ => panic!("expected the final batch before teardown"),
    }
    bus.report_delivery(tid, SinkStatus::Accepted);
    assert_eq!(bus.delete_channel(&s("a"), &s("c")), Ok(()));
    assert!(matches!(bus.subscription_step(tid), SubStep::Gone));
}
