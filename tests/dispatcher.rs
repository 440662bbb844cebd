use kvstore::command::Command;
use kvstore::dispatcher::{Dispatcher, PendingCall};

fn get(key: &str) -> Command {
    Command::Get { key: key.to_string() }
}

#[test]
fn calls_run_in_order_accepted_one_at_a_time() {
    let mut d: Dispatcher<&str> = Dispatcher::new(4);
    assert!(d.submit(PendingCall { command: get("c1"), responder: "producer one" }).is_ok());
    assert!(d.submit(PendingCall { command: get("c2"), responder: "producer two" }).is_ok());
    assert_eq!(d.start(), Some(get("c1")));
    assert!(d.is_busy());
    assert_eq!(d.start(), None);
    assert_eq!(d.finish(), Some("producer one"));
    assert_eq!(d.start(), Some(get("c2")));
    assert_eq!(d.finish(), Some("producer two"));
    assert_eq!(d.start(), None);
    assert_eq!(d.finish(), None);
}

#[test]
fn full_queue_hands_call_back() {
    let mut d: Dispatcher<u32> = Dispatcher::new(1);
    assert!(d.submit(PendingCall { command: get("a"), responder: 1 }).is_ok());
    match d.submit(PendingCall { command: get("b"), responder: 2 }) {
        Err(call) => {
            assert_eq!(call.command, get("b"));
            assert_eq!(call.responder, 2);
        }
        Ok(()) => panic!("the queue was full"),
    }
    assert_eq!(d.waiting(), 1);
    assert_eq!(d.start(), Some(get("a")));
    assert_eq!(d.waiting(), 0);
    assert!(d.submit(PendingCall { command: get("b"), responder: 2 }).is_ok());
}

#[test]
fn idle_dispatcher_starts_nothing() {
    let mut d: Dispatcher<()> = Dispatcher::new(2);
    assert!(!d.is_busy());
    assert_eq!(d.start(), None);
}
