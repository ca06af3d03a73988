use nippy_jar::event_listeners::EventListeners;
use tokio::sync::mpsc::unbounded_channel;

#[test]
fn listeners_receive_events() {
    let mut listeners: EventListeners<u32> = EventListeners::default();
    assert!(listeners.is_empty());
    assert_eq!(listeners.listener_count(), 0);
    let a = listeners.new_listener();
    let b = listeners.new_listener();
    assert_eq!(listeners.listener_count(), 2);
    assert!(!listeners.is_empty());
    listeners.notify(7);
    listeners.notify(8);
    let mut a = a.into_inner();
    let mut b = b.into_inner();
    assert_eq!(a.try_recv().ok(), Some(7));
    assert_eq!(a.try_recv().ok(), Some(8));
    assert_eq!(a.try_recv().ok(), None);
    assert_eq!(b.try_recv().ok(), Some(7));
    assert_eq!(b.try_recv().ok(), Some(8));
    assert_eq!(listeners.listener_count(), 2);
}

#[test]
fn closed_listeners_are_dropped_in_order() {
    let mut listeners: EventListeners<&'static str> = EventListeners::default();
    let (tx1, mut rx1) = unbounded_channel();
    let (tx2, rx2) = unbounded_channel();
    let (tx3, mut rx3) = unbounded_channel();
    listeners.push_listener(tx1);
    listeners.push_listener(tx2);
    listeners.push_listener(tx3);
    drop(rx2);
    listeners.notify("first");
    assert_eq!(listeners.listener_count(), 2);
    assert_eq!(rx1.try_recv().ok(), Some("first"));
    assert_eq!(rx3.try_recv().ok(), Some("first"));
    drop(rx1);
    listeners.notify("second");
    assert_eq!(listeners.listener_count(), 1);
    assert_eq!(rx3.try_recv().ok(), Some("second"));
    drop(rx3);
    listeners.notify("third");
    assert!(listeners.is_empty());
    listeners.notify("fourth");
    assert!(listeners.is_empty());
}

#[test]
fn retain_delivered_keeps_the_marked() {
    let mut listeners: EventListeners<u8> = EventListeners::default();
    let mut receivers = Vec::new();
    for _ in 0..5 {
        receivers.push(listeners.new_listener().into_inner());
    }
    listeners.retain_delivered(&vec![true, false, true, false, false]);
    assert_eq!(listeners.listener_count(), 2);
    listeners.notify(1);
    let got: Vec<bool> = receivers.iter_mut().map(|r| r.try_recv().is_ok()).collect();
    assert_eq!(got, vec![true, false, true, false, false]);
    listeners.retain_delivered(&vec![false, false]);
    assert!(listeners.is_empty());
}

#[test]
fn a_listener_that_lives_elsewhere_is_not_removed() {
    let mut listeners: EventListeners<u8> = EventListeners::default();
    let (tx, _rx) = unbounded_channel();
    listeners.push_listener(tx.clone());
    assert!(!listeners.remove_listener(&tx));
    assert_eq!(listeners.listener_count(), 1);
    let copy = listeners.clone();
    assert_eq!(copy.listener_count(), 1);
}

#[test]
fn remove_first_marked_takes_one_listener_out() {
    let mut listeners: EventListeners<u8> = EventListeners::default();
    let mut receivers = Vec::new();
    for _ in 0..4 {
        receivers.push(listeners.new_listener().into_inner());
    }
    assert!(!listeners.remove_first_marked(&vec![false, false, false, false]));
    assert_eq!(listeners.listener_count(), 4);
    assert!(listeners.remove_first_marked(&vec![false, true, false, true]));
    assert_eq!(listeners.listener_count(), 3);
    listeners.notify(9);
    let got: Vec<bool> = receivers.iter_mut().map(|r| r.try_recv().is_ok()).collect();
    assert_eq!(got, vec![true, false, true, true]);
    assert!(listeners.remove_first_marked(&vec![true, true, true]));
    assert!(listeners.remove_first_marked(&vec![false, true]));
    assert_eq!(listeners.listener_count(), 1);
    listeners.notify(10);
    let got: Vec<bool> = receivers.iter_mut().map(|r| r.try_recv().is_ok()).collect();
    assert_eq!(got, vec![false, false, true, false]);
    let mut none: EventListeners<u8> = EventListeners::default();
    assert!(!none.remove_first_marked(&vec![]));
    let (tx, _rx) = tokio::sync::mpsc::unbounded_channel();
    assert!(!none.remove_listener(&tx));
}
