use problems::mpsc::{Queue, ReceiveError};

#[test]
fn messages_come_out_in_order() {
    let mut q = Queue::new();
    assert!(q.push(1).is_ok());
    assert!(q.push(2).is_ok());
    assert!(q.push(3).is_ok());
    assert_eq!(q.pop().ok(), Some(1));
    assert_eq!(q.pop().ok(), Some(2));
    assert!(q.push(4).is_ok());
    assert_eq!(q.pop().ok(), Some(3));
    assert_eq!(q.pop().ok(), Some(4));
}

#[test]
fn empty_open_channel_reports_empty() {
    let mut q: Queue<i32> = Queue::new();
    assert!(!q.is_closed());
    assert_eq!(q.pop().err(), Some(ReceiveError::Empty));
}

#[test]
fn closed_channel_refuses_sends_and_gives_value_back() {
    let mut q = Queue::new();
    q.close();
    assert!(q.is_closed());
    let err = q.push(String::from("late")).unwrap_err();
    assert_eq!(err.value, "late");
    assert_eq!(q.pop().err(), Some(ReceiveError::Closed));
}

#[test]
fn messages_in_flight_survive_closing() {
    let mut q = Queue::new();
    q.push('a').unwrap();
    q.push('b').unwrap();
    q.close();
    assert_eq!(q.pop().ok(), Some('a'));
    assert_eq!(q.pop().ok(), Some('b'));
    assert_eq!(q.pop().err(), Some(ReceiveError::Closed));
}

#[test]
fn last_sender_going_away_closes() {
    let mut q: Queue<u8> = Queue::new();
    q.sender_dropped(3);
    assert!(!q.is_closed());
    q.sender_dropped(2);
    assert!(q.is_closed());
    let mut q: Queue<u8> = Queue::new();
    q.sender_dropped(1);
    assert!(q.is_closed());
}
