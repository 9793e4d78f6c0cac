use tpt_dsp::spsc::{SpscQueue, TryRecvError, TrySendError};

#[test]
fn bounded_send_recv() {
    let q = SpscQueue::<u32>::bounded(4);
    assert!(q.try_send(1).is_ok());
    assert!(q.try_send(2).is_ok());
    assert_eq!(q.try_recv(), Ok(1));
    assert_eq!(q.try_recv(), Ok(2));
    assert!(matches!(q.try_recv(), Err(TryRecvError::Empty)));
}

#[test]
fn bounded_overflow_rejects() {
    let q = SpscQueue::<u32>::bounded(2);
    q.try_send(1).unwrap();
    q.try_send(2).unwrap();
    assert!(matches!(q.try_send(3), Err(TrySendError::Full(3))));
}

#[test]
fn split_halves_work() {
    let q = SpscQueue::<u32>::unbounded();
    let (p, c) = q.split();
    p.send(42).unwrap();
    assert_eq!(c.recv(), Ok(42));
}

#[test]
fn recv_after_drop_is_disconnected() {
    let q = SpscQueue::<u32>::unbounded();
    drop(q);
    let q = SpscQueue::<u32>::unbounded();
    let (p, c) = q.split();
    drop(p);
    drop(q);
    assert!(c.recv().is_err());
    assert!(matches!(c.try_recv(), Err(TryRecvError::Disconnected)));
}

#[test]
fn disconnected_send_hands_the_message_back() {
    let q = SpscQueue::<u32>::bounded(1);
    let (p, c) = q.split();
    drop(c);
    drop(q);
    assert!(matches!(p.try_send(5), Err(TrySendError::Disconnected(5))));
    let err = p.send(6).unwrap_err();
    assert_eq!(err.0, 6);
}

#[test]
fn clones_share_the_channel() {
    let q = SpscQueue::<u32>::bounded(2);
    let q2 = q.clone();
    q2.try_send(7).unwrap();
    assert_eq!(q.try_recv(), Ok(7));
    let (p, c) = q.split();
    let p2 = p.clone();
    let c2 = c.clone();
    p2.send(8).unwrap();
    assert_eq!(c2.recv(), Ok(8));
    p.try_send(9).unwrap();
    assert_eq!(c.try_recv(), Ok(9));
}
