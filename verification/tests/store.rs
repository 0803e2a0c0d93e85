use mini_redis::db::State;
use mini_redis::server::{Admission, Backoff};
use tokio::sync::broadcast::error::TryRecvError;

#[test]
fn set_then_get() {
    let mut st = State::new();
    let notify = st.set("a".to_string(), b"1".to_vec(), None, 0);
    assert!(!notify);
    assert_eq!(st.get(&"a".to_string()), Some(b"1".to_vec()));
    assert_eq!(st.get(&"missing".to_string()), None);
}

#[test]
fn set_replaces_last_write_wins() {
    let mut st = State::new();
    st.set("a".to_string(), b"1".to_vec(), None, 0);
    st.set("a".to_string(), b"2".to_vec(), None, 0);
    assert_eq!(st.get(&"a".to_string()), Some(b"2".to_vec()));
}

#[test]
fn px_expiry_sweep() {
    let mut st = State::new();
    let notify = st.set("a".to_string(), b"1".to_vec(), Some(50), 0);
    assert!(notify, "first deadline must wake the sweeper");
    assert_eq!(st.get(&"a".to_string()), Some(b"1".to_vec()));
    assert_eq!(st.next_expiration(), Some(50));
    let next = st.purge_expired_keys(60);
    assert_eq!(next, None);
    assert_eq!(st.get(&"a".to_string()), None);
}

#[test]
fn overwrite_without_ttl_clears_expiry() {
    let mut st = State::new();
    // a hundred seconds to live, then overwritten with no ttl at all
    st.set("a".to_string(), b"1".to_vec(), Some(100_000), 0);
    st.set("a".to_string(), b"2".to_vec(), None, 1);
    assert_eq!(st.next_expiration(), None);
    let next = st.purge_expired_keys(200_000);
    assert_eq!(next, None);
    assert_eq!(st.get(&"a".to_string()), Some(b"2".to_vec()));
}

#[test]
fn sweep_returns_soonest_future_deadline() {
    let mut st = State::new();
    st.set("a".to_string(), b"1".to_vec(), Some(10), 0);
    st.set("b".to_string(), b"2".to_vec(), Some(500), 0);
    st.set("c".to_string(), b"3".to_vec(), Some(100), 0);
    let next = st.purge_expired_keys(20);
    assert_eq!(next, Some(100));
    assert_eq!(st.get(&"a".to_string()), None);
    assert_eq!(st.get(&"b".to_string()), Some(b"2".to_vec()));
    assert_eq!(st.get(&"c".to_string()), Some(b"3".to_vec()));
}

#[test]
fn notify_only_for_strictly_sooner_deadline() {
    let mut st = State::new();
    assert!(st.set("a".to_string(), b"1".to_vec(), Some(100), 0));
    // a later deadline never wakes the sweeper
    assert!(!st.set("b".to_string(), b"2".to_vec(), Some(200), 0));
    // an equal deadline does not either
    assert!(!st.set("c".to_string(), b"3".to_vec(), Some(100), 0));
    // a strictly sooner one does
    assert!(st.set("d".to_string(), b"4".to_vec(), Some(99), 0));
}

#[test]
fn purge_does_nothing_after_shutdown() {
    let mut st = State::new();
    st.set("a".to_string(), b"1".to_vec(), Some(10), 0);
    st.set_shutdown();
    assert!(st.is_shutdown());
    let next = st.purge_expired_keys(1_000);
    assert_eq!(next, None);
    assert_eq!(st.get(&"a".to_string()), Some(b"1".to_vec()));
}

#[test]
fn publish_subscribe_delivery() {
    let mut st = State::new();
    let mut rx = st.subscribe("c".to_string());
    let delivered = st.publish(&"c".to_string(), b"x".to_vec());
    assert_eq!(delivered, 1);
    assert_eq!(rx.try_recv().expect("message"), b"x".to_vec());
    // a subscriber joining after the publish never sees it
    let mut late = st.subscribe("c".to_string());
    assert!(matches!(late.try_recv(), Err(TryRecvError::Empty)));
    // an unknown channel has nobody to deliver to
    assert_eq!(st.publish(&"nobody".to_string(), b"x".to_vec()), 0);
}

#[test]
fn publish_order_per_receiver() {
    let mut st = State::new();
    let mut rx = st.subscribe("c".to_string());
    st.publish(&"c".to_string(), b"one".to_vec());
    st.publish(&"c".to_string(), b"two".to_vec());
    assert_eq!(rx.try_recv().expect("first"), b"one".to_vec());
    assert_eq!(rx.try_recv().expect("second"), b"two".to_vec());
}

#[test]
fn admission_pool_blocks_until_release() {
    let n = 3;
    let mut pool = Admission::new(n);
    for _ in 0..n {
        assert!(pool.try_acquire());
    }
    // the (n+1)-th connection finds no permit
    assert!(!pool.try_acquire());
    // one session ends: exactly one more admission becomes possible
    pool.release();
    assert!(pool.try_acquire());
    assert!(!pool.try_acquire());
}

#[test]
fn backoff_doubles_then_gives_up() {
    let mut b = Backoff::new();
    let mut seen = Vec::new();
    while let Some(d) = b.on_error() {
        seen.push(d);
    }
    assert_eq!(seen, vec![1, 2, 4, 8, 16, 32, 64]);
    assert_eq!(b.on_error(), None);
}

#[test]
fn ttl_saturates_at_the_largest_instant() {
    let mut st = State::new();
    st.set("a".to_string(), b"1".to_vec(), Some(u64::MAX), 5);
    assert_eq!(st.next_expiration(), Some(u64::MAX));
    // not due yet at any reachable clock reading below the maximum
    let next = st.purge_expired_keys(u64::MAX - 1);
    assert_eq!(next, Some(u64::MAX));
    assert_eq!(st.get(&"a".to_string()), Some(b"1".to_vec()));
}
