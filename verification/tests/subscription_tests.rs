use postcard_rpc::subscription::Delivery;
use postcard_rpc::subscription::RecvStep;
use postcard_rpc::subscription::SubInfo;
use postcard_rpc::subscription::Subscription;
use postcard_rpc::subscription::SubscriptionTable;
use postcard_rpc::subscription::TrySend;
use postcard_rpc::wire::Key;
use postcard_rpc::wire::RpcFrame;
use postcard_rpc::wire::WireHeader;
use tokio::sync::mpsc::error::TryRecvError;

fn topic(tag: u8) -> Key {
    Key::from_bytes([tag; 8])
}

fn frame(tag: u8, seq_no: u32, body: Vec<u8>) -> RpcFrame {
    RpcFrame { header: WireHeader { key: topic(tag), seq_no }, body }
}

#[test]
fn delivery_without_subscription_finds_no_subscriber() {
    let mut table = SubscriptionTable::new();
    assert!(table.is_empty());
    assert!(!table.contains(&topic(1)));
    assert_eq!(table.deliver(frame(1, 0, vec![1])), Delivery::NoSubscriber);
    assert!(table.is_empty());
}

#[test]
fn delivered_frames_arrive_in_order() {
    let mut table = SubscriptionTable::new();
    let (info, sub) = SubInfo::channel(topic(1), 4);
    assert_eq!(info.key, topic(1));
    table.install(info);
    assert!(table.contains(&topic(1)));
    assert_eq!(table.deliver(frame(1, 10, vec![1])), Delivery::Delivered);
    assert_eq!(table.deliver(frame(1, 11, vec![2])), Delivery::Delivered);
    assert_eq!(table.deliver(frame(1, 12, vec![3])), Delivery::Delivered);
    let mut rx = sub.into_receiver();
    let first = rx.try_recv().unwrap();
    assert_eq!(first.header, WireHeader { key: topic(1), seq_no: 10 });
    assert_eq!(first.body, vec![1]);
    assert_eq!(rx.try_recv().unwrap().body, vec![2]);
    assert_eq!(rx.try_recv().unwrap().body, vec![3]);
    assert_eq!(rx.try_recv().unwrap_err(), TryRecvError::Empty);
}

#[test]
fn full_channel_loses_the_frame_and_keeps_the_subscription() {
    let mut table = SubscriptionTable::new();
    let (info, sub) = SubInfo::channel(topic(1), 1);
    table.install(info);
    assert_eq!(table.deliver(frame(1, 0, vec![1])), Delivery::Delivered);
    assert_eq!(table.deliver(frame(1, 1, vec![2])), Delivery::SlowConsumer);
    assert!(table.contains(&topic(1)));
    let mut rx = sub.into_receiver();
    assert_eq!(rx.try_recv().unwrap().body, vec![1]);
    assert_eq!(rx.try_recv().unwrap_err(), TryRecvError::Empty);
    assert_eq!(table.deliver(frame(1, 2, vec![3])), Delivery::Delivered);
    assert_eq!(rx.try_recv().unwrap().body, vec![3]);
}

#[test]
fn installing_again_closes_the_earlier_subscription() {
    let mut table = SubscriptionTable::new();
    let (old_info, old_sub) = SubInfo::channel(topic(1), 2);
    let (new_info, new_sub) = SubInfo::channel(topic(1), 2);
    table.install(old_info);
    assert_eq!(table.deliver(frame(1, 0, vec![1])), Delivery::Delivered);
    table.install(new_info);
    assert!(!table.is_empty());
    assert_eq!(table.deliver(frame(1, 1, vec![2])), Delivery::Delivered);
    let mut old_rx = old_sub.into_receiver();
    assert_eq!(old_rx.try_recv().unwrap().body, vec![1]);
    assert_eq!(old_rx.try_recv().unwrap_err(), TryRecvError::Disconnected);
    let mut new_rx = new_sub.into_receiver();
    assert_eq!(new_rx.try_recv().unwrap().body, vec![2]);
    assert_eq!(new_rx.try_recv().unwrap_err(), TryRecvError::Empty);
}

#[test]
fn installing_again_sends_later_frames_to_the_new_subscriber_only() {
    let mut table = SubscriptionTable::new();
    let (first, first_sub) = SubInfo::channel(topic(1), 4);
    let (second, second_sub) = SubInfo::channel(topic(1), 4);
    let (third, third_sub) = SubInfo::channel(topic(1), 4);
    table.install(first);
    table.install(second);
    table.install(third);
    assert_eq!(table.deliver(frame(1, 0, vec![1])), Delivery::Delivered);
    let mut first_rx = first_sub.into_receiver();
    let mut second_rx = second_sub.into_receiver();
    let mut third_rx = third_sub.into_receiver();
    assert_eq!(first_rx.try_recv().unwrap_err(), TryRecvError::Disconnected);
    assert_eq!(second_rx.try_recv().unwrap_err(), TryRecvError::Disconnected);
    assert_eq!(third_rx.try_recv().unwrap().body, vec![1]);
    table.remove(&topic(1));
    assert!(table.is_empty());
    assert_eq!(third_rx.try_recv().unwrap_err(), TryRecvError::Disconnected);
}

#[test]
fn slow_subscriber_does_not_disturb_another_key() {
    let mut table = SubscriptionTable::new();
    let (slow_info, slow_sub) = SubInfo::channel(topic(1), 1);
    let (fast_info, fast_sub) = SubInfo::channel(topic(2), 8);
    table.install(slow_info);
    table.install(fast_info);
    assert!(!table.is_empty());
    assert_eq!(table.deliver(frame(1, 0, vec![1])), Delivery::Delivered);
    let mut n: u32 = 0;
    while n < 4 {
        assert_eq!(table.deliver(frame(1, n + 1, vec![9])), Delivery::SlowConsumer);
        assert_eq!(table.deliver(frame(2, n, vec![n as u8])), Delivery::Delivered);
        n += 1;
    }
    let mut fast_rx = fast_sub.into_receiver();
    let mut n: u8 = 0;
    while n < 4 {
        assert_eq!(fast_rx.try_recv().unwrap().body, vec![n]);
        n += 1;
    }
    let mut slow_rx = slow_sub.into_receiver();
    assert_eq!(slow_rx.try_recv().unwrap().body, vec![1]);
    assert_eq!(slow_rx.try_recv().unwrap_err(), TryRecvError::Empty);
}

#[test]
fn dropped_receiver_is_removed_at_the_next_delivery() {
    let mut table = SubscriptionTable::new();
    let (info, sub) = SubInfo::channel(topic(1), 2);
    let (other, _other_sub) = SubInfo::channel(topic(2), 2);
    table.install(info);
    table.install(other);
    drop(sub);
    assert!(table.contains(&topic(1)));
    assert_eq!(table.deliver(frame(1, 0, vec![1])), Delivery::NoSubscriber);
    assert!(!table.contains(&topic(1)));
    assert!(table.contains(&topic(2)));
    assert!(!table.is_empty());
    assert_eq!(table.deliver(frame(1, 1, vec![1])), Delivery::NoSubscriber);
}

#[test]
fn settle_books_each_answer() {
    let mut table = SubscriptionTable::new();
    let (info, _sub) = SubInfo::channel(topic(1), 2);
    table.install(info);
    assert_eq!(table.settle(&topic(1), TrySend::Sent), Delivery::Delivered);
    assert!(table.contains(&topic(1)));
    assert_eq!(table.settle(&topic(1), TrySend::Full), Delivery::SlowConsumer);
    assert!(table.contains(&topic(1)));
    assert_eq!(table.settle(&topic(1), TrySend::Closed), Delivery::NoSubscriber);
    assert!(!table.contains(&topic(1)));
}

#[test]
fn remove_takes_one_key_out() {
    let mut table = SubscriptionTable::new();
    let (a, a_sub) = SubInfo::channel(topic(1), 2);
    let (b, _b_sub) = SubInfo::channel(topic(2), 2);
    let (c, _c_sub) = SubInfo::channel(topic(3), 2);
    table.install(a);
    table.install(b);
    table.install(c);
    table.remove(&topic(1));
    table.remove(&topic(7));
    assert!(!table.is_empty());
    assert!(!table.contains(&topic(1)));
    assert!(table.contains(&topic(2)));
    assert!(table.contains(&topic(3)));
    let mut rx = a_sub.into_receiver();
    assert_eq!(rx.try_recv().unwrap_err(), TryRecvError::Disconnected);
}

#[test]
fn close_ends_every_stream() {
    let mut table = SubscriptionTable::new();
    let (a, a_sub) = SubInfo::channel(topic(1), 2);
    let (b, b_sub) = SubInfo::channel(topic(2), 2);
    table.install(a);
    table.install(b);
    assert_eq!(table.deliver(frame(1, 0, vec![5])), Delivery::Delivered);
    table.close();
    assert!(table.is_empty());
    let mut a_rx = a_sub.into_receiver();
    assert_eq!(a_rx.try_recv().unwrap().body, vec![5]);
    assert_eq!(a_rx.try_recv().unwrap_err(), TryRecvError::Disconnected);
    let mut b_rx = b_sub.into_receiver();
    assert_eq!(b_rx.try_recv().unwrap_err(), TryRecvError::Disconnected);
    assert_eq!(table.deliver(frame(1, 1, vec![6])), Delivery::NoSubscriber);
}

#[test]
fn recv_yields_what_decodes_and_skips_the_rest() {
    let ok: Option<Result<u16, ()>> = Some(Ok(7));
    assert_eq!(Subscription::recv(ok), RecvStep::Yield(7));
    let bad: Option<Result<u16, ()>> = Some(Err(()));
    assert_eq!(Subscription::recv(bad), RecvStep::Skip);
    let end: Option<Result<u16, ()>> = None;
    assert_eq!(Subscription::recv(end), RecvStep::End);
}
