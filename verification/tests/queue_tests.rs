use net_lib::error::MeshError;
use net_lib::queues::{
    last_value_push_all, set_push_all, BurstQueue, BurstScalarInputQueue, DictInputQueue,
    LastValueQueue, LastValueScalarInputQueue, OutputQueue, PushByteData, ScalarOutputQueue,
    SetInputQueue,
};

#[test]
fn last_value_returns_the_last_push_once() {
    let mut q: LastValueQueue<i32> = LastValueQueue::new("channel1".to_string(), "myservice".to_string());
    assert!(!q.is_ready());
    assert_eq!(q.poll(), None);
    q.push(5);
    q.push(6);
    q.push(7);
    assert!(q.is_ready());
    assert_eq!(q.poll(), Some(7));
    assert!(!q.is_ready());
    assert_eq!(q.poll(), None);
    q.push(8);
    assert_eq!(q.poll(), Some(8));
}

#[test]
fn last_value_push_all_keeps_the_last() {
    let mut q: LastValueQueue<i64> = LastValueQueue::new("channel1".to_string(), "myservice".to_string());
    last_value_push_all(&mut q, &[]);
    assert_eq!(q.poll(), None);
    q.push(1);
    last_value_push_all(&mut q, &[]);
    assert_eq!(q.poll(), Some(1));
    last_value_push_all(&mut q, &[5, 6, 7]);
    assert_eq!(q.poll(), Some(7));
}

#[test]
fn burst_returns_everything_in_order_then_nothing() {
    let mut q: BurstQueue<i32> = BurstQueue::new("channel1".to_string(), "myservice".to_string());
    assert_eq!(q.poll(), Vec::<i32>::new());
    q.push(1);
    q.push(2);
    q.push(3);
    assert_eq!(q.len(), 3);
    assert_eq!(q.poll(), vec![1, 2, 3]);
    assert_eq!(q.len(), 0);
    assert_eq!(q.poll(), Vec::<i32>::new());
    q.push(4);
    assert_eq!(q.poll(), vec![4]);
}

#[test]
fn set_delivers_each_item_once() {
    let mut q: SetInputQueue<i32> = SetInputQueue::new();
    assert_eq!(q.poll(), None);
    let mut fresh = vec![];
    for i in [0, 1, 1, 1, 2, 2, 3] {
        fresh.push(q.push(i));
    }
    assert_eq!(fresh, vec![true, true, false, false, true, false, true]);
    let mut got = vec![];
    while let Some(v) = q.poll() {
        got.push(v);
    }
    assert_eq!(got, vec![0, 1, 2, 3]);
    assert_eq!(q.poll(), None);
    assert!(!q.push(2));
    assert_eq!(q.poll(), None);
    assert!(q.push(9));
    assert_eq!(q.poll(), Some(9));
}

#[test]
fn set_keeps_the_order_of_first_arrival() {
    let mut q: SetInputQueue<u8> = SetInputQueue::new();
    set_push_all(&mut q, &[3, 1, 3, 2, 1, 0]);
    assert_eq!(q.poll(), Some(3));
    set_push_all(&mut q, &[0, 7, 3]);
    let mut got = vec![];
    while let Some(v) = q.poll() {
        got.push(v);
    }
    assert_eq!(got, vec![1, 2, 0, 7]);
}

#[test]
fn dict_delivers_only_changes() {
    let mut q: DictInputQueue<i32, i32> = DictInputQueue::new();
    assert_eq!(q.poll(), None);
    assert_eq!(q.get(1), None);
    assert!(q.push(1, 2));
    assert!(!q.push(1, 2));
    assert_eq!(q.poll(), Some((1, 2)));
    assert_eq!(q.poll(), None);
    assert!(q.push(1, 3));
    assert_eq!(q.get(1), Some(3));
    assert_eq!(q.poll(), Some((1, 3)));
    assert_eq!(q.poll(), None);
    assert!(q.push(1, 2));
    assert_eq!(q.poll(), Some((1, 2)));
}

#[test]
fn dict_keeps_keys_apart_and_changes_in_order() {
    let mut q: DictInputQueue<u8, u8> = DictInputQueue::new();
    for i in [0u8, 1, 1, 1, 1, 2, 2, 2, 3, 4] {
        q.push(i, i * 2);
    }
    q.push(1, 9);
    q.push(0, 0);
    let mut got = vec![];
    while let Some(v) = q.poll() {
        got.push(v);
    }
    assert_eq!(got, vec![(0, 0), (1, 2), (2, 4), (3, 6), (4, 8), (1, 9)]);
    assert_eq!(q.get(1), Some(9));
    assert_eq!(q.get(4), Some(8));
    assert_eq!(q.get(5), None);
}

#[test]
fn output_queue_without_sinks_does_nothing() {
    let mut out: OutputQueue<i32> = OutputQueue::new("myservice".to_string());
    assert!(out.send(1, &[1, 0, 0, 0]).is_empty());
}

#[test]
fn output_queue_fans_out() {
    let mut out: OutputQueue<i32> = OutputQueue::new("myservice".to_string());
    let lv0 = out.lv_input_queue("channel1".to_string());
    let b0 = out.burst_input_queue("channel1".to_string());
    let lv1 = out.lv_input_queue("channel1".to_string());
    let b1 = out.burst_input_queue("channel1".to_string());
    assert_eq!((lv0, lv1, b0, b1), (0, 1, 0, 1));
    out.tcp_sink("prices".to_string());
    out.tcp_sink("copies".to_string());
    let frames = out.send(5, &[5]);
    assert_eq!(frames.len(), 2);
    assert_eq!(frames[0].channel_name, "prices");
    assert_eq!(frames[0].data, vec![5]);
    assert_eq!(frames[1].channel_name, "copies");
    assert_eq!(frames[1].data, vec![5]);
    out.send(6, &[6]);
    assert_eq!(out.poll_last_value(lv0), Some(6));
    assert_eq!(out.poll_last_value(lv0), None);
    assert_eq!(out.poll_burst(b1), vec![5, 6]);
    out.send(7, &[7]);
    assert_eq!(out.poll_last_value(lv1), Some(7));
    assert_eq!(out.poll_burst(b0), vec![5, 6, 7]);
    assert_eq!(out.poll_burst(b1), vec![7]);
    assert_eq!(out.poll_burst(b1), Vec::<i32>::new());
}

#[test]
fn byte_sinks_keep_payloads() {
    let mut burst: BurstQueue<Vec<u8>> = BurstQueue::new("channel1".to_string(), "myservice".to_string());
    burst.push_data(&[1, 2]);
    burst.push_data(&[]);
    burst.push_data(&[3]);
    assert_eq!(burst.poll(), vec![vec![1, 2], vec![], vec![3]]);
    let mut last: LastValueQueue<Vec<u8>> = LastValueQueue::new("channel1".to_string(), "myservice".to_string());
    last.push_data(&[1, 2]);
    last.push_data(&[3]);
    assert_eq!(last.poll(), Some(vec![3]));
    assert_eq!(last.poll(), None);
}

#[test]
fn queues_go_by_two_names() {
    let mut out: ScalarOutputQueue<u8> = ScalarOutputQueue::new("myservice".to_string());
    let lv = out.lv_input_queue("channel1".to_string());
    let burst = out.burst_input_queue("channel1".to_string());
    assert_eq!(out.last_value_count(), 1);
    assert_eq!(out.burst_count(), 1);
    out.send(1, &[1]);
    assert_eq!(out.poll_last_value(lv), Some(1));
    assert_eq!(out.poll_burst(burst), vec![1]);
    let mut a: LastValueScalarInputQueue<u8> = LastValueScalarInputQueue::new("channel1".to_string(), "myservice".to_string());
    a.push(2);
    assert_eq!(a.poll(), Some(2));
    let mut b: BurstScalarInputQueue<u8> = BurstScalarInputQueue::new("channel1".to_string(), "myservice".to_string());
    b.push(3);
    assert_eq!(b.poll(), vec![3]);
}

#[test]
fn a_payload_that_is_no_value_is_not_pushed() {
    let mut burst: BurstScalarInputQueue<i64> = BurstScalarInputQueue::new("channel1".to_string(), "myservice".to_string());
    assert_eq!(burst.push_decoded(Some(1)), Ok(()));
    assert_eq!(burst.push_decoded(None), Err(MeshError::BinCodeSerializationError));
    assert_eq!(burst.push_decoded(Some(2)), Ok(()));
    assert_eq!(burst.poll(), vec![1, 2]);
    assert_eq!(burst.push_decoded(bincode::deserialize::<i64>(&[1, 2, 3]).ok()), Err(MeshError::BinCodeSerializationError));
    assert_eq!(burst.push_decoded(bincode::deserialize::<i64>(&42i64.to_le_bytes()).ok()), Ok(()));
    assert_eq!(burst.poll(), vec![42]);

    let mut last: LastValueScalarInputQueue<i64> = LastValueScalarInputQueue::new("channel1".to_string(), "myservice".to_string());
    assert_eq!(last.push_decoded(None), Err(MeshError::BinCodeSerializationError));
    assert_eq!(last.poll(), None);
    assert_eq!(last.push_decoded(Some(5)), Ok(()));
    assert_eq!(last.push_decoded(None), Err(MeshError::BinCodeSerializationError));
    assert_eq!(last.poll(), Some(5));
}

#[test]
fn queues_keep_their_names() {
    let mut out: ScalarOutputQueue<i32> = ScalarOutputQueue::new("pricer".to_string());
    assert_eq!(out.service(), "pricer");
    let lv = out.lv_input_queue("prices".to_string());
    let burst = out.burst_input_queue("ticks".to_string());
    out.send(1, &[1]);
    assert_eq!(out.poll_last_value(lv), Some(1));
    assert_eq!(out.poll_burst(burst), vec![1]);
    assert_eq!(out.service(), "pricer");

    let mut a: LastValueScalarInputQueue<u8> =
        LastValueScalarInputQueue::new("prices".to_string(), "pricer".to_string());
    a.push(1);
    a.poll();
    assert_eq!(a.channel_id(), "prices");
    assert_eq!(a.service(), "pricer");
    let mut b: BurstScalarInputQueue<Vec<u8>> =
        BurstScalarInputQueue::new("ticks".to_string(), "pricer".to_string());
    b.push_data(&[1]);
    b.poll();
    assert_eq!(b.channel_id(), "ticks");
    assert_eq!(b.service(), "pricer");
}
