use toolkit::telemetry::InputBuffer;

#[derive(Clone, Copy, Debug, PartialEq)]
struct Sample {
    timestamp_ms: f64,
    x: f32,
    pressure: f32,
}

fn make_sample(ts: f64, x: f32, pressure: f32) -> Sample {
    Sample { timestamp_ms: ts, x, pressure }
}

#[test]
fn push_and_latest() {
    let mut buf = InputBuffer::new(4);
    buf.push(make_sample(1.0, 10.0, 0.5));
    assert_eq!(buf.len(), 1);
    assert_eq!(buf.latest().unwrap().timestamp_ms, 1.0);

    buf.push(make_sample(2.0, 20.0, 0.6));
    assert_eq!(buf.len(), 2);
    assert_eq!(buf.latest().unwrap().timestamp_ms, 2.0);
}

#[test]
fn overflow_wraps_around() {
    let mut buf = InputBuffer::new(3);
    for i in 0..5 {
        buf.push(make_sample(i as f64, i as f32, 1.0));
    }
    assert_eq!(buf.len(), 3);
    assert_eq!(buf.latest().unwrap().timestamp_ms, 4.0);
    let all: Vec<f64> = buf.iter_oldest_first().iter().map(|s| s.timestamp_ms).collect();
    assert_eq!(all, vec![2.0, 3.0, 4.0]);
}

#[test]
fn clear_resets_buffer() {
    let mut buf = InputBuffer::new(4);
    buf.push(make_sample(1.0, 1.0, 1.0));
    buf.push(make_sample(2.0, 2.0, 1.0));
    buf.clear();
    assert!(buf.is_empty());
    assert_eq!(buf.len(), 0);
    assert!(buf.latest().is_none());
}

#[test]
fn default_capacity_is_256() {
    let buf: InputBuffer<Sample> = InputBuffer::default();
    assert_eq!(buf.capacity(), 256);
}

#[test]
fn newest_first_iteration_order() {
    let mut buf = InputBuffer::new(4);
    buf.push(make_sample(10.0, 1.0, 1.0));
    buf.push(make_sample(20.0, 2.0, 1.0));
    buf.push(make_sample(30.0, 3.0, 1.0));
    let ts: Vec<f64> = buf.iter_newest_first().iter().map(|s| s.timestamp_ms).collect();
    assert_eq!(ts, vec![30.0, 20.0, 10.0]);
}

#[test]
fn newest_first_after_wrap() {
    let mut buf = InputBuffer::new(3);
    for i in 0..7u32 {
        buf.push(i);
    }
    assert_eq!(buf.iter_newest_first(), vec![6, 5, 4]);
    assert_eq!(buf.iter_oldest_first(), vec![4, 5, 6]);
    assert_eq!(buf.latest(), Some(6));
}

#[test]
fn empty_buffer_has_nothing() {
    let buf: InputBuffer<u32> = InputBuffer::new(4);
    assert!(buf.is_empty());
    assert_eq!(buf.len(), 0);
    assert!(buf.latest().is_none());
    assert!(buf.iter_oldest_first().is_empty());
    assert!(buf.iter_newest_first().is_empty());
}

#[test]
fn keeps_last_capacity_pushes() {
    let mut buf = InputBuffer::new(5);
    for i in 0..3u8 {
        buf.push(i);
    }
    assert_eq!(buf.iter_oldest_first(), vec![0, 1, 2]);
    for i in 3..12u8 {
        buf.push(i);
    }
    assert_eq!(buf.len(), 5);
    assert_eq!(buf.iter_oldest_first(), vec![7, 8, 9, 10, 11]);
}

#[test]
fn samples_keep_their_fields() {
    let mut buf = InputBuffer::new(2);
    buf.push(make_sample(5.0, 1.5, 0.25));
    let s = buf.latest().unwrap();
    assert_eq!(s.x, 1.5);
    assert_eq!(s.pressure, 0.25);
}
