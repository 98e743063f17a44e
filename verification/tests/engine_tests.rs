use aboss_task::data_processor::{DataProcessor, RawData, Ratio, UnsafeQueue};

fn min_f(s: &RawData) -> f64 {
    s.min as f64
}

fn max_f(s: &RawData) -> f64 {
    s.max as f64
}

fn avg_f(s: &RawData) -> f64 {
    s.curr_avg.num as f64 / s.curr_avg.den as f64
}

fn sma_f(s: &RawData) -> f64 {
    s.sma.num as f64 / s.sma.den as f64
}

#[test]
fn test_initial_state() {
    let p = DataProcessor::split(4, 1);
    let s = p.read();
    assert_eq!(s.min, 1);
    assert_eq!(s.max, 1);
    assert!((avg_f(&s) - 1.0).abs() < 1e-12);
    assert!((sma_f(&s) - 1.0).abs() < 1e-12);
    assert_eq!(s.data_point, 1);
}

#[test]
fn test_single_writer_updates_and_invariants() {
    let mut p = DataProcessor::split(3, 2);
    // initial
    let s0 = p.read();
    assert_eq!(s0.data_point, 1);

    // write sequence
    p.write(4); // now seen values: 2 (initial, seeded * 3), then 4
    let s1 = p.read();
    assert!(s1.max >= s1.min);
    assert!(s1.data_point >= s0.data_point);
    // streaming mean should have increased
    assert!(avg_f(&s1) >= avg_f(&s0));

    p.write(0);
    let s2 = p.read();
    assert!(s2.min <= s1.min);
    assert!(s2.max >= s1.max);
    assert!(s2.data_point >= s1.data_point);

    // more writes to fill the SMA window and rotate the ring
    p.write(10);
    p.write(5);

    let s3 = p.read();
    // sanity: the SMA of the last window lies between min and max here
    assert!(sma_f(&s3) >= min_f(&s3) - 1e-12 && sma_f(&s3) <= max_f(&s3) + 1e-12);
}

#[test]
fn test_sma_correctness_small_window() {
    // a small window so the expected SMA is easy to compute
    let window = 4usize;
    let mut p = DataProcessor::split(window, 1);

    // initial ring: [1,1,1,1], sma = 1
    let mut expected_buf = vec![1.0; window];
    let mut expected_sum: f64 = expected_buf.iter().sum();
    assert!((sma_f(&p.read()) - expected_sum / window as f64).abs() < 1e-12);

    let inputs = [2i64, 3, 4, 5, 6];
    for &x in &inputs {
        p.write(x);
        // rotate the expected buffer
        let popped = expected_buf.remove(0);
        expected_buf.push(x as f64);
        expected_sum = expected_sum - popped + x as f64;

        let snap = p.read();
        let expected_sma = expected_sum / window as f64;
        assert!(
            (sma_f(&snap) - expected_sma).abs() < 1e-9,
            "sma mismatch: got {} expected {} (buf {:?})",
            sma_f(&snap),
            expected_sma,
            expected_buf
        );
    }
}

#[test]
fn test_sma_expected_sequence_exact() {
    // conceptual ring [1,1,1,1] -> [1,1,1,2] -> [1,1,2,3] -> [1,2,3,4]
    //                -> [2,3,4,5] -> [3,4,5,6]
    let mut p = DataProcessor::split(4, 1);
    let expected = [1.25f64, 1.75, 2.5, 3.5, 4.5];
    for (k, x) in [2i64, 3, 4, 5, 6].iter().enumerate() {
        p.write(*x);
        let s = p.read();
        assert_eq!(sma_f(&s), expected[k]);
        assert_eq!(s.sma.den, 4);
    }
}

#[test]
fn test_streaming_mean_growth_and_monotonic_data_point() {
    // prices advance in halves; one unit stands for half a price point
    let mut p = DataProcessor::split(5, 20);
    let mut last = p.read();
    for i in 1i64..50 {
        p.write(i);
        let cur = p.read();
        // the data point count never shrinks
        assert!(cur.data_point >= last.data_point);
        // the running mean lies between min and max
        assert!(avg_f(&cur) >= min_f(&cur) - 1e-12 && avg_f(&cur) <= max_f(&cur) + 1e-12);
        last = cur;
    }
}

#[test]
fn test_min_max_monotone_over_writes() {
    let mut p = DataProcessor::split(3, 7);
    let mut prev = p.read();
    for x in [9i64, -2, 7, 100, -50, 0] {
        p.write(x);
        let cur = p.read();
        assert!(cur.min <= prev.min);
        assert!(cur.max >= prev.max);
        assert_eq!(cur.data_point, prev.data_point + 1);
        prev = cur;
    }
    assert_eq!(prev.min, -50);
    assert_eq!(prev.max, 100);
}

#[test]
fn test_interleaved_reads_and_writes_stay_consistent() {
    // a sequential stand-in for the reader stress run: after every write,
    // several reads in a row observe one coherent snapshot
    let mut p = DataProcessor::split(16, 0);
    let mut v = 0i64;
    for _ in 0..500 {
        v += 1;
        p.write(v);
        for _ in 0..4 {
            let s = p.read();
            assert!(s.max >= s.min);
            assert!(s.data_point >= 1);
            assert!(s.sma.den == 16);
            assert!(avg_f(&s) >= min_f(&s) - 1e-9 && avg_f(&s) <= max_f(&s) + 1e-9);
        }
    }
    let final_snap = p.read();
    assert!(final_snap.data_point > 1);
    assert_eq!(final_snap.data_point, 501);
    assert!(final_snap.max >= final_snap.min);
}

#[test]
fn test_queue_set_get_swap() {
    let mut q: UnsafeQueue<i64> = UnsafeQueue::new(3, 9);
    assert_eq!(q.capacity(), 3);
    assert_eq!(q.get(0), 9);
    q.set(5, 1);
    assert_eq!(q.get(1), 5);
    let old = q.swap(1, 8);
    assert_eq!(old, 5);
    assert_eq!(q.get(1), 8);
    assert_eq!(q.get(2), 9);
}

#[test]
fn test_snapshot_equality_is_by_fields() {
    let a = RawData {
        min: 1,
        max: 2,
        curr_avg: Ratio { num: 3, den: 2 },
        sma: Ratio { num: 8, den: 4 },
        data_point: 2,
    };
    let b = a;
    assert_eq!(a, b);
}
