use exl3::loop_detect::LoopDetector;

#[test]
fn detects_period_4_loop() {
    // A pure [0,1,2,3] tile fills the window at t == W (i == 99); it also has
    // period 8,12,…,32, and the largest is reported.
    let mut d = LoopDetector::new(100, None);
    let mut fired = None;
    for i in 0..400 {
        if d.feed((i % 4) as i64) {
            fired = Some(i);
            break;
        }
    }
    assert_eq!(fired, Some(99));
    let p = d.period().unwrap();
    assert!(p % 4 == 0 && p <= 33, "period {p}");
}

#[test]
fn no_false_positive_on_varied_text() {
    // deterministic non-periodic stream (LCG), longer than any window
    let mut d = LoopDetector::new(64, None);
    let mut x: u64 = 12345;
    let mut any = false;
    for _ in 0..5000 {
        x = x.wrapping_mul(6364136223846793005).wrapping_add(1442695040888963407);
        any |= d.feed((x >> 40) as i64);
    }
    assert!(!any);
}

#[test]
fn reports_the_largest_period() {
    let mut d = LoopDetector::new(100, None);
    for i in 0..100 {
        d.feed(i % 4);
    }
    assert!(d.detected());
    assert_eq!(d.period(), Some(32));
    d.reset();
    assert!(!d.detected());
    assert_eq!(d.period(), None);
}

#[test]
fn a_broken_loop_is_no_longer_reported() {
    let mut d = LoopDetector::new(8, Some(2));
    for i in 0..8 {
        assert_eq!(d.feed(5), i == 7);
    }
    assert_eq!(d.period(), Some(2));
    assert!(d.feed(5));
    assert!(!d.feed(77));
    assert_eq!(d.period(), None);
}

#[test]
fn a_loop_after_other_text_is_reported_once_it_fills_the_window() {
    let mut d = LoopDetector::new(6, Some(2));
    let mut fired = None;
    for (i, &t) in [1i64, 2, 1, 2, 1, 8, 9, 8, 9, 8, 9, 8, 9, 8, 9].iter().enumerate() {
        if d.feed(t) {
            fired = Some(i);
            break;
        }
    }
    assert_eq!(fired, Some(10));
    assert_eq!(d.period(), Some(2));

    let mut d = LoopDetector::new(4, Some(1));
    for t in [1, 2, 3, 4, 4, 4] {
        assert!(!d.feed(t));
    }
    assert!(d.feed(4));
    assert_eq!(d.period(), Some(1));
}

#[test]
fn reports_are_those_of_the_last_window() {
    // every report against the definition, on a stream with short loops in it
    let (window, longest) = (7usize, 3usize);
    let mut d = LoopDetector::new(window as i64, Some(longest));
    let mut seen: Vec<i64> = Vec::new();
    let mut x: u64 = 99;
    for i in 0..3000 {
        x = x.wrapping_mul(6364136223846793005).wrapping_add(1442695040888963407);
        let t = if i % 40 < 20 { (i % 3) as i64 } else { ((x >> 40) % 2) as i64 };
        seen.push(t);
        let n = seen.len();
        let mut want = None;
        if n >= window {
            for p in 1..=longest {
                if (n - window + p..n).all(|k| seen[k] == seen[k - p]) {
                    want = Some(p);
                }
            }
        }
        assert_eq!(d.feed(t), want.is_some(), "token {i}");
        assert_eq!(d.period(), want);
        assert_eq!(d.detected(), want.is_some());
    }
}

#[test]
fn a_reset_detector_is_as_a_new_one() {
    let mut a = LoopDetector::new(5, Some(2));
    for t in [3, 3, 3, 3, 3, 1, 3] {
        a.feed(t);
    }
    a.reset();
    let mut b = LoopDetector::new(5, Some(2));
    for t in [3, 3, 3, 3, 3, 3, 7, 3, 7, 3, 7] {
        assert_eq!(a.feed(t), b.feed(t));
        assert_eq!(a.period(), b.period());
    }
}
