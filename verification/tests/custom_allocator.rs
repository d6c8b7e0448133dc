use rust_recipes::custom_allocator::{leak_report, LeakTracker};

#[test]
fn tracker_follows_allocations() {
    let mut t = LeakTracker::new();
    assert_eq!(t.live_count(), 0);
    t.record_alloc(0x1000);
    t.record_alloc(0x2000);
    t.record_alloc(0);
    assert_eq!(t.live_count(), 2);
    assert!(t.record_dealloc(0x1000));
    assert!(!t.record_dealloc(0x1000));
    t.record_realloc(0x2000, 0x3000);
    assert_eq!(t.leaks(), vec![0x3000]);
    t.record_realloc(0x3000, 0);
    assert_eq!(t.live_count(), 0);
}

#[test]
fn report_lists_each_leak() {
    let mut t = LeakTracker::new();
    assert_eq!(t.report_leaks(), vec!["\u{2705} No memory leaks detected.".to_string()]);
    t.record_alloc(0xdead0);
    t.record_alloc(0xbeef);
    let lines = t.report_leaks();
    assert_eq!(lines.len(), 3);
    assert_eq!(lines[0], "\u{274c} Leaked 2 allocation(s):");
    let mut rest: Vec<String> = lines[1..].to_vec();
    rest.sort();
    assert_eq!(rest, vec!["   \u{26a0}\u{fe0f} 0xbeef".to_string(), "   \u{26a0}\u{fe0f} 0xdead0".to_string()]);
    let mut leaks = t.leaks();
    leaks.sort();
    assert_eq!(leaks, vec![0xbeef, 0xdead0]);
}

#[test]
fn report_keeps_the_given_order() {
    let lines = leak_report(&[255, 16]);
    assert_eq!(lines, vec![
        "\u{274c} Leaked 2 allocation(s):".to_string(),
        "   \u{26a0}\u{fe0f} 0xff".to_string(),
        "   \u{26a0}\u{fe0f} 0x10".to_string(),
    ]);
    assert_eq!(leak_report(&[]), vec!["\u{2705} No memory leaks detected.".to_string()]);
}
