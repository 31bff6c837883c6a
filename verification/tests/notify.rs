use shell_mon::notify::{Notifier, DEDUP_MS};

#[test]
fn dedup_within_window() {
    let mut n = Notifier::new(true, true);
    assert!(n.enabled());
    assert!(n.notify("corpo", 1000));
    assert!(!n.notify("corpo", 1000 + DEDUP_MS - 1));
    assert!(n.notify("outro", 1500));
    assert!(n.notify("corpo", 1000 + DEDUP_MS));
}

#[test]
fn disabled_never_sends() {
    let mut n = Notifier::new(true, false);
    assert!(!n.enabled());
    assert!(!n.notify("x", 0));
    let mut m = Notifier::new(false, true);
    assert!(!m.notify("x", 0));
}
