use neon_compiler::lsp::debounce::{on_change, on_close, wait_for, Pending, DEBOUNCE_MS, MAX_DELAY_MS};

fn pending(uri: &str, first: u64, last: u64) -> Pending {
    Pending { uri: uri.to_string(), first, last }
}

#[test]
fn the_deadline_is_the_earlier_of_the_two_limits() {
    assert_eq!(pending("a", 0, 0).deadline(), DEBOUNCE_MS);
    assert_eq!(pending("a", 0, 700).deadline(), MAX_DELAY_MS);
    assert_eq!(pending("a", 100, 200).deadline(), 350);
    assert_eq!(pending("a", u64::MAX, u64::MAX).deadline(), u64::MAX);
}

#[test]
fn continued_typing_renews_the_debounce_but_not_the_cap() {
    let (p, flush) = on_change(None, "file:///a".to_string(), 10);
    assert!(flush.is_none());
    assert_eq!((p.first, p.last), (10, 10));
    let (p, flush) = on_change(Some(p), "file:///a".to_string(), 100);
    assert!(flush.is_none());
    assert_eq!((p.first, p.last), (10, 100));
    assert_eq!(p.deadline(), 250);
    let (p, _) = on_change(Some(p), "file:///a".to_string(), 700);
    // Continuous typing: the cap from the first change bounds the wait.
    assert_eq!(p.deadline(), 760);
}

#[test]
fn another_document_going_dirty_flushes_the_first() {
    let (p, _) = on_change(None, "file:///a".to_string(), 10);
    let (q, flush) = on_change(Some(p), "file:///b".to_string(), 20);
    let old = flush.expect("the first document is checked now");
    assert_eq!(old.uri, "file:///a");
    assert_eq!((q.uri.as_str(), q.first, q.last), ("file:///b", 20, 20));
}

#[test]
fn closing_drops_only_its_own_pending_check() {
    let p = pending("file:///a", 1, 2);
    assert!(on_close(Some(p), &"file:///a".to_string()).is_none());
    let p = pending("file:///a", 1, 2);
    let kept = on_close(Some(p), &"file:///b".to_string()).expect("still pending");
    assert_eq!(kept.uri, "file:///a");
    assert!(on_close(None, &"file:///a".to_string()).is_none());
}

#[test]
fn waiting_is_forever_without_a_pending_check_and_never_negative() {
    assert_eq!(wait_for(&None, 5), None);
    assert_eq!(wait_for(&Some(pending("a", 0, 0)), 100), Some(50));
    assert_eq!(wait_for(&Some(pending("a", 0, 0)), 1000), Some(0));
}
