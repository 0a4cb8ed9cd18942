use binkybox::recency::{DedupRingStack, WindowHandle};

fn w(id: usize) -> WindowHandle {
    WindowHandle { id }
}

#[test]
fn repush_makes_most_recent() {
    // Capacity at least 2: after pushing A, B, A the stack holds one A and
    // one B, and A is the most recent.
    let mut s = DedupRingStack::new(4);
    assert_eq!(s.peek(), None);
    s.push(w(1));
    s.push(w(2));
    s.push(w(1));
    assert_eq!(s.peek(), Some(w(1)));
    // B is still there as the single older entry: one more distinct push on
    // a capacity-2 stack would evict it, but on capacity 4 nothing is lost.
    let mut small = DedupRingStack::new(2);
    small.push(w(1));
    small.push(w(2));
    small.push(w(1));
    assert_eq!(small.peek(), Some(w(1)));
    // The stack holds [B, A]; pushing B again just reorders, no eviction.
    small.push(w(2));
    assert_eq!(small.peek(), Some(w(2)));
}

#[test]
fn overflow_evicts_least_recent() {
    // Capacity 3: pushing 4 distinct handles keeps the newest three.
    let mut s = DedupRingStack::new(3);
    s.push(w(10));
    s.push(w(11));
    s.push(w(12));
    s.push(w(13));
    assert_eq!(s.peek(), Some(w(13)));
    // 10 was evicted: re-pushing it must not "move" an existing entry, so a
    // further distinct push now evicts 11, not 12.
    s.push(w(10));
    assert_eq!(s.peek(), Some(w(10)));
}

#[test]
fn capacity_one_holds_only_latest() {
    let mut s = DedupRingStack::new(1);
    assert_eq!(s.peek(), None);
    s.push(w(5));
    assert_eq!(s.peek(), Some(w(5)));
    s.push(w(6));
    assert_eq!(s.peek(), Some(w(6)));
    s.push(w(5));
    assert_eq!(s.peek(), Some(w(5)));
    s.push(w(5));
    assert_eq!(s.peek(), Some(w(5)));
    s.push(w(7));
    assert_eq!(s.peek(), Some(w(7)));
}

#[test]
fn peek_does_not_mutate() {
    let mut s = DedupRingStack::new(2);
    s.push(w(1));
    assert_eq!(s.peek(), Some(w(1)));
    assert_eq!(s.peek(), Some(w(1)));
}
