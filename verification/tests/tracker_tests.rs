use binkybox::recency::WindowHandle;
use binkybox::registry::DesktopRegistry;
use binkybox::tracker::{TrackerError, WndTracker, INITIAL_DESKTOP};

fn w(id: usize) -> WindowHandle {
    WindowHandle { id }
}

#[test]
fn failed_hook_registration_is_fatal() {
    let r = WndTracker::new(false);
    assert!(matches!(r, Err(TrackerError::HookRegistrationFailed)));
}

#[test]
fn switch_restores_most_recent_of_desktop() {
    // Desktop 1 sees W1 then W2; switching away and back activates W2.
    let mut t = WndTracker::new(true).unwrap();
    assert_eq!(t.activate(1), None);
    t.set_active_wnd(w(101));
    t.set_active_wnd(w(102));
    assert_eq!(t.activate(2), None);
    assert_eq!(t.activate(1), Some(w(102)));
}

#[test]
fn switch_to_unseen_desktop_only_retargets() {
    // Desktop 99 has no history: no activation, but later events go to it.
    let mut t = WndTracker::new(true).unwrap();
    assert_eq!(t.activate(99), None);
    t.set_active_wnd(w(3));
    assert_eq!(t.activate(0), None);
    assert_eq!(t.activate(99), Some(w(3)));
}

#[test]
fn events_before_any_switch_belong_to_initial_desktop() {
    let mut t = WndTracker::new(true).unwrap();
    t.set_active_wnd(w(7));
    assert_eq!(t.activate(INITIAL_DESKTOP), Some(w(7)));
}

#[test]
fn teardown_twice_releases_once() {
    let mut t = WndTracker::new(true).unwrap();
    assert!(t.teardown());
    assert!(!t.teardown());
    assert!(!t.teardown());
}

#[test]
fn tracker_is_inert_after_teardown() {
    let mut t = WndTracker::new(true).unwrap();
    t.set_active_wnd(w(1));
    t.teardown();
    t.set_active_wnd(w(2));
    assert_eq!(t.activate(5), None);
    // Even the history that exists is no longer served, and the current
    // desktop did not move.
    assert_eq!(t.activate(INITIAL_DESKTOP), None);
}

#[test]
fn interleaved_desktops_keep_separate_histories() {
    // Events for distinct desktops, interleaved, never leak across: each
    // desktop ends with exactly its own pushes.
    let mut t = WndTracker::new(true).unwrap();
    t.activate(1);
    t.set_active_wnd(w(11));
    t.activate(2);
    t.set_active_wnd(w(21));
    t.activate(1);
    t.set_active_wnd(w(12));
    t.activate(2);
    t.set_active_wnd(w(22));
    assert_eq!(t.activate(1), Some(w(12)));
    assert_eq!(t.activate(2), Some(w(22)));
    assert_eq!(t.activate(3), None);
}

#[test]
fn registry_records_per_desktop() {
    let mut r = DesktopRegistry::new(4);
    assert!(!r.contains(1));
    assert_eq!(r.top(1), None);
    r.record(1, w(1));
    r.record(1, w(2));
    r.record(2, w(3));
    assert!(r.contains(1));
    assert!(r.contains(2));
    assert!(!r.contains(3));
    assert_eq!(r.top(1), Some(w(2)));
    assert_eq!(r.top(2), Some(w(3)));
    assert_eq!(r.top(3), None);
}

#[test]
fn registry_eviction_at_capacity() {
    let mut r = DesktopRegistry::new(2);
    r.record(7, w(1));
    r.record(7, w(2));
    r.record(7, w(3));
    assert_eq!(r.top(7), Some(w(3)));
    // w(1) was evicted; re-recording it makes it most recent again.
    r.record(7, w(1));
    assert_eq!(r.top(7), Some(w(1)));
}
