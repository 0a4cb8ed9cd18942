use binkybox::recency::WindowHandle;
use binkybox::tracker::WndTracker;

fn w(id: usize) -> WindowHandle {
    WindowHandle { id }
}

#[test]
fn interleaved_desktops_never_corrupt_each_other() {
    // Eight event streams, one per desktop id, applied in an adversarial
    // pseudo-random interleaving (each event switches to its desktop and
    // records, the way the application's locked callback path does).
    // Afterwards every desktop must hold exactly its own most recent push,
    // whatever the interleaving was.
    let desktops: usize = 8;
    let pushes_each: usize = 200;

    let mut t = WndTracker::new(true).unwrap();
    let mut progress = vec![0usize; desktops];
    let mut remaining = desktops * pushes_each;
    let mut state: u64 = 0x2545_F491_4F6C_DD1D;
    while remaining > 0 {
        state = state
            .wrapping_mul(6364136223846793005)
            .wrapping_add(1442695040888963407);
        let mut d = (state >> 33) as usize % desktops;
        while progress[d] == pushes_each {
            d = (d + 1) % desktops;
        }
        t.activate(d as u32);
        t.set_active_wnd(w(d * 1000 + progress[d]));
        progress[d] += 1;
        remaining -= 1;
    }

    for d in 0..desktops {
        assert_eq!(
            t.activate(d as u32),
            Some(w(d * 1000 + pushes_each - 1)),
            "desktop {} lost its own history",
            d
        );
    }
    // A desktop nobody pushed to stayed empty.
    assert_eq!(t.activate(desktops as u32), None);
}
