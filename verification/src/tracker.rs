//! The activation tracker: records which window was in the foreground on
//! each virtual desktop, and decides which window to restore on a desktop
//! switch.
//!
//! The tracker is a pure state machine. The surrounding application owns the
//! operating-system pieces: it installs the foreground-event hook, feeds each
//! qualifying event to [`WndTracker::set_active_wnd`], performs the window
//! activation that [`WndTracker::activate`] returns, and releases the hook
//! exactly when [`WndTracker::teardown`] says so.

use vstd::prelude::*;

use crate::recency::WindowHandle;
use crate::registry::{history_of, record_event, DesktopRegistry};

verus! {

/// How many windows each desktop's history keeps.
pub const HISTORY_CAPACITY: usize = 4;

/// The desktop events are attributed to before any explicit switch.
pub const INITIAL_DESKTOP: u32 = 0;

/// Lifecycle of the tracker: `Active` while it owns the installed hook,
/// `ShutDown` once the hook has been handed back for release. There is no
/// way back from `ShutDown`.
#[derive(Clone, Copy, PartialEq, Eq, Structural, Debug)]
pub enum Lifecycle {
    Active,
    ShutDown,
}

/// Reasons the tracker cannot be brought up.
#[derive(Clone, Copy, PartialEq, Eq, Structural, Debug)]
pub enum TrackerError {
    /// The foreground-event hook could not be installed. Fatal to startup:
    /// without it no foreground change is ever seen.
    HookRegistrationFailed,
}

/// Tracks, per virtual desktop, the recently active windows, plus which
/// desktop is current and whether the tracker still owns the event hook.
pub struct WndTracker {
    pub active_wnds: DesktopRegistry,
    pub desktop: Option<u32>,
    pub lifecycle: Lifecycle,
}

/// The state after a teardown, and whether this teardown must release the
/// hook resource: only the transition out of `Active` releases it.
pub open spec fn teardown_spec(t: WndTracker) -> (WndTracker, bool) {
    (
        WndTracker { lifecycle: Lifecycle::ShutDown, ..t },
        t.lifecycle == Lifecycle::Active,
    )
}

impl WndTracker {
    pub open spec fn wf(&self) -> bool {
        &&& self.active_wnds.wf()
        &&& self.active_wnds.capacity() == HISTORY_CAPACITY
    }

    /// The history recorded for desktop `id`.
    pub open spec fn spec_history(&self, id: u32) -> Seq<WindowHandle> {
        history_of(self.active_wnds@, id)
    }

    /// Build the tracker once the application has tried to install the
    /// foreground-event hook. A failed installation is fatal and surfaces as
    /// an error; on success the tracker starts with no history and with the
    /// initial desktop current.
    pub fn new(hook_installed: bool) -> (r: Result<WndTracker, TrackerError>)
        ensures
            r.is_ok() <==> hook_installed,
            r matches Ok(t) ==> {
                &&& t.wf()
                &&& t.lifecycle == Lifecycle::Active
                &&& t.desktop == Some(INITIAL_DESKTOP)
                &&& t.active_wnds@ == Map::<u32, Seq<WindowHandle>>::empty()
            },
            r matches Err(e) ==> e == TrackerError::HookRegistrationFailed,
    {
        if !hook_installed {
            return Err(TrackerError::HookRegistrationFailed);
        }
        Ok(
            WndTracker {
                active_wnds: DesktopRegistry::new(HISTORY_CAPACITY),
                desktop: Some(INITIAL_DESKTOP),
                lifecycle: Lifecycle::Active,
            },
        )
    }

    /// Record that `hwnd` came to the foreground. The event is attributed to
    /// the current desktop; the desktop's history is created on first use.
    /// After shutdown, or with no current desktop, this is a safe no-op.
    /// Only the current desktop's history changes: every other desktop's
    /// history is exactly what it was.
    pub fn set_active_wnd(&mut self, hwnd: WindowHandle)
        requires
            old(self).wf(),
        ensures
            final(self).wf(),
            final(self).lifecycle == old(self).lifecycle,
            final(self).desktop == old(self).desktop,
            old(self).lifecycle == Lifecycle::ShutDown ==> *final(self) == *old(self),
            old(self).lifecycle == Lifecycle::Active ==> match old(self).desktop {
                None => *final(self) == *old(self),
                Some(d) => {
                    &&& final(self).active_wnds@ == record_event(
                        old(self).active_wnds@,
                        d,
                        hwnd,
                        HISTORY_CAPACITY as nat,
                    )
                    &&& forall|d2: u32|
                        d2 != d ==> #[trigger] final(self).spec_history(d2) == old(
                            self,
                        ).spec_history(d2)
                    &&& final(self).active_wnds.capacity() == old(self).active_wnds.capacity()
                },
            },
    {
        match self.lifecycle {
            Lifecycle::ShutDown => {},
            Lifecycle::Active => {
                match self.desktop {
                    None => {},
                    Some(d) => {
                        self.active_wnds.record(d, hwnd);
                    },
                }
            },
        }
    }

    /// Switch to desktop `desktop`: the result is the window the caller
    /// should bring to the foreground — the most recent one recorded for that
    /// desktop — or `None` when the desktop has no recorded history. The
    /// current desktop becomes `desktop` in every case, so that later events
    /// are attributed correctly. After shutdown this is a safe no-op.
    pub fn activate(&mut self, desktop: u32) -> (r: Option<WindowHandle>)
        requires
            old(self).wf(),
        ensures
            final(self).wf(),
            old(self).lifecycle == Lifecycle::ShutDown ==> *final(self) == *old(self) && r
                == None::<WindowHandle>,
            old(self).lifecycle == Lifecycle::Active ==> {
                &&& final(self).lifecycle == Lifecycle::Active
                &&& final(self).active_wnds == old(self).active_wnds
                &&& final(self).desktop == Some(desktop)
                &&& r == (if old(self).spec_history(desktop).len() == 0 {
                    None::<WindowHandle>
                } else {
                    Some(old(self).spec_history(desktop).last())
                })
            },
    {
        match self.lifecycle {
            Lifecycle::ShutDown => None,
            Lifecycle::Active => {
                let top = self.active_wnds.top(desktop);
                self.desktop = Some(desktop);
                top
            },
        }
    }

    /// Shut the tracker down. The result says whether the caller must now
    /// release the hook resource: true exactly on the first teardown, so the
    /// hook is released once and never twice.
    pub fn teardown(&mut self) -> (release: bool)
        requires
            old(self).wf(),
        ensures
            final(self).wf(),
            (*final(self), release) == teardown_spec(*old(self)),
            final(self).lifecycle == Lifecycle::ShutDown,
            final(self).active_wnds == old(self).active_wnds,
            final(self).desktop == old(self).desktop,
            release == (old(self).lifecycle == Lifecycle::Active),
    {
        let release = match self.lifecycle {
            Lifecycle::Active => true,
            Lifecycle::ShutDown => false,
        };
        self.lifecycle = Lifecycle::ShutDown;
        release
    }
}

/// Law: teardown is idempotent. A second teardown changes nothing and does
/// not release the hook again, so the resource is released at most once.
pub proof fn lemma_teardown_idempotent(t: WndTracker)
    ensures
        ({
            let (t1, r1) = teardown_spec(t);
            let (t2, r2) = teardown_spec(t1);
            t2 == t1 && r2 == false
        }),
{
}

} // verus!
