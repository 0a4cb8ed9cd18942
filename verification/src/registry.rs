//! Per-desktop histories: a mapping from desktop id to its recency stack,
//! with entries created lazily on first use and never removed.

use vstd::prelude::*;

use crate::recency::{push_all, pushed, DedupRingStack, WindowHandle};

verus! {

/// The recorded history of a desktop in `m`: its stack contents if the
/// desktop has been seen, the empty history otherwise.
pub open spec fn history_of(m: Map<u32, Seq<WindowHandle>>, id: u32) -> Seq<WindowHandle> {
    if m.contains_key(id) {
        m[id]
    } else {
        Seq::empty()
    }
}

/// The abstract mapping held by an association list of registry entries.
pub closed spec fn as_map(s: Seq<(u32, DedupRingStack)>) -> Map<u32, Seq<WindowHandle>>
    decreases s.len(),
{
    if s.len() == 0 {
        Map::empty()
    } else {
        as_map(s.drop_last()).insert(s.last().0, s.last().1@)
    }
}

proof fn lemma_as_map_dom(s: Seq<(u32, DedupRingStack)>)
    ensures
        forall|id: u32| #[trigger]
            as_map(s).contains_key(id) <==> exists|i: int| 0 <= i < s.len() && s[i].0 == id,
    decreases s.len(),
{
    if s.len() > 0 {
        lemma_as_map_dom(s.drop_last());
        assert forall|id: u32| #[trigger] as_map(s).contains_key(id) implies exists|i: int|
            0 <= i < s.len() && s[i].0 == id by {
            if id == s.last().0 {
                assert(s[s.len() - 1].0 == id);
            } else {
                assert(as_map(s.drop_last()).contains_key(id));
                let i = choose|i: int| 0 <= i < s.drop_last().len() && s.drop_last()[i].0 == id;
                assert(s.drop_last()[i] == s[i]);
                assert(s[i].0 == id);
            }
        }
        assert forall|id: u32| exists|i: int|
            0 <= i < s.len() && s[i].0 == id implies #[trigger] as_map(s).contains_key(id) by {
            let i = choose|i: int| 0 <= i < s.len() && s[i].0 == id;
            if i < s.len() - 1 {
                assert(s.drop_last()[i].0 == id);
                assert(exists|j: int| 0 <= j < s.drop_last().len() && s.drop_last()[j].0 == id);
                assert(as_map(s.drop_last()).contains_key(id));
            } else {
                assert(id == s.last().0);
            }
        }
    }
}

proof fn lemma_as_map_at(s: Seq<(u32, DedupRingStack)>, i: int)
    requires
        forall|j: int, k: int| 0 <= j < k < s.len() ==> s[j].0 != s[k].0,
        0 <= i < s.len(),
    ensures
        as_map(s).contains_key(s[i].0),
        as_map(s)[s[i].0] == s[i].1@,
    decreases s.len(),
{
    lemma_as_map_dom(s);
    if i == s.len() - 1 {
        assert(as_map(s)[s.last().0] == s.last().1@);
    } else {
        assert(s[i].0 != s.last().0);
        lemma_as_map_at(s.drop_last(), i);
        assert(s.drop_last()[i] == s[i]);
    }
}

proof fn lemma_as_map_push(s: Seq<(u32, DedupRingStack)>, id: u32, st: DedupRingStack)
    ensures
        as_map(s.push((id, st))) == as_map(s).insert(id, st@),
{
    let t = s.push((id, st));
    assert(t.drop_last() =~= s);
    assert(t.last() == (id, st));
}

proof fn lemma_as_map_update(s: Seq<(u32, DedupRingStack)>, i: int, st: DedupRingStack)
    requires
        forall|j: int, k: int| 0 <= j < k < s.len() ==> s[j].0 != s[k].0,
        0 <= i < s.len(),
    ensures
        as_map(s.update(i, (s[i].0, st))) == as_map(s).insert(s[i].0, st@),
    decreases s.len(),
{
    let t = s.update(i, (s[i].0, st));
    if i == s.len() - 1 {
        assert(t.drop_last() =~= s.drop_last());
        assert(t.last() == (s[i].0, st));
        assert(as_map(t) == as_map(s.drop_last()).insert(s[i].0, st@));
        assert(as_map(s.drop_last()).insert(s.last().0, s.last().1@).insert(s[i].0, st@)
            =~= as_map(s.drop_last()).insert(s[i].0, st@));
    } else {
        assert(t.drop_last() =~= s.drop_last().update(i, (s[i].0, st)));
        assert(s.drop_last()[i] == s[i]);
        assert(t.last() == s.last());
        lemma_as_map_update(s.drop_last(), i, st);
        assert(as_map(t) == as_map(s.drop_last()).insert(s[i].0, st@).insert(
            s.last().0,
            s.last().1@,
        ));
        assert(s[i].0 != s.last().0);
        assert(as_map(s.drop_last()).insert(s[i].0, st@).insert(s.last().0, s.last().1@)
            =~= as_map(s.drop_last()).insert(s.last().0, s.last().1@).insert(s[i].0, st@));
    }
}

/// One recording step on the abstract mapping: desktop `d` gets `h` pushed
/// onto its (possibly still empty) history.
pub open spec fn record_event(
    m: Map<u32, Seq<WindowHandle>>,
    d: u32,
    h: WindowHandle,
    cap: nat,
) -> Map<u32, Seq<WindowHandle>> {
    m.insert(d, pushed(history_of(m, d), h, cap))
}

/// The mapping after recording a sequence of `(desktop, window)` events in
/// order.
pub open spec fn apply_events(
    m: Map<u32, Seq<WindowHandle>>,
    events: Seq<(u32, WindowHandle)>,
    cap: nat,
) -> Map<u32, Seq<WindowHandle>>
    decreases events.len(),
{
    if events.len() == 0 {
        m
    } else {
        apply_events(
            record_event(m, events.first().0, events.first().1, cap),
            events.drop_first(),
            cap,
        )
    }
}

/// The windows of those events that are directed at desktop `id`, in order.
pub open spec fn directed_at(events: Seq<(u32, WindowHandle)>, id: u32) -> Seq<WindowHandle>
    decreases events.len(),
{
    if events.len() == 0 {
        Seq::empty()
    } else if events.first().0 == id {
        seq![events.first().1] + directed_at(events.drop_first(), id)
    } else {
        directed_at(events.drop_first(), id)
    }
}

/// Law: desktops are isolated. After any sequence of recording events, each
/// desktop's history is exactly what pushing the events directed at that
/// desktop — and no others — produces. Events aimed at other desktops never
/// touch it.
pub proof fn lemma_history_isolation(
    m: Map<u32, Seq<WindowHandle>>,
    events: Seq<(u32, WindowHandle)>,
    id: u32,
    cap: nat,
)
    ensures
        history_of(apply_events(m, events, cap), id) == push_all(
            history_of(m, id),
            directed_at(events, id),
            cap,
        ),
    decreases events.len(),
{
    if events.len() == 0 {
        assert(push_all(history_of(m, id), Seq::empty(), cap) == history_of(m, id));
    } else {
        let d = events.first().0;
        let h = events.first().1;
        let m2 = record_event(m, d, h, cap);
        let rest = events.drop_first();
        lemma_history_isolation(m2, rest, id, cap);
        if d == id {
            assert(history_of(m2, id) == pushed(history_of(m, id), h, cap));
            let dir = directed_at(events, id);
            assert(dir == seq![h] + directed_at(rest, id));
            assert(dir.len() > 0);
            assert(dir.first() == h);
            assert(dir.drop_first() =~= directed_at(rest, id));
            assert(push_all(history_of(m, id), dir, cap) == push_all(
                pushed(history_of(m, id), h, cap),
                directed_at(rest, id),
                cap,
            ));
        } else {
            assert(history_of(m2, id) == history_of(m, id));
            assert(directed_at(events, id) == directed_at(rest, id));
        }
    }
}

/// Mapping from desktop id to the recency stack of its foreground windows.
/// All stacks share the capacity fixed when the registry is created.
pub struct DesktopRegistry {
    entries: Vec<(u32, DedupRingStack)>,
    cap: usize,
}

impl View for DesktopRegistry {
    type V = Map<u32, Seq<WindowHandle>>;

    closed spec fn view(&self) -> Map<u32, Seq<WindowHandle>> {
        as_map(self.entries@)
    }
}

impl DesktopRegistry {
    /// The capacity every stack of this registry is created with.
    pub closed spec fn capacity(&self) -> usize {
        self.cap
    }

    pub closed spec fn wf(&self) -> bool {
        &&& self.cap >= 1
        &&& forall|j: int, k: int|
            0 <= j < k < self.entries@.len() ==> self.entries@[j].0 != self.entries@[k].0
        &&& forall|j: int|
            0 <= j < self.entries@.len() ==> (#[trigger] self.entries@[j].1).wf()
                && self.entries@[j].1.capacity() == self.cap
    }

    pub fn new(cap: usize) -> (r: DesktopRegistry)
        requires
            1 <= cap,
        ensures
            r.wf(),
            r@ == Map::<u32, Seq<WindowHandle>>::empty(),
            r.capacity() == cap,
    {
        DesktopRegistry { entries: Vec::new(), cap }
    }

    /// Position of the entry for `id`, if the desktop has been seen.
    fn find(&self, id: u32) -> (r: Option<usize>)
        requires
            self.wf(),
        ensures
            match r {
                Some(i) => i < self.entries@.len() && self.entries@[i as int].0 == id,
                None => forall|j: int| 0 <= j < self.entries@.len() ==> self.entries@[j].0 != id,
            },
    {
        let mut i: usize = 0;
        while i < self.entries.len()
            invariant
                i <= self.entries@.len(),
                forall|j: int| 0 <= j < i ==> self.entries@[j].0 != id,
            decreases self.entries@.len() - i,
        {
            if self.entries[i].0 == id {
                return Some(i);
            }
            i = i + 1;
        }
        None
    }

    /// Whether desktop `id` has a history already.
    pub fn contains(&self, id: u32) -> (r: bool)
        requires
            self.wf(),
        ensures
            r == self@.contains_key(id),
    {
        proof {
            lemma_as_map_dom(self.entries@);
        }
        self.find(id).is_some()
    }

    /// Record `h` as the most recent foreground window of desktop `id`,
    /// creating the desktop's history on first use.
    pub fn record(&mut self, id: u32, h: WindowHandle)
        requires
            old(self).wf(),
        ensures
            final(self).wf(),
            final(self).capacity() == old(self).capacity(),
            final(self)@ == record_event(old(self)@, id, h, old(self).capacity() as nat),
    {
        let ghost orig = self.entries@;
        proof {
            lemma_as_map_dom(orig);
        }
        match self.find(id) {
            Some(i) => {
                proof {
                    lemma_as_map_at(orig, i as int);
                }
                let (k, mut st) = self.entries.remove(i);
                st.push(h);
                self.entries.insert(i, (k, st));
                proof {
                    assert(self.entries@ =~= orig.update(i as int, (k, st)));
                    lemma_as_map_update(orig, i as int, st);
                    assert(history_of(as_map(orig), id) == orig[i as int].1@);
                }
            },
            None => {
                let mut st = DedupRingStack::new(self.cap);
                st.push(h);
                self.entries.push((id, st));
                proof {
                    lemma_as_map_push(orig, id, st);
                    assert(!as_map(orig).contains_key(id));
                    assert(history_of(as_map(orig), id) =~= Seq::<WindowHandle>::empty());
                }
            },
        }
    }

    /// The most recent recorded window of desktop `id`: `None` when the
    /// desktop has no history or an empty one.
    pub fn top(&self, id: u32) -> (r: Option<WindowHandle>)
        requires
            self.wf(),
        ensures
            r == (if history_of(self@, id).len() == 0 {
                None::<WindowHandle>
            } else {
                Some(history_of(self@, id).last())
            }),
    {
        proof {
            lemma_as_map_dom(self.entries@);
        }
        match self.find(id) {
            Some(i) => {
                proof {
                    lemma_as_map_at(self.entries@, i as int);
                }
                self.entries[i].1.peek()
            },
            None => None,
        }
    }
}

} // verus!
