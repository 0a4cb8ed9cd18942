//! A bounded, deduplicating, most-recently-used history of window handles.

use vstd::prelude::*;

verus! {

/// Identity of a top-level window. The tracker stores and compares these
/// identities by value; it never owns or manages the window itself.
#[derive(Clone, Copy, PartialEq, Eq, Structural, Hash, Debug)]
pub struct WindowHandle {
    pub id: usize,
}

/// `s` with every occurrence of `item` removed, the order of the remaining
/// entries kept.
pub open spec fn without(s: Seq<WindowHandle>, item: WindowHandle) -> Seq<WindowHandle>
    decreases s.len(),
{
    if s.len() == 0 {
        Seq::empty()
    } else if s.first() == item {
        without(s.drop_first(), item)
    } else {
        seq![s.first()] + without(s.drop_first(), item)
    }
}

/// The contents of a stack of capacity `cap` after pushing `item` onto
/// contents `s`: any earlier occurrence of `item` is removed, `item` becomes
/// the most recent entry (the last), and the least recent entry (the first)
/// is evicted when the capacity would otherwise be exceeded.
pub open spec fn pushed(s: Seq<WindowHandle>, item: WindowHandle, cap: nat) -> Seq<WindowHandle> {
    let kept = without(s, item).push(item);
    if kept.len() > cap {
        kept.drop_first()
    } else {
        kept
    }
}

/// `s` after pushing each entry of `items` in order.
pub open spec fn push_all(s: Seq<WindowHandle>, items: Seq<WindowHandle>, cap: nat) -> Seq<
    WindowHandle,
>
    decreases items.len(),
{
    if items.len() == 0 {
        s
    } else {
        push_all(pushed(s, items.first(), cap), items.drop_first(), cap)
    }
}

pub proof fn lemma_without_props(s: Seq<WindowHandle>, item: WindowHandle)
    ensures
        without(s, item).len() <= s.len(),
        forall|x: WindowHandle| #[trigger] without(s, item).contains(x) <==> s.contains(x) && x
            != item,
        s.no_duplicates() ==> without(s, item).no_duplicates(),
        !s.contains(item) ==> without(s, item) == s,
        s.no_duplicates() && s.contains(item) ==> without(s, item).len() == s.len() - 1,
    decreases s.len(),
{
    if s.len() == 0 {
        assert(without(s, item) =~= s);
    } else {
        let rest = s.drop_first();
        lemma_without_props(rest, item);
        assert(forall|x: WindowHandle| s.contains(x) <==> x == s.first() || rest.contains(x)) by {
            assert(forall|x: WindowHandle| #[trigger] s.contains(x) ==> x == s.first()
                || rest.contains(x)) by {
                assert forall|x: WindowHandle| #[trigger] s.contains(x) implies x == s.first()
                    || rest.contains(x) by {
                    let i = choose|i: int| 0 <= i < s.len() && s[i] == x;
                    if i > 0 {
                        assert(rest[i - 1] == x);
                    }
                }
            }
            assert(forall|x: WindowHandle| #[trigger] rest.contains(x) ==> s.contains(x)) by {
                assert forall|x: WindowHandle| #[trigger] rest.contains(x) implies s.contains(
                    x,
                ) by {
                    let i = choose|i: int| 0 <= i < rest.len() && rest[i] == x;
                    assert(s[i + 1] == x);
                }
            }
            assert(s.contains(s.first()));
        }
        if s.first() == item {
            if s.no_duplicates() {
                assert(rest.no_duplicates()) by {
                    assert(forall|i: int, j: int|
                        0 <= i < j < rest.len() ==> rest[i] == s[i + 1] && rest[j] == s[j + 1]);
                }
                assert(!rest.contains(item)) by {
                    if rest.contains(item) {
                        let i = choose|i: int| 0 <= i < rest.len() && rest[i] == item;
                        assert(s[i + 1] == item && s[0] == item);
                    }
                }
                assert(without(s, item) == rest);
            }
        } else {
            let w = without(rest, item);
            assert(without(s, item) == seq![s.first()] + w);
            assert(forall|x: WindowHandle| #[trigger] (seq![s.first()] + w).contains(x) <==> x
                == s.first() || w.contains(x)) by {
                assert forall|x: WindowHandle| #[trigger] (seq![s.first()] + w).contains(x)
                    implies x == s.first() || w.contains(x) by {
                    let i = choose|i: int|
                        0 <= i < (seq![s.first()] + w).len() && (seq![s.first()] + w)[i] == x;
                    if i > 0 {
                        assert(w[i - 1] == x);
                    }
                }
                assert forall|x: WindowHandle| x == s.first() || w.contains(x) implies #[trigger] (
                seq![s.first()] + w).contains(x) by {
                    if x == s.first() {
                        assert((seq![s.first()] + w)[0] == x);
                    } else {
                        let i = choose|i: int| 0 <= i < w.len() && w[i] == x;
                        assert((seq![s.first()] + w)[i + 1] == x);
                    }
                }
            }
            if s.no_duplicates() {
                assert(rest.no_duplicates()) by {
                    assert(forall|i: int, j: int|
                        0 <= i < j < rest.len() ==> rest[i] == s[i + 1] && rest[j] == s[j + 1]);
                }
                assert(!rest.contains(s.first())) by {
                    if rest.contains(s.first()) {
                        let i = choose|i: int| 0 <= i < rest.len() && rest[i] == s.first();
                        assert(s[i + 1] == s.first() && s[0] == s.first());
                    }
                }
                assert(without(s, item).no_duplicates()) by {
                    assert(!w.contains(s.first()));
                    assert(forall|i: int|
                        1 <= i < without(s, item).len() ==> without(s, item)[i] == w[i - 1]);
                }
            }
            if !s.contains(item) {
                assert(!rest.contains(item));
                assert(without(s, item) =~= s) by {
                    assert(w == rest);
                    assert(seq![s.first()] + rest =~= s);
                }
            }
            if s.no_duplicates() && s.contains(item) {
                assert(rest.contains(item));
            }
        }
    }
}

/// Pushing entries that are all distinct and all new, without reaching the
/// capacity, appends them in order.
pub proof fn lemma_push_all_fresh(s: Seq<WindowHandle>, items: Seq<WindowHandle>, cap: nat)
    requires
        s.no_duplicates(),
        items.no_duplicates(),
        forall|i: int| 0 <= i < items.len() ==> !s.contains(#[trigger] items[i]),
        s.len() + items.len() <= cap,
    ensures
        push_all(s, items, cap) == s + items,
    decreases items.len(),
{
    if items.len() == 0 {
        assert(push_all(s, items, cap) =~= s + items);
    } else {
        let f = items.first();
        lemma_without_props(s, f);
        assert(!s.contains(f)) by {
            assert(items[0] == f);
        }
        assert(pushed(s, f, cap) == s.push(f));
        let s2 = s.push(f);
        let rest = items.drop_first();
        assert(s2.no_duplicates()) by {
            assert(forall|j: int| 0 <= j < s.len() ==> s2[j] == s[j]);
            assert(s2[s.len() as int] == f);
            assert(forall|j: int| 0 <= j < s.len() ==> s.contains(#[trigger] s[j]));
        }
        assert(rest.no_duplicates()) by {
            assert(forall|i: int, j: int|
                0 <= i < j < rest.len() ==> rest[i] == items[i + 1] && rest[j] == items[j + 1]);
        }
        assert(forall|i: int| 0 <= i < rest.len() ==> !s2.contains(#[trigger] rest[i])) by {
            assert forall|i: int| 0 <= i < rest.len() implies !s2.contains(#[trigger] rest[i]) by {
                assert(rest[i] == items[i + 1]);
                assert(!s.contains(items[i + 1]));
                assert(items[i + 1] != f) by {
                    assert(items[0] == f);
                }
                if s2.contains(rest[i]) {
                    let j = choose|j: int| 0 <= j < s2.len() && s2[j] == rest[i];
                    if j < s.len() {
                        assert(s.contains(rest[i]));
                    }
                }
            }
        }
        lemma_push_all_fresh(s2, rest, cap);
        assert(s2 + rest =~= s + items);
    }
}

/// Pushing a final entry after a run of pushes is one more push on the result.
pub proof fn lemma_push_all_snoc(
    s: Seq<WindowHandle>,
    items: Seq<WindowHandle>,
    x: WindowHandle,
    cap: nat,
)
    ensures
        push_all(s, items.push(x), cap) == pushed(push_all(s, items, cap), x, cap),
    decreases items.len(),
{
    let whole = items.push(x);
    if items.len() == 0 {
        assert(whole.first() == x);
        assert(whole.drop_first() =~= Seq::<WindowHandle>::empty());
        assert(push_all(s, whole, cap) == push_all(
            pushed(s, x, cap),
            Seq::<WindowHandle>::empty(),
            cap,
        ));
        assert(push_all(pushed(s, x, cap), Seq::<WindowHandle>::empty(), cap) == pushed(
            s,
            x,
            cap,
        ));
    } else {
        assert(whole.first() == items.first());
        assert(whole.drop_first() =~= items.drop_first().push(x));
        lemma_push_all_snoc(pushed(s, items.first(), cap), items.drop_first(), x, cap);
    }
}

/// Law: pushing `N + 1` distinct handles into an empty stack of capacity `N`
/// evicts exactly the least recently used one — the first — and keeps the
/// other `N` in order. (The size bound itself is part of `wf`, which every
/// `push` preserves.)
pub proof fn lemma_capacity_eviction(items: Seq<WindowHandle>, cap: nat)
    requires
        items.no_duplicates(),
        1 <= cap,
        items.len() == cap + 1,
    ensures
        push_all(Seq::empty(), items, cap) == items.drop_first(),
{
    let front = items.drop_last();
    let x = items.last();
    assert(items =~= front.push(x));
    assert(front.no_duplicates()) by {
        assert(forall|i: int, j: int|
            0 <= i < j < front.len() ==> front[i] == items[i] && front[j] == items[j]);
    }
    assert(forall|i: int|
        0 <= i < front.len() ==> !Seq::<WindowHandle>::empty().contains(#[trigger] front[i]));
    lemma_push_all_fresh(Seq::empty(), front, cap);
    assert(push_all(Seq::empty(), front, cap) =~= front);
    lemma_push_all_snoc(Seq::empty(), front, x, cap);
    assert(push_all(Seq::empty(), items, cap) == pushed(front, x, cap)) by {
        assert(items == front.push(x));
    }
    assert(!front.contains(x)) by {
        if front.contains(x) {
            let i = choose|i: int| 0 <= i < front.len() && front[i] == x;
            assert(items[i] == x && items[items.len() - 1] == x);
        }
    }
    lemma_without_props(front, x);
    assert(pushed(front, x, cap) == front.push(x).drop_first());
    assert(front.push(x).drop_first() =~= items.drop_first());
}

/// Law: whatever was pushed last is the single most recent entry — eviction
/// never removes it.
pub proof fn lemma_push_most_recent(s: Seq<WindowHandle>, item: WindowHandle, cap: nat)
    requires
        1 <= cap,
    ensures
        pushed(s, item, cap).len() >= 1,
        pushed(s, item, cap).last() == item,
{
    let kept = without(s, item).push(item);
    assert(kept.last() == item);
    if kept.len() > cap {
        assert(kept.drop_first().last() == item) by {
            assert(kept.drop_first()[kept.len() - 2] == kept[kept.len() - 1]);
        }
    }
}

/// Law: with capacity at least 2 and two distinct handles, the pushes
/// `a`, `b`, `a` leave exactly one entry for each handle, with `a` the most
/// recent — so `peek` yields `a`.
pub proof fn lemma_repush_keeps_both(a: WindowHandle, b: WindowHandle, cap: nat)
    requires
        a != b,
        2 <= cap,
    ensures
        push_all(Seq::empty(), seq![a, b, a], cap) == seq![b, a],
{
    let e = Seq::<WindowHandle>::empty();
    assert(without(e, a) =~= e);
    assert(pushed(e, a, cap) =~= seq![a]);
    assert(without(seq![a], b) =~= seq![a]) by {
        assert(seq![a].first() == a);
        assert(seq![a].drop_first() =~= e);
        assert(without(seq![a], b) == seq![a] + without(e, b));
        assert(without(e, b) =~= e);
        assert(seq![a] + e =~= seq![a]);
    }
    assert(pushed(seq![a], b, cap) =~= seq![a, b]) by {
        assert(seq![a].push(b) =~= seq![a, b]);
    }
    assert(without(seq![a, b], a) =~= seq![b]) by {
        assert(seq![a, b].first() == a);
        assert(seq![a, b].drop_first() =~= seq![b]);
        assert(seq![b].first() == b);
        assert(seq![b].drop_first() =~= e);
        assert(without(seq![b], a) == seq![b] + without(e, a));
        assert(seq![b] + e =~= seq![b]);
    }
    assert(pushed(seq![a, b], a, cap) =~= seq![b, a]) by {
        assert(seq![b].push(a) =~= seq![b, a]);
    }
    let items = seq![a, b, a];
    assert(items.first() == a);
    assert(items.drop_first() =~= seq![b, a]);
    assert(seq![b, a].first() == b);
    assert(seq![b, a].drop_first() =~= seq![a]);
    assert(seq![a].first() == a);
    assert(seq![a].drop_first() =~= e);
    assert(push_all(e, items, cap) == push_all(pushed(e, a, cap), seq![b, a], cap));
    assert(push_all(seq![a], seq![b, a], cap) == push_all(seq![a, b], seq![a], cap));
    assert(push_all(seq![a, b], seq![a], cap) == push_all(seq![b, a], e, cap));
    assert(push_all(seq![b, a], e, cap) == seq![b, a]);
}

/// Law: a stack of capacity 1 holds exactly the most recently pushed handle,
/// whatever the history of pushes before it.
pub proof fn lemma_capacity_one(s: Seq<WindowHandle>, items: Seq<WindowHandle>)
    requires
        s.len() <= 1,
        items.len() >= 1,
    ensures
        push_all(s, items, 1) == seq![items.last()],
    decreases items.len(),
{
    let f = items.first();
    let e = Seq::<WindowHandle>::empty();
    assert(pushed(s, f, 1) =~= seq![f]) by {
        if s.len() == 0 {
            assert(without(s, f) =~= e);
        } else {
            assert(s =~= seq![s[0]]);
            assert(s.drop_first() =~= e);
            if s[0] == f {
                assert(s.first() == f);
                assert(without(s, f) == without(e, f));
                assert(without(e, f) =~= e);
            } else {
                assert(without(s, f) == seq![s[0]] + without(e, f));
                assert(without(e, f) =~= e);
                assert(without(s, f) =~= seq![s[0]]);
                assert(seq![s[0]].push(f) =~= seq![s[0], f]);
                assert(seq![s[0], f].drop_first() =~= seq![f]);
            }
        }
    }
    if items.len() == 1 {
        assert(items.drop_first() =~= e);
        assert(push_all(s, items, 1) == push_all(pushed(s, f, 1), e, 1));
        assert(push_all(pushed(s, f, 1), e, 1) == pushed(s, f, 1));
        assert(items.last() == f);
    } else {
        lemma_capacity_one(seq![f], items.drop_first());
        assert(items.drop_first().last() == items.last());
    }
}

/// Bounded, deduplicating, most-recently-used history: each handle appears at
/// most once, the last entry is the most recent, and the size never exceeds
/// the capacity fixed at construction.
pub struct DedupRingStack {
    data: Vec<WindowHandle>,
    size: usize,
}

impl View for DedupRingStack {
    type V = Seq<WindowHandle>;

    closed spec fn view(&self) -> Seq<WindowHandle> {
        self.data@
    }
}

impl DedupRingStack {
    /// The capacity fixed at construction.
    pub closed spec fn capacity(&self) -> usize {
        self.size
    }

    pub open spec fn wf(&self) -> bool {
        &&& self@.no_duplicates()
        &&& self@.len() <= self.capacity()
        &&& self.capacity() >= 1
    }

    pub fn new(size: usize) -> (s: DedupRingStack)
        requires
            1 <= size,
        ensures
            s.wf(),
            s@ == Seq::<WindowHandle>::empty(),
            s.capacity() == size,
    {
        DedupRingStack { data: Vec::new(), size }
    }

    /// Record `item` as the most recent entry, deduplicating and evicting the
    /// least recent entry if the capacity would be exceeded.
    pub fn push(&mut self, item: WindowHandle)
        requires
            old(self).wf(),
        ensures
            final(self).wf(),
            final(self)@ == pushed(old(self)@, item, old(self).capacity() as nat),
            final(self).capacity() == old(self).capacity(),
    {
        let ghost orig = self.data@;
        proof {
            assert(orig == old(self)@);
            assert(orig.no_duplicates());
            assert(orig.skip(0) =~= orig);
            assert(Seq::<WindowHandle>::empty() + without(orig, item) =~= without(orig, item));
        }
        let mut kept: Vec<WindowHandle> = Vec::new();
        let mut i: usize = 0;
        while i < self.data.len()
            invariant
                self.data@ == orig,
                self.size == old(self).size,
                i <= orig.len(),
                orig.no_duplicates(),
                without(orig, item) == kept@ + without(orig.skip(i as int), item),
                kept@.no_duplicates(),
                !kept@.contains(item),
                kept@.len() <= i,
            decreases orig.len() - i,
        {
            let cur = self.data[i];
            proof {
                let tail = orig.skip(i as int);
                assert(tail.len() > 0);
                assert(tail.first() == orig[i as int]);
                assert(tail.drop_first() =~= orig.skip(i as int + 1));
                lemma_without_props(orig, item);
                lemma_without_props(tail.drop_first(), item);
                if cur == item {
                    assert(without(tail, item) == without(tail.drop_first(), item));
                } else {
                    assert(without(tail, item) == seq![cur] + without(tail.drop_first(), item));
                    assert(kept@ + without(tail, item) =~= (kept@ + seq![cur]) + without(
                        tail.drop_first(),
                        item,
                    ));
                    assert(kept@.push(cur) =~= kept@ + seq![cur]);
                    assert(without(orig, item).no_duplicates()) by {
                        lemma_without_props(orig, item);
                        assert(orig.no_duplicates());
                    }
                }
            }
            if cur != item {
                proof {
                    // `kept ++ [cur]` stays duplicate free: `kept` is a strict
                    // prefix of `without(orig, item)`, whose entries are distinct.
                    let w = without(orig, item);
                    assert(w == kept@ + without(orig.skip(i as int), item));
                    assert(without(orig.skip(i as int), item).first() == cur);
                    assert(w[kept@.len() as int] == cur);
                    assert(forall|j: int| 0 <= j < kept@.len() ==> kept@[j] == w[j]);
                    assert(!kept@.contains(cur)) by {
                        if kept@.contains(cur) {
                            let j = choose|j: int| 0 <= j < kept@.len() && kept@[j] == cur;
                            assert(w[j] == cur && w[kept@.len() as int] == cur);
                            assert(w.no_duplicates()) by {
                                lemma_without_props(orig, item);
                            }
                        }
                    }
                    assert(kept@.push(cur).no_duplicates()) by {
                        let p = kept@.push(cur);
                        assert(forall|j: int| 0 <= j < kept@.len() ==> p[j] == kept@[j]);
                        assert(p[kept@.len() as int] == cur);
                    }
                    assert(!kept@.push(cur).contains(item)) by {
                        let p = kept@.push(cur);
                        if p.contains(item) {
                            let j = choose|j: int| 0 <= j < p.len() && p[j] == item;
                            if j < kept@.len() {
                                assert(kept@[j] == item);
                            } else {
                                assert(cur == item);
                            }
                        }
                    }
                }
                kept.push(cur);
            }
            i = i + 1;
        }
        proof {
            assert(orig.skip(orig.len() as int) =~= Seq::<WindowHandle>::empty());
            assert(without(Seq::<WindowHandle>::empty(), item) =~= Seq::<WindowHandle>::empty());
            assert(without(orig, item) =~= kept@) by {
                assert(kept@ + Seq::<WindowHandle>::empty() =~= kept@);
            }
            lemma_without_props(orig, item);
        }
        kept.push(item);
        proof {
            let p = without(orig, item).push(item);
            assert(kept@ == p);
            assert(p.no_duplicates()) by {
                assert(forall|j: int| 0 <= j < p.len() - 1 ==> p[j] == without(orig, item)[j]);
                assert(p[p.len() - 1] == item);
                assert(!without(orig, item).contains(item)) by {
                    lemma_without_props(orig, item);
                }
                assert(forall|j: int|
                    0 <= j < p.len() - 1 ==> without(orig, item).contains(
                        without(orig, item)[j],
                    ));
            }
        }
        if kept.len() > self.size {
            kept.remove(0);
            proof {
                let p = without(orig, item).push(item);
                assert(kept@ =~= p.drop_first());
                assert(p.drop_first().no_duplicates()) by {
                    assert(forall|j: int, k: int|
                        0 <= j < k < p.drop_first().len() ==> p.drop_first()[j] == p[j + 1]
                            && p.drop_first()[k] == p[k + 1]);
                }
            }
        }
        self.data = kept;
        proof {
            assert(self@ == pushed(orig, item, old(self).capacity() as nat));
        }
    }

    /// The most recent surviving entry, without mutation; `None` when empty.
    pub fn peek(&self) -> (r: Option<WindowHandle>)
        ensures
            r == (if self@.len() == 0 {
                None::<WindowHandle>
            } else {
                Some(self@.last())
            }),
    {
        if self.data.len() == 0 {
            None
        } else {
            Some(self.data[self.data.len() - 1])
        }
    }
}

} // verus!
