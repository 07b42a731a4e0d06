//! The widget retention cache and the model of the native widget graph.
//!
//! A `Renderer` owns: the cache mapping a `WidgetKey` to the handle of the
//! constructed native widget (at most one live handle per key), the registry
//! of widget classes that have a factory, the attachment relation of the
//! native graph (child handle to container handle), the set of visible
//! handles, and the log of native operations performed. The reconciler
//! decides; the embedding runtime drains the log and performs each operation
//! on the real toolkit.

use vstd::prelude::*;

use crate::component::{InfoV, WidgetInfo};
use crate::ewidget::{EWidget, KeyV, WidgetKey};

verus! {

/// One operation on the native widget graph, in the order it must be
/// performed by the embedding runtime.
#[derive(Debug)]
pub enum Op {
    /// Construct a native widget of `key`'s class from the descriptor and
    /// associate it with `handle`, wiring the descriptor's callbacks.
    Create { handle: u64, key: WidgetKey, info: WidgetInfo },
    /// Add the widget `child` to the native container `container`.
    Attach { child: u64, container: u64 },
    /// Remove the widget `child` from the native container `container`.
    Detach { child: u64, container: u64 },
    /// Make the widget visible.
    Show { handle: u64 },
    /// Apply the descriptor's attributes to the existing widget in place.
    Update { handle: u64, info: WidgetInfo },
    /// Destroy the native widget; its key no longer names a live handle.
    Evict { handle: u64, key: WidgetKey },
}

/// Mathematical value of an `Op`.
#[verifier::ext_equal]
pub enum OpV {
    Create { handle: u64, key: KeyV, info: InfoV },
    Attach { child: u64, container: u64 },
    Detach { child: u64, container: u64 },
    Show { handle: u64 },
    Update { handle: u64, info: InfoV },
    Evict { handle: u64, key: KeyV },
}

impl View for Op {
    type V = OpV;

    open spec fn view(&self) -> OpV {
        match self {
            Op::Create { handle, key, info } => OpV::Create { handle: *handle, key: key@, info: info@ },
            Op::Attach { child, container } => OpV::Attach { child: *child, container: *container },
            Op::Detach { child, container } => OpV::Detach { child: *child, container: *container },
            Op::Show { handle } => OpV::Show { handle: *handle },
            Op::Update { handle, info } => OpV::Update { handle: *handle, info: info@ },
            Op::Evict { handle, key } => OpV::Evict { handle: *handle, key: key@ },
        }
    }
}

/// Mathematical value of a `Renderer`.
#[verifier::ext_equal]
pub struct RState {
    /// Key to live native handle.
    pub cache: Map<KeyV, u64>,
    /// Widget classes for which a factory is registered.
    pub registered: Set<EWidget>,
    /// Child handle to the container handle it is attached to.
    pub parent: Map<u64, u64>,
    /// Handles currently visible.
    pub visible: Set<u64>,
    /// Next fresh handle.
    pub next: u64,
    /// Native operations performed so far, oldest first.
    pub ops: Seq<OpV>,
}

impl RState {
    /// Every live handle is below the allocation bound, and distinct keys
    /// hold distinct handles: at most one live native widget per key.
    pub open spec fn inv(self) -> bool {
        &&& forall|k: KeyV| self.cache.contains_key(k) ==> self.cache[k] < self.next
        &&& forall|k1: KeyV, k2: KeyV|
            self.cache.contains_key(k1) && self.cache.contains_key(k2) && k1 != k2
                ==> self.cache[k1] != self.cache[k2]
    }

    /// What `get_or_make` returns and does: the cached handle if the key is
    /// live, otherwise a fresh handle recorded with a `Create` operation.
    pub open spec fn get_or_make_tr(self, k: KeyV, info: InfoV) -> (u64, RState) {
        if self.cache.contains_key(k) {
            (self.cache[k], self)
        } else {
            (
                self.next,
                RState {
                    cache: self.cache.insert(k, self.next),
                    next: (self.next + 1) as u64,
                    ops: self.ops.push(OpV::Create { handle: self.next, key: k, info }),
                    ..self
                },
            )
        }
    }

    /// What `attach` does: attach the child if it is not already in this
    /// container.
    pub open spec fn attach_tr(self, child: u64, container: u64) -> RState {
        if self.parent.contains_key(child) && self.parent[child] == container {
            self
        } else {
            RState {
                parent: self.parent.insert(child, container),
                ops: self.ops.push(OpV::Attach { child, container }),
                ..self
            }
        }
    }

    /// What `detach` does: remove the child from the container only if it is
    /// currently attached there.
    pub open spec fn detach_tr(self, child: u64, container: u64) -> RState {
        if self.parent.contains_key(child) && self.parent[child] == container {
            RState {
                parent: self.parent.remove(child),
                ops: self.ops.push(OpV::Detach { child, container }),
                ..self
            }
        } else {
            self
        }
    }

    /// What `show` does: perform the native show call.
    pub open spec fn show_tr(self, handle: u64) -> RState {
        RState { visible: self.visible.insert(handle), ops: self.ops.push(OpV::Show { handle }), ..self }
    }

    /// What `show_if_hidden` does.
    pub open spec fn show_if_hidden_tr(self, handle: u64) -> RState {
        if self.visible.contains(handle) {
            self
        } else {
            self.show_tr(handle)
        }
    }

    /// What `update` does: apply a changed descriptor to a live widget in
    /// place.
    pub open spec fn update_tr(self, handle: u64, info: InfoV) -> RState {
        RState { ops: self.ops.push(OpV::Update { handle, info }), ..self }
    }

    /// What `evict` does: destroy the handle of a live key and drop it from
    /// the cache and the graph.
    pub open spec fn evict_tr(self, k: KeyV) -> RState {
        if self.cache.contains_key(k) {
            let h = self.cache[k];
            RState {
                cache: self.cache.remove(k),
                parent: self.parent.remove(h),
                visible: self.visible.remove(h),
                ops: self.ops.push(OpV::Evict { handle: h, key: k }),
                ..self
            }
        } else {
            self
        }
    }
}

/// A scoped lease on a cache entry: while held, the entry is out of the
/// cache, so no other caller can obtain the same logical widget. `checkin`
/// restores the entry. A lease cannot be copied.
pub struct Lease {
    key: WidgetKey,
}

impl Lease {
    /// The key this lease holds out of the cache.
    pub closed spec fn key_view(self) -> KeyV {
        self.key@
    }
}

spec fn cmap(s: Seq<(WidgetKey, u64)>) -> Map<KeyV, u64>
    decreases s,
{
    if s.len() == 0 {
        Map::empty()
    } else {
        cmap(s.drop_last()).insert(s.last().0@, s.last().1)
    }
}

spec fn pmap(s: Seq<(u64, u64)>) -> Map<u64, u64>
    decreases s,
{
    if s.len() == 0 {
        Map::empty()
    } else {
        pmap(s.drop_last()).insert(s.last().0, s.last().1)
    }
}

spec fn hset(s: Seq<u64>) -> Set<u64>
    decreases s,
{
    if s.len() == 0 {
        Set::empty()
    } else {
        hset(s.drop_last()).insert(s.last())
    }
}

spec fn tset(s: Seq<EWidget>) -> Set<EWidget>
    decreases s,
{
    if s.len() == 0 {
        Set::empty()
    } else {
        tset(s.drop_last()).insert(s.last())
    }
}

pub open spec fn op_views(s: Seq<Op>) -> Seq<OpV>
    decreases s,
{
    if s.len() == 0 {
        Seq::empty()
    } else {
        op_views(s.drop_last()).push(s.last()@)
    }
}

proof fn lemma_cmap_contains(s: Seq<(WidgetKey, u64)>)
    ensures
        forall|k: KeyV| cmap(s).contains_key(k) <==> exists|i: int| 0 <= i < s.len() && s[i].0@ == k,
    decreases s,
{
    if s.len() > 0 {
        lemma_cmap_contains(s.drop_last());
        assert forall|k: KeyV| cmap(s).contains_key(k) implies exists|i: int|
            0 <= i < s.len() && s[i].0@ == k by {
            if s.last().0@ == k {
                assert(s[s.len() - 1].0@ == k);
            } else {
                assert(cmap(s.drop_last()).contains_key(k));
                let i = choose|i: int| 0 <= i < s.drop_last().len() && s.drop_last()[i].0@ == k;
                assert(s[i].0@ == k);
            }
        }
        assert forall|k: KeyV| (exists|i: int| 0 <= i < s.len() && s[i].0@ == k) implies cmap(
            s,
        ).contains_key(k) by {
            let i = choose|i: int| 0 <= i < s.len() && s[i].0@ == k;
            if i < s.len() - 1 {
                assert(s.drop_last()[i].0@ == k);
                assert(cmap(s.drop_last()).contains_key(k));
            }
        }
    }
}

proof fn lemma_cmap_index(s: Seq<(WidgetKey, u64)>)
    requires
        forall|i: int, j: int| 0 <= i < j < s.len() ==> s[i].0@ != s[j].0@,
    ensures
        forall|i: int|
            0 <= i < s.len() ==> cmap(s).contains_key(#[trigger] s[i].0@) && cmap(s)[s[i].0@] == s[i].1,
    decreases s,
{
    if s.len() > 0 {
        lemma_cmap_index(s.drop_last());
        assert forall|i: int| 0 <= i < s.len() implies cmap(s).contains_key(#[trigger] s[i].0@)
            && cmap(s)[s[i].0@] == s[i].1 by {
            if i < s.len() - 1 {
                assert(s.drop_last()[i] == s[i]);
                assert(s[i].0@ != s.last().0@);
            }
        }
    }
}

proof fn lemma_cmap_remove(s: Seq<(WidgetKey, u64)>, i: int)
    requires
        forall|i1: int, j1: int| 0 <= i1 < j1 < s.len() ==> s[i1].0@ != s[j1].0@,
        0 <= i < s.len(),
    ensures
        cmap(s.remove(i)) =~= cmap(s).remove(s[i].0@),
    decreases s,
{
    lemma_cmap_contains(s.drop_last());
    if i == s.len() - 1 {
        assert(s.remove(i) =~= s.drop_last());
        assert(!cmap(s.drop_last()).contains_key(s[i].0@));
    } else {
        lemma_cmap_remove(s.drop_last(), i);
        assert(s.remove(i).drop_last() =~= s.drop_last().remove(i));
        assert(s.remove(i).last() == s.last());
        assert(cmap(s.remove(i)) =~= cmap(s.drop_last().remove(i)).insert(s.last().0@, s.last().1));
    }
}

proof fn lemma_pmap_contains(s: Seq<(u64, u64)>)
    ensures
        forall|k: u64| pmap(s).contains_key(k) <==> exists|i: int| 0 <= i < s.len() && s[i].0 == k,
    decreases s,
{
    if s.len() > 0 {
        lemma_pmap_contains(s.drop_last());
        assert forall|k: u64| pmap(s).contains_key(k) implies exists|i: int|
            0 <= i < s.len() && s[i].0 == k by {
            if s.last().0 == k {
                assert(s[s.len() - 1].0 == k);
            } else {
                assert(pmap(s.drop_last()).contains_key(k));
                let i = choose|i: int| 0 <= i < s.drop_last().len() && s.drop_last()[i].0 == k;
                assert(s[i].0 == k);
            }
        }
        assert forall|k: u64| (exists|i: int| 0 <= i < s.len() && s[i].0 == k) implies pmap(
            s,
        ).contains_key(k) by {
            let i = choose|i: int| 0 <= i < s.len() && s[i].0 == k;
            if i < s.len() - 1 {
                assert(s.drop_last()[i].0 == k);
                assert(pmap(s.drop_last()).contains_key(k));
            }
        }
    }
}

proof fn lemma_pmap_index(s: Seq<(u64, u64)>)
    requires
        forall|i: int, j: int| 0 <= i < j < s.len() ==> s[i].0 != s[j].0,
    ensures
        forall|i: int|
            0 <= i < s.len() ==> pmap(s).contains_key(#[trigger] s[i].0) && pmap(s)[s[i].0] == s[i].1,
    decreases s,
{
    if s.len() > 0 {
        lemma_pmap_index(s.drop_last());
        assert forall|i: int| 0 <= i < s.len() implies pmap(s).contains_key(#[trigger] s[i].0)
            && pmap(s)[s[i].0] == s[i].1 by {
            if i < s.len() - 1 {
                assert(s.drop_last()[i] == s[i]);
                assert(s[i].0 != s.last().0);
            }
        }
    }
}

proof fn lemma_pmap_remove(s: Seq<(u64, u64)>, i: int)
    requires
        forall|i1: int, j1: int| 0 <= i1 < j1 < s.len() ==> s[i1].0 != s[j1].0,
        0 <= i < s.len(),
    ensures
        pmap(s.remove(i)) =~= pmap(s).remove(s[i].0),
    decreases s,
{
    lemma_pmap_contains(s.drop_last());
    if i == s.len() - 1 {
        assert(s.remove(i) =~= s.drop_last());
        assert(!pmap(s.drop_last()).contains_key(s[i].0));
    } else {
        lemma_pmap_remove(s.drop_last(), i);
        assert(s.remove(i).drop_last() =~= s.drop_last().remove(i));
        assert(s.remove(i).last() == s.last());
        assert(pmap(s.remove(i)) =~= pmap(s.drop_last().remove(i)).insert(s.last().0, s.last().1));
    }
}

proof fn lemma_hset_contains(s: Seq<u64>)
    ensures
        forall|k: u64| hset(s).contains(k) <==> exists|i: int| 0 <= i < s.len() && s[i] == k,
    decreases s,
{
    if s.len() > 0 {
        lemma_hset_contains(s.drop_last());
        assert forall|k: u64| hset(s).contains(k) implies exists|i: int|
            0 <= i < s.len() && s[i] == k by {
            if s.last() == k {
                assert(s[s.len() - 1] == k);
            } else {
                assert(hset(s.drop_last()).contains(k));
                let i = choose|i: int| 0 <= i < s.drop_last().len() && s.drop_last()[i] == k;
                assert(s[i] == k);
            }
        }
        assert forall|k: u64| (exists|i: int| 0 <= i < s.len() && s[i] == k) implies hset(
            s,
        ).contains(k) by {
            let i = choose|i: int| 0 <= i < s.len() && s[i] == k;
            if i < s.len() - 1 {
                assert(s.drop_last()[i] == k);
                assert(hset(s.drop_last()).contains(k));
            }
        }
    }
}

proof fn lemma_hset_remove(s: Seq<u64>, i: int)
    requires
        forall|i1: int, j1: int| 0 <= i1 < j1 < s.len() ==> s[i1] != s[j1],
        0 <= i < s.len(),
    ensures
        hset(s.remove(i)) =~= hset(s).remove(s[i]),
    decreases s,
{
    lemma_hset_contains(s.drop_last());
    if i == s.len() - 1 {
        assert(s.remove(i) =~= s.drop_last());
        assert(!hset(s.drop_last()).contains(s[i]));
    } else {
        lemma_hset_remove(s.drop_last(), i);
        assert(s.remove(i).drop_last() =~= s.drop_last().remove(i));
        assert(s.remove(i).last() == s.last());
        assert(hset(s.remove(i)) =~= hset(s.drop_last().remove(i)).insert(s.last()));
    }
}

proof fn lemma_tset_contains(s: Seq<EWidget>)
    ensures
        forall|k: EWidget| tset(s).contains(k) <==> exists|i: int| 0 <= i < s.len() && s[i] == k,
    decreases s,
{
    if s.len() > 0 {
        lemma_tset_contains(s.drop_last());
        assert forall|k: EWidget| tset(s).contains(k) implies exists|i: int|
            0 <= i < s.len() && s[i] == k by {
            if s.last() == k {
                assert(s[s.len() - 1] == k);
            } else {
                assert(tset(s.drop_last()).contains(k));
                let i = choose|i: int| 0 <= i < s.drop_last().len() && s.drop_last()[i] == k;
                assert(s[i] == k);
            }
        }
        assert forall|k: EWidget| (exists|i: int| 0 <= i < s.len() && s[i] == k) implies tset(
            s,
        ).contains(k) by {
            let i = choose|i: int| 0 <= i < s.len() && s[i] == k;
            if i < s.len() - 1 {
                assert(s.drop_last()[i] == k);
                assert(tset(s.drop_last()).contains(k));
            }
        }
    }
}

/// The retention cache together with the model of the native graph and the
/// log of operations to perform on it.
pub struct Renderer {
    cache: Vec<(WidgetKey, u64)>,
    registered: Vec<EWidget>,
    parent: Vec<(u64, u64)>,
    visible: Vec<u64>,
    next_handle: u64,
    ops: Vec<Op>,
}

impl View for Renderer {
    type V = RState;

    closed spec fn view(&self) -> RState {
        RState {
            cache: cmap(self.cache@),
            registered: tset(self.registered@),
            parent: pmap(self.parent@),
            visible: hset(self.visible@),
            next: self.next_handle,
            ops: op_views(self.ops@),
        }
    }
}

impl Renderer {
    /// Representation invariant: association lists have distinct keys and
    /// all live handles are below the allocation bound.
    pub closed spec fn wf(self) -> bool {
        &&& forall|i: int, j: int| 0 <= i < j < self.cache@.len() ==> self.cache@[i].0@ != self.cache@[j].0@
        &&& forall|i: int| 0 <= i < self.cache@.len() ==> (#[trigger] self.cache@[i]).1 < self.next_handle
        &&& forall|i: int, j: int| 0 <= i < j < self.cache@.len() ==> self.cache@[i].1 != self.cache@[j].1
        &&& forall|i: int, j: int| 0 <= i < j < self.parent@.len() ==> self.parent@[i].0 != self.parent@[j].0
        &&& forall|i: int, j: int| 0 <= i < j < self.visible@.len() ==> self.visible@[i] != self.visible@[j]
    }

    pub proof fn lemma_wf_inv(self)
        requires
            self.wf(),
        ensures
            self@.inv(),
    {
        lemma_cmap_contains(self.cache@);
        lemma_cmap_index(self.cache@);
        assert forall|k: KeyV| self@.cache.contains_key(k) implies self@.cache[k] < self@.next by {
            let i = choose|i: int| 0 <= i < self.cache@.len() && self.cache@[i].0@ == k;
        }
        assert forall|k1: KeyV, k2: KeyV|
            self@.cache.contains_key(k1) && self@.cache.contains_key(k2) && k1 != k2 implies self@.cache[k1]
            != self@.cache[k2] by {
            let i = choose|i: int| 0 <= i < self.cache@.len() && self.cache@[i].0@ == k1;
            let j = choose|j: int| 0 <= j < self.cache@.len() && self.cache@[j].0@ == k2;
            assert(i != j);
        }
    }

    /// An empty renderer: no registered classes, no live widgets.
    pub fn new() -> (r: Renderer)
        ensures
            r.wf(),
            r@ == (RState {
                cache: Map::empty(),
                registered: Set::empty(),
                parent: Map::empty(),
                visible: Set::empty(),
                next: 0u64,
                ops: Seq::empty(),
            }),
    {
        Renderer {
            cache: Vec::new(),
            registered: Vec::new(),
            parent: Vec::new(),
            visible: Vec::new(),
            next_handle: 0,
            ops: Vec::new(),
        }
    }

    /// Register a widget class: its factory is available to `get_or_make`.
    #[verifier::loop_isolation(false)]
    pub fn register(&mut self, tag: EWidget)
        requires
            old(self).wf(),
        ensures
            final(self).wf(),
            final(self)@ == (RState { registered: old(self)@.registered.insert(tag), ..old(self)@ }),
    {
        let mut i: usize = 0;
        while i < self.registered.len()
            invariant
                0 <= i <= self.registered.len(),
                forall|j: int| 0 <= j < i ==> self.registered@[j] != tag,
                *self == *old(self),
            decreases self.registered.len() - i,
        {
            if self.registered[i] == tag {
                proof {
                    lemma_tset_contains(self.registered@);
                    assert(self@.registered.insert(tag) =~= self@.registered);
                }
                return ;
            }
            i += 1;
        }
        self.registered.push(tag);
        proof {
            assert(self.registered@.drop_last() =~= old(self).registered@);
            assert(final(self)@ =~= (RState {
                registered: old(self)@.registered.insert(tag),
                ..old(self)@
            }));
        }
    }

    /// Whether a factory is registered for this class.
    #[verifier::loop_isolation(false)]
    pub fn is_registered(&self, tag: EWidget) -> (r: bool)
        ensures
            r == self@.registered.contains(tag),
    {
        proof {
            lemma_tset_contains(self.registered@);
        }
        let mut i: usize = 0;
        while i < self.registered.len()
            invariant
                0 <= i <= self.registered.len(),
                forall|j: int| 0 <= j < i ==> self.registered@[j] != tag,
            decreases self.registered.len() - i,
        {
            if self.registered[i] == tag {
                return true;
            }
            i += 1;
        }
        false
    }

    /// The live handle for a key, if the key is in the cache.
    #[verifier::loop_isolation(false)]
    pub fn lookup(&self, key: &WidgetKey) -> (r: Option<u64>)
        requires
            self.wf(),
        ensures
            match r {
                Some(h) => self@.cache.contains_key(key@) && self@.cache[key@] == h,
                None => !self@.cache.contains_key(key@),
            },
    {
        proof {
            lemma_cmap_contains(self.cache@);
            lemma_cmap_index(self.cache@);
        }
        let mut i: usize = 0;
        while i < self.cache.len()
            invariant
                0 <= i <= self.cache.len(),
                forall|j: int| 0 <= j < i ==> self.cache@[j].0@ != key@,
                self.wf(),
                cmap(self.cache@) == self@.cache,
                forall|i1: int|
                    0 <= i1 < self.cache@.len() ==> cmap(self.cache@).contains_key(
                        #[trigger] self.cache@[i1].0@,
                    ) && cmap(self.cache@)[self.cache@[i1].0@] == self.cache@[i1].1,
                forall|k: KeyV|
                    cmap(self.cache@).contains_key(k) <==> exists|i1: int|
                        0 <= i1 < self.cache@.len() && self.cache@[i1].0@ == k,
            decreases self.cache.len() - i,
        {
            if self.cache[i].0.key_eq(key) {
                return Some(self.cache[i].1);
            }
            i += 1;
        }
        None
    }

    /// Adopt an externally constructed native widget for `key`: the main
    /// window is built by the embedding runtime, not by a factory, and is
    /// seeded into the cache before the first rebuild.
    pub fn set(&mut self, key: WidgetKey) -> (h: u64)
        requires
            old(self).wf(),
            !old(self)@.cache.contains_key(key@),
            old(self)@.next < u64::MAX,
        ensures
            final(self).wf(),
            h == old(self)@.next,
            final(self)@ == (RState {
                cache: old(self)@.cache.insert(key@, old(self)@.next),
                next: (old(self)@.next + 1) as u64,
                ..old(self)@
            }),
    {
        proof {
            lemma_cmap_contains(self.cache@);
        }
        let h = self.next_handle;
        self.cache.push((key, h));
        self.next_handle = h + 1;
        proof {
            assert(self.cache@.drop_last() =~= old(self).cache@);
            assert(final(self)@ =~= (RState {
                cache: old(self)@.cache.insert(key@, old(self)@.next),
                next: (old(self)@.next + 1) as u64,
                ..old(self)@
            }));
        }
        h
    }

    /// Relies on nothing external: returns the cached handle if the key is
    /// live; otherwise allocates a fresh handle and logs the `Create`
    /// operation that carries the descriptor to the class's factory.
    /// Requesting a class with no registered factory is a configuration
    /// error, excluded by precondition.
    pub fn get_or_make(&mut self, key: &WidgetKey, info: &WidgetInfo) -> (h: u64)
        requires
            old(self).wf(),
            old(self)@.registered.contains(key.tag),
            old(self)@.next < u64::MAX,
        ensures
            final(self).wf(),
            h == old(self)@.get_or_make_tr(key@, info@).0,
            final(self)@ == old(self)@.get_or_make_tr(key@, info@).1,
    {
        match self.lookup(key) {
            Some(h) => h,
            None => {
                proof {
                    lemma_cmap_contains(self.cache@);
                }
                let h = self.next_handle;
                self.ops.push(Op::Create { handle: h, key: key.clone(), info: info.clone() });
                self.cache.push((key.clone(), h));
                self.next_handle = h + 1;
                proof {
                    assert(self.cache@.drop_last() =~= old(self).cache@);
                    assert(self.ops@.drop_last() =~= old(self).ops@);
                    assert(final(self)@ =~= old(self)@.get_or_make_tr(key@, info@).1);
                }
                h
            },
        }
    }

    /// Remove the cache entry for `key`, if any.
    fn cache_remove_entry(&mut self, key: &WidgetKey)
        requires
            old(self).wf(),
        ensures
            final(self).wf(),
            final(self)@ == (RState { cache: old(self)@.cache.remove(key@), ..old(self)@ }),
    {
        proof {
            lemma_cmap_contains(self.cache@);
        }
        let ghost orig = self.cache@;
        let mut i: usize = 0;
        #[verifier::loop_isolation(false)]
        while i < self.cache.len()
            invariant
                0 <= i <= self.cache.len(),
                forall|j: int| 0 <= j < i ==> self.cache@[j].0@ != key@,
                *self == *old(self),
            decreases self.cache.len() - i,
        {
            if self.cache[i].0.key_eq(key) {
                self.cache.remove(i);
                proof {
                    lemma_cmap_remove(orig, i as int);
                    assert(final(self)@ =~= (RState {
                        cache: old(self)@.cache.remove(key@),
                        ..old(self)@
                    }));
                }
                return ;
            }
            i += 1;
        }
        proof {
            assert(!old(self)@.cache.contains_key(key@));
            assert(old(self)@.cache.remove(key@) =~= old(self)@.cache);
            assert(final(self)@ =~= (RState { cache: old(self)@.cache.remove(key@), ..old(self)@ }));
        }
    }

    /// Remove the attachment record of `child`, if any.
    fn parent_remove_entry(&mut self, child: u64)
        requires
            old(self).wf(),
        ensures
            final(self).wf(),
            final(self)@ == (RState { parent: old(self)@.parent.remove(child), ..old(self)@ }),
    {
        proof {
            lemma_pmap_contains(self.parent@);
        }
        let ghost orig = self.parent@;
        let mut i: usize = 0;
        #[verifier::loop_isolation(false)]
        while i < self.parent.len()
            invariant
                0 <= i <= self.parent.len(),
                forall|j: int| 0 <= j < i ==> self.parent@[j].0 != child,
                *self == *old(self),
            decreases self.parent.len() - i,
        {
            if self.parent[i].0 == child {
                self.parent.remove(i);
                proof {
                    lemma_pmap_remove(orig, i as int);
                    assert(final(self)@ =~= (RState {
                        parent: old(self)@.parent.remove(child),
                        ..old(self)@
                    }));
                }
                return ;
            }
            i += 1;
        }
        proof {
            assert(!old(self)@.parent.contains_key(child));
            assert(old(self)@.parent.remove(child) =~= old(self)@.parent);
            assert(final(self)@ =~= (RState { parent: old(self)@.parent.remove(child), ..old(self)@ }));
        }
    }

    /// Remove `handle` from the visible set, if present.
    fn visible_remove_entry(&mut self, handle: u64)
        requires
            old(self).wf(),
        ensures
            final(self).wf(),
            final(self)@ == (RState { visible: old(self)@.visible.remove(handle), ..old(self)@ }),
    {
        proof {
            lemma_hset_contains(self.visible@);
        }
        let ghost orig = self.visible@;
        let mut i: usize = 0;
        #[verifier::loop_isolation(false)]
        while i < self.visible.len()
            invariant
                0 <= i <= self.visible.len(),
                forall|j: int| 0 <= j < i ==> self.visible@[j] != handle,
                *self == *old(self),
            decreases self.visible.len() - i,
        {
            if self.visible[i] == handle {
                self.visible.remove(i);
                proof {
                    lemma_hset_remove(orig, i as int);
                    assert(final(self)@ =~= (RState {
                        visible: old(self)@.visible.remove(handle),
                        ..old(self)@
                    }));
                }
                return ;
            }
            i += 1;
        }
        proof {
            assert(!old(self)@.visible.contains(handle));
            assert(old(self)@.visible.remove(handle) =~= old(self)@.visible);
            assert(final(self)@ =~= (RState { visible: old(self)@.visible.remove(handle), ..old(self)@ }));
        }
    }

    /// Whether `child` is currently attached to `container`.
    #[verifier::loop_isolation(false)]
    pub fn is_attached_to(&self, child: u64, container: u64) -> (r: bool)
        requires
            self.wf(),
        ensures
            r == (self@.parent.contains_key(child) && self@.parent[child] == container),
    {
        proof {
            lemma_pmap_contains(self.parent@);
            lemma_pmap_index(self.parent@);
        }
        let mut i: usize = 0;
        while i < self.parent.len()
            invariant
                0 <= i <= self.parent.len(),
                forall|j: int| 0 <= j < i ==> self.parent@[j].0 != child,
            decreases self.parent.len() - i,
        {
            if self.parent[i].0 == child {
                return self.parent[i].1 == container;
            }
            i += 1;
        }
        false
    }

    /// Add `child` to `container` unless it is already there.
    pub fn attach(&mut self, child: u64, container: u64)
        requires
            old(self).wf(),
        ensures
            final(self).wf(),
            final(self)@ == old(self)@.attach_tr(child, container),
    {
        if self.is_attached_to(child, container) {
            return ;
        }
        self.ops.push(Op::Attach { child, container });
        proof {
            assert(self.ops@.drop_last() =~= old(self).ops@);
        }
        self.parent_remove_entry(child);
        let ghost pre_push = self.parent@;
        proof {
            lemma_pmap_contains(pre_push);
            assert forall|i: int| 0 <= i < pre_push.len() implies pre_push[i].0 != child by {
                if pre_push[i].0 == child {
                    assert(pmap(pre_push).contains_key(child));
                }
            }
        }
        self.parent.push((child, container));
        proof {
            assert(self.parent@.drop_last() =~= pre_push);
            assert(pmap(self.parent@) =~= old(self)@.parent.insert(child, container));
            assert(final(self)@ =~= old(self)@.attach_tr(child, container));
        }
    }

    /// Remove `child` from `container`, only if it is currently attached
    /// there.
    pub fn detach(&mut self, child: u64, container: u64)
        requires
            old(self).wf(),
        ensures
            final(self).wf(),
            final(self)@ == old(self)@.detach_tr(child, container),
    {
        if self.is_attached_to(child, container) {
            self.ops.push(Op::Detach { child, container });
            proof {
                assert(self.ops@.drop_last() =~= old(self).ops@);
            }
            self.parent_remove_entry(child);
            proof {
                assert(final(self)@ =~= old(self)@.detach_tr(child, container));
            }
        }
    }

    /// Whether the handle is visible.
    #[verifier::loop_isolation(false)]
    pub fn is_visible(&self, handle: u64) -> (r: bool)
        ensures
            r == self@.visible.contains(handle),
    {
        proof {
            lemma_hset_contains(self.visible@);
        }
        let mut i: usize = 0;
        while i < self.visible.len()
            invariant
                0 <= i <= self.visible.len(),
                forall|j: int| 0 <= j < i ==> self.visible@[j] != handle,
            decreases self.visible.len() - i,
        {
            if self.visible[i] == handle {
                return true;
            }
            i += 1;
        }
        false
    }

    /// Perform the native show call on the handle.
    pub fn show(&mut self, handle: u64)
        requires
            old(self).wf(),
        ensures
            final(self).wf(),
            final(self)@ == old(self)@.show_tr(handle),
    {
        let vis = self.is_visible(handle);
        self.ops.push(Op::Show { handle });
        proof {
            assert(self.ops@.drop_last() =~= old(self).ops@);
        }
        if !vis {
            self.visible.push(handle);
            proof {
                lemma_hset_contains(old(self).visible@);
                assert(self.visible@.drop_last() =~= old(self).visible@);
                assert(final(self)@ =~= old(self)@.show_tr(handle));
            }
        } else {
            proof {
                assert(old(self)@.visible.insert(handle) =~= old(self)@.visible);
                assert(final(self)@ =~= old(self)@.show_tr(handle));
            }
        }
    }

    /// Show the handle only if it is not already visible.
    pub fn show_if_hidden(&mut self, handle: u64)
        requires
            old(self).wf(),
        ensures
            final(self).wf(),
            final(self)@ == old(self)@.show_if_hidden_tr(handle),
    {
        if !self.is_visible(handle) {
            self.show(handle);
        }
    }

    /// Apply a changed descriptor to the live widget `handle` in place.
    pub fn update(&mut self, handle: u64, info: &WidgetInfo)
        requires
            old(self).wf(),
        ensures
            final(self).wf(),
            final(self)@ == old(self)@.update_tr(handle, info@),
    {
        self.ops.push(Op::Update { handle, info: info.clone() });
        proof {
            assert(self.ops@.drop_last() =~= old(self).ops@);
            assert(final(self)@ =~= old(self)@.update_tr(handle, info@));
        }
    }

    /// Destroy the native widget of `key`, if the key is live: the handle
    /// leaves the cache, the graph and the visible set.
    pub fn evict(&mut self, key: &WidgetKey)
        requires
            old(self).wf(),
        ensures
            final(self).wf(),
            final(self)@ == old(self)@.evict_tr(key@),
    {
        match self.lookup(key) {
            None => {},
            Some(h) => {
                self.ops.push(Op::Evict { handle: h, key: key.clone() });
                proof {
                    assert(self.ops@.drop_last() =~= old(self).ops@);
                }
                self.cache_remove_entry(key);
                self.parent_remove_entry(h);
                self.visible_remove_entry(h);
                proof {
                    assert(final(self)@ =~= old(self)@.evict_tr(key@));
                }
            },
        }
    }

    /// Take an entry out of the cache while its widget is manipulated. No
    /// other caller can obtain the key's handle until `checkin`.
    pub fn checkout(&mut self, key: &WidgetKey) -> (r: Option<(u64, Lease)>)
        requires
            old(self).wf(),
        ensures
            final(self).wf(),
            match r {
                Some(hl) => {
                    &&& old(self)@.cache.contains_key(key@)
                    &&& hl.0 == old(self)@.cache[key@]
                    &&& hl.1.key_view() == key@
                    &&& final(self)@ == (RState { cache: old(self)@.cache.remove(key@), ..old(self)@ })
                },
                None => {
                    &&& !old(self)@.cache.contains_key(key@)
                    &&& final(self)@ == old(self)@
                },
            },
    {
        proof {
            lemma_cmap_contains(self.cache@);
            lemma_cmap_index(self.cache@);
        }
        let ghost orig = self.cache@;
        let mut i: usize = 0;
        #[verifier::loop_isolation(false)]
        while i < self.cache.len()
            invariant
                0 <= i <= self.cache.len(),
                forall|j: int| 0 <= j < i ==> self.cache@[j].0@ != key@,
                *self == *old(self),
            decreases self.cache.len() - i,
        {
            if self.cache[i].0.key_eq(key) {
                let entry = self.cache.remove(i);
                proof {
                    lemma_cmap_remove(orig, i as int);
                    assert(final(self)@ =~= (RState {
                        cache: old(self)@.cache.remove(key@),
                        ..old(self)@
                    }));
                }
                return Some((entry.1, Lease { key: entry.0 }));
            }
            i += 1;
        }
        None
    }

    /// Restore a checked-out entry. The handle goes back under the lease's
    /// key; the key must still be absent, as `checkout` left it.
    pub fn checkin(&mut self, lease: Lease, h: u64)
        requires
            old(self).wf(),
            !old(self)@.cache.contains_key(lease.key_view()),
            h < old(self)@.next,
            forall|k: KeyV| old(self)@.cache.contains_key(k) ==> old(self)@.cache[k] != h,
        ensures
            final(self).wf(),
            final(self)@ == (RState {
                cache: old(self)@.cache.insert(lease.key_view(), h),
                ..old(self)@
            }),
    {
        proof {
            lemma_cmap_contains(self.cache@);
            lemma_cmap_index(self.cache@);
        }
        let Lease { key } = lease;
        self.cache.push((key, h));
        proof {
            assert(self.cache@.drop_last() =~= old(self).cache@);
            assert(final(self)@ =~= (RState {
                cache: old(self)@.cache.insert(lease.key_view(), h),
                ..old(self)@
            }));
        }
    }

    /// Hand the logged operations to the embedding runtime, oldest first,
    /// and clear the log.
    pub fn take_ops(&mut self) -> (ops: Vec<Op>)
        requires
            old(self).wf(),
        ensures
            final(self).wf(),
            op_views(ops@) == old(self)@.ops,
            final(self)@ == (RState { ops: Seq::empty(), ..old(self)@ }),
    {
        let mut out: Vec<Op> = Vec::new();
        core::mem::swap(&mut out, &mut self.ops);
        proof {
            assert(final(self)@ =~= (RState { ops: Seq::empty(), ..old(self)@ }));
        }
        out
    }
}

/// The factory registry of the application: one constructor per widget
/// class the tree builder uses.
pub fn create_widgets() -> (r: Renderer)
    ensures
        r.wf(),
        r@.cache == Map::<KeyV, u64>::empty(),
        r@.parent == Map::<u64, u64>::empty(),
        r@.visible == Set::<u64>::empty(),
        r@.ops == Seq::<OpV>::empty(),
        r@.next == 0u64,
        r@.registered == set![
            EWidget::SignInButton,
            EWidget::LoadingFrame,
            EWidget::SignedInFrame,
            EWidget::ErrorPage,
            EWidget::GetTransButton,
            EWidget::MainWindow,
            EWidget::MainBox,
            EWidget::TransColLabel,
            EWidget::TransColBin,
            EWidget::TransRow,
            EWidget::TransBox,
            EWidget::LabelFrame,
            EWidget::AccountBox,
            EWidget::SomeLabel,
        ],
{
    let mut r = Renderer::new();
    r.register(EWidget::SignInButton);
    r.register(EWidget::LoadingFrame);
    r.register(EWidget::SignedInFrame);
    r.register(EWidget::ErrorPage);
    r.register(EWidget::GetTransButton);
    r.register(EWidget::MainWindow);
    r.register(EWidget::MainBox);
    r.register(EWidget::TransColLabel);
    r.register(EWidget::TransColBin);
    r.register(EWidget::TransRow);
    r.register(EWidget::TransBox);
    r.register(EWidget::LabelFrame);
    r.register(EWidget::AccountBox);
    r.register(EWidget::SomeLabel);
    proof {
        assert(r@.registered =~= set![
            EWidget::SignInButton,
            EWidget::LoadingFrame,
            EWidget::SignedInFrame,
            EWidget::ErrorPage,
            EWidget::GetTransButton,
            EWidget::MainWindow,
            EWidget::MainBox,
            EWidget::TransColLabel,
            EWidget::TransColBin,
            EWidget::TransRow,
            EWidget::TransBox,
            EWidget::LabelFrame,
            EWidget::AccountBox,
            EWidget::SomeLabel,
        ]);
    }
    r
}

} // verus!
