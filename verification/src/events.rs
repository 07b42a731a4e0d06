//! The request/event state machine: tracks outstanding asynchronous
//! operations per event kind and drains terminal results into the business
//! state through a polled foreground tick.
//!
//! The map is the only channel between the foreground loop and background
//! workers; the embedding runtime shares it behind a mutual-exclusion lock
//! and treats a contended lock during a poll tick as "not ready yet". The
//! payload of a completed request is an opaque string the caller-supplied
//! deserializer interprets.

use vstd::prelude::*;

use crate::datamodel::{EventType, ReqStatus, RespType};

verus! {

/// Mathematical value of an `EventMap`.
#[verifier::ext_equal]
pub struct EventsV {
    /// Tracked kinds and their status.
    pub entries: Map<EventType, ReqStatus<String>>,
    /// Whether the recurring foreground timer is armed.
    pub timer_armed: bool,
}

/// A status that will not change further for the current dispatch.
pub open spec fn is_terminal(rs: ReqStatus<String>) -> bool {
    match rs {
        Ok(RespType::Done(_)) => true,
        Err(_) => true,
        _ => false,
    }
}

/// The payload or error a terminal status hands to the business state.
pub open spec fn to_outcome(rs: ReqStatus<String>) -> Result<String, String>
    recommends
        is_terminal(rs),
{
    match rs {
        Ok(RespType::Done(p)) => Ok(p),
        Err(e) => Err(e),
        _ => vstd::pervasive::arbitrary(),
    }
}

/// The terminal status a background completion writes.
pub open spec fn to_status(result: Result<String, String>) -> ReqStatus<String> {
    match result {
        Ok(p) => Ok(RespType::Done(p)),
        Err(e) => Err(e),
    }
}

/// The tracked kinds left after one tick: exactly those not yet terminal.
pub open spec fn non_terminal_of(m: Map<EventType, ReqStatus<String>>) -> Map<
    EventType,
    ReqStatus<String>,
> {
    Map::new(|k: EventType| m.contains_key(k) && !is_terminal(m[k]), |k: EventType| m[k])
}

impl EventsV {
    /// Whether any of the requested kinds is currently in flight.
    pub open spec fn any_in_progress(self, kinds: Seq<EventType>) -> bool {
        exists|i: int|
            0 <= i < kinds.len() && self.entries.contains_key(kinds[i]) && self.entries[kinds[i]]
                == Ok::<RespType<String>, String>(RespType::InProgress)
    }

    /// What an accepted dispatch does: all requested kinds become in-flight
    /// and the recurring timer is armed.
    pub open spec fn dispatch_tr(self, kinds: Seq<EventType>) -> EventsV {
        EventsV { entries: mark_in_progress(self.entries, kinds), timer_armed: true }
    }
}

pub open spec fn mark_in_progress(
    m: Map<EventType, ReqStatus<String>>,
    kinds: Seq<EventType>,
) -> Map<EventType, ReqStatus<String>>
    decreases kinds,
{
    if kinds.len() == 0 {
        m
    } else {
        mark_in_progress(m, kinds.drop_last()).insert(
            kinds.last(),
            Ok(RespType::InProgress),
        )
    }
}

/// Every requested kind is in flight after an accepted dispatch, and no
/// other kind's status moved.
pub proof fn lemma_mark_in_progress(m: Map<EventType, ReqStatus<String>>, kinds: Seq<EventType>)
    ensures
        forall|i: int|
            0 <= i < kinds.len() ==> mark_in_progress(m, kinds).contains_key(#[trigger] kinds[i])
                && mark_in_progress(m, kinds)[kinds[i]] == Ok::<RespType<String>, String>(
                RespType::InProgress,
            ),
        forall|k: EventType|
            !kinds.contains(k) ==> mark_in_progress(m, kinds).contains_key(k) == m.contains_key(k)
                && (m.contains_key(k) ==> mark_in_progress(m, kinds)[k] == m[k]),
    decreases kinds,
{
    if kinds.len() > 0 {
        lemma_mark_in_progress(m, kinds.drop_last());
        assert forall|i: int|
            0 <= i < kinds.len() implies mark_in_progress(m, kinds).contains_key(#[trigger] kinds[i])
            && mark_in_progress(m, kinds)[kinds[i]] == Ok::<RespType<String>, String>(
            RespType::InProgress,
        ) by {
            if i < kinds.len() - 1 && kinds[i] != kinds.last() {
                assert(kinds.drop_last()[i] == kinds[i]);
            }
        }
        assert forall|k: EventType|
            !kinds.contains(k) implies mark_in_progress(m, kinds).contains_key(k)
            == m.contains_key(k) && (m.contains_key(k) ==> mark_in_progress(m, kinds)[k] == m[k]) by {
            assert(k != kinds.last());
            assert(!kinds.drop_last().contains(k)) by {
                if kinds.drop_last().contains(k) {
                    let i = choose|i: int| 0 <= i < kinds.drop_last().len() && kinds.drop_last()[i] == k;
                    assert(kinds[i] == k);
                }
            };
        }
    }
}

/// Exclusive in-flight: after an accepted dispatch, a second dispatch that
/// names any of the same kinds is rejected — the kind stays with its single
/// outstanding background unit until it resolves.
pub proof fn lemma_exclusive_in_flight(
    m: EventsV,
    kinds1: Seq<EventType>,
    kinds2: Seq<EventType>,
    k: EventType,
)
    requires
        kinds1.contains(k),
        kinds2.contains(k),
    ensures
        m.dispatch_tr(kinds1).any_in_progress(kinds2),
{
    lemma_mark_in_progress(m.entries, kinds1);
    let i1 = choose|i: int| 0 <= i < kinds1.len() && kinds1[i] == k;
    let i2 = choose|i: int| 0 <= i < kinds2.len() && kinds2[i] == k;
    assert(m.dispatch_tr(kinds1).entries.contains_key(kinds2[i2]) && m.dispatch_tr(
        kinds1,
    ).entries[kinds2[i2]] == Ok::<RespType<String>, String>(RespType::InProgress));
}

/// Drain-once: one tick leaves no terminal status behind, so a second tick
/// over the same state drains nothing and changes nothing — a terminal
/// status is handed to the business state at most once.
pub proof fn lemma_drain_once(m: Map<EventType, ReqStatus<String>>)
    ensures
        forall|k: EventType|
            #[trigger] non_terminal_of(m).contains_key(k) ==> !is_terminal(non_terminal_of(m)[k]),
        non_terminal_of(non_terminal_of(m)) == non_terminal_of(m),
{
    assert(non_terminal_of(non_terminal_of(m)) =~= non_terminal_of(m));
}

/// The tracked asynchronous requests, shared between the foreground loop and
/// background workers by the embedding runtime.
pub struct EventMap {
    entries: Vec<(EventType, ReqStatus<String>)>,
    timer_armed: bool,
}

/// What one poll tick decided.
pub struct TickResult {
    /// Kinds whose terminal status was drained this tick, each at most once,
    /// with its payload or error.
    pub drained: Vec<(EventType, Result<String, String>)>,
    /// Whether any kind was drained, so exactly one rebuild must follow.
    pub rebuild: bool,
    /// Whether undrained kinds remain, so the timer must fire again.
    pub cont: bool,
}

spec fn emap(s: Seq<(EventType, ReqStatus<String>)>) -> Map<EventType, ReqStatus<String>>
    decreases s,
{
    if s.len() == 0 {
        Map::empty()
    } else {
        emap(s.drop_last()).insert(s.last().0, s.last().1)
    }
}

proof fn lemma_emap_contains(s: Seq<(EventType, ReqStatus<String>)>)
    ensures
        forall|k: EventType| emap(s).contains_key(k) <==> exists|i: int| 0 <= i < s.len() && s[i].0 == k,
    decreases s,
{
    if s.len() > 0 {
        lemma_emap_contains(s.drop_last());
        assert forall|k: EventType| emap(s).contains_key(k) implies exists|i: int|
            0 <= i < s.len() && s[i].0 == k by {
            if s.last().0 == k {
                assert(s[s.len() - 1].0 == k);
            } else {
                assert(emap(s.drop_last()).contains_key(k));
                let i = choose|i: int| 0 <= i < s.drop_last().len() && s.drop_last()[i].0 == k;
                assert(s[i].0 == k);
            }
        }
        assert forall|k: EventType| (exists|i: int| 0 <= i < s.len() && s[i].0 == k) implies emap(
            s,
        ).contains_key(k) by {
            let i = choose|i: int| 0 <= i < s.len() && s[i].0 == k;
            if i < s.len() - 1 {
                assert(s.drop_last()[i].0 == k);
                assert(emap(s.drop_last()).contains_key(k));
            }
        }
    }
}

proof fn lemma_emap_index(s: Seq<(EventType, ReqStatus<String>)>)
    requires
        forall|i: int, j: int| 0 <= i < j < s.len() ==> s[i].0 != s[j].0,
    ensures
        forall|i: int|
            0 <= i < s.len() ==> emap(s).contains_key(#[trigger] s[i].0) && emap(s)[s[i].0] == s[i].1,
    decreases s,
{
    if s.len() > 0 {
        lemma_emap_index(s.drop_last());
        assert forall|i: int| 0 <= i < s.len() implies emap(s).contains_key(#[trigger] s[i].0)
            && emap(s)[s[i].0] == s[i].1 by {
            if i < s.len() - 1 {
                assert(s.drop_last()[i] == s[i]);
                assert(s[i].0 != s.last().0);
            }
        }
    }
}

proof fn lemma_emap_remove(s: Seq<(EventType, ReqStatus<String>)>, i: int)
    requires
        forall|i1: int, j1: int| 0 <= i1 < j1 < s.len() ==> s[i1].0 != s[j1].0,
        0 <= i < s.len(),
    ensures
        emap(s.remove(i)) =~= emap(s).remove(s[i].0),
    decreases s,
{
    lemma_emap_contains(s.drop_last());
    if i == s.len() - 1 {
        assert(s.remove(i) =~= s.drop_last());
        assert(!emap(s.drop_last()).contains_key(s[i].0));
    } else {
        lemma_emap_remove(s.drop_last(), i);
        assert(s.remove(i).drop_last() =~= s.drop_last().remove(i));
        assert(s.remove(i).last() == s.last());
        assert(emap(s.remove(i)) =~= emap(s.drop_last().remove(i)).insert(s.last().0, s.last().1));
    }
}

impl View for EventMap {
    type V = EventsV;

    closed spec fn view(&self) -> EventsV {
        EventsV { entries: emap(self.entries@), timer_armed: self.timer_armed }
    }
}

impl EventMap {
    /// Representation invariant: each kind is tracked at most once.
    pub closed spec fn wf(self) -> bool {
        forall|i: int, j: int| 0 <= i < j < self.entries@.len() ==> self.entries@[i].0 != self.entries@[j].0
    }

    /// No requests tracked, timer not armed.
    pub fn new() -> (m: EventMap)
        ensures
            m.wf(),
            m@ == (EventsV { entries: Map::empty(), timer_armed: false }),
    {
        EventMap { entries: Vec::new(), timer_armed: false }
    }

    /// Whether the recurring foreground timer is armed.
    pub fn timer_armed(&self) -> (r: bool)
        ensures
            r == self@.timer_armed,
    {
        self.timer_armed
    }

    /// Dispatch a set of kinds. Rejected as a no-op if any requested kind is
    /// currently in flight: duplicate outstanding requests for one kind are
    /// never created. On acceptance every requested kind becomes in-flight
    /// and the timer is armed; the embedding runtime then hands one unit of
    /// background work per kind to its executor, each of which eventually
    /// completes with exactly one terminal status.
    #[verifier::loop_isolation(false)]
    pub fn dispatch(&mut self, kinds: &Vec<EventType>) -> (accepted: bool)
        requires
            old(self).wf(),
        ensures
            final(self).wf(),
            accepted == !old(self)@.any_in_progress(kinds@),
            accepted ==> final(self)@ == old(self)@.dispatch_tr(kinds@),
            !accepted ==> final(self)@ == old(self)@,
    {
        proof {
            lemma_emap_contains(self.entries@);
            lemma_emap_index(self.entries@);
        }
        let mut i: usize = 0;
        while i < kinds.len()
            invariant
                0 <= i <= kinds.len(),
                forall|j: int|
                    0 <= j < i ==> !(self@.entries.contains_key(kinds@[j]) && self@.entries[kinds@[j]]
                        == Ok::<RespType<String>, String>(RespType::InProgress)),
                *self == *old(self),
            decreases kinds.len() - i,
        {
            let kind = kinds[i];
            let mut j: usize = 0;
            let ghost entries_snap = self.entries@;
            while j < self.entries.len()
                invariant
                    0 <= j <= self.entries.len(),
                    self.entries@ == entries_snap,
                    *self == *old(self),
                    forall|l: int|
                        0 <= l < j ==> !(self.entries@[l].0 == kind && self.entries@[l].1
                            == Ok::<RespType<String>, String>(RespType::InProgress)),
                decreases self.entries.len() - j,
            {
                let e = &self.entries[j];
                if e.0 == kind {
                    match &e.1 {
                        Ok(RespType::InProgress) => {
                            proof {
                                assert(self@.entries.contains_key(kind) && self@.entries[kind]
                                    == Ok::<RespType<String>, String>(RespType::InProgress));
                                assert(old(self)@.any_in_progress(kinds@)) by {
                                    assert(kinds@[i as int] == kind);
                                }
                            }
                            return false;
                        },
                        _ => {},
                    }
                }
                j += 1;
            }
            proof {
                assert forall|l: int|
                    0 <= l <= i implies !(self@.entries.contains_key(kinds@[l])
                        && self@.entries[kinds@[l]] == Ok::<RespType<String>, String>(
                        RespType::InProgress,
                    )) by {
                    if l == i && self@.entries.contains_key(kind) {
                        let x = choose|x: int| 0 <= x < self.entries@.len() && self.entries@[x].0 == kind;
                        assert(self.entries@[x].1 == self@.entries[kind]);
                    }
                }
            }
            i += 1;
        }
        proof {
            assert(!old(self)@.any_in_progress(kinds@));
        }
        let mut n: usize = 0;
        while n < kinds.len()
            invariant
                0 <= n <= kinds.len(),
                self.wf(),
                self.timer_armed == old(self).timer_armed,
                self@.entries == mark_in_progress(old(self)@.entries, kinds@.take(n as int)),
            decreases kinds.len() - n,
        {
            self.set_in_progress(kinds[n]);
            proof {
                assert(kinds@.take(n as int + 1).drop_last() =~= kinds@.take(n as int));
                assert(kinds@.take(n as int + 1).last() == kinds@[n as int]);
            }
            n += 1;
        }
        self.timer_armed = true;
        proof {
            assert(kinds@.take(kinds@.len() as int) =~= kinds@);
            assert(final(self)@ =~= old(self)@.dispatch_tr(kinds@));
        }
        true
    }

    /// Set one kind's status, replacing any tracked status.
    fn set_status(&mut self, kind: EventType, status: ReqStatus<String>)
        requires
            old(self).wf(),
        ensures
            final(self).wf(),
            final(self)@ == (EventsV {
                entries: old(self)@.entries.insert(kind, status),
                ..old(self)@
            }),
    {
        proof {
            lemma_emap_contains(self.entries@);
        }
        let ghost orig = self.entries@;
        let mut i: usize = 0;
        #[verifier::loop_isolation(false)]
        while i < self.entries.len()
            invariant
                0 <= i <= self.entries.len(),
                forall|j: int| 0 <= j < i ==> self.entries@[j].0 != kind,
                *self == *old(self),
            decreases self.entries.len() - i,
        {
            if self.entries[i].0 == kind {
                self.entries.remove(i);
                proof {
                    lemma_emap_remove(orig, i as int);
                    lemma_emap_contains(self.entries@);
                    assert(!emap(self.entries@).contains_key(kind));
                }
                let ghost mid = self.entries@;
                self.entries.push((kind, status));
                proof {
                    assert(self.entries@.drop_last() =~= mid);
                    assert(final(self)@.entries =~= old(self)@.entries.insert(kind, status));
                }
                return ;
            }
            i += 1;
        }
        proof {
            assert(!emap(self.entries@).contains_key(kind));
        }
        let ghost mid = self.entries@;
        self.entries.push((kind, status));
        proof {
            assert(self.entries@.drop_last() =~= mid);
            assert(final(self)@.entries =~= old(self)@.entries.insert(kind, status));
        }
    }

    /// Mark one kind in flight.
    fn set_in_progress(&mut self, kind: EventType)
        requires
            old(self).wf(),
        ensures
            final(self).wf(),
            final(self)@ == (EventsV {
                entries: old(self)@.entries.insert(
                    kind,
                    Ok(RespType::InProgress),
                ),
                ..old(self)@
            }),
    {
        self.set_status(kind, Ok(RespType::InProgress));
    }

    /// A background worker writes its terminal result for one kind. The
    /// embedding runtime performs this under the shared lock.
    pub fn complete(&mut self, kind: EventType, result: Result<String, String>)
        requires
            old(self).wf(),
        ensures
            final(self).wf(),
            final(self)@ == (EventsV {
                entries: old(self)@.entries.insert(kind, to_status(result)),
                ..old(self)@
            }),
    {
        let status = match result {
            Ok(p) => Ok(RespType::Done(p)),
            Err(e) => Err(e),
        };
        self.set_status(kind, status);
    }

    /// One foreground tick: every tracked kind with a terminal status is
    /// removed and handed out exactly once; still-pending kinds stay. The
    /// tick reports whether anything was drained (then exactly one rebuild
    /// follows) and whether the timer must keep firing; the timer stops once
    /// nothing is tracked.
    #[verifier::loop_isolation(false)]
    pub fn poll_tick(&mut self) -> (t: TickResult)
        requires
            old(self).wf(),
        ensures
            final(self).wf(),
            final(self)@.entries == non_terminal_of(old(self)@.entries),
            final(self)@.timer_armed == t.cont,
            t.rebuild == (t.drained@.len() > 0),
            t.cont == (exists|k: EventType| final(self)@.entries.contains_key(k)),
            forall|l: int|
                0 <= l < t.drained@.len() ==> old(self)@.entries.contains_key(
                    #[trigger] t.drained@[l].0,
                ) && is_terminal(old(self)@.entries[t.drained@[l].0]) && t.drained@[l].1
                    == to_outcome(old(self)@.entries[t.drained@[l].0]),
            forall|l1: int, l2: int|
                0 <= l1 < l2 < t.drained@.len() ==> t.drained@[l1].0 != t.drained@[l2].0,
            forall|k: EventType|
                old(self)@.entries.contains_key(k) && is_terminal(old(self)@.entries[k])
                    ==> exists|l: int| 0 <= l < t.drained@.len() && #[trigger] t.drained@[l].0 == k,
    {
        proof {
            lemma_emap_contains(self.entries@);
            lemma_emap_index(self.entries@);
        }
        let ghost m0 = self@.entries;
        let mut drained: Vec<(EventType, Result<String, String>)> = Vec::new();
        let mut i: usize = 0;
        while i < self.entries.len()
            invariant
                0 <= i <= self.entries.len(),
                self.wf(),
                self.timer_armed == old(self).timer_armed,
                forall|j: int| 0 <= j < i ==> !is_terminal(self.entries@[j].1),
                forall|k: EventType|
                    #[trigger] self@.entries.contains_key(k) ==> m0.contains_key(k)
                        && self@.entries[k] == m0[k],
                forall|k: EventType|
                    #[trigger] m0.contains_key(k) ==> self@.entries.contains_key(k) || exists|l: int|
                        0 <= l < drained@.len() && #[trigger] drained@[l].0 == k,
                forall|l: int|
                    0 <= l < drained@.len() ==> m0.contains_key(#[trigger] drained@[l].0)
                        && is_terminal(m0[drained@[l].0]) && drained@[l].1 == to_outcome(
                        m0[drained@[l].0],
                    ) && !self@.entries.contains_key(drained@[l].0),
                forall|l1: int, l2: int|
                    0 <= l1 < l2 < drained@.len() ==> drained@[l1].0 != drained@[l2].0,
            decreases self.entries.len() - i,
        {
            let terminal = match &self.entries[i].1 {
                Ok(RespType::Done(_)) => true,
                Err(_) => true,
                _ => false,
            };
            if terminal {
                let ghost pre = self.entries@;
                let ghost dr_pre = drained@;
                proof {
                    lemma_emap_index(pre);
                    assert(self@.entries.contains_key(pre[i as int].0));
                    assert(m0.contains_key(pre[i as int].0) && m0[pre[i as int].0] == pre[
                        i as int
                    ].1);
                }
                let e = self.entries.remove(i);
                proof {
                    lemma_emap_remove(pre, i as int);
                    lemma_emap_contains(self.entries@);
                    lemma_emap_index(self.entries@);
                    assert(emap(pre).contains_key(e.0) && emap(pre)[e.0] == e.1) by {
                        assert(pre[i as int] == e);
                        lemma_emap_index(pre);
                    };
                    assert(emap(pre).contains_key(e.0));
                    assert(m0.contains_key(e.0) && m0[e.0] == e.1);
                }
                let outcome = match e.1 {
                    Ok(RespType::Done(p)) => Ok(p),
                    Err(err) => Err(err),
                    _ => vstd::pervasive::unreached(),
                };
                drained.push((e.0, outcome));
                proof {
                    assert(drained@.drop_last() =~= dr_pre);
                    assert(emap(self.entries@) =~= emap(pre).remove(e.0));
                    assert forall|k: EventType|
                        #[trigger] self@.entries.contains_key(k) implies m0.contains_key(k)
                            && self@.entries[k] == m0[k] by {
                        assert(emap(pre).contains_key(k));
                    }
                    assert forall|k: EventType|
                        m0.contains_key(k) implies self@.entries.contains_key(k) || exists|l: int|
                            0 <= l < drained@.len() && #[trigger] drained@[l].0 == k by {
                        if k == e.0 {
                            assert(drained@[drained@.len() - 1].0 == k);
                        } else if !self@.entries.contains_key(k) {
                            assert(!emap(pre).contains_key(k));
                            let l = choose|l: int| 0 <= l < dr_pre.len() && #[trigger] dr_pre[l].0 == k;
                            assert(drained@[l].0 == k);
                        }
                    }
                    assert forall|l: int|
                        0 <= l < drained@.len() implies m0.contains_key(#[trigger] drained@[l].0)
                            && is_terminal(m0[drained@[l].0]) && drained@[l].1 == to_outcome(
                            m0[drained@[l].0],
                        ) && !self@.entries.contains_key(drained@[l].0) by {
                        if l < drained@.len() - 1 {
                            assert(dr_pre[l] == drained@[l]);
                        }
                    }
                }
            } else {
                i += 1;
            }
        }
        let cont = self.entries.len() > 0;
        let rebuild = drained.len() > 0;
        self.timer_armed = cont;
        proof {
            lemma_emap_contains(self.entries@);
            lemma_emap_index(self.entries@);
            assert forall|k: EventType| #[trigger] self@.entries.contains_key(k) implies m0.contains_key(
                k,
            ) && self@.entries[k] == m0[k] && !is_terminal(m0[k]) by {
                assert(m0.contains_key(k) && self@.entries[k] == m0[k]);
                let x = choose|x: int| 0 <= x < self.entries@.len() && self.entries@[x].0 == k;
                assert(self.entries@[x].1 == self@.entries[k]);
                assert(!is_terminal(self.entries@[x].1));
            }
            assert forall|k: EventType| non_terminal_of(m0).contains_key(k)
                implies self@.entries.contains_key(k) by {
                if !self@.entries.contains_key(k) {
                    let l = choose|l: int| 0 <= l < drained@.len() && #[trigger] drained@[l].0 == k;
                    assert(is_terminal(m0[k]));
                }
            }
            assert(self@.entries =~= non_terminal_of(m0));
            assert forall|k: EventType|
                m0.contains_key(k) && is_terminal(m0[k]) implies exists|l: int|
                    0 <= l < drained@.len() && #[trigger] drained@[l].0 == k by {
                assert(!self@.entries.contains_key(k));
            }
            if cont {
                assert(self@.entries.contains_key(self.entries@[0].0));
            }
        }
        TickResult { drained, rebuild, cont }
    }
}

} // verus!
