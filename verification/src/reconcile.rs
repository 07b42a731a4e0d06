//! The reconciler: transforms the native graph that currently represents the
//! previous component tree into one representing the new tree, reusing cached
//! handles wherever identity is preserved and applying the minimal
//! attach/detach operations.
//!
//! The meaning of each pass is a transition function on the renderer state
//! (`mount_tr`, `unmount_tr`, `diff_tr`); the executable passes are proved to
//! perform exactly those transitions, and the reconciliation laws are proved
//! of the transitions themselves.

use vstd::prelude::*;

use crate::component::{CompV, Component, ComponentID, IdV};
use crate::ewidget::{KeyV, WidgetKey};
use crate::render::{RState, Renderer};

verus! {

/// State transition of mounting `c` fresh into the container `ch` (whose key
/// is `ck`): construct-or-reuse each widget handle, attach it to the nearest
/// enclosing native container, recurse, then make it visible and ensure the
/// container ends visible. A node carrying the container's own key is not
/// re-attached; grouping nodes have no native presence.
pub open spec fn mount_tr(c: CompV, ck: KeyV, ch: u64, s: RState) -> RState
    decreases c,
{
    match c.id {
        IdV::Widget(k) => {
            if k == ck {
                mount_seq_tr(c.children, ck, ch, s).show_if_hidden_tr(ch)
            } else {
                let hs = s.get_or_make_tr(k, c.widget.unwrap());
                let s2 = hs.1.attach_tr(hs.0, ch);
                let s3 = mount_seq_tr(c.children, k, hs.0, s2);
                s3.show_tr(hs.0).show_if_hidden_tr(ch)
            }
        },
        IdV::Group(_) => mount_seq_tr(c.children, ck, ch, s).show_if_hidden_tr(ch),
    }
}

pub open spec fn mount_seq_tr(cs: Seq<CompV>, ck: KeyV, ch: u64, s: RState) -> RState
    decreases cs,
{
    if cs.len() == 0 {
        s
    } else {
        mount_tr(cs.last(), ck, ch, mount_seq_tr(cs.drop_last(), ck, ch, s))
    }
}

/// State transition of unmounting the subtree `c` from the container `ch`:
/// detach each widget attached in this context, recurse below it, and evict
/// its cache entry, destroying the native widget. A widget that is no longer
/// attached here (it has been re-attached elsewhere, or was never mounted) is
/// left alone together with its subtree.
pub open spec fn unmount_tr(c: CompV, ch: u64, s: RState) -> RState
    decreases c,
{
    match c.id {
        IdV::Widget(k) => {
            if s.cache.contains_key(k) && s.parent.contains_key(s.cache[k]) && s.parent[s.cache[k]]
                == ch {
                let h = s.cache[k];
                let s1 = s.detach_tr(h, ch);
                let s2 = unmount_seq_tr(c.children, h, s1);
                s2.evict_tr(k)
            } else {
                s
            }
        },
        IdV::Group(_) => unmount_seq_tr(c.children, ch, s),
    }
}

pub open spec fn unmount_seq_tr(cs: Seq<CompV>, ch: u64, s: RState) -> RState
    decreases cs,
{
    if cs.len() == 0 {
        s
    } else {
        unmount_tr(cs.last(), ch, unmount_seq_tr(cs.drop_last(), ch, s))
    }
}

/// State transition of reconciling `new` against the previous tree `old` in
/// the container `ch`. An identity mismatch is a full replace: unmount the
/// old subtree, mount the new one fresh. On a match, a changed descriptor is
/// applied in place, children are reconciled by identity (absent old children
/// unmounted, matched pairs reconciled, new-only children mounted), and
/// nothing is ever repositioned.
pub open spec fn diff_tr(new: CompV, old: CompV, ck: KeyV, ch: u64, s: RState) -> RState
    decreases old,
{
    if new.id != old.id {
        mount_tr(new, ck, ch, unmount_tr(old, ch, s))
    } else {
        let nk = match new.id {
            IdV::Widget(k) => k,
            IdV::Group(_) => ck,
        };
        let nh = if new.id is Widget && s.cache.contains_key(nk) {
            s.cache[nk]
        } else {
            ch
        };
        let s0 = if new.id is Widget && new.widget != old.widget {
            s.update_tr(nh, new.widget.unwrap())
        } else {
            s
        };
        let s1 = diff_children_tr(new.children, old.children, nk, nh, s0);
        add_new_tr(new.children, old.children, nk, nh, s1)
    }
}

/// For each old child in order: reconcile it against the new child of the
/// same identity, or unmount it if its identity is gone.
pub open spec fn diff_children_tr(news: Seq<CompV>, olds: Seq<CompV>, ck: KeyV, ch: u64, s: RState) -> RState
    decreases olds,
{
    if olds.len() == 0 {
        s
    } else {
        let s1 = diff_children_tr(news, olds.drop_last(), ck, ch, s);
        let oc = olds.last();
        match CompV::find_child(news, oc.id) {
            Some(nc) => diff_tr(nc, oc, ck, ch, s1),
            None => unmount_tr(oc, ch, s1),
        }
    }
}

/// For each new child in order: mount it fresh if its identity was not in
/// the old children.
pub open spec fn add_new_tr(news: Seq<CompV>, olds: Seq<CompV>, ck: KeyV, ch: u64, s: RState) -> RState
    decreases news,
{
    if news.len() == 0 {
        s
    } else {
        let s1 = add_new_tr(news.drop_last(), olds, ck, ch, s);
        let nc = news.last();
        if CompV::find_child(olds, nc.id) is Some {
            s1
        } else {
            mount_tr(nc, ck, ch, s1)
        }
    }
}

/// An upper bound on the number of native widgets one reconciliation pass
/// may construct: fresh handles for a replaced or added subtree, and for the
/// matched children recursively. The handle allocator must have this many
/// handles left.
pub open spec fn diff_budget(new: CompV, old: CompV) -> nat
    decreases old,
{
    if new.id != old.id {
        new.widget_count()
    } else {
        diff_budget_children(new.children, old.children) + CompV::widget_count_all(new.children)
    }
}

pub open spec fn diff_budget_children(news: Seq<CompV>, olds: Seq<CompV>) -> nat
    decreases olds,
{
    if olds.len() == 0 {
        0
    } else {
        diff_budget_children(news, olds.drop_last()) + match CompV::find_child(news, olds.last().id) {
            Some(nc) => diff_budget(nc, olds.last()),
            None => 0,
        }
    }
}

pub proof fn lemma_budget_take_step(news: Seq<CompV>, olds: Seq<CompV>, i: int)
    requires
        0 <= i < olds.len(),
    ensures
        diff_budget_children(news, olds.take(i + 1)) == diff_budget_children(news, olds.take(i))
            + match CompV::find_child(news, olds[i].id) {
            Some(nc) => diff_budget(nc, olds[i]),
            None => 0nat,
        },
{
    assert(olds.take(i + 1).drop_last() =~= olds.take(i));
    assert(olds.take(i + 1).last() == olds[i]);
}

pub proof fn lemma_budget_drop_first(news: Seq<CompV>, olds: Seq<CompV>)
    requires
        olds.len() > 0,
    ensures
        diff_budget_children(news, olds) == diff_budget_children(news, olds.drop_first()) + match CompV::find_child(
            news,
            olds[0].id,
        ) {
            Some(nc) => diff_budget(nc, olds[0]),
            None => 0nat,
        },
    decreases olds,
{
    if olds.len() == 1 {
        assert(olds.drop_first() =~= Seq::<CompV>::empty());
        assert(olds.drop_last() =~= Seq::<CompV>::empty());
        assert(olds.last() == olds[0]);
    } else {
        lemma_budget_drop_first(news, olds.drop_last());
        assert(olds.drop_first().drop_last() =~= olds.drop_last().drop_first());
        assert(olds.drop_first().last() == olds.last());
        assert(olds.drop_last()[0] == olds[0]);
    }
}

pub proof fn lemma_budget_split(news: Seq<CompV>, olds: Seq<CompV>, i: int)
    requires
        0 <= i <= olds.len(),
    ensures
        diff_budget_children(news, olds) == diff_budget_children(news, olds.take(i))
            + diff_budget_children(news, olds.skip(i)),
    decreases olds.len() - i,
{
    if i == olds.len() {
        assert(olds.take(i) =~= olds);
        assert(olds.skip(i) =~= Seq::<CompV>::empty());
    } else {
        lemma_budget_split(news, olds, i + 1);
        lemma_budget_take_step(news, olds, i);
        lemma_budget_drop_first(news, olds.skip(i));
        assert(olds.skip(i).drop_first() =~= olds.skip(i + 1));
        assert(olds.skip(i)[0] == olds[i]);
    }
}

/// The live handles that a set of keys holds in this state.
pub open spec fn handles_of(ks: Set<KeyV>, s: RState) -> Set<u64> {
    Set::new(|h: u64| exists|k: KeyV| #[trigger] ks.contains(k) && s.cache.contains_key(k) && s.cache[k] == h)
}

/// The subtree is fully rendered in the container `ch`: every widget-bearing
/// node holds a live handle attached to its nearest enclosing native
/// container.
pub open spec fn mounted(c: CompV, ch: u64, s: RState) -> bool
    decreases c,
{
    match c.id {
        IdV::Widget(k) => {
            &&& s.cache.contains_key(k)
            &&& s.parent.contains_key(s.cache[k])
            &&& s.parent[s.cache[k]] == ch
            &&& mounted_all(c.children, s.cache[k], s)
        },
        IdV::Group(_) => mounted_all(c.children, ch, s),
    }
}

pub open spec fn mounted_all(cs: Seq<CompV>, ch: u64, s: RState) -> bool
    decreases cs,
{
    cs.len() == 0 || (mounted_all(cs.drop_last(), ch, s) && mounted(cs.last(), ch, s))
}

/// Mountedness depends only on the subtree's own cache entries and their
/// attachment records.
proof fn lemma_mounted_stable(c: CompV, ch: u64, s: RState, t: RState)
    requires
        mounted(c, ch, s),
        forall|k: KeyV|
            #[trigger] c.keys().contains(k) ==> t.cache.contains_key(k) && t.cache[k] == s.cache[k],
        forall|k: KeyV|
            #[trigger] c.keys().contains(k) ==> t.parent.contains_key(s.cache[k])
                && t.parent[s.cache[k]] == s.parent[s.cache[k]],
    ensures
        mounted(c, ch, t),
    decreases c,
{
    assert forall|k: KeyV|
        #[trigger] CompV::keys_all(c.children).contains(k) implies t.cache.contains_key(k)
            && t.cache[k] == s.cache[k] && t.parent.contains_key(s.cache[k]) && t.parent[s.cache[k]]
            == s.parent[s.cache[k]] by {
        assert(c.keys().contains(k));
    }
    match c.id {
        IdV::Widget(k) => {
            assert(c.keys().contains(k));
            lemma_mounted_all_stable(c.children, s.cache[k], s, t);
        },
        IdV::Group(_) => {
            lemma_mounted_all_stable(c.children, ch, s, t);
        },
    }
}

proof fn lemma_mounted_all_stable(cs: Seq<CompV>, ch: u64, s: RState, t: RState)
    requires
        mounted_all(cs, ch, s),
        forall|k: KeyV|
            #[trigger] CompV::keys_all(cs).contains(k) ==> t.cache.contains_key(k) && t.cache[k]
                == s.cache[k],
        forall|k: KeyV|
            #[trigger] CompV::keys_all(cs).contains(k) ==> t.parent.contains_key(s.cache[k])
                && t.parent[s.cache[k]] == s.parent[s.cache[k]],
    ensures
        mounted_all(cs, ch, t),
    decreases cs,
{
    if cs.len() > 0 {
        assert forall|k: KeyV|
            #[trigger] CompV::keys_all(cs.drop_last()).contains(k) implies t.cache.contains_key(k)
                && t.cache[k] == s.cache[k] && t.parent.contains_key(s.cache[k])
                && t.parent[s.cache[k]] == s.parent[s.cache[k]] by {
            assert(CompV::keys_all(cs).contains(k));
        }
        assert forall|k: KeyV|
            #[trigger] cs.last().keys().contains(k) implies t.cache.contains_key(k) && t.cache[k]
                == s.cache[k] && t.parent.contains_key(s.cache[k]) && t.parent[s.cache[k]]
                == s.parent[s.cache[k]] by {
            assert(CompV::keys_all(cs).contains(k));
        }
        lemma_mounted_all_stable(cs.drop_last(), ch, s, t);
        lemma_mounted_stable(cs.last(), ch, s, t);
    }
}

pub proof fn lemma_unmount_frame(c: CompV, ch: u64, s: RState)
    ensures
        unmount_tr(c, ch, s).next == s.next,
        unmount_tr(c, ch, s).registered == s.registered,
        forall|h: u64|
            #[trigger] unmount_tr(c, ch, s).parent.contains_key(h) ==> s.parent.contains_key(h)
                && unmount_tr(c, ch, s).parent[h] == s.parent[h],
        forall|h: u64|
            s.parent.contains_key(h) && !handles_of(c.keys(), s).contains(h) ==> #[trigger] unmount_tr(
                c,
                ch,
                s,
            ).parent.contains_key(h),
        forall|k: KeyV|
            #[trigger] unmount_tr(c, ch, s).cache.contains_key(k) ==> s.cache.contains_key(k)
                && unmount_tr(c, ch, s).cache[k] == s.cache[k],
        forall|k: KeyV|
            #[trigger] s.cache.contains_key(k) && !c.keys().contains(k) ==> unmount_tr(
                c,
                ch,
                s,
            ).cache.contains_key(k),
        s.inv() ==> unmount_tr(c, ch, s).inv(),
    decreases c,
{
    match c.id {
        IdV::Widget(k) => {
            if s.cache.contains_key(k) && s.parent.contains_key(s.cache[k]) && s.parent[s.cache[k]]
                == ch {
                let h = s.cache[k];
                let s1 = s.detach_tr(h, ch);
                assert(s1.cache == s.cache);
                lemma_unmount_seq_frame(c.children, h, s1);
                let s2 = unmount_seq_tr(c.children, h, s1);
                let t = unmount_tr(c, ch, s);
                assert(t == s2.evict_tr(k));
                assert(c.keys().contains(k));
                assert forall|k2: KeyV| t.cache.contains_key(k2) implies s.cache.contains_key(k2)
                    && t.cache[k2] == s.cache[k2] by {
                    assert(s2.cache.contains_key(k2) && s2.cache[k2] == t.cache[k2]);
                }
                assert forall|k2: KeyV|
                    s.cache.contains_key(k2) && !c.keys().contains(k2) implies t.cache.contains_key(
                    k2,
                ) by {
                    assert(!CompV::keys_all(c.children).contains(k2));
                    assert(s2.cache.contains_key(k2));
                    assert(k2 != k);
                }
                assert(handles_of(c.keys(), s).contains(h)) by {
                    assert(c.keys().contains(k) && s.cache.contains_key(k) && s.cache[k] == h);
                }
                assert forall|h2: u64|
                    s.parent.contains_key(h2) && !handles_of(c.keys(), s).contains(h2)
                        implies t.parent.contains_key(h2) by {
                    assert(h2 != h);
                    assert(s1.parent.contains_key(h2) && s1.parent[h2] == s.parent[h2]);
                    assert(!handles_of(CompV::keys_all(c.children), s1).contains(h2)) by {
                        if handles_of(CompV::keys_all(c.children), s1).contains(h2) {
                            let k2 = choose|k2: KeyV|
                                #[trigger] CompV::keys_all(c.children).contains(k2)
                                    && s1.cache.contains_key(k2) && s1.cache[k2] == h2;
                            assert(c.keys().contains(k2));
                            assert(handles_of(c.keys(), s).contains(h2));
                        }
                    };
                    assert(s2.parent.contains_key(h2));
                    assert(s2.parent[h2] == s1.parent[h2]);
                    if s2.cache.contains_key(k) {
                        assert(s2.cache[k] == s.cache[k]);
                    }
                }
            }
        },
        IdV::Group(_) => {
            lemma_unmount_seq_frame(c.children, ch, s);
            assert forall|k2: KeyV|
                s.cache.contains_key(k2) && !c.keys().contains(k2) implies unmount_tr(
                c,
                ch,
                s,
            ).cache.contains_key(k2) by {
                assert(!CompV::keys_all(c.children).contains(k2));
            }
            assert forall|h2: u64|
                s.parent.contains_key(h2) && !handles_of(c.keys(), s).contains(h2)
                    implies unmount_tr(c, ch, s).parent.contains_key(h2) by {
                assert(!handles_of(CompV::keys_all(c.children), s).contains(h2)) by {
                    if handles_of(CompV::keys_all(c.children), s).contains(h2) {
                        let k2 = choose|k2: KeyV|
                            #[trigger] CompV::keys_all(c.children).contains(k2)
                                && s.cache.contains_key(k2) && s.cache[k2] == h2;
                        assert(c.keys().contains(k2));
                        assert(handles_of(c.keys(), s).contains(h2));
                    }
                };
            }
        },
    }
}

pub proof fn lemma_unmount_seq_frame(cs: Seq<CompV>, ch: u64, s: RState)
    ensures
        unmount_seq_tr(cs, ch, s).next == s.next,
        unmount_seq_tr(cs, ch, s).registered == s.registered,
        forall|h: u64|
            #[trigger] unmount_seq_tr(cs, ch, s).parent.contains_key(h) ==> s.parent.contains_key(h)
                && unmount_seq_tr(cs, ch, s).parent[h] == s.parent[h],
        forall|h: u64|
            s.parent.contains_key(h) && !handles_of(CompV::keys_all(cs), s).contains(h)
                ==> #[trigger] unmount_seq_tr(cs, ch, s).parent.contains_key(h),
        forall|k: KeyV|
            #[trigger] unmount_seq_tr(cs, ch, s).cache.contains_key(k) ==> s.cache.contains_key(k)
                && unmount_seq_tr(cs, ch, s).cache[k] == s.cache[k],
        forall|k: KeyV|
            #[trigger] s.cache.contains_key(k) && !CompV::keys_all(cs).contains(k)
                ==> unmount_seq_tr(cs, ch, s).cache.contains_key(k),
        s.inv() ==> unmount_seq_tr(cs, ch, s).inv(),
    decreases cs,
{
    if cs.len() > 0 {
        lemma_unmount_seq_frame(cs.drop_last(), ch, s);
        let s1 = unmount_seq_tr(cs.drop_last(), ch, s);
        lemma_unmount_frame(cs.last(), ch, s1);
        let t = unmount_seq_tr(cs, ch, s);
        assert(t == unmount_tr(cs.last(), ch, s1));
        assert forall|k: KeyV| t.cache.contains_key(k) implies s.cache.contains_key(k)
            && t.cache[k] == s.cache[k] by {
            assert(unmount_tr(cs.last(), ch, s1).cache.contains_key(k));
            assert(s1.cache.contains_key(k) && s1.cache[k] == t.cache[k]);
            assert(unmount_seq_tr(cs.drop_last(), ch, s).cache.contains_key(k));
        }
        assert forall|k: KeyV|
            s.cache.contains_key(k) && !CompV::keys_all(cs).contains(k) implies t.cache.contains_key(
            k,
        ) by {
            assert(CompV::keys_all(cs) == CompV::keys_all(cs.drop_last()).union(cs.last().keys()));
            assert(s1.cache.contains_key(k));
        }
        assert forall|h: u64|
            s.parent.contains_key(h) && !handles_of(CompV::keys_all(cs), s).contains(h)
                implies t.parent.contains_key(h) by {
            assert(!handles_of(CompV::keys_all(cs.drop_last()), s).contains(h)) by {
                if handles_of(CompV::keys_all(cs.drop_last()), s).contains(h) {
                    let k = choose|k: KeyV|
                        #[trigger] CompV::keys_all(cs.drop_last()).contains(k)
                            && s.cache.contains_key(k) && s.cache[k] == h;
                    assert(CompV::keys_all(cs).contains(k));
                    assert(handles_of(CompV::keys_all(cs), s).contains(h));
                }
            };
            assert(s1.parent.contains_key(h) && s1.parent[h] == s.parent[h]);
            assert(!handles_of(cs.last().keys(), s1).contains(h)) by {
                if handles_of(cs.last().keys(), s1).contains(h) {
                    let k = choose|k: KeyV|
                        #[trigger] cs.last().keys().contains(k) && s1.cache.contains_key(k)
                            && s1.cache[k] == h;
                    assert(CompV::keys_all(cs).contains(k));
                    assert(s.cache.contains_key(k) && s.cache[k] == h);
                    assert(handles_of(CompV::keys_all(cs), s).contains(h));
                }
            };
        }
    }
}

pub proof fn lemma_mount_frame(c: CompV, ck: KeyV, ch: u64, s: RState)
    requires
        s.next + c.widget_count() <= u64::MAX,
    ensures
        mount_tr(c, ck, ch, s).registered == s.registered,
        s.next <= mount_tr(c, ck, ch, s).next <= s.next + c.widget_count(),
        forall|k: KeyV|
            #[trigger] s.cache.contains_key(k) ==> mount_tr(c, ck, ch, s).cache.contains_key(k)
                && mount_tr(c, ck, ch, s).cache[k] == s.cache[k],
        forall|k: KeyV|
            !s.cache.contains_key(k) && !c.keys().contains(k) ==> !(#[trigger] mount_tr(
                c,
                ck,
                ch,
                s,
            ).cache.contains_key(k)),
        forall|k: KeyV|
            #[trigger] mount_tr(c, ck, ch, s).cache.contains_key(k) ==> (s.cache.contains_key(k)
                && mount_tr(c, ck, ch, s).cache[k] == s.cache[k]) || (s.next <= mount_tr(
                c,
                ck,
                ch,
                s,
            ).cache[k] < mount_tr(c, ck, ch, s).next),
        s.inv() ==> mount_tr(c, ck, ch, s).inv(),
    decreases c,
{
    match c.id {
        IdV::Widget(k) => {
            if k == ck {
                lemma_mount_seq_frame(c.children, ck, ch, s);
                assert forall|k2: KeyV|
                    !s.cache.contains_key(k2) && !c.keys().contains(k2) implies !mount_tr(
                    c,
                    ck,
                    ch,
                    s,
                ).cache.contains_key(k2) by {
                    assert(!CompV::keys_all(c.children).contains(k2));
                }
            } else {
                let hs = s.get_or_make_tr(k, c.widget.unwrap());
                let s1 = hs.1;
                let s2 = s1.attach_tr(hs.0, ch);
                assert(s2.cache == s1.cache && s2.next == s1.next);
                assert(c.keys().contains(k));
                lemma_mount_seq_frame(c.children, k, hs.0, s2);
                let s3 = mount_seq_tr(c.children, k, hs.0, s2);
                let t = mount_tr(c, ck, ch, s);
                assert(t == s3.show_tr(hs.0).show_if_hidden_tr(ch));
                assert(t.cache == s3.cache && t.next == s3.next);
                assert forall|k2: KeyV| s.cache.contains_key(k2) implies t.cache.contains_key(k2)
                    && t.cache[k2] == s.cache[k2] by {
                    assert(s2.cache.contains_key(k2) && s2.cache[k2] == s.cache[k2]);
                }
                assert forall|k2: KeyV|
                    !s.cache.contains_key(k2) && !c.keys().contains(k2)
                        implies !t.cache.contains_key(k2) by {
                    assert(!CompV::keys_all(c.children).contains(k2));
                    assert(k2 != k);
                    assert(!s2.cache.contains_key(k2));
                }
                assert forall|k2: KeyV| t.cache.contains_key(k2) implies (s.cache.contains_key(k2)
                    && t.cache[k2] == s.cache[k2]) || (s.next <= t.cache[k2] < t.next) by {
                    assert(s3.cache.contains_key(k2));
                    if s2.cache.contains_key(k2) && s3.cache[k2] == s2.cache[k2] {
                        assert(k2 == k || s.cache.contains_key(k2));
                    }
                }
                if s.inv() {
                    assert(s2.inv());
                }
            }
        },
        IdV::Group(_) => {
            lemma_mount_seq_frame(c.children, ck, ch, s);
            assert forall|k2: KeyV|
                !s.cache.contains_key(k2) && !c.keys().contains(k2) implies !mount_tr(
                c,
                ck,
                ch,
                s,
            ).cache.contains_key(k2) by {
                assert(!CompV::keys_all(c.children).contains(k2));
            }
        },
    }
}

pub proof fn lemma_mount_seq_frame(cs: Seq<CompV>, ck: KeyV, ch: u64, s: RState)
    requires
        s.next + CompV::widget_count_all(cs) <= u64::MAX,
    ensures
        mount_seq_tr(cs, ck, ch, s).registered == s.registered,
        s.next <= mount_seq_tr(cs, ck, ch, s).next <= s.next + CompV::widget_count_all(cs),
        forall|k: KeyV|
            #[trigger] s.cache.contains_key(k) ==> mount_seq_tr(cs, ck, ch, s).cache.contains_key(k)
                && mount_seq_tr(cs, ck, ch, s).cache[k] == s.cache[k],
        forall|k: KeyV|
            !s.cache.contains_key(k) && !CompV::keys_all(cs).contains(k) ==> !(#[trigger] mount_seq_tr(
                cs,
                ck,
                ch,
                s,
            ).cache.contains_key(k)),
        forall|k: KeyV|
            #[trigger] mount_seq_tr(cs, ck, ch, s).cache.contains_key(k) ==> (s.cache.contains_key(k)
                && mount_seq_tr(cs, ck, ch, s).cache[k] == s.cache[k]) || (s.next <= mount_seq_tr(
                cs,
                ck,
                ch,
                s,
            ).cache[k] < mount_seq_tr(cs, ck, ch, s).next),
        s.inv() ==> mount_seq_tr(cs, ck, ch, s).inv(),
    decreases cs,
{
    if cs.len() > 0 {
        lemma_mount_seq_frame(cs.drop_last(), ck, ch, s);
        let s1 = mount_seq_tr(cs.drop_last(), ck, ch, s);
        lemma_mount_frame(cs.last(), ck, ch, s1);
        let t = mount_seq_tr(cs, ck, ch, s);
        assert(t == mount_tr(cs.last(), ck, ch, s1));
        assert forall|k: KeyV| s.cache.contains_key(k) implies t.cache.contains_key(k)
            && t.cache[k] == s.cache[k] by {
            assert(s1.cache.contains_key(k) && s1.cache[k] == s.cache[k]);
        }
        assert forall|k: KeyV|
            !s.cache.contains_key(k) && !CompV::keys_all(cs).contains(k)
                implies !t.cache.contains_key(k) by {
            assert(CompV::keys_all(cs) == CompV::keys_all(cs.drop_last()).union(cs.last().keys()));
            assert(!s1.cache.contains_key(k));
        }
        assert forall|k: KeyV| t.cache.contains_key(k) implies (s.cache.contains_key(k)
            && t.cache[k] == s.cache[k]) || (s.next <= t.cache[k] < t.next) by {
            assert(mount_tr(cs.last(), ck, ch, s1).cache.contains_key(k));
            if s1.cache.contains_key(k) && t.cache[k] == s1.cache[k] {
                assert(mount_seq_tr(cs.drop_last(), ck, ch, s).cache.contains_key(k));
            }
        }
    }
}

pub proof fn lemma_add_new_frame(news: Seq<CompV>, olds: Seq<CompV>, ck: KeyV, ch: u64, s: RState)
    requires
        s.next + CompV::widget_count_all(news) <= u64::MAX,
    ensures
        add_new_tr(news, olds, ck, ch, s).registered == s.registered,
        s.next <= add_new_tr(news, olds, ck, ch, s).next <= s.next + CompV::widget_count_all(news),
        forall|k: KeyV|
            #[trigger] s.cache.contains_key(k) ==> add_new_tr(news, olds, ck, ch, s).cache.contains_key(
                k,
            ) && add_new_tr(news, olds, ck, ch, s).cache[k] == s.cache[k],
        forall|k: KeyV|
            !s.cache.contains_key(k) && !CompV::keys_all(news).contains(k) ==> !(#[trigger] add_new_tr(
                news,
                olds,
                ck,
                ch,
                s,
            ).cache.contains_key(k)),
        forall|k: KeyV|
            #[trigger] add_new_tr(news, olds, ck, ch, s).cache.contains_key(k) ==> (
            s.cache.contains_key(k) && add_new_tr(news, olds, ck, ch, s).cache[k] == s.cache[k]) || (
            s.next <= add_new_tr(news, olds, ck, ch, s).cache[k] < add_new_tr(
                news,
                olds,
                ck,
                ch,
                s,
            ).next),
        s.inv() ==> add_new_tr(news, olds, ck, ch, s).inv(),
    decreases news,
{
    if news.len() > 0 {
        lemma_add_new_frame(news.drop_last(), olds, ck, ch, s);
        let s1 = add_new_tr(news.drop_last(), olds, ck, ch, s);
        let nc = news.last();
        if !(CompV::find_child(olds, nc.id) is Some) {
            lemma_mount_frame(nc, ck, ch, s1);
            assert forall|k: KeyV|
                !s.cache.contains_key(k) && !CompV::keys_all(news).contains(k) implies !add_new_tr(
                news,
                olds,
                ck,
                ch,
                s,
            ).cache.contains_key(k) by {
                assert(!nc.keys().contains(k));
            }
        }
    }
}

pub proof fn lemma_diff_frame(new: CompV, old: CompV, ck: KeyV, ch: u64, s: RState)
    requires
        s.next + diff_budget(new, old) <= u64::MAX,
    ensures
        diff_tr(new, old, ck, ch, s).registered == s.registered,
        s.next <= diff_tr(new, old, ck, ch, s).next <= s.next + diff_budget(new, old),
        forall|k: KeyV|
            #[trigger] s.cache.contains_key(k) && !old.keys().contains(k) ==> diff_tr(
                new,
                old,
                ck,
                ch,
                s,
            ).cache.contains_key(k),
        forall|k: KeyV|
            #[trigger] s.cache.contains_key(k) && !old.keys().contains(k) && !new.keys().contains(k)
                ==> diff_tr(new, old, ck, ch, s).cache[k] == s.cache[k],
        forall|k: KeyV|
            !s.cache.contains_key(k) && !new.keys().contains(k) ==> !(#[trigger] diff_tr(
                new,
                old,
                ck,
                ch,
                s,
            ).cache.contains_key(k)),
        forall|k: KeyV|
            #[trigger] diff_tr(new, old, ck, ch, s).cache.contains_key(k) ==> (s.cache.contains_key(k)
                && diff_tr(new, old, ck, ch, s).cache[k] == s.cache[k]) || (s.next <= diff_tr(
                new,
                old,
                ck,
                ch,
                s,
            ).cache[k] < diff_tr(new, old, ck, ch, s).next),
        s.inv() ==> diff_tr(new, old, ck, ch, s).inv(),
    decreases old,
{
    if new.id != old.id {
        lemma_unmount_frame(old, ch, s);
        lemma_mount_frame(new, ck, ch, unmount_tr(old, ch, s));
    } else {
        let nk = match new.id {
            IdV::Widget(k) => k,
            IdV::Group(_) => ck,
        };
        let nh = if new.id is Widget && s.cache.contains_key(nk) {
            s.cache[nk]
        } else {
            ch
        };
        let s0 = if new.id is Widget && new.widget != old.widget {
            s.update_tr(nh, new.widget.unwrap())
        } else {
            s
        };
        lemma_diff_children_frame(new.children, old.children, nk, nh, s0);
        let s1 = diff_children_tr(new.children, old.children, nk, nh, s0);
        lemma_add_new_frame(new.children, old.children, nk, nh, s1);
        assert forall|k: KeyV|
            s.cache.contains_key(k) && !old.keys().contains(k) implies diff_tr(
            new,
            old,
            ck,
            ch,
            s,
        ).cache.contains_key(k) by {
            assert(!CompV::keys_all(old.children).contains(k));
        }
        assert forall|k: KeyV|
            s.cache.contains_key(k) && !old.keys().contains(k) && !new.keys().contains(k) implies diff_tr(
            new,
            old,
            ck,
            ch,
            s,
        ).cache[k] == s.cache[k] by {
            assert(!CompV::keys_all(old.children).contains(k));
            assert(!CompV::keys_all(new.children).contains(k));
        }
        assert forall|k: KeyV|
            !s.cache.contains_key(k) && !new.keys().contains(k) implies !diff_tr(
            new,
            old,
            ck,
            ch,
            s,
        ).cache.contains_key(k) by {
            assert(!CompV::keys_all(new.children).contains(k));
        }
    }
}

pub proof fn lemma_diff_children_frame(
    news: Seq<CompV>,
    olds: Seq<CompV>,
    ck: KeyV,
    ch: u64,
    s: RState,
)
    requires
        s.next + diff_budget_children(news, olds) <= u64::MAX,
    ensures
        diff_children_tr(news, olds, ck, ch, s).registered == s.registered,
        s.next <= diff_children_tr(news, olds, ck, ch, s).next <= s.next + diff_budget_children(
            news,
            olds,
        ),
        forall|k: KeyV|
            #[trigger] s.cache.contains_key(k) && !CompV::keys_all(olds).contains(k)
                ==> diff_children_tr(news, olds, ck, ch, s).cache.contains_key(k),
        forall|k: KeyV|
            #[trigger] s.cache.contains_key(k) && !CompV::keys_all(olds).contains(k)
                && !CompV::keys_all(news).contains(k) ==> diff_children_tr(
                news,
                olds,
                ck,
                ch,
                s,
            ).cache[k] == s.cache[k],
        forall|k: KeyV|
            !s.cache.contains_key(k) && !CompV::keys_all(news).contains(k) ==> !(#[trigger] diff_children_tr(
                news,
                olds,
                ck,
                ch,
                s,
            ).cache.contains_key(k)),
        forall|k: KeyV|
            #[trigger] diff_children_tr(news, olds, ck, ch, s).cache.contains_key(k) ==> (
            s.cache.contains_key(k) && diff_children_tr(news, olds, ck, ch, s).cache[k]
                == s.cache[k]) || (s.next <= diff_children_tr(news, olds, ck, ch, s).cache[k]
                < diff_children_tr(news, olds, ck, ch, s).next),
        s.inv() ==> diff_children_tr(news, olds, ck, ch, s).inv(),
    decreases olds,
{
    if olds.len() > 0 {
        lemma_diff_children_frame(news, olds.drop_last(), ck, ch, s);
        let s1 = diff_children_tr(news, olds.drop_last(), ck, ch, s);
        let oc = olds.last();
        CompV::lemma_find_child(news, oc.id);
        match CompV::find_child(news, oc.id) {
            Some(nc) => {
                let i = choose|i: int| 0 <= i < news.len() && news[i] == nc;
                CompV::lemma_keys_all_index(news);
                lemma_diff_frame(nc, oc, ck, ch, s1);
                assert(CompV::keys_all(olds).contains(oc.id->Widget_0) || !(oc.id is Widget));
            },
            None => {
                lemma_unmount_frame(oc, ch, s1);
            },
        }
        assert forall|k: KeyV|
            s.cache.contains_key(k) && !CompV::keys_all(olds).contains(k) implies diff_children_tr(
            news,
            olds,
            ck,
            ch,
            s,
        ).cache.contains_key(k) by {
            assert(CompV::keys_all(olds) == CompV::keys_all(olds.drop_last()).union(oc.keys()));
        }
        assert forall|k: KeyV|
            s.cache.contains_key(k) && !CompV::keys_all(olds).contains(k) && !CompV::keys_all(
            news,
        ).contains(k) implies diff_children_tr(news, olds, ck, ch, s).cache[k] == s.cache[k] by {
            assert(CompV::keys_all(olds) == CompV::keys_all(olds.drop_last()).union(oc.keys()));
            match CompV::find_child(news, oc.id) {
                Some(nc) => {
                    let i = choose|i: int| 0 <= i < news.len() && news[i] == nc;
                    assert(!nc.keys().contains(k));
                },
                None => {},
            }
        }
    }
}

/// The first child with this identity, if any.
#[verifier::loop_isolation(false)]
fn find_in<'a>(cs: &'a Vec<Component>, id: &ComponentID) -> (r: Option<&'a Component>)
    ensures
        match r {
            Some(c) => CompV::find_child(Component::views_of(cs@), id@) == Some(c@),
            None => CompV::find_child(Component::views_of(cs@), id@) is None,
        },
{
    proof {
        Component::lemma_views_of(cs@);
    }
    let ghost vs = Component::views_of(cs@);
    proof {
        assert(vs.skip(0) =~= vs);
    }
    let mut i: usize = 0;
    while i < cs.len()
        invariant
            0 <= i <= cs.len(),
            CompV::find_child(vs, id@) == CompV::find_child(vs.skip(i as int), id@),
        decreases cs.len() - i,
    {
        proof {
            assert(vs.skip(i as int).first() == vs[i as int]);
        }
        if cs[i].id.id_eq(id) {
            return Some(&cs[i]);
        }
        proof {
            assert(vs.skip(i as int).drop_first() =~= vs.skip(i as int + 1));
        }
        i += 1;
    }
    proof {
        assert(vs.skip(cs.len() as int) =~= Seq::<CompV>::empty());
    }
    None
}

impl Component {
    /// Mount this subtree fresh into the container `cont_h` (whose key is
    /// `cont_key`): construct or reuse each widget handle, attach it to the
    /// nearest enclosing native container, recurse into the children with
    /// this widget as the new container, show it, and ensure the container
    /// itself ends visible.
    fn add_or_show_widgets(&self, cont_key: &WidgetKey, cont_h: u64, r: &mut Renderer)
        requires
            old(r).wf(),
            self@.wf(),
            self@.tags_ok(old(r)@.registered),
            old(r)@.next + self@.widget_count() <= u64::MAX,
        ensures
            final(r).wf(),
            final(r)@ == mount_tr(self@, cont_key@, cont_h, old(r)@),
        decreases *self, 1int,
    {
        proof {
            assert forall|k: KeyV| CompV::keys_all(self@.children).contains(k) implies r@.registered.contains(
                k.0,
            ) by {
                assert(self@.keys().contains(k));
            }
        }
        match &self.id {
            ComponentID::WidgetID(k) => {
                if k.key_eq(cont_key) {
                    self.mount_children(cont_key, cont_h, r);
                    r.show_if_hidden(cont_h);
                } else {
                    proof {
                        assert(self@.keys().contains(k@));
                    }
                    let info = self.widget.as_ref().unwrap();
                    let h = r.get_or_make(k, info);
                    r.attach(h, cont_h);
                    self.mount_children(k, h, r);
                    r.show(h);
                    r.show_if_hidden(cont_h);
                }
            },
            ComponentID::NodeID(_) => {
                self.mount_children(cont_key, cont_h, r);
                r.show_if_hidden(cont_h);
            },
        }
    }

    /// Mount each child in order into the given container.
    #[verifier::loop_isolation(false)]
    fn mount_children(&self, ck: &WidgetKey, ch: u64, r: &mut Renderer)
        requires
            old(r).wf(),
            CompV::wf_all(self@.children),
            forall|k: KeyV|
                CompV::keys_all(self@.children).contains(k) ==> old(r)@.registered.contains(k.0),
            old(r)@.next + CompV::widget_count_all(self@.children) <= u64::MAX,
        ensures
            final(r).wf(),
            final(r)@ == mount_seq_tr(self@.children, ck@, ch, old(r)@),
        decreases *self, 0int,
    {
        let ghost vs = self@.children;
        let ghost s0 = r@;
        proof {
            Component::lemma_views_of(self.children@);
            CompV::lemma_wf_all(vs);
            CompV::lemma_keys_all_index(vs);
        }
        let mut i: usize = 0;
        while i < self.children.len()
            invariant
                0 <= i <= self.children.len(),
                r.wf(),
                r@ == mount_seq_tr(vs.take(i as int), ck@, ch, s0),
                r@.registered == s0.registered,
                r@.next <= s0.next + CompV::widget_count_all(vs.take(i as int)),
            decreases self.children.len() - i,
        {
            let ghost s_pre = r@;
            let child = &self.children[i];
            proof {
                assert(child@ == vs[i as int]);
                assert(decreases_to!(*self => self.children@[i as int]));
                CompV::lemma_count_take_step(vs, i as int);
                CompV::lemma_count_split(vs, i as int + 1);
                assert forall|k: KeyV| child@.keys().contains(k) implies r@.registered.contains(
                    k.0,
                ) by {
                    assert(CompV::keys_all(vs).contains(k));
                }
            }
            child.add_or_show_widgets(ck, ch, r);
            proof {
                assert(vs.take(i as int + 1).drop_last() =~= vs.take(i as int));
                assert(vs.take(i as int + 1).last() == vs[i as int]);
                lemma_mount_frame(vs[i as int], ck@, ch, s_pre);
            }
            i += 1;
        }
        proof {
            assert(vs.take(self.children.len() as int) =~= vs);
        }
    }

    /// Reconcile this tree against the previously retained tree, if any, in
    /// the native container named by `container_id`: a fresh mount when there
    /// is no previous tree, otherwise the keyed diff of the two trees. All
    /// attach, detach and visibility changes happen inline, recorded in the
    /// renderer's operation log.
    pub fn render_diff(
        &self,
        comp_old: Option<&Component>,
        container_id: &WidgetKey,
        r: &mut Renderer,
    )
        requires
            old(r).wf(),
            self@.wf(),
            self@.tags_ok(old(r)@.registered),
            old(r)@.cache.contains_key(container_id@),
            match comp_old {
                Some(o) => o@.wf() && old(r)@.next + diff_budget(self@, o@) <= u64::MAX,
                None => old(r)@.next + self@.widget_count() <= u64::MAX,
            },
        ensures
            final(r).wf(),
            final(r)@ == match comp_old {
                Some(o) => diff_tr(self@, o@, container_id@, old(r)@.cache[container_id@], old(r)@),
                None => mount_tr(self@, container_id@, old(r)@.cache[container_id@], old(r)@),
            },
    {
        let ch = r.lookup(container_id).unwrap();
        match comp_old {
            Some(o) => self.diff_against(o, container_id, ch, r),
            None => self.add_or_show_widgets(container_id, ch, r),
        }
    }

    /// Reconcile this (new) tree against the previous tree `comp_old` in the
    /// container `cont_h` (whose key is `cont_key`).
    fn diff_against(&self, comp_old: &Component, cont_key: &WidgetKey, cont_h: u64, r: &mut Renderer)
        requires
            old(r).wf(),
            self@.wf(),
            comp_old@.wf(),
            self@.tags_ok(old(r)@.registered),
            old(r)@.next + diff_budget(self@, comp_old@) <= u64::MAX,
        ensures
            final(r).wf(),
            final(r)@ == diff_tr(self@, comp_old@, cont_key@, cont_h, old(r)@),
        decreases *comp_old, 2int,
    {
        let ghost s_init = r@;
        if !self.id.id_eq(&comp_old.id) {
            comp_old.remove_highest_widgets(cont_h, r);
            proof {
                lemma_unmount_frame(comp_old@, cont_h, s_init);
            }
            self.add_or_show_widgets(cont_key, cont_h, r);
        } else {
            proof {
                assert forall|k: KeyV|
                    CompV::keys_all(self@.children).contains(k) implies r@.registered.contains(
                    k.0,
                ) by {
                    assert(self@.keys().contains(k));
                }
            }
            match &self.id {
                ComponentID::WidgetID(k) => {
                    let nh = match r.lookup(k) {
                        Some(h) => h,
                        None => cont_h,
                    };
                    let ni = self.widget.as_ref().unwrap();
                    let oi = comp_old.widget.as_ref().unwrap();
                    if !ni.info_eq(oi) {
                        r.update(nh, ni);
                    }
                    let ghost s_upd = r@;
                    self.reconcile_old_children(comp_old, k, nh, r);
                    proof {
                        lemma_diff_children_frame(self@.children, comp_old@.children, k@, nh, s_upd);
                    }
                    self.add_new_children(comp_old, k, nh, r);
                },
                ComponentID::NodeID(_) => {
                    let ghost s_upd = r@;
                    self.reconcile_old_children(comp_old, cont_key, cont_h, r);
                    proof {
                        lemma_diff_children_frame(
                            self@.children,
                            comp_old@.children,
                            cont_key@,
                            cont_h,
                            s_upd,
                        );
                    }
                    self.add_new_children(comp_old, cont_key, cont_h, r);
                },
            }
        }
    }

    /// For each old child in order: reconcile the matching new child, or
    /// unmount the old child if its identity is gone from the new children.
    #[verifier::loop_isolation(false)]
    fn reconcile_old_children(&self, comp_old: &Component, ck: &WidgetKey, ch: u64, r: &mut Renderer)
        requires
            old(r).wf(),
            CompV::wf_all(self@.children),
            CompV::wf_all(comp_old@.children),
            forall|k: KeyV|
                CompV::keys_all(self@.children).contains(k) ==> old(r)@.registered.contains(k.0),
            old(r)@.next + diff_budget_children(self@.children, comp_old@.children) <= u64::MAX,
        ensures
            final(r).wf(),
            final(r)@ == diff_children_tr(self@.children, comp_old@.children, ck@, ch, old(r)@),
        decreases *comp_old, 1int,
    {
        let ghost nvs = self@.children;
        let ghost ovs = comp_old@.children;
        let ghost s0 = r@;
        proof {
            Component::lemma_views_of(self.children@);
            Component::lemma_views_of(comp_old.children@);
            CompV::lemma_wf_all(nvs);
            CompV::lemma_wf_all(ovs);
            CompV::lemma_keys_all_index(nvs);
            assert(ovs.take(0) =~= Seq::<CompV>::empty());
        }
        let mut j: usize = 0;
        while j < comp_old.children.len()
            invariant
                0 <= j <= comp_old.children.len(),
                r.wf(),
                r@ == diff_children_tr(nvs, ovs.take(j as int), ck@, ch, s0),
                r@.registered == s0.registered,
                r@.next <= s0.next + diff_budget_children(nvs, ovs.take(j as int)),
            decreases comp_old.children.len() - j,
        {
            let ghost s_pre = r@;
            let oc = &comp_old.children[j];
            proof {
                assert(oc@ == ovs[j as int]);
                assert(decreases_to!(*comp_old => comp_old.children@[j as int]));
                lemma_budget_take_step(nvs, ovs, j as int);
                lemma_budget_split(nvs, ovs, j as int + 1);
            }
            match find_in(&self.children, &oc.id) {
                Some(nc) => {
                    proof {
                        CompV::lemma_find_child(nvs, oc@.id);
                        let i = choose|i: int| 0 <= i < nvs.len() && nvs[i] == nc@;
                        assert(nvs[i].wf());
                        assert forall|k: KeyV| nc@.keys().contains(k) implies r@.registered.contains(
                            k.0,
                        ) by {
                            assert(CompV::keys_all(nvs).contains(k));
                        }
                    }
                    nc.diff_against(oc, ck, ch, r);
                    proof {
                        lemma_diff_frame(nc@, oc@, ck@, ch, s_pre);
                    }
                },
                None => {
                    oc.remove_highest_widgets(ch, r);
                    proof {
                        lemma_unmount_frame(oc@, ch, s_pre);
                    }
                },
            }
            proof {
                assert(ovs.take(j as int + 1).drop_last() =~= ovs.take(j as int));
                assert(ovs.take(j as int + 1).last() == ovs[j as int]);
            }
            j += 1;
        }
        proof {
            assert(ovs.take(comp_old.children.len() as int) =~= ovs);
        }
    }

    /// For each new child in order: mount it fresh if its identity was not
    /// among the old children.
    #[verifier::loop_isolation(false)]
    fn add_new_children(&self, comp_old: &Component, ck: &WidgetKey, ch: u64, r: &mut Renderer)
        requires
            old(r).wf(),
            CompV::wf_all(self@.children),
            forall|k: KeyV|
                CompV::keys_all(self@.children).contains(k) ==> old(r)@.registered.contains(k.0),
            old(r)@.next + CompV::widget_count_all(self@.children) <= u64::MAX,
        ensures
            final(r).wf(),
            final(r)@ == add_new_tr(self@.children, comp_old@.children, ck@, ch, old(r)@),
    {
        let ghost nvs = self@.children;
        let ghost ovs = comp_old@.children;
        let ghost s1 = r@;
        proof {
            Component::lemma_views_of(self.children@);
            Component::lemma_views_of(comp_old.children@);
            CompV::lemma_wf_all(nvs);
            CompV::lemma_keys_all_index(nvs);
            assert(nvs.take(0) =~= Seq::<CompV>::empty());
        }
        let mut i: usize = 0;
        while i < self.children.len()
            invariant
                0 <= i <= self.children.len(),
                r.wf(),
                r@ == add_new_tr(nvs.take(i as int), ovs, ck@, ch, s1),
                r@.registered == s1.registered,
                r@.next <= s1.next + CompV::widget_count_all(nvs.take(i as int)),
            decreases self.children.len() - i,
        {
            let ghost s_pre = r@;
            let nc = &self.children[i];
            proof {
                assert(nc@ == nvs[i as int]);
                CompV::lemma_count_take_step(nvs, i as int);
                CompV::lemma_count_split(nvs, i as int + 1);
            }
            match find_in(&comp_old.children, &nc.id) {
                Some(_) => {},
                None => {
                    proof {
                        assert(nvs[i as int].wf());
                        assert forall|k: KeyV| nc@.keys().contains(k) implies r@.registered.contains(
                            k.0,
                        ) by {
                            assert(CompV::keys_all(nvs).contains(k));
                        }
                    }
                    nc.add_or_show_widgets(ck, ch, r);
                    proof {
                        lemma_mount_frame(nvs[i as int], ck@, ch, s_pre);
                    }
                },
            }
            proof {
                assert(nvs.take(i as int + 1).drop_last() =~= nvs.take(i as int));
                assert(nvs.take(i as int + 1).last() == nvs[i as int]);
            }
            i += 1;
        }
        proof {
            assert(nvs.take(self.children.len() as int) =~= nvs);
        }
    }

    /// Unmount this subtree from the container `cont_h`: detach each widget
    /// attached in this context from its container, recurse below it, and
    /// evict its cache entry, destroying the native widget.
    fn remove_highest_widgets(&self, cont_h: u64, r: &mut Renderer)
        requires
            old(r).wf(),
        ensures
            final(r).wf(),
            final(r)@ == unmount_tr(self@, cont_h, old(r)@),
        decreases *self, 1int,
    {
        match &self.id {
            ComponentID::WidgetID(k) => {
                match r.lookup(k) {
                    Some(h) => {
                        if r.is_attached_to(h, cont_h) {
                            r.detach(h, cont_h);
                            self.unmount_children(h, r);
                            r.evict(k);
                        }
                    },
                    None => {},
                }
            },
            ComponentID::NodeID(_) => {
                self.unmount_children(cont_h, r);
            },
        }
    }

    /// Unmount each child in order from the given container.
    #[verifier::loop_isolation(false)]
    fn unmount_children(&self, ch: u64, r: &mut Renderer)
        requires
            old(r).wf(),
        ensures
            final(r).wf(),
            final(r)@ == unmount_seq_tr(self@.children, ch, old(r)@),
        decreases *self, 0int,
    {
        let ghost vs = self@.children;
        let ghost s0 = r@;
        proof {
            Component::lemma_views_of(self.children@);
        }
        let mut i: usize = 0;
        while i < self.children.len()
            invariant
                0 <= i <= self.children.len(),
                r.wf(),
                r@ == unmount_seq_tr(vs.take(i as int), ch, s0),
            decreases self.children.len() - i,
        {
            let child = &self.children[i];
            proof {
                assert(child@ == vs[i as int]);
                assert(decreases_to!(*self => self.children@[i as int]));
            }
            child.remove_highest_widgets(ch, r);
            proof {
                assert(vs.take(i as int + 1).drop_last() =~= vs.take(i as int));
                assert(vs.take(i as int + 1).last() == vs[i as int]);
            }
            i += 1;
        }
        proof {
            assert(vs.take(self.children.len() as int) =~= vs);
        }
    }
}


/// Idempotent rebuild: reconciling a tree against an identical previous tree
/// performs zero native operations — in particular no attach and no detach —
/// and leaves the renderer state exactly as it was.
pub proof fn lemma_idempotent_rebuild(c: CompV, ck: KeyV, ch: u64, s: RState)
    requires
        c.wf(),
    ensures
        diff_tr(c, c, ck, ch, s) == s,
        diff_tr(c, c, ck, ch, s).ops == s.ops,
    decreases c, 0int,
{
    let nk = match c.id {
        IdV::Widget(k) => k,
        IdV::Group(_) => ck,
    };
    let nh = if c.id is Widget && s.cache.contains_key(nk) {
        s.cache[nk]
    } else {
        ch
    };
    CompV::lemma_wf_all(c.children);
    lemma_idempotent_children(c.children, c.children.len() as int, nk, nh, s);
    assert(c.children.take(c.children.len() as int) =~= c.children);
    lemma_idempotent_add(c.children, c.children.len() as int, nk, nh, s);
}

proof fn lemma_idempotent_children(cs: Seq<CompV>, m: int, ck: KeyV, ch: u64, s: RState)
    requires
        0 <= m <= cs.len(),
        CompV::wf_all(cs),
        forall|i: int, j: int| 0 <= i < j < cs.len() ==> cs[i].id != cs[j].id,
    ensures
        diff_children_tr(cs, cs.take(m), ck, ch, s) == s,
    decreases cs, m,
{
    if m > 0 {
        lemma_idempotent_children(cs, m - 1, ck, ch, s);
        assert(cs.take(m).drop_last() =~= cs.take(m - 1));
        assert(cs.take(m).last() == cs[m - 1]);
        CompV::lemma_find_child_self(cs, m - 1);
        CompV::lemma_wf_all(cs);
        lemma_idempotent_rebuild(cs[m - 1], ck, ch, s);
    }
}

proof fn lemma_idempotent_add(cs: Seq<CompV>, m: int, ck: KeyV, ch: u64, s: RState)
    requires
        0 <= m <= cs.len(),
        forall|i: int, j: int| 0 <= i < j < cs.len() ==> cs[i].id != cs[j].id,
    ensures
        add_new_tr(cs.take(m), cs, ck, ch, s) == s,
    decreases m,
{
    if m > 0 {
        lemma_idempotent_add(cs, m - 1, ck, ch, s);
        assert(cs.take(m).drop_last() =~= cs.take(m - 1));
        assert(cs.take(m).last() == cs[m - 1]);
        CompV::lemma_find_child_self(cs, m - 1);
    }
}


/// In a mounted subtree every key holds a live, attached handle.
proof fn lemma_mounted_keys(c: CompV, ch: u64, s: RState)
    requires
        mounted(c, ch, s),
    ensures
        forall|k: KeyV|
            #[trigger] c.keys().contains(k) ==> s.cache.contains_key(k) && s.parent.contains_key(
                s.cache[k],
            ),
    decreases c,
{
    match c.id {
        IdV::Widget(k) => {
            lemma_mounted_all_keys(c.children, s.cache[k], s);
            assert forall|k2: KeyV| #[trigger] c.keys().contains(k2) implies s.cache.contains_key(
                k2,
            ) && s.parent.contains_key(s.cache[k2]) by {
                if k2 != k {
                    assert(CompV::keys_all(c.children).contains(k2));
                }
            }
        },
        IdV::Group(_) => {
            lemma_mounted_all_keys(c.children, ch, s);
            assert forall|k2: KeyV| #[trigger] c.keys().contains(k2) implies s.cache.contains_key(
                k2,
            ) && s.parent.contains_key(s.cache[k2]) by {
                assert(CompV::keys_all(c.children).contains(k2));
            }
        },
    }
}

proof fn lemma_mounted_all_keys(cs: Seq<CompV>, ch: u64, s: RState)
    requires
        mounted_all(cs, ch, s),
    ensures
        forall|k: KeyV|
            #[trigger] CompV::keys_all(cs).contains(k) ==> s.cache.contains_key(k)
                && s.parent.contains_key(s.cache[k]),
    decreases cs,
{
    if cs.len() > 0 {
        lemma_mounted_all_keys(cs.drop_last(), ch, s);
        lemma_mounted_keys(cs.last(), ch, s);
        assert forall|k: KeyV| #[trigger] CompV::keys_all(cs).contains(k) implies s.cache.contains_key(
            k,
        ) && s.parent.contains_key(s.cache[k]) by {
            assert(CompV::keys_all(cs) == CompV::keys_all(cs.drop_last()).union(cs.last().keys()));
            if !CompV::keys_all(cs.drop_last()).contains(k) {
                assert(cs.last().keys().contains(k));
            }
        }
    }
}

/// Unmounting a fully mounted subtree evicts every one of its keys: nothing
/// of the subtree survives in the cache.
pub proof fn lemma_unmount_complete(c: CompV, ch: u64, s: RState)
    requires
        mounted(c, ch, s),
        c.keys_distinct(),
        s.inv(),
    ensures
        forall|k: KeyV|
            #[trigger] c.keys().contains(k) ==> !unmount_tr(c, ch, s).cache.contains_key(k),
    decreases c,
{
    lemma_mounted_keys(c, ch, s);
    match c.id {
        IdV::Widget(k) => {
            let h = s.cache[k];
            let s1 = s.detach_tr(h, ch);
            assert(c.keys().contains(k));
            assert forall|k2: KeyV| #[trigger] CompV::keys_all(c.children).contains(k2) implies
                s1.cache.contains_key(k2) && s1.cache[k2] == s.cache[k2] && s1.parent.contains_key(
                s.cache[k2],
            ) && s1.parent[s.cache[k2]] == s.parent[s.cache[k2]] by {
                assert(c.keys().contains(k2));
                assert(k2 != k);
                assert(s.cache[k2] != h);
            }
            lemma_mounted_all_stable(c.children, h, s, s1);
            CompV::lemma_keys_distinct_all_index(c.children);
            lemma_unmount_seq_complete(c.children, h, s1);
            let s2 = unmount_seq_tr(c.children, h, s1);
            lemma_unmount_seq_frame(c.children, h, s1);
            let t = unmount_tr(c, ch, s);
            assert(t == s2.evict_tr(k));
            assert forall|k3: KeyV| #[trigger] c.keys().contains(k3) implies !t.cache.contains_key(
                k3,
            ) by {
                if k3 == k {
                } else {
                    assert(CompV::keys_all(c.children).contains(k3));
                    assert(!s2.cache.contains_key(k3));
                }
            }
        },
        IdV::Group(_) => {
            lemma_unmount_seq_complete(c.children, ch, s);
            assert forall|k3: KeyV| #[trigger] c.keys().contains(k3) implies !unmount_tr(
                c,
                ch,
                s,
            ).cache.contains_key(k3) by {
                assert(CompV::keys_all(c.children).contains(k3));
            }
        },
    }
}

proof fn lemma_unmount_seq_complete(cs: Seq<CompV>, ch: u64, s: RState)
    requires
        mounted_all(cs, ch, s),
        CompV::keys_distinct_all(cs),
        s.inv(),
    ensures
        forall|k: KeyV|
            #[trigger] CompV::keys_all(cs).contains(k) ==> !unmount_seq_tr(
                cs,
                ch,
                s,
            ).cache.contains_key(k),
    decreases cs,
{
    if cs.len() > 0 {
        lemma_mounted_all_keys(cs, ch, s);
        lemma_unmount_seq_complete(cs.drop_last(), ch, s);
        lemma_unmount_seq_frame(cs.drop_last(), ch, s);
        let s1 = unmount_seq_tr(cs.drop_last(), ch, s);
        let last = cs.last();
        assert forall|k: KeyV| #[trigger] last.keys().contains(k) implies s1.cache.contains_key(k)
            && s1.cache[k] == s.cache[k] && s1.parent.contains_key(s.cache[k])
            && s1.parent[s.cache[k]] == s.parent[s.cache[k]] by {
            assert(CompV::keys_all(cs).contains(k));
            assert(!CompV::keys_all(cs.drop_last()).contains(k));
            assert(!handles_of(CompV::keys_all(cs.drop_last()), s).contains(s.cache[k])) by {
                if handles_of(CompV::keys_all(cs.drop_last()), s).contains(s.cache[k]) {
                    let k2 = choose|k2: KeyV|
                        #[trigger] CompV::keys_all(cs.drop_last()).contains(k2)
                            && s.cache.contains_key(k2) && s.cache[k2] == s.cache[k];
                    assert(CompV::keys_all(cs).contains(k2));
                    assert(k2 != k);
                }
            };
        }
        lemma_mounted_stable(last, ch, s, s1);
        lemma_unmount_complete(last, ch, s1);
        lemma_unmount_frame(last, ch, s1);
        let t = unmount_seq_tr(cs, ch, s);
        assert(t == unmount_tr(last, ch, s1));
        assert forall|k: KeyV| #[trigger] CompV::keys_all(cs).contains(k) implies !t.cache.contains_key(
            k,
        ) by {
            assert(CompV::keys_all(cs) == CompV::keys_all(cs.drop_last()).union(last.keys()));
            if CompV::keys_all(cs.drop_last()).contains(k) {
                assert(!s1.cache.contains_key(k));
                if t.cache.contains_key(k) {
                    assert(s1.cache.contains_key(k));
                }
            } else {
                assert(last.keys().contains(k));
            }
        }
    }
}

/// Mounting a subtree with distinct keys, none of which is the container's
/// own key, leaves every one of its keys live in the cache.
pub proof fn lemma_mount_covers(c: CompV, ck: KeyV, ch: u64, s: RState)
    requires
        s.next + c.widget_count() <= u64::MAX,
        c.keys_distinct(),
        !c.keys().contains(ck),
    ensures
        forall|k: KeyV|
            #[trigger] c.keys().contains(k) ==> mount_tr(c, ck, ch, s).cache.contains_key(k),
    decreases c,
{
    CompV::lemma_keys_distinct_all_index(c.children);
    match c.id {
        IdV::Widget(k) => {
            assert(c.keys().contains(k));
            assert(k != ck);
            let hs = s.get_or_make_tr(k, c.widget.unwrap());
            let s2 = hs.1.attach_tr(hs.0, ch);
            assert forall|k2: KeyV|
                CompV::keys_all(c.children).contains(k2) implies c.keys().contains(k2) && k2 != k by {}
            lemma_mount_covers_seq(c.children, k, hs.0, s2);
            lemma_mount_seq_frame(c.children, k, hs.0, s2);
            let s3 = mount_seq_tr(c.children, k, hs.0, s2);
            let t = mount_tr(c, ck, ch, s);
            assert(t.cache == s3.cache);
            assert forall|k3: KeyV| #[trigger] c.keys().contains(k3) implies t.cache.contains_key(
                k3,
            ) by {
                if k3 == k {
                    assert(s2.cache.contains_key(k));
                } else {
                    assert(CompV::keys_all(c.children).contains(k3));
                }
            }
        },
        IdV::Group(_) => {
            lemma_mount_covers_seq(c.children, ck, ch, s);
            assert forall|k3: KeyV| #[trigger] c.keys().contains(k3) implies mount_tr(
                c,
                ck,
                ch,
                s,
            ).cache.contains_key(k3) by {
                assert(CompV::keys_all(c.children).contains(k3));
            }
        },
    }
}

proof fn lemma_mount_covers_seq(cs: Seq<CompV>, ck: KeyV, ch: u64, s: RState)
    requires
        s.next + CompV::widget_count_all(cs) <= u64::MAX,
        CompV::keys_distinct_all(cs),
        !CompV::keys_all(cs).contains(ck),
    ensures
        forall|k: KeyV|
            #[trigger] CompV::keys_all(cs).contains(k) ==> mount_seq_tr(
                cs,
                ck,
                ch,
                s,
            ).cache.contains_key(k),
    decreases cs,
{
    if cs.len() > 0 {
        assert forall|k: KeyV|
            CompV::keys_all(cs.drop_last()).contains(k) || cs.last().keys().contains(k)
                implies CompV::keys_all(cs).contains(k) by {}
        lemma_mount_covers_seq(cs.drop_last(), ck, ch, s);
        lemma_mount_seq_frame(cs.drop_last(), ck, ch, s);
        let s1 = mount_seq_tr(cs.drop_last(), ck, ch, s);
        lemma_mount_covers(cs.last(), ck, ch, s1);
        lemma_mount_frame(cs.last(), ck, ch, s1);
        let t = mount_seq_tr(cs, ck, ch, s);
        assert(t == mount_tr(cs.last(), ck, ch, s1));
        assert forall|k: KeyV| #[trigger] CompV::keys_all(cs).contains(k) implies t.cache.contains_key(
            k,
        ) by {
            assert(CompV::keys_all(cs) == CompV::keys_all(cs.drop_last()).union(cs.last().keys()));
            if CompV::keys_all(cs.drop_last()).contains(k) {
                assert(s1.cache.contains_key(k));
            }
        }
    }
}

/// Structural replace: when a node's identity changes, the old subtree is
/// fully unmounted — every key it held is evicted, so none survives unless
/// the new tree mounts it afresh — and the new tree is mounted fresh: every
/// key of the new tree ends live, and a key that was also in the old subtree
/// gets a new handle, never the old one. Mismatched subtrees are never
/// partially patched.
pub proof fn lemma_structural_replace(new: CompV, old: CompV, ck: KeyV, ch: u64, s: RState)
    requires
        new.id != old.id,
        old.keys_distinct(),
        new.keys_distinct(),
        mounted(old, ch, s),
        s.inv(),
        !new.keys().contains(ck),
        s.next + diff_budget(new, old) <= u64::MAX,
    ensures
        forall|k: KeyV|
            old.keys().contains(k) && !new.keys().contains(k) ==> !(#[trigger] diff_tr(
                new,
                old,
                ck,
                ch,
                s,
            ).cache.contains_key(k)),
        forall|k: KeyV|
            #[trigger] new.keys().contains(k) ==> diff_tr(new, old, ck, ch, s).cache.contains_key(k),
        forall|k: KeyV|
            #[trigger] new.keys().contains(k) && old.keys().contains(k) && s.cache.contains_key(k)
                ==> diff_tr(new, old, ck, ch, s).cache[k] != s.cache[k],
    decreases old,
{
    lemma_unmount_complete(old, ch, s);
    lemma_unmount_frame(old, ch, s);
    let s1 = unmount_tr(old, ch, s);
    lemma_mount_covers(new, ck, ch, s1);
    lemma_mount_frame(new, ck, ch, s1);
    let t = diff_tr(new, old, ck, ch, s);
    assert(t == mount_tr(new, ck, ch, s1));
    assert forall|k: KeyV|
        old.keys().contains(k) && !new.keys().contains(k) implies !t.cache.contains_key(k) by {
        assert(!s1.cache.contains_key(k));
    }
    assert forall|k: KeyV|
        #[trigger] new.keys().contains(k) && old.keys().contains(k) && s.cache.contains_key(k)
            implies t.cache.contains_key(k) && t.cache[k] != s.cache[k] by {
        assert(!s1.cache.contains_key(k));
        assert(s.cache[k] < s.next);
        assert(s1.next == s.next);
    }
}


/// The keys of the nodes whose identity is preserved between the two trees:
/// the matched node's own widget key, and recursively the matched keys of
/// children paired by identity.
pub open spec fn matched_keys(new: CompV, old: CompV) -> Set<KeyV>
    decreases old,
{
    if new.id != old.id {
        Set::empty()
    } else {
        let base = match new.id {
            IdV::Widget(k) => Set::<KeyV>::empty().insert(k),
            IdV::Group(_) => Set::<KeyV>::empty(),
        };
        base.union(matched_keys_children(new.children, old.children))
    }
}

pub open spec fn matched_keys_children(news: Seq<CompV>, olds: Seq<CompV>) -> Set<KeyV>
    decreases olds,
{
    if olds.len() == 0 {
        Set::empty()
    } else {
        matched_keys_children(news, olds.drop_last()).union(
            match CompV::find_child(news, olds.last().id) {
                Some(nc) => matched_keys(nc, olds.last()),
                None => Set::empty(),
            },
        )
    }
}

/// The keys of the new children that some old child's identity matches.
pub open spec fn matched_news_keys(news: Seq<CompV>, olds: Seq<CompV>) -> Set<KeyV>
    decreases olds,
{
    if olds.len() == 0 {
        Set::empty()
    } else {
        matched_news_keys(news, olds.drop_last()).union(
            match CompV::find_child(news, olds.last().id) {
                Some(nc) => nc.keys(),
                None => Set::empty(),
            },
        )
    }
}

/// A matched key belongs to both trees.
proof fn lemma_matched_sub(new: CompV, old: CompV)
    ensures
        forall|k: KeyV|
            #[trigger] matched_keys(new, old).contains(k) ==> new.keys().contains(k)
                && old.keys().contains(k),
    decreases old,
{
    if new.id == old.id {
        lemma_matched_sub_children(new.children, old.children);
        assert forall|k: KeyV| #[trigger] matched_keys(new, old).contains(k) implies new.keys().contains(
            k,
        ) && old.keys().contains(k) by {
            if matched_keys_children(new.children, old.children).contains(k) {
                assert(CompV::keys_all(new.children).contains(k));
                assert(CompV::keys_all(old.children).contains(k));
            }
        }
    }
}

proof fn lemma_matched_sub_children(news: Seq<CompV>, olds: Seq<CompV>)
    ensures
        forall|k: KeyV|
            #[trigger] matched_keys_children(news, olds).contains(k) ==> CompV::keys_all(
                news,
            ).contains(k) && CompV::keys_all(olds).contains(k),
    decreases olds,
{
    if olds.len() > 0 {
        lemma_matched_sub_children(news, olds.drop_last());
        let oc = olds.last();
        CompV::lemma_find_child(news, oc.id);
        CompV::lemma_keys_all_index(news);
        CompV::lemma_keys_all_index(olds);
        assert forall|k: KeyV|
            #[trigger] matched_keys_children(news, olds).contains(k) implies CompV::keys_all(
            news,
        ).contains(k) && CompV::keys_all(olds).contains(k) by {
            if matched_keys_children(news, olds.drop_last()).contains(k) {
                assert(CompV::keys_all(olds.drop_last()).contains(k));
                CompV::lemma_keys_all_elem(olds.drop_last());
                let i = choose|i: int|
                    0 <= i < olds.drop_last().len() && #[trigger] olds.drop_last()[i].keys().contains(
                        k,
                    );
                assert(olds[i].keys().contains(k));
            } else {
                match CompV::find_child(news, oc.id) {
                    Some(nc) => {
                        lemma_matched_sub(nc, oc);
                        assert(matched_keys(nc, oc).contains(k));
                        assert(nc.keys().contains(k) && oc.keys().contains(k));
                        let i = choose|i: int| 0 <= i < news.len() && news[i] == nc;
                        assert(news[i].keys().contains(k));
                        assert(olds[olds.len() - 1].keys().contains(k));
                    },
                    None => {},
                }
            }
        }
    }
}

/// A matched new-side key comes from some matched new child.
proof fn lemma_matched_news_elem(news: Seq<CompV>, olds: Seq<CompV>)
    ensures
        forall|k: KeyV|
            #[trigger] matched_news_keys(news, olds).contains(k) ==> exists|i: int|
                0 <= i < olds.len() && CompV::find_child(news, #[trigger] olds[i].id) is Some
                    && CompV::find_child(news, olds[i].id).unwrap().keys().contains(k),
    decreases olds,
{
    if olds.len() > 0 {
        lemma_matched_news_elem(news, olds.drop_last());
        assert forall|k: KeyV|
            #[trigger] matched_news_keys(news, olds).contains(k) implies exists|i: int|
                0 <= i < olds.len() && CompV::find_child(news, #[trigger] olds[i].id) is Some
                    && CompV::find_child(news, olds[i].id).unwrap().keys().contains(k) by {
            if matched_news_keys(news, olds.drop_last()).contains(k) {
                let i = choose|i: int|
                    0 <= i < olds.drop_last().len() && CompV::find_child(
                        news,
                        #[trigger] olds.drop_last()[i].id,
                    ) is Some && CompV::find_child(news, olds.drop_last()[i].id).unwrap().keys().contains(
                        k,
                    );
                assert(olds[i].id == olds.drop_last()[i].id);
            } else {
                assert(olds[olds.len() - 1].id == olds.last().id);
            }
        }
    }
}

/// Two children found under distinct identities have disjoint keys, when the
/// children's keys are distinct.
proof fn lemma_find_disjoint(news: Seq<CompV>, id1: IdV, id2: IdV)
    requires
        CompV::keys_distinct_all(news),
        id1 != id2,
        CompV::find_child(news, id1) is Some,
        CompV::find_child(news, id2) is Some,
    ensures
        forall|k: KeyV|
            #[trigger] CompV::find_child(news, id1).unwrap().keys().contains(k)
                ==> !CompV::find_child(news, id2).unwrap().keys().contains(k),
{
    CompV::lemma_find_child(news, id1);
    CompV::lemma_find_child(news, id2);
    CompV::lemma_keys_distinct_all_index(news);
    let n1 = CompV::find_child(news, id1).unwrap();
    let n2 = CompV::find_child(news, id2).unwrap();
    let i = choose|i: int| 0 <= i < news.len() && news[i] == n1;
    let j = choose|j: int| 0 <= j < news.len() && news[j] == n2;
    assert(i != j);
}

/// Identity stability: every node whose key is unchanged across the rebuild
/// — matched by identity at its position — keeps the very handle it had
/// before. The native widget is reused, never rebuilt, even when its
/// descriptor changed: a changed descriptor is applied in place.
pub proof fn lemma_identity_stability(new: CompV, old: CompV, ck: KeyV, ch: u64, s: RState)
    requires
        new.wf(),
        old.wf(),
        new.keys_distinct(),
        old.keys_distinct(),
        forall|k: KeyV| old.keys().contains(k) ==> s.cache.contains_key(k),
        s.next + diff_budget(new, old) <= u64::MAX,
    ensures
        forall|k: KeyV|
            #[trigger] matched_keys(new, old).contains(k) ==> diff_tr(
                new,
                old,
                ck,
                ch,
                s,
            ).cache.contains_key(k) && diff_tr(new, old, ck, ch, s).cache[k] == s.cache[k],
    decreases old,
{
    if new.id == old.id {
        let nk = match new.id {
            IdV::Widget(k) => k,
            IdV::Group(_) => ck,
        };
        let nh = if new.id is Widget && s.cache.contains_key(nk) {
            s.cache[nk]
        } else {
            ch
        };
        let s0 = if new.id is Widget && new.widget != old.widget {
            s.update_tr(nh, new.widget.unwrap())
        } else {
            s
        };
        assert(s0.cache == s.cache && s0.next == s.next);
        CompV::lemma_keys_all_index(old.children);
        assert forall|k: KeyV|
            CompV::keys_all(old.children).contains(k) implies s0.cache.contains_key(k) by {
            assert(old.keys().contains(k));
        }
        lemma_stability_children(new.children, old.children, nk, nh, s0);
        let s1 = diff_children_tr(new.children, old.children, nk, nh, s0);
        lemma_diff_children_frame(new.children, old.children, nk, nh, s0);
        lemma_add_new_frame(new.children, old.children, nk, nh, s1);
        let t = diff_tr(new, old, ck, ch, s);
        lemma_matched_sub_children(new.children, old.children);
        assert forall|k: KeyV| #[trigger] matched_keys(new, old).contains(k) implies t.cache.contains_key(
            k,
        ) && t.cache[k] == s.cache[k] by {
            if new.id is Widget && k == nk {
                assert(old.keys().contains(nk));
                assert(!CompV::keys_all(old.children).contains(nk));
                assert(!CompV::keys_all(new.children).contains(nk));
                assert(!matched_news_keys(new.children, old.children).contains(nk)) by {
                    if matched_news_keys(new.children, old.children).contains(nk) {
                        lemma_matched_news_elem(new.children, old.children);
                        let i = choose|i: int|
                            0 <= i < old.children.len() && CompV::find_child(
                                new.children,
                                #[trigger] old.children[i].id,
                            ) is Some && CompV::find_child(
                                new.children,
                                old.children[i].id,
                            ).unwrap().keys().contains(nk);
                        CompV::lemma_find_child(new.children, old.children[i].id);
                        let nc = CompV::find_child(new.children, old.children[i].id).unwrap();
                        let x = choose|x: int| 0 <= x < new.children.len() && new.children[x] == nc;
                        CompV::lemma_keys_all_index(new.children);
                        assert(CompV::keys_all(new.children).contains(nk));
                    }
                };
                assert(s1.cache.contains_key(k) && s1.cache[k] == s0.cache[k]);
            } else {
                assert(matched_keys_children(new.children, old.children).contains(k));
                assert(s1.cache.contains_key(k) && s1.cache[k] == s.cache[k]);
            }
        }
    }
}

/// Stability of the matched children, together with the fine frame: a key
/// outside the old children and outside the matched new children keeps its
/// handle through the per-child reconciliation pass.
proof fn lemma_matched_children_elem(news: Seq<CompV>, olds: Seq<CompV>)
    ensures
        forall|k: KeyV|
            #[trigger] matched_keys_children(news, olds).contains(k) ==> exists|i: int|
                0 <= i < olds.len() && CompV::find_child(news, #[trigger] olds[i].id) is Some
                    && matched_keys(
                    CompV::find_child(news, olds[i].id).unwrap(),
                    olds[i],
                ).contains(k),
    decreases olds,
{
    if olds.len() > 0 {
        lemma_matched_children_elem(news, olds.drop_last());
        assert forall|k: KeyV|
            #[trigger] matched_keys_children(news, olds).contains(k) implies exists|i: int|
                0 <= i < olds.len() && CompV::find_child(news, #[trigger] olds[i].id) is Some
                    && matched_keys(
                    CompV::find_child(news, olds[i].id).unwrap(),
                    olds[i],
                ).contains(k) by {
            if matched_keys_children(news, olds.drop_last()).contains(k) {
                let i = choose|i: int|
                    0 <= i < olds.drop_last().len() && CompV::find_child(
                        news,
                        #[trigger] olds.drop_last()[i].id,
                    ) is Some && matched_keys(
                        CompV::find_child(news, olds.drop_last()[i].id).unwrap(),
                        olds.drop_last()[i],
                    ).contains(k);
                assert(olds[i] == olds.drop_last()[i]);
            } else {
                assert(olds[olds.len() - 1] == olds.last());
            }
        }
    }
}

/// Stability of the matched children, together with the fine frame: a key
/// outside the old children and outside the matched new children keeps its
/// handle through the per-child reconciliation pass.
proof fn lemma_stability_children(news: Seq<CompV>, olds: Seq<CompV>, ck: KeyV, ch: u64, s: RState)
    requires
        CompV::wf_all(news),
        CompV::wf_all(olds),
        forall|i: int, j: int| 0 <= i < j < olds.len() ==> olds[i].id != olds[j].id,
        CompV::keys_distinct_all(news),
        CompV::keys_distinct_all(olds),
        forall|k: KeyV| CompV::keys_all(olds).contains(k) ==> s.cache.contains_key(k),
        s.next + diff_budget_children(news, olds) <= u64::MAX,
    ensures
        forall|k: KeyV|
            #[trigger] matched_keys_children(news, olds).contains(k) ==> diff_children_tr(
                news,
                olds,
                ck,
                ch,
                s,
            ).cache.contains_key(k) && diff_children_tr(news, olds, ck, ch, s).cache[k]
                == s.cache[k],
        forall|k: KeyV|
            s.cache.contains_key(k) && !CompV::keys_all(olds).contains(k) && !matched_news_keys(
                news,
                olds,
            ).contains(k) ==> #[trigger] diff_children_tr(news, olds, ck, ch, s).cache.contains_key(
                k,
            ) && diff_children_tr(news, olds, ck, ch, s).cache[k] == s.cache[k],
    decreases olds,
{
    if olds.len() > 0 {
        let pre = olds.drop_last();
        let oc = olds.last();
        assert(forall|i: int| 0 <= i < pre.len() ==> pre[i] == olds[i]);
        CompV::lemma_keys_all_index(olds);
        CompV::lemma_keys_distinct_all_index(olds);
        CompV::lemma_wf_all(olds);
        CompV::lemma_keys_all_elem(pre);
        assert forall|k: KeyV| CompV::keys_all(pre).contains(k) implies s.cache.contains_key(k) by {
            let i = choose|i: int| 0 <= i < pre.len() && #[trigger] pre[i].keys().contains(k);
            assert(olds[i].keys().contains(k));
            assert(CompV::keys_all(olds).contains(k));
        }
        lemma_stability_children(news, pre, ck, ch, s);
        lemma_diff_children_frame(news, pre, ck, ch, s);
        let s1 = diff_children_tr(news, pre, ck, ch, s);
        let t = diff_children_tr(news, olds, ck, ch, s);
        CompV::lemma_find_child(news, oc.id);
        lemma_matched_children_elem(news, pre);
        lemma_matched_news_elem(news, pre);
        match CompV::find_child(news, oc.id) {
            Some(nc) => {
                assert(t == diff_tr(nc, oc, ck, ch, s1));
                let ni = choose|ni: int| 0 <= ni < news.len() && news[ni] == nc;
                CompV::lemma_wf_all(news);
                CompV::lemma_keys_distinct_all_index(news);
                assert(nc.wf() && nc.keys_distinct()) by {
                    assert(news[ni].wf() && news[ni].keys_distinct());
                }
                assert(oc.wf() && oc.keys_distinct()) by {
                    assert(olds[olds.len() - 1].wf());
                }
                // every key of the last old child survives the prefix pass
                assert forall|k: KeyV| #[trigger] oc.keys().contains(k) implies s1.cache.contains_key(
                    k,
                ) by {
                    assert(olds[olds.len() - 1].keys().contains(k));
                    assert(CompV::keys_all(olds).contains(k));
                    assert(!CompV::keys_all(pre).contains(k)) by {
                        if CompV::keys_all(pre).contains(k) {
                            let i = choose|i: int|
                                0 <= i < pre.len() && #[trigger] pre[i].keys().contains(k);
                            assert(olds[i].keys().contains(k));
                        }
                    };
                }
                lemma_budget_drop_first(news, olds);
                lemma_identity_stability(nc, oc, ck, ch, s1);
                lemma_diff_frame(nc, oc, ck, ch, s1);
                lemma_matched_sub(nc, oc);
                // keys of the matched pair kept their old values through the prefix
                assert forall|k: KeyV|
                    #[trigger] matched_keys(nc, oc).contains(k) implies s1.cache.contains_key(k)
                        && s1.cache[k] == s.cache[k] by {
                    assert(nc.keys().contains(k) && oc.keys().contains(k));
                    assert(olds[olds.len() - 1].keys().contains(k));
                    assert(CompV::keys_all(olds).contains(k));
                    assert(!CompV::keys_all(pre).contains(k)) by {
                        if CompV::keys_all(pre).contains(k) {
                            let i = choose|i: int|
                                0 <= i < pre.len() && #[trigger] pre[i].keys().contains(k);
                            assert(olds[i].keys().contains(k));
                        }
                    };
                    assert(!matched_news_keys(news, pre).contains(k)) by {
                        if matched_news_keys(news, pre).contains(k) {
                            let i = choose|i: int|
                                0 <= i < pre.len() && CompV::find_child(
                                    news,
                                    #[trigger] pre[i].id,
                                ) is Some && CompV::find_child(news, pre[i].id).unwrap().keys().contains(
                                    k,
                                );
                            assert(pre[i].id == olds[i].id);
                            assert(olds[i].id != oc.id);
                            lemma_find_disjoint(news, pre[i].id, oc.id);
                        }
                    };
                }
                // conjunct one: matched keys of the whole list
                assert forall|k: KeyV|
                    #[trigger] matched_keys_children(news, olds).contains(k) implies t.cache.contains_key(
                    k,
                ) && t.cache[k] == s.cache[k] by {
                    if matched_keys(nc, oc).contains(k) {
                        assert(t.cache.contains_key(k) && t.cache[k] == s1.cache[k]);
                    } else {
                        assert(matched_keys_children(news, pre).contains(k));
                        assert(s1.cache.contains_key(k) && s1.cache[k] == s.cache[k]);
                        let i = choose|i: int|
                            0 <= i < pre.len() && CompV::find_child(news, #[trigger] pre[i].id) is Some
                                && matched_keys(
                                CompV::find_child(news, pre[i].id).unwrap(),
                                pre[i],
                            ).contains(k);
                        let nci = CompV::find_child(news, pre[i].id).unwrap();
                        lemma_matched_sub(nci, pre[i]);
                        assert(nci.keys().contains(k) && pre[i].keys().contains(k));
                        assert(!oc.keys().contains(k)) by {
                            assert(olds[i].keys().contains(k));
                            assert(!olds[olds.len() - 1].keys().contains(k));
                        };
                        assert(!nc.keys().contains(k)) by {
                            assert(pre[i].id != oc.id);
                            lemma_find_disjoint(news, pre[i].id, oc.id);
                        };
                    }
                }
                // conjunct two: the fine frame
                assert forall|k: KeyV|
                    s.cache.contains_key(k) && !CompV::keys_all(olds).contains(k)
                        && !matched_news_keys(news, olds).contains(k) implies t.cache.contains_key(k)
                        && t.cache[k] == s.cache[k] by {
                    assert(!CompV::keys_all(pre).contains(k)) by {
                        if CompV::keys_all(pre).contains(k) {
                            let i = choose|i: int|
                                0 <= i < pre.len() && #[trigger] pre[i].keys().contains(k);
                            assert(olds[i].keys().contains(k));
                        }
                    };
                    assert(!matched_news_keys(news, pre).contains(k));
                    assert(!oc.keys().contains(k)) by {
                        assert(olds[olds.len() - 1] == oc);
                        if oc.keys().contains(k) {
                            assert(olds[olds.len() - 1].keys().contains(k));
                        }
                    };
                    assert(!nc.keys().contains(k));
                    assert(s1.cache.contains_key(k) && s1.cache[k] == s.cache[k]);
                }
            },
            None => {
                assert(t == unmount_tr(oc, ch, s1));
                lemma_unmount_frame(oc, ch, s1);
                assert forall|k: KeyV|
                    #[trigger] matched_keys_children(news, olds).contains(k) implies t.cache.contains_key(
                    k,
                ) && t.cache[k] == s.cache[k] by {
                    assert(matched_keys_children(news, pre).contains(k));
                    assert(s1.cache.contains_key(k) && s1.cache[k] == s.cache[k]);
                    let i = choose|i: int|
                        0 <= i < pre.len() && CompV::find_child(news, #[trigger] pre[i].id) is Some
                            && matched_keys(
                            CompV::find_child(news, pre[i].id).unwrap(),
                            pre[i],
                        ).contains(k);
                    lemma_matched_sub(CompV::find_child(news, pre[i].id).unwrap(), pre[i]);
                    assert(pre[i].keys().contains(k));
                    assert(!oc.keys().contains(k)) by {
                        assert(olds[i].keys().contains(k));
                        assert(!olds[olds.len() - 1].keys().contains(k));
                    };
                }
                assert forall|k: KeyV|
                    s.cache.contains_key(k) && !CompV::keys_all(olds).contains(k)
                        && !matched_news_keys(news, olds).contains(k) implies t.cache.contains_key(k)
                        && t.cache[k] == s.cache[k] by {
                    assert(!CompV::keys_all(pre).contains(k)) by {
                        if CompV::keys_all(pre).contains(k) {
                            let i = choose|i: int|
                                0 <= i < pre.len() && #[trigger] pre[i].keys().contains(k);
                            assert(olds[i].keys().contains(k));
                        }
                    };
                    assert(!matched_news_keys(news, pre).contains(k));
                    assert(!oc.keys().contains(k)) by {
                        if oc.keys().contains(k) {
                            assert(olds[olds.len() - 1].keys().contains(k));
                        }
                    };
                    assert(s1.cache.contains_key(k) && s1.cache[k] == s.cache[k]);
                }
            },
        }
    }
}

} // verus!