//! The virtual component tree: an immutable description of the desired UI
//! structure for one rebuild cycle. A node is either widget-bearing (it has a
//! descriptor and a `WidgetKey`) or a pure structural grouping. Child order is
//! layout order; children are looked up by identity, not position.

use vstd::prelude::*;

use crate::ewidget::{CallbackId, EWidget, KeyV, ToKey, WidgetKey};

verus! {

/// Mathematical value of a `ComponentID`.
#[verifier::ext_equal]
pub enum IdV {
    Widget(KeyV),
    Group(Seq<char>),
}

/// A tagged identity: a widget-bearing node is identified by its `WidgetKey`,
/// a structural grouping by a name.
#[derive(Debug)]
pub enum ComponentID {
    WidgetID(WidgetKey),
    NodeID(String),
}

impl View for ComponentID {
    type V = IdV;

    open spec fn view(&self) -> IdV {
        match self {
            ComponentID::WidgetID(k) => IdV::Widget(k@),
            ComponentID::NodeID(s) => IdV::Group(s@),
        }
    }
}

impl Clone for ComponentID {
    fn clone(&self) -> (res: Self)
        ensures
            res@ == self@,
    {
        match self {
            ComponentID::WidgetID(k) => ComponentID::WidgetID(k.clone()),
            ComponentID::NodeID(s) => ComponentID::NodeID(s.clone()),
        }
    }
}

impl ComponentID {
    /// Whether two identities are the same.
    pub fn id_eq(&self, other: &ComponentID) -> (r: bool)
        ensures
            r == (self@ == other@),
    {
        match (self, other) {
            (ComponentID::WidgetID(a), ComponentID::WidgetID(b)) => a.key_eq(b),
            (ComponentID::NodeID(a), ComponentID::NodeID(b)) => *a == *b,
            _ => false,
        }
    }
}

/// Mathematical value of a `WidgetInfo`.
#[verifier::ext_equal]
pub struct InfoV {
    pub attrs: Seq<(Seq<char>, Seq<char>)>,
    pub callbacks: Seq<(Seq<char>, CallbackId)>,
}

/// The descriptor of a widget-bearing node: string-keyed attributes plus
/// named callback bindings.
#[derive(Debug)]
pub struct WidgetInfo {
    pub attributes: Vec<(String, String)>,
    pub callbacks: Vec<(String, CallbackId)>,
}

/// Mathematical value of an attribute list.
pub open spec fn attrs_view(s: Seq<(String, String)>) -> Seq<(Seq<char>, Seq<char>)> {
    Seq::new(s.len(), |i: int| (s[i].0@, s[i].1@))
}

/// Mathematical value of a callback list.
pub open spec fn callbacks_view(s: Seq<(String, CallbackId)>) -> Seq<(Seq<char>, CallbackId)> {
    Seq::new(s.len(), |i: int| (s[i].0@, s[i].1))
}

impl View for WidgetInfo {
    type V = InfoV;

    open spec fn view(&self) -> InfoV {
        InfoV { attrs: attrs_view(self.attributes@), callbacks: callbacks_view(self.callbacks@) }
    }
}

impl Clone for WidgetInfo {
    #[verifier::loop_isolation(false)]
    fn clone(&self) -> (res: Self)
        ensures
            res@ == self@,
    {
        let mut attributes: Vec<(String, String)> = Vec::new();
        let mut i: usize = 0;
        while i < self.attributes.len()
            invariant
                0 <= i <= self.attributes.len(),
                attributes@.len() == i,
                forall|j: int|
                    0 <= j < i ==> attributes@[j].0@ == self.attributes@[j].0@
                        && attributes@[j].1@ == self.attributes@[j].1@,
            decreases self.attributes.len() - i,
        {
            let p = &self.attributes[i];
            attributes.push((p.0.clone(), p.1.clone()));
            i += 1;
        }
        let mut callbacks: Vec<(String, CallbackId)> = Vec::new();
        let mut j: usize = 0;
        while j < self.callbacks.len()
            invariant
                0 <= j <= self.callbacks.len(),
                callbacks@.len() == j,
                forall|l: int|
                    0 <= l < j ==> callbacks@[l].0@ == self.callbacks@[l].0@
                        && callbacks@[l].1 == self.callbacks@[l].1,
            decreases self.callbacks.len() - j,
        {
            let p = &self.callbacks[j];
            callbacks.push((p.0.clone(), p.1));
            j += 1;
        }
        let res = WidgetInfo { attributes, callbacks };
        proof {
            assert(res@.attrs =~= self@.attrs);
            assert(res@.callbacks =~= self@.callbacks);
        }
        res
    }
}

impl WidgetInfo {
    pub fn new() -> (w: WidgetInfo)
        ensures
            w@ == (InfoV { attrs: Seq::empty(), callbacks: Seq::empty() }),
    {
        let w = WidgetInfo { attributes: Vec::new(), callbacks: Vec::new() };
        proof {
            assert(w@.attrs =~= Seq::<(Seq<char>, Seq<char>)>::empty());
            assert(w@.callbacks =~= Seq::<(Seq<char>, CallbackId)>::empty());
        }
        w
    }

    /// Whether two descriptors have the same mathematical value.
    #[verifier::loop_isolation(false)]
    pub fn info_eq(&self, other: &WidgetInfo) -> (r: bool)
        ensures
            r == (self@ == other@),
    {
        if self.attributes.len() != other.attributes.len() {
            proof {
                assert(self@.attrs.len() != other@.attrs.len());
            }
            return false;
        }
        if self.callbacks.len() != other.callbacks.len() {
            proof {
                assert(self@.callbacks.len() != other@.callbacks.len());
            }
            return false;
        }
        let mut i: usize = 0;
        while i < self.attributes.len()
            invariant
                0 <= i <= self.attributes.len(),
                forall|j: int| 0 <= j < i ==> self@.attrs[j] == other@.attrs[j],
            decreases self.attributes.len() - i,
        {
            let a = &self.attributes[i];
            let b = &other.attributes[i];
            if !(a.0 == b.0) || !(a.1 == b.1) {
                proof {
                    assert(self@.attrs[i as int] != other@.attrs[i as int]);
                }
                return false;
            }
            i += 1;
        }
        let mut j: usize = 0;
        while j < self.callbacks.len()
            invariant
                0 <= j <= self.callbacks.len(),
                forall|l: int| 0 <= l < j ==> self@.callbacks[l] == other@.callbacks[l],
            decreases self.callbacks.len() - j,
        {
            let a = &self.callbacks[j];
            let b = &other.callbacks[j];
            if !(a.0 == b.0) || !(a.1 == b.1) {
                proof {
                    assert(self@.callbacks[j as int] != other@.callbacks[j as int]);
                }
                return false;
            }
            j += 1;
        }
        proof {
            assert(self@.attrs =~= other@.attrs);
            assert(self@.callbacks =~= other@.callbacks);
        }
        true
    }
}

/// Mathematical value of a component tree.
#[verifier::ext_equal]
pub struct CompV {
    pub id: IdV,
    pub widget: Option<InfoV>,
    pub children: Seq<CompV>,
}

impl CompV {
    /// Structural well-formedness: the descriptor is present exactly on
    /// widget-bearing nodes, and child identities are distinct at each node.
    pub open spec fn wf(self) -> bool
        decreases self,
    {
        &&& (self.id is Widget <==> self.widget is Some)
        &&& (forall|i: int, j: int|
            0 <= i < j < self.children.len() ==> self.children[i].id != self.children[j].id)
        &&& Self::wf_all(self.children)
    }

    pub open spec fn wf_all(cs: Seq<CompV>) -> bool
        decreases cs,
    {
        cs.len() == 0 || (Self::wf_all(cs.drop_last()) && cs.last().wf())
    }

    pub proof fn lemma_wf_all(cs: Seq<CompV>)
        requires
            Self::wf_all(cs),
        ensures
            forall|i: int| 0 <= i < cs.len() ==> #[trigger] cs[i].wf(),
        decreases cs,
    {
        if cs.len() > 0 {
            Self::lemma_wf_all(cs.drop_last());
            assert(forall|i: int| 0 <= i < cs.len() - 1 ==> cs[i] == cs.drop_last()[i]);
        }
    }

    /// All widget keys occurring in the tree.
    pub open spec fn keys(self) -> Set<KeyV>
        decreases self,
    {
        let base = match self.id {
            IdV::Widget(k) => Set::<KeyV>::empty().insert(k),
            IdV::Group(_) => Set::<KeyV>::empty(),
        };
        base.union(Self::keys_all(self.children))
    }

    pub open spec fn keys_all(cs: Seq<CompV>) -> Set<KeyV>
        decreases cs,
    {
        if cs.len() == 0 {
            Set::empty()
        } else {
            Self::keys_all(cs.drop_last()).union(cs.last().keys())
        }
    }

    /// The number of widget-bearing nodes in the tree.
    pub open spec fn widget_count(self) -> nat
        decreases self,
    {
        let own: nat = if self.id is Widget { 1 } else { 0 };
        own + Self::widget_count_all(self.children)
    }

    pub open spec fn widget_count_all(cs: Seq<CompV>) -> nat
        decreases cs,
    {
        if cs.len() == 0 {
            0
        } else {
            Self::widget_count_all(cs.drop_last()) + cs.last().widget_count()
        }
    }

    /// No widget key occurs twice anywhere in the tree: one logical widget
    /// per key.
    pub open spec fn keys_distinct(self) -> bool
        decreases self,
    {
        &&& Self::keys_distinct_all(self.children)
        &&& match self.id {
            IdV::Widget(k) => !Self::keys_all(self.children).contains(k),
            IdV::Group(_) => true,
        }
    }

    pub open spec fn keys_distinct_all(cs: Seq<CompV>) -> bool
        decreases cs,
    {
        cs.len() == 0 || {
            &&& Self::keys_distinct_all(cs.drop_last())
            &&& cs.last().keys_distinct()
            &&& cs.last().keys().disjoint(Self::keys_all(cs.drop_last()))
        }
    }

    /// Every widget class used in the tree has a registered factory.
    pub open spec fn tags_ok(self, reg: Set<EWidget>) -> bool {
        forall|k: KeyV| self.keys().contains(k) ==> reg.contains(k.0)
    }

    /// The first child with this identity, if any. Children are looked up by
    /// identity, never by position.
    pub open spec fn find_child(cs: Seq<CompV>, id: IdV) -> Option<CompV>
        decreases cs,
    {
        if cs.len() == 0 {
            None
        } else if cs.first().id == id {
            Some(cs.first())
        } else {
            Self::find_child(cs.drop_first(), id)
        }
    }

    pub proof fn lemma_find_child(cs: Seq<CompV>, id: IdV)
        ensures
            match Self::find_child(cs, id) {
                Some(c) => c.id == id && exists|i: int| 0 <= i < cs.len() && cs[i] == c,
                None => forall|i: int| 0 <= i < cs.len() ==> cs[i].id != id,
            },
        decreases cs,
    {
        if cs.len() > 0 && cs.first().id != id {
            Self::lemma_find_child(cs.drop_first(), id);
            match Self::find_child(cs.drop_first(), id) {
                Some(c) => {
                    let i = choose|i: int| 0 <= i < cs.drop_first().len() && cs.drop_first()[i] == c;
                    assert(cs[i + 1] == c);
                },
                None => {
                    assert forall|i: int| 0 <= i < cs.len() implies cs[i].id != id by {
                        if i > 0 {
                            assert(cs.drop_first()[i - 1] == cs[i]);
                        }
                    }
                },
            }
        }
    }

    /// In a sequence of children with distinct identities, looking a child's
    /// own identity up finds that child.
    pub proof fn lemma_find_child_self(cs: Seq<CompV>, i: int)
        requires
            forall|i1: int, j1: int| 0 <= i1 < j1 < cs.len() ==> cs[i1].id != cs[j1].id,
            0 <= i < cs.len(),
        ensures
            Self::find_child(cs, cs[i].id) == Some(cs[i]),
        decreases cs,
    {
        if i > 0 {
            assert(cs.first().id != cs[i].id);
            assert(cs.drop_first()[i - 1] == cs[i]);
            assert(forall|i1: int, j1: int|
                0 <= i1 < j1 < cs.drop_first().len() ==> cs.drop_first()[i1].id != cs.drop_first()[j1].id);
            Self::lemma_find_child_self(cs.drop_first(), i - 1);
        }
    }

    /// Each child's keys are among the keys of the sequence.
    pub proof fn lemma_keys_all_index(cs: Seq<CompV>)
        ensures
            forall|i: int, k: KeyV|
                0 <= i < cs.len() && #[trigger] cs[i].keys().contains(k) ==> Self::keys_all(
                    cs,
                ).contains(k),
        decreases cs,
    {
        if cs.len() > 0 {
            Self::lemma_keys_all_index(cs.drop_last());
            assert forall|i: int, k: KeyV|
                0 <= i < cs.len() && #[trigger] cs[i].keys().contains(k) implies Self::keys_all(
                cs,
            ).contains(k) by {
                if i < cs.len() - 1 {
                    assert(cs.drop_last()[i] == cs[i]);
                    assert(Self::keys_all(cs.drop_last()).contains(k));
                }
            }
        }
    }

    /// Every key in a sequence's keys comes from some child.
    pub proof fn lemma_keys_all_elem(cs: Seq<CompV>)
        ensures
            forall|k: KeyV|
                #[trigger] Self::keys_all(cs).contains(k) ==> exists|i: int|
                    0 <= i < cs.len() && #[trigger] cs[i].keys().contains(k),
        decreases cs,
    {
        if cs.len() > 0 {
            Self::lemma_keys_all_elem(cs.drop_last());
            assert forall|k: KeyV| #[trigger] Self::keys_all(cs).contains(k) implies exists|i: int|
                0 <= i < cs.len() && #[trigger] cs[i].keys().contains(k) by {
                if Self::keys_all(cs.drop_last()).contains(k) {
                    let i = choose|i: int|
                        0 <= i < cs.drop_last().len() && #[trigger] cs.drop_last()[i].keys().contains(
                            k,
                        );
                    assert(cs[i].keys().contains(k));
                } else {
                    assert(cs[cs.len() - 1].keys().contains(k));
                }
            }
        }
    }

    /// In a sequence with distinct keys, each child has distinct keys and two
    /// different children share none.
    pub proof fn lemma_keys_distinct_all_index(cs: Seq<CompV>)
        requires
            Self::keys_distinct_all(cs),
        ensures
            forall|i: int| 0 <= i < cs.len() ==> (#[trigger] cs[i]).keys_distinct(),
            forall|i: int, j: int, k: KeyV|
                0 <= i < j < cs.len() && #[trigger] cs[i].keys().contains(k) ==> !(
                #[trigger] cs[j].keys().contains(k)),
        decreases cs,
    {
        if cs.len() > 0 {
            Self::lemma_keys_distinct_all_index(cs.drop_last());
            Self::lemma_keys_all_index(cs.drop_last());
            assert forall|i: int| 0 <= i < cs.len() implies (#[trigger] cs[i]).keys_distinct() by {
                if i < cs.len() - 1 {
                    assert(cs.drop_last()[i] == cs[i]);
                }
            }
            assert forall|i: int, j: int, k: KeyV|
                0 <= i < j < cs.len() && #[trigger] cs[i].keys().contains(k) implies !(
            #[trigger] cs[j].keys().contains(k)) by {
                if j == cs.len() - 1 {
                    assert(cs.drop_last()[i] == cs[i]);
                    assert(Self::keys_all(cs.drop_last()).contains(k));
                    assert(cs.last().keys().disjoint(Self::keys_all(cs.drop_last())));
                } else {
                    assert(cs.drop_last()[i] == cs[i]);
                    assert(cs.drop_last()[j] == cs[j]);
                }
            }
        }
    }

    /// The widget count of a prefix grows by the count of the next child.
    pub proof fn lemma_count_take_step(cs: Seq<CompV>, i: int)
        requires
            0 <= i < cs.len(),
        ensures
            Self::widget_count_all(cs.take(i + 1)) == Self::widget_count_all(cs.take(i))
                + cs[i].widget_count(),
    {
        assert(cs.take(i + 1).drop_last() =~= cs.take(i));
        assert(cs.take(i + 1).last() == cs[i]);
    }

    /// The widget count of a non-empty sequence splits off its first child.
    pub proof fn lemma_count_drop_first(cs: Seq<CompV>)
        requires
            cs.len() > 0,
        ensures
            Self::widget_count_all(cs) == cs[0].widget_count() + Self::widget_count_all(
                cs.drop_first(),
            ),
        decreases cs,
    {
        if cs.len() == 1 {
            assert(cs.drop_first() =~= Seq::<CompV>::empty());
            assert(cs.drop_last() =~= Seq::<CompV>::empty());
            assert(cs.last() == cs[0]);
        } else {
            Self::lemma_count_drop_first(cs.drop_last());
            assert(cs.drop_first().drop_last() =~= cs.drop_last().drop_first());
            assert(cs.drop_first().last() == cs.last());
            assert(cs.drop_last()[0] == cs[0]);
        }
    }

    /// The widget count splits over a prefix and the matching suffix.
    pub proof fn lemma_count_split(cs: Seq<CompV>, i: int)
        requires
            0 <= i <= cs.len(),
        ensures
            Self::widget_count_all(cs) == Self::widget_count_all(cs.take(i))
                + Self::widget_count_all(cs.skip(i)),
        decreases cs.len() - i,
    {
        if i == cs.len() {
            assert(cs.take(i) =~= cs);
            assert(cs.skip(i) =~= Seq::<CompV>::empty());
        } else {
            Self::lemma_count_split(cs, i + 1);
            Self::lemma_count_take_step(cs, i);
            Self::lemma_count_drop_first(cs.skip(i));
            assert(cs.skip(i).drop_first() =~= cs.skip(i + 1));
            assert(cs.skip(i)[0] == cs[i]);
        }
    }
}

/// A node of the component tree. A tree is produced fresh by each rebuild
/// and is immutable once built.
#[derive(Debug)]
pub struct Component {
    pub id: ComponentID,
    pub widget: Option<WidgetInfo>,
    pub children: Vec<Component>,
}

impl Component {
    pub open spec fn view_of(self) -> CompV
        decreases self,
    {
        CompV {
            id: self.id@,
            widget: match self.widget {
                Some(w) => Some(w@),
                None => None,
            },
            children: Self::views_of(self.children@),
        }
    }

    pub open spec fn views_of(cs: Seq<Component>) -> Seq<CompV>
        decreases cs,
    {
        if cs.len() == 0 {
            Seq::empty()
        } else {
            Self::views_of(cs.drop_last()).push(cs.last().view_of())
        }
    }

    pub proof fn lemma_views_of(cs: Seq<Component>)
        ensures
            Self::views_of(cs).len() == cs.len(),
            forall|i: int| 0 <= i < cs.len() ==> #[trigger] Self::views_of(cs)[i] == cs[i].view_of(),
        decreases cs,
    {
        if cs.len() > 0 {
            Self::lemma_views_of(cs.drop_last());
        }
    }
}

impl View for Component {
    type V = CompV;

    open spec fn view(&self) -> CompV {
        self.view_of()
    }
}

/// A widget-bearing node with an empty descriptor and no children.
pub fn new_leaf<K: ToKey>(id: K) -> (c: Component)
    ensures
        c@ == (CompV {
            id: IdV::Widget(id.key_view()),
            widget: Some(InfoV { attrs: Seq::empty(), callbacks: Seq::empty() }),
            children: Seq::empty(),
        }),
{
    let k = id.to_key();
    let c = Component { id: ComponentID::WidgetID(k), widget: Some(WidgetInfo::new()), children: Vec::new() };
    proof {
        assert(Component::views_of(c.children@) =~= Seq::<CompV>::empty());
    }
    c
}


impl Component {
    /// A structural grouping node: no native counterpart, no children yet.
    pub fn empty(id: &str) -> (c: Component)
        ensures
            c@ == (CompV { id: IdV::Group(id@), widget: None, children: Seq::empty() }),
            c@.wf(),
    {
        let c = Component {
            id: ComponentID::NodeID(id.to_owned()),
            widget: None,
            children: Vec::new(),
        };
        proof {
            assert(Component::views_of(c.children@) =~= Seq::<CompV>::empty());
        }
        c
    }

    /// A copy of this node with its attributes replaced, when it is
    /// widget-bearing; a grouping node is returned unchanged.
    pub fn with_attributes(self, attributes: Vec<(String, String)>) -> (c: Component)
        ensures
            c@ == match self@.widget {
                Some(w) => (CompV {
                    widget: Some(InfoV { attrs: attrs_view(attributes@), callbacks: w.callbacks }),
                    ..self@
                }),
                None => self@,
            },
    {
        match self.widget {
            Some(w) => {
                let w2 = WidgetInfo { attributes, callbacks: w.callbacks };
                Component { widget: Some(w2), ..self }
            },
            None => Component { widget: None, ..self },
        }
    }

    /// A copy of this node with one more callback binding, when it is
    /// widget-bearing; a grouping node is returned unchanged.
    pub fn with_callback(self, cb_type: &str, callback: CallbackId) -> (c: Component)
        ensures
            c@ == match self@.widget {
                Some(w) => (CompV {
                    widget: Some(InfoV {
                        attrs: w.attrs,
                        callbacks: w.callbacks.push((cb_type@, callback)),
                    }),
                    ..self@
                }),
                None => self@,
            },
    {
        match self.widget {
            Some(w) => {
                let mut callbacks = w.callbacks;
                callbacks.push((cb_type.to_owned(), callback));
                let w2 = WidgetInfo { attributes: w.attributes, callbacks };
                proof {
                    assert(callbacks_view(w2.callbacks@) =~= callbacks_view(w.callbacks@).push(
                        (cb_type@, callback),
                    ));
                }
                Component { widget: Some(w2), ..self }
            },
            None => Component { widget: None, ..self },
        }
    }
}

/// A node over ordered children: widget-bearing when the identity names a
/// widget, a pure structural grouping otherwise. Children are keyed by
/// identity, so their identities must be distinct.
pub fn new_node(v: Vec<Component>, id: ComponentID) -> (c: Component)
    requires
        forall|i: int, j: int| 0 <= i < j < v@.len() ==> v@[i]@.id != v@[j]@.id,
    ensures
        c@ == (CompV {
            id: id@,
            widget: match id@ {
                IdV::Widget(_) => Some(InfoV { attrs: Seq::empty(), callbacks: Seq::empty() }),
                IdV::Group(_) => None,
            },
            children: Component::views_of(v@),
        }),
{
    let widget = match &id {
        ComponentID::WidgetID(_) => Some(WidgetInfo::new()),
        ComponentID::NodeID(_) => None,
    };
    Component { id, widget, children: v }
}

} // verus!
