//! Widget class tags, keys that identify one logical widget across rebuilds,
//! and opaque references to application event handlers.

use vstd::prelude::*;

verus! {

/// The closed set of native widget classes the tree builder may request.
#[derive(Clone, Copy, PartialEq, Eq, Structural, Debug)]
pub enum EWidget {
    SignInButton,
    LoadingFrame,
    ErrorPage,
    SignInLabel,
    GetTransButton,
    SignedInFrame,
    MainBox,
    MainWindow,
    TransColLabel,
    TransColBin,
    TransRow,
    TransBox,
    LabelFrame,
    AccountBox,
    SomeLabel,
}

/// Mathematical value of a `WidgetKey`: the class tag and the discriminator
/// as a sequence of characters.
pub type KeyV = (EWidget, Seq<char>);

/// Identifies one logical widget across rebuilds: a class tag plus an
/// instance discriminator that disambiguates repeated items.
#[derive(Debug)]
pub struct WidgetKey {
    pub tag: EWidget,
    pub discr: String,
}

impl View for WidgetKey {
    type V = KeyV;

    open spec fn view(&self) -> KeyV {
        (self.tag, self.discr@)
    }
}

impl Clone for WidgetKey {
    fn clone(&self) -> (res: Self)
        ensures
            res@ == self@,
    {
        WidgetKey { tag: self.tag, discr: self.discr.clone() }
    }
}

impl WidgetKey {
    /// Whether two keys identify the same logical widget.
    pub fn key_eq(&self, other: &WidgetKey) -> (r: bool)
        ensures
            r == (self@ == other@),
    {
        self.tag == other.tag && self.discr == other.discr
    }
}

/// Conversion of shorthand forms into a full `WidgetKey`.
pub trait ToKey: Sized {
    /// The key this shorthand denotes.
    spec fn key_view(self) -> KeyV;

    fn to_key(self) -> (k: WidgetKey)
        ensures
            k@ == self.key_view(),
    ;
}

impl ToKey for EWidget {
    open spec fn key_view(self) -> KeyV {
        (self, Seq::<char>::empty())
    }

    fn to_key(self) -> (k: WidgetKey) {
        WidgetKey { tag: self, discr: String::new() }
    }
}

impl ToKey for (EWidget, String) {
    open spec fn key_view(self) -> KeyV {
        (self.0, self.1@)
    }

    fn to_key(self) -> (k: WidgetKey) {
        WidgetKey { tag: self.0, discr: self.1 }
    }
}

/// Opaque reference to an application event handler. The core only stores
/// and compares these; the embedding runtime maps each one to real work.
#[derive(Clone, Copy, PartialEq, Eq, Structural, Debug)]
pub enum CallbackId {
    SignIn,
    GetTrans,
}

} // verus!
