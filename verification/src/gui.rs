//! The component tree builder: a pure, deterministic function from business
//! state to the virtual tree of keyed nodes, and the rebuild entrypoint that
//! diffs the new tree against the retained one.

use vstd::prelude::*;
use vstd::string::StringExecFns;

use crate::component::{attrs_view, new_leaf, new_node, CompV, Component, ComponentID, IdV, InfoV};
use crate::datamodel::{apply_events_tr, handle_tr, kind_matches, DataModel, EventType, ParsedResp, ReqStatus, RespType};
use crate::ewidget::{CallbackId, EWidget, KeyV, ToKey, WidgetKey};
use crate::plaid::{Account, Accounts, AuthParams, Transaction, Transactions};
use crate::reconcile::{diff_budget, diff_tr, mount_tr};
use crate::render::Renderer;

verus! {

/// The descriptor of a node with no attributes and no callbacks.
pub open spec fn empty_info() -> InfoV {
    InfoV { attrs: Seq::empty(), callbacks: Seq::empty() }
}

/// The widget classes the page builders use; every page tree draws its keys
/// from these. The main window's own class is not among them: only the root
/// carries it.
pub open spec fn page_tags() -> Set<EWidget> {
    set![
        EWidget::LabelFrame,
        EWidget::SomeLabel,
        EWidget::SignInButton,
        EWidget::AccountBox,
        EWidget::TransRow,
        EWidget::TransBox,
        EWidget::MainBox,
    ]
}

/// A framed text label: a frame keyed by `id` holding one label showing
/// `text`.
pub open spec fn spec_label_frame(text: Seq<char>, id: Seq<char>) -> CompV {
    CompV {
        id: IdV::Widget((EWidget::LabelFrame, id)),
        widget: Some(empty_info()),
        children: seq![
            CompV {
                id: IdV::Widget((EWidget::SomeLabel, id)),
                widget: Some(InfoV { attrs: seq![("text"@, text)], callbacks: Seq::empty() }),
                children: Seq::empty(),
            },
        ],
    }
}

/// Shorthand for the tag bound of a built tree.
pub open spec fn tags_bounded(c: CompV) -> bool {
    forall|k: KeyV| c.keys().contains(k) ==> page_tags().contains(k.0)
}

pub fn label_frame(text: &str, id: &str) -> (c: Component)
    ensures
        c@ == spec_label_frame(text@, id@),
        c@.wf(),
        tags_bounded(c@),
{
    let mut attrs: Vec<(String, String)> = Vec::new();
    attrs.push(("text".to_owned(), text.to_owned()));
    proof {
        assert(attrs_view(attrs@) =~= seq![("text"@, text@)]);
    }
    let label = new_leaf((EWidget::SomeLabel, id.to_owned())).with_attributes(attrs);
    let mut v: Vec<Component> = Vec::new();
    v.push(label);
    let c = new_node(v, ComponentID::WidgetID(WidgetKey { tag: EWidget::LabelFrame, discr: id.to_owned() }));
    proof {
        Component::lemma_views_of(v@);
        assert(c@.children =~= seq![v@[0]@]);
        assert(c@ =~~= spec_label_frame(text@, id@));
        assert forall|i: int| 0 <= i < c@.children.len() implies (#[trigger] c@.children[i]).wf() by {
            assert(c@.children[i] == v@[0]@);
        }
        lemma_wf_of_children(c@);
        assert forall|k: KeyV| c@.keys().contains(k) implies page_tags().contains(k.0) by {
            CompV::lemma_keys_all_elem(c@.children);
            if CompV::keys_all(c@.children).contains(k) {
                let i = choose|i: int|
                    0 <= i < c@.children.len() && #[trigger] c@.children[i].keys().contains(k);
                assert(c@.children[i] == v@[0]@);
                assert(CompV::keys_all(v@[0]@.children).contains(k) ==> false) by {
                    CompV::lemma_keys_all_elem(v@[0]@.children);
                }
            }
        }
    }
    c
}

/// One transaction row: amount, date, name and type, each in a framed label
/// keyed by the transaction identifier with a distinct suffix.
pub open spec fn spec_trans_row(t: Transaction) -> CompV {
    CompV {
        id: IdV::Widget((EWidget::TransRow, t.transaction_id@)),
        widget: Some(InfoV { attrs: seq![("orientation"@, "horizontal"@)], callbacks: Seq::empty() }),
        children: seq![
            spec_label_frame(t.amount@, t.transaction_id@ + "-1"@),
            spec_label_frame(t.date@, t.transaction_id@ + "-2"@),
            spec_label_frame(t.name@, t.transaction_id@ + "-3"@),
            spec_label_frame(t.transaction_type@, t.transaction_id@ + "-4"@),
        ],
    }
}

proof fn lemma_suffix_distinct(a: Seq<char>)
    ensures
        a + "-1"@ != a + "-2"@,
        a + "-1"@ != a + "-3"@,
        a + "-1"@ != a + "-4"@,
        a + "-2"@ != a + "-3"@,
        a + "-2"@ != a + "-4"@,
        a + "-3"@ != a + "-4"@,
{
    reveal_strlit("-1");
    reveal_strlit("-2");
    reveal_strlit("-3");
    reveal_strlit("-4");
    assert((a + "-1"@)[a.len() as int + 1] == '1');
    assert((a + "-2"@)[a.len() as int + 1] == '2');
    assert((a + "-3"@)[a.len() as int + 1] == '3');
    assert((a + "-4"@)[a.len() as int + 1] == '4');
}

pub fn trans_row(trans: &Transaction) -> (c: Component)
    ensures
        c@ == spec_trans_row(*trans),
        c@.wf(),
        tags_bounded(c@),
{
    let e1 = label_frame(trans.amount.as_str(), trans.transaction_id.clone().concat("-1").as_str());
    let e2 = label_frame(trans.date.as_str(), trans.transaction_id.clone().concat("-2").as_str());
    let e3 = label_frame(trans.name.as_str(), trans.transaction_id.clone().concat("-3").as_str());
    let e4 = label_frame(
        trans.transaction_type.as_str(),
        trans.transaction_id.clone().concat("-4").as_str(),
    );
    let mut v: Vec<Component> = Vec::new();
    v.push(e1);
    v.push(e2);
    v.push(e3);
    v.push(e4);
    proof {
        lemma_suffix_distinct(trans.transaction_id@);
    }
    let c = new_node(
        v,
        ComponentID::WidgetID(WidgetKey { tag: EWidget::TransRow, discr: trans.transaction_id.clone() }),
    );
    let mut attrs: Vec<(String, String)> = Vec::new();
    attrs.push(("orientation".to_owned(), "horizontal".to_owned()));
    proof {
        assert(attrs_view(attrs@) =~= seq![("orientation"@, "horizontal"@)]);
    }
    let c = c.with_attributes(attrs);
    proof {
        Component::lemma_views_of(v@);
        assert(c@.children =~= seq![v@[0]@, v@[1]@, v@[2]@, v@[3]@]);
        assert(c@ =~~= spec_trans_row(*trans));
        assert forall|i: int| 0 <= i < c@.children.len() implies (#[trigger] c@.children[i]).wf() by {
            assert(c@.children[i] == v@[i]@);
        }
        lemma_wf_of_children(c@);
        assert forall|k: KeyV| c@.keys().contains(k) implies page_tags().contains(k.0) by {
            CompV::lemma_keys_all_elem(c@.children);
            if CompV::keys_all(c@.children).contains(k) {
                let i = choose|i: int|
                    0 <= i < c@.children.len() && #[trigger] c@.children[i].keys().contains(k);
                assert(c@.children[i] == v@[i]@);
                assert(tags_bounded(v@[i]@));
            }
        }
    }
    c
}

/// The transactions pane: a heading and one row per transaction.
pub open spec fn spec_trans_box(tr: Transactions) -> CompV {
    CompV {
        id: IdV::Widget((EWidget::TransBox, Seq::empty())),
        widget: Some(empty_info()),
        children: seq![spec_label_frame("Transactions: "@, "trans_frame"@)] + Seq::new(
            tr.transactions@.len(),
            |i: int| spec_trans_row(tr.transactions@[i]),
        ),
    }
}

#[verifier::loop_isolation(false)]
pub fn trans_box(tr: &Transactions) -> (c: Component)
    requires
        forall|i: int, j: int|
            0 <= i < j < tr.transactions@.len() ==> tr.transactions@[i].transaction_id@
                != tr.transactions@[j].transaction_id@,
    ensures
        c@ == spec_trans_box(*tr),
        c@.wf(),
        tags_bounded(c@),
{
    let mut v: Vec<Component> = Vec::new();
    v.push(label_frame("Transactions: ", "trans_frame"));
    let mut i: usize = 0;
    while i < tr.transactions.len()
        invariant
            0 <= i <= tr.transactions.len(),
            v@.len() == i + 1,
            v@[0]@ == spec_label_frame("Transactions: "@, "trans_frame"@),
            forall|j: int| 0 <= j < i ==> v@[j + 1]@ == spec_trans_row(tr.transactions@[j]),
            forall|j: int| 0 <= j < v@.len() ==> (#[trigger] v@[j]@).wf() && tags_bounded(v@[j]@),
            forall|i1: int, j1: int| 0 <= i1 < j1 < v@.len() ==> v@[i1]@.id != v@[j1]@.id,
        decreases tr.transactions.len() - i,
    {
        let row = trans_row(&tr.transactions[i]);
        proof {
            assert forall|i1: int| 0 <= i1 < v@.len() implies v@[i1]@.id != row@.id by {
                if i1 == 0 {
                    assert(v@[0]@.id == IdV::Widget((EWidget::LabelFrame, "trans_frame"@)));
                } else {
                    assert(v@[i1]@.id == IdV::Widget(
                        (EWidget::TransRow, tr.transactions@[i1 - 1].transaction_id@),
                    ));
                    assert(tr.transactions@[i1 - 1].transaction_id@ != tr.transactions@[
                        i as int
                    ].transaction_id@);
                }
            }
        }
        v.push(row);
        i += 1;
    }
    let c = new_node(v, ComponentID::WidgetID(EWidget::TransBox.to_key()));
    proof {
        assert(c@.children == Component::views_of(v@));
        Component::lemma_views_of(v@);
        assert(c@.children =~= seq![spec_label_frame("Transactions: "@, "trans_frame"@)] + Seq::new(
            tr.transactions@.len(),
            |j: int| spec_trans_row(tr.transactions@[j]),
        ));
        assert(c@ =~~= spec_trans_box(*tr));
        lemma_wf_of_children(c@);
        assert forall|k: KeyV| c@.keys().contains(k) implies page_tags().contains(k.0) by {
            CompV::lemma_keys_all_elem(c@.children);
            if CompV::keys_all(c@.children).contains(k) {
                let i1 = choose|i1: int|
                    0 <= i1 < c@.children.len() && #[trigger] c@.children[i1].keys().contains(k);
                assert(c@.children[i1] == v@[i1]@);
            }
        }
    }
    c
}

/// Well-formedness of a node follows from distinct child identities and
/// well-formed children.
proof fn lemma_wf_of_children(c: CompV)
    requires
        c.id is Widget <==> c.widget is Some,
        forall|i: int, j: int| 0 <= i < j < c.children.len() ==> c.children[i].id != c.children[j].id,
        forall|i: int| 0 <= i < c.children.len() ==> (#[trigger] c.children[i]).wf(),
    ensures
        c.wf(),
{
    lemma_wf_all_of_each(c.children);
}

proof fn lemma_wf_all_of_each(cs: Seq<CompV>)
    requires
        forall|i: int| 0 <= i < cs.len() ==> (#[trigger] cs[i]).wf(),
    ensures
        CompV::wf_all(cs),
    decreases cs,
{
    if cs.len() > 0 {
        assert(forall|i: int| 0 <= i < cs.drop_last().len() ==> cs.drop_last()[i] == cs[i]);
        lemma_wf_all_of_each(cs.drop_last());
    }
}

/// One account pane: name, available and current balance as framed labels
/// keyed by the account identifier with distinct suffixes.
pub open spec fn spec_acct_box(acct: Account) -> CompV {
    CompV {
        id: IdV::Widget((EWidget::AccountBox, acct.name@)),
        widget: Some(empty_info()),
        children: seq![
            spec_label_frame("Name: "@ + acct.name@, acct.account_id@ + "-1"@),
            spec_label_frame(
                "Available Balance: "@ + match acct.balances.available {
                    Some(av) => av@,
                    None => "0"@,
                },
                acct.account_id@ + "-2"@,
            ),
            spec_label_frame("Current Balance: "@ + acct.balances.current@, acct.account_id@ + "-3"@),
        ],
    }
}

pub fn acct_box(acct: &Account) -> (c: Component)
    ensures
        c@ == spec_acct_box(*acct),
        c@.wf(),
        tags_bounded(c@),
{
    let l1 = String::from_str("Name: ").concat(acct.name.as_str());
    let av: &str = match &acct.balances.available {
        Some(av) => av.as_str(),
        None => "0",
    };
    let l2 = String::from_str("Available Balance: ").concat(av);
    let l3 = String::from_str("Current Balance: ").concat(acct.balances.current.as_str());
    let e1 = label_frame(l1.as_str(), acct.account_id.clone().concat("-1").as_str());
    let e2 = label_frame(l2.as_str(), acct.account_id.clone().concat("-2").as_str());
    let e3 = label_frame(l3.as_str(), acct.account_id.clone().concat("-3").as_str());
    let mut v: Vec<Component> = Vec::new();
    v.push(e1);
    v.push(e2);
    v.push(e3);
    proof {
        lemma_suffix_distinct(acct.account_id@);
    }
    let c = new_node(
        v,
        ComponentID::WidgetID(WidgetKey { tag: EWidget::AccountBox, discr: acct.name.clone() }),
    );
    proof {
        Component::lemma_views_of(v@);
        assert(c@.children =~= seq![v@[0]@, v@[1]@, v@[2]@]);
        assert(v@[0]@ =~~= spec_label_frame("Name: "@ + acct.name@, acct.account_id@ + "-1"@));
        assert(v@[1]@ =~~= spec_label_frame(
            "Available Balance: "@ + match acct.balances.available {
                Some(av2) => av2@,
                None => "0"@,
            },
            acct.account_id@ + "-2"@,
        ));
        assert(v@[2]@ =~~= spec_label_frame(
            "Current Balance: "@ + acct.balances.current@,
            acct.account_id@ + "-3"@,
        ));
        assert(c@.id == spec_acct_box(*acct).id);
        assert(c@.widget == spec_acct_box(*acct).widget);
        assert(c@.children =~= spec_acct_box(*acct).children);
        assert(c@ =~~= spec_acct_box(*acct));
        assert forall|i: int| 0 <= i < c@.children.len() implies (#[trigger] c@.children[i]).wf() by {
            assert(c@.children[i] == v@[i]@);
        }
        lemma_wf_of_children(c@);
        assert forall|k: KeyV| c@.keys().contains(k) implies page_tags().contains(k.0) by {
            CompV::lemma_keys_all_elem(c@.children);
            if CompV::keys_all(c@.children).contains(k) {
                let i = choose|i: int|
                    0 <= i < c@.children.len() && #[trigger] c@.children[i].keys().contains(k);
                assert(c@.children[i] == v@[i]@);
                assert(tags_bounded(v@[i]@));
            }
        }
    }
    c
}

/// The accounts pane: a heading and one pane per account.
pub open spec fn spec_accts(ac: Accounts) -> CompV {
    CompV {
        id: IdV::Widget((EWidget::AccountBox, "main"@)),
        widget: Some(InfoV { attrs: seq![("orientation"@, "horizontal"@)], callbacks: Seq::empty() }),
        children: seq![spec_label_frame("Accounts: "@, "accounts_frame"@)] + Seq::new(
            ac.accounts@.len(),
            |i: int| spec_acct_box(ac.accounts@[i]),
        ),
    }
}

#[verifier::loop_isolation(false)]
pub fn accts(ac: &Accounts) -> (c: Component)
    requires
        forall|i: int, j: int|
            0 <= i < j < ac.accounts@.len() ==> ac.accounts@[i].name@ != ac.accounts@[j].name@,
    ensures
        c@ == spec_accts(*ac),
        c@.wf(),
        tags_bounded(c@),
{
    let mut v: Vec<Component> = Vec::new();
    v.push(label_frame("Accounts: ", "accounts_frame"));
    let mut i: usize = 0;
    while i < ac.accounts.len()
        invariant
            0 <= i <= ac.accounts.len(),
            v@.len() == i + 1,
            v@[0]@ == spec_label_frame("Accounts: "@, "accounts_frame"@),
            forall|j: int| 0 <= j < i ==> v@[j + 1]@ == spec_acct_box(ac.accounts@[j]),
            forall|j: int| 0 <= j < v@.len() ==> (#[trigger] v@[j]@).wf() && tags_bounded(v@[j]@),
            forall|i1: int, j1: int| 0 <= i1 < j1 < v@.len() ==> v@[i1]@.id != v@[j1]@.id,
        decreases ac.accounts.len() - i,
    {
        let pane = acct_box(&ac.accounts[i]);
        proof {
            assert forall|i1: int| 0 <= i1 < v@.len() implies v@[i1]@.id != pane@.id by {
                if i1 == 0 {
                    assert(v@[0]@.id == IdV::Widget((EWidget::LabelFrame, "accounts_frame"@)));
                } else {
                    assert(v@[i1]@.id == IdV::Widget(
                        (EWidget::AccountBox, ac.accounts@[i1 - 1].name@),
                    ));
                    assert(ac.accounts@[i1 - 1].name@ != ac.accounts@[i as int].name@);
                }
            }
        }
        v.push(pane);
        i += 1;
    }
    let mut attrs: Vec<(String, String)> = Vec::new();
    attrs.push(("orientation".to_owned(), "horizontal".to_owned()));
    proof {
        assert(attrs_view(attrs@) =~= seq![("orientation"@, "horizontal"@)]);
    }
    let c = new_node(
        v,
        ComponentID::WidgetID(WidgetKey { tag: EWidget::AccountBox, discr: String::from_str("main") }),
    ).with_attributes(attrs);
    proof {
        Component::lemma_views_of(v@);
        assert(c@.children =~= seq![spec_label_frame("Accounts: "@, "accounts_frame"@)] + Seq::new(
            ac.accounts@.len(),
            |j: int| spec_acct_box(ac.accounts@[j]),
        ));
        assert(c@ =~~= spec_accts(*ac));
        lemma_wf_of_children(c@);
        assert forall|k: KeyV| c@.keys().contains(k) implies page_tags().contains(k.0) by {
            CompV::lemma_keys_all_elem(c@.children);
            if CompV::keys_all(c@.children).contains(k) {
                let i1 = choose|i1: int|
                    0 <= i1 < c@.children.len() && #[trigger] c@.children[i1].keys().contains(k);
                assert(c@.children[i1] == v@[i1]@);
            }
        }
    }
    c
}

/// The sign-in page: one button bound to the sign-in handler.
pub open spec fn spec_sign_in_page() -> CompV {
    CompV {
        id: IdV::Widget((EWidget::SignInButton, Seq::empty())),
        widget: Some(InfoV {
            attrs: seq![("label"@, "Sign in!"@)],
            callbacks: seq![("clicked"@, CallbackId::SignIn)],
        }),
        children: Seq::empty(),
    }
}

pub fn sign_in_page() -> (c: Component)
    ensures
        c@ == spec_sign_in_page(),
        c@.wf(),
        tags_bounded(c@),
{
    let mut attrs: Vec<(String, String)> = Vec::new();
    attrs.push(("label".to_owned(), "Sign in!".to_owned()));
    proof {
        assert(attrs_view(attrs@) =~= seq![("label"@, "Sign in!"@)]);
    }
    let c = new_leaf(EWidget::SignInButton).with_attributes(attrs).with_callback(
        "clicked",
        CallbackId::SignIn,
    );
    proof {
        assert(c@ =~~= spec_sign_in_page());
        assert(c@.keys() =~= Set::<KeyV>::empty().insert((EWidget::SignInButton, Seq::empty())));
    }
    c
}


/// Whether the provider data in the business state carries distinct
/// identifiers: transaction identifiers and account names are unique, so the
/// rows and panes they key are distinct.
pub open spec fn data_valid(d: DataModel) -> bool {
    &&& match d.transactions {
        Ok(RespType::Done(ts)) => forall|i: int, j: int|
            0 <= i < j < ts.transactions@.len() ==> ts.transactions@[i].transaction_id@
                != ts.transactions@[j].transaction_id@,
        _ => true,
    }
    &&& match d.accounts {
        Ok(RespType::Done(ac)) => forall|i: int, j: int|
            0 <= i < j < ac.accounts@.len() ==> ac.accounts@[i].name@ != ac.accounts@[j].name@,
        _ => true,
    }
}

proof fn lemma_page_ids_distinct()
    ensures
        "access token label"@ != "balances"@,
        "access token label"@ != "balances-error"@,
        "access token label"@ != "transactions"@,
        "access token label"@ != "transactions-error"@,
        "balances"@ != "transactions"@,
        "balances"@ != "transactions-error"@,
        "balances-error"@ != "transactions"@,
        "balances-error"@ != "transactions-error"@,
        "balnone"@ != "transempty"@,
{
    reveal_strlit("access token label");
    reveal_strlit("balances");
    reveal_strlit("balances-error");
    reveal_strlit("transactions");
    reveal_strlit("transactions-error");
    reveal_strlit("balnone");
    reveal_strlit("transempty");
    assert("access token label"@.len() == 18);
    assert("balances"@.len() == 8);
    assert("balances-error"@.len() == 14);
    assert("transactions"@.len() == 12);
    assert("transactions-error"@.len() == 18);
    assert("balnone"@.len() == 7);
    assert("transempty"@.len() == 10);
    assert("access token label"@[0] == 'a');
    assert("transactions-error"@[0] == 't');
}

/// The signed-in page: the access token, then the balances pane and the
/// transactions pane, each rendered according to its request status — a
/// progress label while in flight, the data when done, the error message as
/// a label on failure.
pub open spec fn spec_user_page(d: DataModel, auth: AuthParams) -> CompV {
    let token_text = "You are signed in! Your access token is: "@ + match auth.access_token {
        Some(t) => t@,
        None => Seq::<char>::empty(),
    };
    let bal_child = match d.accounts {
        Ok(RespType::NotStarted) => CompV {
            id: IdV::Group("balnone"@),
            widget: None,
            children: Seq::empty(),
        },
        Ok(RespType::InProgress) => spec_label_frame("Getting Balances..."@, "balances"@),
        Ok(RespType::Done(a)) => spec_accts(a),
        Err(e) => spec_label_frame(e@, "balances-error"@),
    };
    let tr_child = match d.transactions {
        Ok(RespType::NotStarted) => CompV {
            id: IdV::Group("transempty"@),
            widget: None,
            children: Seq::empty(),
        },
        Ok(RespType::InProgress) => spec_label_frame("Getting Transactions..."@, "transactions"@),
        Ok(RespType::Done(t)) => spec_trans_box(t),
        Err(e) => spec_label_frame(e@, "transactions-error"@),
    };
    CompV {
        id: IdV::Group("user_page"@),
        widget: None,
        children: seq![
            spec_label_frame(token_text, "access token label"@),
            bal_child,
            tr_child,
        ],
    }
}

#[verifier::rlimit(30)]
pub fn user_page(data: &DataModel, auth: &AuthParams) -> (c: Component)
    requires
        data_valid(*data),
    ensures
        c@ == spec_user_page(*data, *auth),
        c@.wf(),
        tags_bounded(c@),
{
    let mut token_text = String::from_str("You are signed in! Your access token is: ");
    match &auth.access_token {
        Some(t) => token_text.append(t.as_str()),
        None => (),
    }
    let mut v: Vec<Component> = Vec::new();
    v.push(label_frame(token_text.as_str(), "access token label"));
    let bal = match &data.accounts {
        Ok(RespType::NotStarted) => Component::empty("balnone"),
        Ok(RespType::InProgress) => label_frame("Getting Balances...", "balances"),
        Ok(RespType::Done(a)) => accts(a),
        Err(e) => label_frame(e.as_str(), "balances-error"),
    };
    v.push(bal);
    let tr = match &data.transactions {
        Ok(RespType::NotStarted) => Component::empty("transempty"),
        Ok(RespType::InProgress) => label_frame("Getting Transactions...", "transactions"),
        Ok(RespType::Done(t)) => trans_box(t),
        Err(e) => label_frame(e.as_str(), "transactions-error"),
    };
    v.push(tr);
    proof {
        lemma_page_ids_distinct();
        assert(v@[0]@.id != v@[1]@.id);
        assert(v@[0]@.id != v@[2]@.id);
        assert(v@[1]@.id != v@[2]@.id);
    }
    let c = new_node(v, ComponentID::NodeID("user_page".to_owned()));
    proof {
        Component::lemma_views_of(v@);
        assert(c@.children =~= seq![v@[0]@, v@[1]@, v@[2]@]);
        assert(c@ =~~= spec_user_page(*data, *auth));
        assert forall|i: int| 0 <= i < c@.children.len() implies (#[trigger] c@.children[i]).wf() by {
            assert(c@.children[i] == v@[i]@);
        }
        lemma_wf_of_children(c@);
        assert forall|k: KeyV| c@.keys().contains(k) implies page_tags().contains(k.0) by {
            CompV::lemma_keys_all_elem(c@.children);
            if CompV::keys_all(c@.children).contains(k) {
                let i = choose|i: int|
                    0 <= i < c@.children.len() && #[trigger] c@.children[i].keys().contains(k);
                assert(c@.children[i] == v@[i]@);
                assert(tags_bounded(v@[i]@));
            }
        }
    }
    c
}

/// The application's whole page: the sign-in button before sign-in, a
/// progress label while signing in, the signed-in page when done, the error
/// as a label on failure.
pub open spec fn spec_main_app(d: DataModel) -> CompV {
    let child = match d.auth_params {
        Ok(RespType::NotStarted) => spec_sign_in_page(),
        Ok(RespType::InProgress) => spec_label_frame("Signing in..."@, "sign in"@),
        Ok(RespType::Done(auth)) => spec_user_page(d, auth),
        Err(e) => spec_label_frame(e@, "sign in-error"@),
    };
    CompV {
        id: IdV::Widget((EWidget::MainBox, Seq::empty())),
        widget: Some(empty_info()),
        children: seq![child],
    }
}

pub fn main_app(data: &DataModel) -> (c: Component)
    requires
        data_valid(*data),
    ensures
        c@ == spec_main_app(*data),
        c@.wf(),
        tags_bounded(c@),
{
    let child = match &data.auth_params {
        Ok(RespType::NotStarted) => sign_in_page(),
        Ok(RespType::InProgress) => label_frame("Signing in...", "sign in"),
        Ok(RespType::Done(auth)) => user_page(data, auth),
        Err(e) => label_frame(e.as_str(), "sign in-error"),
    };
    let mut v: Vec<Component> = Vec::new();
    v.push(child);
    let c = new_node(v, ComponentID::WidgetID(EWidget::MainBox.to_key()));
    proof {
        Component::lemma_views_of(v@);
        assert(c@.children =~= seq![v@[0]@]);
        assert(c@ =~~= spec_main_app(*data));
        assert forall|i: int| 0 <= i < c@.children.len() implies (#[trigger] c@.children[i]).wf() by {
            assert(c@.children[i] == v@[0]@);
        }
        lemma_wf_of_children(c@);
        assert forall|k: KeyV| c@.keys().contains(k) implies page_tags().contains(k.0) by {
            CompV::lemma_keys_all_elem(c@.children);
            if CompV::keys_all(c@.children).contains(k) {
                let i = choose|i: int|
                    0 <= i < c@.children.len() && #[trigger] c@.children[i].keys().contains(k);
                assert(c@.children[i] == v@[0]@);
                assert(tags_bounded(v@[0]@));
            }
        }
    }
    c
}

/// The key of the main window: the root native container every rebuild
/// renders into.
pub open spec fn main_window_key() -> KeyV {
    (EWidget::MainWindow, Seq::empty())
}

/// The whole tree of one rebuild: the main page under the main window's own
/// key, so the root is never re-attached.
pub open spec fn spec_app_tree(d: DataModel) -> CompV {
    CompV {
        id: IdV::Widget(main_window_key()),
        widget: Some(empty_info()),
        children: seq![spec_main_app(d)],
    }
}

/// Everything the foreground loop owns: the business state, the retained
/// component tree of the previous rebuild, and the widget cache with the
/// native graph model.
pub struct AppState {
    pub data: DataModel,
    pub ui_tree: Option<Component>,
    pub widgets: Renderer,
}

/// The foreground loop's invariant: the cache is well formed and holds the
/// main window; every page class has a factory; the retained tree is the
/// well-formed output of a previous rebuild, rooted at the main window with
/// page-class descendants.
pub open spec fn app_inv(s: AppState) -> bool {
    &&& s.widgets.wf()
    &&& s.widgets@.cache.contains_key(main_window_key())
    &&& page_tags().subset_of(s.widgets@.registered)
    &&& s.widgets@.registered.contains(EWidget::MainWindow)
    &&& match s.ui_tree {
        Some(t) => {
            &&& t@.wf()
            &&& t@.id == IdV::Widget(main_window_key())
            &&& forall|k: KeyV|
                CompV::keys_all(t@.children).contains(k) ==> page_tags().contains(k.0)
        },
        None => true,
    }
}

impl AppState {
    /// Fresh application state: empty business state, no retained tree, the
    /// factory registry seeded with the externally built main window.
    pub fn new() -> (s: AppState)
        ensures
            app_inv(s),
            s.ui_tree is None,
            s.data == (DataModel {
                auth_params: Ok::<RespType<AuthParams>, String>(RespType::NotStarted),
                transactions: Ok::<RespType<Transactions>, String>(RespType::NotStarted),
                accounts: Ok::<RespType<Accounts>, String>(RespType::NotStarted),
            }),
            s.widgets@.ops == Seq::<crate::render::OpV>::empty(),
            s.widgets@.next == 1u64,
    {
        let mut widgets = crate::render::create_widgets();
        let window_key = EWidget::MainWindow.to_key();
        let h = widgets.set(window_key);
        AppState { data: DataModel::new(), ui_tree: None, widgets }
    }
}

/// The rebuild entrypoint: derive the new tree from the business state, diff
/// it against the retained tree (or mount it fresh the first time), and
/// retain the new tree for the next cycle.
pub fn build_ui(state: &mut AppState)
    requires
        app_inv(*old(state)),
        data_valid(old(state).data),
        match old(state).ui_tree {
            Some(t) => old(state).widgets@.next + diff_budget(
                spec_app_tree(old(state).data),
                t@,
            ) <= u64::MAX,
            None => old(state).widgets@.next + spec_app_tree(old(state).data).widget_count()
                <= u64::MAX,
        },
    ensures
        app_inv(*final(state)),
        final(state).data == old(state).data,
        match final(state).ui_tree {
            Some(t) => t@ == spec_app_tree(old(state).data),
            None => false,
        },
        final(state).widgets@ == match old(state).ui_tree {
            Some(o) => diff_tr(
                spec_app_tree(old(state).data),
                o@,
                main_window_key(),
                old(state).widgets@.cache[main_window_key()],
                old(state).widgets@,
            ),
            None => mount_tr(
                spec_app_tree(old(state).data),
                main_window_key(),
                old(state).widgets@.cache[main_window_key()],
                old(state).widgets@,
            ),
        },
{
    let m = main_app(&state.data);
    let mut v: Vec<Component> = Vec::new();
    v.push(m);
    let app_tree = new_node(v, ComponentID::WidgetID(EWidget::MainWindow.to_key()));
    let window_key = EWidget::MainWindow.to_key();
    proof {
        Component::lemma_views_of(v@);
        assert(app_tree@.children =~= seq![v@[0]@]);
        assert(app_tree@ =~~= spec_app_tree(state.data));
        assert forall|i: int|
            0 <= i < app_tree@.children.len() implies (#[trigger] app_tree@.children[i]).wf() by {
            assert(app_tree@.children[i] == v@[0]@);
        }
        lemma_wf_of_children(app_tree@);
        assert forall|k: KeyV|
            CompV::keys_all(app_tree@.children).contains(k) implies page_tags().contains(k.0) by {
            CompV::lemma_keys_all_elem(app_tree@.children);
            let i = choose|i: int|
                0 <= i < app_tree@.children.len() && #[trigger] app_tree@.children[i].keys().contains(
                    k,
                );
            assert(app_tree@.children[i] == v@[0]@);
            assert(tags_bounded(v@[0]@));
        }
        assert forall|k: KeyV|
            app_tree@.keys().contains(k) implies state.widgets@.registered.contains(k.0) by {
            if k != main_window_key() {
                assert(CompV::keys_all(app_tree@.children).contains(k));
            }
        }
    }
    app_tree.render_diff(state.ui_tree.as_ref(), &window_key, &mut state.widgets);
    proof {
        let s0 = old(state).widgets@;
        let newv = app_tree@;
        let mk = main_window_key();
        let mh = s0.cache[mk];
        match old(state).ui_tree {
            Some(o) => {
                let o_v = o@;
                assert(newv.id == o_v.id);
                let s0u = if newv.widget != o_v.widget {
                    s0.update_tr(mh, newv.widget.unwrap())
                } else {
                    s0
                };
                assert(s0u.cache == s0.cache && s0u.registered == s0.registered && s0u.next
                    == s0.next);
                crate::reconcile::lemma_diff_children_frame(newv.children, o_v.children, mk, mh, s0u);
                let s1 = crate::reconcile::diff_children_tr(newv.children, o_v.children, mk, mh, s0u);
                crate::reconcile::lemma_add_new_frame(newv.children, o_v.children, mk, mh, s1);
                assert(!CompV::keys_all(o_v.children).contains(mk)) by {
                    if CompV::keys_all(o_v.children).contains(mk) {
                        assert(page_tags().contains(EWidget::MainWindow));
                    }
                }
                assert(s1.cache.contains_key(mk));
                assert(state.widgets@.cache.contains_key(mk));
                assert(state.widgets@.registered == s0.registered);
            },
            None => {
                crate::reconcile::lemma_mount_frame(newv, mk, mh, s0);
                assert(state.widgets@.cache.contains_key(mk));
                assert(state.widgets@.registered == s0.registered);
            },
        }
    }
    state.ui_tree = Some(app_tree);
}


/// Apply every terminal result one poll tick drained to the business state,
/// in order, and then — only if at least one kind was drained — trigger
/// exactly one rebuild covering all of them. No drains, no rebuild.
#[verifier::loop_isolation(false)]
pub fn apply_results(state: &mut AppState, results: Vec<(EventType, ReqStatus<ParsedResp>)>)
    requires
        app_inv(*old(state)),
        forall|l: int|
            0 <= l < results@.len() ==> kind_matches(
                (#[trigger] results@[l]).0,
                results@[l].1,
            ),
        data_valid(apply_events_tr(old(state).data, results@)),
        results@.len() > 0 ==> match old(state).ui_tree {
            Some(t) => old(state).widgets@.next + diff_budget(
                spec_app_tree(apply_events_tr(old(state).data, results@)),
                t@,
            ) <= u64::MAX,
            None => old(state).widgets@.next + spec_app_tree(
                apply_events_tr(old(state).data, results@),
            ).widget_count() <= u64::MAX,
        },
    ensures
        app_inv(*final(state)),
        final(state).data == apply_events_tr(old(state).data, results@),
        results@.len() == 0 ==> *final(state) == *old(state),
        results@.len() > 0 ==> match final(state).ui_tree {
            Some(t) => t@ == spec_app_tree(apply_events_tr(old(state).data, results@)),
            None => false,
        },
        results@.len() > 0 ==> final(state).widgets@ == match old(state).ui_tree {
            Some(o) => diff_tr(
                spec_app_tree(apply_events_tr(old(state).data, results@)),
                o@,
                main_window_key(),
                old(state).widgets@.cache[main_window_key()],
                old(state).widgets@,
            ),
            None => mount_tr(
                spec_app_tree(apply_events_tr(old(state).data, results@)),
                main_window_key(),
                old(state).widgets@.cache[main_window_key()],
                old(state).widgets@,
            ),
        },
{
    let ghost all = results@;
    let ghost d0 = state.data;
    let rebuild = results.len() > 0;
    let n = results.len();
    let mut results = results;
    let mut l: usize = 0;
    while l < n
        invariant
            0 <= l <= n,
            results@ =~= all.skip(l as int),
            state.data == apply_events_tr(d0, all.take(l as int)),
            state.ui_tree == old(state).ui_tree,
            state.widgets == old(state).widgets,
        decreases n - l,
    {
        let ghost prev = state.data;
        let (et, rs) = results.remove(0);
        proof {
            assert(all.skip(l as int)[0] == all[l as int]);
            assert(all.skip(l as int).remove(0) =~= all.skip(l as int + 1));
            assert(kind_matches(et, rs));
        }
        state.data.handle_event(et, rs);
        proof {
            assert(state.data == handle_tr(prev, et, rs));
            assert(all.take(l as int + 1).drop_last() =~= all.take(l as int));
            assert(all.take(l as int + 1).last() == all[l as int]);
        }
        l += 1;
    }
    proof {
        assert(all.take(n as int) =~= all);
    }
    if rebuild {
        build_ui(state);
    }
}

} // verus!
