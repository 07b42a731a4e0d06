//! Tree builder and full-cycle scenarios: the rebuild entrypoint, the
//! dispatch/complete/drain/rebuild round trip, and one rebuild per tick.

use finview::component::{Component, ComponentID};
use finview::datamodel::{EventType, ParsedResp, RespType};
use finview::events::EventMap;
use finview::ewidget::{CallbackId, EWidget};
use finview::gui::{apply_results, build_ui, main_app, sign_in_page, user_page, AppState};
use finview::plaid::{Account, Accounts, AuthParams, Balance, Transaction, Transactions};
use finview::render::Op;

fn sample_auth() -> AuthParams {
    let mut a = AuthParams::new("client".to_string(), "secret".to_string());
    a.access_token = Some("tok-1".to_string());
    a
}

fn sample_transactions() -> Transactions {
    Transactions {
        transactions: vec![
            Transaction {
                transaction_id: "tx1".to_string(),
                account_id: "acc1".to_string(),
                transaction_type: "place".to_string(),
                name: "Coffee".to_string(),
                amount: "4.20".to_string(),
                date: "2019-08-01".to_string(),
            },
            Transaction {
                transaction_id: "tx2".to_string(),
                account_id: "acc1".to_string(),
                transaction_type: "place".to_string(),
                name: "Books".to_string(),
                amount: "19.99".to_string(),
                date: "2019-08-02".to_string(),
            },
        ],
    }
}

fn sample_accounts() -> Accounts {
    Accounts {
        accounts: vec![Account {
            account_id: "acc1".to_string(),
            name: "Checking".to_string(),
            balances: Balance { available: Some("100".to_string()), current: "110".to_string() },
        }],
    }
}

#[test]
fn sign_in_page_binds_the_click_handler() {
    let c = sign_in_page();
    match &c.id {
        ComponentID::WidgetID(k) => {
            assert_eq!(k.tag, EWidget::SignInButton);
            assert_eq!(k.discr, "");
        },
        other => panic!("expected a widget identity, got {:?}", other),
    }
    let info = c.widget.as_ref().unwrap();
    assert_eq!(info.attributes, vec![("label".to_string(), "Sign in!".to_string())]);
    assert_eq!(info.callbacks, vec![("clicked".to_string(), CallbackId::SignIn)]);
    assert!(c.children.is_empty());
}

fn child_ids(c: &Component) -> Vec<ComponentID> {
    c.children.iter().map(|ch| ch.id.clone()).collect()
}

#[test]
fn user_page_renders_each_request_status() {
    let mut d = finview::datamodel::DataModel::new();
    d.transactions = Ok(RespType::InProgress);
    d.accounts = Err("no balances today".to_string());
    let auth = sample_auth();
    let page = user_page(&d, &auth);
    match &page.id {
        ComponentID::NodeID(n) => assert_eq!(n, "user_page"),
        other => panic!("expected a grouping identity, got {:?}", other),
    }
    let ids = child_ids(&page);
    assert_eq!(ids.len(), 3);
    match &ids[1] {
        ComponentID::WidgetID(k) => {
            assert_eq!(k.tag, EWidget::LabelFrame);
            assert_eq!(k.discr, "balances-error");
        },
        other => panic!("a failed request renders as an error label, got {:?}", other),
    }
    match &ids[2] {
        ComponentID::WidgetID(k) => {
            assert_eq!(k.tag, EWidget::LabelFrame);
            assert_eq!(k.discr, "transactions");
        },
        other => panic!("an in-flight request renders as a progress label, got {:?}", other),
    }
}

#[test]
fn main_app_shows_the_sign_in_page_before_sign_in() {
    let d = finview::datamodel::DataModel::new();
    let c = main_app(&d);
    let ids = child_ids(&c);
    assert_eq!(ids.len(), 1);
    match &ids[0] {
        ComponentID::WidgetID(k) => assert_eq!(k.tag, EWidget::SignInButton),
        other => panic!("expected the sign-in button, got {:?}", other),
    }
}

#[test]
fn first_rebuild_mounts_the_sign_in_button() {
    let mut state = AppState::new();
    build_ui(&mut state);
    let ops = state.widgets.take_ops();
    let created_button = ops.iter().any(
        |op| matches!(op, Op::Create { key, .. } if key.tag == EWidget::SignInButton),
    );
    assert!(created_button, "the first rebuild must construct the sign-in button, got {:?}", ops);
    assert!(state.ui_tree.is_some());
}

#[test]
fn rebuild_from_unchanged_state_is_a_no_op() {
    let mut state = AppState::new();
    build_ui(&mut state);
    state.widgets.take_ops();
    build_ui(&mut state);
    let ops = state.widgets.take_ops();
    assert!(ops.is_empty(), "rebuilding from unchanged state must perform nothing, got {:?}", ops);
}

#[test]
fn dispatch_drain_and_rebuild_happen_exactly_once_per_tick() {
    let mut state = AppState::new();
    build_ui(&mut state);
    state.widgets.take_ops();

    let mut em = EventMap::new();
    assert!(em.dispatch(&vec![EventType::SignIn]));
    assert!(!em.dispatch(&vec![EventType::SignIn]), "the duplicate dispatch is rejected");

    em.complete(EventType::SignIn, Ok("auth payload".to_string()));
    let tick = em.poll_tick();
    assert_eq!(tick.drained.len(), 1);
    assert!(tick.rebuild);

    let parsed: Vec<(EventType, Result<RespType<ParsedResp>, String>)> = tick
        .drained
        .into_iter()
        .map(|(kind, outcome)| {
            (kind, outcome.map(|_payload| RespType::Done(ParsedResp::Auth(sample_auth()))))
        })
        .collect();
    apply_results(&mut state, parsed);
    assert!(matches!(state.data.auth_params, Ok(RespType::Done(_))));
    let ops = state.widgets.take_ops();
    let evicted_button = ops.iter().any(
        |op| matches!(op, Op::Evict { key, .. } if key.tag == EWidget::SignInButton),
    );
    let created_token_label = ops.iter().any(
        |op| matches!(op, Op::Create { key, .. } if key.tag == EWidget::LabelFrame && key.discr == "access token label"),
    );
    assert!(evicted_button, "the sign-in page is replaced wholesale, got {:?}", ops);
    assert!(created_token_label, "the signed-in page is mounted fresh, got {:?}", ops);

    let tick2 = em.poll_tick();
    assert!(tick2.drained.is_empty(), "the terminal status is applied exactly once");
    apply_results(&mut state, Vec::new());
    assert!(state.widgets.take_ops().is_empty(), "no drain, no rebuild");
}

#[test]
fn completed_data_renders_rows_and_panes() {
    let mut state = AppState::new();
    build_ui(&mut state);
    state.widgets.take_ops();

    let results = vec![
        (EventType::SignIn, Ok(RespType::Done(ParsedResp::Auth(sample_auth())))),
        (EventType::GetTrans, Ok(RespType::Done(ParsedResp::Trans(sample_transactions())))),
        (EventType::GetBal, Ok(RespType::Done(ParsedResp::Accts(sample_accounts())))),
    ];
    apply_results(&mut state, results);
    let ops = state.widgets.take_ops();
    let row_tx1 = ops.iter().any(
        |op| matches!(op, Op::Create { key, .. } if key.tag == EWidget::TransRow && key.discr == "tx1"),
    );
    let row_tx2 = ops.iter().any(
        |op| matches!(op, Op::Create { key, .. } if key.tag == EWidget::TransRow && key.discr == "tx2"),
    );
    let pane = ops.iter().any(
        |op| matches!(op, Op::Create { key, .. } if key.tag == EWidget::AccountBox && key.discr == "Checking"),
    );
    assert!(row_tx1 && row_tx2, "each transaction keys its own row, got {:?}", ops);
    assert!(pane, "each account keys its own pane, got {:?}", ops);
}
