//! Event/request state machine scenarios: duplicate dispatch rejection,
//! drain-once across repeated ticks, timer arming and stopping.

use finview::datamodel::{DataModel, EventType, ParsedResp, RespType};
use finview::events::EventMap;
use finview::plaid::AuthParams;

#[test]
fn duplicate_dispatch_is_rejected_while_in_flight() {
    let mut em = EventMap::new();
    assert!(em.dispatch(&vec![EventType::SignIn, EventType::GetBal, EventType::GetTrans]));
    assert!(
        !em.dispatch(&vec![EventType::SignIn]),
        "a second dispatch for an in-flight kind must be a no-op"
    );
    assert!(!em.dispatch(&vec![EventType::GetTrans, EventType::GetBal]));
}

#[test]
fn dispatch_is_accepted_again_after_the_kind_resolves_and_drains() {
    let mut em = EventMap::new();
    assert!(em.dispatch(&vec![EventType::SignIn]));
    em.complete(EventType::SignIn, Ok("token".to_string()));
    let tick = em.poll_tick();
    assert_eq!(tick.drained.len(), 1);
    assert!(em.dispatch(&vec![EventType::SignIn]), "a drained kind may be dispatched afresh");
}

#[test]
fn terminal_status_is_drained_exactly_once() {
    let mut em = EventMap::new();
    assert!(em.dispatch(&vec![EventType::SignIn, EventType::GetTrans]));
    em.complete(EventType::SignIn, Ok("payload".to_string()));

    let tick1 = em.poll_tick();
    assert_eq!(tick1.drained.len(), 1);
    assert_eq!(tick1.drained[0].0, EventType::SignIn);
    assert_eq!(tick1.drained[0].1, Ok("payload".to_string()));
    assert!(tick1.rebuild);
    assert!(tick1.cont, "the still-pending kind keeps the timer firing");

    let tick2 = em.poll_tick();
    assert!(tick2.drained.is_empty(), "a second tick must not observe the drained status again");
    assert!(!tick2.rebuild);
    assert!(tick2.cont);
}

#[test]
fn timer_stops_once_nothing_is_tracked() {
    let mut em = EventMap::new();
    assert!(!em.timer_armed());
    assert!(em.dispatch(&vec![EventType::GetBal]));
    assert!(em.timer_armed());
    em.complete(EventType::GetBal, Err("boom".to_string()));
    let tick = em.poll_tick();
    assert_eq!(tick.drained[0].1, Err("boom".to_string()));
    assert!(tick.rebuild);
    assert!(!tick.cont, "nothing tracked: the timer must stop");
    assert!(!em.timer_armed());
}

#[test]
fn pending_kinds_keep_ticking_without_draining() {
    let mut em = EventMap::new();
    assert!(em.dispatch(&vec![EventType::GetTrans]));
    let tick = em.poll_tick();
    assert!(tick.drained.is_empty());
    assert!(!tick.rebuild);
    assert!(tick.cont);
}

#[test]
fn handle_event_routes_each_kind_to_its_own_field() {
    let mut d = DataModel::new();
    assert!(matches!(d.auth_params, Ok(RespType::NotStarted)));

    d.handle_event(EventType::SignIn, Ok(RespType::InProgress));
    assert!(matches!(d.auth_params, Ok(RespType::InProgress)));
    assert!(matches!(d.transactions, Ok(RespType::NotStarted)));
    assert!(matches!(d.accounts, Ok(RespType::NotStarted)));

    let auth = AuthParams::new("client".to_string(), "secret".to_string());
    d.handle_event(EventType::SignIn, Ok(RespType::Done(ParsedResp::Auth(auth))));
    match &d.auth_params {
        Ok(RespType::Done(a)) => {
            assert_eq!(a.client_id, Some("client".to_string()));
            assert_eq!(a.secret, Some("secret".to_string()));
            assert_eq!(a.access_token, None);
        },
        other => panic!("expected a completed sign-in, got {:?}", other),
    }

    d.handle_event(EventType::GetTrans, Err("transport failed".to_string()));
    assert!(matches!(&d.transactions, Err(e) if e == "transport failed"));
    assert!(matches!(d.auth_params, Ok(RespType::Done(_))), "other fields stay untouched");
}
