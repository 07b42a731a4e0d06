//! Business state and the status of each asynchronous request kind. A
//! terminal status drained by the poller is applied here exactly once, one
//! field per event kind.

use vstd::prelude::*;

use crate::plaid::{Accounts, AuthParams, Transactions};

verus! {

/// The progress of one asynchronous request.
#[derive(Debug)]
pub enum RespType<T> {
    NotStarted,
    InProgress,
    Done(T),
}

/// Status of a request: its progress on success, an error message on
/// failure. `Done` and `Err` are terminal for one dispatch.
pub type ReqStatus<T> = Result<RespType<T>, String>;

/// The kinds of asynchronous business request.
#[derive(Clone, Copy, PartialEq, Eq, Structural, Debug)]
pub enum EventType {
    SignIn,
    GetTrans,
    GetBal,
}

/// A background payload already interpreted by the caller-supplied
/// deserializer for its event kind.
#[derive(Debug)]
pub enum ParsedResp {
    Auth(AuthParams),
    Trans(Transactions),
    Accts(Accounts),
}

/// A payload, if present, belongs to the event kind whose deserializer
/// produced it.
pub open spec fn kind_matches(et: EventType, rs: ReqStatus<ParsedResp>) -> bool {
    match rs {
        Ok(RespType::Done(p)) => match (et, p) {
            (EventType::SignIn, ParsedResp::Auth(_)) => true,
            (EventType::GetTrans, ParsedResp::Trans(_)) => true,
            (EventType::GetBal, ParsedResp::Accts(_)) => true,
            _ => false,
        },
        _ => true,
    }
}

/// The sign-in status a drained result sets.
pub open spec fn auth_status(rs: ReqStatus<ParsedResp>) -> ReqStatus<AuthParams>
    recommends
        kind_matches(EventType::SignIn, rs),
{
    match rs {
        Ok(RespType::NotStarted) => Ok(RespType::NotStarted),
        Ok(RespType::InProgress) => Ok(RespType::InProgress),
        Ok(RespType::Done(ParsedResp::Auth(a))) => Ok(RespType::Done(a)),
        Ok(RespType::Done(_)) => vstd::pervasive::arbitrary(),
        Err(e) => Err(e),
    }
}

/// The transactions status a drained result sets.
pub open spec fn trans_status(rs: ReqStatus<ParsedResp>) -> ReqStatus<Transactions>
    recommends
        kind_matches(EventType::GetTrans, rs),
{
    match rs {
        Ok(RespType::NotStarted) => Ok(RespType::NotStarted),
        Ok(RespType::InProgress) => Ok(RespType::InProgress),
        Ok(RespType::Done(ParsedResp::Trans(t))) => Ok(RespType::Done(t)),
        Ok(RespType::Done(_)) => vstd::pervasive::arbitrary(),
        Err(e) => Err(e),
    }
}

/// The accounts status a drained result sets.
pub open spec fn accts_status(rs: ReqStatus<ParsedResp>) -> ReqStatus<Accounts>
    recommends
        kind_matches(EventType::GetBal, rs),
{
    match rs {
        Ok(RespType::NotStarted) => Ok(RespType::NotStarted),
        Ok(RespType::InProgress) => Ok(RespType::InProgress),
        Ok(RespType::Done(ParsedResp::Accts(a))) => Ok(RespType::Done(a)),
        Ok(RespType::Done(_)) => vstd::pervasive::arbitrary(),
        Err(e) => Err(e),
    }
}

/// The transition one handled event performs on the business state: the
/// event's own field is set, the others are untouched.
pub open spec fn handle_tr(d: DataModel, et: EventType, rs: ReqStatus<ParsedResp>) -> DataModel {
    DataModel {
        auth_params: if et == EventType::SignIn {
            auth_status(rs)
        } else {
            d.auth_params
        },
        transactions: if et == EventType::GetTrans {
            trans_status(rs)
        } else {
            d.transactions
        },
        accounts: if et == EventType::GetBal {
            accts_status(rs)
        } else {
            d.accounts
        },
    }
}

/// The business state after a sequence of handled events, oldest first.
pub open spec fn apply_events_tr(
    d: DataModel,
    results: Seq<(EventType, ReqStatus<ParsedResp>)>,
) -> DataModel
    decreases results,
{
    if results.len() == 0 {
        d
    } else {
        handle_tr(
            apply_events_tr(d, results.drop_last()),
            results.last().0,
            results.last().1,
        )
    }
}

/// The business state the tree builder renders: one request status per slice
/// of provider data.
#[derive(Debug)]
pub struct DataModel {
    pub auth_params: ReqStatus<AuthParams>,
    pub transactions: ReqStatus<Transactions>,
    pub accounts: ReqStatus<Accounts>,
}

impl DataModel {
    /// Nothing requested yet.
    pub fn new() -> (d: DataModel)
        ensures
            d.auth_params == Ok::<RespType<AuthParams>, String>(RespType::NotStarted),
            d.transactions == Ok::<RespType<Transactions>, String>(RespType::NotStarted),
            d.accounts == Ok::<RespType<Accounts>, String>(RespType::NotStarted),
    {
        DataModel {
            auth_params: Ok(RespType::NotStarted),
            transactions: Ok(RespType::NotStarted),
            accounts: Ok(RespType::NotStarted),
        }
    }

    /// Apply one event's status to the field it owns, leaving the other
    /// fields untouched. Each kind's handler touches only its own slice of
    /// business state.
    pub fn handle_event(&mut self, et: EventType, rs: ReqStatus<ParsedResp>)
        requires
            kind_matches(et, rs),
        ensures
            final(self).auth_params == if et == EventType::SignIn {
                auth_status(rs)
            } else {
                old(self).auth_params
            },
            final(self).transactions == if et == EventType::GetTrans {
                trans_status(rs)
            } else {
                old(self).transactions
            },
            final(self).accounts == if et == EventType::GetBal {
                accts_status(rs)
            } else {
                old(self).accounts
            },
    {
        match et {
            EventType::SignIn => {
                self.auth_params = match rs {
                    Ok(RespType::NotStarted) => Ok(RespType::NotStarted),
                    Ok(RespType::InProgress) => Ok(RespType::InProgress),
                    Ok(RespType::Done(ParsedResp::Auth(a))) => Ok(RespType::Done(a)),
                    Ok(RespType::Done(_)) => vstd::pervasive::unreached(),
                    Err(e) => Err(e),
                };
            },
            EventType::GetTrans => {
                self.transactions = match rs {
                    Ok(RespType::NotStarted) => Ok(RespType::NotStarted),
                    Ok(RespType::InProgress) => Ok(RespType::InProgress),
                    Ok(RespType::Done(ParsedResp::Trans(t))) => Ok(RespType::Done(t)),
                    Ok(RespType::Done(_)) => vstd::pervasive::unreached(),
                    Err(e) => Err(e),
                };
            },
            EventType::GetBal => {
                self.accounts = match rs {
                    Ok(RespType::NotStarted) => Ok(RespType::NotStarted),
                    Ok(RespType::InProgress) => Ok(RespType::InProgress),
                    Ok(RespType::Done(ParsedResp::Accts(a))) => Ok(RespType::Done(a)),
                    Ok(RespType::Done(_)) => vstd::pervasive::unreached(),
                    Err(e) => Err(e),
                };
            },
        }
    }
}

} // verus!
