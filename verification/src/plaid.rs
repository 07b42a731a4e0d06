//! Plain-value models of the financial-data provider's records, and the
//! random link-identifier generator. The provider's wire protocol is the
//! embedding runtime's business; the core holds only what the tree builder
//! and the business state read.

use vstd::prelude::*;
use vstd::string::StringExecFns;

verus! {

/// Fixed credentials for the provider's sandbox environment.
#[derive(Debug)]
pub struct Credentials {
    pub username: &'static str,
    pub password: &'static str,
}

/// The parameters a completed sign-in yields; the access token authorises
/// the data requests that follow.
#[derive(Debug)]
pub struct AuthParams {
    pub access_token: Option<String>,
    pub item_id: Option<String>,
    pub secret: Option<String>,
    pub client_id: Option<String>,
}

impl AuthParams {
    /// Fresh parameters from the client id and secret the embedding runtime
    /// provides; no token yet.
    pub fn new(client_id: String, secret: String) -> (a: AuthParams)
        ensures
            a.access_token is None,
            a.item_id is None,
            a.secret == Some(secret),
            a.client_id == Some(client_id),
    {
        AuthParams { access_token: None, item_id: None, secret: Some(secret), client_id: Some(client_id) }
    }
}

/// An account balance, already formatted for display by the caller-supplied
/// deserializer.
#[derive(Debug)]
pub struct Balance {
    pub available: Option<String>,
    pub current: String,
}

/// One account of the signed-in user.
#[derive(Debug)]
pub struct Account {
    pub account_id: String,
    pub name: String,
    pub balances: Balance,
}

/// All accounts of one balance response.
#[derive(Debug)]
pub struct Accounts {
    pub accounts: Vec<Account>,
}

/// One transaction row, amounts formatted for display.
#[derive(Debug)]
pub struct Transaction {
    pub transaction_id: String,
    pub account_id: String,
    pub transaction_type: String,
    pub name: String,
    pub amount: String,
    pub date: String,
}

/// All transactions of one response.
#[derive(Debug)]
pub struct Transactions {
    pub transactions: Vec<Transaction>,
}

/// The sixteen hexadecimal digits, lower case.
pub open spec fn hex_char(n: u8) -> char {
    if n == 0 {
        '0'
    } else if n == 1 {
        '1'
    } else if n == 2 {
        '2'
    } else if n == 3 {
        '3'
    } else if n == 4 {
        '4'
    } else if n == 5 {
        '5'
    } else if n == 6 {
        '6'
    } else if n == 7 {
        '7'
    } else if n == 8 {
        '8'
    } else if n == 9 {
        '9'
    } else if n == 10 {
        'a'
    } else if n == 11 {
        'b'
    } else if n == 12 {
        'c'
    } else if n == 13 {
        'd'
    } else if n == 14 {
        'e'
    } else {
        'f'
    }
}

/// How many dashes precede character position `i` of the identifier.
pub open spec fn dashes_before(i: int) -> int {
    if i < 8 {
        0
    } else if i < 13 {
        1
    } else if i < 18 {
        2
    } else if i < 23 {
        3
    } else {
        4
    }
}

/// Character `i` of the identifier built from sixteen bytes: groups of 8, 4,
/// 4, 4 and 12 hex digits separated by dashes, two digits per byte, high
/// nibble first.
pub open spec fn id_char(b: Seq<u8>, i: int) -> char {
    if i == 8 || i == 13 || i == 18 || i == 23 {
        '-'
    } else {
        let p = i - dashes_before(i);
        if p % 2 == 0 {
            hex_char(b[p / 2] / 16)
        } else {
            hex_char(b[p / 2] % 16)
        }
    }
}

/// The canonical dashed identifier built from sixteen bytes.
pub open spec fn spec_hex_id(b: Seq<u8>) -> Seq<char> {
    Seq::new(36, |i: int| id_char(b, i))
}

/// Relies on rand::random: sixteen bytes drawn from the thread-local
/// generator. Nothing is promised of their values.
#[verifier::external_body]
fn random_bytes_16() -> (b: Vec<u8>)
    ensures
        b@.len() == 16,
{
    let mut out = Vec::with_capacity(16);
    for _ in 0..16 {
        out.push(rand::random::<u8>());
    }
    out
}

/// The hex digit of one nibble, as a one-character string slice.
fn hex_digit_str(n: u8) -> (r: &'static str)
    requires
        n < 16,
    ensures
        r@ =~= seq![hex_char(n)],
{
    proof {
        reveal_strlit("0");
        reveal_strlit("1");
        reveal_strlit("2");
        reveal_strlit("3");
        reveal_strlit("4");
        reveal_strlit("5");
        reveal_strlit("6");
        reveal_strlit("7");
        reveal_strlit("8");
        reveal_strlit("9");
        reveal_strlit("a");
        reveal_strlit("b");
        reveal_strlit("c");
        reveal_strlit("d");
        reveal_strlit("e");
        reveal_strlit("f");
    }
    match n {
        0 => "0",
        1 => "1",
        2 => "2",
        3 => "3",
        4 => "4",
        5 => "5",
        6 => "6",
        7 => "7",
        8 => "8",
        9 => "9",
        10 => "a",
        11 => "b",
        12 => "c",
        13 => "d",
        14 => "e",
        _ => "f",
    }
}

/// Format sixteen bytes as the canonical dashed identifier.
#[verifier::loop_isolation(false)]
pub fn hex_id(bytes: &Vec<u8>) -> (s: String)
    requires
        bytes@.len() == 16,
    ensures
        s@ == spec_hex_id(bytes@),
{
    let mut s = String::new();
    let mut pos: usize = 0;
    while pos < 36
        invariant
            0 <= pos <= 36,
            s@.len() == pos,
            forall|j: int| 0 <= j < pos ==> s@[j] == id_char(bytes@, j),
        decreases 36 - pos,
    {
        if pos == 8 || pos == 13 || pos == 18 || pos == 23 {
            s.append("-");
            proof {
                reveal_strlit("-");
            }
        } else {
            let d: usize = if pos < 8 {
                0
            } else if pos < 13 {
                1
            } else if pos < 18 {
                2
            } else if pos < 23 {
                3
            } else {
                4
            };
            let p = pos - d;
            let byte = bytes[p / 2];
            let nibble = if p % 2 == 0 {
                byte / 16
            } else {
                byte % 16
            };
            s.append(hex_digit_str(nibble));
        }
        pos += 1;
    }
    proof {
        assert(s@ =~= spec_hex_id(bytes@));
    }
    s
}

/// A fresh random link identifier in canonical dashed form; its characters
/// are fully determined by sixteen random bytes.
pub fn gen_random_id() -> (s: String)
    ensures
        s@.len() == 36,
        exists|b: Seq<u8>| b.len() == 16 && s@ == spec_hex_id(b),
{
    let bytes = random_bytes_16();
    let s = hex_id(&bytes);
    proof {
        assert(bytes@.len() == 16 && s@ == spec_hex_id(bytes@));
    }
    s
}

} // verus!
