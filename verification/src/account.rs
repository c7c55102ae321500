//! Player accounts and the one-line record format of the account file.

use vstd::prelude::*;
use crate::text::{decimal, parse_u32, parse_unsigned, split, split_spec, u128_to_string, views_of};

verus! {

/// A player: an id to log in with, a name, a password and the last score.
pub struct Account {
    pub id: String,
    pub full_name: String,
    pub password: String,
    pub score: u32,
}

/// What an account holds, as text and number.
pub struct AccountView {
    pub id: Seq<char>,
    pub full_name: Seq<char>,
    pub password: Seq<char>,
    pub score: u32,
}

impl View for Account {
    type V = AccountView;

    open spec fn view(&self) -> AccountView {
        AccountView {
            id: self.id@,
            full_name: self.full_name@,
            password: self.password@,
            score: self.score,
        }
    }
}

impl Clone for Account {
    fn clone(&self) -> (r: Self)
        ensures
            r@ == self@,
    {
        Account {
            id: self.id.clone(),
            full_name: self.full_name.clone(),
            password: self.password.clone(),
            score: self.score,
        }
    }
}

impl PartialEq for Account {
    fn eq(&self, other: &Self) -> (r: bool) {
        self.id == other.id && self.full_name == other.full_name && self.password
            == other.password && self.score == other.score
    }
}

impl vstd::std_specs::cmp::PartialEqSpecImpl for Account {
    open spec fn obeys_eq_spec() -> bool {
        true
    }

    open spec fn eq_spec(&self, other: &Account) -> bool {
        self@ == other@
    }
}

/// The pieces of a record line, cut at the commas.
pub open spec fn record_fields(line: Seq<char>) -> Seq<Seq<char>> {
    split_spec(line, ',')
}

/// A line that `Account::from_line` accepts: one that does not have four
/// fields, or whose fourth field is a `u32` in decimal.
pub open spec fn line_is_readable(line: Seq<char>) -> bool {
    record_fields(line).len() == 4 ==> parse_unsigned(record_fields(line)[3], u32::MAX as nat) is Ok
}

/// The score written in the fourth field of a readable four-field line.
pub open spec fn line_score(line: Seq<char>) -> u32 {
    match parse_unsigned(record_fields(line)[3], u32::MAX as nat) {
        Ok(v) => v as u32,
        Err(_) => 0,
    }
}

/// The account that a line describes, if it has exactly four fields.
pub open spec fn account_of_line(line: Seq<char>) -> Option<AccountView> {
    let f = record_fields(line);
    if f.len() == 4 {
        Some(AccountView { id: f[0], full_name: f[1], password: f[2], score: line_score(line) })
    } else {
        None
    }
}

/// The line that saves an account: its fields joined by commas, the score in
/// decimal, and a newline.
pub open spec fn record_of(a: AccountView) -> Seq<char> {
    a.id + seq![','] + a.full_name + seq![','] + a.password + seq![','] + decimal(a.score as nat)
        + seq!['\n']
}

/// How an account is shown: `{ ID: .., Name: .., Pass: .., Score: .. }`.
pub open spec fn shown(a: AccountView) -> Seq<char> {
    "{ ID: "@ + a.id + ", Name: "@ + a.full_name + ", Pass: "@ + a.password + ", Score: "@
        + decimal(a.score as nat) + " }"@
}

impl Account {
    /// An account with the given fields.
    pub fn new(id: &str, name: &str, pass: &str, sc: u32) -> (r: Account)
        ensures
            r@ == (AccountView { id: id@, full_name: name@, password: pass@, score: sc }),
    {
        Account {
            id: String::from_str(id),
            full_name: String::from_str(name),
            password: String::from_str(pass),
            score: sc,
        }
    }

    /// Reads an account from a record line `id,name,password,score`; a line
    /// with another number of fields gives `None`.
    pub fn from_line(line: &str) -> (r: Option<Account>)
        requires
            line_is_readable(line@),
        ensures
            match account_of_line(line@) {
                Some(a) => r matches Some(acc) && acc@ == a,
                None => r is None,
            },
    {
        let parts = split(line, ',');
        if parts.len() == 4 {
            assert(views_of(parts@)[3] == parts@[3]@);
            assert(views_of(parts@)[0] == parts@[0]@);
            assert(views_of(parts@)[1] == parts@[1]@);
            assert(views_of(parts@)[2] == parts@[2]@);
            let score = match parse_u32(parts[3]) {
                Ok(v) => v,
                Err(_) => {
                    assert(false);
                    0
                },
            };
            Some(
                Account {
                    id: String::from_str(parts[0]),
                    full_name: String::from_str(parts[1]),
                    password: String::from_str(parts[2]),
                    score,
                },
            )
        } else {
            None
        }
    }

    /// The record line that saves this account.
    pub fn record(&self) -> (r: String)
        ensures
            r@ == record_of(self@),
    {
        proof {
            reveal_strlit(",");
            reveal_strlit("\n");
        }
        let mut out = self.id.clone();
        out.append(",");
        out.append(self.full_name.as_str());
        out.append(",");
        out.append(self.password.as_str());
        out.append(",");
        let score = u128_to_string(self.score as u128);
        out.append(score.as_str());
        out.append("\n");
        out
    }

    /// How the account is shown to the player.
    pub fn to_string(&self) -> (r: String)
        ensures
            r@ == shown(self@),
    {
        let mut out = String::from_str("{ ID: ");
        out.append(self.id.as_str());
        out.append(", Name: ");
        out.append(self.full_name.as_str());
        out.append(", Pass: ");
        out.append(self.password.as_str());
        out.append(", Score: ");
        let score = u128_to_string(self.score as u128);
        out.append(score.as_str());
        out.append(" }");
        out
    }
}

} // verus!
