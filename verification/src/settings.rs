//! One game setting: the length of the secret number, the number of tries,
//! or whether digits may repeat.

use vstd::prelude::*;
use crate::text::{decimal, u128_to_string};

verus! {

/// A game setting.
#[derive(Debug, Clone, Copy, PartialEq, Eq, Structural)]
pub enum Settings {
    /// How many digits the secret number has at most.
    NumLength(u8),
    /// How many guesses are left.
    Tries(u8),
    /// Whether digits may repeat.
    Repetition(bool),
}

/// The setting after `subtract(value)`.
pub open spec fn subtracted(s: Settings, value: u8) -> Settings {
    match s {
        Settings::Tries(tr) => Settings::Tries((tr - value) as u8),
        Settings::NumLength(len) => if len - value > 0 {
            Settings::NumLength((len - value) as u8)
        } else {
            s
        },
        Settings::Repetition(_) => s,
    }
}

/// `subtract(value)` does not overflow on `s`.
pub open spec fn can_subtract(s: Settings, value: u8) -> bool {
    match s {
        Settings::Tries(tr) => tr >= value,
        Settings::NumLength(len) => len >= value,
        Settings::Repetition(_) => true,
    }
}

/// The setting after `addition(value)`: tries up to ten, lengths up to four.
pub open spec fn added(s: Settings, value: u8) -> Settings {
    match s {
        Settings::Tries(tr) => if tr + value <= 10 {
            Settings::Tries((tr + value) as u8)
        } else {
            s
        },
        Settings::NumLength(len) => if len + value <= 4 {
            Settings::NumLength((len + value) as u8)
        } else {
            s
        },
        Settings::Repetition(_) => s,
    }
}

/// `addition(value)` does not overflow on `s`.
pub open spec fn can_add(s: Settings, value: u8) -> bool {
    match s {
        Settings::Tries(tr) => tr + value <= 255,
        Settings::NumLength(len) => len + value <= 255,
        Settings::Repetition(_) => true,
    }
}

/// How a setting is shown: `NumLength: 4`, `Tries: 9`, `Repetition: true`.
pub open spec fn shown_setting(s: Settings) -> Seq<char> {
    match s {
        Settings::NumLength(len) => "NumLength: "@ + decimal(len as nat),
        Settings::Tries(tr) => "Tries: "@ + decimal(tr as nat),
        Settings::Repetition(rp) => "Repetition: "@ + (if rp {
            "true"@
        } else {
            "false"@
        }),
    }
}

impl Settings {
    /// The length setting made from `num`.
    pub open spec fn length_spec(num: u8) -> Settings {
        if num > 4 {
            Settings::NumLength(num)
        } else {
            Settings::NumLength(4)
        }
    }

    /// The tries setting made from `tr`.
    pub open spec fn tries_spec(tr: u8) -> Settings {
        if tr > 10 {
            Settings::Tries(tr)
        } else {
            Settings::Tries(10)
        }
    }

    /// A length setting; lengths of four and below become four.
    pub fn length(num: u8) -> (r: Settings)
        ensures
            r == Settings::length_spec(num),
    {
        if num > 4 {
            return Settings::NumLength(num);
        }
        Settings::NumLength(4)
    }

    /// A repetition setting.
    pub fn active_repetition(state: bool) -> (r: Settings)
        ensures
            r == Settings::Repetition(state),
    {
        Settings::Repetition(state)
    }

    /// A tries setting; ten and below become ten.
    pub fn set_tries(tr: u8) -> (r: Settings)
        ensures
            r == Settings::tries_spec(tr),
    {
        if tr > 10 {
            return Settings::Tries(tr);
        }
        Settings::Tries(10)
    }

    /// Takes `value` off the tries, or off the length while it stays above zero.
    pub fn subtract(&mut self, value: u8)
        requires
            can_subtract(*old(self), value),
        ensures
            *final(self) == subtracted(*old(self), value),
    {
        match self {
            Settings::Tries(tr) => {
                *tr = *tr - value;
            },
            Settings::NumLength(tr) => {
                if *tr - value > 0 {
                    *tr = *tr - value;
                }
            },
            _ => {},
        }
    }

    /// Adds `value` to the tries while they stay at most ten, or to the length
    /// while it stays at most four.
    pub fn addition(&mut self, value: u8)
        requires
            can_add(*old(self), value),
        ensures
            *final(self) == added(*old(self), value),
    {
        match self {
            Settings::Tries(tr) => {
                if *tr + value <= 10 {
                    *tr = *tr + value;
                }
            },
            Settings::NumLength(tr) => {
                if *tr + value <= 4 {
                    *tr = *tr + value;
                }
            },
            _ => {},
        }
    }

    /// How the setting is shown to the player.
    pub fn to_string(&self) -> (r: String)
        ensures
            r@ == shown_setting(*self),
    {
        match self {
            Settings::NumLength(len) => {
                let mut out = String::from_str("NumLength: ");
                let n = u128_to_string(*len as u128);
                out.append(n.as_str());
                out
            },
            Settings::Tries(tr) => {
                let mut out = String::from_str("Tries: ");
                let n = u128_to_string(*tr as u128);
                out.append(n.as_str());
                out
            },
            Settings::Repetition(rp) => {
                let mut out = String::from_str("Repetition: ");
                if *rp {
                    out.append("true");
                } else {
                    out.append("false");
                }
                out
            },
        }
    }
}

/// Adding tries or length within the bound and taking the same amount off
/// again gives the setting back.
pub proof fn lemma_subtract_undoes_addition(s: Settings, value: u8)
    requires
        can_add(s, value),
        s matches Settings::Tries(tr) ==> tr + value <= 10,
        s matches Settings::NumLength(len) ==> len + value <= 4 && len > 0,
    ensures
        can_subtract(added(s, value), value),
        subtracted(added(s, value), value) == s,
{
}

/// Taking tries off never raises them, and a length never drops to zero
/// from above zero.
pub proof fn lemma_subtract_bounds(s: Settings, value: u8)
    requires
        can_subtract(s, value),
    ensures
        s matches Settings::Tries(tr) ==> subtracted(s, value) matches Settings::Tries(t2) && t2 <= tr,
        s matches Settings::NumLength(len) ==> subtracted(s, value) matches Settings::NumLength(l2)
            && l2 <= len && (len > 0 ==> l2 > 0),
{
}

} // verus!
