//! The decisions of the game's menus: which entry a typed line picks, the
//! settings it makes, logging in and registering, and the score a player
//! keeps after a game.

use vstd::prelude::*;
use crate::account::{Account, AccountView};
use crate::list::List;
use crate::settings::Settings;
use crate::text::{chars_of, parse_u8, parse_unsigned, trim, trim_spec, IntErrorKind};

verus! {

/// The main menu's entries.
#[derive(Debug, Clone, Copy, PartialEq, Eq, Structural)]
pub enum MenuChoice {
    /// Show the menu again.
    Redraw,
    /// Play a game.
    Start,
    /// Sign up or log in.
    Login,
    /// Change a setting.
    Settings,
    /// Show the leader board.
    LeaderBoard,
    /// Leave the program.
    Exit,
    /// A number that names no entry.
    Invalid,
}

/// The settings menu's entries.
#[derive(Debug, Clone, Copy, PartialEq, Eq, Structural)]
pub enum SettingsChoice {
    /// Back to the main menu.
    Menu,
    /// Set the number length.
    Length,
    /// Set the tries.
    Tries,
    /// Set the repetition.
    Repetition,
    /// A number that names no entry.
    Invalid,
}

/// The menu's state: the last setting made and the player logged in.
pub struct MasterMind {
    pub settings: Option<Settings>,
    pub account: Option<Account>,
}

/// `c` in lower case, for ASCII letters.
pub open spec fn ascii_lower(c: char) -> char {
    if 'A' <= c && c <= 'Z' {
        ((c as u32) + 32) as char
    } else {
        c
    }
}

/// `s` in lower case is `w`, where `w` is a word of lower-case ASCII
/// letters. No character outside ASCII lowers to one of the letters of
/// `yes` and `no` (the Kelvin sign lowers to `k` and is the only one that
/// lowers into ASCII at all besides `İ`, which lowers to two characters),
/// so for these words this is what comparing `to_lowercase()` decides.
pub open spec fn lowers_to(s: Seq<char>, w: Seq<char>) -> bool {
    s.len() == w.len() && forall|i: int| 0 <= i < s.len() ==> ascii_lower(#[trigger] s[i]) == w[i]
}

/// What the answer to the repetition question sets: `yes` or `y` turns it
/// on, `no` or `n` off, in any case and with white space around; anything
/// else sets nothing.
pub open spec fn repetition_of(line: Seq<char>) -> Option<bool> {
    let t = trim_spec(line);
    if lowers_to(t, "yes"@) || lowers_to(t, "y"@) {
        Some(true)
    } else if lowers_to(t, "no"@) || lowers_to(t, "n"@) {
        Some(false)
    } else {
        None
    }
}

/// The score of the first account with the given id, or 0 if none has it.
pub open spec fn score_in(s: Seq<AccountView>, id: Seq<char>) -> u32
    decreases s.len(),
{
    if s.len() == 0 {
        0
    } else if s[0].id == id {
        s[0].score
    } else {
        score_in(s.drop_first(), id)
    }
}

/// The score a player takes: 0 when no account has the id, else the score
/// of the first account that has it.
pub proof fn lemma_score_in_first_match(s: Seq<AccountView>, id: Seq<char>)
    ensures
        (forall|i: int| 0 <= i < s.len() ==> (#[trigger] s[i]).id != id) ==> score_in(s, id) == 0,
        forall|i: int|
            0 <= i < s.len() && (#[trigger] s[i]).id == id && (forall|j: int|
                0 <= j < i ==> s[j].id != id) ==> score_in(s, id) == s[i].score,
    decreases s.len(),
{
    if s.len() > 0 {
        let rest = s.drop_first();
        lemma_score_in_first_match(rest, id);
        if forall|i: int| 0 <= i < s.len() ==> (#[trigger] s[i]).id != id {
            assert forall|i: int| 0 <= i < rest.len() implies (#[trigger] rest[i]).id != id by {
                assert(rest[i] == s[i + 1]);
            }
            assert(s[0].id != id);
        }
        assert forall|i: int|
            0 <= i < s.len() && (#[trigger] s[i]).id == id && (forall|j: int|
                0 <= j < i ==> s[j].id != id) implies score_in(s, id) == s[i].score by {
            if i > 0 {
                assert(s[0].id != id);
                assert(rest[i - 1] == s[i]);
                assert forall|j: int| 0 <= j < i - 1 implies rest[j].id != id by {
                    assert(rest[j] == s[j + 1]);
                }
            }
        }
    }
}

/// Lowering to a word is comparing, character by character, the ASCII
/// lower case of `s` with `w`: same length, same characters.
pub proof fn lemma_lowers_to_is_lowercase(s: Seq<char>, w: Seq<char>)
    ensures
        lowers_to(s, w) <==> s.map_values(|c: char| ascii_lower(c)) == w,
        lowers_to(s, w) ==> s.len() == w.len(),
{
    if s.map_values(|c: char| ascii_lower(c)) == w {
        assert forall|i: int| 0 <= i < s.len() implies ascii_lower(#[trigger] s[i]) == w[i] by {
            assert(s.map_values(|c: char| ascii_lower(c))[i] == ascii_lower(s[i]));
        }
    }
    if lowers_to(s, w) {
        assert(s.map_values(|c: char| ascii_lower(c)) =~= w);
    }
}

/// The repetition answer is on exactly for `yes` or `y` and off exactly for
/// `no` or `n`, each in any ASCII case with white space around; nothing else
/// (an empty line, a prefix such as `ye`, a longer word) sets anything.
pub proof fn lemma_repetition_answers(line: Seq<char>)
    ensures
        repetition_of(line) == Some(true) <==> (trim_spec(line).map_values(|c: char| ascii_lower(c))
            == "yes"@ || trim_spec(line).map_values(|c: char| ascii_lower(c)) == "y"@),
        repetition_of(line) == Some(false) <==> (trim_spec(line).map_values(
            |c: char| ascii_lower(c),
        ) != "yes"@ && trim_spec(line).map_values(|c: char| ascii_lower(c)) != "y"@ && (trim_spec(
            line,
        ).map_values(|c: char| ascii_lower(c)) == "no"@ || trim_spec(line).map_values(
            |c: char| ascii_lower(c),
        ) == "n"@)),
        repetition_of(line) is Some ==> 1 <= trim_spec(line).len() <= 3,
{
    let t = trim_spec(line);
    lemma_lowers_to_is_lowercase(t, "yes"@);
    lemma_lowers_to_is_lowercase(t, "y"@);
    lemma_lowers_to_is_lowercase(t, "no"@);
    lemma_lowers_to_is_lowercase(t, "n"@);
    reveal_strlit("yes");
    reveal_strlit("y");
    reveal_strlit("no");
    reveal_strlit("n");
}

/// Whether `s` in lower case is `w`.
fn lowers_to_exec(s: &str, w: &str) -> (r: bool)
    ensures
        r == lowers_to(s@, w@),
{
    let x = chars_of(s);
    let y = chars_of(w);
    if x.len() != y.len() {
        return false;
    }
    let mut i: usize = 0;
    while i < x.len()
        invariant
            i <= x@.len(),
            x@.len() == y@.len(),
            x@ == s@,
            y@ == w@,
            forall|j: int| 0 <= j < i ==> ascii_lower(#[trigger] s@[j]) == w@[j],
        decreases x@.len() - i,
    {
        let c = x[i];
        let lower = if 'A' <= c && c <= 'Z' {
            ((c as u32) + 32) as u8 as char
        } else {
            c
        };
        assert(lower == ascii_lower(c));
        if lower != y[i] {
            return false;
        }
        i = i + 1;
    }
    true
}

/// The score of the first account in `updated` with the given id, or 0.
fn score_of(updated: &Vec<Account>, id: &str) -> (r: u32)
    ensures
        r == score_in(crate::store::views(updated@), id@),
{
    let ghost views = crate::store::views(updated@);
    let mut i: usize = 0;
    assert(views.skip(0) =~= views);
    while i < updated.len()
        invariant
            i <= updated@.len(),
            views == crate::store::views(updated@),
            score_in(views, id@) == score_in(views.skip(i as int), id@),
        decreases updated@.len() - i,
    {
        let ghost rest = views.skip(i as int);
        assert(rest[0] == updated@[i as int]@);
        assert(rest.drop_first() =~= views.skip(i + 1));
        if crate::text::same_text(updated[i].id.as_str(), id) {
            return updated[i].score;
        }
        i = i + 1;
    }
    assert(views.skip(i as int) =~= Seq::<AccountView>::empty());
    0
}

impl MasterMind {
    /// No setting made and nobody logged in.
    pub fn new() -> (r: MasterMind)
        ensures
            r.settings is None,
            r.account is None,
    {
        MasterMind { settings: None, account: None }
    }

    /// The number typed on a line, or `fallback` with the reason when the
    /// line is no number from 0 to 255.
    pub fn read_number(line: &str, fallback: u8) -> (r: (u8, Option<IntErrorKind>))
        ensures
            match parse_unsigned(trim_spec(line@), 255) {
                Ok(v) => r == (v as u8, None::<IntErrorKind>),
                Err(e) => r == (fallback, Some(e)),
            },
    {
        match parse_u8(trim(line)) {
            Ok(v) => (v, None),
            Err(e) => (fallback, Some(e)),
        }
    }

    /// The main menu entry that a number picks.
    pub fn menu_choice(choice: u8) -> (r: MenuChoice)
        ensures
            r == (if choice == 0 {
                MenuChoice::Redraw
            } else if choice == 1 {
                MenuChoice::Start
            } else if choice == 2 {
                MenuChoice::Login
            } else if choice == 3 {
                MenuChoice::Settings
            } else if choice == 4 {
                MenuChoice::LeaderBoard
            } else if choice == 5 {
                MenuChoice::Exit
            } else {
                MenuChoice::Invalid
            }),
    {
        match choice {
            0 => MenuChoice::Redraw,
            1 => MenuChoice::Start,
            2 => MenuChoice::Login,
            3 => MenuChoice::Settings,
            4 => MenuChoice::LeaderBoard,
            5 => MenuChoice::Exit,
            _ => MenuChoice::Invalid,
        }
    }

    /// The settings menu entry that a number picks.
    pub fn settings_choice(id: u8) -> (r: SettingsChoice)
        ensures
            r == (if id == 0 || id == 4 {
                SettingsChoice::Menu
            } else if id == 1 {
                SettingsChoice::Length
            } else if id == 2 {
                SettingsChoice::Tries
            } else if id == 3 {
                SettingsChoice::Repetition
            } else {
                SettingsChoice::Invalid
            }),
    {
        match id {
            0 => SettingsChoice::Menu,
            1 => SettingsChoice::Length,
            2 => SettingsChoice::Tries,
            3 => SettingsChoice::Repetition,
            4 => SettingsChoice::Menu,
            _ => SettingsChoice::Invalid,
        }
    }

    /// The repetition that an answer line asks for, if any.
    pub fn repetition_answer(line: &str) -> (r: Option<bool>)
        ensures
            r == repetition_of(line@),
    {
        let t = trim(line);
        if lowers_to_exec(t, "yes") || lowers_to_exec(t, "y") {
            Some(true)
        } else if lowers_to_exec(t, "no") || lowers_to_exec(t, "n") {
            Some(false)
        } else {
            None
        }
    }

    /// Sets the number length; `false` when the value was too small and
    /// four was set instead.
    pub fn choose_length(&mut self, value: u8) -> (r: bool)
        ensures
            final(self).settings == Some(Settings::length_spec(value)),
            final(self).account == old(self).account,
            r == (value > 4),
    {
        self.settings = Some(Settings::length(value));
        value > 4
    }

    /// Sets the tries; `false` when the value was too small and ten was set
    /// instead.
    pub fn choose_tries(&mut self, value: u8) -> (r: bool)
        ensures
            final(self).settings == Some(Settings::tries_spec(value)),
            final(self).account == old(self).account,
            r == (value > 10),
    {
        self.settings = Some(Settings::set_tries(value));
        value > 10
    }

    /// Sets the repetition.
    pub fn choose_repetition(&mut self, on: bool)
        ensures
            final(self).settings == Some(Settings::Repetition(on)),
            final(self).account == old(self).account,
    {
        self.settings = Some(Settings::active_repetition(on));
    }

    /// Logs in the first account whose id is the typed line without white
    /// space around it; if there is none, nobody is logged in.
    pub fn login_with(&mut self, users: &List<Account>, line: &str) -> (r: bool)
        ensures
            final(self).settings == old(self).settings,
            r == (exists|i: int| 0 <= i < users@.len() && users@[i].id@ == trim_spec(line@)),
            r ==> (exists|i: int|
                {
                    &&& 0 <= i < users@.len()
                    &&& users@[i].id@ == trim_spec(line@)
                    &&& forall|j: int| 0 <= j < i ==> (#[trigger] users@[j]).id@ != trim_spec(line@)
                    &&& final(self).account matches Some(a) && a@ == users@[i]@
                }),
            !r ==> final(self).account is None,
    {
        let id = trim(line);
        match users.find_by_id(id) {
            Some(user) => {
                self.account = Some(user.clone());
                true
            },
            None => {
                self.account = None;
                false
            },
        }
    }

    /// Registers the player. The id, name and password lines are read into
    /// copies that are dropped, so the account made has them empty, and a
    /// score of zero.
    pub fn register(&mut self)
        ensures
            final(self).settings == old(self).settings,
            final(self).account matches Some(a) && a@ == (AccountView {
                id: Seq::empty(),
                full_name: Seq::empty(),
                password: Seq::empty(),
                score: 0,
            }),
    {
        proof {
            reveal_strlit("");
        }
        assert(""@ =~= Seq::<char>::empty());
        self.account = Some(Account::new("", "", "", 0));
    }

    /// After a game: the logged-in player takes the score of the first
    /// account in `updated` with the player's id, or 0 if there is none.
    pub fn take_score(&mut self, updated: &Vec<Account>)
        requires
            old(self).account is Some,
        ensures
            final(self).settings == old(self).settings,
            final(self).account matches Some(a) && a@ == (AccountView {
                score: score_in(crate::store::views(updated@), old(self).account->0@.id),
                ..old(self).account->0@
            }),
    {
        match &self.account {
            Some(account) => {
                let mut next = account.clone();
                next.score = score_of(updated, account.id.as_str());
                self.account = Some(next);
            },
            None => {},
        }
    }
}

} // verus!
