use mastermind::account::Account;
use mastermind::list::List;
use mastermind::menu::{MasterMind, MenuChoice, SettingsChoice};
use mastermind::settings::Settings;
use mastermind::text::IntErrorKind;

#[test]
fn settings_values() {
    assert_eq!(Settings::length(5), Settings::NumLength(5));
    assert_eq!(Settings::length(4), Settings::NumLength(4));
    assert_eq!(Settings::length(0), Settings::NumLength(4));
    assert_eq!(Settings::set_tries(11), Settings::Tries(11));
    assert_eq!(Settings::set_tries(3), Settings::Tries(10));
    assert_eq!(Settings::active_repetition(true), Settings::Repetition(true));
}

#[test]
fn settings_arithmetic() {
    let mut t = Settings::Tries(5);
    t.subtract(1);
    assert_eq!(t, Settings::Tries(4));
    t.addition(6);
    assert_eq!(t, Settings::Tries(10));
    t.addition(1);
    assert_eq!(t, Settings::Tries(10));
    let mut n = Settings::NumLength(3);
    n.subtract(3);
    assert_eq!(n, Settings::NumLength(3));
    n.subtract(2);
    assert_eq!(n, Settings::NumLength(1));
    n.addition(3);
    assert_eq!(n, Settings::NumLength(4));
    n.addition(1);
    assert_eq!(n, Settings::NumLength(4));
    let mut r = Settings::Repetition(false);
    r.subtract(9);
    r.addition(9);
    assert_eq!(r, Settings::Repetition(false));
}

#[test]
fn settings_shown() {
    assert_eq!(Settings::NumLength(12).to_string(), "NumLength: 12");
    assert_eq!(Settings::Tries(0).to_string(), "Tries: 0");
    assert_eq!(Settings::Repetition(true).to_string(), "Repetition: true");
    assert_eq!(Settings::Repetition(false).to_string(), "Repetition: false");
}

#[test]
fn menu_choices() {
    assert_eq!(MasterMind::read_number(" 3\n", 0), (3, None));
    assert_eq!(MasterMind::read_number("x\n", 0), (0, Some(IntErrorKind::InvalidDigit)));
    assert_eq!(MasterMind::read_number("\n", 4), (4, Some(IntErrorKind::Empty)));
    assert_eq!(MasterMind::menu_choice(0), MenuChoice::Redraw);
    assert_eq!(MasterMind::menu_choice(1), MenuChoice::Start);
    assert_eq!(MasterMind::menu_choice(2), MenuChoice::Login);
    assert_eq!(MasterMind::menu_choice(3), MenuChoice::Settings);
    assert_eq!(MasterMind::menu_choice(4), MenuChoice::LeaderBoard);
    assert_eq!(MasterMind::menu_choice(5), MenuChoice::Exit);
    assert_eq!(MasterMind::menu_choice(6), MenuChoice::Invalid);
    assert_eq!(MasterMind::settings_choice(0), SettingsChoice::Menu);
    assert_eq!(MasterMind::settings_choice(4), SettingsChoice::Menu);
    assert_eq!(MasterMind::settings_choice(1), SettingsChoice::Length);
    assert_eq!(MasterMind::settings_choice(2), SettingsChoice::Tries);
    assert_eq!(MasterMind::settings_choice(3), SettingsChoice::Repetition);
    assert_eq!(MasterMind::settings_choice(9), SettingsChoice::Invalid);
}

#[test]
fn repetition_answers() {
    assert_eq!(MasterMind::repetition_answer("YES\n"), Some(true));
    assert_eq!(MasterMind::repetition_answer(" y "), Some(true));
    assert_eq!(MasterMind::repetition_answer("No"), Some(false));
    assert_eq!(MasterMind::repetition_answer("n\r\n"), Some(false));
    assert_eq!(MasterMind::repetition_answer("maybe"), None);
    assert_eq!(MasterMind::repetition_answer("yes please"), None);
}

#[test]
fn choosing_settings() {
    let mut mm = MasterMind::new();
    assert!(mm.settings.is_none() && mm.account.is_none());
    assert!(!mm.choose_length(2));
    assert_eq!(mm.settings, Some(Settings::NumLength(4)));
    assert!(mm.choose_tries(12));
    assert_eq!(mm.settings, Some(Settings::Tries(12)));
    mm.choose_repetition(true);
    assert_eq!(mm.settings, Some(Settings::Repetition(true)));
}

#[test]
fn login_register_and_score() {
    let users = List::new()
        .prepend(Account::new("GG", "Jorji", "7656", 865))
        .prepend(Account::new("scarface", "Lian", "2653", 85));
    let mut mm = MasterMind::new();
    assert!(mm.login_with(&users, "  GG\n"));
    assert_eq!(mm.account.as_ref().unwrap().full_name, "Jorji");
    let updated = vec![Account::new("x", "", "", 1), Account::new("GG", "Jorji", "7656", 140)];
    mm.take_score(&updated);
    assert_eq!(mm.account.as_ref().unwrap().score, 140);
    mm.take_score(&Vec::new());
    assert_eq!(mm.account.as_ref().unwrap().score, 0);
    assert!(!mm.login_with(&users, "nobody"));
    assert!(mm.account.is_none());
    mm.register();
    let a = mm.account.as_ref().unwrap();
    assert_eq!((a.id.as_str(), a.full_name.as_str(), a.password.as_str(), a.score), ("", "", "", 0));
}
