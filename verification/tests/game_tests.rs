use std::ops::ControlFlow;
use mastermind::account::Account;
use mastermind::game::{answer_digits, Game, Turn, TurnFault};
use mastermind::settings::Settings;
use mastermind::text::IntErrorKind;

#[test]
fn game() {
    let mut game: Game = Game::set_settings(4, 10, true);
    let mut dan: Account = Account::new("bandicoot", "Dan", "4323", 52);
    let answer = game.draw_answer();
    assert!(!answer.is_empty() && answer.len() <= 4);
    let line: String = answer.iter().map(|d| d.to_string()).collect();
    let mut score = game.score();
    assert_eq!(game.turn_fault(&answer, score, Some(&line)), None);
    assert_eq!(game.play_turn(&answer, &mut score, Some(&line)), Turn::Solved);
    game.finish(&mut dan, score, 0);
    assert_eq!(dan.score, 200);
    assert_eq!(dan.id, "bandicoot");
}

#[test]
fn settings_clamp_tries_to_the_numbers_there_are() {
    assert_eq!(*Game::set_settings(4, 10, true).tries_setting(), Settings::Tries(10));
    assert_eq!(*Game::set_settings(1, 10, false).tries_setting(), Settings::Tries(9));
    assert_eq!(*Game::set_settings(0, 10, false).tries_setting(), Settings::Tries(0));
    assert_eq!(Game::set_settings(2, 200, false).max_answer(), 99);
    assert_eq!(Game::set_settings(38, 1, false).max_answer(), 10u128.pow(38) - 1);
    assert_eq!(Game::set_settings(4, 10, false).score(), 0);
}

#[test]
fn drawn_answer_stays_in_range() {
    let game = Game::set_settings(2, 10, false);
    for _ in 0..50 {
        let a = game.draw_answer();
        assert!(!a.is_empty() && a.len() <= 2);
        assert!(a.iter().all(|d| *d < 10));
    }
    assert_eq!(Game::set_settings(0, 1, false).draw_answer(), vec![0]);
}

#[test]
fn answer_digits_drop_leading_zeros() {
    assert_eq!(answer_digits(0), vec![0]);
    assert_eq!(answer_digits(42), vec![4, 2]);
    assert_eq!(answer_digits(9070), vec![9, 0, 7, 0]);
}

#[test]
fn time_score_steps() {
    assert_eq!(Game::time_score(0), 100);
    assert_eq!(Game::time_score(119), 100);
    assert_eq!(Game::time_score(120), 50);
    assert_eq!(Game::time_score(299), 50);
    assert_eq!(Game::time_score(300), 0);
}

#[test]
fn checks_score_a_guess() {
    let answer = vec![1, 2, 3, 4];
    let mut score = 0u32;
    assert_eq!(Game::eq_check(&vec![1, 2, 3, 4], &answer, &mut score), Some(ControlFlow::Break(())));
    assert_eq!(score, 100);
    assert_eq!(Game::eq_check(&vec![1, 2, 3], &answer, &mut score), None);
    assert_eq!(score, 100);

    let mut in_order = 0i32;
    let mut s = 0u32;
    Game::order_check(&[1, 3, 3, 9, 9], &answer, &mut in_order, &mut s);
    assert_eq!((in_order, s), (2, 40));

    let mut s = 0u32;
    let elsewhere = Game::exist_check(vec![4, 4, 1, 7], &answer, 0, &mut s, 1);
    assert_eq!((elsewhere, s), (2, 30));

    let mut s = 5u32;
    assert_eq!(
        Game::overal_check(vec![2, 1, 3, 8], &answer, &mut s, 0, 0),
        ControlFlow::Continue((1, 2))
    );
    assert_eq!(s, 5 + 20 + 30);
    let mut s = 0u32;
    assert_eq!(Game::overal_check(answer.clone(), &answer, &mut s, 0, 0), ControlFlow::Break(()));
    assert_eq!(s, 100);
}

#[test]
fn turns_spend_tries() {
    let mut game = Game::set_settings(2, 3, false);
    let answer = vec![4, 2];
    let mut score = 0u32;
    assert_eq!(game.play_turn(&answer, &mut score, None), Turn::ReadFailed);
    assert_eq!(*game.tries_setting(), Settings::Tries(2));
    assert_eq!(
        game.play_turn(&answer, &mut score, Some("x1\n")),
        Turn::Unreadable(IntErrorKind::InvalidDigit)
    );
    assert_eq!(*game.tries_setting(), Settings::Tries(1));
    assert_eq!(score, 0);
    assert_eq!(game.turn_fault(&answer, score, Some(" 24 \n")), None);
    assert_eq!(
        game.play_turn(&answer, &mut score, Some(" 24 \n")),
        Turn::OutOfTries { in_place: 0, elsewhere: 2 }
    );
    assert_eq!(score, 20);
    assert_eq!(*game.tries_setting(), Settings::Tries(0));
    assert_eq!(game.turn_fault(&answer, score, Some("1")), Some(TurnFault::NoTriesLeft));
    assert_eq!(game.turn_fault(&answer, score, None), Some(TurnFault::NoTriesLeft));
    assert_eq!(game.turn_fault(&answer, score, Some("x")), Some(TurnFault::NoTriesLeft));
    assert_eq!(game.turn_fault(&answer, score, Some("42")), None);
    assert_eq!(game.turn_fault(&answer, u32::MAX, Some("42")), Some(TurnFault::ScoreOverflow));
    assert_eq!(game.turn_fault(&answer, u32::MAX, Some("4")), Some(TurnFault::ScoreOverflow));
    assert_eq!(game.turn_fault(&answer, u32::MAX, Some("9")), Some(TurnFault::NoTriesLeft));
}

#[test]
fn wrong_guess_with_tries_left_is_missed() {
    let mut game = Game::set_settings(3, 5, false);
    let answer = vec![1, 0, 0];
    let mut score = 0u32;
    assert_eq!(
        game.play_turn(&answer, &mut score, Some("+190")),
        Turn::Missed { in_place: 2, elsewhere: 0 }
    );
    assert_eq!(score, 40 + 20);
    assert_eq!(
        game.play_turn(&answer, &mut score, Some("")),
        Turn::Unreadable(IntErrorKind::Empty)
    );
    assert_eq!(*game.tries_setting(), Settings::Tries(3));
}

#[test]
fn answer_guess_is_checked_before_counting() {
    let answer = vec![7];
    let mut s = u32::MAX - 100;
    assert_eq!(Game::overal_check(vec![7], &answer, &mut s, i32::MAX, i32::MIN), ControlFlow::Break(()));
    assert_eq!(s, u32::MAX);
}
