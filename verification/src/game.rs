//! One game: the secret number's digits, the scoring of a guess, and the
//! turn-by-turn decisions of a game in progress.

use std::ops::ControlFlow;
use rand::Rng;
use vstd::prelude::*;
use crate::account::{Account, AccountView};
use crate::settings::Settings;
use crate::text::{
    decimal_digits, digits_of, lemma_parse_bounded, lemma_decimal_digits, lemma_decimal_digits_len, parse_u128,
    parse_unsigned, pow10, trim, trim_spec, IntErrorKind,
};

verus! {

/// The number of positions below `n` where both sequences hold the same digit.
pub open spec fn in_place_upto(g: Seq<u128>, a: Seq<u128>, n: int) -> nat
    decreases n,
{
    if n <= 0 {
        0
    } else {
        in_place_upto(g, a, n - 1) + (if g[n - 1] == a[n - 1] { 1nat } else { 0nat })
    }
}

/// The number of positions where guess and answer hold the same digit,
/// over the length of the shorter one.
pub open spec fn in_place(g: Seq<u128>, a: Seq<u128>) -> nat {
    in_place_upto(g, a, if g.len() < a.len() { g.len() as int } else { a.len() as int })
}

/// The number of the first `n` guess digits that occur somewhere in the answer.
pub open spec fn present_upto(g: Seq<u128>, a: Seq<u128>, n: int) -> nat
    decreases n,
{
    if n <= 0 {
        0
    } else {
        present_upto(g, a, n - 1) + (if a.contains(g[n - 1]) { 1nat } else { 0nat })
    }
}

/// The number of guess digits, repeats counted, that occur somewhere in the answer.
pub open spec fn present(g: Seq<u128>, a: Seq<u128>) -> nat {
    present_upto(g, a, g.len() as int)
}

/// The points a guess earns: 100 for the answer itself, else 20 for each
/// digit in its place and 10 for each digit that occurs in the answer.
pub open spec fn gain(g: Seq<u128>, a: Seq<u128>) -> nat {
    if g == a {
        100
    } else {
        20 * in_place(g, a) + 10 * present(g, a)
    }
}

/// The points for the time a game took: 100 under two minutes, 50 under
/// five, none after.
pub open spec fn time_points(secs: u64) -> u32 {
    if secs >= 300 {
        0
    } else if secs >= 120 {
        50
    } else {
        100
    }
}

proof fn lemma_in_place_upto_bound(g: Seq<u128>, a: Seq<u128>, n: int)
    ensures
        in_place_upto(g, a, n) <= (if n < 0 { 0 } else { n }),
    decreases n,
{
    if n > 0 {
        lemma_in_place_upto_bound(g, a, n - 1);
    }
}

proof fn lemma_present_upto_bound(g: Seq<u128>, a: Seq<u128>, n: int)
    ensures
        present_upto(g, a, n) <= (if n < 0 { 0 } else { n }),
    decreases n,
{
    if n > 0 {
        lemma_present_upto_bound(g, a, n - 1);
    }
}

/// No more digits are in place than the guess has, nor present.
pub proof fn lemma_counts_bounded(g: Seq<u128>, a: Seq<u128>)
    ensures
        in_place(g, a) <= g.len(),
        present(g, a) <= g.len(),
        gain(g, a) <= 30 * g.len() + 100,
{
    lemma_in_place_upto_bound(g, a, if g.len() < a.len() { g.len() as int } else { a.len() as int });
    lemma_present_upto_bound(g, a, g.len() as int);
}

proof fn lemma_present_upto_filter(g: Seq<u128>, a: Seq<u128>, n: int)
    requires
        0 <= n <= g.len(),
    ensures
        present_upto(g, a, n) == g.take(n).filter(|d: u128| a.contains(d)).len(),
    decreases n,
{
    broadcast use Seq::lemma_filter_push;

    if n == 0 {
        reveal(Seq::filter);
        assert(g.take(0) =~= Seq::<u128>::empty());
    } else {
        lemma_present_upto_filter(g, a, n - 1);
        assert(g.take(n) =~= g.take(n - 1).push(g[n - 1]));
    }
}

/// The present count is the number of guess digits, at any position and
/// repeats counted, that occur anywhere in the answer, whatever the two
/// lengths.
pub proof fn lemma_present_counts_digits_in_answer(g: Seq<u128>, a: Seq<u128>)
    ensures
        present(g, a) == g.filter(|d: u128| a.contains(d)).len(),
{
    lemma_present_upto_filter(g, a, g.len() as int);
    assert(g.take(g.len() as int) =~= g);
}

proof fn lemma_in_place_upto_filter(g: Seq<u128>, a: Seq<u128>, n: int)
    requires
        0 <= n,
    ensures
        in_place_upto(g, a, n) == Seq::new(n as nat, |i: int| i).filter(|i: int| g[i] == a[i]).len(),
    decreases n,
{
    broadcast use Seq::lemma_filter_push;

    if n == 0 {
        reveal(Seq::filter);
        assert(Seq::new(0, |i: int| i) =~= Seq::<int>::empty());
    } else {
        lemma_in_place_upto_filter(g, a, n - 1);
        assert(Seq::new(n as nat, |i: int| i) =~= Seq::new((n - 1) as nat, |i: int| i).push(n - 1));
    }
}

/// The in-place count is the number of positions, below both lengths,
/// where guess and answer hold the same digit.
pub proof fn lemma_in_place_counts_matching_positions(g: Seq<u128>, a: Seq<u128>)
    ensures
        in_place(g, a) == Seq::new(
            (if g.len() < a.len() { g.len() } else { a.len() }) as nat,
            |i: int| i,
        ).filter(|i: int| g[i] == a[i]).len(),
{
    lemma_in_place_upto_filter(g, a, if g.len() < a.len() { g.len() as int } else { a.len() as int });
}

/// Guessing the answer itself is worth exactly 100 points.
pub proof fn lemma_gain_of_answer(a: Seq<u128>)
    ensures
        gain(a, a) == 100,
{
}

/// `rand::thread_rng().gen_range(0..=max)`: a number drawn uniformly from
/// `0..=max` by the thread-local generator. The draw is random, so the
/// contract states only the range it falls in.
#[verifier::external_body]
fn random_up_to(max: u128) -> (r: u128)
    ensures
        r <= max,
{
    rand::thread_rng().gen_range(0..=max)
}

/// Ten to the power `k`, for `k` up to 38.
pub fn pow10_u128(k: u8) -> (r: u128)
    requires
        k <= 38,
    ensures
        r == pow10(k as nat),
{
    proof {
        lemma_pow10_38();
    }
    let mut r: u128 = 1;
    let mut i: u8 = 0;
    while i < k
        invariant
            i <= k <= 38,
            r == pow10(i as nat),
            pow10(38) <= u128::MAX,
        decreases k - i,
    {
        proof {
            lemma_pow10_mono(i as nat + 1, 38);
        }
        r = r * 10;
        i = i + 1;
    }
    r
}

/// Powers of ten grow.
pub proof fn lemma_pow10_mono(i: nat, j: nat)
    requires
        i <= j,
    ensures
        pow10(i) <= pow10(j),
        pow10(i) >= 1,
    decreases j - i,
{
    if i < j {
        lemma_pow10_mono(i, (j - 1) as nat);
    }
    lemma_pow10_pos(i);
}

proof fn lemma_pow10_pos(i: nat)
    ensures
        pow10(i) >= 1,
    decreases i,
{
    if i > 0 {
        lemma_pow10_pos((i - 1) as nat);
    }
}

/// `10^38` fits in a `u128` and `10^39` does not.
pub proof fn lemma_pow10_38()
    ensures
        pow10(38) == 100_000_000_000_000_000_000_000_000_000_000_000_000,
        pow10(39) > u128::MAX,
{
    reveal_with_fuel(pow10, 40);
}

/// A `u128` has at most 39 decimal digits.
pub proof fn lemma_u128_digits(n: u128)
    ensures
        decimal_digits(n as nat).len() <= 39,
{
    lemma_pow10_38();
    lemma_decimal_digits_len(n as nat, 39);
}

/// The digits of `n` as the game holds them.
pub open spec fn digit_seq(n: nat) -> Seq<u128> {
    decimal_digits(n).map_values(|d: nat| d as u128)
}

/// The digits of a number, as a game holds its answer and guesses.
pub fn answer_digits(n: u128) -> (r: Vec<u128>)
    ensures
        r@ == digit_seq(n as nat),
{
    let r = digits_of(n);
    proof {
        lemma_decimal_digits(n as nat);
        assert(r@ =~= digit_seq(n as nat));
    }
    r
}

/// A game in progress: the length, tries and repetition settings, and the
/// score it starts from.
pub struct Game {
    settings: (Settings, Settings, Settings),
    score: u32,
}

/// What reading a guess line gives: the number, or why it is none.
pub open spec fn guess_of(line: Seq<char>) -> Result<nat, IntErrorKind> {
    parse_unsigned(trim_spec(line), u128::MAX as nat)
}

/// How a turn ends.
#[derive(Debug, Clone, Copy, PartialEq, Eq, Structural)]
pub enum Turn {
    /// No line could be read; a try is spent.
    ReadFailed,
    /// The line is not a number; a try is spent.
    Unreadable(IntErrorKind),
    /// The guess is the answer; the game is over.
    Solved,
    /// A wrong guess with tries left: digits in place, and digits present
    /// elsewhere (those present minus those in place).
    Missed { in_place: i32, elsewhere: i32 },
    /// A wrong guess that spent the last try; the game is over.
    OutOfTries { in_place: i32, elsewhere: i32 },
}

/// The text of a line that was read, if one was.
pub open spec fn line_view(line: Option<&str>) -> Option<Seq<char>> {
    match line {
        Some(l) => Some(l@),
        None => None,
    }
}

/// A turn on this input neither spends a try that is not there nor
/// overflows the score: a try is left, unless the line is the answer.
pub open spec fn turn_is_defined(tries: u8, score: u32, answer: Seq<u128>, line: Option<Seq<char>>) -> bool {
    match line {
        None => tries >= 1,
        Some(l) => match guess_of(l) {
            Err(_) => tries >= 1,
            Ok(v) => (digit_seq(v) == answer || tries >= 1) && score + gain(digit_seq(v), answer)
                <= u32::MAX,
        },
    }
}

/// How a turn on this input ends, given the tries left before it.
pub open spec fn turn_outcome(tries: u8, answer: Seq<u128>, line: Option<Seq<char>>) -> Turn {
    match line {
        None => Turn::ReadFailed,
        Some(l) => match guess_of(l) {
            Err(e) => Turn::Unreadable(e),
            Ok(v) => {
                let g = digit_seq(v);
                if g == answer {
                    Turn::Solved
                } else if tries - 1 == 0 {
                    Turn::OutOfTries {
                        in_place: in_place(g, answer) as i32,
                        elsewhere: (present(g, answer) - in_place(g, answer)) as i32,
                    }
                } else {
                    Turn::Missed {
                        in_place: in_place(g, answer) as i32,
                        elsewhere: (present(g, answer) - in_place(g, answer)) as i32,
                    }
                }
            },
        },
    }
}

/// What goes wrong in a turn that is not defined.
#[derive(Debug, Clone, Copy, PartialEq, Eq, Structural)]
pub enum TurnFault {
    /// The points would take the score past `u32::MAX`.
    ScoreOverflow,
    /// A try would be spent with none left.
    NoTriesLeft,
}

/// What goes wrong in a turn on this input, if anything; an overflowing
/// score is met before a try is spent.
pub open spec fn turn_fault_of(tries: u8, score: u32, answer: Seq<u128>, line: Option<Seq<char>>) -> Option<TurnFault> {
    match line {
        None => if tries >= 1 { None } else { Some(TurnFault::NoTriesLeft) },
        Some(l) => match guess_of(l) {
            Err(_) => if tries >= 1 { None } else { Some(TurnFault::NoTriesLeft) },
            Ok(v) => if score + gain(digit_seq(v), answer) > u32::MAX {
                Some(TurnFault::ScoreOverflow)
            } else if digit_seq(v) != answer && tries == 0 {
                Some(TurnFault::NoTriesLeft)
            } else {
                None
            },
        },
    }
}

/// The points a turn on this input earns.
pub open spec fn turn_points(answer: Seq<u128>, line: Option<Seq<char>>) -> nat {
    match line {
        Some(l) => match guess_of(l) {
            Ok(v) => gain(digit_seq(v), answer),
            Err(_) => 0,
        },
        None => 0,
    }
}

impl Game {
    /// The settings are a length of at most 38 digits, tries and repetition.
    #[verifier::type_invariant]
    spec fn wf(&self) -> bool {
        &&& self.settings.0 matches Settings::NumLength(len) && len <= 38
        &&& self.settings.1 is Tries
        &&& self.settings.2 is Repetition
    }

    /// The length setting.
    pub closed spec fn length(&self) -> u8 {
        match self.settings.0 {
            Settings::NumLength(len) => len,
            _ => 0,
        }
    }

    /// The tries left.
    pub closed spec fn tries(&self) -> u8 {
        match self.settings.1 {
            Settings::Tries(t) => t,
            _ => 0,
        }
    }

    /// The repetition setting.
    pub closed spec fn repetition(&self) -> bool {
        match self.settings.2 {
            Settings::Repetition(rp) => rp,
            _ => false,
        }
    }

    /// The score a game starts from.
    pub closed spec fn start_score(&self) -> u32 {
        self.score
    }

    /// A game for numbers of up to `len` digits: the tries are `tr`, but no
    /// more than there are numbers of that length less one, and the score
    /// starts at zero.
    pub fn set_settings(len: u8, tr: u8, rp: bool) -> (r: Game)
        requires
            len <= 38,
        ensures
            r.length() == len,
            r.tries() as int == (if tr as int > pow10(len as nat) - 1 {
                pow10(len as nat) - 1
            } else {
                tr as int
            }),
            r.repetition() == rp,
            r.start_score() == 0,
    {
        proof {
            lemma_pow10_pos(len as nat);
        }
        let max_index = pow10_u128(len) - 1;
        let tries: u8 = if (tr as u128) > max_index {
            max_index as u8
        } else {
            tr
        };
        Game {
            settings: (Settings::NumLength(len), Settings::Tries(tries), Settings::Repetition(rp)),
            score: 0,
        }
    }

    /// The tries setting, as shown before each guess.
    pub fn tries_setting(&self) -> (r: &Settings)
        ensures
            *r == Settings::Tries(self.tries()),
    {
        proof {
            use_type_invariant(self);
        }
        &self.settings.1
    }

    /// The score a game starts from.
    pub fn score(&self) -> (r: u32)
        ensures
            r == self.start_score(),
    {
        self.score
    }

    /// The largest secret number: `10^len - 1`.
    pub fn max_answer(&self) -> (r: u128)
        ensures
            r == pow10(self.length() as nat) - 1,
    {
        proof {
            use_type_invariant(self);
        }
        let len = match self.settings.0 {
            Settings::NumLength(len) => len,
            _ => 0,
        };
        proof {
            lemma_pow10_pos(len as nat);
        }
        pow10_u128(len) - 1
    }

    /// Draws the secret number at random from `0..=10^len - 1` and gives
    /// its digits.
    pub fn draw_answer(&self) -> (r: Vec<u128>)
        ensures
            exists|n: nat| n <= pow10(self.length() as nat) - 1 && r@ == digit_seq(n),
    {
        let max = self.max_answer();
        let n = random_up_to(max);
        let r = answer_digits(n);
        assert(r@ == digit_seq(n as nat));
        r
    }

    /// Points for the time a game took, in whole seconds.
    pub fn time_score(time: u64) -> (r: u32)
        ensures
            r == time_points(time),
    {
        if time >= 300 {
            0
        } else if time >= 120 {
            50
        } else {
            100
        }
    }

    /// What would go wrong in a turn on this input, if anything: the score
    /// passing `u32::MAX` (checked first, as a guess is scored before a try
    /// is spent), or a try spent that is not there.
    pub fn turn_fault(&self, answer: &Vec<u128>, game_score: u32, line: Option<&str>) -> (r: Option<
        TurnFault,
    >)
        ensures
            r is None <==> turn_is_defined(self.tries(), game_score, answer@, line_view(line)),
            r == turn_fault_of(self.tries(), game_score, answer@, line_view(line)),
    {
        proof {
            use_type_invariant(self);
        }
        let tries = match self.settings.1 {
            Settings::Tries(t) => t,
            _ => 0,
        };
        match line {
            None => if tries >= 1 {
                None
            } else {
                Some(TurnFault::NoTriesLeft)
            },
            Some(l) => match parse_u128(trim(l)) {
                Err(_) => if tries >= 1 {
                    None
                } else {
                    Some(TurnFault::NoTriesLeft)
                },
                Ok(v) => {
                    proof {
                        lemma_parse_bounded(trim_spec(l@), u128::MAX as nat);
                    }
                    let g = answer_digits(v);
                    let solved = same_digits(&g, answer);
                    proof {
                        lemma_u128_digits(v);
                        lemma_counts_bounded(g@, answer@);
                    }
                    let points: u64 = if solved {
                        100
                    } else {
                        20 * count_in_place(&g, answer) + 10 * count_present(&g, answer)
                    };
                    if (game_score as u64) + points > 0xffff_ffff {
                        Some(TurnFault::ScoreOverflow)
                    } else if !solved && tries == 0 {
                        Some(TurnFault::NoTriesLeft)
                    } else {
                        None
                    }
                },
            },
        }
    }

    /// Plays one turn of the game on the line the player typed (`None` if no
    /// line could be read). A line that is no number, or a failed read,
    /// spends a try. A number is scored as a guess: the answer ends the game;
    /// any other guess spends a try, and the game ends when none is left.
    pub fn play_turn(&mut self, answer: &Vec<u128>, game_score: &mut u32, line: Option<&str>) -> (r:
        Turn)
        requires
            turn_is_defined(old(self).tries(), *old(game_score), answer@, line_view(line)),
        ensures
            final(self).length() == old(self).length(),
            final(self).repetition() == old(self).repetition(),
            final(self).start_score() == old(self).start_score(),
            r == turn_outcome(old(self).tries(), answer@, line_view(line)),
            final(self).tries() == (if r is Solved {
                old(self).tries()
            } else {
                (old(self).tries() - 1) as u8
            }),
            *final(game_score) == *old(game_score) + turn_points(answer@, line_view(line)),
    {
        proof {
            use_type_invariant(&*self);
        }
        match line {
            None => {
                self.spend_try();
                Turn::ReadFailed
            },
            Some(l) => match parse_u128(trim(l)) {
                Err(e) => {
                    self.spend_try();
                    Turn::Unreadable(e)
                },
                Ok(v) => {
                    proof {
                        lemma_parse_bounded(trim_spec(l@), u128::MAX as nat);
                    }
                    let guess = answer_digits(v);
                    proof {
                        lemma_u128_digits(v);
                        lemma_counts_bounded(guess@, answer@);
                    }
                    let ghost g = guess@;
                    match Game::overal_check(guess, answer, game_score, 0, 0) {
                        ControlFlow::Break(_) => Turn::Solved,
                        ControlFlow::Continue((in_place, elsewhere)) => {
                            self.spend_try();
                            proof {
                                use_type_invariant(&*self);
                            }
                            if self.settings.1 == Settings::Tries(0) {
                                Turn::OutOfTries { in_place, elsewhere }
                            } else {
                                Turn::Missed { in_place, elsewhere }
                            }
                        },
                    }
                },
            },
        }
    }

    /// Spends one try.
    fn spend_try(&mut self)
        requires
            old(self).tries() >= 1,
        ensures
            final(self).tries() == old(self).tries() - 1,
            final(self).length() == old(self).length(),
            final(self).repetition() == old(self).repetition(),
            final(self).start_score() == old(self).start_score(),
    {
        proof {
            use_type_invariant(&*self);
        }
        let mut tries = self.settings.1;
        tries.subtract(1);
        self.settings.1 = tries;
    }

    /// Ends the game: the time points are added to the game's score, which
    /// becomes the player's score.
    pub fn finish(&self, user: &mut Account, game_score: u32, time: u64)
        requires
            game_score + time_points(time) <= u32::MAX,
        ensures
            final(user)@ == (AccountView { score: (game_score + time_points(time)) as u32, ..old(user)@ }),
    {
        let total = game_score + Game::time_score(time);
        user.score = total;
    }

    /// Whether the guess is the answer; if so, 100 points and the game stops.
    pub fn eq_check(guess: &Vec<u128>, answear: &Vec<u128>, game_score: &mut u32) -> (r: Option<
        ControlFlow<()>,
    >)
        requires
            guess@ == answear@ ==> *old(game_score) + 100 <= u32::MAX,
        ensures
            guess@ == answear@ ==> r == Some(ControlFlow::<()>::Break(())) && *final(game_score)
                == *old(game_score) + 100,
            guess@ != answear@ ==> r is None && *final(game_score) == *old(game_score),
    {
        if same_digits(guess, answear) {
            *game_score = *game_score + 100;
            return Some(ControlFlow::Break(()));
        }
        None
    }

    /// Counts the digits in their place, 20 points each.
    pub fn order_check(
        guess: &[u128],
        answear: &[u128],
        nums_in_order: &mut i32,
        game_score: &mut u32,
    )
        requires
            *old(nums_in_order) + in_place(guess@, answear@) <= i32::MAX,
            *old(game_score) + 20 * in_place(guess@, answear@) <= u32::MAX,
        ensures
            *final(nums_in_order) == *old(nums_in_order) + in_place(guess@, answear@),
            *final(game_score) == *old(game_score) + 20 * in_place(guess@, answear@),
    {
        let n = if guess.len() < answear.len() {
            guess.len()
        } else {
            answear.len()
        };
        let ghost start_order = *nums_in_order;
        let ghost start_score = *game_score;
        proof {
            lemma_in_place_upto_mono(guess@, answear@, n as int);
        }
        let mut i: usize = 0;
        while i < n
            invariant
                i <= n,
                n <= guess@.len(),
                n <= answear@.len(),
                n == (if guess@.len() < answear@.len() { guess@.len() } else { answear@.len() }),
                *nums_in_order == start_order + in_place_upto(guess@, answear@, i as int),
                *game_score == start_score + 20 * in_place_upto(guess@, answear@, i as int),
                start_order + in_place(guess@, answear@) <= i32::MAX,
                start_score + 20 * in_place(guess@, answear@) <= u32::MAX,
                forall|k: int| 0 <= k <= n ==> in_place_upto(guess@, answear@, k) <= in_place(
                    guess@,
                    answear@,
                ),
            decreases n - i,
        {
            if guess[i] == answear[i] {
                assert(in_place_upto(guess@, answear@, i + 1) <= in_place(guess@, answear@));
                *nums_in_order = *nums_in_order + 1;
                *game_score = *game_score + 20;
            }
            i = i + 1;
        }
    }

    /// Counts the guess digits that occur in the answer, 10 points each, and
    /// gives that count plus `nums_exists` less `nums_in_order`: the digits
    /// present elsewhere.
    pub fn exist_check(
        guess: Vec<u128>,
        answear: &[u128],
        nums_exists: i32,
        game_score: &mut u32,
        nums_in_order: i32,
    ) -> (r: i32)
        requires
            nums_exists + present(guess@, answear@) <= i32::MAX,
            nums_exists + present(guess@, answear@) - nums_in_order >= i32::MIN,
            nums_exists + present(guess@, answear@) - nums_in_order <= i32::MAX,
            *old(game_score) + 10 * present(guess@, answear@) <= u32::MAX,
        ensures
            r == nums_exists + present(guess@, answear@) - nums_in_order,
            *final(game_score) == *old(game_score) + 10 * present(guess@, answear@),
    {
        let mut count = nums_exists;
        let ghost start_score = *game_score;
        proof {
            lemma_present_upto_mono(guess@, answear@, guess@.len() as int);
        }
        let mut i: usize = 0;
        while i < guess.len()
            invariant
                i <= guess@.len(),
                count == nums_exists + present_upto(guess@, answear@, i as int),
                *game_score == start_score + 10 * present_upto(guess@, answear@, i as int),
                nums_exists + present(guess@, answear@) <= i32::MAX,
                start_score + 10 * present(guess@, answear@) <= u32::MAX,
                forall|k: int| 0 <= k <= guess@.len() ==> present_upto(guess@, answear@, k) <= present(
                    guess@,
                    answear@,
                ),
            decreases guess@.len() - i,
        {
            let found = contains_digit(answear, guess[i]);
            if found {
                assert(present_upto(guess@, answear@, i + 1) <= present(guess@, answear@));
                count = count + 1;
                *game_score = *game_score + 10;
            }
            i = i + 1;
        }
        count - nums_in_order
    }

    /// Scores a guess. The answer itself earns 100 and stops the game;
    /// any other guess earns its in-place and present points, and the game
    /// goes on with the counts that the player is told: digits in place,
    /// and digits present elsewhere.
    pub fn overal_check(
        guess: Vec<u128>,
        answear: &Vec<u128>,
        game_score: &mut u32,
        nums_in_order: i32,
        nums_exists: i32,
    ) -> (r: ControlFlow<(), (i32, i32)>)
        requires
            *old(game_score) + gain(guess@, answear@) <= u32::MAX,
            guess@ != answear@ ==> {
                &&& nums_in_order + in_place(guess@, answear@) <= i32::MAX
                &&& nums_exists + present(guess@, answear@) <= i32::MAX
                &&& nums_exists + present(guess@, answear@) - (nums_in_order + in_place(
                    guess@,
                    answear@,
                )) >= i32::MIN
                &&& nums_exists + present(guess@, answear@) - (nums_in_order + in_place(
                    guess@,
                    answear@,
                )) <= i32::MAX
            },
        ensures
            *final(game_score) == *old(game_score) + gain(guess@, answear@),
            guess@ == answear@ ==> r == ControlFlow::<(), (i32, i32)>::Break(()),
            guess@ != answear@ ==> r == ControlFlow::<(), (i32, i32)>::Continue(
                (
                    (nums_in_order + in_place(guess@, answear@)) as i32,
                    (nums_exists + present(guess@, answear@) - (nums_in_order + in_place(
                        guess@,
                        answear@,
                    ))) as i32,
                ),
            ),
    {
        if let Some(_) = Game::eq_check(&guess, answear, game_score) {
            return ControlFlow::Break(());
        }
        let mut in_order = nums_in_order;
        Game::order_check(guess.as_slice(), answear.as_slice(), &mut in_order, game_score);
        let elsewhere = Game::exist_check(guess, answear.as_slice(), nums_exists, game_score, in_order);
        ControlFlow::Continue((in_order, elsewhere))
    }
}

proof fn lemma_in_place_upto_mono(g: Seq<u128>, a: Seq<u128>, n: int)
    ensures
        forall|k: int| 0 <= k <= n ==> in_place_upto(g, a, k) <= in_place_upto(g, a, n),
    decreases n,
{
    if n > 0 {
        lemma_in_place_upto_mono(g, a, n - 1);
    }
}

proof fn lemma_present_upto_mono(g: Seq<u128>, a: Seq<u128>, n: int)
    ensures
        forall|k: int| 0 <= k <= n ==> present_upto(g, a, k) <= present_upto(g, a, n),
    decreases n,
{
    if n > 0 {
        lemma_present_upto_mono(g, a, n - 1);
    }
}

/// Whether two digit sequences are equal.
fn same_digits(a: &Vec<u128>, b: &Vec<u128>) -> (r: bool)
    ensures
        r == (a@ == b@),
{
    if a.len() != b.len() {
        return false;
    }
    let mut i: usize = 0;
    while i < a.len()
        invariant
            i <= a@.len(),
            a@.len() == b@.len(),
            forall|j: int| 0 <= j < i ==> a@[j] == b@[j],
        decreases a@.len() - i,
    {
        if a[i] != b[i] {
            return false;
        }
        i = i + 1;
    }
    assert(a@ =~= b@);
    true
}

/// The number of positions where both hold the same digit.
fn count_in_place(g: &Vec<u128>, a: &Vec<u128>) -> (r: u64)
    requires
        g@.len() <= 39,
    ensures
        r == in_place(g@, a@),
{
    let n = if g.len() < a.len() {
        g.len()
    } else {
        a.len()
    };
    proof {
        lemma_in_place_upto_bound(g@, a@, n as int);
    }
    let mut count: u64 = 0;
    let mut i: usize = 0;
    while i < n
        invariant
            i <= n <= 39,
            n <= g@.len(),
            n <= a@.len(),
            count == in_place_upto(g@, a@, i as int),
        decreases n - i,
    {
        proof {
            lemma_in_place_upto_bound(g@, a@, i as int);
        }
        if g[i] == a[i] {
            count = count + 1;
        }
        i = i + 1;
    }
    count
}

/// The number of guess digits present in the answer.
fn count_present(g: &Vec<u128>, a: &Vec<u128>) -> (r: u64)
    requires
        g@.len() <= 39,
    ensures
        r == present(g@, a@),
{
    let mut count: u64 = 0;
    let mut i: usize = 0;
    while i < g.len()
        invariant
            i <= g@.len() <= 39,
            count == present_upto(g@, a@, i as int),
        decreases g@.len() - i,
    {
        proof {
            lemma_present_upto_bound(g@, a@, i as int);
        }
        if contains_digit(a.as_slice(), g[i]) {
            count = count + 1;
        }
        i = i + 1;
    }
    count
}

/// Whether `d` occurs in `a`.
fn contains_digit(a: &[u128], d: u128) -> (r: bool)
    ensures
        r == a@.contains(d),
{
    let mut i: usize = 0;
    while i < a.len()
        invariant
            i <= a@.len(),
            forall|j: int| 0 <= j < i ==> a@[j] != d,
        decreases a@.len() - i,
    {
        if a[i] == d {
            assert(a@[i as int] == d);
            return true;
        }
        i = i + 1;
    }
    false
}

} // verus!
