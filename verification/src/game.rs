//! Rock-paper-scissors against the computer: reading the player's choice, the computer's
//! random draw, who wins, and the running score.
use vstd::prelude::*;
use rand::Rng;
use crate::text::{digit_char, digits_value, parse_u32, parse_unsigned, trim, trim_seq};

verus! {

/// The choice that ends the game.
pub const QUIT: u32 = 0;

/// Rock.
pub const ROCK: u32 = 1;

/// Paper.
pub const PAPER: u32 = 2;

/// Scissors.
pub const SCISSORS: u32 = 3;

/// What one line typed by the player asks for.
#[derive(Clone, Copy, Debug, PartialEq, Eq, Structural)]
pub enum PlayerInput {
    /// End the game (the number 0).
    Quit,
    /// Play rock (1), paper (2) or scissors (3).
    Play(u32),
    /// Anything else.
    Invalid,
}

/// The result of a round, from the player's side.
#[derive(Clone, Copy, Debug, PartialEq, Eq, Structural)]
pub enum Outcome {
    Draw,
    Win,
    Loss,
}

/// Whether `c` is one of the three playable choices.
pub open spec fn is_choice(c: u32) -> bool {
    ROCK <= c <= SCISSORS
}

/// Whether choice `a` beats choice `b`: rock beats scissors, paper beats rock, scissors
/// beat paper.
pub open spec fn beats(a: u32, b: u32) -> bool {
    (a == ROCK && b == SCISSORS) || (a == PAPER && b == ROCK) || (a == SCISSORS && b == PAPER)
}

/// The result of the player's choice `user` against the computer's `computer`.
pub open spec fn outcome_of(user: u32, computer: u32) -> Outcome {
    if user == computer {
        Outcome::Draw
    } else if beats(user, computer) {
        Outcome::Win
    } else {
        Outcome::Loss
    }
}

/// What a typed line means: its trimmed text read as a `u32` (as `str::parse` reads it)
/// asks to quit when it is 0 and plays when it is 1 to 3; anything else is invalid.
pub open spec fn input_meaning(line: Seq<char>) -> PlayerInput {
    match parse_unsigned(trim_seq(line), u32::MAX as nat) {
        Some(n) => if n == 0 {
            PlayerInput::Quit
        } else if 1 <= n <= 3 {
            PlayerInput::Play(n as u32)
        } else {
            PlayerInput::Invalid
        },
        None => PlayerInput::Invalid,
    }
}

/// Reads the player's line: `0` quits, `1` to `3` play, anything else is invalid.
pub fn read_player_input(line: &str) -> (r: PlayerInput)
    ensures
        r == input_meaning(line@),
{
    match parse_u32(trim(line)) {
        Some(n) => if n == 0 {
            PlayerInput::Quit
        } else if 1 <= n && n <= 3 {
            PlayerInput::Play(n)
        } else {
            PlayerInput::Invalid
        },
        None => PlayerInput::Invalid,
    }
}

/// The number the player typed, if the trimmed line reads as a `u32`.
pub fn get_user_choice(line: &str) -> (r: Option<u32>)
    ensures
        match r {
            Some(n) => parse_unsigned(trim_seq(line@), u32::MAX as nat) == Some(n as nat),
            None => parse_unsigned(trim_seq(line@), u32::MAX as nat) is None,
        },
{
    parse_u32(trim(line))
}

/// The name of a choice, as the game prints it.
pub fn choice_name(c: u32) -> (name: &'static str)
    requires
        is_choice(c),
    ensures
        c == ROCK ==> name == "Kamień",
        c == PAPER ==> name == "Papier",
        c == SCISSORS ==> name == "Nożyce",
{
    if c == ROCK {
        "Kamień"
    } else if c == PAPER {
        "Papier"
    } else {
        "Nożyce"
    }
}

/// Who wins a round.
pub fn judge(user: u32, computer: u32) -> (o: Outcome)
    ensures
        o == outcome_of(user, computer),
{
    if user == computer {
        Outcome::Draw
    } else if (user == ROCK && computer == SCISSORS) || (user == PAPER && computer == ROCK) || (
    user == SCISSORS && computer == PAPER) {
        Outcome::Win
    } else {
        Outcome::Loss
    }
}

/// What the game says after a round.
pub fn outcome_message(o: Outcome) -> (msg: &'static str)
    ensures
        o == Outcome::Draw ==> msg == "Remis!",
        o == Outcome::Win ==> msg == "Wygrałeś!",
        o == Outcome::Loss ==> msg == "Przegrałeś!",
{
    match o {
        Outcome::Draw => "Remis!",
        Outcome::Win => "Wygrałeś!",
        Outcome::Loss => "Przegrałeś!",
    }
}

/// A number drawn at random from `low..=high` by
/// `rand::thread_rng().gen_range(low..=high)`. Only the range of the result is stated: the
/// value itself rests on chance. `gen_range` panics on an empty range, which `requires`
/// leaves out.
#[verifier::external_body]
fn random_in_range(low: u32, high: u32) -> (r: u32)
    requires
        low <= high,
    ensures
        low <= r <= high,
{
    rand::thread_rng().gen_range(low..=high)
}

/// The running score of a game.
pub struct Score {
    pub wins: i32,
    pub losses: i32,
    pub draws: i32,
}

impl Score {
    /// The rounds played so far.
    pub open spec fn rounds(self) -> int {
        self.wins + self.losses + self.draws
    }

    /// Whether one more round can be counted without a counter overflowing.
    pub open spec fn can_record(self) -> bool {
        self.wins < i32::MAX && self.losses < i32::MAX && self.draws < i32::MAX
    }

    /// A score of no rounds.
    pub fn new() -> (s: Score)
        ensures
            s.wins == 0,
            s.losses == 0,
            s.draws == 0,
    {
        Score { wins: 0, losses: 0, draws: 0 }
    }

    /// Counts one round with the given outcome.
    pub fn record(&mut self, o: Outcome)
        requires
            old(self).can_record(),
        ensures
            final(self).wins == old(self).wins + if o == Outcome::Win {
                1int
            } else {
                0
            },
            final(self).losses == old(self).losses + if o == Outcome::Loss {
                1int
            } else {
                0
            },
            final(self).draws == old(self).draws + if o == Outcome::Draw {
                1int
            } else {
                0
            },
            final(self).rounds() == old(self).rounds() + 1,
    {
        match o {
            Outcome::Win => {
                self.wins = self.wins + 1;
            },
            Outcome::Loss => {
                self.losses = self.losses + 1;
            },
            Outcome::Draw => {
                self.draws = self.draws + 1;
            },
        }
    }

    /// Plays one round: the computer draws its choice at random, the round is judged and
    /// counted. Returns the computer's choice and the outcome.
    pub fn play_round(&mut self, user: u32) -> (r: (u32, Outcome))
        requires
            is_choice(user),
            old(self).can_record(),
        ensures
            is_choice(r.0),
            r.1 == outcome_of(user, r.0),
            final(self).wins == old(self).wins + if r.1 == Outcome::Win {
                1int
            } else {
                0
            },
            final(self).losses == old(self).losses + if r.1 == Outcome::Loss {
                1int
            } else {
                0
            },
            final(self).draws == old(self).draws + if r.1 == Outcome::Draw {
                1int
            } else {
                0
            },
    {
        let computer = random_in_range(ROCK, SCISSORS);
        let o = judge(user, computer);
        self.record(o);
        (computer, o)
    }
}

/// Swapping the players swaps the outcome: a win for one is a loss for the other, and a
/// draw stays a draw.
pub proof fn law_outcome_antisymmetric(a: u32, b: u32)
    requires
        is_choice(a),
        is_choice(b),
    ensures
        (outcome_of(a, b) == Outcome::Win) == (outcome_of(b, a) == Outcome::Loss),
        (outcome_of(a, b) == Outcome::Draw) == (outcome_of(b, a) == Outcome::Draw),
        (outcome_of(a, b) == Outcome::Draw) == (a == b),
{
}

/// Every choice beats exactly one choice and loses to exactly one choice.
pub proof fn law_each_choice_beats_one(a: u32)
    requires
        is_choice(a),
    ensures
        exists|b: u32| is_choice(b) && outcome_of(a, b) == Outcome::Win,
        exists|b: u32| is_choice(b) && outcome_of(a, b) == Outcome::Loss,
        forall|b: u32, c: u32|
            is_choice(b) && is_choice(c) && outcome_of(a, b) == Outcome::Win && outcome_of(a, c)
                == Outcome::Win ==> b == c,
        forall|b: u32, c: u32|
            is_choice(b) && is_choice(c) && outcome_of(a, b) == Outcome::Loss && outcome_of(a, c)
                == Outcome::Loss ==> b == c,
{
    let w: u32 = if a == ROCK {
        SCISSORS
    } else if a == PAPER {
        ROCK
    } else {
        PAPER
    };
    let l: u32 = if a == ROCK {
        PAPER
    } else if a == PAPER {
        SCISSORS
    } else {
        ROCK
    };
    assert(is_choice(w) && outcome_of(a, w) == Outcome::Win);
    assert(is_choice(l) && outcome_of(a, l) == Outcome::Loss);
}

/// How a typed line is read, in terms of the number it holds: it plays any `n` exactly when its
/// trimmed text reads as the `u32` value `n` and `n` is 1, 2 or 3; it quits exactly when that
/// value is 0; and it is invalid exactly when the text reads as no `u32` or as one above 3.
pub proof fn law_player_input_by_number(line: Seq<char>, n: u32)
    ensures
        (input_meaning(line) == PlayerInput::Play(n)) <==> (1 <= n <= 3 && parse_unsigned(
            trim_seq(line),
            u32::MAX as nat,
        ) == Some(n as nat)),
        (input_meaning(line) == PlayerInput::Quit) <==> parse_unsigned(
            trim_seq(line),
            u32::MAX as nat,
        ) == Some(0nat),
        (input_meaning(line) == PlayerInput::Invalid) <==> !(parse_unsigned(
            trim_seq(line),
            u32::MAX as nat,
        ) matches Some(v) && v <= 3),
{
}

/// Typing the digit of a choice, with any white space around it, plays that choice:
/// `1` plays rock, `2` paper, `3` scissors.
pub proof fn law_typed_digit_plays(line: Seq<char>, n: u32)
    requires
        is_choice(n),
        trim_seq(line) == seq![digit_char(n as nat)],
    ensures
        input_meaning(line) == PlayerInput::Play(n),
{
    let d = seq![digit_char(n as nat)];
    assert(d.drop_last() =~= Seq::<char>::empty());
    assert(digits_value(d.drop_last()) == 0);
    assert(d.last() == digit_char(n as nat));
    if n == 1 {
        assert('1' as u32 == 49);
    } else if n == 2 {
        assert('2' as u32 == 50);
    } else {
        assert('3' as u32 == 51);
    }
    assert(digits_value(d) == n);
}

} // verus!
