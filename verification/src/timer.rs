//! Stopwatch, countdown timer and pomodoro: the menu, reading numbers typed by the user,
//! the displayed time strings, and the second-by-second countdown as a state machine.
//! Waiting and reading the clock happen outside.
use vstd::prelude::*;
use crate::text::{
    decimal_digits, format_decimal, format_zero_padded, parse_u32, parse_u64, parse_unsigned,
    trim, trim_seq, zero_padded,
};

verus! {

/// Minutes of work in one pomodoro cycle.
pub const WORK_MINUTES: u64 = 25;

/// Minutes of rest in one pomodoro cycle.
pub const BREAK_MINUTES: u64 = 5;

/// An entry of the main menu.
#[derive(Clone, Copy, Debug, PartialEq, Eq, Structural)]
pub enum MenuChoice {
    Stopwatch,
    Timer,
    Pomodoro,
    Exit,
    Invalid,
}

/// What a typed menu line selects: the trimmed line `1`, `2`, `3` or `4`.
pub open spec fn menu_meaning(line: Seq<char>) -> MenuChoice {
    let t = trim_seq(line);
    if t == seq!['1'] {
        MenuChoice::Stopwatch
    } else if t == seq!['2'] {
        MenuChoice::Timer
    } else if t == seq!['3'] {
        MenuChoice::Pomodoro
    } else if t == seq!['4'] {
        MenuChoice::Exit
    } else {
        MenuChoice::Invalid
    }
}

/// Reads a menu line.
pub fn read_menu_choice(line: &str) -> (c: MenuChoice)
    ensures
        c == menu_meaning(line@),
{
    let t = trim(line);
    if t.unicode_len() != 1 {
        proof {
            assert(t@ != seq!['1'] && t@ != seq!['2'] && t@ != seq!['3'] && t@ != seq!['4']);
        }
        return MenuChoice::Invalid;
    }
    let ch = t.get_char(0);
    proof {
        assert(t@ =~= seq![ch]);
    }
    if ch == '1' {
        MenuChoice::Stopwatch
    } else if ch == '2' {
        MenuChoice::Timer
    } else if ch == '3' {
        MenuChoice::Pomodoro
    } else if ch == '4' {
        MenuChoice::Exit
    } else {
        MenuChoice::Invalid
    }
}

/// The number of seconds typed for the countdown timer: the trimmed line read as a `u64`.
pub fn read_seconds(line: &str) -> (r: Option<u64>)
    ensures
        match r {
            Some(v) => parse_unsigned(trim_seq(line@), u64::MAX as nat) == Some(v as nat),
            None => parse_unsigned(trim_seq(line@), u64::MAX as nat) is None,
        },
{
    parse_u64(trim(line))
}

/// The number of pomodoro cycles typed: the trimmed line read as a `u32`.
pub fn read_cycles(line: &str) -> (r: Option<u32>)
    ensures
        match r {
            Some(v) => parse_unsigned(trim_seq(line@), u32::MAX as nat) == Some(v as nat),
            None => parse_unsigned(trim_seq(line@), u32::MAX as nat) is None,
        },
{
    parse_u32(trim(line))
}

/// The stopwatch reading `HH:MM:SS.mmm` for `secs` whole seconds and `millis` milliseconds:
/// hours, minutes of the hour and seconds of the minute with at least two digits, and the
/// milliseconds with at least three.
pub open spec fn clock_text(secs: nat, millis: nat) -> Seq<char> {
    zero_padded(secs / 3600, 2) + seq![':'] + zero_padded((secs % 3600) / 60, 2) + seq![':']
        + zero_padded(secs % 60, 2) + seq!['.'] + zero_padded(millis, 3)
}

/// The countdown display for `minutes` and `seconds`, each with at least two digits,
/// after a carriage return that overwrites the previous display.
pub open spec fn remaining_text(minutes: nat, seconds: nat) -> Seq<char> {
    "\rPozostało: "@ + zero_padded(minutes, 2) + seq![':'] + zero_padded(seconds, 2)
}

/// The line the stopwatch prints when stopped after `secs` seconds and `millis` milliseconds.
pub fn stopwatch_line(secs: u64, millis: u32) -> (s: String)
    ensures
        s@ == "Czas: "@ + clock_text(secs as nat, millis as nat),
{
    let mut s = String::new();
    s.append("Czas: ");
    s.append(format_zero_padded(secs / 3600, 2).as_str());
    s.append(":");
    s.append(format_zero_padded((secs % 3600) / 60, 2).as_str());
    s.append(":");
    s.append(format_zero_padded(secs % 60, 2).as_str());
    s.append(".");
    s.append(format_zero_padded(millis as u64, 3).as_str());
    proof {
        reveal_strlit(":");
        reveal_strlit(".");
        assert(s@ =~= "Czas: "@ + clock_text(secs as nat, millis as nat));
    }
    s
}

/// The countdown display for a minute and second.
pub fn remaining_line(minutes: u64, seconds: u64) -> (s: String)
    ensures
        s@ == remaining_text(minutes as nat, seconds as nat),
{
    let mut s = String::new();
    s.append("\rPozostało: ");
    s.append(format_zero_padded(minutes, 2).as_str());
    s.append(":");
    s.append(format_zero_padded(seconds, 2).as_str());
    proof {
        reveal_strlit(":");
        assert(s@ =~= remaining_text(minutes as nat, seconds as nat));
    }
    s
}

/// The countdown timer's display with `left` seconds to go.
pub fn timer_line(left: u64) -> (s: String)
    ensures
        s@ == remaining_text((left / 60) as nat, (left % 60) as nat),
{
    remaining_line(left / 60, left % 60)
}

/// The heading of pomodoro cycle `cycle`.
pub fn cycle_heading(cycle: u32) -> (s: String)
    ensures
        s@ == "\nCykl "@ + decimal_digits(cycle as nat) + ": Praca przez 25 minut..."@,
{
    let mut s = String::new();
    s.append("\nCykl ");
    s.append(format_decimal(cycle as u64).as_str());
    s.append(": Praca przez 25 minut...");
    s
}

// ---------------------------------------------------------------------------
// Countdown of whole minutes
// ---------------------------------------------------------------------------

/// The seconds left when the display shows `frame` as (minutes, seconds).
pub open spec fn seconds_left(frame: (u64, u64)) -> int {
    60 * frame.0 + frame.1
}

/// The first display of a countdown of `minutes` minutes; none for zero minutes.
pub open spec fn first_frame(minutes: u64) -> Option<(u64, u64)> {
    if minutes == 0 {
        None
    } else {
        Some(((minutes - 1) as u64, 59u64))
    }
}

/// The display one second after `frame`; none after `00:00`.
pub open spec fn following_frame(frame: (u64, u64)) -> Option<(u64, u64)> {
    if frame.1 > 0 {
        Some((frame.0, (frame.1 - 1) as u64))
    } else if frame.0 > 0 {
        Some(((frame.0 - 1) as u64, 59u64))
    } else {
        None
    }
}

/// The display after `k` seconds of a countdown of `minutes` minutes, if it is still running.
pub open spec fn frame_after(minutes: u64, k: nat) -> Option<(u64, u64)>
    decreases k,
{
    if k == 0 {
        first_frame(minutes)
    } else {
        match frame_after(minutes, (k - 1) as nat) {
            Some(f) => following_frame(f),
            None => None,
        }
    }
}

/// Starts a countdown of whole minutes: the first display, none for zero minutes.
pub fn countdown_start(minutes: u64) -> (f: Option<(u64, u64)>)
    ensures
        f == first_frame(minutes),
{
    if minutes == 0 {
        None
    } else {
        Some((minutes - 1, 59))
    }
}

/// Advances a countdown by one second: the next display, none once `00:00` was shown.
pub fn countdown_next(frame: (u64, u64)) -> (f: Option<(u64, u64)>)
    ensures
        f == following_frame(frame),
{
    if frame.1 > 0 {
        Some((frame.0, frame.1 - 1))
    } else if frame.0 > 0 {
        Some((frame.0 - 1, 59))
    } else {
        None
    }
}

/// A countdown of `minutes` minutes shows exactly `60 * minutes` displays, one per second:
/// after `k` seconds it shows the minute and second of `60 * minutes - 1 - k` seconds left,
/// and after the last display it stops.
pub proof fn law_countdown_counts_every_second(minutes: u64, k: nat)
    ensures
        k < 60 * minutes ==> frame_after(minutes, k) == Some(
            (((60 * minutes - 1 - k) / 60) as u64, ((60 * minutes - 1 - k) % 60) as u64),
        ),
        k >= 60 * minutes ==> frame_after(minutes, k) is None,
    decreases k,
{
    if k > 0 {
        law_countdown_counts_every_second(minutes, (k - 1) as nat);
        if k < 60 * minutes {
            let left = 60 * minutes - 1 - (k - 1);
            assert(left == (left / 60) * 60 + left % 60);
            assert(left - 1 == ((left - 1) / 60) * 60 + (left - 1) % 60);
        } else if k == 60 * minutes && minutes > 0 {
            let left = 60 * minutes - 1 - (k - 1);
            assert(left == 0);
        }
    }
}

} // verus!
