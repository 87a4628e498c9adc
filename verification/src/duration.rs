//! Durations for people to read: a number of seconds written as days,
//! hours, minutes and seconds, such as `0d 1h 2m 5s`.

use vstd::prelude::*;

verus! {

/// The character for a digit from 0 to 9.
pub open spec fn digit_char(digit: int) -> char {
    if digit == 0 {
        '0'
    } else if digit == 1 {
        '1'
    } else if digit == 2 {
        '2'
    } else if digit == 3 {
        '3'
    } else if digit == 4 {
        '4'
    } else if digit == 5 {
        '5'
    } else if digit == 6 {
        '6'
    } else if digit == 7 {
        '7'
    } else if digit == 8 {
        '8'
    } else {
        '9'
    }
}

/// A number in decimal, without leading zeros; 0 is written `0`.
pub open spec fn decimal(n: nat) -> Seq<char>
    decreases n,
{
    if n < 10 {
        seq![digit_char(n as int)]
    } else {
        decimal(n / 10).push(digit_char((n % 10) as int))
    }
}

/// The whole days in a number of seconds.
pub open spec fn days_part(seconds: nat) -> nat {
    seconds / 86400
}

/// The whole hours left over after the days.
pub open spec fn hours_part(seconds: nat) -> nat {
    (seconds % 86400) / 3600
}

/// The whole minutes left over after the hours.
pub open spec fn minutes_part(seconds: nat) -> nat {
    (seconds % 3600) / 60
}

/// The seconds left over after the minutes.
pub open spec fn seconds_part(seconds: nat) -> nat {
    seconds % 60
}

/// A number of seconds written as `Dd Hh Mm Ss`: each part in decimal with
/// its letter behind it, and one space between the parts.
pub open spec fn duration_text(seconds: nat) -> Seq<char> {
    decimal(days_part(seconds)) + seq!['d', ' '] + decimal(hours_part(seconds)) + seq!['h', ' ']
        + decimal(minutes_part(seconds)) + seq!['m', ' '] + decimal(seconds_part(seconds))
        + seq!['s']
}

/// A percentage written in decimal with a percent sign behind it.
pub open spec fn percent_text(percent: nat) -> Seq<char> {
    decimal(percent) + seq!['%']
}

/// The parts of a duration add up to the duration, and the hours, minutes
/// and seconds each stay below the next unit.
pub proof fn lemma_parts_recompose(seconds: nat)
    ensures
        days_part(seconds) * 86400 + hours_part(seconds) * 3600 + minutes_part(seconds) * 60
            + seconds_part(seconds) == seconds,
        hours_part(seconds) < 24,
        minutes_part(seconds) < 60,
        seconds_part(seconds) < 60,
{
    let s = seconds as int;
    assert(s % 3600 == (s % 86400) % 3600) by {
        assert(s == 86400 * (s / 86400) + s % 86400);
        assert(86400 * (s / 86400) == 3600 * (24 * (s / 86400)));
    }
    assert(s % 60 == (s % 3600) % 60) by {
        assert(s == 3600 * (s / 3600) + s % 3600);
        assert(3600 * (s / 3600) == 60 * (60 * (s / 3600)));
    }
}

/// The digit as a string of one character.
fn digit_str(digit: u64) -> (text: &'static str)
    requires
        digit < 10,
    ensures
        text@ == seq![digit_char(digit as int)],
{
    proof {
        reveal_strlit("0");
        reveal_strlit("1");
        reveal_strlit("2");
        reveal_strlit("3");
        reveal_strlit("4");
        reveal_strlit("5");
        reveal_strlit("6");
        reveal_strlit("7");
        reveal_strlit("8");
        reveal_strlit("9");
    }
    let text: &'static str = if digit == 0 {
        "0"
    } else if digit == 1 {
        "1"
    } else if digit == 2 {
        "2"
    } else if digit == 3 {
        "3"
    } else if digit == 4 {
        "4"
    } else if digit == 5 {
        "5"
    } else if digit == 6 {
        "6"
    } else if digit == 7 {
        "7"
    } else if digit == 8 {
        "8"
    } else {
        "9"
    };
    assert(text@ =~= seq![digit_char(digit as int)]);
    text
}

/// Writes a number in decimal at the end of `out`.
pub(crate) fn push_decimal(out: &mut String, n: u64)
    ensures
        final(out)@ == old(out)@ + decimal(n as nat),
    decreases n,
{
    if n >= 10 {
        push_decimal(out, n / 10);
    }
    out.append(digit_str(n % 10));
    proof {
        if n >= 10 {
            assert(out@ =~= old(out)@ + decimal((n / 10) as nat).push(
                digit_char((n % 10) as int),
            ));
        } else {
            assert(out@ =~= old(out)@ + seq![digit_char(n as int)]);
        }
    }
}

/// A number of seconds written as `Dd Hh Mm Ss`.
pub fn format_duration(seconds: u64) -> (text: String)
    ensures
        text@ == duration_text(seconds as nat),
{
    proof {
        reveal_strlit("d ");
        reveal_strlit("h ");
        reveal_strlit("m ");
        reveal_strlit("s");
    }
    let mut text = String::new();
    push_decimal(&mut text, seconds / 86400);
    text.append("d ");
    push_decimal(&mut text, (seconds % 86400) / 3600);
    text.append("h ");
    push_decimal(&mut text, (seconds % 3600) / 60);
    text.append("m ");
    push_decimal(&mut text, seconds % 60);
    text.append("s");
    assert("d "@ =~= seq!['d', ' ']);
    assert("h "@ =~= seq!['h', ' ']);
    assert("m "@ =~= seq!['m', ' ']);
    assert("s"@ =~= seq!['s']);
    assert(text@ =~= duration_text(seconds as nat));
    text
}

/// A percentage written in decimal with a percent sign behind it.
pub fn format_percent(percent: u64) -> (text: String)
    ensures
        text@ == percent_text(percent as nat),
{
    proof {
        reveal_strlit("%");
    }
    let mut text = String::new();
    push_decimal(&mut text, percent);
    text.append("%");
    assert("%"@ =~= seq!['%']);
    assert(text@ =~= percent_text(percent as nat));
    text
}

} // verus!
