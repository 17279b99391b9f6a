//! Rendering of accumulated playtime.

use crate::store::{total_views, ProgramTotal};
use vstd::prelude::*;

verus! {

/// Quotient of `a` by a positive `b`, rounded toward zero.
pub open spec fn quot(a: int, b: int) -> int {
    if a >= 0 {
        a / b
    } else {
        -((-a) / b)
    }
}

/// Remainder of `a` by a positive `b` that goes with [`quot`]: it has the
/// sign of `a`.
pub open spec fn rem(a: int, b: int) -> int {
    a - b * quot(a, b)
}

/// A number of seconds split into hours, minutes and seconds.
#[derive(Clone, Copy, Debug, PartialEq, Eq, Structural)]
pub struct Duration {
    pub hours: i64,
    pub minutes: i64,
    pub seconds: i64,
}

/// Splits a total number of seconds into hours, minutes and seconds.
pub fn split_duration(secs: i64) -> (d: Duration)
    ensures
        d.hours == quot(secs as int, 3600),
        d.minutes == quot(rem(secs as int, 3600), 60),
        d.seconds == rem(secs as int, 60),
{
    Duration { hours: secs / 3600, minutes: (secs % 3600) / 60, seconds: secs % 60 }
}

/// The character that writes a decimal digit.
pub open spec fn digit_char(d: int) -> char {
    (48 + d) as u8 as char
}

/// The decimal digits of a natural number, without leading zeros.
pub open spec fn natural_text(n: nat) -> Seq<char>
    decreases n,
{
    if n < 10 {
        seq![digit_char(n as int)]
    } else {
        natural_text(n / 10).push(digit_char((n % 10) as int))
    }
}

/// An integer in decimal, with a minus sign where it is negative.
pub open spec fn integer_text(n: int) -> Seq<char> {
    if n < 0 {
        seq!['-'] + natural_text((-n) as nat)
    } else {
        natural_text(n as nat)
    }
}

/// A number of seconds as hours, minutes and seconds, such as `1h 1m 1s`.
pub open spec fn duration_text(secs: int) -> Seq<char> {
    integer_text(quot(secs, 3600)) + seq!['h', ' '] + integer_text(quot(rem(secs, 3600), 60))
        + seq!['m', ' '] + integer_text(rem(secs, 60)) + seq!['s']
}

/// The line of the report for one program.
pub open spec fn line_text(program_name: Seq<char>, secs: int) -> Seq<char> {
    seq!['-', ' '] + program_name + seq![':', ' '] + duration_text(secs)
}

/// The first line of every report.
pub open spec fn heading_text() -> Seq<char> {
    "Playtime report:"@
}

fn digit_str(d: u64) -> (s: &'static str)
    requires
        d < 10,
    ensures
        s@ == seq![digit_char(d as int)],
{
    proof {
        reveal_strlit("0");
        reveal_strlit("1");
        reveal_strlit("2");
        reveal_strlit("3");
        reveal_strlit("4");
        reveal_strlit("5");
        reveal_strlit("6");
        reveal_strlit("7");
        reveal_strlit("8");
        reveal_strlit("9");
    }
    let s = if d == 0 {
        "0"
    } else if d == 1 {
        "1"
    } else if d == 2 {
        "2"
    } else if d == 3 {
        "3"
    } else if d == 4 {
        "4"
    } else if d == 5 {
        "5"
    } else if d == 6 {
        "6"
    } else if d == 7 {
        "7"
    } else if d == 8 {
        "8"
    } else {
        "9"
    };
    assert(s@ =~= seq![digit_char(d as int)]);
    s
}

fn push_natural(out: &mut String, n: u64)
    ensures
        final(out)@ == old(out)@ + natural_text(n as nat),
    decreases n,
{
    if n >= 10 {
        push_natural(out, n / 10);
    }
    out.append(digit_str(n % 10));
    assert(out@ =~= old(out)@ + natural_text(n as nat));
}

fn push_integer(out: &mut String, n: i64)
    ensures
        final(out)@ == old(out)@ + integer_text(n as int),
{
    if n < 0 {
        proof {
            reveal_strlit("-");
        }
        out.append("-");
        let magnitude: u64 = if n == i64::MIN {
            9223372036854775808
        } else {
            (-n) as u64
        };
        push_natural(out, magnitude);
        assert(out@ =~= old(out)@ + integer_text(n as int));
    } else {
        push_natural(out, n as u64);
    }
}

/// Renders a number of seconds as hours, minutes and seconds: the hours are
/// the seconds divided by 3600, the minutes what is left of that divided by
/// 60, the seconds what is left of a division by 60.
pub fn format_duration(secs: i64) -> (text: String)
    ensures
        text@ == duration_text(secs as int),
{
    let d = split_duration(secs);
    let mut text = String::new();
    proof {
        reveal_strlit("h ");
        reveal_strlit("m ");
        reveal_strlit("s");
    }
    push_integer(&mut text, d.hours);
    text.append("h ");
    push_integer(&mut text, d.minutes);
    text.append("m ");
    push_integer(&mut text, d.seconds);
    text.append("s");
    assert(text@ =~= duration_text(secs as int));
    text
}

/// Renders the line of the report for one program.
pub fn format_line(program_name: &str, secs: i64) -> (line: String)
    ensures
        line@ == line_text(program_name@, secs as int),
{
    proof {
        reveal_strlit("- ");
        reveal_strlit(": ");
    }
    let mut line = String::new();
    line.append("- ");
    line.append(program_name);
    line.append(": ");
    let duration = format_duration(secs);
    line.append(duration.as_str());
    assert(line@ =~= line_text(program_name@, secs as int));
    line
}

/// Renders the report: the heading, then one line for each program in the
/// order of the totals.
pub fn report(totals: &Vec<ProgramTotal>) -> (lines: Vec<String>)
    ensures
        lines@.len() == totals@.len() + 1,
        lines@[0]@ == heading_text(),
        forall|i: int|
            0 <= i < totals@.len() ==> (#[trigger] lines@[i + 1])@ == line_text(
                total_views(totals@)[i].0,
                total_views(totals@)[i].1,
            ),
{
    let mut lines: Vec<String> = Vec::new();
    lines.push("Playtime report:".to_owned());
    let mut i: usize = 0;
    while i < totals.len()
        invariant
            i <= totals.len(),
            lines@.len() == i + 1,
            lines@[0]@ == heading_text(),
            forall|j: int|
                0 <= j < i ==> (#[trigger] lines@[j + 1])@ == line_text(
                    total_views(totals@)[j].0,
                    total_views(totals@)[j].1,
                ),
        decreases totals.len() - i,
    {
        let total = &totals[i];
        let line = format_line(total.program_name.as_str(), total.seconds);
        lines.push(line);
        i += 1;
    }
    lines
}

} // verus!
