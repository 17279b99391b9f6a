//! The process snapshot: from what the process table shows of each process to
//! the observations of tracked programs.

use crate::config::Config;
use vstd::prelude::*;

verus! {

broadcast use vstd::string::group_string_axioms;

/// One live process whose program is tracked, as seen in one snapshot.
#[derive(Clone, Debug, PartialEq, Eq)]
pub struct ProcessObservation {
    pub pid: i32,
    pub name: String,
}

/// Whether some observation of the snapshot has this pid.
pub open spec fn observed(obs: Seq<ProcessObservation>, pid: i32) -> bool {
    exists|i: int| 0 <= i < obs.len() && (#[trigger] obs[i]).pid == pid
}

/// A process as the process table shows it: its pid and the text of its
/// command-name entry.
#[derive(Clone, Debug, PartialEq, Eq)]
pub struct ProcessEntry {
    pub pid: i32,
    pub comm: String,
}

/// Whether `c` is an ASCII decimal digit.
pub open spec fn is_digit(c: char) -> bool {
    48 <= c as u32 <= 57
}

/// The number that a string of decimal digits writes.
pub open spec fn decimal_value(digits: Seq<char>) -> int
    decreases digits.len(),
{
    if digits.len() == 0 {
        0
    } else {
        decimal_value(digits.drop_last()) * 10 + (digits.last() as u32 - 48)
    }
}

/// A name without the sign that it may start with.
pub open spec fn unsigned_part(name: Seq<char>) -> Seq<char> {
    if name.len() > 0 && (name[0] == '-' || name[0] == '+') {
        name.drop_first()
    } else {
        name
    }
}

/// The pid that the name of an entry of the process table writes: an
/// optional sign and at least one decimal digit, with a value that fits.
/// Any other name belongs to no process.
pub open spec fn pid_of(name: Seq<char>) -> Option<i32> {
    let digits = unsigned_part(name);
    let magnitude = decimal_value(digits);
    let value = if name.len() > 0 && name[0] == '-' {
        -magnitude
    } else {
        magnitude
    };
    if digits.len() > 0 && (forall|i: int| 0 <= i < digits.len() ==> is_digit(#[trigger] digits[i]))
        && i32::MIN <= value <= i32::MAX {
        Some(value as i32)
    } else {
        None
    }
}

proof fn lemma_decimal_value_grows(digits: Seq<char>, k: int)
    requires
        0 <= k <= digits.len(),
        forall|i: int| 0 <= i < digits.len() ==> is_digit(#[trigger] digits[i]),
    ensures
        0 <= decimal_value(digits.take(k)) <= decimal_value(digits),
    decreases digits.len() - k,
{
    if k == digits.len() {
        assert(digits.take(k) =~= digits);
        lemma_decimal_value_nonnegative(digits);
    } else {
        lemma_decimal_value_grows(digits, k + 1);
        let next = digits.take(k + 1);
        assert(next.drop_last() =~= digits.take(k));
        assert(is_digit(digits[k]));
        assert(next.last() == digits[k]);
        lemma_decimal_value_nonnegative(digits.take(k));
    }
}

proof fn lemma_decimal_value_nonnegative(digits: Seq<char>)
    requires
        forall|i: int| 0 <= i < digits.len() ==> is_digit(#[trigger] digits[i]),
    ensures
        0 <= decimal_value(digits),
    decreases digits.len(),
{
    if digits.len() > 0 {
        lemma_decimal_value_nonnegative(digits.drop_last());
        assert(is_digit(digits[digits.len() - 1]));
    }
}

/// The characters of a string.
fn chars_of(text: &str) -> (chars: Vec<char>)
    ensures
        chars@ == text@,
{
    let mut chars: Vec<char> = Vec::new();
    for c in it: text.chars()
        invariant
            it.seq() == text@,
            chars@ == text@.take(it.index()),
    {
        assert(text@.take(it.index() + 1) =~= text@.take(it.index()).push(c));
        chars.push(c);
    }
    assert(text@.take(text@.len() as int) =~= text@);
    chars
}

/// Reads the name of an entry of the process table as a pid.
pub fn parse_pid(name: &str) -> (pid: Option<i32>)
    ensures
        pid == pid_of(name@),
{
    let chars = chars_of(name);
    let n = chars.len();
    if n == 0 {
        return None;
    }
    let negative = chars[0] == '-';
    let start: usize = if chars[0] == '-' || chars[0] == '+' {
        1
    } else {
        0
    };
    let ghost digits = unsigned_part(name@);
    assert(digits =~= name@.skip(start as int));
    if start == n {
        return None;
    }
    let mut magnitude: i64 = 0;
    let mut i: usize = start;
    assert(digits.take(0) =~= Seq::<char>::empty());
    while i < n
        invariant
            start <= i <= n,
            n == chars.len(),
            chars@ == name@,
            digits == name@.skip(start as int),
            digits == unsigned_part(name@),
            forall|j: int| 0 <= j < i - start ==> is_digit(#[trigger] digits[j]),
            magnitude == decimal_value(digits.take(i - start)),
            0 <= magnitude <= 2147483648,
        decreases n - i,
    {
        let c = chars[i];
        let code: u32 = c as u32;
        assert(digits[i - start] == c);
        if code < 48 || code > 57 {
            assert(!is_digit(digits[i - start]));
            return None;
        }
        let digit: i64 = (code - 48) as i64;
        let ghost next = digits.take(i - start + 1);
        proof {
            assert(next.drop_last() =~= digits.take(i - start));
            assert(next.last() == c);
        }
        magnitude = magnitude * 10 + digit;
        assert(magnitude == decimal_value(next));
        if magnitude > 2147483648 {
            proof {
                if forall|j: int| 0 <= j < digits.len() ==> is_digit(#[trigger] digits[j]) {
                    lemma_decimal_value_grows(digits, i - start + 1);
                    assert(decimal_value(digits) > 2147483648);
                }
            }
            return None;
        }
        i += 1;
    }
    assert(digits.take(i - start) =~= digits);
    if negative {
        Some((-magnitude) as i32)
    } else if magnitude > 2147483647 {
        None
    } else {
        Some(magnitude as i32)
    }
}

/// Whether `c` is white space: one of the code points with the Unicode
/// property White_Space.
pub open spec fn is_space(c: char) -> bool {
    let code = c as u32;
    ||| 0x09 <= code <= 0x0D
    ||| code == 0x20
    ||| code == 0x85
    ||| code == 0xA0
    ||| code == 0x1680
    ||| 0x2000 <= code <= 0x200A
    ||| code == 0x2028
    ||| code == 0x2029
    ||| code == 0x202F
    ||| code == 0x205F
    ||| code == 0x3000
}

fn is_whitespace(c: char) -> (space: bool)
    ensures
        space == is_space(c),
{
    let code: u32 = c as u32;
    (0x09 <= code && code <= 0x0D) || code == 0x20 || code == 0x85 || code == 0xA0 || code
        == 0x1680 || (0x2000 <= code && code <= 0x200A) || code == 0x2028 || code == 0x2029
        || code == 0x202F || code == 0x205F || code == 0x3000
}

/// The number of white-space characters at the start of `text`.
pub open spec fn leading_spaces(text: Seq<char>) -> nat
    decreases text.len(),
{
    if text.len() > 0 && is_space(text.first()) {
        1 + leading_spaces(text.drop_first())
    } else {
        0
    }
}

/// The number of white-space characters at the end of `text`.
pub open spec fn trailing_spaces(text: Seq<char>) -> nat
    decreases text.len(),
{
    if text.len() > 0 && is_space(text.last()) {
        1 + trailing_spaces(text.drop_last())
    } else {
        0
    }
}

/// `text` without the white space at its start and at its end.
pub open spec fn trimmed(text: Seq<char>) -> Seq<char> {
    let rest = text.skip(leading_spaces(text) as int);
    rest.take(rest.len() - trailing_spaces(rest))
}

proof fn lemma_leading_spaces(text: Seq<char>, k: int)
    requires
        0 <= k <= text.len(),
        forall|i: int| 0 <= i < k ==> is_space(#[trigger] text[i]),
        k < text.len() ==> !is_space(text[k]),
    ensures
        leading_spaces(text) == k,
    decreases k,
{
    if k > 0 {
        let rest = text.drop_first();
        assert forall|i: int| 0 <= i < k - 1 implies is_space(#[trigger] rest[i]) by {
            assert(rest[i] == text[i + 1]);
        }
        lemma_leading_spaces(rest, k - 1);
    }
}

proof fn lemma_trailing_spaces(text: Seq<char>, k: int)
    requires
        0 <= k <= text.len(),
        forall|i: int| text.len() - k <= i < text.len() ==> is_space(#[trigger] text[i]),
        k < text.len() ==> !is_space(text[text.len() - k - 1]),
    ensures
        trailing_spaces(text) == k,
    decreases k,
{
    if k > 0 {
        let rest = text.drop_last();
        assert forall|i: int| rest.len() - (k - 1) <= i < rest.len() implies is_space(
            #[trigger] rest[i],
        ) by {
            assert(rest[i] == text[i]);
        }
        lemma_trailing_spaces(rest, k - 1);
    }
}

/// The program name that a command-name entry holds: its text without the
/// white space around it, such as the line break that ends it.
pub fn trim_name(text: &str) -> (name: String)
    ensures
        name@ == trimmed(text@),
{
    let chars = chars_of(text);
    let n = chars.len();
    let mut start: usize = 0;
    while start < n && is_whitespace(chars[start])
        invariant
            start <= n,
            n == chars.len(),
            forall|i: int| 0 <= i < start ==> is_space(#[trigger] chars@[i]),
        decreases n - start,
    {
        start += 1;
    }
    let mut end: usize = n;
    while end > start && is_whitespace(chars[end - 1])
        invariant
            start <= end <= n,
            n == chars.len(),
            forall|i: int| end <= i < n ==> is_space(#[trigger] chars@[i]),
        decreases end,
    {
        end -= 1;
    }
    proof {
        lemma_leading_spaces(text@, start as int);
        let rest = text@.skip(start as int);
        assert forall|i: int| rest.len() - (n - end) <= i < rest.len() implies is_space(
            #[trigger] rest[i],
        ) by {
            assert(rest[i] == chars@[i + start]);
        }
        lemma_trailing_spaces(rest, n - end);
        assert(rest.take(rest.len() - (n - end)) =~= text@.subrange(start as int, end as int));
    }
    text.substring_char(start, end).to_owned()
}

/// The value of an observation: its pid and its program name.
pub open spec fn observation_views(obs: Seq<ProcessObservation>) -> Seq<(i32, Seq<char>)> {
    obs.map_values(|o: ProcessObservation| (o.pid, o.name@))
}

/// The observations that a snapshot keeps of `entries`: in their order, each
/// entry whose trimmed command name is one of `names`.
pub open spec fn tracked_among(entries: Seq<ProcessEntry>, names: Seq<Seq<char>>) -> Seq<
    (i32, Seq<char>),
>
    decreases entries.len(),
{
    if entries.len() == 0 {
        Seq::empty()
    } else {
        let rest = tracked_among(entries.drop_last(), names);
        let name = trimmed(entries.last().comm@);
        if names.contains(name) {
            rest.push((entries.last().pid, name))
        } else {
            rest
        }
    }
}

/// Restricts the live processes to the tracked programs.
pub fn snapshot(entries: &Vec<ProcessEntry>, config: &Config) -> (observations: Vec<
    ProcessObservation,
>)
    ensures
        observation_views(observations@) == tracked_among(entries@, config.names()),
{
    let mut observations: Vec<ProcessObservation> = Vec::new();
    let mut i: usize = 0;
    assert(observation_views(observations@) =~= tracked_among(entries@.take(0), config.names()));
    while i < entries.len()
        invariant
            i <= entries.len(),
            observation_views(observations@) == tracked_among(
                entries@.take(i as int),
                config.names(),
            ),
        decreases entries.len() - i,
    {
        let entry = &entries[i];
        let name = trim_name(entry.comm.as_str());
        proof {
            let next = entries@.take(i + 1);
            assert(next.drop_last() =~= entries@.take(i as int));
            assert(next.last() == entries@[i as int]);
        }
        if config.is_tracked(&name) {
            let observation = ProcessObservation { pid: entry.pid, name };
            assert(observation_views(observations@.push(observation)) =~= observation_views(
                observations@,
            ).push((observation.pid, observation.name@)));
            observations.push(observation);
        }
        i += 1;
    }
    assert(entries@.take(i as int) =~= entries@);
    observations
}

} // verus!
