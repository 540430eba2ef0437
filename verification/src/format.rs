//! Building display strings: characters, decimal numbers and terminal colours.

use vstd::prelude::*;

verus! {

/// `String::push`: appends one character to the string.
#[verifier::external_body]
pub(crate) fn push_char(s: &mut String, c: char)
    ensures
        final(s)@ == old(s)@.push(c),
{
    s.push(c);
}

/// The character of a decimal digit.
pub open spec fn digit_char(d: nat) -> char {
    ((d + 48) as u8) as char
}

/// The decimal representation of `n`, without leading zeros.
pub open spec fn decimal(n: nat) -> Seq<char>
    decreases n,
{
    if n < 10 {
        seq![digit_char(n)]
    } else {
        decimal(n / 10).push(digit_char(n % 10))
    }
}

/// The text of a boolean: `true` or `false`.
pub open spec fn bool_text(b: bool) -> Seq<char> {
    if b {
        "true"@
    } else {
        "false"@
    }
}

/// Appends the decimal representation of `n`.
pub fn push_decimal(s: &mut String, n: usize)
    ensures
        final(s)@ == old(s)@ + decimal(n as nat),
    decreases n,
{
    if n >= 10 {
        push_decimal(s, n / 10);
    }
    let d = (n % 10) as u8;
    let c = (d + 48) as char;
    push_char(s, c);
    proof {
        if n < 10 {
            assert(old(s)@ + decimal(n as nat) =~= old(s)@.push(c));
        } else {
            assert(decimal(n as nat) == decimal((n / 10) as nat).push(digit_char((n % 10) as nat)));
        }
    }
}

/// Appends `true` or `false`.
pub fn push_bool(s: &mut String, b: bool)
    ensures
        final(s)@ == old(s)@ + bool_text(b),
{
    if b {
        s.append("true");
    } else {
        s.append("false");
    }
}

/// `text` in red on an ANSI terminal.
pub fn _make_text_red(text: &String) -> (coloured: String)
    ensures
        coloured@ == "\x1b[31m"@ + text@ + "\x1b[0m"@,
{
    let mut coloured = String::from_str("\x1b[31m");
    coloured.append(text.as_str());
    coloured.append("\x1b[0m");
    coloured
}

/// `text` in green on an ANSI terminal.
pub fn make_text_green(text: &String) -> (coloured: String)
    ensures
        coloured@ == "\x1b[32m"@ + text@ + "\x1b[0m"@,
{
    let mut coloured = String::from_str("\x1b[32m");
    coloured.append(text.as_str());
    coloured.append("\x1b[0m");
    coloured
}

/// `text` in blue on an ANSI terminal.
pub fn _make_text_blue(text: &String) -> (coloured: String)
    ensures
        coloured@ == "\x1b[34m"@ + text@ + "\x1b[0m"@,
{
    let mut coloured = String::from_str("\x1b[34m");
    coloured.append(text.as_str());
    coloured.append("\x1b[0m");
    coloured
}

} // verus!
