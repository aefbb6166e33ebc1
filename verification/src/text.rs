//! Pieces of text for messages and diagnostics: numbers in decimal, and names
//! with what cannot be printed escaped.

use vstd::prelude::*;
use vstd::string::StrSliceExecFns;
use vstd::string::StringExecFns;

verus! {

/// `String::push` puts one character behind the text.
pub assume_specification[ String::push ](s: &mut String, ch: char)
    ensures
        final(s)@ == old(s)@.push(ch),
;

/// What `char::escape_debug` makes of a character. It decides by Unicode's
/// tables which characters can be printed.
pub uninterp spec fn escape_debug_of(c: char) -> Seq<char>;

/// Calls `char::escape_debug`. The text is the same whenever the character is.
#[verifier::external_body]
fn escape_by_tables(c: char) -> (text: String)
    ensures
        text@ == escape_debug_of(c),
{
    c.escape_debug().to_string()
}

/// The digit `d` of a number in decimal or hexadecimal, as a character.
pub open spec fn digit(d: int) -> char {
    if d < 10 {
        (48 + d) as char
    } else {
        (87 + d) as char
    }
}

/// The digit `d` of a number in decimal or hexadecimal, as a character.
fn digit_char(d: u32) -> (c: char)
    requires
        d < 16,
    ensures
        c == digit(d as int),
{
    match d {
        0 => '0',
        1 => '1',
        2 => '2',
        3 => '3',
        4 => '4',
        5 => '5',
        6 => '6',
        7 => '7',
        8 => '8',
        9 => '9',
        10 => 'a',
        11 => 'b',
        12 => 'c',
        13 => 'd',
        14 => 'e',
        _ => 'f',
    }
}

/// A number in decimal, without leading zeros.
pub open spec fn decimal(n: nat) -> Seq<char>
    decreases n,
{
    if n < 10 {
        seq![digit(n as int)]
    } else {
        decimal(n / 10).push(digit((n % 10) as int))
    }
}

/// Appends a number in decimal.
pub fn append_decimal(text: &mut String, n: u32)
    ensures
        final(text)@ == old(text)@ + decimal(n as nat),
    decreases n,
{
    let ghost before = text@;
    if n >= 10 {
        append_decimal(text, n / 10);
    }
    text.push(digit_char(n % 10));
    assert(text@ =~= before + decimal(n as nat));
}

/// An ASCII code in hexadecimal, without leading zeros.
pub open spec fn short_hex(n: int) -> Seq<char> {
    if n < 16 {
        seq![digit(n)]
    } else {
        seq![digit(n / 16), digit(n % 16)]
    }
}

/// A character of a quoted name: a quotation mark, a backslash and what cannot
/// be printed are escaped.
pub open spec fn escaped_char(c: char) -> Seq<char> {
    if c == '\0' {
        seq!['\\', '0']
    } else if c == '\t' {
        seq!['\\', 't']
    } else if c == '\n' {
        seq!['\\', 'n']
    } else if c == '\r' {
        seq!['\\', 'r']
    } else if c == '"' || c == '\\' {
        seq!['\\', c]
    } else if (c as int) < 0x20 || c as int == 0x7f {
        seq!['\\', 'u', '{'] + short_hex(c as int) + seq!['}']
    } else if (c as int) < 0x80 {
        seq![c]
    } else {
        escape_debug_of(c)
    }
}

/// A name with each character escaped where it has to be.
pub open spec fn escaped(name: Seq<char>) -> Seq<char>
    decreases name.len(),
{
    if name.len() == 0 {
        seq![]
    } else {
        escaped(name.drop_last()) + escaped_char(name.last())
    }
}

/// Appends a character, escaped where it has to be.
fn append_escaped(text: &mut String, c: char)
    ensures
        final(text)@ == old(text)@ + escaped_char(c),
{
    let ghost before = text@;
    let code: u32 = c as u32;
    if code >= 0x80 {
        text.append(escape_by_tables(c).as_str());
    } else if code >= 0x20 && code != 0x7f && c != '"' && c != '\\' {
        text.push(c);
    } else {
        text.push('\\');
        if c == '\0' {
            text.push('0');
        } else if c == '\t' {
            text.push('t');
        } else if c == '\n' {
            text.push('n');
        } else if c == '\r' {
            text.push('r');
        } else if c == '"' || c == '\\' {
            text.push(c);
        } else {
            text.push('u');
            text.push('{');
            if code >= 16 {
                text.push(digit_char(code / 16));
            }
            text.push(digit_char(code % 16));
            text.push('}');
        }
    }
    assert(text@ =~= before + escaped_char(c));
}

/// A name with each character escaped where it has to be.
pub fn escape(name: &str) -> (text: String)
    ensures
        text@ == escaped(name@),
{
    let mut text: String = String::new();
    let n: usize = name.unicode_len();
    let mut i: usize = 0;
    assert(name@.take(0) =~= seq![]);
    while i < n
        invariant
            i <= n,
            n == name@.len(),
            text@ == escaped(name@.take(i as int)),
        decreases n - i,
    {
        append_escaped(&mut text, name.get_char(i));
        proof {
            let longer = name@.take(i + 1);
            assert(longer.drop_last() =~= name@.take(i as int));
            assert(longer.last() == name@[i as int]);
        }
        i += 1;
    }
    assert(name@.take(i as int) =~= name@);
    text
}

/// Printable ASCII without quotation marks and backslashes is written as it
/// is.
pub proof fn law_plain_names_stay(name: Seq<char>)
    requires
        forall|i: int|
            0 <= i < name.len() ==> 0x20 <= (#[trigger] name[i]) as int && (name[i] as int) < 0x7f
                && name[i] != '"' && name[i] != '\\',
    ensures
        escaped(name) == name,
    decreases name.len(),
{
    if name.len() > 0 {
        let rest = name.drop_last();
        assert forall|i: int| 0 <= i < rest.len() implies 0x20 <= (#[trigger] rest[i]) as int && (
        rest[i] as int) < 0x7f && rest[i] != '"' && rest[i] != '\\' by {
            assert(rest[i] == name[i]);
        }
        law_plain_names_stay(rest);
        assert(name.last() == name[name.len() - 1]);
        assert(rest + seq![name.last()] =~= name);
    }
}

} // verus!
