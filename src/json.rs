//! The manifest's JSON text. serde_json writes each string literal; the
//! layout around them is framed here.
use vstd::prelude::*;
use crate::manifest::EntryView;

verus! {

#[verifier::external_type_specification]
#[verifier::external_body]
pub struct ExJsonError(serde_json::Error);

/// A lowercase hexadecimal digit.
pub open spec fn hex_digit(n: int) -> char {
    if n < 10 {
        ('0' as int + n) as char
    } else {
        ('a' as int + n - 10) as char
    }
}

/// How a character stands inside a JSON string literal: quote and backslash
/// escaped, the control characters by their short escapes or as `\u00XX`,
/// everything else as it is.
pub open spec fn escape_char(c: char) -> Seq<char> {
    if c == '"' {
        seq!['\\', '"']
    } else if c == '\\' {
        seq!['\\', '\\']
    } else if c == '\u{8}' {
        seq!['\\', 'b']
    } else if c == '\t' {
        seq!['\\', 't']
    } else if c == '\n' {
        seq!['\\', 'n']
    } else if c == '\u{c}' {
        seq!['\\', 'f']
    } else if c == '\r' {
        seq!['\\', 'r']
    } else if (c as int) < 0x20 {
        seq!['\\', 'u', '0', '0', hex_digit(c as int / 16), hex_digit(c as int % 16)]
    } else {
        seq![c]
    }
}

/// The characters of `s`, each escaped.
pub open spec fn escaped(s: Seq<char>) -> Seq<char>
    decreases s.len(),
{
    if s.len() == 0 {
        Seq::empty()
    } else {
        escaped(s.drop_last()) + escape_char(s.last())
    }
}

/// The JSON string literal that serde_json writes for `s`: the escaped
/// characters between double quotes.
pub open spec fn json_quoted(s: Seq<char>) -> Seq<char> {
    seq!['"'] + escaped(s) + seq!['"']
}

/// Relies on serde_json::to_string on a `str`: the JSON string literal for
/// the characters given. Writing a string into serde_json's in-memory buffer
/// cannot fail.
#[verifier::external_body]
pub(crate) fn json_string(s: &str) -> (r: Result<String, serde_json::Error>)
    ensures
        r is Ok,
        r matches Ok(t) ==> t@ == json_quoted(s@),
{
    serde_json::to_string(s)
}

/// One entry: the key literal, a colon, the digest literal.
pub open spec fn entry_text(p: EntryView) -> Seq<char> {
    json_quoted(p.0) + seq![':'] + json_quoted(p.1)
}

/// The entries separated by commas.
pub open spec fn entries_text(e: Seq<EntryView>) -> Seq<char>
    decreases e.len(),
{
    if e.len() == 0 {
        Seq::empty()
    } else if e.len() == 1 {
        entry_text(e[0])
    } else {
        entries_text(e.drop_last()) + seq![','] + entry_text(e.last())
    }
}

/// What comes before the entries: `{"files":{`.
pub open spec fn files_open() -> Seq<char> {
    seq!['{', '"', 'f', 'i', 'l', 'e', 's', '"', ':', '{']
}

/// What comes between the entries and the package field: `},"package":`.
pub open spec fn package_open() -> Seq<char> {
    seq!['}', ',', '"', 'p', 'a', 'c', 'k', 'a', 'g', 'e', '"', ':']
}

/// The literal for an absent package field: `null`.
pub open spec fn null_text() -> Seq<char> {
    seq!['n', 'u', 'l', 'l']
}

/// Further top-level members, each a name and the JSON text of its value,
/// every one preceded by a comma.
pub open spec fn other_text(o: Seq<EntryView>) -> Seq<char>
    decreases o.len(),
{
    if o.len() == 0 {
        Seq::empty()
    } else {
        other_text(o.drop_last()) + seq![','] + json_quoted(o.last().0) + seq![':'] + o.last().1
    }
}

/// The whole manifest document, in compact form with the entries in the order
/// given, then the package field, then the other top-level members.
pub open spec fn manifest_text(
    e: Seq<EntryView>,
    package: Option<Seq<char>>,
    other: Seq<EntryView>,
) -> Seq<char> {
    files_open() + entries_text(e) + package_open() + match package {
        Some(p) => json_quoted(p),
        None => null_text(),
    } + other_text(other) + seq!['}']
}

} // verus!
