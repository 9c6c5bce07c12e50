//! What is handed to VoiceOver: a line as the body of an AppleScript string literal, inside
//! the one statement `osascript` runs.
use vstd::prelude::*;

use crate::text::{chars_of, joined, push_char};
use vstd::string::StringExecFns;

verus! {

/// What character `c` becomes inside an AppleScript string literal: a backslash or a quote
/// escaped, a control character below U+0020 a space, anything else itself.
pub open spec fn escaped_char(c: char) -> Seq<char> {
    if c == '\\' {
        seq!['\\', '\\']
    } else if c == '"' {
        seq!['\\', '"']
    } else if (c as u32) < 0x20 {
        seq![' ']
    } else {
        seq![c]
    }
}

/// `s` as the body of an AppleScript string literal.
pub open spec fn escaped(s: Seq<char>) -> Seq<char>
    decreases s.len(),
{
    if s.len() == 0 {
        Seq::empty()
    } else {
        escaped(s.drop_last()) + escaped_char(s.last())
    }
}

/// The body of an AppleScript string literal: the text reaches `osascript` as one argument,
/// with no shell in between, so this is the only escaping there is, and a stray newline
/// cannot close the literal and open a statement.
pub fn applescript_string(text: &str) -> (r: String)
    ensures
        r@ == escaped(text@),
{
    let cs = chars_of(text);
    let mut s = String::new();
    let mut i: usize = 0;
    while i < cs.len()
        invariant
            cs@ == text@,
            i <= cs@.len(),
            s@ == escaped(cs@.take(i as int)),
        decreases cs@.len() - i,
    {
        let c = cs[i];
        let ghost before = s@;
        if c == '\\' {
            push_char(&mut s, '\\');
            push_char(&mut s, '\\');
        } else if c == '"' {
            push_char(&mut s, '\\');
            push_char(&mut s, '"');
        } else if (c as u32) < 0x20 {
            push_char(&mut s, ' ');
        } else {
            push_char(&mut s, c);
        }
        proof {
            assert(cs@.take(i + 1).drop_last() =~= cs@.take(i as int));
            assert(cs@.take(i + 1).last() == c);
            assert(s@ =~= before + escaped_char(c));
        }
        i += 1;
    }
    assert(cs@.take(i as int) =~= cs@);
    s
}

/// The statement that has VoiceOver say `text`: its own voice, its rate, and its braille
/// display.
pub open spec fn output_script_of(text: Seq<char>) -> Seq<char> {
    "tell application \"VoiceOver\" to output \""@ + escaped(text) + "\""@
}

pub fn output_script(text: &str) -> (r: String)
    ensures
        r@ == output_script_of(text@),
{
    let body = applescript_string(text);
    let mut r = joined("tell application \"VoiceOver\" to output \"", body.as_str());
    r.append("\"");
    r
}

} // verus!
