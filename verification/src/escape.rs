//! Shell escaping of a single value: the transformation that turns an
//! arbitrary string into one token that a POSIX shell parses back into
//! exactly that string.

use vstd::prelude::*;

verus! {

/// Characters that a POSIX shell takes literally even outside quotes, so a
/// string made only of them may travel unquoted.
pub open spec fn is_safe_char(c: char) -> bool {
    ('a' as u32 <= c as u32 && c as u32 <= 'z' as u32)
        || ('A' as u32 <= c as u32 && c as u32 <= 'Z' as u32)
        || ('0' as u32 <= c as u32 && c as u32 <= '9' as u32)
        || c == '-' || c == '_' || c == '=' || c == '/' || c == ',' || c == '.' || c == '+'
}

pub open spec fn all_safe(s: Seq<char>) -> bool {
    forall|i: int| 0 <= i < s.len() ==> is_safe_char(#[trigger] s[i])
}

/// How one character is rendered inside a single-quoted region: `'` and `!`
/// cannot stand there, so each is emitted as close-quote, backslash-escape,
/// reopen-quote; every other character stands for itself.
pub open spec fn quote_char(c: char) -> Seq<char> {
    if c == '\'' || c == '!' {
        seq!['\'', '\\', c, '\'']
    } else {
        seq![c]
    }
}

pub open spec fn quoted_body(s: Seq<char>) -> Seq<char>
    decreases s.len(),
{
    if s.len() == 0 {
        Seq::empty()
    } else {
        quote_char(s[0]) + quoted_body(s.skip(1))
    }
}

/// The escaped form of a value: a non-empty string of safe characters is
/// left as it is; anything else is wrapped in single quotes, with embedded
/// `'` and `!` escaped.
pub open spec fn escaped(s: Seq<char>) -> Seq<char> {
    if s.len() > 0 && all_safe(s) {
        s
    } else {
        seq!['\''] + quoted_body(s) + seq!['\'']
    }
}

/// Relies on `shell_escape::unix::escape` (shell-escape 0.1.5): a non-empty
/// string made only of the whitelisted characters (ASCII alphanumerics and
/// `-_=/,.+`) is returned unchanged; any other string is wrapped in single
/// quotes, each embedded `'` or `!` rendered as `'\` + the character + `'`.
#[verifier::external_body]
pub(crate) fn escape_string(s: &str) -> (r: String)
    ensures
        r@ == escaped(s@),
{
    shell_escape::unix::escape(std::borrow::Cow::Borrowed(s)).into_owned()
}

} // verus!
