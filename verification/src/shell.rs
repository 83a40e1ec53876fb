//! A model of how a POSIX shell reads one word back into a value, and the
//! proof that escaping is the inverse of that reading.

use vstd::prelude::*;
use crate::escape::{all_safe, escaped, is_safe_char, quoted_body};

verus! {

/// The value a POSIX shell gives to one word, reading left to right.
/// `in_quote` says whether the read position stands inside a single-quoted
/// region. Inside single quotes every character but `'` stands for itself;
/// outside, `'` opens a quoted region, `\` makes the next character literal,
/// and a safe character stands for itself. The model commits to nothing
/// else: a word that touches any other construct (whitespace, `$`, backtick,
/// a double quote, an unterminated quote, `\` at the end or before a
/// newline) gets `None`, not a guess at what the shell would do with it.
pub open spec fn shell_word_value(t: Seq<char>, in_quote: bool) -> Option<Seq<char>>
    decreases t.len(),
{
    if t.len() == 0 {
        if in_quote {
            None
        } else {
            Some(Seq::empty())
        }
    } else {
        let c = t[0];
        let rest = t.skip(1);
        if in_quote {
            if c == '\'' {
                shell_word_value(rest, false)
            } else {
                match shell_word_value(rest, true) {
                    Some(v) => Some(seq![c] + v),
                    None => None,
                }
            }
        } else if c == '\'' {
            shell_word_value(rest, true)
        } else if c == '\\' {
            if rest.len() == 0 || rest[0] == '\n' {
                None
            } else {
                match shell_word_value(rest.skip(1), false) {
                    Some(v) => Some(seq![rest[0]] + v),
                    None => None,
                }
            }
        } else if is_safe_char(c) {
            match shell_word_value(rest, false) {
                Some(v) => Some(seq![c] + v),
                None => None,
            }
        } else {
            None
        }
    }
}

proof fn lemma_safe_word(s: Seq<char>)
    requires
        all_safe(s),
    ensures
        shell_word_value(s, false) == Some(s),
    decreases s.len(),
{
    if s.len() > 0 {
        assert(is_safe_char(s[0]));
        lemma_safe_word(s.skip(1));
        assert(seq![s[0]] + s.skip(1) =~= s);
    }
}

proof fn lemma_quoted_body_word(s: Seq<char>)
    ensures
        shell_word_value(quoted_body(s) + seq!['\''], true) == Some(s),
    decreases s.len(),
{
    let t = quoted_body(s) + seq!['\''];
    if s.len() == 0 {
        assert(t =~= seq!['\'']);
        assert(t.skip(1) =~= Seq::<char>::empty());
        assert(s =~= Seq::<char>::empty());
        assert(shell_word_value(Seq::<char>::empty(), false) == Some(Seq::<char>::empty()));
        assert(shell_word_value(t, true) == Some(s));
    } else {
        let c = s[0];
        let s1 = s.skip(1);
        lemma_quoted_body_word(s1);
        let t1 = quoted_body(s1) + seq!['\''];
        if c == '\'' || c == '!' {
            // The body opens with close-quote, backslash, c, reopen-quote.
            assert(t =~= seq!['\'', '\\', c, '\''] + t1);
            let u1 = t.skip(1);
            assert(u1 =~= seq!['\\', c, '\''] + t1);
            // Close quote: now outside, at the backslash escape.
            assert(shell_word_value(t, true) == shell_word_value(u1, false));
            let u2 = u1.skip(1);
            assert(u2 =~= seq![c, '\''] + t1);
            assert(u2[0] == c && c != '\n');
            let u3 = u2.skip(1);
            assert(u3 =~= seq!['\''] + t1);
            // The backslash yields c literally, then the quote reopens.
            assert(u3.skip(1) =~= t1);
            assert(shell_word_value(u3, false) == shell_word_value(t1, true));
            assert(shell_word_value(t, true) == Some(seq![c] + s1));
            assert(seq![c] + s1 =~= s);
        } else {
            assert(t =~= seq![c] + t1);
            assert(t.skip(1) =~= t1);
            assert(shell_word_value(t, true) == Some(seq![c] + s1));
            assert(seq![c] + s1 =~= s);
        }
    }
}

/// Round trip: the escaped form of any value — empty, with spaces, quotes,
/// `$`, backticks, newlines — is one word that the shell reads back into
/// exactly that value.
pub proof fn lemma_escape_round_trip(s: Seq<char>)
    ensures
        shell_word_value(escaped(s), false) == Some(s),
{
    if s.len() > 0 && all_safe(s) {
        lemma_safe_word(s);
    } else {
        let t = escaped(s);
        assert(t =~= seq!['\''] + (quoted_body(s) + seq!['\'']));
        assert(t[0] == '\'');
        assert(t.skip(1) =~= quoted_body(s) + seq!['\'']);
        lemma_quoted_body_word(s);
    }
}

/// A literal argument that begins with `$` is emitted as a quoted word whose
/// shell value is the argument itself: it reaches the remote program as that
/// literal text, never as a variable expansion.
pub proof fn lemma_dollar_stays_literal(s: Seq<char>)
    requires
        s.len() > 0,
        s[0] == '$',
    ensures
        escaped(s) == seq!['\''] + quoted_body(s) + seq!['\''],
        shell_word_value(escaped(s), false) == Some(s),
{
    assert(!is_safe_char(s[0]));
    assert(!all_safe(s));
    lemma_escape_round_trip(s);
}

} // verus!
