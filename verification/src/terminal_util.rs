//! Bash single-quote escaping of arguments, with its round-trip proof.

use vstd::prelude::*;
use crate::text;

verus! {

/// How one character is written inside a single-quoted bash word:
/// a quote ends the quoting, is written backslash-escaped, and starts
/// quoting again; every other character stands for itself.
pub open spec fn escaped_char(c: char) -> Seq<char> {
    if c == '\'' {
        seq!['\'', '\\', '\'', '\'']
    } else {
        seq![c]
    }
}

/// The escaped body of a string: each character in turn.
pub open spec fn escaped_body(s: Seq<char>) -> Seq<char>
    decreases s.len(),
{
    if s.len() == 0 {
        Seq::empty()
    } else {
        escaped_char(s[0]) + escaped_body(s.drop_first())
    }
}

/// A whole escaped bash argument: the body wrapped in single quotes.
pub open spec fn escaped_arg(s: Seq<char>) -> Seq<char> {
    seq!['\''] + escaped_body(s) + seq!['\'']
}

/// The shell's reading of a word, as the single-quote rule of the bash
/// manual describes it: outside quotes a backslash escapes the next
/// character and a quote starts a quoted part; inside single quotes every
/// character up to the closing quote is literal. `None` stands for an
/// unterminated quote or a trailing backslash.
pub open spec fn shell_read(s: Seq<char>, in_quote: bool) -> Option<Seq<char>>
    decreases s.len(),
{
    if s.len() == 0 {
        if in_quote {
            None
        } else {
            Some(Seq::empty())
        }
    } else if in_quote {
        if s[0] == '\'' {
            shell_read(s.drop_first(), false)
        } else {
            match shell_read(s.drop_first(), true) {
                Some(rest) => Some(seq![s[0]] + rest),
                None => None,
            }
        }
    } else if s[0] == '\'' {
        shell_read(s.drop_first(), true)
    } else if s[0] == '\\' {
        if s.len() >= 2 {
            match shell_read(s.subrange(2, s.len() as int), false) {
                Some(rest) => Some(seq![s[1]] + rest),
                None => None,
            }
        } else {
            None
        }
    } else {
        match shell_read(s.drop_first(), false) {
            Some(rest) => Some(seq![s[0]] + rest),
            None => None,
        }
    }
}

/// The shell's reading of a whole word.
pub open spec fn shell_unescape(s: Seq<char>) -> Option<Seq<char>> {
    shell_read(s, false)
}

proof fn lemma_read_escaped_body(s: Seq<char>)
    ensures
        shell_read(escaped_body(s) + seq!['\''], true) == Some(s),
    decreases s.len(),
{
    if s.len() == 0 {
        assert(escaped_body(s) + seq!['\''] =~= seq!['\'']);
        assert(shell_read(seq!['\''], true) == shell_read(seq!['\''].drop_first(), false));
        assert(seq!['\''].drop_first() =~= Seq::<char>::empty());
    } else {
        let rest = s.drop_first();
        lemma_read_escaped_body(rest);
        let tail = escaped_body(rest) + seq!['\''];
        if s[0] == '\'' {
            let whole = escaped_body(s) + seq!['\''];
            assert(whole =~= seq!['\'', '\\', '\'', '\''] + tail);
            let w1 = whole.drop_first();
            assert(w1 =~= seq!['\\', '\'', '\''] + tail);
            // leaving the quoted part on the first quote
            assert(shell_read(whole, true) == shell_read(w1, false));
            // the backslash escapes the quote that follows
            assert(w1[0] == '\\' && w1.len() >= 2);
            let w2 = w1.subrange(2, w1.len() as int);
            assert(w2 =~= seq!['\''] + tail);
            assert(w2.drop_first() =~= tail);
            // the next quote reopens the quoted part
            assert(shell_read(w2, false) == shell_read(tail, true));
            assert(seq![w1[1]] + rest =~= s);
        } else {
            let whole = escaped_body(s) + seq!['\''];
            assert(whole =~= seq![s[0]] + tail);
            assert(whole.drop_first() =~= tail);
            assert(shell_read(whole, true) == Some(seq![s[0]] + rest));
            assert(seq![s[0]] + rest =~= s);
        }
    }
}

/// The escaping round-trips: reading an escaped argument by the shell's
/// single-quote rule gives back exactly the original string.
pub proof fn lemma_escape_round_trip(s: Seq<char>)
    ensures
        shell_unescape(escaped_arg(s)) == Some(s),
{
    let whole = escaped_arg(s);
    assert(whole[0] == '\'');
    assert(whole.drop_first() =~= escaped_body(s) + seq!['\'']);
    lemma_read_escaped_body(s);
}

proof fn lemma_escaped_body_snoc(s: Seq<char>, c: char)
    ensures
        escaped_body(s + seq![c]) == escaped_body(s) + escaped_char(c),
    decreases s.len(),
{
    if s.len() == 0 {
        assert(s + seq![c] =~= seq![c]);
        assert(escaped_body(seq![c]) == escaped_char(c) + escaped_body(seq![c].drop_first()));
        assert(seq![c].drop_first() =~= Seq::<char>::empty());
        assert(escaped_body(s) + escaped_char(c) =~= escaped_char(c));
    } else {
        let t = s + seq![c];
        assert(t[0] == s[0]);
        assert(t.drop_first() =~= s.drop_first() + seq![c]);
        lemma_escaped_body_snoc(s.drop_first(), c);
        assert(escaped_body(t) == escaped_char(s[0]) + (escaped_body(s.drop_first())
            + escaped_char(c)));
        assert(escaped_char(s[0]) + (escaped_body(s.drop_first()) + escaped_char(c))
            =~= escaped_body(s) + escaped_char(c));
    }
}

/// Writes the body of a single-quoted word: each quote becomes `'\''`.
pub fn push_escaped_body(out: &mut Vec<char>, s: &Vec<char>)
    ensures
        final(out)@ == old(out)@ + escaped_body(s@),
{
    let n = s.len();
    let mut i: usize = 0;
    proof {
        assert(s@.subrange(0, 0) =~= Seq::<char>::empty());
        assert(out@ =~= old(out)@ + escaped_body(s@.subrange(0, 0)));
    }
    while i < n
        invariant
            i <= n,
            n == s@.len(),
            out@ == old(out)@ + escaped_body(s@.subrange(0, i as int)),
        decreases n - i,
    {
        let c = s[i];
        if c == '\'' {
            out.push('\'');
            out.push('\\');
            out.push('\'');
            out.push('\'');
        } else {
            out.push(c);
        }
        proof {
            lemma_escaped_body_snoc(s@.subrange(0, i as int), c);
            assert(s@.subrange(0, i as int) + seq![c] =~= s@.subrange(0, i + 1));
            if c == '\'' {
                assert(out@ =~= old(out)@ + escaped_body(s@.subrange(0, i as int))
                    + escaped_char(c));
            } else {
                assert(out@ =~= old(out)@ + escaped_body(s@.subrange(0, i as int))
                    + escaped_char(c));
            }
            assert(old(out)@ + escaped_body(s@.subrange(0, i as int)) + escaped_char(c)
                =~= old(out)@ + escaped_body(s@.subrange(0, i + 1)));
        }
        i = i + 1;
    }
    proof {
        assert(s@.subrange(0, n as int) =~= s@);
    }
}

/// Wraps a string in single quotes for bash, escaping the quotes it holds,
/// as the bash manual's single-quote rule requires.
pub fn escape_bash_arg(str: &str) -> (r: String)
    ensures
        r@ == escaped_arg(str@),
{
    let chars = text::chars_of(str);
    let mut out: Vec<char> = Vec::new();
    out.push('\'');
    proof {
        assert(out@ =~= seq!['\'']);
    }
    push_escaped_body(&mut out, &chars);
    out.push('\'');
    proof {
        assert(out@ =~= escaped_arg(str@));
    }
    text::string_of(&out)
}

} // verus!
