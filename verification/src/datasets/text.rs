//! The line-oriented text formats of the word and title files.

use vstd::prelude::*;
use vstd::std_specs::iter::IteratorSpec;

verus! {

/// Index of the first `'\n'` of `s`, or its length when it has none.
pub open spec fn line_end(s: Seq<char>) -> int
    decreases s.len(),
{
    if s.len() == 0 {
        0
    } else if s[0] == '\n' {
        0
    } else {
        1 + line_end(s.drop_first())
    }
}

/// `0 <= line_end(s) <= s.len()`, and the characters before it are no line
/// feeds.
pub proof fn lemma_line_end(s: Seq<char>)
    ensures
        0 <= line_end(s) <= s.len(),
        line_end(s) < s.len() ==> s[line_end(s)] == '\n',
        forall|i: int| 0 <= i < line_end(s) ==> s[i] != '\n',
    decreases s.len(),
{
    if s.len() > 0 && s[0] != '\n' {
        lemma_line_end(s.drop_first());
        assert forall|i: int| 0 <= i < line_end(s) implies s[i] != '\n' by {
            if i > 0 {
                assert(s[i] == s.drop_first()[i - 1]);
            }
        }
    }
}

/// The lines of a text, as `str::lines` gives them: the text is cut after
/// each `'\n'`, the `'\n'` and a `'\r'` right before it are dropped, and a
/// final line ending adds no empty line.
pub open spec fn text_lines(s: Seq<char>) -> Seq<Seq<char>>
    decreases s.len(),
{
    if s.len() == 0 {
        Seq::empty()
    } else {
        let e = line_end(s);
        proof {
            lemma_line_end(s);
        }
        if e < s.len() {
            let raw = s.take(e);
            let line = if raw.len() > 0 && raw.last() == '\r' { raw.drop_last() } else { raw };
            seq![line] + text_lines(s.skip(e + 1))
        } else {
            seq![s]
        }
    }
}

/// Characters with the Unicode White_Space property.
pub open spec fn is_white_space(c: char) -> bool {
    ||| '\u{9}' <= c <= '\u{d}'
    ||| c == ' '
    ||| c == '\u{85}'
    ||| c == '\u{a0}'
    ||| c == '\u{1680}'
    ||| '\u{2000}' <= c <= '\u{200a}'
    ||| c == '\u{2028}'
    ||| c == '\u{2029}'
    ||| c == '\u{202f}'
    ||| c == '\u{205f}'
    ||| c == '\u{3000}'
}

/// `s` without its leading white space.
pub open spec fn trim_start(s: Seq<char>) -> Seq<char>
    decreases s.len(),
{
    if s.len() > 0 && is_white_space(s[0]) {
        trim_start(s.drop_first())
    } else {
        s
    }
}

/// `s` without its trailing white space.
pub open spec fn trim_end(s: Seq<char>) -> Seq<char>
    decreases s.len(),
{
    if s.len() > 0 && is_white_space(s.last()) {
        trim_end(s.drop_last())
    } else {
        s
    }
}

/// `s` without its leading and trailing white space, as `str::trim` gives it.
pub open spec fn trim_chars(s: Seq<char>) -> Seq<char> {
    trim_end(trim_start(s))
}

/// Index of the first `'\t'` of `s`, or its length when it has none.
pub open spec fn tab_index(s: Seq<char>) -> int
    decreases s.len(),
{
    if s.len() == 0 {
        0
    } else if s[0] == '\t' {
        0
    } else {
        1 + tab_index(s.drop_first())
    }
}

/// The first tab-separated field of a line.
pub open spec fn first_field(s: Seq<char>) -> Seq<char> {
    s.take(tab_index(s))
}

/// The lines of a text: `str::lines`, collected. Trusted: the lines are
/// those that `text_lines` describes, as the documentation of `str::lines`
/// defines them.
#[verifier::external_body]
pub(crate) fn lines_of<'a>(s: &'a str) -> (r: Vec<&'a str>)
    ensures
        r@.map_values(|l: &str| l@) == text_lines(s@),
{
    s.lines().collect()
}

/// A string without its leading and trailing white space: `str::trim`.
/// Trusted: the result is what `trim_chars` describes, as the documentation
/// of `str::trim` (white space being the Unicode White_Space property)
/// defines it.
#[verifier::external_body]
pub(crate) fn trim_str<'a>(s: &'a str) -> (r: &'a str)
    ensures
        r@ == trim_chars(s@),
{
    s.trim()
}

/// `0 <= tab_index(s) <= s.len()`, and the characters before it are no tabs.
pub proof fn lemma_tab_index(s: Seq<char>)
    ensures
        0 <= tab_index(s) <= s.len(),
        tab_index(s) < s.len() ==> s[tab_index(s)] == '\t',
        forall|i: int| 0 <= i < tab_index(s) ==> s[i] != '\t',
    decreases s.len(),
{
    if s.len() > 0 && s[0] != '\t' {
        lemma_tab_index(s.drop_first());
        assert forall|i: int| 0 <= i < tab_index(s) implies s[i] != '\t' by {
            if i > 0 {
                assert(s[i] == s.drop_first()[i - 1]);
            }
        }
    }
}

/// The first tab-separated field of a line: the part before its first tab,
/// as `line.split('\t').next()` gives it.
pub fn field_before_tab<'a>(line: &'a str) -> (r: &'a str)
    ensures
        r@ == first_field(line@),
{
    let n = line.unicode_len();
    let mut it = line.chars();
    let mut k: usize = 0;
    proof {
        lemma_tab_index(line@);
        vstd::string::axiom_spec_iter(line);
    }
    loop
        invariant_except_break
            it.obeys_prophetic_iter_laws(),
            it.remaining() == line@.skip(k as int),
        invariant
            n == line@.len(),
            k <= n,
            forall|i: int| 0 <= i < k ==> line@[i] != '\t',
            0 <= tab_index(line@) <= line@.len(),
            tab_index(line@) < line@.len() ==> line@[tab_index(line@)] == '\t',
            forall|i: int| 0 <= i < tab_index(line@) ==> line@[i] != '\t',
        ensures
            k == tab_index(line@),
        decreases n - k,
    {
        let ghost before = it;
        let c = it.next();
        proof {
            vstd::string::next_postcondition(&before, &it, c);
        }
        match c {
            None => {
                assert(line@.skip(k as int).len() == 0);
                break;
            },
            Some(ch) => {
                assert(ch == line@[k as int]);
                if ch == '\t' {
                    break;
                }
                k = k + 1;
                assert(it.remaining() =~= line@.skip(k as int));
            },
        }
    }
    line.substring_char(0, k)
}

} // verus!
