//! Forgiving treatment of hand-edited JSON.
use vstd::prelude::*;

use crate::scan;
use crate::scan::is_space;
use crate::text::{chars_of, text_of};

verus! {

/// Where a position in a JSON text lies.
#[derive(Clone, Copy, Debug, PartialEq, Eq, Structural)]
pub enum Mode {
    /// Outside of string literals.
    Plain,
    /// Inside a string literal.
    Quoted,
    /// Inside a string literal, behind a backslash.
    Escaped,
}

/// Where one is after reading `c`.
pub open spec fn step(m: Mode, c: char) -> Mode {
    match m {
        Mode::Escaped => Mode::Quoted,
        Mode::Quoted => if c == '\\' {
            Mode::Escaped
        } else if c == '"' {
            Mode::Plain
        } else {
            Mode::Quoted
        },
        Mode::Plain => if c == '"' {
            Mode::Quoted
        } else {
            Mode::Plain
        },
    }
}

/// Where one is after reading `s` from its start.
pub open spec fn mode_after(s: Seq<char>) -> Mode
    decreases s.len(),
{
    if s.len() == 0 {
        Mode::Plain
    } else {
        step(mode_after(s.drop_last()), s.last())
    }
}

/// The first position from `i` on that is not white space.
pub open spec fn past_space(s: Seq<char>, i: int) -> int
    decreases s.len() - i,
{
    if 0 <= i < s.len() && scan::space(s[i]) {
        past_space(s, i + 1)
    } else {
        i
    }
}

/// Is there a comma at `i`, outside of string literals, with nothing but white
/// space between it and a closing bracket?
pub open spec fn trailing_comma(s: Seq<char>, i: int) -> bool {
    &&& s[i] == ','
    &&& mode_after(s.take(i)) == Mode::Plain
    &&& past_space(s, i + 1) < s.len()
    &&& s[past_space(s, i + 1)] == '}' || s[past_space(s, i + 1)] == ']'
}

/// The first `n` characters of `s` without trailing commas.
pub open spec fn stripped(s: Seq<char>, n: int) -> Seq<char>
    decreases n,
{
    if n <= 0 {
        Seq::empty()
    } else if trailing_comma(s, n - 1) {
        stripped(s, n - 1)
    } else {
        stripped(s, n - 1).push(s[n - 1])
    }
}

fn next_mode(m: Mode, c: char) -> (next: Mode)
    ensures
        next == step(m, c),
{
    match m {
        Mode::Escaped => Mode::Quoted,
        Mode::Quoted => {
            if c == '\\' {
                Mode::Escaped
            } else if c == '"' {
                Mode::Plain
            } else {
                Mode::Quoted
            }
        },
        Mode::Plain => {
            if c == '"' {
                Mode::Quoted
            } else {
                Mode::Plain
            }
        },
    }
}

/// The text without commas that stand directly in front of a closing bracket,
/// white space aside. Commas inside string literals stay.
pub fn strip_trailing_commas(s: &str) -> (out: String)
    ensures
        out@ == stripped(s@, s@.len() as int),
{
    let chars: Vec<char> = chars_of(s);
    let mut kept: Vec<char> = Vec::new();
    let mut mode: Mode = Mode::Plain;
    let mut i: usize = 0;
    while i < chars.len()
        invariant
            i <= chars@.len(),
            chars@ == s@,
            mode == mode_after(s@.take(i as int)),
            kept@ == stripped(s@, i as int),
        decreases chars@.len() - i,
    {
        let c: char = chars[i];
        let mut trailing: bool = false;
        if c == ',' && mode == Mode::Plain {
            let mut j: usize = i + 1;
            while j < chars.len() && is_space(chars[j])
                invariant
                    i + 1 <= j <= chars@.len(),
                    chars@ == s@,
                    past_space(s@, i + 1) == past_space(s@, j as int),
                decreases chars@.len() - j,
            {
                j = j + 1;
            }
            trailing = j < chars.len() && (chars[j] == '}' || chars[j] == ']');
        }
        proof {
            assert(s@.take(i + 1).drop_last() =~= s@.take(i as int));
            assert(s@.take(i + 1).last() == c);
        }
        if !trailing {
            kept.push(c);
        }
        mode = next_mode(mode, c);
        i = i + 1;
    }
    text_of(kept.as_slice())
}

/// Tells characters other than the comma.
pub open spec fn not_comma() -> spec_fn(char) -> bool {
    |c: char| c != ','
}

/// Nothing but commas is ever removed, and the rest keeps its order.
pub proof fn law_only_commas_go(s: Seq<char>, n: int)
    requires
        0 <= n <= s.len(),
    ensures
        stripped(s, n).filter(not_comma()) == s.take(n).filter(not_comma()),
    decreases n,
{
    if n > 0 {
        law_only_commas_go(s, n - 1);
        assert(s.take(n) =~= s.take(n - 1).push(s[n - 1]));
        s.take(n - 1).lemma_filter_push(s[n - 1], not_comma());
        stripped(s, n - 1).lemma_filter_push(s[n - 1], not_comma());
    } else {
        assert(s.take(n) =~= Seq::empty());
    }
}

/// A text without trailing commas stays as it is.
pub proof fn law_clean_text_is_kept(s: Seq<char>, n: int)
    requires
        0 <= n <= s.len(),
        forall|i: int| 0 <= i < s.len() ==> !#[trigger] trailing_comma(s, i),
    ensures
        stripped(s, n) == s.take(n),
    decreases n,
{
    if n > 0 {
        law_clean_text_is_kept(s, n - 1);
        assert(!trailing_comma(s, n - 1));
        assert(s.take(n) =~= s.take(n - 1).push(s[n - 1]));
    } else {
        assert(s.take(n) =~= Seq::empty());
    }
}

proof fn lemma_past_space(s: Seq<char>, i: int, j: int)
    requires
        0 <= i <= j <= s.len(),
        forall|k: int| i <= k < j ==> scan::space(#[trigger] s[k]),
        j == s.len() || !scan::space(s[j]),
    ensures
        past_space(s, i) == j,
    decreases j - i,
{
    if i < j {
        assert(scan::space(s[i]));
        lemma_past_space(s, i + 1, j);
    }
}

/// A comma outside of quoted text that only space parts from a closing bracket goes;
/// with anything else behind it, it stays, and so does every other character.
pub proof fn law_trailing_commas_go(s: Seq<char>, i: int, j: int)
    requires
        0 <= i < j <= s.len(),
        forall|k: int| i < k < j ==> scan::space(#[trigger] s[k]),
        j == s.len() || !scan::space(s[j]),
    ensures
        stripped(s, i + 1) == (if s[i] == ',' && mode_after(s.take(i)) == Mode::Plain && j < s.len()
            && (s[j] == '}' || s[j] == ']') {
            stripped(s, i)
        } else {
            stripped(s, i).push(s[i])
        }),
{
    lemma_past_space(s, i + 1, j);
}

/// A quotation mark opens quoted text and closes it; behind a backslash in quoted text
/// it does neither. Text starts outside of quotes.
pub proof fn law_quotes_open_and_close(s: Seq<char>, c: char)
    ensures
        mode_after(Seq::<char>::empty()) == Mode::Plain,
        mode_after(s) == Mode::Plain ==> mode_after(s.push(c)) == (if c == '"' {
            Mode::Quoted
        } else {
            Mode::Plain
        }),
        mode_after(s) == Mode::Quoted && c == '"' ==> mode_after(s.push(c)) == Mode::Plain,
        mode_after(s) == Mode::Quoted && c == '\\' ==> mode_after(s.push(c).push('"'))
            == Mode::Quoted,
        mode_after(s) == Mode::Quoted && c != '"' && c != '\\' ==> mode_after(s.push(c))
            == Mode::Quoted,
{
    let t = s.push(c);
    assert(t.drop_last() =~= s);
    assert(t.push('"').drop_last() =~= t);
}

} // verus!
