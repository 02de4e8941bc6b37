//! Scanning of text: separators, trimming, lines and numbers.
use vstd::prelude::*;

verus! {

/// Is `c` white space (the characters with the Unicode property `White_Space`)?
pub open spec fn space(c: char) -> bool {
    ||| '\u{9}' <= c <= '\u{d}'
    ||| c == '\u{20}'
    ||| c == '\u{85}'
    ||| c == '\u{a0}'
    ||| c == '\u{1680}'
    ||| '\u{2000}' <= c <= '\u{200a}'
    ||| c == '\u{2028}'
    ||| c == '\u{2029}'
    ||| c == '\u{202f}'
    ||| c == '\u{205f}'
    ||| c == '\u{3000}'
}

/// Is `c` white space?
pub fn is_space(c: char) -> (yes: bool)
    ensures
        yes == space(c),
{
    ('\u{9}' <= c && c <= '\u{d}') || c == '\u{20}' || c == '\u{85}' || c == '\u{a0}' || c
        == '\u{1680}' || ('\u{2000}' <= c && c <= '\u{200a}') || c == '\u{2028}' || c == '\u{2029}'
        || c == '\u{202f}' || c == '\u{205f}' || c == '\u{3000}'
}

/// What separates the pieces of a text.
#[derive(Clone, Copy, Debug)]
pub enum Separator {
    /// One given character.
    Char(char),
    /// Any white space character.
    Space,
}

impl Separator {
    /// Does `c` separate?
    pub open spec fn splits(self, c: char) -> bool {
        match self {
            Separator::Char(x) => c == x,
            Separator::Space => space(c),
        }
    }

    fn separates(self, c: char) -> (yes: bool)
        ensures
            yes == self.splits(c),
    {
        match self {
            Separator::Char(x) => c == x,
            Separator::Space => is_space(c),
        }
    }
}

/// The pieces of `s` between separators, empty ones among them. There is
/// always at least one.
pub open spec fn pieces(s: Seq<char>, sep: Separator) -> Seq<Seq<char>>
    decreases s.len(),
{
    if s.len() == 0 {
        seq![Seq::<char>::empty()]
    } else {
        let before = pieces(s.drop_last(), sep);
        if sep.splits(s.last()) {
            before.push(Seq::empty())
        } else {
            before.drop_last().push(before.last().push(s.last()))
        }
    }
}

pub proof fn lemma_pieces_len(s: Seq<char>, sep: Separator)
    ensures
        pieces(s, sep).len() >= 1,
    decreases s.len(),
{
    if s.len() > 0 {
        lemma_pieces_len(s.drop_last(), sep);
    }
}

/// The contents of a list of texts.
pub open spec fn text_views(v: Seq<Vec<char>>) -> Seq<Seq<char>> {
    v.map_values(|x: Vec<char>| x@)
}

/// The pieces of `chars` between separators.
pub fn split(chars: &[char], sep: Separator) -> (out: Vec<Vec<char>>)
    ensures
        text_views(out@) == pieces(chars@, sep),
{
    let mut done: Vec<Vec<char>> = Vec::new();
    let mut cur: Vec<char> = Vec::new();
    let mut i: usize = 0;
    assert(text_views(done@).push(cur@) =~= pieces(chars@.take(0), sep));
    while i < chars.len()
        invariant
            i <= chars@.len(),
            text_views(done@).push(cur@) == pieces(chars@.take(i as int), sep),
        decreases chars@.len() - i,
    {
        let c: char = chars[i];
        let ghost old_done = text_views(done@);
        let ghost old_cur = cur@;
        proof {
            assert(chars@.take(i + 1).drop_last() =~= chars@.take(i as int));
            assert(chars@.take(i + 1).last() == c);
            assert(old_done.push(old_cur).drop_last() =~= old_done);
        }
        if sep.separates(c) {
            done.push(cur);
            cur = Vec::new();
            assert(text_views(done@) =~= old_done.push(old_cur));
            assert(cur@ =~= Seq::empty());
        } else {
            cur.push(c);
        }
        i = i + 1;
    }
    let ghost old_done = text_views(done@);
    let ghost old_cur = cur@;
    done.push(cur);
    proof {
        assert(text_views(done@) =~= old_done.push(old_cur));
        assert(chars@.take(i as int) =~= chars@);
    }
    done
}

/// Tells the texts that are not empty.
pub open spec fn not_empty() -> spec_fn(Seq<char>) -> bool {
    |s: Seq<char>| s.len() > 0
}

/// The words of `s` between white space.
pub open spec fn fields_of(s: Seq<char>) -> Seq<Seq<char>> {
    pieces(s, Separator::Space).filter(not_empty())
}

/// The words of `chars` between white space.
pub fn fields(chars: &[char]) -> (out: Vec<Vec<char>>)
    ensures
        text_views(out@) == fields_of(chars@),
{
    let all: Vec<Vec<char>> = split(chars, Separator::Space);
    let ghost av = text_views(all@);
    let mut out: Vec<Vec<char>> = Vec::new();
    let mut i: usize = 0;
    assert(text_views(out@) =~= av.take(0).filter(not_empty()));
    while i < all.len()
        invariant
            i <= all@.len(),
            av == text_views(all@),
            text_views(out@) == av.take(i as int).filter(not_empty()),
        decreases all@.len() - i,
    {
        let ghost before = out@;
        proof {
            assert(av[i as int] == all@[i as int]@);
            assert(av.take(i + 1) =~= av.take(i as int).push(av[i as int]));
            av.take(i as int).lemma_filter_push(av[i as int], not_empty());
        }
        if all[i].len() > 0 {
            let copy: Vec<char> = copied(&all[i]);
            out.push(copy);
            assert(text_views(out@) =~= text_views(before).push(av[i as int]));
        }
        i = i + 1;
    }
    assert(av.take(i as int) =~= av);
    out
}

/// A copy of a text.
pub fn copied(chars: &Vec<char>) -> (out: Vec<char>)
    ensures
        out@ == chars@,
{
    copied_between(chars.as_slice(), 0, chars.len())
}

/// A copy of the characters from `from` up to (not with) `to`.
pub fn copied_between(chars: &[char], from: usize, to: usize) -> (out: Vec<char>)
    requires
        from <= to <= chars@.len(),
    ensures
        out@ == chars@.subrange(from as int, to as int),
        from == 0 && to == chars@.len() ==> out@ == chars@,
{
    let mut out: Vec<char> = Vec::new();
    let mut i: usize = from;
    while i < to
        invariant
            from <= i <= to <= chars@.len(),
            out@ == chars@.subrange(from as int, i as int),
        decreases to - i,
    {
        out.push(chars[i]);
        i = i + 1;
        assert(out@ =~= chars@.subrange(from as int, i as int));
    }
    if from == 0 && to == chars.len() {
        assert(out@ =~= chars@);
    }
    out
}

/// `s` without white space at its end.
pub open spec fn trimmed_end(s: Seq<char>) -> Seq<char>
    decreases s.len(),
{
    if s.len() > 0 && space(s.last()) {
        trimmed_end(s.drop_last())
    } else {
        s
    }
}

/// `s` without white space at its start.
pub open spec fn trimmed_start(s: Seq<char>) -> Seq<char>
    decreases s.len(),
{
    if s.len() > 0 && space(s[0]) {
        trimmed_start(s.drop_first())
    } else {
        s
    }
}

/// `s` without white space at either end.
pub open spec fn trimmed(s: Seq<char>) -> Seq<char> {
    trimmed_end(trimmed_start(s))
}

/// The characters without white space at either end.
pub fn trim(chars: &[char]) -> (out: Vec<char>)
    ensures
        out@ == trimmed(chars@),
{
    let mut from: usize = 0;
    assert(chars@.skip(0) =~= chars@);
    while from < chars.len() && is_space(chars[from])
        invariant
            from <= chars@.len(),
            trimmed_start(chars@) == trimmed_start(chars@.skip(from as int)),
        decreases chars@.len() - from,
    {
        assert(chars@.skip(from as int).drop_first() =~= chars@.skip(from + 1));
        from = from + 1;
    }
    assert(trimmed_start(chars@) == chars@.skip(from as int));
    let mut to: usize = chars.len();
    assert(chars@.subrange(from as int, to as int) =~= chars@.skip(from as int));
    while to > from && is_space(chars[to - 1])
        invariant
            from <= to <= chars@.len(),
            trimmed_end(chars@.skip(from as int)) == trimmed_end(
                chars@.subrange(from as int, to as int),
            ),
        decreases to,
    {
        proof {
            let cut = chars@.subrange(from as int, to as int);
            assert(cut.last() == chars@[to - 1]);
            assert(cut.drop_last() =~= chars@.subrange(from as int, to - 1));
        }
        to = to - 1;
    }
    proof {
        let cut = chars@.subrange(from as int, to as int);
        if to > from {
            assert(cut.last() == chars@[to - 1]);
        }
    }
    copied_between(chars, from, to)
}

/// A line without the carriage return in front of its line feed.
pub open spec fn without_return(line: Seq<char>) -> Seq<char> {
    if line.len() > 0 && line.last() == '\u{d}' {
        line.drop_last()
    } else {
        line
    }
}

/// The lines of `s`. A line ends with a line feed or with a carriage return
/// and a line feed; the last one may end with the text.
pub open spec fn lines_of(s: Seq<char>) -> Seq<Seq<char>> {
    let all = pieces(s, Separator::Char('\u{a}'));
    let ended = all.drop_last().map_values(|l: Seq<char>| without_return(l));
    if all.last().len() == 0 {
        ended
    } else {
        ended.push(all.last())
    }
}

/// The lines of `chars`.
pub fn lines(chars: &[char]) -> (out: Vec<Vec<char>>)
    ensures
        text_views(out@) == lines_of(chars@),
{
    let all: Vec<Vec<char>> = split(chars, Separator::Char('\u{a}'));
    let ghost av = text_views(all@);
    proof {
        lemma_pieces_len(chars@, Separator::Char('\u{a}'));
        assert(av.len() == all@.len());
    }
    let n: usize = all.len() - 1;
    let ghost ended = av.drop_last().map_values(|l: Seq<char>| without_return(l));
    let mut out: Vec<Vec<char>> = Vec::new();
    let mut i: usize = 0;
    while i < n
        invariant
            i <= n,
            n == all@.len() - 1,
            av == text_views(all@),
            ended == av.drop_last().map_values(|l: Seq<char>| without_return(l)),
            out@.len() == i,
            forall|k: int| 0 <= k < i ==> (#[trigger] out@[k])@ == ended[k],
        decreases n - i,
    {
        let len: usize = all[i].len();
        assert(ended[i as int] == without_return(all@[i as int]@));
        let line: Vec<char> = if len > 0 && all[i][len - 1] == '\u{d}' {
            let cut: Vec<char> = copied_between(all[i].as_slice(), 0, len - 1);
            assert(cut@ =~= all@[i as int]@.drop_last());
            cut
        } else {
            copied(&all[i])
        };
        out.push(line);
        i = i + 1;
    }
    assert(text_views(out@) =~= ended);
    assert(av.last() == all@[n as int]@);
    if all[n].len() > 0 {
        let ghost before = out@;
        let copy: Vec<char> = copied(&all[n]);
        out.push(copy);
        assert(text_views(out@) =~= text_views(before).push(av.last()));
    }
    out
}

/// Position of the first `c`, or the length where there is none.
pub open spec fn index_of(s: Seq<char>, c: char) -> int
    decreases s.len(),
{
    if s.len() == 0 {
        0
    } else if s[0] == c {
        0
    } else {
        1 + index_of(s.drop_first(), c)
    }
}

/// Position of the first `c`, or the length where there is none.
pub fn find(chars: &[char], c: char) -> (at: usize)
    ensures
        at == index_of(chars@, c),
        at <= chars@.len(),
        at < chars@.len() ==> chars@[at as int] == c,
        forall|k: int| 0 <= k < at ==> chars@[k] != c,
{
    let mut at: usize = 0;
    assert(chars@.skip(0) =~= chars@);
    while at < chars.len() && chars[at] != c
        invariant
            at <= chars@.len(),
            index_of(chars@, c) == at + index_of(chars@.skip(at as int), c),
            forall|k: int| 0 <= k < at ==> chars@[k] != c,
        decreases chars@.len() - at,
    {
        assert(chars@.skip(at as int).drop_first() =~= chars@.skip(at + 1));
        at = at + 1;
    }
    at
}

/// The value of a digit in the given base, up to base 16.
pub open spec fn digit_of(c: char, base: int) -> Option<int> {
    let v = if '0' <= c <= '9' {
        c as int - '0' as int
    } else if 'a' <= c <= 'f' {
        c as int - 'a' as int + 10
    } else if 'A' <= c <= 'F' {
        c as int - 'A' as int + 10
    } else {
        99
    };
    if v < base {
        Some(v)
    } else {
        None
    }
}

/// The number written by the digits `s`, if all of them are digits.
pub open spec fn number_of(s: Seq<char>, base: int) -> Option<int>
    decreases s.len(),
{
    if s.len() == 0 {
        Some(0)
    } else {
        match (number_of(s.drop_last(), base), digit_of(s.last(), base)) {
            (Some(n), Some(d)) => Some(n * base + d),
            _ => None,
        }
    }
}

/// `s` without a leading plus sign.
pub open spec fn without_plus(s: Seq<char>) -> Seq<char> {
    if s.len() > 0 && s[0] == '+' {
        s.skip(1)
    } else {
        s
    }
}

/// The unsigned number that `s` writes in the given base: one or more digits,
/// possibly after a plus sign, no larger than `max`.
pub open spec fn unsigned_of(s: Seq<char>, base: int, max: int) -> Option<int> {
    let digits = without_plus(s);
    if digits.len() == 0 {
        None
    } else {
        match number_of(digits, base) {
            Some(n) => if n <= max {
                Some(n)
            } else {
                None
            },
            None => None,
        }
    }
}

proof fn lemma_number_grows(s: Seq<char>, base: int, k: int)
    requires
        base >= 1,
        0 <= k <= s.len(),
        number_of(s, base) is Some,
    ensures
        number_of(s.take(k), base) is Some,
        0 <= number_of(s.take(k), base)->0 <= number_of(s, base)->0,
    decreases s.len(),
{
    if k == s.len() {
        assert(s.take(k) =~= s);
        if s.len() > 0 {
            lemma_number_grows(s.drop_last(), base, 0);
            let n = number_of(s.drop_last(), base)->0;
            assert(s.drop_last().take(0) =~= s.take(0));
            lemma_number_grows(s.drop_last(), base, s.len() - 1);
            assert(n * base >= 0) by (nonlinear_arith)
                requires
                    n >= 0,
                    base >= 1,
            ;
        }
    } else {
        lemma_number_grows(s.drop_last(), base, k);
        assert(s.drop_last().take(k) =~= s.take(k));
        let n = number_of(s.drop_last(), base)->0;
        assert(n <= n * base) by (nonlinear_arith)
            requires
                n >= 0,
                base >= 1,
        ;
    }
}

fn digit(c: char, base: u64) -> (d: Option<u64>)
    requires
        1 <= base <= 16,
    ensures
        match d {
            Some(v) => digit_of(c, base as int) == Some(v as int) && v < base,
            None => digit_of(c, base as int) is None,
        },
{
    let code: u64 = c as u64;
    let v: u64 = if '0' <= c && c <= '9' {
        code - 48
    } else if 'a' <= c && c <= 'f' {
        code - 87
    } else if 'A' <= c && c <= 'F' {
        code - 55
    } else {
        99
    };
    if v < base {
        Some(v)
    } else {
        None
    }
}

/// The unsigned number that the characters write, at most `max`.
pub fn parse_unsigned(chars: &[char], base: u64, max: u64) -> (n: Option<u64>)
    requires
        1 <= base <= 16,
    ensures
        match n {
            Some(v) => unsigned_of(chars@, base as int, max as int) == Some(v as int),
            None => unsigned_of(chars@, base as int, max as int) is None,
        },
{
    let from: usize = if chars.len() > 0 && chars[0] == '+' {
        1
    } else {
        0
    };
    let ghost digits = without_plus(chars@);
    let ghost b = base as int;
    proof {
        if from == 0 {
            assert(chars@.skip(0) =~= chars@);
        }
        assert(digits == chars@.skip(from as int));
        assert(digits.take(0) =~= Seq::empty());
    }
    if from == chars.len() {
        return None;
    }
    let mut value: u64 = 0;
    let mut i: usize = from;
    while i < chars.len()
        invariant
            from <= i <= chars@.len(),
            1 <= base <= 16,
            b == base,
            digits == chars@.skip(from as int),
            digits == without_plus(chars@),
            digits.len() > 0,
            value <= max,
            number_of(digits.take(i - from), b) == Some(value as int),
        decreases chars@.len() - i,
    {
        let ghost k = i - from;
        proof {
            assert(digits.take(k + 1).drop_last() =~= digits.take(k));
            assert(digits.take(k + 1).last() == chars@[i as int]);
        }
        let d: u64 = match digit(chars[i], base) {
            Some(d) => d,
            None => {
                proof {
                    assert(number_of(digits.take(k + 1), b) is None);
                    if number_of(digits, b) is Some {
                        lemma_number_grows(digits, b, k + 1);
                    }
                }
                return None;
            },
        };
        proof {
            assert(0 <= value * base <= 0xffff_ffff_ffff_ffff * 16) by (nonlinear_arith)
                requires
                    value <= 0xffff_ffff_ffff_ffff,
                    base <= 16,
            ;
        }
        let next: u128 = (value as u128) * (base as u128) + (d as u128);
        proof {
            assert(number_of(digits.take(k + 1), b) == Some(value * b + d));
        }
        if next > max as u128 {
            proof {
                if number_of(digits, b) is Some {
                    lemma_number_grows(digits, b, k + 1);
                }
            }
            return None;
        }
        value = next as u64;
        i = i + 1;
    }
    assert(digits.take(i - from) =~= digits);
    Some(value)
}

/// The signed number that `s` writes in decimal.
pub open spec fn signed_of(s: Seq<char>) -> Option<int> {
    if s.len() > 0 && s[0] == '-' {
        if s.len() == 1 {
            None
        } else {
            match number_of(s.skip(1), 10) {
                Some(n) => if n <= 0x8000_0000_0000_0000 {
                    Some(-n)
                } else {
                    None
                },
                None => None,
            }
        }
    } else {
        unsigned_of(s, 10, 0x7fff_ffff_ffff_ffff)
    }
}

/// The signed number that the characters write in decimal.
pub fn parse_signed(chars: &[char]) -> (n: Option<i64>)
    ensures
        match n {
            Some(v) => signed_of(chars@) == Some(v as int),
            None => signed_of(chars@) is None,
        },
{
    if chars.len() > 0 && chars[0] == '-' {
        let rest: Vec<char> = copied_between(chars, 1, chars.len());
        assert(rest@ =~= chars@.skip(1));
        if rest.len() > 0 && rest[0] == '+' {
            proof {
                let r = rest@;
                lemma_sign_is_no_digit(r);
            }
            return None;
        }
        match parse_unsigned(rest.as_slice(), 10, 0x8000_0000_0000_0000) {
            Some(v) => {
                if v == 0x8000_0000_0000_0000 {
                    Some(i64::MIN)
                } else {
                    Some(-(v as i64))
                }
            },
            None => None,
        }
    } else {
        match parse_unsigned(chars, 10, 0x7fff_ffff_ffff_ffff) {
            Some(v) => Some(v as i64),
            None => None,
        }
    }
}

proof fn lemma_sign_is_no_digit(s: Seq<char>)
    requires
        s.len() > 0,
        digit_of(s[0], 10) is None,
    ensures
        number_of(s, 10) is None,
    decreases s.len(),
{
    if s.len() == 1 {
    } else {
        lemma_sign_is_no_digit(s.drop_last());
    }
}

/// The decimal digits of a number.
pub open spec fn decimal(n: nat) -> Seq<char>
    decreases n,
{
    let last = (('0' as int) + n % 10) as char;
    if n < 10 {
        seq![last]
    } else {
        decimal(n / 10).push(last)
    }
}

fn digit_char(d: u64) -> (c: char)
    requires
        d < 10,
    ensures
        c == (('0' as int) + d) as char,
        digit_of(c, 10) == Some(d as int),
{
    match d {
        0 => '0',
        1 => '1',
        2 => '2',
        3 => '3',
        4 => '4',
        5 => '5',
        6 => '6',
        7 => '7',
        8 => '8',
        _ => '9',
    }
}

/// Appends the decimal digits of `n`.
pub fn push_decimal(out: &mut String, n: u64)
    ensures
        final(out)@ == old(out)@ + decimal(n as nat),
    decreases n,
{
    let ghost before = out@;
    if n >= 10 {
        push_decimal(out, n / 10);
    }
    let c: char = digit_char(n % 10);
    out.push(c);
    assert(out@ =~= before + decimal(n as nat));
}

/// A number is read back from its decimal digits.
pub proof fn law_decimal_round_trip(n: nat)
    ensures
        decimal(n).len() > 0,
        number_of(decimal(n), 10) == Some(n as int),
        forall|i: int| 0 <= i < decimal(n).len() ==> '0' <= #[trigger] decimal(n)[i] <= '9',
    decreases n,
{
    reveal_with_fuel(number_of, 2);
    let last = (('0' as int) + n % 10) as char;
    assert(digit_of(last, 10) == Some((n % 10) as int));
    if n < 10 {
        assert(decimal(n).drop_last() =~= Seq::empty());
    } else {
        law_decimal_round_trip(n / 10);
        assert(decimal(n).drop_last() =~= decimal(n / 10));
        assert(n == (n / 10) * 10 + n % 10);
    }
}

/// A text that does not hold `c` puts the first `c` behind it.
pub proof fn lemma_index_of(a: Seq<char>, b: Seq<char>, c: char)
    requires
        forall|i: int| 0 <= i < a.len() ==> #[trigger] a[i] != c,
        b.len() > 0,
        b[0] == c,
    ensures
        index_of(a + b, c) == a.len(),
    decreases a.len(),
{
    if a.len() == 0 {
        assert(a + b =~= b);
    } else {
        assert((a + b)[0] == a[0]);
        assert((a + b).drop_first() =~= a.drop_first() + b);
        assert forall|i: int| 0 <= i < a.drop_first().len() implies #[trigger] a.drop_first()[i]
            != c by {
            assert(a.drop_first()[i] == a[i + 1]);
        }
        lemma_index_of(a.drop_first(), b, c);
    }
}

/// What counts as white space.
pub proof fn law_white_space(c: char)
    ensures
        space(c) <==> ('\u{9}' <= c <= '\u{d}' || c == ' ' || c == '\u{85}' || c == '\u{a0}' || c
            == '\u{1680}' || '\u{2000}' <= c <= '\u{200a}' || c == '\u{2028}' || c == '\u{2029}'
            || c == '\u{202f}' || c == '\u{205f}' || c == '\u{3000}'),
{
}

/// A text without separator is one piece. A separator parts the pieces before it from
/// those behind it.
pub proof fn law_separators_part(a: Seq<char>, c: char, b: Seq<char>, sep: Separator)
    requires
        sep.splits(c),
    ensures
        pieces(a + seq![c] + b, sep) == pieces(a, sep) + pieces(b, sep),
        (forall|i: int| 0 <= i < a.len() ==> !sep.splits(#[trigger] a[i])) ==> pieces(a, sep)
            == seq![a],
    decreases b.len(),
{
    let whole = a + seq![c] + b;
    if b.len() == 0 {
        assert(whole.drop_last() =~= a);
        assert(whole.last() == c);
        assert(pieces(whole, sep) =~= pieces(a, sep) + pieces(b, sep));
    } else {
        let rest = b.drop_last();
        law_separators_part(a, c, rest, sep);
        lemma_pieces_len(rest, sep);
        assert(whole.drop_last() =~= a + seq![c] + rest);
        assert(whole.last() == b.last());
        let before = pieces(a, sep) + pieces(rest, sep);
        assert(before.last() == pieces(rest, sep).last());
        assert(pieces(whole, sep) =~= pieces(a, sep) + pieces(b, sep));
    }
    if forall|i: int| 0 <= i < a.len() ==> !sep.splits(#[trigger] a[i]) {
        lemma_one_piece(a, sep);
    }
}

proof fn lemma_one_piece(a: Seq<char>, sep: Separator)
    requires
        forall|i: int| 0 <= i < a.len() ==> !sep.splits(#[trigger] a[i]),
    ensures
        pieces(a, sep) == seq![a],
    decreases a.len(),
{
    if a.len() > 0 {
        let rest = a.drop_last();
        assert forall|i: int| 0 <= i < rest.len() implies !sep.splits(#[trigger] rest[i]) by {
            assert(rest[i] == a[i]);
        }
        lemma_one_piece(rest, sep);
        assert(!sep.splits(a[a.len() - 1]));
        assert(rest.push(a.last()) =~= a);
        assert(pieces(a, sep) =~= seq![a]);
    } else {
        assert(a =~= Seq::<char>::empty());
    }
}

/// The fields of a text are its pieces between white space: a space parts them, and a
/// text without any is one field, or none if it is empty.
pub proof fn law_spaces_part_fields(a: Seq<char>, c: char, b: Seq<char>)
    requires
        space(c),
    ensures
        fields_of(a + seq![c] + b) == fields_of(a) + fields_of(b),
        (forall|i: int| 0 <= i < a.len() ==> !space(#[trigger] a[i])) ==> fields_of(a) == (
        if a.len() > 0 {
            seq![a]
        } else {
            Seq::empty()
        }),
{
    law_separators_part(a, c, b, Separator::Space);
    Seq::filter_distributes_over_add(
        pieces(a, Separator::Space),
        pieces(b, Separator::Space),
        not_empty(),
    );
    if forall|i: int| 0 <= i < a.len() ==> !space(#[trigger] a[i]) {
        assert forall|i: int| 0 <= i < a.len() implies !Separator::Space.splits(#[trigger] a[i]) by {
            assert(!space(a[i]));
        }
        lemma_one_piece(a, Separator::Space);
        let one = seq![a];
        reveal(Seq::filter);
        reveal_with_fuel(Seq::filter, 2);
        assert(one.drop_last() =~= Seq::empty());
        assert(fields_of(a) =~= if a.len() > 0 {
            seq![a]
        } else {
            Seq::empty()
        });
    }
}

proof fn lemma_start_trimmed(s: Seq<char>) -> (i: int)
    ensures
        0 <= i <= s.len(),
        trimmed_start(s) == s.skip(i),
        forall|k: int| 0 <= k < i ==> space(#[trigger] s[k]),
        i < s.len() ==> !space(s[i]),
    decreases s.len(),
{
    if s.len() > 0 && space(s[0]) {
        let rest = s.drop_first();
        let i = lemma_start_trimmed(rest);
        assert(rest.skip(i) =~= s.skip(i + 1));
        assert forall|k: int| 0 <= k < i + 1 implies space(#[trigger] s[k]) by {
            if k > 0 {
                assert(rest[k - 1] == s[k]);
            }
        }
        if i < rest.len() {
            assert(rest[i] == s[i + 1]);
        }
        i + 1
    } else {
        assert(s.skip(0) =~= s);
        0
    }
}

proof fn lemma_end_trimmed(s: Seq<char>) -> (j: int)
    ensures
        0 <= j <= s.len(),
        trimmed_end(s) == s.take(j),
        forall|k: int| j <= k < s.len() ==> space(#[trigger] s[k]),
        j > 0 ==> !space(s[j - 1]),
    decreases s.len(),
{
    if s.len() > 0 && space(s.last()) {
        let rest = s.drop_last();
        let j = lemma_end_trimmed(rest);
        assert(rest.take(j) =~= s.take(j));
        assert forall|k: int| j <= k < s.len() implies space(#[trigger] s[k]) by {
            if k < rest.len() {
                assert(rest[k] == s[k]);
            }
        }
        if j > 0 {
            assert(rest[j - 1] == s[j - 1]);
        }
        j
    } else {
        assert(s.take(s.len() as int) =~= s);
        s.len() as int
    }
}

/// Trimming takes the white space off both ends and nothing else.
pub proof fn law_trimming_takes_ends_off(s: Seq<char>) -> (ends: (int, int))
    ensures
        0 <= ends.0 <= ends.1 <= s.len(),
        trimmed(s) == s.subrange(ends.0, ends.1),
        forall|k: int|
            0 <= k < ends.0 || ends.1 <= k < s.len() ==> space(#[trigger] s[k]),
        trimmed(s).len() > 0 ==> !space(trimmed(s)[0]) && !space(trimmed(s).last()),
{
    let i = lemma_start_trimmed(s);
    let rest = s.skip(i);
    let j = lemma_end_trimmed(rest);
    assert(rest.take(j) =~= s.subrange(i, i + j));
    assert forall|k: int| 0 <= k < i || i + j <= k < s.len() implies space(#[trigger] s[k]) by {
        if k >= i {
            assert(rest[k - i] == s[k]);
        }
    }
    (i, i + j)
}

/// A line ends at a line feed, and at a carriage return before it.
pub proof fn law_line_feeds_end_lines(a: Seq<char>, b: Seq<char>)
    requires
        forall|i: int| 0 <= i < a.len() ==> #[trigger] a[i] != '\u{a}',
    ensures
        lines_of(a + seq!['\u{a}'] + b) == seq![
            if a.len() > 0 && a.last() == '\u{d}' {
                a.take(a.len() - 1)
            } else {
                a
            },
        ] + lines_of(b),
        lines_of(a) == (if a.len() > 0 {
            seq![a]
        } else {
            Seq::empty()
        }),
{
    let sep = Separator::Char('\u{a}');
    law_separators_part(a, '\u{a}', b, sep);
    assert forall|i: int| 0 <= i < a.len() implies !sep.splits(#[trigger] a[i]) by {}
    lemma_one_piece(a, sep);
    lemma_pieces_len(b, sep);
    let whole = pieces(a + seq!['\u{a}'] + b, sep);
    let tail = pieces(b, sep);
    assert(whole =~= seq![a] + tail);
    assert(whole.last() == tail.last());
    assert(whole.drop_last() =~= seq![a] + tail.drop_last());
    if a.len() > 0 {
        assert(a.drop_last() =~= a.take(a.len() - 1));
    }
    let f = |l: Seq<char>| without_return(l);
    let ended = tail.drop_last().map_values(f);
    assert(whole.drop_last().map_values(f) =~= seq![without_return(a)] + ended);
    assert(lines_of(a + seq!['\u{a}'] + b) =~= seq![without_return(a)] + lines_of(b));
    let one = seq![a];
    assert(one.drop_last().map_values(f) =~= Seq::empty());
    assert(lines_of(a) =~= if a.len() > 0 {
        seq![a]
    } else {
        Seq::empty()
    });
}

/// The index of a character is where it first stands, and the length where it does not.
pub proof fn law_index_is_the_first(s: Seq<char>, c: char)
    ensures
        0 <= index_of(s, c) <= s.len(),
        index_of(s, c) < s.len() ==> s[index_of(s, c)] == c,
        forall|k: int| 0 <= k < index_of(s, c) ==> #[trigger] s[k] != c,
    decreases s.len(),
{
    if s.len() > 0 && s[0] != c {
        let rest = s.drop_first();
        law_index_is_the_first(rest, c);
        assert forall|k: int| 0 <= k < index_of(s, c) implies #[trigger] s[k] != c by {
            if k > 0 {
                assert(rest[k - 1] == s[k]);
            }
        }
    }
}

/// Numbers are read digit by digit. Behind ten the letters from a on count, in either
/// case, as far as the base goes.
pub proof fn law_digits_add_up(s: Seq<char>, c: char, base: int)
    requires
        2 <= base <= 16,
        number_of(s, base) is Some,
    ensures
        '0' <= c <= '9' && c as int - 48 < base ==> number_of(s.push(c), base) == Some(
            number_of(s, base)->0 * base + (c as int - 48),
        ),
        'a' <= c <= 'f' && c as int - 87 < base ==> number_of(s.push(c), base) == Some(
            number_of(s, base)->0 * base + (c as int - 87),
        ),
        'A' <= c <= 'F' && c as int - 55 < base ==> number_of(s.push(c), base) == Some(
            number_of(s, base)->0 * base + (c as int - 55),
        ),
        !('0' <= c <= '9') && !('a' <= c <= 'f') && !('A' <= c <= 'F') ==> number_of(
            s.push(c),
            base,
        ) is None,
        base == 10 && !('0' <= c <= '9') ==> number_of(s.push(c), base) is None,
        number_of(Seq::<char>::empty(), base) == Some(0int),
{
    assert(s.push(c).drop_last() =~= s);
}

/// A number may have a plus sign in front, needs a digit and must not be too large.
pub proof fn law_numbers_have_bounds(s: Seq<char>, base: int, max: int)
    ensures
        s.len() == 0 ==> unsigned_of(s, base, max) is None,
        s.len() > 0 && s[0] != '+' ==> unsigned_of(s, base, max) == (match number_of(s, base) {
            Some(n) => if n <= max {
                Some(n)
            } else {
                None
            },
            None => None,
        }),
        s.len() > 0 && (number_of(s, base) matches Some(n) && s[0] != '+') ==> unsigned_of(
            seq!['+'] + s,
            base,
            max,
        ) == unsigned_of(s, base, max),
        unsigned_of(seq!['+'], base, max) is None,
{
    let plus = seq!['+'] + s;
    assert(plus.skip(1) =~= s);
    assert(seq!['+'].skip(1) =~= Seq::<char>::empty());
}

/// A minus sign turns a number round; numbers of 64 bits are read.
pub proof fn law_minus_turns_round(s: Seq<char>)
    requires
        s.len() > 0,
        number_of(s, 10) is Some,
        s[0] != '+',
        s[0] != '-',
    ensures
        number_of(s, 10)->0 <= 0x8000_0000_0000_0000 ==> signed_of(seq!['-'] + s) == Some(
            -number_of(s, 10)->0,
        ),
        number_of(s, 10)->0 > 0x8000_0000_0000_0000 ==> signed_of(seq!['-'] + s) is None,
        number_of(s, 10)->0 <= 0x7fff_ffff_ffff_ffff ==> signed_of(s) == Some(number_of(s, 10)->0),
        number_of(s, 10)->0 > 0x7fff_ffff_ffff_ffff ==> signed_of(s) is None,
{
    let minus = seq!['-'] + s;
    assert(minus.skip(1) =~= s);
}

} // verus!
