//! The characters of the textual protocol: whitespace, tokens, lines and
//! unsigned decimal numbers.

use vstd::prelude::*;
use vstd::string::StringExecFns;

verus! {

/// The characters that separate tokens: those with the Unicode property
/// `White_Space`.
pub open spec fn is_space(c: char) -> bool {
    c == ' ' || ('\u{9}' <= c && c <= '\u{d}') || c == '\u{85}' || c == '\u{a0}' || c == '\u{1680}'
        || ('\u{2000}' <= c && c <= '\u{200a}') || c == '\u{2028}' || c == '\u{2029}' || c
        == '\u{202f}' || c == '\u{205f}' || c == '\u{3000}'
}

/// The ten decimal digits.
pub open spec fn is_digit(c: char) -> bool {
    '0' <= c && c <= '9'
}

/// The number that a digit stands for; 0 for any other character.
pub open spec fn digit_value(c: char) -> nat {
    if is_digit(c) {
        (c as int - '0' as int) as nat
    } else {
        0
    }
}

/// The digit that stands for a number below ten.
pub open spec fn digit_char(d: nat) -> char
    recommends
        d < 10,
{
    (d + 48) as char
}

/// The length of the longest prefix of `s` that holds no whitespace.
pub open spec fn word_len(s: Seq<char>) -> int
    decreases s.len(),
{
    if s.len() == 0 || is_space(s[0]) {
        0
    } else {
        1 + word_len(s.skip(1))
    }
}

/// The tokens of `s`: its longest runs of characters that are not
/// whitespace, from left to right.
pub open spec fn tokens(s: Seq<char>) -> Seq<Seq<char>>
    decreases s.len(),
{
    if s.len() == 0 {
        Seq::empty()
    } else if is_space(s[0]) {
        tokens(s.skip(1))
    } else {
        proof {
            lemma_word_len(s);
        }
        seq![s.take(word_len(s))] + tokens(s.skip(word_len(s)))
    }
}

/// The number that a string of digits denotes in base ten, the empty
/// string denoting 0.
pub open spec fn digits_value(s: Seq<char>) -> nat
    decreases s.len(),
{
    if s.len() == 0 {
        0
    } else {
        digits_value(s.drop_last()) * 10 + digit_value(s.last())
    }
}

/// The digits of a number token: the token without one leading `+`.
pub open spec fn digits_of(token: Seq<char>) -> Seq<char> {
    if token.len() > 0 && token[0] == '+' {
        token.skip(1)
    } else {
        token
    }
}

/// The number that a token denotes: an optional `+` and then one digit or
/// more, and nothing else, denote a number; any other token denotes none.
pub open spec fn parse_number(token: Seq<char>) -> Option<nat> {
    let digits = digits_of(token);
    if digits.len() > 0 && (forall|i: int|
        0 <= i < digits.len() ==> is_digit(#[trigger] digits[i])) {
        Some(digits_value(digits))
    } else {
        None
    }
}

/// The number that a token denotes where it is at most `max`.
pub open spec fn parse_at_most(token: Seq<char>, max: nat) -> Option<nat> {
    match parse_number(token) {
        Some(v) if v <= max => Some(v),
        _ => None,
    }
}

/// A number in base ten, without sign or leading zeros.
pub open spec fn decimal(v: nat) -> Seq<char>
    decreases v,
{
    if v < 10 {
        seq![digit_char(v)]
    } else {
        decimal(v / 10).push(digit_char(v % 10))
    }
}

/// Where the first line of `s` ends: just behind its first line feed, or
/// at its end where it holds none.
pub open spec fn line_end(s: Seq<char>) -> int
    decreases s.len(),
{
    if s.len() == 0 {
        0
    } else if s[0] == '\n' {
        1
    } else {
        1 + line_end(s.skip(1))
    }
}

/// The first line of `s`, with its line feed where it has one.
pub open spec fn first_line(s: Seq<char>) -> Seq<char> {
    s.take(line_end(s))
}

/// What follows the first line of `s`.
pub open spec fn after_first_line(s: Seq<char>) -> Seq<char> {
    s.skip(line_end(s))
}

/// What follows the first `k` lines of `s`.
pub open spec fn after_lines(s: Seq<char>, k: nat) -> Seq<char>
    decreases k,
{
    if k == 0 {
        s
    } else {
        after_first_line(after_lines(s, (k - 1) as nat))
    }
}

/// The line of `s` with the number `k`, counted from 0; the empty string
/// where `s` has fewer lines.
pub open spec fn nth_line(s: Seq<char>, k: nat) -> Seq<char> {
    first_line(after_lines(s, k))
}

/// A word lies inside its string, holds no whitespace, and ends at
/// whitespace or at the end of the string.
pub proof fn lemma_word_len(s: Seq<char>)
    ensures
        0 <= word_len(s) <= s.len(),
        s.len() > 0 && !is_space(s[0]) ==> word_len(s) >= 1,
        forall|i: int| 0 <= i < word_len(s) ==> !is_space(#[trigger] s[i]),
        word_len(s) < s.len() ==> is_space(s[word_len(s)]),
    decreases s.len(),
{
    if s.len() > 0 && !is_space(s[0]) {
        let rest = s.skip(1);
        lemma_word_len(rest);
        assert forall|i: int| 0 <= i < word_len(s) implies !is_space(#[trigger] s[i]) by {
            if i > 0 {
                assert(rest[i - 1] == s[i]);
            }
        }
    }
}

/// A line lies inside its string, and only its last character can be a
/// line feed.
pub proof fn lemma_line_end(s: Seq<char>)
    ensures
        0 <= line_end(s) <= s.len(),
        s.len() > 0 ==> line_end(s) >= 1,
        forall|i: int| 0 <= i < line_end(s) - 1 ==> #[trigger] s[i] != '\n',
        line_end(s) < s.len() ==> s[line_end(s) - 1] == '\n',
    decreases s.len(),
{
    if s.len() > 0 && s[0] != '\n' {
        let rest = s.skip(1);
        lemma_line_end(rest);
        assert forall|i: int| 0 <= i < line_end(s) - 1 implies #[trigger] s[i] != '\n' by {
            if i > 0 {
                assert(rest[i - 1] == s[i]);
            }
        }
    }
}

/// A string holds at most as many tokens as characters.
pub proof fn lemma_tokens_len(s: Seq<char>)
    ensures
        tokens(s).len() <= s.len(),
    decreases s.len(),
{
    if s.len() > 0 {
        if is_space(s[0]) {
            lemma_tokens_len(s.skip(1));
        } else {
            lemma_word_len(s);
            lemma_tokens_len(s.skip(word_len(s)));
        }
    }
}

/// What follows some lines of a string is no longer than the string, and
/// neither is any line of it.
pub proof fn lemma_lines_len(s: Seq<char>, k: nat)
    ensures
        after_lines(s, k).len() <= s.len(),
        nth_line(s, k).len() <= s.len(),
    decreases k,
{
    lemma_line_end(after_lines(s, k));
    if k > 0 {
        lemma_lines_len(s, (k - 1) as nat);
        lemma_line_end(after_lines(s, (k - 1) as nat));
    }
}

/// Reading more digits never makes the number smaller.
pub proof fn lemma_digits_value_grows(s: Seq<char>, k: int)
    requires
        0 <= k <= s.len(),
    ensures
        digits_value(s.take(k)) <= digits_value(s),
    decreases s.len() - k,
{
    if k < s.len() {
        lemma_digits_value_grows(s, k + 1);
        assert(s.take(k + 1).drop_last() =~= s.take(k));
    } else {
        assert(s.take(k) =~= s);
    }
}

/// The decimal form of a number is made of digits and denotes the number.
pub proof fn lemma_decimal_digits(v: nat)
    ensures
        decimal(v).len() >= 1,
        forall|i: int| 0 <= i < decimal(v).len() ==> is_digit(#[trigger] decimal(v)[i]),
        digits_value(decimal(v)) == v,
    decreases v,
{
    if v < 10 {
        let s = decimal(v);
        assert(digits_value(s.drop_last()) == 0);
    } else {
        lemma_decimal_digits(v / 10);
        let head = decimal(v / 10);
        let s = decimal(v);
        assert(s.drop_last() =~= head);
    }
}

/// Writing a number and reading it back gives the number.
pub proof fn lemma_decimal_round_trip(v: nat)
    ensures
        parse_number(decimal(v)) == Some(v),
{
    lemma_decimal_digits(v);
}

/// Whether `c` separates tokens.
pub fn is_whitespace(c: char) -> (b: bool)
    ensures
        b == is_space(c),
{
    c == ' ' || ('\u{9}' <= c && c <= '\u{d}') || c == '\u{85}' || c == '\u{a0}' || c == '\u{1680}'
        || ('\u{2000}' <= c && c <= '\u{200a}') || c == '\u{2028}' || c == '\u{2029}' || c
        == '\u{202f}' || c == '\u{205f}' || c == '\u{3000}'
}

/// The characters of `s`, one by one.
pub fn to_chars(s: &str) -> (chars: Vec<char>)
    ensures
        chars@ == s@,
{
    let mut chars: Vec<char> = Vec::new();
    for c in it: s.chars()
        invariant
            chars@ == it.seq().take(it.index() as int),
            it.seq() == s@,
    {
        chars.push(c);
    }
    chars
}

/// Where the line that starts at `from` ends.
pub fn line_end_from(chars: &Vec<char>, from: usize) -> (end: usize)
    requires
        from <= chars.len(),
    ensures
        from <= end <= chars.len(),
        end == from + line_end(chars@.skip(from as int)),
{
    let mut end = from;
    while end < chars.len()
        invariant
            from <= end <= chars.len(),
            from + line_end(chars@.skip(from as int)) == end + line_end(chars@.skip(end as int)),
        decreases chars.len() - end,
    {
        let ghost rest = chars@.skip(end as int);
        assert(rest.skip(1) =~= chars@.skip(end + 1));
        if chars[end] == '\n' {
            return end + 1;
        }
        end += 1;
    }
    end
}

/// Where the word that starts at `from` ends, inside the text up to `to`.
pub fn word_end_from(chars: &Vec<char>, from: usize, to: usize) -> (end: usize)
    requires
        from <= to <= chars.len(),
    ensures
        from <= end <= to,
        end == from + word_len(chars@.subrange(from as int, to as int)),
{
    let mut end = from;
    while end < to
        invariant
            from <= end <= to <= chars.len(),
            from + word_len(chars@.subrange(from as int, to as int)) == end + word_len(
                chars@.subrange(end as int, to as int),
            ),
        decreases to - end,
    {
        let ghost rest = chars@.subrange(end as int, to as int);
        assert(rest.skip(1) =~= chars@.subrange(end + 1, to as int));
        if is_whitespace(chars[end]) {
            return end;
        }
        end += 1;
    }
    end
}

/// Reads the token `chars[from..to]` as a number that is at most `max`.
pub fn parse_unsigned(chars: &Vec<char>, from: usize, to: usize, max: u64) -> (value: Option<u64>)
    requires
        from <= to <= chars.len(),
    ensures
        match value {
            Some(v) => parse_at_most(chars@.subrange(from as int, to as int), max as nat) == Some(
                v as nat,
            ),
            None => parse_at_most(chars@.subrange(from as int, to as int), max as nat) is None,
        },
{
    let ghost token = chars@.subrange(from as int, to as int);
    let mut at = from;
    if at < to && chars[at] == '+' {
        at += 1;
    }
    let ghost digits = chars@.subrange(at as int, to as int);
    if at == to {
        return None;
    }
    let start = at;
    let mut acc: u64 = 0;
    while at < to
        invariant
            from <= start <= at <= to <= chars.len(),
            token == chars@.subrange(from as int, to as int),
            digits == chars@.subrange(start as int, to as int),
            digits == digits_of(token),
            forall|i: int| 0 <= i < at - start ==> is_digit(#[trigger] digits[i]),
            acc as nat == digits_value(digits.take(at - start)),
            acc <= max,
        decreases to - at,
    {
        let c = chars[at];
        assert(digits[at - start] == c);
        if !('0' <= c && c <= '9') {
            return None;
        }
        let d = (c as u32 - '0' as u32) as u64;
        proof {
            assert(digits.take(at - start + 1).drop_last() =~= digits.take(at - start));
            lemma_digits_value_grows(digits, at - start + 1);
        }
        let next = match acc.checked_mul(10) {
            Some(tens) => tens.checked_add(d),
            None => None,
        };
        match next {
            Some(v) => {
                if v > max {
                    return None;
                }
                acc = v;
            },
            None => {
                return None;
            },
        }
        at += 1;
    }
    assert(digits.take(at - start) =~= digits);
    Some(acc)
}

/// The digit for a number below ten, as a string.
fn digit_str(d: u64) -> (s: &'static str)
    requires
        d < 10,
    ensures
        s@ == seq![digit_char(d as nat)],
{
    proof {
        reveal_strlit("0");
        reveal_strlit("1");
        reveal_strlit("2");
        reveal_strlit("3");
        reveal_strlit("4");
        reveal_strlit("5");
        reveal_strlit("6");
        reveal_strlit("7");
        reveal_strlit("8");
        reveal_strlit("9");
    }
    let s = match d {
        0 => "0",
        1 => "1",
        2 => "2",
        3 => "3",
        4 => "4",
        5 => "5",
        6 => "6",
        7 => "7",
        8 => "8",
        _ => "9",
    };
    s
}

/// Appends `v` in base ten to `out`.
pub fn push_decimal(out: &mut String, v: u64)
    ensures
        final(out)@ == old(out)@ + decimal(v as nat),
    decreases v,
{
    if v >= 10 {
        push_decimal(out, v / 10);
    }
    out.append(digit_str(v % 10));
}

} // verus!
