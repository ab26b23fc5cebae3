//! Reading text: classes of characters, scanning for them, words and numbers.

use vstd::prelude::*;

verus! {

/// A group of characters that the readers skip or stop at.
#[derive(Clone, Copy, Debug, PartialEq, Eq, Structural)]
pub enum CharClass {
    /// White space.
    Space,
    /// A digit `0` to `9`, or white space.
    DigitOrSpace,
    /// The colon.
    Colon,
}

/// `c` is white space: one of the characters that Unicode lists as White_Space.
pub open spec fn is_space(c: char) -> bool {
    ||| '\u{9}' <= c <= '\u{D}'
    ||| c == ' '
    ||| c == '\u{85}'
    ||| c == '\u{A0}'
    ||| c == '\u{1680}'
    ||| '\u{2000}' <= c <= '\u{200A}'
    ||| c == '\u{2028}'
    ||| c == '\u{2029}'
    ||| c == '\u{202F}'
    ||| c == '\u{205F}'
    ||| c == '\u{3000}'
}

/// `c` is one of the digits `0` to `9`.
pub open spec fn is_digit(c: char) -> bool {
    '0' <= c <= '9'
}

/// `c` belongs to `class`.
pub open spec fn in_class(c: char, class: CharClass) -> bool {
    match class {
        CharClass::Space => is_space(c),
        CharClass::DigitOrSpace => is_digit(c) || is_space(c),
        CharClass::Colon => c == ':',
    }
}

/// The first place at or after `from` where a character of `s` is in
/// `class` (for `inside`) or not in it (for `!inside`); the length of `s`
/// when there is none.
pub open spec fn scan(s: Seq<char>, class: CharClass, inside: bool, from: int) -> int
    decreases s.len() - from,
{
    if from >= s.len() {
        s.len() as int
    } else if in_class(s[from], class) == inside {
        from
    } else {
        scan(s, class, inside, from + 1)
    }
}

/// Where `s` ends once the characters of `class` are taken off the end of
/// its first `to` characters.
pub open spec fn scan_back(s: Seq<char>, class: CharClass, to: int) -> int
    decreases to,
{
    if to <= 0 {
        0
    } else if !in_class(s[to - 1], class) {
        to
    } else {
        scan_back(s, class, to - 1)
    }
}

/// The characters of `s` from `from` up to `to`; none when `to` is not
/// after `from`.
pub open spec fn between(s: Seq<char>, from: int, to: int) -> Seq<char> {
    if from < to {
        s.subrange(from, to)
    } else {
        Seq::empty()
    }
}

/// The characters of `s` from `from` up to `to`, without the white space
/// at the two ends.
pub open spec fn trimmed_between(s: Seq<char>, from: int, to: int) -> Seq<char> {
    between(s, scan(s, CharClass::Space, false, from), scan_back(s, CharClass::Space, to))
}

/// Where the next word at or after `from` starts and ends: a word is a run
/// of characters that are not white space. Both are the length of `s` when
/// no word is left.
pub open spec fn next_word(s: Seq<char>, from: int) -> (int, int) {
    let start = scan(s, CharClass::Space, false, from);
    (start, scan(s, CharClass::Space, true, start))
}

/// The texts of some lines.
pub open spec fn texts(lines: Seq<String>) -> Seq<Seq<char>> {
    Seq::new(lines.len(), |i: int| lines[i]@)
}

/// The texts of some lines that are held as lists of characters.
pub open spec fn row_texts(rows: Seq<Vec<char>>) -> Seq<Seq<char>> {
    Seq::new(rows.len(), |i: int| rows[i]@)
}

/// `s` without the white space at its two ends.
pub open spec fn trimmed(s: Seq<char>) -> Seq<char> {
    trimmed_between(s, 0, s.len() as int)
}

/// `s` begins with `prefix`.
pub open spec fn has_prefix(s: Seq<char>, prefix: Seq<char>) -> bool {
    &&& prefix.len() <= s.len()
    &&& forall|i: int| 0 <= i < prefix.len() ==> s[i] == prefix[i]
}

/// What the digit `c` counts for.
pub open spec fn digit_value(c: char) -> nat {
    (c as int - '0' as int) as nat
}

/// The number that the digits of `s` write in base ten.
pub open spec fn digits_value(s: Seq<char>) -> nat
    decreases s.len(),
{
    if s.len() == 0 {
        0
    } else {
        digits_value(s.drop_last()) * 10 + digit_value(s.last())
    }
}

/// `s` holds digits only.
pub open spec fn all_digits(s: Seq<char>) -> bool {
    forall|i: int| 0 <= i < s.len() ==> is_digit(#[trigger] s[i])
}

/// The number that `s` writes: a `+` or nothing, then one digit or more.
/// `None` for any other text.
pub open spec fn decimal_value(s: Seq<char>) -> Option<nat> {
    let digits = if s.len() > 0 && s[0] == '+' {
        s.skip(1)
    } else {
        s
    };
    if digits.len() > 0 && all_digits(digits) {
        Some(digits_value(digits))
    } else {
        None
    }
}

/// Tells whether `c` is white space.
pub fn char_is_space(c: char) -> (yes: bool)
    ensures
        yes == is_space(c),
{
    (c >= '\u{9}' && c <= '\u{D}') || c == ' ' || c == '\u{85}' || c == '\u{A0}' || c == '\u{1680}'
        || (c >= '\u{2000}' && c <= '\u{200A}') || c == '\u{2028}' || c == '\u{2029}' || c
        == '\u{202F}' || c == '\u{205F}' || c == '\u{3000}'
}

/// Tells whether `c` belongs to `class`.
pub fn char_in_class(c: char, class: CharClass) -> (yes: bool)
    ensures
        yes == in_class(c, class),
{
    match class {
        CharClass::Space => char_is_space(c),
        CharClass::DigitOrSpace => (c >= '0' && c <= '9') || char_is_space(c),
        CharClass::Colon => c == ':',
    }
}

/// Lists the characters of `s`.
pub fn to_chars(s: &str) -> (chars: Vec<char>)
    ensures
        chars@ == s@,
{
    let mut chars: Vec<char> = Vec::new();
    for c in it: s.chars()
        invariant
            it.seq() == s@,
            chars@ == s@.take(it.index() as int),
    {
        chars.push(c);
    }
    chars
}

/// Finds the first place at or after `from` where a character is in `class`
/// (for `inside`) or not in it (for `!inside`).
pub fn find(text: &Vec<char>, class: CharClass, inside: bool, from: usize) -> (at: usize)
    requires
        from <= text@.len(),
    ensures
        at == scan(text@, class, inside, from as int),
        from <= at <= text@.len(),
        forall|i: int| from <= i < at ==> in_class(text@[i], class) != inside,
        at < text@.len() ==> in_class(text@[at as int], class) == inside,
{
    let mut at: usize = from;
    while at < text.len() && char_in_class(text[at], class) != inside
        invariant
            from <= at <= text@.len(),
            scan(text@, class, inside, from as int) == scan(text@, class, inside, at as int),
            forall|i: int| from <= i < at ==> in_class(text@[i], class) != inside,
        decreases text@.len() - at,
    {
        at += 1;
    }
    at
}

/// Finds where the next word at or after `from` starts and ends.
pub fn word_at(text: &Vec<char>, from: usize) -> (word: (usize, usize))
    requires
        from <= text@.len(),
    ensures
        (word.0 as int, word.1 as int) == next_word(text@, from as int),
        from <= word.0 <= word.1 <= text@.len(),
{
    let start = find(text, CharClass::Space, false, from);
    let end = find(text, CharClass::Space, true, start);
    (start, end)
}

/// Finds where the first `to` characters end once the characters of `class`
/// are taken off their end.
pub fn find_back(text: &Vec<char>, class: CharClass, to: usize) -> (end: usize)
    requires
        to <= text@.len(),
    ensures
        end == scan_back(text@, class, to as int),
        end <= to,
        forall|i: int| end <= i < to ==> in_class(text@[i], class),
        end > 0 ==> !in_class(text@[end - 1], class),
{
    let mut end: usize = to;
    while end > 0 && char_in_class(text[end - 1], class)
        invariant
            end <= to <= text@.len(),
            scan_back(text@, class, to as int) == scan_back(text@, class, end as int),
            forall|i: int| end <= i < to ==> in_class(text@[i], class),
        decreases end,
    {
        end -= 1;
    }
    end
}

/// Tells whether the text from `at` on begins with `prefix`.
pub fn begins_at(text: &Vec<char>, at: usize, prefix: &Vec<char>) -> (yes: bool)
    requires
        at <= text@.len(),
    ensures
        yes == has_prefix(text@.skip(at as int), prefix@),
{
    let length = text.len();
    if prefix.len() > length - at {
        return false;
    }
    let mut i: usize = 0;
    while i < prefix.len()
        invariant
            length == text@.len(),
            at <= length,
            prefix@.len() <= length - at,
            i <= prefix@.len(),
            forall|k: int| 0 <= k < i ==> text@.skip(at as int)[k] == prefix@[k],
        decreases prefix@.len() - i,
    {
        if text[at + i] != prefix[i] {
            assert(text@.skip(at as int)[i as int] != prefix@[i as int]);
            return false;
        }
        i += 1;
    }
    true
}

/// A number grows, or stays, when a digit is written after it.
pub proof fn lemma_digits_grow(s: Seq<char>, k: int)
    requires
        0 <= k <= s.len(),
    ensures
        digits_value(s.take(k)) <= digits_value(s),
    decreases s.len() - k,
{
    if k < s.len() {
        lemma_digits_grow(s, k + 1);
        assert(s.take(k + 1).drop_last() =~= s.take(k));
    } else {
        assert(s.take(k) =~= s);
    }
}

/// Reads the number written between `start` and `end`: a `+` or nothing,
/// then one digit or more. `None` when the text is anything else, or the
/// number is too large for `usize`.
pub fn parse_number(text: &Vec<char>, start: usize, end: usize) -> (number: Option<usize>)
    requires
        start <= end <= text@.len(),
    ensures
        number == match decimal_value(text@.subrange(start as int, end as int)) {
            Some(v) => if v <= usize::MAX {
                Some(v as usize)
            } else {
                None
            },
            None => None,
        },
{
    let ghost s = text@.subrange(start as int, end as int);
    let first: usize = if start < end && text[start] == '+' {
        start + 1
    } else {
        start
    };
    let ghost digits = text@.subrange(first as int, end as int);
    proof {
        if start < end && text@[start as int] == '+' {
            assert(s[0] == '+');
            assert(s.skip(1) =~= digits);
        } else {
            if s.len() > 0 {
                assert(s[0] == text@[start as int]);
            }
            assert(s =~= digits);
        }
    }
    if first == end {
        return None;
    }
    let mut value: usize = 0;
    let mut i: usize = first;
    while i < end
        invariant
            first <= i <= end <= text@.len(),
            first < end,
            start <= first,
            s == text@.subrange(start as int, end as int),
            digits == text@.subrange(first as int, end as int),
            decimal_value(s) == (if all_digits(digits) {
                Some(digits_value(digits))
            } else {
                None
            }),
            all_digits(digits.take(i - first)),
            value == digits_value(digits.take(i - first)),
        decreases end - i,
    {
        let c = text[i];
        assert(digits[i - first] == c);
        if !(c >= '0' && c <= '9') {
            assert(!is_digit(digits[i - first]));
            return None;
        }
        let d: usize = digit_of(c);
        let ghost next = digits.take(i - first + 1);
        proof {
            assert(next.drop_last() =~= digits.take(i - first));
            assert(next.last() == c);
            assert forall|k: int| 0 <= k < next.len() implies is_digit(#[trigger] next[k]) by {
                if k < i - first {
                    assert(digits.take(i - first)[k] == next[k]);
                }
            }
            lemma_digits_grow(digits, i - first + 1);
            assert(digits_value(next) == value * 10 + d);
        }
        let scaled = match value.checked_mul(10) {
            Some(v) => v,
            None => {
                proof {
                    if all_digits(digits) {
                        assert(digits_value(digits) > usize::MAX);
                    }
                }
                return None;
            },
        };
        value = match scaled.checked_add(d) {
            Some(v) => v,
            None => {
                proof {
                    if all_digits(digits) {
                        assert(digits_value(digits) > usize::MAX);
                    }
                }
                return None;
            },
        };
        i += 1;
    }
    proof {
        assert(digits.take(end - first) =~= digits);
    }
    Some(value)
}

/// What the digit `c` counts for.
pub fn digit_of(c: char) -> (d: usize)
    requires
        is_digit(c),
    ensures
        d == digit_value(c),
        d <= 9,
{
    match c {
        '0' => 0,
        '1' => 1,
        '2' => 2,
        '3' => 3,
        '4' => 4,
        '5' => 5,
        '6' => 6,
        '7' => 7,
        '8' => 8,
        _ => 9,
    }
}

} // verus!
