//! The few operations on text that reading a session description takes.
use vstd::prelude::*;

verus! {

/// The index of the first `c` in `s`, or `s.len()` where `c` does not occur.
pub open spec fn position(s: Seq<char>, c: char) -> int
    decreases s.len(),
{
    if s.len() == 0 || s[0] == c {
        0
    } else {
        1 + position(s.drop_first(), c)
    }
}

/// The parts of `s` before and after its first `c`; `None` where `c` does not occur.
pub open spec fn cut(s: Seq<char>, c: char) -> Option<(Seq<char>, Seq<char>)> {
    let i = position(s, c);
    if i < s.len() {
        Some((s.take(i), s.skip(i + 1)))
    } else {
        None
    }
}

/// `needle` occurs in `s` as an unbroken run of characters.
pub open spec fn has_substring(s: Seq<char>, needle: Seq<char>) -> bool {
    exists|i: int| 0 <= i && i + needle.len() <= s.len() && #[trigger] occurs_at(s, needle, i)
}

/// `needle` stands in `s` from index `i` on.
pub open spec fn occurs_at(s: Seq<char>, needle: Seq<char>, i: int) -> bool {
    s.subrange(i, i + needle.len()) == needle
}

/// `c` with the letters `A` to `Z` in lower case and every other character kept.
pub open spec fn ascii_lower(c: char) -> int {
    if 'A' <= c <= 'Z' {
        c as int + 32
    } else {
        c as int
    }
}

/// `a` and `b` are the same text but for the case of ASCII letters.
pub open spec fn same_but_ascii_case(a: Seq<char>, b: Seq<char>) -> bool {
    &&& a.len() == b.len()
    &&& forall|i: int| 0 <= i < a.len() ==> #[trigger] ascii_lower(a[i]) == ascii_lower(b[i])
}

/// `c` is one of the digits `0` to `9`.
pub open spec fn is_digit(c: char) -> bool {
    '0' <= c <= '9'
}

/// `s` holds digits and nothing else.
pub open spec fn all_digits(s: Seq<char>) -> bool {
    forall|i: int| 0 <= i < s.len() ==> #[trigger] is_digit(s[i])
}

/// The number that a row of decimal digits denotes.
pub open spec fn decimal(s: Seq<char>) -> int
    decreases s.len(),
{
    if s.len() == 0 {
        0
    } else {
        decimal(s.drop_last()) * 10 + (s.last() as int - '0' as int)
    }
}

/// An unsigned integer of at most `max` in decimal: one or more digits, which a single `+`
/// may precede, and nothing else.
pub open spec fn unsigned(s: Seq<char>, max: int) -> Option<int> {
    let digits = if s.len() > 0 && s[0] == '+' {
        s.skip(1)
    } else {
        s
    };
    if digits.len() > 0 && all_digits(digits) && decimal(digits) <= max {
        Some(decimal(digits))
    } else {
        None
    }
}

/// The first `c` of `s` stands within `s`, or there is none and its index is the length.
pub proof fn lemma_position_bounds(s: Seq<char>, c: char)
    ensures
        0 <= position(s, c) <= s.len(),
    decreases s.len(),
{
    if s.len() > 0 && s[0] != c {
        lemma_position_bounds(s.drop_first(), c);
    }
}

/// An index with no `c` before it, and a `c` or the end at it, is that of the first `c`.
proof fn lemma_position(s: Seq<char>, c: char, i: int)
    requires
        0 <= i <= s.len(),
        forall|j: int| 0 <= j < i ==> s[j] != c,
        i < s.len() ==> s[i] == c,
    ensures
        position(s, c) == i,
    decreases s.len(),
{
    if i > 0 {
        assert forall|j: int| 0 <= j < i - 1 implies s.drop_first()[j] != c by {
            assert(s.drop_first()[j] == s[j + 1]);
        }
        lemma_position(s.drop_first(), c, i - 1);
    }
}

/// A number that was read lies between zero and its bound.
pub proof fn lemma_unsigned_bounds(s: Seq<char>, max: int)
    ensures
        unsigned(s, max) matches Some(v) ==> 0 <= v <= max,
{
    if unsigned(s, max) is Some {
        let digits = if s.len() > 0 && s[0] == '+' {
            s.skip(1)
        } else {
            s
        };
        lemma_decimal_grows(digits, digits.len() as int);
        assert(digits.take(digits.len() as int) =~= digits);
    }
}

/// More digits denote a number that is no smaller.
proof fn lemma_decimal_grows(s: Seq<char>, i: int)
    requires
        all_digits(s),
        0 <= i <= s.len(),
    ensures
        0 <= decimal(s.take(i)) <= decimal(s),
    decreases s.len(),
{
    if s.len() == 0 {
        assert(s.take(i) =~= s);
    } else {
        assert(all_digits(s.drop_last())) by {
            assert forall|j: int| 0 <= j < s.drop_last().len() implies #[trigger] is_digit(
                s.drop_last()[j],
            ) by {
                assert(is_digit(s[j]));
            }
        }
        assert(is_digit(s[s.len() - 1]));
        if i == s.len() {
            lemma_decimal_grows(s.drop_last(), i - 1);
            assert(s.take(i) =~= s);
            assert(s.drop_last().take(i - 1) =~= s.drop_last());
        } else {
            lemma_decimal_grows(s.drop_last(), i);
            assert(s.drop_last().take(i) =~= s.take(i));
        }
    }
}

/// The characters of `s` in order.
fn chars_of(s: &str) -> (chars: Vec<char>)
    ensures
        chars@ == s@,
{
    let mut chars: Vec<char> = Vec::new();
    for c in it: s.chars()
        invariant
            it.seq() == s@,
            chars@ == s@.take(it.index() as int),
    {
        chars.push(c);
    }
    assert(s@.take(s@.len() as int) == s@);
    chars
}

/// Splits `s` at the first `c`.
pub fn split_once(s: &str, c: char) -> (parts: Option<(&str, &str)>)
    ensures
        match parts {
            Some((before, after)) => cut(s@, c) == Some((before@, after@)),
            None => cut(s@, c) is None,
        },
{
    let chars = chars_of(s);
    let mut i: usize = 0;
    while i < chars.len()
        invariant
            i <= chars.len(),
            chars@ == s@,
            forall|j: int| 0 <= j < i ==> s@[j] != c,
        decreases chars.len() - i,
    {
        if chars[i] == c {
            proof {
                lemma_position(s@, c, i as int);
                assert(s@.take(i as int) == s@.subrange(0, i as int));
                assert(s@.skip(i + 1) == s@.subrange(i + 1, s@.len() as int));
            }
            return Some((s.substring_char(0, i), s.substring_char(i + 1, chars.len())));
        }
        i = i + 1;
    }
    proof {
        lemma_position(s@, c, i as int);
    }
    None
}

/// `needle` stands in `chars` from index `from` on.
fn stands_at(chars: &Vec<char>, needle: &Vec<char>, from: usize) -> (found: bool)
    requires
        from + needle.len() <= chars.len(),
    ensures
        found == occurs_at(chars@, needle@, from as int),
{
    let ghost run = chars@.subrange(from as int, from + needle.len());
    let mut i: usize = 0;
    while i < needle.len()
        invariant
            i <= needle.len(),
            from + needle.len() <= chars.len(),
            run == chars@.subrange(from as int, from + needle.len()),
            forall|j: int| 0 <= j < i ==> run[j] == needle@[j],
        decreases needle.len() - i,
    {
        if chars[from + i] != needle[i] {
            assert(run[i as int] != needle@[i as int]);
            return false;
        }
        assert(run[i as int] == needle@[i as int]);
        i = i + 1;
    }
    assert(run =~= needle@);
    true
}

/// Tells whether `a` and `b` are the same text.
pub fn same_text(a: &str, b: &str) -> (same: bool)
    ensures
        same == (a@ == b@),
{
    let left = chars_of(a);
    let right = chars_of(b);
    if left.len() != right.len() {
        return false;
    }
    let same = stands_at(&left, &right, 0);
    assert(left@.subrange(0, right@.len() as int) =~= left@);
    same
}

/// Tells whether `s` begins with `prefix`.
pub fn starts_with(s: &str, prefix: &str) -> (found: bool)
    ensures
        found == prefix@.is_prefix_of(s@),
{
    let chars = chars_of(s);
    let start = chars_of(prefix);
    if start.len() > chars.len() {
        return false;
    }
    stands_at(&chars, &start, 0)
}

/// Tells whether `needle` occurs in `s`.
pub fn contains(s: &str, needle: &str) -> (found: bool)
    ensures
        found == has_substring(s@, needle@),
{
    let chars = chars_of(s);
    let run = chars_of(needle);
    if run.len() > chars.len() {
        return false;
    }
    let last: usize = chars.len() - run.len();
    let mut i: usize = 0;
    while i <= last
        invariant
            chars@ == s@,
            run@ == needle@,
            last == chars.len() - run.len(),
            i <= last + 1,
            forall|j: int| 0 <= j < i ==> !#[trigger] occurs_at(s@, needle@, j),
        decreases last + 1 - i,
    {
        if stands_at(&chars, &run, i) {
            return true;
        }
        if i == last {
            return false;
        }
        i = i + 1;
    }
    false
}

/// Tells whether `a` and `b` are the same text but for the case of ASCII letters.
pub fn eq_ignore_ascii_case(a: &str, b: &str) -> (equal: bool)
    ensures
        equal == same_but_ascii_case(a@, b@),
{
    let left = chars_of(a);
    let right = chars_of(b);
    if left.len() != right.len() {
        return false;
    }
    let mut i: usize = 0;
    while i < left.len()
        invariant
            left@ == a@,
            right@ == b@,
            left.len() == right.len(),
            i <= left.len(),
            forall|j: int| 0 <= j < i ==> #[trigger] ascii_lower(a@[j]) == ascii_lower(b@[j]),
        decreases left.len() - i,
    {
        if lower(left[i]) != lower(right[i]) {
            assert(ascii_lower(a@[i as int]) != ascii_lower(b@[i as int]));
            return false;
        }
        i = i + 1;
    }
    true
}

/// The code point of `c`, with the letters `A` to `Z` in lower case.
fn lower(c: char) -> (code: u32)
    ensures
        code == ascii_lower(c),
{
    if 'A' <= c && c <= 'Z' {
        c as u32 + 32
    } else {
        c as u32
    }
}

/// Reads an unsigned decimal integer of at most `max`.
fn parse_unsigned(s: &str, max: u32) -> (value: Option<u32>)
    ensures
        match value {
            Some(v) => unsigned(s@, max as int) == Some(v as int),
            None => unsigned(s@, max as int) is None,
        },
{
    let chars = chars_of(s);
    let start: usize = if chars.len() > 0 && chars[0] == '+' {
        1
    } else {
        0
    };
    let ghost digits = if s@.len() > 0 && s@[0] == '+' {
        s@.skip(1)
    } else {
        s@
    };
    assert(digits =~= s@.skip(start as int));
    if start == chars.len() {
        return None;
    }
    let mut value: u64 = 0;
    let mut i: usize = start;
    assert(digits.take(0) =~= Seq::<char>::empty());
    while i < chars.len()
        invariant
            chars@ == s@,
            start <= i <= chars.len(),
            digits == s@.skip(start as int),
            digits == (if s@.len() > 0 && s@[0] == '+' {
                s@.skip(1)
            } else {
                s@
            }),
            value == decimal(digits.take(i - start)),
            value <= max,
            forall|j: int| 0 <= j < i - start ==> #[trigger] is_digit(digits[j]),
        decreases chars.len() - i,
    {
        let c = chars[i];
        assert(digits[i - start] == c);
        if c < '0' || c > '9' {
            assert(!is_digit(digits[i - start]));
            return None;
        }
        let ghost longer = digits.take(i + 1 - start);
        assert(longer.drop_last() =~= digits.take(i - start));
        value = value * 10 + (c as u32 - '0' as u32) as u64;
        if value > max as u64 {
            proof {
                if all_digits(digits) {
                    lemma_decimal_grows(digits, i + 1 - start);
                }
            }
            return None;
        }
        i = i + 1;
    }
    assert(digits.take(i - start) =~= digits);
    Some(value as u32)
}

/// Reads an unsigned decimal integer that fits in eight bits.
pub fn parse_u8(s: &str) -> (value: Option<u8>)
    ensures
        match value {
            Some(v) => unsigned(s@, u8::MAX as int) == Some(v as int),
            None => unsigned(s@, u8::MAX as int) is None,
        },
{
    match parse_unsigned(s, 255) {
        Some(v) => Some(v as u8),
        None => None,
    }
}

/// Reads an unsigned decimal integer that fits in thirty-two bits.
pub fn parse_u32(s: &str) -> (value: Option<u32>)
    ensures
        match value {
            Some(v) => unsigned(s@, u32::MAX as int) == Some(v as int),
            None => unsigned(s@, u32::MAX as int) is None,
        },
{
    parse_unsigned(s, u32::MAX)
}

/// The index of the first `c`: no `c` stands before it, and one stands at it where it lies within
/// the text.
proof fn lemma_position_is_first(s: Seq<char>, c: char)
    ensures
        0 <= position(s, c) <= s.len(),
        forall|j: int| 0 <= j < position(s, c) ==> s[j] != c,
        position(s, c) < s.len() ==> s[position(s, c)] == c,
    decreases s.len(),
{
    if s.len() > 0 && s[0] != c {
        let rest = s.drop_first();
        lemma_position_is_first(rest, c);
        assert forall|j: int| 0 <= j < position(s, c) implies s[j] != c by {
            if j > 0 {
                assert(s[j] == rest[j - 1]);
            }
        }
    }
}

/// What a cut yields gives the text back, and the part before the cut lacks the character that
/// the text was cut at. A text without that character is not cut.
pub proof fn law_cut_gives_the_text_back(s: Seq<char>, c: char)
    ensures
        match cut(s, c) {
            Some((before, after)) => s == before + seq![c] + after && !before.contains(c),
            None => !s.contains(c),
        },
{
    lemma_position_is_first(s, c);
    let i = position(s, c);
    if i < s.len() {
        assert(s =~= s.take(i) + seq![c] + s.skip(i + 1));
    }
}

/// A text put together around a character is cut there, where the part before lacks it.
pub proof fn law_cut_finds_the_first(before: Seq<char>, c: char, after: Seq<char>)
    requires
        !before.contains(c),
    ensures
        cut(before + seq![c] + after, c) == Some((before, after)),
{
    let s = before + seq![c] + after;
    assert forall|j: int| 0 <= j < before.len() implies s[j] != c by {
        assert(s[j] == before[j]);
        assert(before.contains(before[j]));
    }
    lemma_position(s, c, before.len() as int);
    assert(s.take(before.len() as int) =~= before);
    assert(s.skip(before.len() as int + 1) =~= after);
}

/// The text of a number holds no character but digits and `+`.
pub proof fn law_number_lacks(s: Seq<char>, max: int, c: char)
    requires
        unsigned(s, max) is Some,
        !is_digit(c),
        c != '+',
    ensures
        !s.contains(c),
{
    if s.contains(c) {
        let i = choose|i: int| 0 <= i < s.len() && s[i] == c;
        if s[0] == '+' {
            assert(is_digit(s.skip(1)[i - 1]));
        } else {
            assert(is_digit(s[i]));
        }
    }
}

/// A text occurs in another exactly where that one is something, the text and something more.
pub proof fn law_substring_is_a_part(s: Seq<char>, needle: Seq<char>)
    ensures
        has_substring(s, needle) <==> exists|before: Seq<char>, after: Seq<char>|
            s == #[trigger] (before + needle + after),
{
    if has_substring(s, needle) {
        let i = choose|i: int|
            0 <= i && i + needle.len() <= s.len() && #[trigger] occurs_at(s, needle, i);
        assert(s =~= s.take(i) + s.subrange(i, i + needle.len()) + s.skip(i + needle.len()));
    }
    if exists|before: Seq<char>, after: Seq<char>| s == #[trigger] (before + needle + after) {
        let (before, after) = choose|before: Seq<char>, after: Seq<char>|
            s == #[trigger] (before + needle + after);
        let i = before.len() as int;
        assert(s.subrange(i, i + needle.len()) =~= needle);
        assert(occurs_at(s, needle, i));
    }
}

/// Two texts are the same but for case exactly where, character by character, they agree or hold
/// the two cases of one of the letters `A` to `Z`.
pub proof fn law_case_differs_in_letters_only(a: Seq<char>, b: Seq<char>)
    ensures
        same_but_ascii_case(a, b) <==> a.len() == b.len() && forall|i: int|
            0 <= i < a.len() ==> {
                ||| #[trigger] a[i] == b[i]
                ||| 'A' <= a[i] <= 'Z' && b[i] as int == a[i] as int + 32
                ||| 'A' <= b[i] <= 'Z' && a[i] as int == b[i] as int + 32
            },
{
    if same_but_ascii_case(a, b) {
        assert forall|i: int| 0 <= i < a.len() implies {
            ||| #[trigger] a[i] == b[i]
            ||| 'A' <= a[i] <= 'Z' && b[i] as int == a[i] as int + 32
            ||| 'A' <= b[i] <= 'Z' && a[i] as int == b[i] as int + 32
        } by {
            assert(ascii_lower(a[i]) == ascii_lower(b[i]));
        }
    }
}

/// The shortest texts of numbers: a digit, or a `+` and a digit. Neither nothing nor a lone `+` is
/// a number.
pub proof fn law_one_digit_is_a_number(c: char, max: int)
    ensures
        unsigned(Seq::empty(), max) is None,
        unsigned(seq!['+'], max) is None,
        unsigned(seq![c], max) == (if '0' <= c <= '9' && c as int - '0' as int <= max {
            Some(c as int - '0' as int)
        } else {
            None
        }),
        unsigned(seq!['+', c], max) == unsigned(seq![c], max) || c == '+',
        unsigned(seq!['+', '+'], max) is None,
{
    assert(seq!['+'].skip(1) =~= Seq::<char>::empty());
    assert(seq!['+', c].skip(1) =~= seq![c]);
    assert(seq!['+', '+'].skip(1) =~= seq!['+']);
    assert(!is_digit(seq!['+'][0]));
    assert(seq![c].drop_last() =~= Seq::<char>::empty());
    assert(decimal(seq![c].drop_last()) == 0);
    assert(decimal(seq![c]) == c as int - '0' as int);
    if is_digit(c) {
        assert(all_digits(seq![c]));
    } else {
        assert(!is_digit(seq![c][0]));
    }
}

/// A digit behind a number makes it ten times as large and adds the digit; what is no number, or
/// would be too large, stays none.
pub proof fn law_digit_multiplies_by_ten(s: Seq<char>, c: char, max: int)
    requires
        s.len() > 0,
        s != seq!['+'],
    ensures
        unsigned(s.push(c), max) == (match unsigned(s, max) {
            Some(v) => if '0' <= c <= '9' && v * 10 + (c as int - '0' as int) <= max {
                Some(v * 10 + (c as int - '0' as int))
            } else {
                None
            },
            None => None,
        }),
{
    let longer = s.push(c);
    let plus = s[0] == '+';
    let digits = if plus {
        s.skip(1)
    } else {
        s
    };
    let more = if plus {
        longer.skip(1)
    } else {
        longer
    };
    assert(more =~= digits.push(c));
    if plus && s.len() == 1 {
        assert(s =~= seq!['+']);
    }
    assert(digits.len() > 0);
    assert(more.drop_last() =~= digits);
    assert(decimal(more) == decimal(digits) * 10 + (c as int - '0' as int));
    if all_digits(more) {
        assert forall|i: int| 0 <= i < digits.len() implies #[trigger] is_digit(digits[i]) by {
            assert(is_digit(more[i]));
        }
        assert(is_digit(more[digits.len() as int]));
        lemma_decimal_grows(digits, 0);
    }
    if all_digits(digits) && is_digit(c) {
        assert forall|i: int| 0 <= i < more.len() implies #[trigger] is_digit(more[i]) by {
            if i < digits.len() {
                assert(is_digit(digits[i]));
            }
        }
    }
}

} // verus!
