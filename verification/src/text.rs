//! Text primitives shared by the rest of the crate.

use vstd::prelude::*;
use vstd::string::*;
use vstd::utf8::*;

verus! {

/// `String::push`: the string grows by exactly the given character.
pub assume_specification[ String::push ](s: &mut String, c: char)
    ensures
        final(s)@ == old(s)@.push(c),
;

/// The decimal digit `d` as a character.
pub open spec fn digit_char(d: nat) -> char {
    ('0' as nat + d) as char
}

/// Whether `c` is one of the ten ASCII decimal digits.
pub open spec fn is_digit(c: char) -> bool {
    '0' <= c <= '9'
}

/// The number that the decimal digit `c` stands for.
pub open spec fn digit_value(c: char) -> nat {
    (c as nat - '0' as nat) as nat
}

/// The decimal notation of `n`, without leading zeros.
pub open spec fn decimal(n: nat) -> Seq<char>
    decreases n,
{
    if n < 10 {
        seq![digit_char(n)]
    } else {
        decimal(n / 10).push(digit_char(n % 10))
    }
}

/// The number that a run of decimal digits stands for.
pub open spec fn decimal_value(s: Seq<char>) -> nat
    decreases s.len(),
{
    if s.len() == 0 {
        0
    } else {
        decimal_value(s.drop_last()) * 10 + digit_value(s.last())
    }
}

/// Appends the decimal notation of `n`.
pub fn push_decimal(out: &mut String, n: u128)
    ensures
        final(out)@ == old(out)@ + decimal(n as nat),
    decreases n,
{
    if n >= 10 {
        push_decimal(out, n / 10);
    }
    let digit: u8 = (n % 10) as u8;
    out.push((48 + digit) as char);
}

/// The characters of `s`, in order.
pub fn chars_of(s: &str) -> (chars: Vec<char>)
    ensures
        chars@ == s@,
{
    let mut chars: Vec<char> = Vec::new();
    for c in it: s.chars()
        invariant
            chars@ == s@.take(it.index()),
            it.seq() == s@,
    {
        chars.push(c);
    }
    chars
}

/// `s` without a `+` at its front.
pub open spec fn without_plus(s: Seq<char>) -> Seq<char> {
    if s.len() > 0 && s[0] == '+' {
        s.skip(1)
    } else {
        s
    }
}

/// Every character of `s` is a decimal digit.
pub open spec fn all_digits(s: Seq<char>) -> bool {
    forall|i: int| 0 <= i < s.len() ==> is_digit(#[trigger] s[i])
}

/// The number that `s` denotes in the notation of unsigned integers: decimal
/// digits, at least one, with an optional `+` before them and nothing else.
pub open spec fn parsed_u64(s: Seq<char>) -> Option<u64> {
    let digits = without_plus(s);
    if digits.len() > 0 && all_digits(digits) && decimal_value(digits) <= u64::MAX {
        Some(decimal_value(digits) as u64)
    } else {
        None
    }
}

/// More digits make no smaller number.
proof fn lemma_decimal_value_grows(s: Seq<char>, k: int)
    requires
        0 <= k <= s.len(),
    ensures
        decimal_value(s.take(k)) <= decimal_value(s),
    decreases s.len() - k,
{
    if k < s.len() {
        lemma_decimal_value_grows(s, k + 1);
        assert(s.take(k + 1).drop_last() == s.take(k));
    } else {
        assert(s.take(k) == s);
    }
}

/// Reads an unsigned integer; `None` if `s` is none or it is too large.
pub fn parse_u64(s: &str) -> (parsed: Option<u64>)
    ensures
        parsed == parsed_u64(s@),
{
    let chars = chars_of(s);
    let start: usize = if chars.len() > 0 && chars[0] == '+' {
        1
    } else {
        0
    };
    let ghost digits = without_plus(s@);
    assert(digits == s@.skip(start as int));
    if chars.len() == start {
        return None;
    }
    let mut value: u64 = 0;
    let mut i: usize = start;
    while i < chars.len()
        invariant
            chars@ == s@,
            start <= i <= chars.len(),
            digits == without_plus(s@),
            digits == s@.skip(start as int),
            digits.len() > 0,
            forall|j: int| 0 <= j < i - start ==> is_digit(#[trigger] digits[j]),
            value == decimal_value(digits.take(i - start)),
        decreases chars.len() - i,
    {
        let c = chars[i];
        assert(c == digits[i - start]);
        if c < '0' || c > '9' {
            return None;
        }
        let digit: u64 = c as u64 - 48;
        proof {
            let next = digits.take(i - start + 1);
            assert(next.drop_last() == digits.take(i - start));
            assert(next.last() == c);
            lemma_decimal_value_grows(digits, i - start + 1);
        }
        if value > (u64::MAX - digit) / 10 {
            return None;
        }
        value = value * 10 + digit;
        i += 1;
    }
    assert(digits.take(digits.len() as int) == digits);
    Some(value)
}

/// Decimal notation consists of digits, at least one, and denotes its number.
pub proof fn lemma_decimal(n: nat)
    ensures
        decimal(n).len() > 0,
        all_digits(decimal(n)),
        decimal_value(decimal(n)) == n,
    decreases n,
{
    if n < 10 {
        assert(decimal(n).drop_last() == Seq::<char>::empty());
        assert(decimal(n).last() == digit_char(n));
        assert(decimal_value(Seq::<char>::empty()) == 0);
    } else {
        lemma_decimal(n / 10);
        assert(decimal(n).drop_last() == decimal(n / 10));
        assert(decimal(n).last() == digit_char(n % 10));
    }
}

/// What is written in decimal reads back as the same number.
pub proof fn law_decimal_reads_back(n: u64)
    ensures
        parsed_u64(decimal(n as nat)) == Some(n),
{
    lemma_decimal(n as nat);
    assert(is_digit(decimal(n as nat)[0]));
}

/// The text of an optional string.
pub open spec fn optional_text(value: Option<String>) -> Option<Seq<char>> {
    match value {
        Some(text) => Some(text@),
        None => None,
    }
}

/// The characters that Unicode counts as white space.
pub open spec fn is_white_space(c: char) -> bool {
    let n = c as u32;
    ||| 0x9 <= n <= 0xd
    ||| n == 0x20
    ||| n == 0x85
    ||| n == 0xa0
    ||| n == 0x1680
    ||| 0x2000 <= n <= 0x200a
    ||| n == 0x2028
    ||| n == 0x2029
    ||| n == 0x202f
    ||| n == 0x205f
    ||| n == 0x3000
}

/// A text of nothing but white space.
pub open spec fn is_blank_text(s: Seq<char>) -> bool {
    forall|i: int| 0 <= i < s.len() ==> is_white_space(#[trigger] s[i])
}

/// Whether `s` holds nothing but white space.
pub fn is_blank(s: &str) -> (blank: bool)
    ensures
        blank == is_blank_text(s@),
{
    for c in it: s.chars()
        invariant
            it.seq() == s@,
            forall|i: int| 0 <= i < it.index() ==> is_white_space(#[trigger] s@[i]),
    {
        let n: u32 = c as u32;
        let white = (0x9 <= n && n <= 0xd) || n == 0x20 || n == 0x85 || n == 0xa0 || n == 0x1680
            || (0x2000 <= n && n <= 0x200a) || n == 0x2028 || n == 0x2029 || n == 0x202f
            || n == 0x205f || n == 0x3000;
        if !white {
            assert(!is_white_space(s@[it.index()]));
            return false;
        }
    }
    true
}

/// Whether two texts are the same.
pub fn same(a: &str, b: &str) -> (equal: bool)
    ensures
        equal == (a@ == b@),
{
    broadcast use encode_utf8_decode_utf8;

    let left = a.as_bytes();
    let right = b.as_bytes();
    assert(a@ == decode_utf8(left@) && b@ == decode_utf8(right@));
    if left.len() != right.len() {
        return false;
    }
    let mut i: usize = 0;
    while i < left.len()
        invariant
            left@ == encode_utf8(a@),
            right@ == encode_utf8(b@),
            left.len() == right.len(),
            i <= left.len(),
            forall|j: int| 0 <= j < i ==> left@[j] == right@[j],
        decreases left.len() - i,
    {
        if left[i] != right[i] {
            return false;
        }
        i += 1;
    }
    assert(left@ == right@);
    true
}

/// The number that digits denote when they are read from the left, each step
/// taking ten times what was read so far and adding the next digit.
pub open spec fn read_from_left(s: Seq<char>) -> int {
    s.fold_left(0int, |value: int, c: char| value * 10 + (c as int - 48))
}

proof fn lemma_read_from_left(s: Seq<char>)
    requires
        all_digits(s),
    ensures
        read_from_left(s) == decimal_value(s),
    decreases s.len(),
{
    if s.len() > 0 {
        assert(is_digit(s.last()));
        assert forall|i: int| 0 <= i < s.drop_last().len() implies is_digit(
            #[trigger] s.drop_last()[i],
        ) by {
            assert(is_digit(s[i]));
        }
        lemma_read_from_left(s.drop_last());
    }
}

/// Decimal notation is made of digits, at least one, has no zero in front but for
/// the number zero, and reads as its number.
pub proof fn law_decimal_notation(n: nat)
    ensures
        decimal(n).len() > 0,
        forall|i: int| 0 <= i < decimal(n).len() ==> '0' <= #[trigger] decimal(n)[i] <= '9',
        decimal(n).len() > 1 ==> decimal(n)[0] != '0',
        read_from_left(decimal(n)) == n,
{
    lemma_decimal(n);
    lemma_read_from_left(decimal(n));
    lemma_no_zero_in_front(n);
    assert forall|i: int| 0 <= i < decimal(n).len() implies '0' <= #[trigger] decimal(n)[i]
        <= '9' by {
        assert(is_digit(decimal(n)[i]));
    }
}

proof fn lemma_no_zero_in_front(n: nat)
    ensures
        decimal(n).len() > 0,
        n > 0 ==> decimal(n)[0] != '0',
        n < 10 ==> decimal(n).len() == 1,
    decreases n,
{
    if n >= 10 {
        lemma_no_zero_in_front(n / 10);
        assert(decimal(n)[0] == decimal(n / 10)[0]);
    }
}

/// Different numbers have different notations.
pub proof fn law_decimal_tells_the_number(a: nat, b: nat)
    requires
        decimal(a) == decimal(b),
    ensures
        a == b,
{
    law_decimal_notation(a);
    law_decimal_notation(b);
}

/// Digits read as the number that they denote, if that is not too large; a `+` in
/// front of digits changes nothing; and nothing else reads as a number.
pub proof fn law_what_reads_as_a_number(s: Seq<char>)
    ensures
        s.len() > 0 && (forall|i: int| 0 <= i < s.len() ==> '0' <= #[trigger] s[i] <= '9') ==> (
        match parsed_u64(s) {
            Some(n) => n == read_from_left(s),
            None => read_from_left(s) > u64::MAX,
        }) && parsed_u64(seq!['+'] + s) == parsed_u64(s),
        s.len() == 0 ==> parsed_u64(s) is None && parsed_u64(seq!['+'] + s) is None,
        (exists|i: int|
            0 <= i < s.len() && !('0' <= #[trigger] s[i] <= '9') && !(i == 0 && s[i] == '+'))
            ==> parsed_u64(s) is None,
{
    let plus = seq!['+'] + s;
    assert(plus.skip(1) == s);
    assert(without_plus(plus) == s);
    if forall|i: int| 0 <= i < s.len() ==> '0' <= #[trigger] s[i] <= '9' {
        assert forall|i: int| 0 <= i < s.len() implies is_digit(#[trigger] s[i]) by {
            assert('0' <= s[i] <= '9');
        }
        lemma_read_from_left(s);
        if s.len() > 0 {
            assert('0' <= s[0] <= '9');
            assert(without_plus(s) == s);
        }
    }
    if exists|i: int|
        0 <= i < s.len() && !('0' <= #[trigger] s[i] <= '9') && !(i == 0 && s[i] == '+') {
        let i = choose|i: int|
            0 <= i < s.len() && !('0' <= #[trigger] s[i] <= '9') && !(i == 0 && s[i] == '+');
        let digits = without_plus(s);
        if s[0] == '+' {
            assert(digits[i - 1] == s[i]);
            assert(!is_digit(digits[i - 1]));
        } else {
            assert(!is_digit(digits[i]));
        }
    }
}

/// A text is blank just if both of its parts are; the empty text is; and a single
/// character is if it is white space.
pub proof fn law_blank_texts(a: Seq<char>, b: Seq<char>, c: char)
    ensures
        is_blank_text(a + b) == (is_blank_text(a) && is_blank_text(b)),
        is_blank_text(Seq::empty()),
        is_blank_text(seq![c]) == is_white_space(c),
{
    let all = a + b;
    if is_blank_text(all) {
        assert forall|i: int| 0 <= i < a.len() implies is_white_space(#[trigger] a[i]) by {
            assert(all[i] == a[i]);
        }
        assert forall|i: int| 0 <= i < b.len() implies is_white_space(#[trigger] b[i]) by {
            assert(all[a.len() + i] == b[i]);
        }
    }
    if is_white_space(c) {
        assert(is_blank_text(seq![c]));
    } else {
        assert(!is_white_space(seq![c][0]));
    }
}

/// The text of an optional string is the text of the string, if there is one.
pub proof fn law_optional_text(value: Option<String>)
    ensures
        value matches Some(text) ==> optional_text(value) == Some(text@),
        value is None ==> optional_text(value) is None,
{
}

/// Lines, each ended by a line break.
pub open spec fn lines(items: Seq<Seq<char>>) -> Seq<char>
    decreases items.len(),
{
    if items.len() == 0 {
        Seq::empty()
    } else {
        lines(items.drop_last()) + items.last() + seq!['\n']
    }
}

/// `line` stands in `text`: at its start or after a line break, and a line break
/// follows.
pub open spec fn holds_line(text: Seq<char>, line: Seq<char>) -> bool {
    exists|i: int| #[trigger] is_line_at(text, line, i)
}

/// `line` stands in `text` at offset `i`.
pub open spec fn is_line_at(text: Seq<char>, line: Seq<char>, i: int) -> bool {
    &&& 0 <= i
    &&& i + line.len() < text.len()
    &&& i == 0 || text[i - 1] == '\n'
    &&& text.subrange(i, i + line.len()) == line
    &&& text[i + line.len()] == '\n'
}

/// A line more goes at the end.
pub proof fn lemma_lines_push(items: Seq<Seq<char>>, line: Seq<char>)
    ensures
        lines(items.push(line)) == lines(items) + line + seq!['\n'],
{
    assert(items.push(line).drop_last() == items);
}

/// Each of the lines stands in the text that they make.
pub proof fn lemma_holds_each_line(items: Seq<Seq<char>>, k: int)
    requires
        0 <= k < items.len(),
    ensures
        holds_line(lines(items), items[k]),
    decreases items.len(),
{
    let before = lines(items.drop_last());
    let text = lines(items);
    lemma_lines_end(items.drop_last());
    if k == items.len() - 1 {
        let i = before.len() as int;
        assert(text.subrange(i, i + items[k].len()) == items[k]);
        assert(is_line_at(text, items[k], i));
    } else {
        lemma_holds_each_line(items.drop_last(), k);
        let line = items[k];
        assert(items.drop_last()[k] == line);
        let i = choose|i: int| #[trigger] is_line_at(before, line, i);
        assert(text.subrange(i, i + line.len()) == before.subrange(i, i + line.len()));
        assert(is_line_at(text, line, i));
    }
}

proof fn lemma_lines_end(items: Seq<Seq<char>>)
    ensures
        items.len() == 0 ==> lines(items).len() == 0,
        items.len() > 0 ==> lines(items).len() > 0 && lines(items).last() == '\n',
{
}

/// `text` is finished lines and the beginning of one more.
pub open spec fn is_open_line(items: Seq<Seq<char>>, text: Seq<char>, line: Seq<char>) -> bool {
    text == lines(items) + line
}

/// A line can be begun.
pub proof fn lemma_first_line(name: Seq<char>, value: Seq<char>)
    ensures
        is_open_line(Seq::empty(), name + value, name + value),
{
    assert(lines(Seq::<Seq<char>>::empty()) + (name + value) =~= name + value);
}

/// A line can be ended and the next begun.
pub proof fn lemma_next_line(
    items: Seq<Seq<char>>,
    open: Seq<char>,
    text: Seq<char>,
    joint: Seq<char>,
    name: Seq<char>,
    value: Seq<char>,
)
    requires
        joint == seq!['\n'] + name,
        is_open_line(items, text, open),
    ensures
        is_open_line(items.push(open), text + joint + value, name + value),
{
    let done = lines(items);
    lemma_lines_push(items, open);
    assert(text + joint + value =~= done + open + seq!['\n'] + (name + value));
}

/// A line can be ended with a quote and the next begun.
pub proof fn lemma_next_quoted_line(
    items: Seq<Seq<char>>,
    open: Seq<char>,
    text: Seq<char>,
    joint: Seq<char>,
    name: Seq<char>,
    value: Seq<char>,
)
    requires
        joint == "\""@ + seq!['\n'] + name,
        is_open_line(items, text, open),
    ensures
        is_open_line(items.push(open + "\""@), text + joint + value, name + value),
{
    let done = lines(items);
    lemma_lines_push(items, open + "\""@);
    assert(text + joint + value =~= done + (open + "\""@) + seq!['\n'] + (name + value));
}

} // verus!
