//! Text: taking it apart, putting it together, and reading and writing numbers in it.

use vstd::prelude::*;

verus! {

/// `String::push` appends the character to the end.
pub assume_specification[ String::push ](s: &mut String, c: char)
    ensures
        final(s)@ == old(s)@.push(c),
;

/// The `Debug` form of a string.
pub uninterp spec fn quoted(text: Seq<char>) -> Seq<char>;

/// The `Debug` form of a string, by `format!`: the text in double quotes, with special characters
/// escaped. How each is escaped is not stated.
#[verifier::external_body]
pub(crate) fn quote(text: &str) -> (out: String)
    ensures
        out@ == quoted(text@),
{
    format!("{text:?}")
}

/// The characters of `text`.
pub fn chars_of(text: &str) -> (chars: Vec<char>)
    ensures
        chars@ == text@,
{
    let mut chars: Vec<char> = Vec::new();
    for c in it: text.chars()
        invariant
            it.seq() == text@,
            chars@ == text@.take(it.index() as int),
    {
        proof {
            assert(text@.take(it.index() + 1) =~= text@.take(it.index() as int).push(c));
        }
        chars.push(c);
    }
    assert(chars@ =~= text@);
    chars
}

/// Whether two texts are the same.
pub fn same(a: &str, b: &str) -> (same: bool)
    ensures
        same == (a@ == b@),
{
    let x = chars_of(a);
    let y = chars_of(b);
    if x.len() != y.len() {
        return false;
    }
    for i in 0..x.len()
        invariant
            x@ == a@,
            y@ == b@,
            x@.len() == y@.len(),
            x@.take(i as int) == y@.take(i as int),
    {
        if x[i] != y[i] {
            assert(x@[i as int] != y@[i as int]);
            return false;
        }
        proof {
            assert(x@.take(i + 1) =~= x@.take(i as int).push(x@[i as int]));
            assert(y@.take(i + 1) =~= y@.take(i as int).push(y@[i as int]));
        }
    }
    assert(x@ =~= x@.take(x@.len() as int));
    assert(y@ =~= y@.take(y@.len() as int));
    true
}

/// The characters with the Unicode property `White_Space`.
pub open spec fn whitespace(c: char) -> bool {
    let v = c as u32;
    ||| 0x09 <= v <= 0x0d
    ||| v == 0x20
    ||| v == 0x85
    ||| v == 0xa0
    ||| v == 0x1680
    ||| 0x2000 <= v <= 0x200a
    ||| v == 0x2028
    ||| v == 0x2029
    ||| v == 0x202f
    ||| v == 0x205f
    ||| v == 0x3000
}

fn is_whitespace(c: char) -> (is: bool)
    ensures
        is == whitespace(c),
{
    let v: u32 = c as u32;
    (0x09 <= v && v <= 0x0d) || v == 0x20 || v == 0x85 || v == 0xa0 || v == 0x1680 || (0x2000 <= v
        && v <= 0x200a) || v == 0x2028 || v == 0x2029 || v == 0x202f || v == 0x205f || v == 0x3000
}

/// `text` without whitespace in front.
pub open spec fn trimmed_front(text: Seq<char>) -> Seq<char>
    decreases text.len(),
{
    if text.len() > 0 && whitespace(text[0]) {
        trimmed_front(text.skip(1))
    } else {
        text
    }
}

/// `text` without whitespace at the end.
pub open spec fn trimmed_end(text: Seq<char>) -> Seq<char>
    decreases text.len(),
{
    if text.len() > 0 && whitespace(text.last()) {
        trimmed_end(text.drop_last())
    } else {
        text
    }
}

/// `text` without whitespace in front and at the end.
pub open spec fn trimmed(text: Seq<char>) -> Seq<char> {
    trimmed_end(trimmed_front(text))
}

/// Takes whitespace off both ends.
pub fn trim(text: &str) -> (out: String)
    ensures
        out@ == trimmed(text@),
{
    let chars = chars_of(text);
    let mut start: usize = 0;
    assert(chars@.skip(0) =~= chars@);
    while start < chars.len() && is_whitespace(chars[start])
        invariant
            start <= chars@.len(),
            trimmed_front(chars@) == trimmed_front(chars@.skip(start as int)),
        decreases chars@.len() - start,
    {
        proof {
            let rest = chars@.skip(start as int);
            assert(rest[0] == chars@[start as int]);
            assert(rest.skip(1) =~= chars@.skip(start + 1));
        }
        start = start + 1;
    }
    proof {
        let rest = chars@.skip(start as int);
        assert(rest.len() > 0 ==> rest[0] == chars@[start as int]);
        assert(trimmed_front(chars@) == rest);
        assert(rest =~= chars@.subrange(start as int, chars@.len() as int));
    }
    let mut end: usize = chars.len();
    while end > start && is_whitespace(chars[end - 1])
        invariant
            start <= end <= chars@.len(),
            trimmed(chars@) == trimmed_end(chars@.subrange(start as int, end as int)),
        decreases end,
    {
        proof {
            let rest = chars@.subrange(start as int, end as int);
            assert(rest.last() == chars@[end - 1]);
            assert(rest.drop_last() =~= chars@.subrange(start as int, end - 1));
        }
        end = end - 1;
    }
    proof {
        let rest = chars@.subrange(start as int, end as int);
        assert(rest.len() > 0 ==> rest.last() == chars@[end - 1]);
    }
    text.substring_char(start, end).to_owned()
}

/// The parts of `text` between the separators; a text without any is one part.
pub open spec fn parts(text: Seq<char>, separator: char) -> Seq<Seq<char>>
    decreases text.len(),
{
    if text.len() == 0 {
        seq![Seq::empty()]
    } else {
        let front = parts(text.drop_last(), separator);
        if text.last() == separator {
            front.push(Seq::empty())
        } else {
            front.drop_last().push(front.last().push(text.last()))
        }
    }
}

/// The texts of a list.
pub open spec fn texts(list: Seq<String>) -> Seq<Seq<char>> {
    list.map_values(|text: String| text@)
}

pub proof fn lemma_parts(text: Seq<char>, separator: char)
    ensures
        parts(text, separator).len() > 0,
    decreases text.len(),
{
    if text.len() > 0 {
        lemma_parts(text.drop_last(), separator);
    }
}

/// Takes a text apart at its separators.
pub fn split(text: &str, separator: char) -> (list: Vec<String>)
    ensures
        texts(list@) == parts(text@, separator),
{
    let chars = chars_of(text);
    let mut list: Vec<String> = Vec::new();
    let mut part = String::new();
    proof {
        assert(parts(chars@.take(0), separator) =~= seq![Seq::empty()]);
        assert(parts(chars@.take(0), separator).drop_last() =~= Seq::empty());
        assert(texts(list@) =~= Seq::empty());
        assert(part@ =~= Seq::empty());
    }
    for i in 0..chars.len()
        invariant
            parts(chars@.take(i as int), separator).len() > 0,
            part@ == parts(chars@.take(i as int), separator).last(),
            texts(list@) == parts(chars@.take(i as int), separator).drop_last(),
    {
        let ghost before = parts(chars@.take(i as int), separator);
        proof {
            assert(chars@.take(i + 1).drop_last() =~= chars@.take(i as int));
            assert(chars@.take(i + 1).last() == chars@[i as int]);
        }
        if chars[i] == separator {
            let ghost listed = list@;
            list.push(part);
            part = String::new();
            proof {
                let after = before.push(Seq::empty());
                assert(after.drop_last() =~= before);
                assert(part@ =~= after.last());
                assert(texts(list@) =~= texts(listed).push(before.last()));
                assert(before =~= before.drop_last().push(before.last()));
            }
        } else {
            part.push(chars[i]);
            proof {
                let after = before.drop_last().push(before.last().push(chars@[i as int]));
                assert(after.drop_last() =~= before.drop_last());
            }
        }
    }
    assert(chars@.take(chars@.len() as int) =~= chars@);
    let ghost all = parts(chars@, separator);
    let ghost listed = list@;
    list.push(part);
    proof {
        assert(texts(list@) =~= texts(listed).push(all.last()));
        assert(texts(list@) =~= all);
    }
    list
}

/// Takes a text apart at its separators, and whitespace off both ends of each part.
pub fn split_trimmed(text: &str, separator: char) -> (list: Vec<String>)
    ensures
        texts(list@) == parts(text@, separator).map_values(|part: Seq<char>| trimmed(part)),
{
    let list = split(text, separator);
    let mut out: Vec<String> = Vec::new();
    let ghost all = texts(list@).map_values(|part: Seq<char>| trimmed(part));
    for i in 0..list.len()
        invariant
            all == texts(list@).map_values(|part: Seq<char>| trimmed(part)),
            texts(out@) == all.take(i as int),
    {
        let ghost before = out@;
        out.push(trim(list[i].as_str()));
        proof {
            assert(texts(out@) =~= texts(before).push(all[i as int]));
            assert(all.take(i + 1) =~= all.take(i as int).push(all[i as int]));
        }
    }
    assert(all.take(all.len() as int) =~= all);
    out
}

/// `c` as an uppercase letter, if it is a lowercase letter of ASCII.
pub open spec fn upper(c: char) -> char {
    if 'a' <= c <= 'z' {
        (c as u8 - 32) as u8 as char
    } else {
        c
    }
}

/// `c` as a lowercase letter, if it is an uppercase letter of ASCII.
pub open spec fn lower(c: char) -> char {
    if 'A' <= c <= 'Z' {
        (c as u8 + 32) as u8 as char
    } else {
        c
    }
}

/// `text` with the lowercase letters of ASCII in uppercase.
pub open spec fn uppercased(text: Seq<char>) -> Seq<char> {
    text.map_values(|c: char| upper(c))
}

/// `text` with the uppercase letters of ASCII in lowercase.
pub open spec fn lowercased(text: Seq<char>) -> Seq<char> {
    text.map_values(|c: char| lower(c))
}

/// Puts the letters of ASCII in uppercase.
pub fn to_uppercase(text: &str) -> (out: String)
    ensures
        out@ == uppercased(text@),
{
    let mut out = String::new();
    for c in it: text.chars()
        invariant
            it.seq() == text@,
            out@ == uppercased(text@.take(it.index() as int)),
    {
        proof {
            assert(text@.take(it.index() + 1) =~= text@.take(it.index() as int).push(c));
        }
        let ghost before = out@;
        if 'a' <= c && c <= 'z' {
            out.push((c as u8 - 32) as char);
        } else {
            out.push(c);
        }
        assert(out@ =~= uppercased(text@.take(it.index() + 1)));
    }
    assert(text@.take(text@.len() as int) =~= text@);
    out
}

/// Puts the letters of ASCII in lowercase.
pub fn to_lowercase(text: &str) -> (out: String)
    ensures
        out@ == lowercased(text@),
{
    let mut out = String::new();
    for c in it: text.chars()
        invariant
            it.seq() == text@,
            out@ == lowercased(text@.take(it.index() as int)),
    {
        proof {
            assert(text@.take(it.index() + 1) =~= text@.take(it.index() as int).push(c));
        }
        if 'A' <= c && c <= 'Z' {
            out.push((c as u8 + 32) as char);
        } else {
            out.push(c);
        }
        assert(out@ =~= lowercased(text@.take(it.index() + 1)));
    }
    assert(text@.take(text@.len() as int) =~= text@);
    out
}

/// `part` occurs in `text`.
pub open spec fn occurs(text: Seq<char>, part: Seq<char>) -> bool {
    exists|i: int|
        0 <= i <= text.len() - part.len() && #[trigger] text.subrange(i, i + part.len()) == part
}

/// Whether `part` occurs in `text`.
pub fn contains(text: &str, part: &str) -> (found: bool)
    ensures
        found == occurs(text@, part@),
{
    let length: usize = text.unicode_len();
    let width: usize = part.unicode_len();
    if width > length {
        return false;
    }
    let last: usize = length - width;
    let mut at: usize = 0;
    while at <= last
        invariant
            at <= last + 1,
            length == text@.len(),
            width == part@.len(),
            last == length - width,
            forall|i: int|
                0 <= i < at ==> #[trigger] text@.subrange(i, i + part@.len()) != part@,
        decreases last + 1 - at,
    {
        if same(text.substring_char(at, at + width), part) {
            assert(text@.subrange(at as int, at + part@.len()) == part@);
            return true;
        }
        if at == last {
            return false;
        }
        at = at + 1;
    }
    false
}

/// Why a text is not a number.
#[derive(Debug, Clone, Copy, PartialEq, Eq, Structural)]
pub enum NumberError {
    Empty,
    InvalidDigit,
    TooLarge,
}

impl NumberError {
    pub open spec fn words(self) -> Seq<char> {
        match self {
            NumberError::Empty => "cannot parse integer from empty string"@,
            NumberError::InvalidDigit => "invalid digit found in string"@,
            NumberError::TooLarge => "number too large to fit in target type"@,
        }
    }

    pub fn text(self) -> (text: &'static str)
        ensures
            text@ == self.words(),
    {
        match self {
            NumberError::Empty => "cannot parse integer from empty string",
            NumberError::InvalidDigit => "invalid digit found in string",
            NumberError::TooLarge => "number too large to fit in target type",
        }
    }
}

/// What `c` counts as a digit, in hexadecimal and below.
pub open spec fn digit_of(c: char) -> Option<nat> {
    if '0' <= c <= '9' {
        Some((c as u32 - '0' as u32) as nat)
    } else if 'a' <= c <= 'f' {
        Some((c as u32 - 'a' as u32 + 10) as nat)
    } else if 'A' <= c <= 'F' {
        Some((c as u32 - 'A' as u32 + 10) as nat)
    } else {
        None
    }
}

fn digit(c: char) -> (digit: Option<u64>)
    ensures
        match digit {
            Some(d) => d < 16 && digit_of(c) == Some(d as nat),
            None => digit_of(c) is None,
        },
{
    let v: u32 = c as u32;
    if '0' <= c && c <= '9' {
        Some((v - 48) as u64)
    } else if 'a' <= c && c <= 'f' {
        Some((v - 97 + 10) as u64)
    } else if 'A' <= c && c <= 'F' {
        Some((v - 65 + 10) as u64)
    } else {
        None
    }
}

/// The number that `digits` write, unless it is greater than `max` or one of them is no digit; it
/// is the first thing wrong from the left that is told.
pub open spec fn number_of(digits: Seq<char>, radix: nat, max: nat) -> Result<nat, NumberError>
    decreases digits.len(),
{
    if digits.len() == 0 {
        Ok(0)
    } else {
        match number_of(digits.drop_last(), radix, max) {
            Err(e) => Err(e),
            Ok(front) => match digit_of(digits.last()) {
                Some(d) if d < radix => if front * radix + d <= max {
                    Ok(front * radix + d)
                } else {
                    Err(NumberError::TooLarge)
                },
                _ => Err(NumberError::InvalidDigit),
            },
        }
    }
}

/// The number that `text` writes: digits, with a plus sign in front or without.
pub open spec fn number(text: Seq<char>, radix: nat, max: nat) -> Result<nat, NumberError> {
    if text.len() == 0 {
        Err(NumberError::Empty)
    } else if text[0] == '+' && text.len() > 1 {
        number_of(text.skip(1), radix, max)
    } else {
        number_of(text, radix, max)
    }
}

proof fn lemma_number_error(digits: Seq<char>, radix: nat, max: nat, n: int, e: NumberError)
    requires
        0 <= n <= digits.len(),
        number_of(digits.take(n), radix, max) == Err::<nat, _>(e),
    ensures
        number_of(digits, radix, max) == Err::<nat, _>(e),
    decreases digits.len(),
{
    if n == digits.len() {
        assert(digits.take(n) =~= digits);
    } else {
        assert(digits.drop_last().take(n) =~= digits.take(n));
        lemma_number_error(digits.drop_last(), radix, max, n, e);
    }
}

/// Reads a number in decimal or hexadecimal.
pub fn parse_number(text: &str, radix: u64, max: u64) -> (result: Result<u64, NumberError>)
    requires
        2 <= radix <= 16,
    ensures
        match result {
            Ok(value) => number(text@, radix as nat, max as nat) == Ok::<nat, NumberError>(
                value as nat,
            ),
            Err(e) => number(text@, radix as nat, max as nat) == Err::<nat, _>(e),
        },
{
    let chars = chars_of(text);
    if chars.len() == 0 {
        return Err(NumberError::Empty);
    }
    let start: usize = if chars[0] == '+' && chars.len() > 1 {
        1
    } else {
        0
    };
    let ghost digits = chars@.skip(start as int);
    assert(chars@.skip(0) =~= chars@);
    let mut value: u64 = 0;
    for i in start..chars.len()
        invariant
            2 <= radix <= 16,
            start <= chars@.len(),
            digits == chars@.skip(start as int),
            value <= max,
            number_of(digits.take(i - start), radix as nat, max as nat) == Ok::<nat, NumberError>(
                value as nat,
            ),
            number(text@, radix as nat, max as nat) == number_of(
                digits,
                radix as nat,
                max as nat,
            ),
    {
        let ghost n = i - start;
        proof {
            assert(digits.take(n + 1).drop_last() =~= digits.take(n));
            assert(digits.take(n + 1).last() == chars@[i as int]);
        }
        let d: u64 = match digit(chars[i]) {
            Some(d) if d < radix => d,
            _ => {
                proof {
                    lemma_number_error(
                        digits,
                        radix as nat,
                        max as nat,
                        n + 1,
                        NumberError::InvalidDigit,
                    );
                }
                return Err(NumberError::InvalidDigit);
            },
        };
        proof {
            assert(value * radix <= 16 * 0xffff_ffff_ffff_ffff) by (nonlinear_arith)
                requires
                    value <= 0xffff_ffff_ffff_ffff,
                    radix <= 16,
            ;
            assert(0 <= value * radix) by (nonlinear_arith);
        }
        let wide: u128 = (value as u128) * (radix as u128);
        let sum: u128 = wide + (d as u128);
        if sum > max as u128 {
            proof {
                lemma_number_error(
                    digits,
                    radix as nat,
                    max as nat,
                    n + 1,
                    NumberError::TooLarge,
                );
            }
            return Err(NumberError::TooLarge);
        }
        value = sum as u64;
    }
    assert(digits.take(digits.len() as int) =~= digits);
    Ok(value)
}

/// The digit that counts `d`.
pub open spec fn digit_char(d: nat) -> char {
    if d < 10 {
        (48 + d) as u8 as char
    } else {
        (87 + d) as u8 as char
    }
}

fn char_of(d: u64) -> (c: char)
    requires
        d < 16,
    ensures
        c == digit_char(d as nat),
{
    if d < 10 {
        (48 + d as u8) as char
    } else {
        (87 + d as u8) as char
    }
}

/// `value` in decimal.
pub open spec fn decimal(value: nat) -> Seq<char>
    decreases value,
{
    if value < 10 {
        seq![digit_char(value)]
    } else {
        decimal(value / 10).push(digit_char(value % 10))
    }
}

/// Writes a number in decimal.
pub fn to_decimal(value: u128) -> (text: String)
    ensures
        text@ == decimal(value as nat),
    decreases value,
{
    let mut text = if value < 10 {
        String::new()
    } else {
        to_decimal(value / 10)
    };
    text.push(char_of((value % 10) as u64));
    assert(text@ =~= decimal(value as nat));
    text
}

/// `value` in hexadecimal, in four digits.
pub open spec fn hex4(value: u16) -> Seq<char> {
    seq![
        digit_char((value / 4096) as nat),
        digit_char((value / 256 % 16) as nat),
        digit_char((value / 16 % 16) as nat),
        digit_char((value % 16) as nat),
    ]
}

/// Writes a number in hexadecimal, in four digits.
pub fn to_hex4(value: u16) -> (text: String)
    ensures
        text@ == hex4(value),
{
    let mut text = String::new();
    text.push(char_of((value / 4096) as u64));
    text.push(char_of((value / 256 % 16) as u64));
    text.push(char_of((value / 16 % 16) as u64));
    text.push(char_of((value % 16) as u64));
    assert(text@ =~= hex4(value));
    text
}

} // verus!
