//! What taking text apart and putting it together comes to.

use crate::text;
use crate::text::NumberError;
use vstd::prelude::*;

verus! {

/// Trimming takes whitespace off both ends, all of it, and nothing else.
pub proof fn trimming_takes_whitespace_off_the_ends(text: Seq<char>) -> (ends: (int, int))
    ensures
        0 <= ends.0 <= ends.1 <= text.len(),
        text::trimmed(text) == text.subrange(ends.0, ends.1),
        forall|i: int| 0 <= i < ends.0 ==> text::whitespace(#[trigger] text[i]),
        forall|i: int| ends.1 <= i < text.len() ==> text::whitespace(#[trigger] text[i]),
        text::trimmed(text).len() > 0 ==> !text::whitespace(text::trimmed(text)[0])
            && !text::whitespace(text::trimmed(text).last()),
{
    let start = lemma_trimmed_front(text);
    let rest = text.skip(start);
    let end = start + lemma_trimmed_end(rest);
    assert(rest.take(end - start) =~= text.subrange(start, end));
    assert forall|i: int| end <= i < text.len() implies text::whitespace(#[trigger] text[i]) by {
        assert(rest[i - start] == text[i]);
    }
    if end > start {
        assert(rest.take(end - start)[0] == rest[0]);
    }
    (start, end)
}

proof fn lemma_trimmed_front(text: Seq<char>) -> (start: int)
    ensures
        0 <= start <= text.len(),
        text::trimmed_front(text) == text.skip(start),
        forall|i: int| 0 <= i < start ==> text::whitespace(#[trigger] text[i]),
        start < text.len() ==> !text::whitespace(text[start]),
    decreases text.len(),
{
    if text.len() > 0 && text::whitespace(text[0]) {
        let rest = text.skip(1);
        let start = lemma_trimmed_front(rest);
        assert(rest.skip(start) =~= text.skip(start + 1));
        assert forall|i: int| 0 <= i < start + 1 implies text::whitespace(#[trigger] text[i]) by {
            if i > 0 {
                assert(rest[i - 1] == text[i]);
            }
        }
        if start < rest.len() {
            assert(rest[start] == text[start + 1]);
        }
        start + 1
    } else {
        assert(text.skip(0) =~= text);
        0
    }
}

proof fn lemma_trimmed_end(text: Seq<char>) -> (end: int)
    ensures
        0 <= end <= text.len(),
        text::trimmed_end(text) == text.take(end),
        forall|i: int| end <= i < text.len() ==> text::whitespace(#[trigger] text[i]),
        end > 0 ==> !text::whitespace(text[end - 1]),
    decreases text.len(),
{
    if text.len() > 0 && text::whitespace(text.last()) {
        let front = text.drop_last();
        let end = lemma_trimmed_end(front);
        assert(front.take(end) =~= text.take(end));
        assert forall|i: int| end <= i < text.len() implies text::whitespace(
            #[trigger] text[i],
        ) by {
            if i < front.len() {
                assert(front[i] == text[i]);
            }
        }
        if end > 0 {
            assert(front[end - 1] == text[end - 1]);
        }
        end
    } else {
        assert(text.take(text.len() as int) =~= text);
        text.len() as int
    }
}

/// Space, tab and the ends of lines are whitespace; letters, digits and signs of ASCII are not, nor
/// is anything after the ideographic space.
pub proof fn whitespace_is_what_separates_words(c: char)
    ensures
        c == ' ' || c == '\t' || c == '\n' || c == '\r' ==> text::whitespace(c),
        '!' <= c <= '~' ==> !text::whitespace(c),
        c as u32 > 0x3000 ==> !text::whitespace(c),
{
}

/// `parts` with a separator between any two of them.
pub open spec fn joined(parts: Seq<Seq<char>>, separator: char) -> Seq<char>
    decreases parts.len(),
{
    if parts.len() == 0 {
        Seq::empty()
    } else if parts.len() == 1 {
        parts[0]
    } else {
        joined(parts.drop_last(), separator).push(separator) + parts.last()
    }
}

/// Taking a text apart at its separators loses nothing: put together with the separators between
/// them, the parts are the text again, and none of them holds a separator.
pub proof fn parts_make_up_the_text(text: Seq<char>, separator: char)
    ensures
        text::parts(text, separator).len() > 0,
        joined(text::parts(text, separator), separator) == text,
        forall|i: int|
            0 <= i < text::parts(text, separator).len() ==> !(#[trigger] text::parts(
                text,
                separator,
            )[i]).contains(separator),
    decreases text.len(),
{
    let all = text::parts(text, separator);
    if text.len() > 0 {
        let front = text::parts(text.drop_last(), separator);
        let c = text.last();
        parts_make_up_the_text(text.drop_last(), separator);
        if c == separator {
            assert(all.drop_last() =~= front);
            assert(joined(all, separator) =~= text);
            assert forall|i: int| 0 <= i < all.len() implies !(#[trigger] all[i]).contains(
                separator,
            ) by {
                if i < front.len() {
                    assert(all[i] == front[i]);
                }
            }
        } else {
            assert(all.drop_last() =~= front.drop_last());
            assert(text =~= text.drop_last().push(c));
            if front.len() > 1 {
                let head = joined(front.drop_last(), separator).push(separator);
                assert(head + front.last().push(c) =~= (head + front.last()).push(c));
            }
            assert(joined(all, separator) =~= text);
            assert forall|i: int| 0 <= i < all.len() implies !(#[trigger] all[i]).contains(
                separator,
            ) by {
                let whole = front[front.len() - 1];
                if i < front.len() - 1 {
                    assert(all[i] == front[i]);
                } else if all[i].contains(separator) {
                    let m = all[i].index_of(separator);
                    assert(m < whole.len());
                    assert(whole[m] == separator);
                    assert(whole.contains(separator));
                }
            }
        }
    } else {
        assert(joined(all, separator) =~= text);
    }
}

/// What is in front of a separator and what is behind it are taken apart on their own.
pub proof fn separators_separate(a: Seq<char>, b: Seq<char>, separator: char)
    ensures
        text::parts(a.push(separator) + b, separator) == text::parts(a, separator) + text::parts(
            b,
            separator,
        ),
    decreases b.len(),
{
    let whole = a.push(separator) + b;
    let left = text::parts(a, separator);
    let right = text::parts(b, separator);
    if b.len() == 0 {
        assert(whole =~= a.push(separator));
        assert(whole.drop_last() =~= a);
        assert(text::parts(whole, separator) =~= left + right);
    } else {
        separators_separate(a, b.drop_last(), separator);
        text::lemma_parts(b.drop_last(), separator);
        assert(whole.drop_last() =~= a.push(separator) + b.drop_last());
        assert(whole.last() == b.last());
        assert(text::parts(whole, separator) =~= left + right);
    }
}

/// A text without a separator is one part.
pub proof fn a_text_without_separators_is_whole(text: Seq<char>, separator: char)
    requires
        !text.contains(separator),
    ensures
        text::parts(text, separator) == seq![text],
    decreases text.len(),
{
    if text.len() > 0 {
        let front = text.drop_last();
        assert(!front.contains(separator)) by {
            if front.contains(separator) {
                assert(text[front.index_of(separator)] == separator);
            }
        }
        a_text_without_separators_is_whole(front, separator);
        assert(text[text.len() - 1] == text.last());
        assert(text.contains(text.last()));
        assert(text =~= front.push(text.last()));
        assert(text::parts(text, separator) =~= seq![text]);
    } else {
        assert(text =~= Seq::empty());
        assert(text::parts(text, separator) =~= seq![text]);
    }
}

/// The case of a letter of ASCII is changed by the distance between the two alphabets, and nothing
/// but letters of ASCII changes; so each case can be had from the other.
pub proof fn cases_are_an_alphabet_apart(c: char)
    ensures
        'a' <= c <= 'z' ==> text::upper(c) as u32 == c as u32 - 32 && text::lower(text::upper(c))
            == c && text::lower(c) == c,
        'A' <= c <= 'Z' ==> text::lower(c) as u32 == c as u32 + 32 && text::upper(text::lower(c))
            == c && text::upper(c) == c,
        !('a' <= c <= 'z') && !('A' <= c <= 'Z') ==> text::upper(c) == c && text::lower(c) == c,
{
}

/// Changing the case of a text changes that of each character, and no character comes or goes.
pub proof fn texts_change_case_by_character(text: Seq<char>)
    ensures
        text::uppercased(text).len() == text.len(),
        text::lowercased(text).len() == text.len(),
        forall|i: int|
            0 <= i < text.len() ==> #[trigger] text::uppercased(text)[i] == text::upper(text[i]),
        forall|i: int|
            0 <= i < text.len() ==> #[trigger] text::lowercased(text)[i] == text::lower(text[i]),
        text::lowercased(text::uppercased(text)) == text::lowercased(text),
        text::uppercased(text::lowercased(text)) == text::uppercased(text),
{
    assert(text::lowercased(text::uppercased(text)) =~= text::lowercased(text));
    assert(text::uppercased(text::lowercased(text)) =~= text::uppercased(text));
}

/// A text occurs in another wherever there is something in front of it and something behind it that
/// make it the other, if only nothing.
pub proof fn what_is_surrounded_occurs(front: Seq<char>, part: Seq<char>, behind: Seq<char>)
    ensures
        text::occurs(front + part + behind, part),
{
    let whole = front + part + behind;
    let i = front.len() as int;
    assert(whole.subrange(i, i + part.len()) =~= part);
}

/// What occurs in a text is surrounded by the rest of it.
pub proof fn what_occurs_is_surrounded(text: Seq<char>, part: Seq<char>) -> (around: (
    Seq<char>,
    Seq<char>,
))
    requires
        text::occurs(text, part),
    ensures
        text == around.0 + part + around.1,
{
    let i = choose|i: int|
        0 <= i <= text.len() - part.len() && #[trigger] text.subrange(i, i + part.len()) == part;
    let front = text.take(i);
    let behind = text.skip(i + part.len());
    assert(text =~= front + text.subrange(i, i + part.len()) + behind);
    (front, behind)
}

/// The ten digits and the six letters behind them, in either case, count from zero to fifteen, and
/// nothing else counts.
pub proof fn digits_count_in_order(c: char)
    ensures
        '0' <= c <= '9' ==> text::digit_of(c) == Some((c as u32 - 48) as nat),
        'a' <= c <= 'f' ==> text::digit_of(c) == Some((c as u32 - 87) as nat),
        'A' <= c <= 'F' ==> text::digit_of(c) == Some((c as u32 - 55) as nat),
        text::digit_of(c) is Some ==> '0' <= c <= '9' || 'a' <= c <= 'f' || 'A' <= c <= 'F',
        forall|d: nat| d < 16 ==> text::digit_of(#[trigger] text::digit_char(d)) == Some(d),
        forall|d: nat| d < 10 ==> '0' <= #[trigger] text::digit_char(d) <= '9',
        forall|d: nat| 10 <= d < 16 ==> 'a' <= #[trigger] text::digit_char(d) <= 'f',
{
}

/// One more digit makes a number as many times greater as there are digits, and the digit more.
pub proof fn numbers_grow_digit_by_digit(digits: Seq<char>, c: char, radix: nat, max: nat)
    ensures
        match (text::number_of(digits, radix, max), text::digit_of(c)) {
            (Ok(value), Some(d)) => if d >= radix {
                text::number_of(digits.push(c), radix, max) == Err::<nat, _>(
                    NumberError::InvalidDigit,
                )
            } else if value * radix + d > max {
                text::number_of(digits.push(c), radix, max) == Err::<nat, _>(NumberError::TooLarge)
            } else {
                text::number_of(digits.push(c), radix, max) == Ok::<_, NumberError>(
                    value * radix + d,
                )
            },
            (Ok(_), None) => text::number_of(digits.push(c), radix, max) == Err::<nat, _>(
                NumberError::InvalidDigit,
            ),
            (Err(e), _) => text::number_of(digits.push(c), radix, max) == Err::<nat, _>(e),
        },
        text::number_of(Seq::empty(), radix, max) == Ok::<_, NumberError>(0nat),
{
    assert(digits.push(c).drop_last() =~= digits);
}

proof fn lemma_decimal_number(value: nat, max: nat)
    requires
        value <= max,
    ensures
        text::number_of(text::decimal(value), 10, max) == Ok::<_, NumberError>(value),
        text::decimal(value).len() > 0,
        forall|i: int|
            0 <= i < text::decimal(value).len() ==> '0' <= #[trigger] text::decimal(value)[i]
                <= '9',
    decreases value,
{
    digits_count_in_order('0');
    let d = value % 10;
    assert(text::digit_of(text::digit_char(d)) == Some(d));
    if value < 10 {
        numbers_grow_digit_by_digit(Seq::empty(), text::digit_char(value), 10, max);
        assert(Seq::<char>::empty().push(text::digit_char(value)) =~= text::decimal(value));
    } else {
        lemma_decimal_number(value / 10, max);
        numbers_grow_digit_by_digit(
            text::decimal(value / 10),
            text::digit_char(d),
            10,
            max,
        );
    }
}

/// A number that is written in decimal is read as what it was, if it may be that large, and is told
/// to be too large otherwise; a plus sign in front makes no difference.
pub proof fn numbers_are_read_as_they_are_written(value: nat, max: nat)
    ensures
        value <= max ==> text::number(text::decimal(value), 10, max) == Ok::<_, NumberError>(value),
        value > max ==> text::number(text::decimal(value), 10, max) == Err::<nat, _>(
            NumberError::TooLarge,
        ),
        text::number(seq!['+'] + text::decimal(value), 10, max) == text::number(
            text::decimal(value),
            10,
            max,
        ),
{
    lemma_decimal_number(value, value);
    let digits = text::decimal(value);
    assert('0' <= digits[0] <= '9');
    if value <= max {
        lemma_decimal_number(value, max);
    } else {
        lemma_too_large(value, max);
    }
    assert((seq!['+'] + digits).skip(1) =~= digits);
}

proof fn lemma_too_large(value: nat, max: nat)
    requires
        value > max,
    ensures
        text::number_of(text::decimal(value), 10, max) == Err::<nat, _>(NumberError::TooLarge),
    decreases value,
{
    digits_count_in_order('0');
    let d = value % 10;
    assert(text::digit_of(text::digit_char(d)) == Some(d));
    if value < 10 {
        numbers_grow_digit_by_digit(Seq::empty(), text::digit_char(value), 10, max);
        assert(Seq::<char>::empty().push(text::digit_char(value)) =~= text::decimal(value));
    } else {
        if value / 10 <= max {
            lemma_decimal_number(value / 10, max);
        } else {
            lemma_too_large(value / 10, max);
        }
        numbers_grow_digit_by_digit(text::decimal(value / 10), text::digit_char(d), 10, max);
    }
}

/// The four digits of a number in hexadecimal are read as what it was.
pub proof fn hexadecimal_is_read_as_it_is_written(value: u16, max: nat)
    requires
        value <= max,
    ensures
        text::hex4(value).len() == 4,
        text::number(text::hex4(value), 16, max) == Ok::<_, NumberError>(value as nat),
        forall|i: int|
            0 <= i < 4 ==> '0' <= #[trigger] text::hex4(value)[i] <= '9' || 'a' <= text::hex4(
                value,
            )[i] <= 'f',
{
    digits_count_in_order('0');
    let a = (value / 4096) as nat;
    let b = (value / 256 % 16) as nat;
    let c = (value / 16 % 16) as nat;
    let d = (value % 16) as nat;
    let none = Seq::<char>::empty();
    let one = none.push(text::digit_char(a));
    let two = one.push(text::digit_char(b));
    let three = two.push(text::digit_char(c));
    numbers_grow_digit_by_digit(none, text::digit_char(a), 16, max);
    numbers_grow_digit_by_digit(one, text::digit_char(b), 16, max);
    numbers_grow_digit_by_digit(two, text::digit_char(c), 16, max);
    numbers_grow_digit_by_digit(three, text::digit_char(d), 16, max);
    assert(a * 4096 + b * 256 + c * 16 + d == value);
    assert(text::hex4(value) =~= three.push(text::digit_char(d)));
}

/// A number is never greater than it may be, and is written in digits alone, but for a plus sign in
/// front.
pub proof fn only_digits_are_numbers(digits: Seq<char>, radix: nat, max: nat)
    ensures
        text::number_of(digits, radix, max) matches Ok(value) ==> value <= max && forall|i: int|
            0 <= i < digits.len() ==> text::digit_of(#[trigger] digits[i]) is Some
                && text::digit_of(digits[i])->0 < radix,
        text::number(Seq::empty(), radix, max) == Err::<nat, _>(NumberError::Empty),
    decreases digits.len(),
{
    if digits.len() > 0 {
        let front = digits.drop_last();
        only_digits_are_numbers(front, radix, max);
        if text::number_of(digits, radix, max) is Ok {
            assert forall|i: int| 0 <= i < digits.len() implies text::digit_of(
                #[trigger] digits[i],
            ) is Some && text::digit_of(digits[i])->0 < radix by {
                if i < front.len() {
                    assert(front[i] == digits[i]);
                }
            }
        }
    }
}

/// A plus sign in front of a number makes no difference, but is no number by itself, and neither is
/// one behind another.
pub proof fn one_plus_sign_makes_no_difference(digits: Seq<char>, radix: nat, max: nat)
    requires
        digits.len() > 0,
        digits[0] != '+',
    ensures
        text::number(digits, radix, max) == text::number_of(digits, radix, max),
        text::number(seq!['+'] + digits, radix, max) == text::number_of(digits, radix, max),
        text::number(seq!['+'], radix, max) == Err::<nat, _>(NumberError::InvalidDigit),
        text::number(seq!['+', '+'] + digits, radix, max) == Err::<nat, _>(
            NumberError::InvalidDigit,
        ),
{
    digits_count_in_order('+');
    assert((seq!['+'] + digits).skip(1) =~= digits);
    assert(seq!['+'].drop_last() =~= Seq::empty());
    numbers_grow_digit_by_digit(Seq::empty(), '+', radix, max);
    assert(Seq::<char>::empty().push('+') =~= seq!['+']);
    assert((seq!['+', '+'] + digits).skip(1) =~= seq!['+'] + digits);
    lemma_bad_start(digits, radix, max);
}

proof fn lemma_bad_start(digits: Seq<char>, radix: nat, max: nat)
    ensures
        text::number_of(seq!['+'] + digits, radix, max) == Err::<nat, _>(
            NumberError::InvalidDigit,
        ),
    decreases digits.len(),
{
    digits_count_in_order('+');
    if digits.len() == 0 {
        numbers_grow_digit_by_digit(Seq::empty(), '+', radix, max);
        assert(seq!['+'] + digits =~= Seq::<char>::empty().push('+'));
    } else {
        lemma_bad_start(digits.drop_last(), radix, max);
        assert((seq!['+'] + digits).drop_last() =~= seq!['+'] + digits.drop_last());
    }
}

/// Zeros in front do not count.
pub proof fn leading_zeros_do_not_count(digits: Seq<char>, radix: nat, max: nat)
    requires
        radix > 0,
    ensures
        text::number_of(seq!['0'] + digits, radix, max) == text::number_of(digits, radix, max),
    decreases digits.len(),
{
    digits_count_in_order('0');
    if digits.len() == 0 {
        numbers_grow_digit_by_digit(Seq::empty(), '0', radix, max);
        assert(0 * radix == 0) by (nonlinear_arith);
        assert(seq!['0'] + digits =~= Seq::<char>::empty().push('0'));
    } else {
        leading_zeros_do_not_count(digits.drop_last(), radix, max);
        assert((seq!['0'] + digits).drop_last() =~= seq!['0'] + digits.drop_last());
        assert((seq!['0'] + digits).last() == digits.last());
    }
}

} // verus!
