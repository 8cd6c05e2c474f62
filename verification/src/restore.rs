//! The forms in which texts and dates of an older archive are taken
//! over.

use crate::date::{utc_millis, UtcDate};
use crate::expedient::{Expedient, Order, OrderState};
use crate::names::{all_digits, digits_value, is_digit, lemma_digits_monotone};
use crate::time::valid_date;
use crate::text::{
    chars_of, is_prefix, matches_at, occurs_at, push_char, string_of, to_uppercase, trim, trimmed,
    uppercased,
};
use vstd::prelude::*;

verus! {

/// Whether `char::is_alphabetic` holds of a character: whether it has the
/// Unicode property `Alphabetic`.
pub uninterp spec fn alphabetic(c: char) -> bool;

/// The characters that `char::to_uppercase` gives for a character.
pub uninterp spec fn upper_of(c: char) -> Seq<char>;

/// Calls `char::is_alphabetic`. Claimed: the answer is the named function
/// of the character.
#[verifier::external_body]
fn is_alphabetic(c: char) -> (alpha: bool)
    ensures
        alpha == alphabetic(c),
{
    c.is_alphabetic()
}

/// Calls `char::to_uppercase` and collects what it yields. Claimed: the
/// result is the named function of the character.
#[verifier::external_body]
fn char_to_uppercase(c: char) -> (upper: String)
    ensures
        upper@ == upper_of(c),
{
    c.to_uppercase().to_string()
}

/// A text with every occurrence of `from` turned into `to`, reading from
/// the left.
pub open spec fn replaced_text(text: Seq<char>, from: Seq<char>, to: Seq<char>) -> Seq<char>
    decreases text.len(),
{
    if text.len() == 0 || from.len() == 0 {
        text
    } else if is_prefix(from, text) {
        to + replaced_text(text.skip(from.len() as int), from, to)
    } else {
        seq![text[0]] + replaced_text(text.drop_first(), from, to)
    }
}

/// Turns every occurrence of `from` into `to`, reading from the left.
pub fn replace_text(text: &Vec<char>, from: &Vec<char>, to: &Vec<char>) -> (out: Vec<char>)
    requires
        from@.len() > 0,
    ensures
        out@ == replaced_text(text@, from@, to@),
{
    let mut out: Vec<char> = Vec::new();
    let mut i: usize = 0;
    proof {
        assert(text@.skip(0) =~= text@);
    }
    while i < text.len()
        invariant
            i <= text.len(),
            from@.len() > 0,
            out@ + replaced_text(text@.skip(i as int), from@, to@) == replaced_text(
                text@,
                from@,
                to@,
            ),
        decreases text.len() - i,
    {
        let ghost rest = text@.skip(i as int);
        let ghost was = out@;
        if matches_at(from, text, i) {
            proof {
                assert(rest.subrange(0, from@.len() as int) =~= text@.subrange(
                    i as int,
                    i + from@.len(),
                ));
                assert(rest.skip(from@.len() as int) =~= text@.skip(i + from@.len()));
            }
            let mut k: usize = 0;
            while k < to.len()
                invariant
                    k <= to.len(),
                    out@ == was + to@.take(k as int),
                decreases to.len() - k,
            {
                out.push(to[k]);
                proof {
                    assert(was + to@.take(k + 1) =~= (was + to@.take(k as int)).push(to@[k as int]));
                }
                k += 1;
            }
            proof {
                assert(to@.take(k as int) =~= to@);
                assert((was + to@) + replaced_text(text@.skip(i + from@.len()), from@, to@) =~= was
                    + (to@ + replaced_text(text@.skip(i + from@.len()), from@, to@)));
            }
            i += from.len();
        } else {
            proof {
                if occurs_at(from@, rest, 0) {
                    assert(rest.subrange(0, from@.len() as int) =~= text@.subrange(
                        i as int,
                        i + from@.len(),
                    ));
                }
                assert(rest.drop_first() =~= text@.skip(i + 1));
                assert(rest[0] == text@[i as int]);
                assert((was.push(text@[i as int])) + replaced_text(text@.skip(i + 1), from@, to@)
                    =~= was + (seq![text@[i as int]] + replaced_text(
                    text@.skip(i + 1),
                    from@,
                    to@,
                )));
            }
            out.push(text[i]);
            i += 1;
        }
    }
    proof {
        assert(text@.skip(i as int) =~= Seq::<char>::empty());
        assert(out@ + Seq::<char>::empty() =~= out@);
    }
    out
}

/// What has been written of a title when a text has been read, and
/// whether the next letter begins a word.
pub open spec fn title_state(text: Seq<char>) -> (Seq<char>, bool)
    decreases text.len(),
{
    if text.len() == 0 {
        (Seq::empty(), true)
    } else {
        let (out, first) = title_state(text.drop_last());
        let c = text.last();
        if alphabetic(c) {
            if first {
                (out + upper_of(c), false)
            } else {
                (out.push(c), false)
            }
        } else {
            (out.push(c), c == ' ')
        }
    }
}

/// A text as a title: trimmed, the first letter of each word in upper
/// case, a word being what follows a space; and `BMW` for `Bmw`.
pub open spec fn titlecased(text: Seq<char>) -> Seq<char> {
    replaced_text(title_state(trimmed(text)).0, "Bmw"@, "BMW"@)
}

/// A text as a title.
pub fn titlecase(text: &str) -> (title: String)
    ensures
        title@ == titlecased(text@),
{
    let chars = chars_of(trim(text));
    let mut formated_text: Vec<char> = Vec::new();
    let mut first_letter_of_word = true;
    let mut i: usize = 0;
    proof {
        assert(chars@.take(0) =~= Seq::empty());
    }
    while i < chars.len()
        invariant
            i <= chars.len(),
            (formated_text@, first_letter_of_word) == title_state(chars@.take(i as int)),
        decreases chars.len() - i,
    {
        let c = chars[i];
        proof {
            assert(chars@.take(i + 1).drop_last() =~= chars@.take(i as int));
            assert(chars@.take(i + 1).last() == c);
        }
        if is_alphabetic(c) {
            if first_letter_of_word {
                first_letter_of_word = false;
                let upper = chars_of(char_to_uppercase(c).as_str());
                let ghost was = formated_text@;
                let mut k: usize = 0;
                while k < upper.len()
                    invariant
                        k <= upper.len(),
                        formated_text@ == was + upper@.take(k as int),
                    decreases upper.len() - k,
                {
                    formated_text.push(upper[k]);
                    proof {
                        assert(was + upper@.take(k + 1) =~= (was + upper@.take(k as int)).push(
                            upper@[k as int],
                        ));
                    }
                    k += 1;
                }
                proof {
                    assert(upper@.take(k as int) =~= upper@);
                }
            } else {
                formated_text.push(c);
            }
        } else if c == ' ' {
            formated_text.push(c);
            first_letter_of_word = true;
        } else {
            formated_text.push(c);
            first_letter_of_word = false;
        }
        i += 1;
    }
    proof {
        assert(chars@.take(i as int) =~= chars@);
        reveal_strlit("Bmw");
        reveal_strlit("BMW");
    }
    let from = chars_of("Bmw");
    let to = chars_of("BMW");
    string_of(&replace_text(&formated_text, &from, &to))
}

/// The name of a user as a title.
pub fn format_user(user: &str) -> (formatted: String)
    ensures
        formatted@ == titlecased(user@),
{
    titlecase(user)
}

/// The character of a digit to the base 36: `0` to `9`, then `A` to `Z`.
pub open spec fn digit36(digit: int) -> char {
    if digit < 10 {
        (digit + 48) as char
    } else {
        (digit + 55) as char
    }
}

/// The digits of a number to the base 36, without leading zeros.
pub open spec fn base36(n: nat) -> Seq<char>
    decreases n,
{
    if n < 36 {
        seq![digit36(n as int)]
    } else {
        base36(n / 36).push(digit36((n % 36) as int))
    }
}

fn base36_digits(n: u64) -> (text: String)
    ensures
        text@ == base36(n as nat),
    decreases n,
{
    let mut text = if n < 36 {
        String::new()
    } else {
        base36_digits(n / 36)
    };
    let digit = (n % 36) as u8;
    let c = if digit < 10 {
        (digit + 48) as char
    } else {
        (digit + 55) as char
    };
    push_char(&mut text, c);
    proof {
        if n < 36 {
            assert(text@ =~= seq![digit36(n as int)]);
        }
    }
    text
}

/// A short name for a date: its hash to the base 36.
pub fn compress_date_hash(x: i64) -> (name: String)
    requires
        x >= 0,
    ensures
        name@ == base36(x as nat),
{
    base36_digits(x as u64)
}

/// A letter of the ASCII alphabet.
pub open spec fn ascii_letter(c: char) -> bool {
    'A' <= c <= 'Z' || 'a' <= c <= 'z'
}

/// Every character is an ASCII character.
pub open spec fn all_ascii(text: Seq<char>) -> bool {
    forall|i: int| 0 <= i < text.len() ==> (#[trigger] text[i]) <= '\x7f'
}

/// A license plate in the form in which it is kept: trimmed and in upper
/// case; where it is written in ASCII and a letter follows a digit at the
/// fifth place, with a space between the two.
pub open spec fn plate_formatted(license: Seq<char>) -> Seq<char> {
    let plate = uppercased(trimmed(license));
    if all_ascii(plate) && plate.len() >= 6 && is_digit(plate[4]) && ascii_letter(plate[5]) {
        plate.insert(5, ' ')
    } else {
        plate
    }
}

/// A license plate in the form in which it is kept.
pub fn format_license_plate(license: &str) -> (formatted: String)
    ensures
        formatted@ == plate_formatted(license@),
{
    let upper = to_uppercase(trim(license));
    let mut chars = chars_of(upper.as_str());
    let mut i: usize = 0;
    while i < chars.len()
        invariant
            i <= chars.len(),
            chars@ == upper@,
            upper@ == uppercased(trimmed(license@)),
            forall|k: int| 0 <= k < i ==> (#[trigger] chars@[k]) <= '\x7f',
        decreases chars.len() - i,
    {
        if chars[i] > '\x7f' {
            assert(!(chars@[i as int] <= '\x7f'));
            assert(!all_ascii(chars@));
            return upper;
        }
        i += 1;
    }
    if chars.len() >= 6 {
        let digit = chars[4];
        let letter = chars[5];
        if digit >= '0' && digit <= '9' && ((letter >= 'A' && letter <= 'Z') || (letter >= 'a'
            && letter <= 'z')) {
            chars.insert(5, ' ');
            return string_of(&chars);
        }
    }
    upper
}

/// What a scan for the parts of a text between its `/` has found when it
/// has read a text: the parts that are complete, and the part that it is
/// in.
pub open spec fn parts_state(text: Seq<char>) -> (Seq<Seq<char>>, Seq<char>)
    decreases text.len(),
{
    if text.len() == 0 {
        (Seq::empty(), Seq::empty())
    } else {
        let (done, part) = parts_state(text.drop_last());
        if text.last() == '/' {
            (done.push(part), Seq::empty())
        } else {
            (done, part.push(text.last()))
        }
    }
}

/// The parts of a text between its `/`: one more than it has `/`.
pub open spec fn slash_parts(text: Seq<char>) -> Seq<Seq<char>> {
    parts_state(text).0.push(parts_state(text).1)
}

/// The number that a text spells: an optional `+`, then one decimal digit
/// or more, within the range of `u32`. `None` for any other text.
pub open spec fn number_of(text: Seq<char>) -> Option<u32> {
    let digits = if text.len() > 0 && text[0] == '+' {
        text.drop_first()
    } else {
        text
    };
    if digits.len() == 0 || !all_digits(digits) || digits_value(digits) > u32::MAX {
        None
    } else {
        Some(digits_value(digits) as u32)
    }
}

/// The year that a number stands for: the number itself, or, above the
/// range of `i32`, the number less 2 to the 32.
pub open spec fn year_of_number(number: u32) -> int {
    if number <= i32::MAX {
        number as int
    } else {
        number - 4_294_967_296
    }
}

/// The date that a text of the form `day/month/year` names, at eight
/// o'clock, moved on by `offset` milliseconds. `None` where the text has
/// less than three parts, where a part is no number, where there is no
/// such day, or where the date does not fit.
pub open spec fn archive_date_of(text: Seq<char>, offset: i64) -> Option<i64> {
    let parts = slash_parts(text);
    if parts.len() >= 3 && (forall|i: int|
        0 <= i < parts.len() ==> number_of(#[trigger] parts[i]).is_some()) {
        let day = number_of(parts[0])->0 as int;
        let month = number_of(parts[1])->0 as int;
        let year = year_of_number(number_of(parts[2])->0);
        if valid_date(year, month, day) && i64::MIN <= utc_millis(year, month, day, 8) + offset
            <= i64::MAX {
            Some((utc_millis(year, month, day, 8) + offset) as i64)
        } else {
            None
        }
    } else {
        None
    }
}

fn parse_number(text: &Vec<char>) -> (number: Option<u32>)
    ensures
        number == number_of(text@),
{
    let n = text.len();
    if n == 0 {
        return None;
    }
    let signed = text[0] == '+';
    let start: usize = if signed {
        1
    } else {
        0
    };
    if start == n {
        return None;
    }
    let ghost digits = if signed {
        text@.drop_first()
    } else {
        text@
    };
    let mut value: u64 = 0;
    let mut i = start;
    while i < n
        invariant
            start <= i <= n,
            n == text@.len(),
            signed == (text@[0] == '+'),
            start == (if signed { 1int } else { 0int }),
            digits == (if signed { text@.drop_first() } else { text@ }),
            forall|j: int| 0 <= j < i - start ==> is_digit(#[trigger] digits[j]),
            value == digits_value(digits.subrange(0, i - start)),
            0 <= value <= 4_294_967_295,
        decreases n - i,
    {
        let c = text[i];
        assert(c == digits[i - start]);
        if !(c >= '0' && c <= '9') {
            assert(!is_digit(digits[i - start]));
            assert(!all_digits(digits));
            return None;
        }
        let digit = (c as u32 - '0' as u32) as u64;
        proof {
            let longer = digits.subrange(0, i - start + 1);
            assert(longer.drop_last() =~= digits.subrange(0, i - start));
            assert(longer.last() == c);
            assert(digits_value(longer) == value * 10 + digit);
        }
        value = value * 10 + digit;
        if value > 4_294_967_295 {
            proof {
                if all_digits(digits) {
                    lemma_digits_monotone(digits, i - start + 1);
                }
            }
            return None;
        }
        i += 1;
    }
    proof {
        assert(digits.subrange(0, i - start) =~= digits);
    }
    Some(value as u32)
}

fn split_slashes(text: &Vec<char>) -> (parts: Vec<Vec<char>>)
    ensures
        crate::text::texts(parts@) == slash_parts(text@),
{
    let mut parts: Vec<Vec<char>> = Vec::new();
    let mut part: Vec<char> = Vec::new();
    let mut i: usize = 0;
    proof {
        assert(crate::text::texts(parts@) =~= Seq::empty());
    }
    while i < text.len()
        invariant
            i <= text.len(),
            (crate::text::texts(parts@), part@) == parts_state(text@.take(i as int)),
        decreases text.len() - i,
    {
        proof {
            assert(text@.take(i + 1).drop_last() =~= text@.take(i as int));
        }
        let c = text[i];
        if c == '/' {
            let ghost before = parts@;
            let ghost full = part@;
            parts.push(part);
            part = Vec::new();
            proof {
                assert(crate::text::texts(parts@) =~= crate::text::texts(before).push(full));
            }
        } else {
            part.push(c);
        }
        i += 1;
    }
    proof {
        assert(text@.take(text@.len() as int) =~= text@);
    }
    let ghost before = parts@;
    let ghost full = part@;
    parts.push(part);
    proof {
        assert(crate::text::texts(parts@) =~= crate::text::texts(before).push(full));
    }
    parts
}

/// Reads the date of a record of the older archive: a text of the form
/// `day/month/year`. The date is that day at eight o'clock, moved on by
/// `offset` milliseconds, so that records of one day keep their order.
pub fn archive_date(text: &str, offset: i64) -> (date: Option<UtcDate>)
    ensures
        match date {
            Some(d) => archive_date_of(text@, offset) == Some(d@),
            None => archive_date_of(text@, offset).is_none(),
        },
{
    let parts = split_slashes(&chars_of(text));
    let ghost spelled = slash_parts(text@);
    let mut numbers: Vec<u32> = Vec::new();
    let mut i: usize = 0;
    while i < parts.len()
        invariant
            i <= parts.len(),
            crate::text::texts(parts@) == spelled,
            spelled == slash_parts(text@),
            numbers@.len() == i,
            forall|k: int| 0 <= k < i ==> number_of(#[trigger] spelled[k]) == Some(numbers@[k]),
        decreases parts.len() - i,
    {
        proof {
            assert(spelled[i as int] == parts@[i as int]@);
        }
        match parse_number(&parts[i]) {
            Some(number) => numbers.push(number),
            None => {
                assert(number_of(spelled[i as int]).is_none());
                return None;
            },
        }
        i += 1;
    }
    if numbers.len() < 3 {
        return None;
    }
    let day = numbers[0];
    let month = numbers[1];
    let year: i32 = if numbers[2] <= 2147483647 {
        numbers[2] as i32
    } else {
        (numbers[2] as i64 - 4_294_967_296) as i32
    };
    proof {
        assert(number_of(spelled[0]) == Some(day));
        assert(number_of(spelled[1]) == Some(month));
        assert(number_of(spelled[2]) == Some(numbers@[2]));
        assert(year == year_of_number(numbers@[2]));
    }
    match UtcDate::try_ymdh(year, month, day, 8) {
        Some(date) => {
            let hash = date.date_hash();
            if (offset >= 0 && hash <= i64::MAX - offset) || (offset < 0 && hash >= i64::MIN
                - offset) {
                Some(UtcDate::from_hash(hash + offset))
            } else {
                None
            }
        },
        None => None,
    }
}

/// The record that stands for a vehicle of the older archive: its texts
/// in the forms in which they are kept, and one order, done on the date of
/// the record, that marks it as taken over.
pub fn archive_expedient(
    user: &str,
    model: &str,
    vin: &str,
    matricula: &str,
    cos: &str,
    date: UtcDate,
) -> (expedient: Expedient)
    ensures
        expedient.user@ == titlecased(user@),
        expedient.model@ == titlecased(model@),
        expedient.vin@ == uppercased(vin@),
        expedient.license_plate@ == plate_formatted(matricula@),
        expedient.description@ == cos@,
        expedient.date == date,
        expedient.orders@.len() == 1,
        expedient.orders@[0].date == date,
        expedient.orders@[0].title@ == "Antic"@,
        expedient.orders@[0].description@ == ""@,
        expedient.orders@[0].state == OrderState::Done,
{
    let mut orders: Vec<Order> = Vec::new();
    orders.push(
        Order {
            date,
            description: "".to_owned(),
            title: "Antic".to_owned(),
            state: OrderState::Done,
        },
    );
    Expedient {
        user: format_user(user),
        date,
        vin: to_uppercase(vin),
        license_plate: format_license_plate(matricula),
        description: cos.to_owned(),
        model: titlecase(model),
        orders,
    }
}

} // verus!
