//! The notation of lengths of time, as `humantime` reads it: numbers with units, which are added
//! up.

use crate::text::chars_of;
use crate::time::{Duration, NANOS_PER_SEC};
use vstd::prelude::*;
#[allow(unused_imports)]
use vstd::string::*;
#[allow(unused_imports)]
use vstd::utf8::encode_utf8;

verus! {

/// What `humantime` makes of the notation of a length of time: the length, or what the error
/// reads as.
pub uninterp spec fn duration_of(text: Seq<char>) -> Result<Duration, Seq<char>>;

pub open spec fn is_digit(c: char) -> bool {
    '0' <= c <= '9'
}

pub open spec fn is_letter(c: char) -> bool {
    'a' <= c <= 'z' || 'A' <= c <= 'Z'
}

/// The number of digits in a text.
pub open spec fn digits(text: Seq<char>) -> nat
    decreases text.len(),
{
    if text.len() == 0 {
        0
    } else {
        digits(text.drop_last()) + if is_digit(text.last()) {
            1
        } else {
            0nat
        }
    }
}

/// Whether a text holds one number at most: no digit comes after a letter.
pub open spec fn one_number(text: Seq<char>) -> bool {
    forall|i: int, j: int|
        0 <= i < j < text.len() && is_letter(#[trigger] text[i]) ==> !is_digit(#[trigger] text[j])
}

/// Where the number that begins a text ends, with its unit: before the first digit that comes
/// after a letter. `letter` tells whether a letter comes before `from`.
pub open spec fn piece_end(text: Seq<char>, from: int, letter: bool) -> int
    decreases text.len() - from,
{
    if from < 0 || from >= text.len() {
        text.len() as int
    } else if letter && is_digit(text[from]) {
        from
    } else {
        piece_end(text, from + 1, letter || is_letter(text[from]))
    }
}

/// The number that begins a text, with its unit.
pub open spec fn piece(text: Seq<char>) -> Seq<char> {
    text.take(piece_end(text, 0, false))
}

/// What comes after the number that begins a text.
pub open spec fn rest(text: Seq<char>) -> Seq<char> {
    text.skip(piece_end(text, 0, false))
}

/// 2^64 seconds, in nanoseconds: every length of time is shorter.
pub const TOO_LONG: u128 = 18_446_744_073_709_551_616_000_000_000;

/// 10^11 years, in nanoseconds: a number of up to eleven digits is less, in any unit.
pub const LONG: u128 = 3_155_760_000_000_000_000_000_000_000;

/// Whether a character is white space, as Unicode has it.
pub open spec fn is_white(c: char) -> bool {
    ||| '\t' <= c <= '\r'
    ||| c == ' '
    ||| c == '\u{85}'
    ||| c == '\u{a0}'
    ||| c == '\u{1680}'
    ||| '\u{2000}' <= c <= '\u{200a}'
    ||| c == '\u{2028}'
    ||| c == '\u{2029}'
    ||| c == '\u{202f}'
    ||| c == '\u{205f}'
    ||| c == '\u{3000}'
}

/// Where the unit of a number ends: before the first white space that comes after a letter.
/// `letter` tells whether a letter comes before `from`.
pub open spec fn unit_end(text: Seq<char>, from: int, letter: bool) -> int
    decreases text.len() - from,
{
    if from < 0 || from >= text.len() {
        text.len() as int
    } else if letter && is_white(text[from]) {
        from
    } else {
        unit_end(text, from + 1, letter || is_letter(text[from]))
    }
}

/// A number with its unit, without what comes after the unit.
pub open spec fn bare(piece: Seq<char>) -> Seq<char> {
    piece.take(unit_end(piece, 0, false))
}

/// A piece at the place that it has in a text, behind as many blanks as what is before it has
/// bytes.
pub open spec fn placed(before: Seq<char>, piece: Seq<char>) -> Seq<char> {
    Seq::new(encode_utf8(before).len(), |i: int| ' ') + piece
}

/// Whether the lengths in a text, with the `sum` of those in what is before it, add up to less
/// than 2^64 seconds, as far as they can be read, and leave room for one that cannot be read.
pub open spec fn fits(before: Seq<char>, text: Seq<char>, sum: nat) -> bool
    decreases text.len(),
{
    if text.len() == 0 {
        true
    } else {
        match duration_of(placed(before, piece(text))) {
            Ok(length) => {
                &&& sum + length.total() < TOO_LONG
                &&& rest(text).len() < text.len()
                &&& fits(before + piece(text), rest(text), sum + length.total())
            },
            Err(_) => digits(piece(text)) <= 11 && sum + LONG < TOO_LONG,
        }
    }
}

/// Why the lengths in a text do not fit: their sum, or one that cannot be read, whichever comes
/// first. A length is added once its unit is read, whatever comes after the unit.
pub open spec fn refusal(before: Seq<char>, text: Seq<char>, sum: nat) -> Seq<char>
    decreases text.len(),
{
    match duration_of(placed(before, piece(text))) {
        Ok(length) => if sum + length.total() < TOO_LONG && rest(text).len() < text.len() {
            refusal(before + piece(text), rest(text), sum + length.total())
        } else {
            too_long_text()
        },
        Err(error) => match duration_of(placed(before, bare(piece(text)))) {
            Ok(length) => if sum + length.total() < TOO_LONG {
                error
            } else {
                too_long_text()
            },
            Err(_) => error,
        },
    }
}

pub open spec fn too_long_text() -> Seq<char> {
    "number is too large or cannot be represented without a lack of precision (values below 1ns are not supported)"@
}

/// Whether a text holds one number at most, or its lengths fit.
pub open spec fn bounded(text: Seq<char>) -> bool {
    one_number(text) || fits(Seq::empty(), text, 0)
}

/// What a text is read as. Lengths that do not fit are refused.
pub open spec fn reading(text: Seq<char>) -> Result<Duration, Seq<char>> {
    if bounded(text) {
        duration_of(text)
    } else {
        Err(refusal(Seq::empty(), text, 0))
    }
}

/// `humantime::parse_duration`: a function of the text alone. It panics where a sum comes to
/// 2^64 seconds by its nanoseconds, which takes two numbers, and no sum of a text whose lengths
/// fit comes to that.
#[verifier::external_body]
fn parse_duration(text: &str) -> (r: Result<Duration, String>)
    requires
        bounded(text@),
    ensures
        match r {
            Ok(length) => duration_of(text@) == Ok::<Duration, Seq<char>>(length)
                && length.nanos < NANOS_PER_SEC,
            Err(error) => duration_of(text@) == Err::<Duration, Seq<char>>(error@),
        },
{
    match humantime::parse_duration(text) {
        Ok(length) => Ok(Duration { secs: length.as_secs(), nanos: length.subsec_nanos() }),
        Err(error) => Err(error.to_string()),
    }
}

proof fn lemma_piece_end(text: Seq<char>, from: int, letter: bool)
    requires
        0 <= from <= text.len(),
        letter || forall|i: int| 0 <= i < from ==> !is_letter(#[trigger] text[i]),
        forall|i: int, j: int|
            0 <= i < j < from && is_letter(#[trigger] text[i]) ==> !is_digit(#[trigger] text[j]),
    ensures
        from <= piece_end(text, from, letter) <= text.len(),
        one_number(text.take(piece_end(text, from, letter))),
        from < text.len() && !letter ==> piece_end(text, from, letter) > from,
    decreases text.len() - from,
{
    let end = piece_end(text, from, letter);
    if from < text.len() && !(letter && is_digit(text[from])) {
        lemma_piece_end(text, from + 1, letter || is_letter(text[from]));
    } else {
        let head = text.take(end);
        assert forall|i: int, j: int|
            0 <= i < j < head.len() && is_letter(#[trigger] head[i]) implies !is_digit(
            #[trigger] head[j],
        ) by {
            assert(is_letter(text[i]));
            assert(text[j] == head[j]);
        }
    }
}

/// A text of one number is its own first piece.
proof fn lemma_one_piece(text: Seq<char>, from: int, letter: bool)
    requires
        0 <= from <= text.len(),
        letter == exists|i: int| 0 <= i < from && is_letter(#[trigger] text[i]),
        one_number(text),
    ensures
        piece_end(text, from, letter) == text.len(),
    decreases text.len() - from,
{
    if from < text.len() {
        assert(!(letter && is_digit(text[from])));
        lemma_one_piece(text, from + 1, letter || is_letter(text[from]));
    }
}

fn find_piece_end(chars: &Vec<char>) -> (end: usize)
    ensures
        end == piece_end(chars@, 0, false),
        end <= chars@.len(),
{
    let mut letter: bool = false;
    let mut i: usize = 0;
    while i < chars.len() && !(letter && '0' <= chars[i] && chars[i] <= '9')
        invariant
            i <= chars@.len(),
            piece_end(chars@, 0, false) == piece_end(chars@, i as int, letter),
        decreases chars@.len() - i,
    {
        let c: char = chars[i];
        letter = letter || 'a' <= c && c <= 'z' || 'A' <= c && c <= 'Z';
        i = i + 1;
    }
    i
}

fn count_digits(text: &str) -> (n: usize)
    ensures
        n == digits(text@),
{
    let chars: Vec<char> = chars_of(text);
    let mut n: usize = 0;
    let mut i: usize = 0;
    while i < chars.len()
        invariant
            chars@ == text@,
            n <= i <= chars@.len(),
            n == digits(text@.take(i as int)),
        decreases chars@.len() - i,
    {
        assert(text@.take(i + 1).drop_last() =~= text@.take(i as int));
        if '0' <= chars[i] && chars[i] <= '9' {
            n = n + 1;
        }
        i = i + 1;
    }
    assert(text@.take(i as int) =~= text@);
    n
}

/// The first characters of a text of one number hold one number.
proof fn lemma_placed(before: Seq<char>, text: Seq<char>, n: int)
    requires
        0 <= n <= text.len(),
        one_number(text),
    ensures
        one_number(placed(before, text.take(n))),
{
    let k = encode_utf8(before).len();
    let whole = placed(before, text.take(n));
    assert forall|i: int, j: int|
        0 <= i < j < whole.len() && is_letter(#[trigger] whole[i]) implies !is_digit(
        #[trigger] whole[j],
    ) by {
        assert(i >= k);
        assert(whole[i] == text[i - k] && whole[j] == text[j - k]);
    }
}

fn find_unit_end(chars: &Vec<char>) -> (end: usize)
    ensures
        end == unit_end(chars@, 0, false),
        end <= chars@.len(),
{
    let mut letter: bool = false;
    let mut i: usize = 0;
    while i < chars.len() && !(letter && white(chars[i]))
        invariant
            i <= chars@.len(),
            unit_end(chars@, 0, false) == unit_end(chars@, i as int, letter),
        decreases chars@.len() - i,
    {
        let c: char = chars[i];
        letter = letter || 'a' <= c && c <= 'z' || 'A' <= c && c <= 'Z';
        i = i + 1;
    }
    i
}

fn white(c: char) -> (r: bool)
    ensures
        r == is_white(c),
{
    '\t' <= c && c <= '\r' || c == ' ' || c == '\u{85}' || c == '\u{a0}' || c == '\u{1680}'
        || '\u{2000}' <= c && c <= '\u{200a}' || c == '\u{2028}' || c == '\u{2029}' || c
        == '\u{202f}' || c == '\u{205f}' || c == '\u{3000}'
}

/// Puts a piece at its place.
fn place(before: &str, piece: &str) -> (r: String)
    ensures
        r@ == placed(before@, piece@),
{
    let n: usize = before.as_bytes().len();
    let mut r: String = String::new();
    let mut i: usize = 0;
    proof {
        reveal_strlit(" ");
    }
    while i < n
        invariant
            i <= n,
            r@ == Seq::new(i as nat, |i: int| ' '),
            " "@ == seq![' '],
        decreases n - i,
    {
        r.append(" ");
        assert(r@ =~= Seq::new((i + 1) as nat, |i: int| ' '));
        i = i + 1;
    }
    r.append(piece);
    r
}

/// Reads the lengths in a text one by one, and tells why they do not fit.
fn survey(text: &str) -> (r: Option<String>)
    ensures
        match r {
            None => fits(Seq::empty(), text@, 0),
            Some(reason) => !fits(Seq::empty(), text@, 0) && reason@ == refusal(
                Seq::empty(),
                text@,
                0,
            ),
        },
{
    let mut done: String = String::new();
    let mut left: String = text.to_owned();
    let mut sum: u128 = 0;
    assert(done@ =~= Seq::<char>::empty());
    while !left.as_str().is_empty()
        invariant
            sum < TOO_LONG,
            fits(Seq::empty(), text@, 0) == fits(done@, left@, sum as nat),
            refusal(Seq::empty(), text@, 0) == refusal(done@, left@, sum as nat),
        decreases left@.len(),
    {
        let chars: Vec<char> = chars_of(left.as_str());
        let end: usize = find_piece_end(&chars);
        proof {
            lemma_piece_end(left@, 0, false);
            assert(left@.subrange(0, end as int) =~= piece(left@));
            assert(left@.subrange(end as int, left@.len() as int) =~= rest(left@));
            lemma_placed(done@, piece(left@), end as int);
            assert(piece(left@).take(end as int) =~= piece(left@));
        }
        let head: String = left.as_str().substring_char(0, end).to_owned();
        let tail: String = left.as_str().substring_char(end, chars.len()).to_owned();
        match parse_duration(place(done.as_str(), head.as_str()).as_str()) {
            Ok(length) => {
                let total: u128 = length.as_nanos();
                if total >= TOO_LONG - sum {
                    return Some(too_long());
                }
                sum = sum + total;
                done.append(head.as_str());
                left = tail;
            },
            Err(error) => {
                if count_digits(head.as_str()) <= 11 && sum < TOO_LONG - LONG {
                    return None;
                }
                let unit: usize = find_unit_end(&chars_of(head.as_str()));
                proof {
                    lemma_placed(done@, piece(left@), unit as int);
                    assert(head@.subrange(0, unit as int) =~= bare(piece(left@)));
                }
                let number: String = head.as_str().substring_char(0, unit).to_owned();
                if let Ok(length) = parse_duration(place(done.as_str(), number.as_str()).as_str()) {
                    if length.as_nanos() >= TOO_LONG - sum {
                        return Some(too_long());
                    }
                }
                return Some(error);
            },
        }
    }
    None
}

fn too_long() -> (r: String)
    ensures
        r@ == too_long_text(),
{
    "number is too large or cannot be represented without a lack of precision (values below 1ns are not supported)".to_owned()
}

/// Reads a length of time.
pub fn read_length(text: &str) -> (r: Result<Duration, String>)
    ensures
        match reading(text@) {
            Ok(length) => r == Ok::<Duration, String>(length) && length.nanos < NANOS_PER_SEC,
            Err(error) => r matches Err(reason) && reason@ == error,
        },
{
    let chars: Vec<char> = chars_of(text);
    let end: usize = find_piece_end(&chars);
    proof {
        lemma_piece_end(text@, 0, false);
        if one_number(text@) {
            lemma_one_piece(text@, 0, false);
        }
        assert(text@.take(text@.len() as int) =~= text@);
    }
    if end < chars.len() {
        if let Some(reason) = survey(text) {
            return Err(reason);
        }
    }
    parse_duration(text)
}

/// What is read is what `humantime` makes of the text, or an error.
pub proof fn no_length_is_made_up(text: Seq<char>)
    ensures
        reading(text) is Ok ==> reading(text) == duration_of(text),
{
}

/// A text of one number is read as `humantime` reads it.
pub proof fn one_number_is_read(text: Seq<char>)
    requires
        forall|i: int, j: int|
            0 <= i < j < text.len() && ('a' <= #[trigger] text[i] <= 'z' || 'A' <= text[i] <= 'Z')
                ==> !('0' <= #[trigger] text[j] <= '9'),
    ensures
        reading(text) == duration_of(text),
{
    assert(one_number(text)) by {
        assert forall|i: int, j: int|
            0 <= i < j < text.len() && is_letter(#[trigger] text[i]) implies !is_digit(
            #[trigger] text[j],
        ) by {}
    }
}

/// Whether a text begins with a number and its unit, which `end` parts from the next number.
pub open spec fn begins_with_a_number(text: Seq<char>, end: int) -> bool {
    &&& 0 < end <= text.len()
    &&& forall|i: int, j: int|
        0 <= i < j < end && ('a' <= #[trigger] text[i] <= 'z' || 'A' <= text[i] <= 'Z') ==> !('0'
            <= #[trigger] text[j] <= '9')
    &&& end < text.len() ==> '0' <= text[end] <= '9' && exists|i: int|
        0 <= i < end && ('a' <= #[trigger] text[i] <= 'z' || 'A' <= text[i] <= 'Z')
}

proof fn lemma_piece_is_found(text: Seq<char>, end: int, from: int, letter: bool)
    requires
        begins_with_a_number(text, end),
        0 <= from <= end,
        letter == exists|i: int| 0 <= i < from && is_letter(#[trigger] text[i]),
    ensures
        piece_end(text, from, letter) == end,
    decreases end - from,
{
    if from < end {
        if letter {
            let i = choose|i: int| 0 <= i < from && is_letter(#[trigger] text[i]);
            assert(!('0' <= text[from] <= '9'));
        }
        if is_letter(text[from]) {
            assert(0 <= from < from + 1 && is_letter(text[from]));
        }
        lemma_piece_is_found(text, end, from + 1, letter || is_letter(text[from]));
    } else if end < text.len() {
        let i = choose|i: int|
            0 <= i < end && ('a' <= #[trigger] text[i] <= 'z' || 'A' <= text[i] <= 'Z');
        assert(is_letter(text[i]));
    }
}

/// Lengths are read one after the other: where a number is read, and its length, with those before
/// it, is less than 2^64 seconds, the text fits if what comes after the number does.
pub proof fn lengths_are_read_in_turn(
    before: Seq<char>,
    text: Seq<char>,
    sum: nat,
    end: int,
    length: Duration,
)
    requires
        begins_with_a_number(text, end),
        duration_of(Seq::new(encode_utf8(before).len(), |i: int| ' ') + text.take(end)) == Ok::<
            Duration,
            Seq<char>,
        >(length),
        sum + length.secs * 1_000_000_000 + length.nanos < 18_446_744_073_709_551_616_000_000_000,
    ensures
        fits(before, text, sum) == fits(
            before + text.take(end),
            text.skip(end),
            sum + (length.secs * 1_000_000_000 + length.nanos) as nat,
        ),
        fits(before, Seq::empty(), sum),
        fits(Seq::empty(), text, 0) ==> reading(text) == duration_of(text),
{
    lemma_piece_is_found(text, end, 0, false);
    assert(piece(text) == text.take(end));
}

/// A sum of 2^64 seconds or more is refused as too large.
pub proof fn great_sums_are_refused(
    before: Seq<char>,
    text: Seq<char>,
    sum: nat,
    end: int,
    length: Duration,
)
    requires
        begins_with_a_number(text, end),
        duration_of(Seq::new(encode_utf8(before).len(), |i: int| ' ') + text.take(end)) == Ok::<
            Duration,
            Seq<char>,
        >(length),
        sum + length.secs * 1_000_000_000 + length.nanos >= 18_446_744_073_709_551_616_000_000_000,
    ensures
        !fits(before, text, sum),
        refusal(before, text, sum)
            == "number is too large or cannot be represented without a lack of precision (values below 1ns are not supported)"@,
{
    lemma_piece_is_found(text, end, 0, false);
    assert(piece(text) == text.take(end));
}

} // verus!
