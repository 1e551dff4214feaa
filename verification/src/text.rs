//! Text as sequences of characters.

use vstd::prelude::*;
#[allow(unused_imports)]
use vstd::string::*;

verus! {

/// The characters of a string.
pub fn chars_of(s: &str) -> (v: Vec<char>)
    ensures
        v@ == s@,
{
    let mut v: Vec<char> = Vec::new();
    for c in iter: s.chars()
        invariant
            v@ == iter.seq().take(iter.index()),
            iter.seq() == s@,
    {
        assert(iter.seq().take(iter.index() + 1) == iter.seq().take(iter.index()).push(c));
        v.push(c);
    }
    assert(s@.take(s@.len() as int) == s@);
    v
}

/// Whether two strings hold the same characters.
pub fn same_text(a: &str, b: &str) -> (r: bool)
    ensures
        r == (a@ == b@),
{
    a.to_owned() == b.to_owned()
}

pub open spec fn is_blank(c: char) -> bool {
    c == ' ' || c == '\t'
}

/// A text without the blanks at its start.
pub open spec fn trimmed_start(s: Seq<char>) -> Seq<char>
    decreases s.len(),
{
    if s.len() > 0 && is_blank(s[0]) {
        trimmed_start(s.skip(1))
    } else {
        s
    }
}

/// A text without the characters at its end that are equal to one of `ends`.
pub open spec fn trimmed_end(s: Seq<char>, ends: Set<char>) -> Seq<char>
    decreases s.len(),
{
    if s.len() > 0 && ends.contains(s.last()) {
        trimmed_end(s.drop_last(), ends)
    } else {
        s
    }
}

/// A text without the blanks at both ends.
pub open spec fn trimmed(s: Seq<char>) -> Seq<char> {
    trimmed_end(trimmed_start(s), set![' ', '\t'])
}

/// Removes the blanks at both ends.
pub fn trim(s: &str) -> (r: String)
    ensures
        r@ == trimmed(s@),
{
    let chars: Vec<char> = chars_of(s);
    let mut lo: usize = 0;
    assert(s@.skip(0) =~= s@);
    while lo < chars.len() && (chars[lo] == ' ' || chars[lo] == '\t')
        invariant
            chars@ == s@,
            lo <= chars@.len(),
            trimmed_start(s@) == trimmed_start(s@.skip(lo as int)),
        decreases chars@.len() - lo,
    {
        assert(s@.skip(lo as int).skip(1) =~= s@.skip(lo + 1));
        lo = lo + 1;
    }
    let ghost rest = s@.skip(lo as int);
    let ghost ends = set![' ', '\t'];
    let mut hi: usize = chars.len();
    assert(s@.subrange(lo as int, hi as int) =~= rest);
    while lo < hi && (chars[hi - 1] == ' ' || chars[hi - 1] == '\t')
        invariant
            chars@ == s@,
            lo <= hi <= chars@.len(),
            ends == set![' ', '\t'],
            trimmed_end(rest, ends) == trimmed_end(s@.subrange(lo as int, hi as int), ends),
        decreases hi,
    {
        let ghost part = s@.subrange(lo as int, hi as int);
        assert(part.drop_last() =~= s@.subrange(lo as int, hi - 1));
        hi = hi - 1;
    }
    s.substring_char(lo, hi).to_owned()
}

/// Removes the slashes at the end.
pub fn trim_end_slashes(s: &str) -> (r: String)
    ensures
        r@ == trimmed_end(s@, set!['/']),
{
    let chars: Vec<char> = chars_of(s);
    let mut hi: usize = chars.len();
    assert(s@.take(hi as int) =~= s@);
    while 0 < hi && chars[hi - 1] == '/'
        invariant
            chars@ == s@,
            hi <= chars@.len(),
            trimmed_end(s@, set!['/']) == trimmed_end(s@.take(hi as int), set!['/']),
        decreases hi,
    {
        assert(s@.take(hi as int).drop_last() =~= s@.take(hi - 1));
        hi = hi - 1;
    }
    assert(s@.subrange(0, hi as int) =~= s@.take(hi as int));
    s.substring_char(0, hi).to_owned()
}

/// The part of a text before the first comma; all of it where there is none.
pub open spec fn before_comma(s: Seq<char>) -> Seq<char>
    decreases s.len(),
{
    if s.len() == 0 || s[0] == ',' {
        Seq::empty()
    } else {
        seq![s[0]] + before_comma(s.skip(1))
    }
}

/// Cuts a text before the first comma.
pub fn cut_at_comma(s: &str) -> (r: String)
    ensures
        r@ == before_comma(s@),
{
    let chars: Vec<char> = chars_of(s);
    let mut end: usize = 0;
    assert(s@.skip(0) =~= s@);
    assert(s@.take(0) + before_comma(s@) =~= before_comma(s@));
    while end < chars.len() && chars[end] != ','
        invariant
            chars@ == s@,
            end <= chars@.len(),
            before_comma(s@) == s@.take(end as int) + before_comma(s@.skip(end as int)),
        decreases chars@.len() - end,
    {
        let ghost rest = s@.skip(end as int);
        assert(rest.skip(1) =~= s@.skip(end + 1));
        assert(s@.take(end as int) + (seq![rest[0]] + before_comma(rest.skip(1))) =~= s@.take(
            end + 1,
        ) + before_comma(s@.skip(end + 1)));
        end = end + 1;
    }
    assert(s@.take(end as int) + Seq::<char>::empty() =~= s@.take(end as int));
    assert(s@.subrange(0, end as int) =~= s@.take(end as int));
    s.substring_char(0, end).to_owned()
}

/// The decimal digit `d`.
pub open spec fn digit(d: nat) -> char {
    (('0' as nat) + d) as char
}

/// A whole number in decimal notation.
pub open spec fn decimal(n: nat) -> Seq<char>
    decreases n,
{
    if n < 10 {
        seq![digit(n)]
    } else {
        decimal(n / 10).push(digit(n % 10))
    }
}

fn digit_text(d: u8) -> (s: &'static str)
    requires
        d < 10,
    ensures
        s@ == seq![digit(d as nat)],
{
    proof {
        reveal_strlit("0");
        reveal_strlit("1");
        reveal_strlit("2");
        reveal_strlit("3");
        reveal_strlit("4");
        reveal_strlit("5");
        reveal_strlit("6");
        reveal_strlit("7");
        reveal_strlit("8");
        reveal_strlit("9");
    }
    let s: &'static str = match d {
        0 => "0",
        1 => "1",
        2 => "2",
        3 => "3",
        4 => "4",
        5 => "5",
        6 => "6",
        7 => "7",
        8 => "8",
        _ => "9",
    };
    assert(s@ =~= seq![digit(d as nat)]);
    s
}

/// Writes a number in decimal notation.
pub fn to_decimal(n: u128) -> (s: String)
    ensures
        s@ == decimal(n as nat),
    decreases n,
{
    if n < 10 {
        digit_text(n as u8).to_owned()
    } else {
        let mut s: String = to_decimal(n / 10);
        s.append(digit_text((n % 10) as u8));
        assert(s@ =~= decimal(n as nat));
        s
    }
}

/// A decimal notation is not empty and holds digits only.
pub proof fn decimal_holds_digits(n: nat)
    ensures
        decimal(n).len() > 0,
        forall|i: int| 0 <= i < decimal(n).len() ==> '0' <= #[trigger] decimal(n)[i] <= '9',
    decreases n,
{
    if n >= 10 {
        decimal_holds_digits(n / 10);
    }
}

/// Different numbers have different notations.
pub proof fn decimal_is_injective(a: nat, b: nat)
    requires
        decimal(a) == decimal(b),
    ensures
        a == b,
    decreases a,
{
    decimal_holds_digits(a / 10);
    decimal_holds_digits(b / 10);
    let d = decimal(a);
    assert(d.last() == digit(a % 10) && d.last() == digit(b % 10));
    if a >= 10 {
        assert(d.drop_last() == decimal(a / 10));
        assert(b >= 10);
        assert(d.drop_last() == decimal(b / 10));
        decimal_is_injective(a / 10, b / 10);
    } else {
        assert(b < 10);
    }
}

/// The part before the first comma is how a text begins; it holds no comma, and ends where the
/// text does or a comma follows.
pub proof fn first_part_ends_at_the_comma(s: Seq<char>)
    ensures
        before_comma(s).len() <= s.len(),
        before_comma(s) == s.take(before_comma(s).len() as int),
        forall|i: int| 0 <= i < before_comma(s).len() ==> #[trigger] s[i] != ',',
        before_comma(s).len() == s.len() || s[before_comma(s).len() as int] == ',',
    decreases s.len(),
{
    if s.len() > 0 && s[0] != ',' {
        let rest = s.skip(1);
        first_part_ends_at_the_comma(rest);
        let part = before_comma(s);
        assert(part =~= s.take(part.len() as int));
        assert forall|i: int| 0 <= i < part.len() implies #[trigger] s[i] != ',' by {
            if i > 0 {
                assert(rest[i - 1] == s[i]);
            }
        }
    } else {
        assert(before_comma(s) =~= s.take(0));
    }
}

/// Where a text without commas is followed by a comma or nothing, it is the part before the first
/// comma.
pub proof fn first_part_is_found(s: Seq<char>, n: int)
    requires
        0 <= n <= s.len(),
        forall|i: int| 0 <= i < n ==> #[trigger] s[i] != ',',
        n == s.len() || s[n] == ',',
    ensures
        before_comma(s) == s.take(n),
{
    first_part_ends_at_the_comma(s);
    let m = before_comma(s).len() as int;
    if m < n {
        assert(s[m] != ',');
    }
    if n < m {
        assert(s[n] != ',');
    }
}

proof fn lemma_trimmed_start(s: Seq<char>) -> (lo: int)
    ensures
        0 <= lo <= s.len(),
        trimmed_start(s) == s.skip(lo),
        forall|i: int| 0 <= i < lo ==> (#[trigger] s[i]) == ' ' || s[i] == '\t',
        lo == s.len() || s[lo] != ' ' && s[lo] != '\t',
    decreases s.len(),
{
    if s.len() > 0 && is_blank(s[0]) {
        let rest = s.skip(1);
        let k = lemma_trimmed_start(rest);
        assert(rest.skip(k) =~= s.skip(k + 1));
        assert forall|i: int| 0 <= i < k + 1 implies (#[trigger] s[i]) == ' ' || s[i] == '\t' by {
            if i > 0 {
                assert(rest[i - 1] == s[i]);
            }
        }
        k + 1
    } else {
        assert(s.skip(0) =~= s);
        0
    }
}

proof fn lemma_trimmed_end(s: Seq<char>, ends: Set<char>) -> (hi: int)
    ensures
        0 <= hi <= s.len(),
        trimmed_end(s, ends) == s.take(hi),
        forall|i: int| hi <= i < s.len() ==> ends.contains(#[trigger] s[i]),
        hi == 0 || !ends.contains(s[hi - 1]),
    decreases s.len(),
{
    if s.len() > 0 && ends.contains(s.last()) {
        let rest = s.drop_last();
        let k = lemma_trimmed_end(rest, ends);
        assert(rest.take(k) =~= s.take(k));
        assert forall|i: int| k <= i < s.len() implies ends.contains(#[trigger] s[i]) by {
            if i < rest.len() {
                assert(rest[i] == s[i]);
            }
        }
        k
    } else {
        assert(s.take(s.len() as int) =~= s);
        s.len() as int
    }
}

/// Of a text between blanks nothing but the blanks is trimmed.
pub proof fn only_outer_blanks_are_trimmed(s: Seq<char>, lo: int, hi: int)
    requires
        0 <= lo <= hi <= s.len(),
        forall|i: int| 0 <= i < lo ==> (#[trigger] s[i]) == ' ' || s[i] == '\t',
        forall|i: int| hi <= i < s.len() ==> (#[trigger] s[i]) == ' ' || s[i] == '\t',
        lo < hi ==> s[lo] != ' ' && s[lo] != '\t' && s[hi - 1] != ' ' && s[hi - 1] != '\t',
    ensures
        trimmed(s) == s.subrange(lo, hi),
{
    let a = lemma_trimmed_start(s);
    let rest = s.skip(a);
    let b = lemma_trimmed_end(rest, set![' ', '\t']);
    if lo < hi {
        if a < lo {
            assert(s[a] != ' ' && s[a] != '\t');
        }
        if lo < a {
            assert(s[lo] == ' ' || s[lo] == '\t');
        }
        if a + b < hi {
            assert(rest[hi - 1 - a] == s[hi - 1]);
        }
        if hi < a + b {
            assert(rest[b - 1] == s[a + b - 1]);
        }
        assert(rest.take(b) =~= s.subrange(lo, hi));
    } else {
        if a < s.len() {
            assert(s[a] == ' ' || s[a] == '\t');
        }
        assert(rest.take(b) =~= s.subrange(lo, hi));
    }
}

/// Slashes at the end, and nothing else, are cut off.
pub proof fn only_slashes_at_the_end_are_cut(s: Seq<char>, n: int)
    requires
        0 <= n <= s.len(),
        forall|i: int| n <= i < s.len() ==> #[trigger] s[i] == '/',
        n == 0 || s[n - 1] != '/',
    ensures
        trimmed_end(s, set!['/']) == s.take(n),
{
    let hi = lemma_trimmed_end(s, set!['/']);
    if hi < n {
        assert(set!['/'].contains(s[n - 1]));
    }
    if n < hi {
        assert(s[hi - 1] == '/');
    }
}

/// A number is written as its last digit behind the number without it.
pub proof fn decimal_is_read_digit_by_digit(n: nat, d: nat)
    requires
        d < 10,
    ensures
        decimal(d) == seq![(48 + d) as char],
        n > 0 ==> decimal(10 * n + d) == decimal(n).push((48 + d) as char),
{
}

} // verus!
