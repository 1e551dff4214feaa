//! Objects in the notation of JSON, as `serde_json` writes them.

#[allow(unused_imports)]
use crate::text::decimal;
use vstd::prelude::*;
#[allow(unused_imports)]
use vstd::string::*;

verus! {

/// The value of a member.
#[derive(Clone, Debug, PartialEq, Eq)]
pub enum JsonValue {
    Text(String),
    Number(u64),
}

/// A hexadecimal digit.
pub open spec fn hex_digit(d: int) -> char {
    if d < 10 {
        (('0' as int) + d) as char
    } else {
        (('a' as int) + d - 10) as char
    }
}

/// What a character is written as within quotes.
pub open spec fn escaped(c: char) -> Seq<char> {
    if c == '"' || c == '\\' {
        seq!['\\', c]
    } else if c == '\u{8}' {
        seq!['\\', 'b']
    } else if c == '\u{c}' {
        seq!['\\', 'f']
    } else if c == '\n' {
        seq!['\\', 'n']
    } else if c == '\r' {
        seq!['\\', 'r']
    } else if c == '\t' {
        seq!['\\', 't']
    } else if ' ' > c {
        seq!['\\', 'u', '0', '0', hex_digit(c as int / 16), hex_digit(c as int % 16)]
    } else {
        seq![c]
    }
}

/// A text in quotes.
pub open spec fn quoted(s: Seq<char>) -> Seq<char> {
    seq!['"'] + s.map_values(|c: char| escaped(c)).flatten() + seq!['"']
}

impl JsonValue {
    /// What the value is written as.
    pub open spec fn text(self) -> Seq<char> {
        match self {
            JsonValue::Text(s) => quoted(s@),
            JsonValue::Number(n) => decimal(n as nat),
        }
    }
}

/// What members are written as.
pub open spec fn members_text(members: Seq<(&'static str, JsonValue)>) -> Seq<char>
    decreases members.len(),
{
    if members.len() == 0 {
        Seq::empty()
    } else {
        let member = member_text(members.last().0@, members.last().1);
        if members.len() == 1 {
            member
        } else {
            members_text(members.drop_last()) + seq![','] + member
        }
    }
}

/// What a member is written as.
pub open spec fn member_text(name: Seq<char>, value: JsonValue) -> Seq<char> {
    quoted(name) + seq![':'] + value.text()
}

/// What an object with the given members is written as.
pub open spec fn object_text(members: Seq<(&'static str, JsonValue)>) -> Seq<char> {
    seq!['{'] + members_text(members) + seq!['}']
}

/// Whether a text comes before another one in a dictionary.
pub open spec fn precedes(a: Seq<char>, b: Seq<char>) -> bool
    decreases a.len(),
{
    if a.len() == 0 || b.len() == 0 {
        a.len() < b.len()
    } else {
        a[0] < b[0] || a[0] == b[0] && precedes(a.skip(1), b.skip(1))
    }
}

/// Whether the names of members are in ascending order.
pub open spec fn ascending(members: Seq<(&'static str, JsonValue)>) -> bool {
    forall|i: int, j: int|
        0 <= i < j < members.len() ==> precedes(
            (#[trigger] members[i]).0@,
            (#[trigger] members[j]).0@,
        )
}

/// Whether a character is written as it is.
pub open spec fn is_plain(c: char) -> bool {
    ' ' <= c && c != '"' && c != '\\'
}

/// A text without quotes, backslashes and control characters stands in the quotes as it is.
pub proof fn quoted_plain(s: Seq<char>)
    requires
        forall|i: int| 0 <= i < s.len() ==> is_plain(#[trigger] s[i]),
    ensures
        quoted(s) == seq!['"'] + s + seq!['"'],
    decreases s.len(),
{
    lemma_flatten_plain(s);
}

proof fn lemma_flatten_plain(s: Seq<char>)
    requires
        forall|i: int| 0 <= i < s.len() ==> is_plain(#[trigger] s[i]),
    ensures
        s.map_values(|c: char| escaped(c)).flatten() == s,
    decreases s.len(),
{
    let pieces = s.map_values(|c: char| escaped(c));
    if s.len() > 0 {
        let rest = s.skip(1);
        lemma_flatten_plain(rest);
        assert(pieces.drop_first() =~= rest.map_values(|c: char| escaped(c)));
        assert(pieces.first() == seq![s[0]]);
        assert(pieces.flatten() == pieces.first() + pieces.drop_first().flatten());
        assert(pieces.flatten() =~= s);
    } else {
        assert(pieces.flatten() =~= s);
    }
}

/// Members are written one after the other.
pub proof fn members_text_grows(
    members: Seq<(&'static str, JsonValue)>,
    name: &'static str,
    value: JsonValue,
)
    ensures
        members_text(members.push((name, value))) == if members.len() == 0 {
            member_text(name@, value)
        } else {
            members_text(members) + seq![','] + member_text(name@, value)
        },
{
    assert(members.push((name, value)).drop_last() =~= members);
}

/// The `Display` of a `serde_json::Value`, an object with the given members: the members in the
/// order of their names, which is the one in which they are given, without white space.
#[verifier::external_body]
pub(crate) fn write_object(members: Vec<(&'static str, JsonValue)>) -> (r: String)
    requires
        ascending(members@),
    ensures
        r@ == object_text(members@),
{
    let object: serde_json::Map<String, serde_json::Value> = members.into_iter().map(
        |(name, value)|
            match value {
                JsonValue::Text(text) => (name.to_string(), serde_json::Value::from(text)),
                JsonValue::Number(number) => (name.to_string(), serde_json::Value::from(number)),
            },
    ).collect();
    serde_json::Value::Object(object).to_string()
}

/// In quotes, each character is written on its own.
pub proof fn quotes_are_filled_char_by_char(s: Seq<char>, c: char)
    ensures
        quoted(Seq::empty()) == seq!['"', '"'],
        quoted(s.push(c)) == quoted(s).drop_last() + escaped(c) + seq!['"'],
        c == '"' || c == '\\' ==> escaped(c) == seq!['\\', c],
        c == '\n' ==> escaped(c) == seq!['\\', 'n'],
        c == '\r' ==> escaped(c) == seq!['\\', 'r'],
        c == '\t' ==> escaped(c) == seq!['\\', 't'],
        ' ' <= c && c != '"' && c != '\\' ==> escaped(c) == seq![c],
{
    let f = |c: char| escaped(c);
    let pieces = s.map_values(f);
    let longer = s.push(c).map_values(f);
    let none = Seq::<char>::empty().map_values(f);
    assert(none =~= Seq::<Seq<char>>::empty());
    assert(none.flatten() =~= Seq::<char>::empty());
    assert(quoted(Seq::empty()) =~= seq!['"', '"']);
    assert(longer =~= pieces.push(escaped(c)));
    pieces.lemma_flatten_push(escaped(c));
    assert(quoted(s).drop_last() =~= seq!['"'] + pieces.flatten());
    assert(quoted(s.push(c)) =~= quoted(s).drop_last() + escaped(c) + seq!['"']);
}

} // verus!
