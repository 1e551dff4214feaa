//! The header fields of a message, in a map of the `http` crate.

use http::{HeaderMap, HeaderValue};
use vstd::prelude::*;
#[allow(unused_imports)]
use vstd::string::*;
#[allow(unused_imports)]
use vstd::utf8::{encode_utf8, is_ascii_chars, is_ascii_chars_encode_utf8};

verus! {

/// `http::HeaderMap`, a map from names to values, of which a name may have several.
#[verifier::external_type_specification]
#[verifier::external_body]
#[verifier::reject_recursive_types(T)]
pub struct ExHeaderMap<T>(http::HeaderMap<T>);

/// `http::HeaderValue`, the value of a field.
#[verifier::external_type_specification]
#[verifier::external_body]
pub struct ExHeaderValue(http::HeaderValue);

/// What a map holds: under each name, in lower case, the bytes of its values.
pub uninterp spec fn fields_of(headers: HeaderMap<HeaderValue>) -> Map<Seq<char>, Seq<Seq<u8>>>;

/// No fields.
pub open spec fn no_fields() -> Map<Seq<char>, Seq<Seq<u8>>> {
    Map::empty()
}

/// As many names as a map holds without fail: beyond them it may refuse to grow.
pub const MAX_NAMES: usize = 6553;

/// Whether there is room for some more names.
pub open spec fn has_room(fields: Map<Seq<char>, Seq<Seq<u8>>>, more: nat) -> bool {
    fields.dom().finite() && fields.len() + more <= MAX_NAMES
}

/// Whether a text is the name of a field, in lower case.
pub open spec fn is_name(s: Seq<char>) -> bool {
    &&& 0 < s.len() <= 64
    &&& forall|i: int|
        0 <= i < s.len() ==> 'a' <= #[trigger] s[i] <= 'z' || '0' <= s[i] <= '9' || s[i] == '-'
}

/// Whether a byte is a visible character of ASCII, a blank or a tab.
pub open spec fn is_visible(b: u8) -> bool {
    32 <= b < 127 || b == 9
}

/// The text of a value, if all of it is visible.
pub open spec fn text_of(value: Seq<u8>) -> Option<Seq<char>> {
    if forall|i: int| 0 <= i < value.len() ==> is_visible(#[trigger] value[i]) {
        Some(value.map_values(|b: u8| b as char))
    } else {
        None
    }
}

/// The text of the first value under a name: `None` where the name is missing, and `Some(None)`
/// where the value is no text.
pub open spec fn field(fields: Map<Seq<char>, Seq<Seq<u8>>>, name: Seq<char>) -> Option<
    Option<Seq<char>>,
> {
    if fields.contains_key(name) {
        Some(text_of(fields[name][0]))
    } else {
        None
    }
}

/// The text of the first value under a name, where there is one.
pub open spec fn field_text(fields: Map<Seq<char>, Seq<Seq<u8>>>, name: Seq<char>) -> Option<
    Seq<char>,
> {
    match field(fields, name) {
        Some(text) => text,
        None => None,
    }
}

/// Whether a text can be the value of a field: it holds no control character but tabs.
pub open spec fn is_value(text: Seq<char>) -> bool {
    forall|i: int|
        0 <= i < text.len() ==> ' ' <= #[trigger] text[i] && text[i] != '\u{7f}' || text[i] == '\t'
}

/// Whether a text is visible ASCII.
pub open spec fn is_visible_text(text: Seq<char>) -> bool {
    forall|i: int| 0 <= i < text.len() ==> ' ' <= #[trigger] text[i] <= '~' || text[i] == '\t'
}

/// The fields after a value was put under a name, in place of all those that were there.
pub open spec fn with_field(
    fields: Map<Seq<char>, Seq<Seq<u8>>>,
    name: Seq<char>,
    text: Seq<char>,
) -> Map<Seq<char>, Seq<Seq<u8>>> {
    fields.insert(name, seq![encode_utf8(text)])
}

/// The optional text within an optional value.
pub open spec fn read_text(r: Option<Option<String>>) -> Option<Option<Seq<char>>> {
    match r {
        None => None,
        Some(None) => Some(None),
        Some(Some(text)) => Some(Some(text@)),
    }
}

/// `HeaderMap::new`: an empty map.
#[verifier::external_body]
pub(crate) fn new_headers() -> (r: HeaderMap<HeaderValue>)
    ensures
        fields_of(r) == no_fields(),
{
    HeaderMap::new()
}

/// `HeaderMap::get`, which finds the first value under a name, with `HeaderValue::to_str`, which
/// gives its text if it is visible ASCII. The map keeps its names in lower case.
#[verifier::external_body]
pub(crate) fn get_header(headers: &HeaderMap<HeaderValue>, name: &str) -> (r: Option<
    Option<String>,
>)
    requires
        is_name(name@),
    ensures
        read_text(r) == field(fields_of(*headers), name@),
{
    headers.get(name).map(|value| value.to_str().ok().map(|text| text.to_string()))
}

/// Why a field was not set.
#[derive(Clone, Debug, PartialEq, Eq)]
pub enum HeaderFault {
    /// The text cannot be the value of a field.
    Invalid(String),
    /// The map refused to grow.
    Full,
}

/// `HeaderMap::try_insert`, which puts a value in place of all those under a name, of a value read
/// by `HeaderValue::from_str`, which takes no control characters but tabs. The map refuses to grow
/// beyond its greatest size, which it need not do as long as there is room; else that depends on
/// how its entries came about, which is not stated. It is then left as it was.
#[verifier::external_body]
pub(crate) fn set_header(
    headers: &mut HeaderMap<HeaderValue>,
    name: &'static str,
    text: &str,
) -> (r: Result<(), HeaderFault>)
    requires
        is_name(name@),
    ensures
        match r {
            Ok(_) => is_value(text@),
            Err(HeaderFault::Invalid(error)) => !is_value(text@) && error@
                == "failed to parse header value"@,
            Err(HeaderFault::Full) => is_value(text@) && !has_room(fields_of(*old(headers)), 0),
        },
        fields_of(*final(headers)) == if r is Ok {
            with_field(fields_of(*old(headers)), name@, text@)
        } else {
            fields_of(*old(headers))
        },
{
    match HeaderValue::from_str(text) {
        Ok(value) => match headers.try_insert(name, value) {
            Ok(_) => Ok(()),
            Err(_) => Err(HeaderFault::Full),
        },
        Err(error) => Err(HeaderFault::Invalid(error.to_string())),
    }
}

/// `HeaderMap::remove`: takes out all values under a name.
#[verifier::external_body]
pub(crate) fn remove_header(headers: &mut HeaderMap<HeaderValue>, name: &str)
    requires
        is_name(name@),
    ensures
        fields_of(*final(headers)) == fields_of(*old(headers)).remove(name@),
{
    headers.remove(name);
}

/// What is put under a name is read there, as long as it is visible ASCII; what is under the
/// other names stays.
pub proof fn field_is_read_as_written(
    fields: Map<Seq<char>, Seq<Seq<u8>>>,
    name: Seq<char>,
    text: Seq<char>,
    other: Seq<char>,
)
    requires
        is_visible_text(text),
    ensures
        is_value(text),
        field(with_field(fields, name, text), name) == Some(Some(text)),
        other != name ==> field(with_field(fields, name, text), other) == field(fields, other),
{
    let bytes = encode_utf8(text);
    assert(is_ascii_chars(text)) by {
        assert forall|i: int| 0 <= i < text.len() implies '\0' <= #[trigger] text[i]
            <= '\u{7f}' by {}
    }
    is_ascii_chars_encode_utf8(text);
    assert(bytes.map_values(|b: u8| b as char) =~= text);
}

/// The first value under a name is read, byte by byte, where all of it is visible ASCII.
pub proof fn first_value_is_read(
    fields: Map<Seq<char>, Seq<Seq<u8>>>,
    name: Seq<char>,
    text: Seq<char>,
)
    requires
        fields.contains_key(name),
        fields[name][0].len() == text.len(),
        forall|i: int|
            0 <= i < text.len() ==> (' ' <= #[trigger] text[i] <= '~' || text[i] == '\t')
                && fields[name][0][i] == text[i] as u8,
    ensures
        field(fields, name) == Some(Some(text)),
        field_text(fields, name) == Some(text),
{
    let value = fields[name][0];
    assert forall|i: int| 0 <= i < value.len() implies is_visible(#[trigger] value[i]) by {
        assert(' ' <= text[i] <= '~' || text[i] == '\t');
    }
    assert(value.map_values(|b: u8| b as char) =~= text);
}

/// A name that is missing, or whose first value holds a byte that is not visible ASCII, has no
/// text.
pub proof fn other_values_have_no_text(
    fields: Map<Seq<char>, Seq<Seq<u8>>>,
    name: Seq<char>,
    i: int,
)
    requires
        fields.contains_key(name) ==> 0 <= i < fields[name][0].len() && (fields[name][0][i] >= 127
            || fields[name][0][i] < 32 && fields[name][0][i] != 9),
    ensures
        field_text(fields, name) is None,
        field(fields, name) is None <==> !fields.contains_key(name),
{
    if fields.contains_key(name) {
        assert(!is_visible(fields[name][0][i]));
    }
}

/// There is room as long as the names, with those to come, are no more than 6553.
pub proof fn room_is_for_so_many_names(fields: Map<Seq<char>, Seq<Seq<u8>>>, more: nat)
    requires
        fields.dom().finite(),
    ensures
        has_room(fields, more) <==> fields.dom().len() + more <= 6553,
{
}

/// A value put under a name takes the place of all those that were there, and leaves the others.
pub proof fn a_value_takes_the_place_of_others(
    fields: Map<Seq<char>, Seq<Seq<u8>>>,
    name: Seq<char>,
    text: Seq<char>,
    other: Seq<char>,
)
    ensures
        with_field(fields, name, text).contains_key(name),
        with_field(fields, name, text)[name] == seq![encode_utf8(text)],
        other != name ==> with_field(fields, name, text).contains_key(other)
            == fields.contains_key(other),
        other != name && fields.contains_key(other) ==> with_field(fields, name, text)[other]
            == fields[other],
{
}

} // verus!
