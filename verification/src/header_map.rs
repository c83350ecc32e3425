//! The boundary to the header types of the `http` crate.
use crate::text;
use vstd::prelude::*;
use vstd::utf8::*;

verus! {

broadcast use {
    vstd::seq_lib::group_seq_properties,
    vstd::map::group_map_axioms,
    vstd::set::group_set_axioms,
};

/// The longest header name.
pub const MAX_NAME: usize = 65535;

/// Far fewer names than a `http::HeaderMap` can hold.
pub const MANY_NAMES: usize = 4096;

#[verifier::external_type_specification]
#[verifier::external_body]
#[verifier::reject_recursive_types(T)]
pub struct ExHeaderMap<T>(http::HeaderMap<T>);

#[verifier::external_type_specification]
#[verifier::external_body]
pub struct ExHeaderName(http::HeaderName);

#[verifier::external_type_specification]
#[verifier::external_body]
pub struct ExHeaderValue(http::HeaderValue);

/// The text of a `http::HeaderName`.
pub uninterp spec fn name_text(name: http::HeaderName) -> Seq<char>;

/// The bytes of a `http::HeaderValue`.
pub uninterp spec fn value_bytes(value: http::HeaderValue) -> Seq<u8>;

/// The values under each name of a `http::HeaderMap`, in the order in which they came.
pub uninterp spec fn headers_of(headers: http::HeaderMap) -> Map<Seq<char>, Seq<Seq<u8>>>;

/// The characters that a header name is made of.
pub open spec fn is_token_char(c: char) -> bool {
    ||| text::is_alphanumeric(c)
    ||| c == '!' || c == '#' || c == '$' || c == '%' || c == '&' || c == '\'' || c == '*'
    ||| c == '+' || c == '-' || c == '.' || c == '^' || c == '_' || c == '`' || c == '|' || c == '~'
}

/// Whether a text is a header name.
pub open spec fn is_name(s: Seq<char>) -> bool {
    0 < s.len() <= MAX_NAME && forall|i: int| 0 <= i < s.len() ==> is_token_char(#[trigger] s[i])
}

/// The bytes that a header value may hold.
pub open spec fn is_value_byte(b: u8) -> bool {
    (b >= 32 && b != 127) || b == 9
}

/// The bytes of a header value that can be read as text.
pub open spec fn is_visible_byte(b: u8) -> bool {
    32 <= b < 127 || b == 9
}

pub open spec fn is_value(bytes: Seq<u8>) -> bool {
    forall|i: int| 0 <= i < bytes.len() ==> is_value_byte(#[trigger] bytes[i])
}

pub open spec fn is_visible(bytes: Seq<u8>) -> bool {
    forall|i: int| 0 <= i < bytes.len() ==> is_visible_byte(#[trigger] bytes[i])
}

/// Whether every name has one value.
pub open spec fn is_single(m: Map<Seq<char>, Seq<Seq<u8>>>) -> bool {
    forall|k: Seq<char>| #[trigger] m.contains_key(k) ==> m[k].len() == 1
}

pub open spec fn values_of(m: Map<Seq<char>, Seq<Seq<u8>>>, name: Seq<char>) -> Seq<Seq<u8>> {
    if m.contains_key(name) {
        m[name]
    } else {
        Seq::empty()
    }
}

/// Whether a list holds exactly the names of a map.
pub open spec fn lists_names(
    list: Seq<http::HeaderName>,
    m: Map<Seq<char>, Seq<Seq<u8>>>,
) -> bool {
    &&& forall|i: int| 0 <= i < list.len() ==> m.contains_key(name_text(#[trigger] list[i]))
    &&& forall|k: Seq<char>| #[trigger]
        m.contains_key(k) ==> exists|i: int|
            0 <= i < list.len() && name_text(#[trigger] list[i]) == k
}

pub open spec fn no_headers() -> Map<Seq<char>, Seq<Seq<u8>>> {
    Map::empty()
}

/// `http::HeaderMap::new`: an empty map.
#[verifier::external_body]
pub(crate) fn new_headers() -> (r: http::HeaderMap)
    ensures
        headers_of(r) == no_headers(),
{
    http::HeaderMap::new()
}

/// `http::HeaderName::from_bytes`: a name in lower case, or nothing where the text is no header
/// name.
#[verifier::external_body]
pub(crate) fn header_name(s: &str) -> (r: Option<http::HeaderName>)
    ensures
        r is Some <==> is_name(s@),
        r matches Some(name) ==> name_text(name) == text::lower(s@),
{
    http::HeaderName::from_bytes(s.as_bytes()).ok()
}

/// `http::HeaderName::as_str`: the name's text.
#[verifier::external_body]
pub(crate) fn name_string(name: &http::HeaderName) -> (r: String)
    ensures
        r@ == name_text(*name),
{
    name.as_str().to_owned()
}

/// `http::HeaderValue::from_str`: a value of the text's bytes, or nothing where one of them is
/// a control character other than a tab.
#[verifier::external_body]
pub(crate) fn header_value(s: &str) -> (r: Option<http::HeaderValue>)
    ensures
        r is Some <==> is_value(encode_utf8(s@)),
        r matches Some(value) ==> value_bytes(value) == encode_utf8(s@),
{
    http::HeaderValue::from_str(s).ok()
}

/// `http::HeaderValue::to_str`: the value's text, or nothing where a byte of it is neither a
/// visible ASCII character nor a space nor a tab.
#[verifier::external_body]
pub(crate) fn value_text(value: &http::HeaderValue) -> (r: Option<String>)
    ensures
        r is Some <==> is_visible(value_bytes(*value)),
        r matches Some(s) ==> encode_utf8(s@) == value_bytes(*value),
{
    value.to_str().ok().map(str::to_owned)
}

/// `http::HeaderMap::insert`: the value takes the place of those under the name; whether there
/// were any. It panics only where the map gets far larger than is allowed here.
#[verifier::external_body]
pub(crate) fn insert_header(
    headers: &mut http::HeaderMap,
    name: http::HeaderName,
    value: http::HeaderValue,
) -> (r: bool)
    requires
        headers_of(*old(headers)).dom().finite(),
        headers_of(*old(headers)).dom().len() < MANY_NAMES,
    ensures
        headers_of(*final(headers)) == headers_of(*old(headers)).insert(
            name_text(name),
            seq![value_bytes(value)],
        ),
        r == headers_of(*old(headers)).contains_key(name_text(name)),
{
    headers.insert(name, value).is_some()
}

/// `http::HeaderMap::remove`: the name and its values are gone.
#[verifier::external_body]
pub(crate) fn remove_header(headers: &mut http::HeaderMap, name: &http::HeaderName)
    ensures
        headers_of(*final(headers)) == headers_of(*old(headers)).remove(name_text(*name)),
{
    headers.remove(name);
}

/// `http::HeaderMap::get_all`: the values under a name, in the order in which they came.
#[verifier::external_body]
pub(crate) fn header_values(headers: &http::HeaderMap, name: &http::HeaderName) -> (r: Vec<
    http::HeaderValue,
>)
    ensures
        r@.map_values(|v: http::HeaderValue| value_bytes(v)) == values_of(
            headers_of(*headers),
            name_text(*name),
        ),
{
    headers.get_all(name).iter().cloned().collect()
}

/// `http::HeaderMap::keys`: every name once, in no particular order.
#[verifier::external_body]
pub(crate) fn header_names(headers: &http::HeaderMap) -> (r: Vec<http::HeaderName>)
    ensures
        lists_names(r@, headers_of(*headers)),
{
    headers.keys().cloned().collect()
}

/// `http::HeaderMap::len`: the number of values, which is the number of names where each has
/// one.
#[verifier::external_body]
pub(crate) fn header_count(headers: &http::HeaderMap) -> (r: usize)
    ensures
        is_single(headers_of(*headers)) ==> r == headers_of(*headers).dom().len(),
{
    headers.len()
}

/// `http::HeaderMap::contains_key`: whether there is a value under a name.
#[verifier::external_body]
pub(crate) fn has_header(headers: &http::HeaderMap, name: &http::HeaderName) -> (r: bool)
    ensures
        r == headers_of(*headers).contains_key(name_text(*name)),
{
    headers.contains_key(name)
}

/// A header name is made of the printable characters of ASCII without the space and the
/// delimiters.
pub proof fn law_characters_of_a_name(c: char)
    ensures
        is_token_char(c) <==> 33 <= c as u32 <= 126 && c != '"' && c != '(' && c != ')' && c != ','
            && c != '/' && c != ':' && c != ';' && c != '<' && c != '=' && c != '>' && c != '?'
            && c != '@' && c != '[' && c != '\\' && c != ']' && c != '{' && c != '}',
{
}

/// A header value is made of all bytes but the control characters, of which it may hold the
/// tabulator; it is text where they are ASCII.
pub proof fn law_bytes_of_a_value(bytes: Seq<u8>)
    ensures
        is_value(bytes) <==> !exists|i: int|
            0 <= i < bytes.len() && ((#[trigger] bytes[i] <= 31 && bytes[i] != 9) || bytes[i]
                == 127),
        is_visible(bytes) <==> is_value(bytes) && !exists|i: int|
            0 <= i < bytes.len() && #[trigger] bytes[i] >= 128,
{
    if is_visible(bytes) {
        assert forall|i: int| 0 <= i < bytes.len() implies is_value_byte(#[trigger] bytes[i]) by {
            assert(is_visible_byte(bytes[i]));
        }
        assert forall|i: int| 0 <= i < bytes.len() implies !(#[trigger] bytes[i] >= 128) by {
            assert(is_visible_byte(bytes[i]));
        }
    }
    if is_value(bytes) {
        assert forall|i: int| 0 <= i < bytes.len() implies !((#[trigger] bytes[i] <= 31 && bytes[i]
            != 9) || bytes[i] == 127) by {
            assert(is_value_byte(bytes[i]));
        }
    }
}

/// A name that no header has has no values; a name is of 65535 characters at most, each one that a
/// name is made of.
pub proof fn law_names_and_their_values(
    m: Map<Seq<char>, Seq<Seq<u8>>>,
    name: Seq<char>,
)
    ensures
        m.contains_key(name) ==> values_of(m, name) == m[name],
        !m.contains_key(name) ==> values_of(m, name).len() == 0,
        is_name(name) <==> 1 <= name.len() <= 65535 && forall|i: int|
            0 <= i < name.len() ==> is_token_char(#[trigger] name[i]),
{
}

} // verus!
