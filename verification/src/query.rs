use vstd::prelude::*;
use vstd::utf8::encode_utf8;

verus! {

/// Bytes that `application/x-www-form-urlencoded` serialization leaves as
/// they are: ASCII letters and digits, `*`, `-`, `.` and `_`.
pub open spec fn form_unreserved(b: u8) -> bool {
    ||| b == 42
    ||| b == 45
    ||| b == 46
    ||| 48 <= b <= 57
    ||| 65 <= b <= 90
    ||| b == 95
    ||| 97 <= b <= 122
}

/// An upper-case hexadecimal digit.
pub open spec fn hex_upper(n: u8) -> char {
    if n < 10 {
        (48 + n) as char
    } else {
        (55 + n) as char
    }
}

/// The serialization of one byte: itself, `+` for a space, or `%XX`.
pub open spec fn form_byte(b: u8) -> Seq<char> {
    if form_unreserved(b) {
        seq![b as char]
    } else if b == 32 {
        seq!['+']
    } else {
        seq!['%', hex_upper(b / 16), hex_upper(b % 16)]
    }
}

/// The serialization of a byte string, byte by byte.
pub open spec fn form_bytes(bytes: Seq<u8>) -> Seq<char>
    decreases bytes.len(),
{
    if bytes.len() == 0 {
        Seq::<char>::empty()
    } else {
        form_bytes(bytes.drop_last()) + form_byte(bytes.last())
    }
}

/// The form serialization of a string: its UTF-8 bytes, serialized.
pub open spec fn form_encode(s: Seq<char>) -> Seq<char> {
    form_bytes(encode_utf8(s))
}

/// One `name=value` pair, both parts serialized.
pub open spec fn form_pair(name: Seq<char>, value: Seq<char>) -> Seq<char> {
    form_encode(name) + seq!['='] + form_encode(value)
}

/// `base` with the pairs appended in order, each preceded by `&` unless the
/// text so far is empty.
pub open spec fn query_with(base: Seq<char>, pairs: Seq<(Seq<char>, Seq<char>)>) -> Seq<char>
    decreases pairs.len(),
{
    if pairs.len() == 0 {
        base
    } else {
        let prev = query_with(base, pairs.drop_last());
        let sep = if prev.len() > 0 {
            seq!['&']
        } else {
            Seq::<char>::empty()
        };
        prev + sep + form_pair(pairs.last().0, pairs.last().1)
    }
}

/// The views of a list of name/value pairs.
pub open spec fn pairs_view(pairs: Seq<(String, String)>) -> Seq<(Seq<char>, Seq<char>)> {
    pairs.map_values(|p: (String, String)| (p.0@, p.1@))
}

/// `url::form_urlencoded::Serializer::new(base)`, then `extend_pairs` and
/// `finish`: claims that the result is `base` followed by each pair,
/// serialized byte by byte as `byte_serialize` does, with `&` before each
/// pair when the text so far is not empty.
#[verifier::external_body]
pub(crate) fn serialize_query(base: &str, pairs: &Vec<(String, String)>) -> (query: String)
    ensures
        query@ == query_with(base@, pairs_view(pairs@)),
{
    url::form_urlencoded::Serializer::new(base.to_string()).extend_pairs(pairs.iter()).finish()
}

/// A name/value pair made of two literals' texts.
pub fn pair(name: &str, value: &str) -> (p: (String, String))
    ensures
        p.0@ == name@,
        p.1@ == value@,
{
    (String::from_str(name), String::from_str(value))
}

} // verus!
