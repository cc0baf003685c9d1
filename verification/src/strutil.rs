//! Small text helpers: the trusted string primitives the library needs, and
//! verified conversions around them.
use vstd::prelude::*;

verus! {

/// Whether two string slices read the same characters.
#[verifier::loop_isolation(false)]
pub(crate) fn str_eq(a: &str, b: &str) -> (r: bool)
    ensures
        r == (a@ == b@),
{
    let ca = str_chars(a);
    let cb = str_chars(b);
    if ca.len() != cb.len() {
        proof {
            assert(a@ != b@);
        }
        return false;
    }
    let n = ca.len();
    for i in 0..n
        invariant
            ca@ == a@,
            cb@ == b@,
            ca@.len() == cb@.len(),
            forall|k: int| 0 <= k < i ==> ca@[k] == cb@[k],
    {
        if ca[i] != cb[i] {
            return false;
        }
    }
    proof {
        assert(a@ =~= b@);
    }
    true
}

/// The first index at or after `i` whose name reads `name`, or -1.
pub open spec fn name_index(names: Seq<String>, name: Seq<char>, i: int) -> int
    decreases names.len() - i,
{
    if i < 0 || i >= names.len() {
        -1
    } else if names[i]@ == name {
        i
    } else {
        name_index(names, name, i + 1)
    }
}

/// Finds a name in a list, returning its index.
#[verifier::loop_isolation(false)]
pub(crate) fn find_name(names: &Vec<String>, name: &str) -> (r: Option<usize>)
    ensures
        ({
            let idx = name_index(names@, name@, 0);
            match r {
                Some(i) => idx == i as int && (i as int) < names@.len(),
                None => idx == -1,
            }
        }),
{
    let n = names.len();
    for i in 0..n
        invariant
            name_index(names@, name@, 0) == name_index(names@, name@, i as int),
    {
        if str_eq(names[i].as_str(), name) {
            return Some(i);
        }
    }
    None
}


/// Every byte read as a Latin-1 character: the fallback when a text is not
/// UTF-8.
pub open spec fn latin1_decode(bytes: Seq<u8>) -> Seq<char> {
    bytes.map_values(|b: u8| b as char)
}

/// What a text file's bytes read as: UTF-8 where they are valid UTF-8, one
/// Latin-1 character per byte otherwise.
pub open spec fn spec_decode_text(bytes: Seq<u8>) -> Seq<char> {
    if vstd::utf8::valid_utf8(bytes) {
        vstd::utf8::decode_utf8(bytes)
    } else {
        latin1_decode(bytes)
    }
}

/// Relies on `core::str::from_utf8` and `str::chars`: decodes the bytes as
/// UTF-8 exactly when they are valid UTF-8.
#[verifier::external_body]
pub(crate) fn utf8_chars(bytes: &[u8]) -> (r: Option<Vec<char>>)
    ensures
        r is Some <==> vstd::utf8::valid_utf8(bytes@),
        r is Some ==> r.unwrap()@ == vstd::utf8::decode_utf8(bytes@),
{
    core::str::from_utf8(bytes).ok().map(|s| s.chars().collect())
}

/// Relies on `str::chars`: the characters of a string slice, in order.
#[verifier::external_body]
pub(crate) fn str_chars(s: &str) -> (r: Vec<char>)
    ensures
        r@ == s@,
{
    s.chars().collect()
}

/// Relies on `String::push`: appends one character.
#[verifier::external_body]
pub(crate) fn string_push(s: &mut String, c: char)
    ensures
        final(s)@ == old(s)@.push(c),
{
    s.push(c);
}

/// Relies on `u8 as char` (`char::from`): a byte is the Unicode code point
/// of the same value — the Latin-1 reading.
#[verifier::external_body]
pub(crate) fn byte_char(b: u8) -> (r: char)
    ensures
        r == b as char,
{
    char::from(b)
}

/// The ASCII lowering of one character.
pub open spec fn spec_lower_char(c: char) -> char {
    if 'A' <= c <= 'Z' {
        ((c as u8) + 32) as char
    } else {
        c
    }
}

/// Relies on `char::to_ascii_lowercase`: 'A' through 'Z' map to their lower
/// case, everything else is unchanged.
#[verifier::external_body]
pub(crate) fn lower_char(c: char) -> (r: char)
    ensures
        r == spec_lower_char(c),
{
    c.to_ascii_lowercase()
}

/// Reads the bytes of one text file: as UTF-8 when they are valid UTF-8, as
/// Latin-1 otherwise.
#[verifier::loop_isolation(false)]
pub(crate) fn decode_text(bytes: &Vec<u8>) -> (r: Vec<char>)
    ensures
        r@ == spec_decode_text(bytes@),
{
    match utf8_chars(bytes.as_slice()) {
        Some(cs) => cs,
        None => {
            let mut out: Vec<char> = Vec::new();
            let n = bytes.len();
            for i in 0..n
                invariant
                    out@ == latin1_decode(bytes@.take(i as int)),
            {
                out.push(byte_char(bytes[i]));
                proof {
                    assert(out@ =~= latin1_decode(bytes@.take(i + 1)));
                }
            }
            proof {
                assert(bytes@.take(n as int) =~= bytes@);
            }
            out
        },
    }
}

/// Builds a string from characters.
#[verifier::loop_isolation(false)]
pub(crate) fn chars_to_string(cs: &[char]) -> (r: String)
    ensures
        r@ == cs@,
{
    let mut s = String::new();
    let n = cs.len();
    for i in 0..n
        invariant
            s@ == cs@.take(i as int),
    {
        string_push(&mut s, cs[i]);
        proof {
            assert(s@ =~= cs@.take(i + 1));
        }
    }
    proof {
        assert(cs@.take(n as int) =~= cs@);
    }
    s
}

/// ASCII whitespace: what separates a rules-file command from its record.
pub open spec fn spec_is_ws(c: char) -> bool {
    c == ' ' || c == '\t' || c == '\r' || c == '\u{b}' || c == '\u{c}'
}

/// Whether `c` is ASCII whitespace.
pub fn is_ws(c: char) -> (r: bool)
    ensures
        r == spec_is_ws(c),
{
    c == ' ' || c == '\t' || c == '\r' || c == '\u{b}' || c == '\u{c}'
}

} // verus!
