//! What this crate takes from outside: the functions of the standard
//! library and of other crates that it calls without a proof of what they
//! do. Each stands here with what is taken for granted of it.
use crate::text::{ascending, lines};
use vstd::prelude::*;

verus! {

/// Whether a character is white space in the sense of the standard library.
pub uninterp spec fn whitespace(c: char) -> bool;

/// `char::is_whitespace` of the standard library, which tells whether a
/// character has the Unicode property `White_Space`. Nothing is claimed of
/// any particular character: the answer is named [`whitespace`].
pub assume_specification[ char::is_whitespace ](c: char) -> (b: bool)
    ensures
        b == whitespace(c),
;

/// `String::push` of the standard library appends one character.
pub assume_specification[ std::string::String::push ](s: &mut std::string::String, c: char)
    ensures
        final(s)@ == old(s)@.push(c),
;

/// `str`'s equality of the standard library: two strings are equal when they
/// hold the same characters.
#[verifier::external_body]
pub(crate) fn same_text(a: &str, b: &str) -> (r: bool)
    ensures
        r == (a@ == b@),
{
    a == b
}

/// `sort` on a slice of `String`s, of the standard library. It puts the
/// strings in ascending order, and strings are ordered as in a dictionary by
/// their bytes, which is the order of their code points. The contract claims
/// that and that the strings are the same as before, each as often.
#[verifier::external_body]
pub(crate) fn sort_texts(list: &mut Vec<String>)
    ensures
        ascending(lines(final(list)@)),
        lines(final(list)@).to_multiset() == lines(old(list)@).to_multiset(),
{
    list.sort()
}

/// What the standard library prints for a string with `{:?}`: the string in
/// double quotes, with escapes for what cannot stand there as it is.
pub uninterp spec fn quoted(s: Seq<char>) -> Seq<char>;

/// `format!` of the standard library with `{:?}` on a string. The result is
/// named [`quoted`]; nothing more is claimed of it.
#[verifier::external_body]
pub(crate) fn quote(s: &str) -> (r: String)
    ensures
        r@ == quoted(s@),
{
    format!("{:?}", s)
}

/// What the standard library prints for a slice of strings with `{:?}`.
pub uninterp spec fn quoted_list(items: Seq<Seq<char>>) -> Seq<char>;

/// `format!` of the standard library with `{:?}` on a slice of strings. The
/// result is named [`quoted_list`]; nothing more is claimed of it.
#[verifier::external_body]
pub(crate) fn quote_list(items: &[&str]) -> (r: String)
    ensures
        r@ == quoted_list(Seq::new(items@.len(), |i: int| items@[i]@)),
{
    format!("{:?}", items)
}

/// The successive matches of a regular expression in a text, or the message
/// of the error if the expression cannot be compiled.
pub uninterp spec fn regex_matches(pattern: Seq<char>, text: Seq<char>) -> Result<
    Seq<Seq<char>>,
    Seq<char>,
>;

/// `Regex::new` and `Regex::captures_iter` of the crate `regex`: the pattern
/// is compiled and, if that succeeds, its successive matches in the text,
/// which do not overlap, are gone through; of each the whole match (group 0)
/// is taken. If the pattern does not compile, the error is given as the text
/// that its `Display` prints. The result is named [`regex_matches`]; nothing
/// more is claimed of it.
#[verifier::external_body]
pub(crate) fn find_matches(pattern: &str, text: &str) -> (r: Result<Vec<String>, String>)
    ensures
        match r {
            Ok(found) => regex_matches(pattern@, text@) == Ok::<Seq<Seq<char>>, Seq<char>>(
                lines(found@),
            ),
            Err(message) => regex_matches(pattern@, text@) == Err::<Seq<Seq<char>>, Seq<char>>(
                message@,
            ),
        },
{
    match regex::Regex::new(pattern) {
        Ok(regex) => {
            let mut found = Vec::new();
            for capture in regex.captures_iter(text) {
                found.push(capture[0].to_string());
            }
            Ok(found)
        },
        Err(error) => Err(format!("{}", error)),
    }
}

/// The bytes that a text in the standard Base64 alphabet, with padding,
/// stands for, or the message of the error if it stands for none.
pub uninterp spec fn base64_decoded(text: Seq<char>) -> Result<Seq<u8>, Seq<char>>;

/// `decode` of the crate `base64`, which decodes with the standard
/// configuration. An error is given as the text that its `Display` prints.
/// The result is named [`base64_decoded`]; nothing more is claimed of it.
#[verifier::external_body]
pub(crate) fn decode_base64(text: &str) -> (r: Result<Vec<u8>, String>)
    ensures
        match r {
            Ok(bytes) => base64_decoded(text@) == Ok::<Seq<u8>, Seq<char>>(bytes@),
            Err(message) => base64_decoded(text@) == Err::<Seq<u8>, Seq<char>>(message@),
        },
{
    match base64::decode(text) {
        Ok(bytes) => Ok(bytes),
        Err(error) => Err(format!("{}", error)),
    }
}

/// The number that a text stands for as an `i32`, if it stands for one.
pub uninterp spec fn parsed_i32(text: Seq<char>) -> Option<i32>;

/// `str::parse` of the standard library for `i32`: an optional sign and
/// decimal digits, within the range of the type. The result is named
/// [`parsed_i32`]; nothing more is claimed of it.
#[verifier::external_body]
pub(crate) fn parse_i32(text: &str) -> (r: Option<i32>)
    ensures
        r == parsed_i32(text@),
{
    text.parse::<i32>().ok()
}

/// The number that a text stands for as a `u8`, if it stands for one.
pub uninterp spec fn parsed_u8(text: Seq<char>) -> Option<u8>;

/// `str::parse` of the standard library for `u8`. The result is named
/// [`parsed_u8`]; nothing more is claimed of it.
#[verifier::external_body]
pub(crate) fn parse_u8(text: &str) -> (r: Option<u8>)
    ensures
        r == parsed_u8(text@),
{
    text.parse::<u8>().ok()
}

/// The number that a text stands for as a `u64`, if it stands for one.
pub uninterp spec fn parsed_u64(text: Seq<char>) -> Option<u64>;

/// `str::parse` of the standard library for `u64`. The result is named
/// [`parsed_u64`]; nothing more is claimed of it.
#[verifier::external_body]
pub(crate) fn parse_u64(text: &str) -> (r: Option<u64>)
    ensures
        r == parsed_u64(text@),
{
    text.parse::<u64>().ok()
}

/// The error of the standard library for bytes that are not UTF-8.
#[verifier::external_type_specification]
#[verifier::external_body]
pub struct ExUtf8Error(core::str::Utf8Error);

/// `core::str::from_utf8` of the standard library: it checks that the bytes
/// are valid UTF-8 and, if they are, gives the same bytes back as a string
/// slice.
pub assume_specification<'a>[ core::str::from_utf8 ](v: &'a [u8]) -> (r: Result<
    &'a str,
    core::str::Utf8Error,
>)
    ensures
        r is Ok == vstd::utf8::valid_utf8(v@),
        r matches Ok(s) ==> vstd::utf8::encode_utf8(s@) == v@,
;

} // verus!
