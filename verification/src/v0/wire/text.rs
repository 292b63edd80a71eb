//! Multibase text: a string whose first character names the base in which
//! the rest encodes a sequence of bytes.

use vstd::prelude::*;

verus! {

/// The bases in which this library writes and reads multibase text.
#[derive(Debug, Clone, Copy, PartialEq, Eq, Structural)]
pub enum Base {
    /// Base10 (alphabet: 0123456789).
    Base10,
    /// Base16 lower hexadecimal (alphabet: 0123456789abcdef).
    Base16Lower,
    /// Base32, rfc4648 no padding (alphabet: abcdefghijklmnopqrstuvwxyz234567).
    Base32Lower,
    /// z-base-32 (used by Tahoe-LAFS) (alphabet: ybndrfg8ejkmcpqxot1uwisza345h769).
    Base32Z,
    /// Base58 bitcoin.
    Base58Btc,
    /// Base64, rfc4648 no padding.
    Base64,
    /// Base64 url, rfc4648 no padding.
    Base64Url,
}

impl Base {
    /// The character that names the base at the start of a text.
    pub open spec fn code(self) -> char {
        match self {
            Base::Base10 => '9',
            Base::Base16Lower => 'f',
            Base::Base32Lower => 'b',
            Base::Base32Z => 'h',
            Base::Base58Btc => 'z',
            Base::Base64 => 'm',
            Base::Base64Url => 'u',
        }
    }
}

/// Why a string is not multibase text.
#[derive(Debug, Clone, Copy, PartialEq, Eq, Structural)]
pub enum MultibaseError {
    /// The first character names no base.
    UnknownBase(char),
    /// The string is empty, or what follows the first character is not
    /// written in its base, or holds more bytes than the value it is read
    /// for.
    InvalidBaseString,
}

/// The multibase text of `data` in the base that `code` names
/// (`multibase::encode`).
pub uninterp spec fn multibase_text(code: char, data: Seq<u8>) -> Seq<char>;

/// What decoding makes of `text` (`multibase::decode`): the character that
/// names its base and the bytes that it encodes, or why it has none.
pub uninterp spec fn multibase_data(text: Seq<char>) -> Result<(char, Seq<u8>), MultibaseError>;

/// What the decoder returned, with the bytes as a sequence.
pub open spec fn decoded(res: Result<(char, Vec<u8>), MultibaseError>) -> Result<
    (char, Seq<u8>),
    MultibaseError,
> {
    match res {
        Ok((code, data)) => Ok((code, data@)),
        Err(e) => Err(e),
    }
}

/// Whether `res` is what was encoded, wherever `text` is the text of some
/// bytes in one of the bases of this library.
pub open spec fn inverts_encoding(
    text: Seq<char>,
    res: Result<(char, Seq<u8>), MultibaseError>,
) -> bool {
    forall|base: Base, data: Seq<u8>|
        text == multibase_text(base.code(), data) ==> res == Ok::<(char, Seq<u8>), MultibaseError>(
            (base.code(), data),
        )
}

/// The multibase text of `data` in `base` (`multibase::encode`).
#[verifier::external_body]
pub(crate) fn multibase_encode(base: Base, data: &[u8]) -> (text: String)
    ensures
        text@ == multibase_text(base.code(), data@),
{
    let base = match base {
        Base::Base10 => multibase::Base::Base10,
        Base::Base16Lower => multibase::Base::Base16Lower,
        Base::Base32Lower => multibase::Base::Base32Lower,
        Base::Base32Z => multibase::Base::Base32Z,
        Base::Base58Btc => multibase::Base::Base58Btc,
        Base::Base64 => multibase::Base::Base64,
        Base::Base64Url => multibase::Base::Base64Url,
    };
    multibase::encode(base, data)
}

/// Decodes multibase text (`multibase::decode`) into the character that
/// names its base and the bytes. Text that was encoded in one of the bases
/// of this library decodes to what was encoded.
#[verifier::external_body]
pub(crate) fn multibase_decode(text: &str) -> (res: Result<(char, Vec<u8>), MultibaseError>)
    ensures
        decoded(res) == multibase_data(text@),
        inverts_encoding(text@, decoded(res)),
{
    match multibase::decode(text) {
        Ok((base, data)) => Ok((base.code(), data)),
        Err(multibase::Error::UnknownBase(code)) => Err(MultibaseError::UnknownBase(code)),
        Err(multibase::Error::InvalidBaseString) => Err(MultibaseError::InvalidBaseString),
    }
}

/// What a sequence of strings holds.
pub open spec fn texts(words: Seq<String>) -> Seq<Seq<char>> {
    words.map_values(|w: String| w@)
}

/// The words joined, with one space between two.
pub open spec fn joined(words: Seq<Seq<char>>) -> Seq<char>
    decreases words.len(),
{
    if words.len() == 0 {
        Seq::empty()
    } else if words.len() == 1 {
        words[0]
    } else {
        joined(words.drop_last()) + seq![' '] + words.last()
    }
}

/// The text in lower case (`str::to_lowercase`).
pub uninterp spec fn lowercase(text: Seq<char>) -> Seq<char>;

/// The words of a text: what stands between its white space
/// (`str::split_whitespace`).
pub uninterp spec fn words_of(text: Seq<char>) -> Seq<Seq<char>>;

/// Whether a character names a multibase base: one of the 25 that the
/// multibase crate has.
pub open spec fn multibase_code_known(code: char) -> bool {
    seq![
        '\u{0}',
        '0',
        '7',
        '9',
        'f',
        'F',
        'b',
        'B',
        'c',
        'C',
        'v',
        'V',
        't',
        'T',
        'h',
        'k',
        'K',
        'R',
        'Z',
        'z',
        'm',
        'M',
        'u',
        'U',
        '\u{1F680}',
    ].contains(code)
}

/// Joins words with one space between two (`[String]::join`).
#[verifier::external_body]
pub(crate) fn join_words(words: &[String]) -> (text: String)
    ensures
        text@ == joined(texts(words@)),
{
    words.join(" ")
}

/// The text in lower case (`str::to_lowercase`).
#[verifier::external_body]
pub(crate) fn to_lowercase(text: &str) -> (lower: String)
    ensures
        lower@ == lowercase(text@),
{
    text.to_lowercase()
}

/// The words of a text (`str::split_whitespace`).
#[verifier::external_body]
pub(crate) fn split_words(text: &str) -> (words: Vec<String>)
    ensures
        texts(words@) == words_of(text@),
{
    text.split_whitespace().map(|w| w.to_owned()).collect()
}

/// Whether a character names a multibase base (`multibase::Base::from_code`
/// succeeds): the crate has a base for each of 25 characters and for no
/// other.
#[verifier::external_body]
pub(crate) fn is_multibase_code(code: char) -> (known: bool)
    ensures
        known == multibase_code_known(code),
{
    multibase::Base::from_code(code).is_ok()
}

/// The text without the characters of `unwanted` (`str::replace` of a set
/// of characters by nothing).
#[verifier::external_body]
pub(crate) fn remove_chars(text: &str, unwanted: &[char]) -> (kept: String)
    ensures
        kept@ == text@.filter(|c: char| !unwanted@.contains(c)),
{
    text.replace(unwanted, "")
}

/// The first character of a text.
pub fn first_char(text: &str) -> (first: Option<char>)
    ensures
        first == (if text@.len() == 0 {
            None
        } else {
            Some(text@[0])
        }),
{
    broadcast use vstd::string::axiom_spec_iter, vstd::string::next_postcondition;

    let mut chars = text.chars();
    chars.next()
}

/// Removes from multibase text what is not part of it: tabs, spaces and
/// line ends, and the `-` that separates groups of characters, unless the
/// base is url-base64, whose alphabet holds `-`.
pub fn multibase_strip(data: &str) -> (res: Result<String, MultibaseError>)
    ensures
        data@.len() == 0 ==> res == Err::<String, MultibaseError>(
            MultibaseError::InvalidBaseString,
        ),
        data@.len() > 0 && !multibase_code_known(data@[0]) ==> res == Err::<
            String,
            MultibaseError,
        >(MultibaseError::UnknownBase(data@[0])),
        data@.len() > 0 && multibase_code_known(data@[0]) ==> (res matches Ok(kept) && kept@
            == stripped(data@)),
{
    match first_char(data) {
        Some(ch) => {
            if !is_multibase_code(ch) {
                return Err(MultibaseError::UnknownBase(ch));
            }
            if ch == 'u' || ch == 'U' {
                let unwanted: [char; 3] = ['\t', ' ', '\n'];
                let kept = remove_chars(data, unwanted.as_slice());
                proof {
                    assert(unwanted@ =~= seq!['\t', ' ', '\n']);
                    assert(kept@ =~= stripped(data@)) by {
                        assert((|c: char| !unwanted@.contains(c)) =~= (|c: char|
                            !seq!['\t', ' ', '\n'].contains(c)));
                    }
                }
                Ok(kept)
            } else {
                let unwanted: [char; 4] = ['\t', ' ', '\n', '-'];
                let kept = remove_chars(data, unwanted.as_slice());
                proof {
                    assert(unwanted@ =~= seq!['\t', ' ', '\n', '-']);
                    assert(kept@ =~= stripped(data@)) by {
                        assert((|c: char| !unwanted@.contains(c)) =~= (|c: char|
                            !seq!['\t', ' ', '\n', '-'].contains(c)));
                    }
                }
                Ok(kept)
            }
        },
        None => Err(MultibaseError::InvalidBaseString),
    }
}

/// Multibase text without what is not part of it.
pub open spec fn stripped(data: Seq<char>) -> Seq<char> {
    if data[0] == 'u' || data[0] == 'U' {
        data.filter(|c: char| !seq!['\t', ' ', '\n'].contains(c))
    } else {
        data.filter(|c: char| !seq!['\t', ' ', '\n', '-'].contains(c))
    }
}

} // verus!
