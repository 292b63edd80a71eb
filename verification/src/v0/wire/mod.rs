//! The wire format: deterministic, length-prefixed, with multicodec-style
//! tags.

pub mod helpers;
pub mod internal;
pub mod key_shard;
pub mod main_document;
pub mod text;
pub mod varint;

use vstd::prelude::*;

verus! {

/// Why a sequence of bytes is not the wire form of a value.
#[derive(Debug, Clone, Copy, PartialEq, Eq, Structural)]
pub enum WireError {
    /// The input ends before the value does.
    Insufficient,
    /// A varint has more bytes than its type allows.
    Overflow,
    /// A varint ends in a zero byte that could have been dropped.
    NotMinimal,
    /// A tag is not the one that has to stand there.
    UnexpectedTag,
    /// A length or a count does not fit the machine.
    TooLong,
    /// A shard with the x value zero.
    ZeroShardX,
    /// The bytes of an ed25519 public key are not a point of the curve.
    InvalidPublicKey,
    /// The slot of a sealed secret key holds something else than zeroes.
    SealedKeyNotZero,
    /// The bytes of a multihash are not one that this library can hold.
    InvalidMultihash,
    /// The document checksum is not a Blake2b-256 hash.
    UnsupportedChecksum,
    /// The version of the format is not zero.
    UnsupportedVersion,
    /// A qr code part of an unknown kind.
    UnknownPartType,
    /// Bytes are left after the value.
    TrailingBytes,
}

/// Appends `more` to `bytes`.
pub fn extend(bytes: &mut Vec<u8>, more: &[u8])
    ensures
        final(bytes)@ == old(bytes)@ + more@,
{
    bytes.extend_from_slice(more);
    assert(bytes@ =~= old(bytes)@ + more@);
}

/// What a parser returned, with the value by its view and the bytes that
/// are left as a sequence.
pub open spec fn parsed_value<T: View>(res: Result<(&[u8], T), WireError>) -> Result<
    (T::V, Seq<u8>),
    WireError,
> {
    match res {
        Ok((rest, v)) => Ok((v@, rest@)),
        Err(e) => Err(e),
    }
}

/// What parsing a whole input returns where parsing its start returns
/// `res`: the value, if no byte is left.
pub open spec fn whole<V>(res: Result<(V, Seq<u8>), WireError>) -> Result<V, WireError> {
    match res {
        Ok((v, rest)) => if rest.len() == 0 {
            Ok(v)
        } else {
            Err(WireError::TrailingBytes)
        },
        Err(e) => Err(e),
    }
}

/// What a parser of a whole input returned, with the value by its view.
pub open spec fn whole_value<T: View>(res: Result<T, WireError>) -> Result<T::V, WireError> {
    match res {
        Ok(v) => Ok(v@),
        Err(e) => Err(e),
    }
}

/// Why multibase text is not the wire form of a value.
#[derive(Debug, Clone, Copy, PartialEq, Eq, Structural)]
pub enum TextError {
    /// The text is no multibase text.
    Multibase(text::MultibaseError),
    /// The bytes of the text are not the wire form of a value.
    Wire(WireError),
}

/// What multibase text is read as where parsing its bytes returns what
/// `parse` says.
pub open spec fn parse_text<V>(
    input: Seq<char>,
    parse: spec_fn(Seq<u8>) -> Result<(V, Seq<u8>), WireError>,
) -> Result<V, TextError> {
    match text::multibase_data(input) {
        Ok((_, data)) => match whole(parse(data)) {
            Ok(v) => Ok(v),
            Err(e) => Err(TextError::Wire(e)),
        },
        Err(e) => Err(TextError::Multibase(e)),
    }
}

/// What a parser of text returned, with the value by its view.
pub open spec fn text_value<T: View>(res: Result<T, TextError>) -> Result<T::V, TextError> {
    match res {
        Ok(v) => Ok(v@),
        Err(e) => Err(e),
    }
}

/// A value that has a wire form.
pub trait ToWire {
    /// The wire form of the value.
    spec fn wire(&self) -> Seq<u8>;

    /// Writes the value in its wire form.
    fn to_wire(&self) -> (bytes: Vec<u8>)
        ensures
            bytes@ == self.wire(),
    ;

    /// The wire form of the value as multibase text.
    fn to_wire_multibase(&self, base: text::Base) -> (s: String)
        ensures
            s@ == text::multibase_text(base.code(), self.wire()),
    {
        let bytes = self.to_wire();
        text::multibase_encode(base, bytes.as_slice())
    }
}

/// A value that can be read from its wire form.
pub trait FromWire: Sized + View {
    /// What the start of `input` is read as, and the bytes that are left.
    spec fn parse(input: Seq<u8>) -> Result<(Self::V, Seq<u8>), WireError>;

    /// Reads a value from the start of `input` and returns it with the
    /// bytes that are left.
    fn from_wire_partial(input: &[u8]) -> (res: Result<(&[u8], Self), WireError>)
        ensures
            parsed_value(res) == Self::parse(input@),
    ;

    /// Reads a value from the whole of `input`.
    fn from_wire(input: &[u8]) -> (res: Result<Self, WireError>)
        ensures
            whole_value(res) == whole(Self::parse(input@)),
    {
        match Self::from_wire_partial(input) {
            Ok((rest, value)) => {
                if rest.len() == 0 {
                    Ok(value)
                } else {
                    Err(WireError::TrailingBytes)
                }
            },
            Err(e) => Err(e),
        }
    }

    /// Reads a value from multibase text of its wire form.
    fn from_wire_multibase(input: &str) -> (res: Result<Self, TextError>)
        ensures
            text_value(res) == parse_text(input@, |bytes: Seq<u8>| Self::parse(bytes)),
    {
        match text::multibase_decode(input) {
            Ok((_, data)) => match Self::from_wire(data.as_slice()) {
                Ok(value) => Ok(value),
                Err(e) => Err(TextError::Wire(e)),
            },
            Err(e) => Err(TextError::Multibase(e)),
        }
    }
}

} // verus!
