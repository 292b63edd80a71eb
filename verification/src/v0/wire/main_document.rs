//! The wire forms of a main document and of its parts.

use crate::crypto::CHACHAPOLY_NONCE_LENGTH;
use crate::v0::wire::extend;
use crate::v0::wire::helpers::{
    ciphertext_wire, lemma_parse_ciphertext, lemma_parse_tagged, parse_ciphertext, parse_tagged,
    put_ciphertext, put_tagged, take_chachapoly_ciphertext, take_tagged,
    PREFIX_CHACHA20POLY1305_NONCE,
};
use crate::v0::wire::internal::{identity_wire, lemma_identity_round_trip, parse_identity};
use crate::v0::wire::varint::{decode_u32, encode_u32, lemma_parse_u32, parse_u32, varint};
use crate::v0::wire::{FromWire, ToWire, WireError};
use crate::v0::{
    Identity, MainDocument, MainDocumentBuilder, MainDocumentBuilderView, MainDocumentMeta,
    MainDocumentView, PAPERBACK_VERSION,
};
use vstd::prelude::*;
use vstd::slice::slice_to_vec;

verus! {

/// The wire form of the meta data of a main document: the version and the
/// quorum size.
pub open spec fn meta_wire(meta: MainDocumentMeta) -> Seq<u8> {
    varint(meta.version as nat) + varint(meta.quorum_size as nat)
}

/// What the start of `input` is read as where the meta data of a main
/// document stand there.
pub open spec fn parse_meta(input: Seq<u8>) -> Result<(MainDocumentMeta, Seq<u8>), WireError> {
    match parse_u32(input) {
        Ok((version, r1)) => match parse_u32(r1) {
            Ok((quorum_size, r2)) => Ok((MainDocumentMeta { version, quorum_size }, r2)),
            Err(e) => Err(e),
        },
        Err(e) => Err(e),
    }
}

impl ToWire for MainDocumentMeta {
    open spec fn wire(&self) -> Seq<u8> {
        meta_wire(*self)
    }

    fn to_wire(&self) -> (bytes: Vec<u8>) {
        let mut bytes: Vec<u8> = Vec::new();
        // Encode version.
        extend(&mut bytes, encode_u32(self.version).as_slice());
        // Encode quorum size.
        extend(&mut bytes, encode_u32(self.quorum_size).as_slice());
        assert(bytes@ =~= meta_wire(*self));
        bytes
    }
}

impl FromWire for MainDocumentMeta {
    open spec fn parse(input: Seq<u8>) -> Result<(MainDocumentMeta, Seq<u8>), WireError> {
        parse_meta(input)
    }

    fn from_wire_partial(input: &[u8]) -> (res: Result<(&[u8], MainDocumentMeta), WireError>) {
        let (version, r1) = match decode_u32(input) {
            Ok(v) => v,
            Err(e) => { return Err(e); },
        };
        let (quorum_size, r2) = match decode_u32(r1) {
            Ok(v) => v,
            Err(e) => { return Err(e); },
        };
        Ok((r2, MainDocumentMeta { version, quorum_size }))
    }
}

/// The wire form of a main document before it is signed: the meta data,
/// the tag of a nonce, the nonce, and the ciphertext.
pub open spec fn main_document_builder_wire(m: MainDocumentBuilderView) -> Seq<u8> {
    meta_wire(m.meta) + varint(PREFIX_CHACHA20POLY1305_NONCE as nat) + m.nonce + ciphertext_wire(
        m.ciphertext,
    )
}

/// What the start of `input` is read as where a main document stands there
/// that is not signed.
pub open spec fn parse_main_document_builder(input: Seq<u8>) -> Result<
    (MainDocumentBuilderView, Seq<u8>),
    WireError,
> {
    match parse_meta(input) {
        Ok((meta, r1)) => match parse_tagged(
            r1,
            PREFIX_CHACHA20POLY1305_NONCE,
            CHACHAPOLY_NONCE_LENGTH as nat,
        ) {
            Ok((nonce, r2)) => match parse_ciphertext(r2) {
                Ok((ciphertext, r3)) => Ok(
                    (MainDocumentBuilderView { meta, nonce, ciphertext }, r3),
                ),
                Err(e) => Err(e),
            },
            Err(e) => Err(e),
        },
        Err(e) => Err(e),
    }
}

impl ToWire for MainDocumentBuilder {
    open spec fn wire(&self) -> Seq<u8> {
        main_document_builder_wire(self@)
    }

    fn to_wire(&self) -> (bytes: Vec<u8>) {
        let mut bytes: Vec<u8> = Vec::new();
        // Encode metadata.
        extend(&mut bytes, self.meta.to_wire().as_slice());
        // Encode nonce.
        put_tagged(&mut bytes, PREFIX_CHACHA20POLY1305_NONCE, self.nonce.as_slice());
        // Encode ciphertext.
        put_ciphertext(&mut bytes, self.ciphertext.as_slice());
        assert(bytes@ =~= main_document_builder_wire(self@));
        bytes
    }
}

impl FromWire for MainDocumentBuilder {
    open spec fn parse(input: Seq<u8>) -> Result<(MainDocumentBuilderView, Seq<u8>), WireError> {
        parse_main_document_builder(input)
    }

    fn from_wire_partial(input: &[u8]) -> (res: Result<(&[u8], MainDocumentBuilder), WireError>) {
        let (r1, meta) = match MainDocumentMeta::from_wire_partial(input) {
            Ok(v) => v,
            Err(e) => { return Err(e); },
        };
        let (nonce, r2) = match take_tagged(
            r1,
            PREFIX_CHACHA20POLY1305_NONCE,
            CHACHAPOLY_NONCE_LENGTH,
        ) {
            Ok(v) => v,
            Err(e) => { return Err(e); },
        };
        let (ciphertext, r3) = match take_chachapoly_ciphertext(r2) {
            Ok(v) => v,
            Err(e) => { return Err(e); },
        };
        Ok(
            (
                r3,
                MainDocumentBuilder {
                    meta,
                    nonce: slice_to_vec(nonce),
                    ciphertext: slice_to_vec(ciphertext),
                },
            ),
        )
    }
}

/// The wire form of a main document: what is signed, and who signed it.
pub open spec fn main_document_wire(m: MainDocumentView) -> Seq<u8> {
    main_document_builder_wire(m.inner) + identity_wire(m.identity)
}

/// What the start of `input` is read as where a main document stands there.
/// One of another version than zero is refused.
pub open spec fn parse_main_document(input: Seq<u8>) -> Result<
    (MainDocumentView, Seq<u8>),
    WireError,
> {
    match parse_main_document_builder(input) {
        Ok((inner, r1)) => match parse_identity(r1) {
            Ok((identity, r2)) => if inner.meta.version != PAPERBACK_VERSION {
                Err(WireError::UnsupportedVersion)
            } else {
                Ok((MainDocumentView { inner, identity }, r2))
            },
            Err(e) => Err(e),
        },
        Err(e) => Err(e),
    }
}

impl ToWire for MainDocument {
    open spec fn wire(&self) -> Seq<u8> {
        main_document_wire(self@)
    }

    fn to_wire(&self) -> (bytes: Vec<u8>) {
        let mut bytes: Vec<u8> = Vec::new();
        extend(&mut bytes, self.inner.to_wire().as_slice());
        extend(&mut bytes, self.identity.to_wire().as_slice());
        assert(bytes@ =~= main_document_wire(self@));
        bytes
    }
}

impl FromWire for MainDocument {
    open spec fn parse(input: Seq<u8>) -> Result<(MainDocumentView, Seq<u8>), WireError> {
        parse_main_document(input)
    }

    fn from_wire_partial(input: &[u8]) -> (res: Result<(&[u8], MainDocument), WireError>) {
        let (r1, inner) = match MainDocumentBuilder::from_wire_partial(input) {
            Ok(v) => v,
            Err(e) => { return Err(e); },
        };
        let (r2, identity) = match Identity::from_wire_partial(r1) {
            Ok(v) => v,
            Err(e) => { return Err(e); },
        };
        if inner.meta.version != PAPERBACK_VERSION {
            return Err(WireError::UnsupportedVersion);
        }
        Ok((r2, MainDocument { inner, identity }))
    }
}

/// Meta data that were written are read again.
pub proof fn lemma_meta_round_trip(meta: MainDocumentMeta, rest: Seq<u8>)
    ensures
        parse_meta(meta_wire(meta) + rest) == Ok::<(MainDocumentMeta, Seq<u8>), WireError>(
            (meta, rest),
        ),
{
    lemma_parse_u32(meta.version, varint(meta.quorum_size as nat) + rest);
    lemma_parse_u32(meta.quorum_size, rest);
    assert(meta_wire(meta) + rest =~= varint(meta.version as nat) + (varint(
        meta.quorum_size as nat,
    ) + rest));
}

/// A main document that is not signed and was written is read again.
pub proof fn lemma_main_document_builder_round_trip(m: MainDocumentBuilderView, rest: Seq<u8>)
    requires
        m.nonce.len() == CHACHAPOLY_NONCE_LENGTH,
        m.ciphertext.len() <= usize::MAX,
    ensures
        parse_main_document_builder(main_document_builder_wire(m) + rest) == Ok::<
            (MainDocumentBuilderView, Seq<u8>),
            WireError,
        >((m, rest)),
{
    let w2 = ciphertext_wire(m.ciphertext) + rest;
    let w1 = varint(PREFIX_CHACHA20POLY1305_NONCE as nat) + m.nonce + w2;
    lemma_meta_round_trip(m.meta, w1);
    lemma_parse_tagged(PREFIX_CHACHA20POLY1305_NONCE, m.nonce, w2);
    lemma_parse_ciphertext(m.ciphertext, rest);
    assert(main_document_builder_wire(m) + rest =~= meta_wire(m.meta) + w1);
}

/// A main document that was written is read again.
pub proof fn lemma_main_document_round_trip(m: MainDocumentView, rest: Seq<u8>)
    requires
        m.wf(),
    ensures
        parse_main_document(main_document_wire(m) + rest) == Ok::<
            (MainDocumentView, Seq<u8>),
            WireError,
        >((m, rest)),
{
    lemma_main_document_builder_round_trip(m.inner, identity_wire(m.identity) + rest);
    lemma_identity_round_trip(m.identity, rest);
    assert(main_document_wire(m) + rest =~= main_document_builder_wire(m.inner) + (identity_wire(
        m.identity,
    ) + rest));
}

} // verus!
