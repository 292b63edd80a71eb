//! The parts that the data of a main document is split into, one for each
//! qr code, and the joiner that puts them together again.

use crate::v0::wire::extend;
use crate::v0::pdf::Error;
use crate::v0::wire::varint::{
    decode_u32, decode_usize, encode_u32, encode_usize, lemma_parse_u32, lemma_parse_u64,
    parse_u32, parse_usize, varint,
};
use crate::v0::wire::text::{multibase_encode, multibase_text, texts, Base};
use crate::v0::wire::{FromWire, ToWire, WireError};
use crate::v0::PAPERBACK_VERSION;
use vstd::prelude::*;
use vstd::slice::{slice_subrange, slice_to_vec};

verus! {

/// The kind of data that a part belongs to.
#[derive(Copy, Clone, Debug, PartialEq, Eq, Structural)]
pub enum PartType {
    /// The data of a main document, written as the letter `D`.
    MainDocumentData,
}

impl View for PartType {
    type V = PartType;

    open spec fn view(&self) -> PartType {
        *self
    }
}

/// What the start of `input` is read as where the kind of a part stands
/// there.
pub open spec fn parse_part_type(input: Seq<u8>) -> Result<(PartType, Seq<u8>), WireError> {
    if input.len() == 0 {
        Err(WireError::Insufficient)
    } else if input[0] == 0x44 {
        Ok((PartType::MainDocumentData, input.skip(1)))
    } else {
        Err(WireError::UnknownPartType)
    }
}

impl ToWire for PartType {
    open spec fn wire(&self) -> Seq<u8> {
        seq![0x44u8]
    }

    fn to_wire(&self) -> (bytes: Vec<u8>) {
        let mut bytes: Vec<u8> = Vec::new();
        bytes.push(0x44u8);
        assert(bytes@ =~= seq![0x44u8]);
        bytes
    }
}

impl FromWire for PartType {
    open spec fn parse(input: Seq<u8>) -> Result<(PartType, Seq<u8>), WireError> {
        parse_part_type(input)
    }

    fn from_wire_partial(input: &[u8]) -> (res: Result<(&[u8], PartType), WireError>) {
        if input.len() == 0 {
            Err(WireError::Insufficient)
        } else if input[0] == 0x44 {
            let rest = slice_subrange(input, 1, input.len());
            assert(rest@ =~= input@.skip(1));
            Ok((rest, PartType::MainDocumentData))
        } else {
            Err(WireError::UnknownPartType)
        }
    }
}

/// What all parts of one piece of data say: the version of the format, the
/// kind of the data, and the number of parts.
#[derive(Copy, Clone, Debug, PartialEq, Eq, Structural)]
pub struct PartMeta {
    pub version: u32,
    pub data_type: PartType,
    pub num_parts: usize,
}

impl View for PartMeta {
    type V = PartMeta;

    open spec fn view(&self) -> PartMeta {
        *self
    }
}

/// The wire form of what the parts say: the version, the kind of the data,
/// and the number of parts.
pub open spec fn part_meta_wire(meta: PartMeta) -> Seq<u8> {
    varint(meta.version as nat) + seq![0x44u8] + varint(meta.num_parts as nat)
}

/// What the start of `input` is read as where the meta data of a part
/// stand there.
pub open spec fn parse_part_meta(input: Seq<u8>) -> Result<(PartMeta, Seq<u8>), WireError> {
    match parse_u32(input) {
        Ok((version, r1)) => match parse_part_type(r1) {
            Ok((data_type, r2)) => match parse_usize(r2) {
                Ok((num_parts, r3)) => Ok((PartMeta { version, data_type, num_parts }, r3)),
                Err(e) => Err(e),
            },
            Err(e) => Err(e),
        },
        Err(e) => Err(e),
    }
}

impl ToWire for PartMeta {
    open spec fn wire(&self) -> Seq<u8> {
        part_meta_wire(*self)
    }

    fn to_wire(&self) -> (bytes: Vec<u8>) {
        let mut bytes: Vec<u8> = Vec::new();
        // Encode version.
        extend(&mut bytes, encode_u32(self.version).as_slice());
        // Encode data type.
        extend(&mut bytes, self.data_type.to_wire().as_slice());
        // Encode number of parts.
        extend(&mut bytes, encode_usize(self.num_parts).as_slice());
        bytes
    }
}

impl FromWire for PartMeta {
    open spec fn parse(input: Seq<u8>) -> Result<(PartMeta, Seq<u8>), WireError> {
        parse_part_meta(input)
    }

    fn from_wire_partial(input: &[u8]) -> (res: Result<(&[u8], PartMeta), WireError>) {
        let (version, r1) = match decode_u32(input) {
            Ok(v) => v,
            Err(e) => { return Err(e); },
        };
        let (r2, data_type) = match PartType::from_wire_partial(r1) {
            Ok(v) => v,
            Err(e) => { return Err(e); },
        };
        let (num_parts, r3) = match decode_usize(r2) {
            Ok(v) => v,
            Err(e) => { return Err(e); },
        };
        Ok((r3, PartMeta { version, data_type, num_parts }))
    }
}

/// What a part holds.
pub struct PartView {
    pub meta: PartMeta,
    pub part_idx: usize,
    pub data: Seq<u8>,
}

/// One part of the data of a document: what a qr code holds.
#[derive(Debug)]
pub struct Part {
    pub(crate) meta: PartMeta,
    pub(crate) part_idx: usize,
    pub(crate) data: Vec<u8>,
}

impl View for Part {
    type V = PartView;

    closed spec fn view(&self) -> PartView {
        PartView { meta: self.meta, part_idx: self.part_idx, data: self.data@ }
    }
}

impl Clone for Part {
    fn clone(&self) -> (c: Part)
        ensures
            c@ == self@,
    {
        Part { meta: self.meta, part_idx: self.part_idx, data: self.data.clone() }
    }
}

/// The two letters that a part starts with.
pub open spec fn part_prefix() -> Seq<u8> {
    seq![0x50u8, 0x62u8]
}

/// The wire form of a part: the letters `Pb`, what the parts say, the
/// index of the part, and its data.
pub open spec fn part_wire(part: PartView) -> Seq<u8> {
    part_prefix() + part_meta_wire(part.meta) + varint(part.part_idx as nat) + part.data
}

/// What `input` is read as where a part stands there. The data of the part
/// are all the bytes that follow its index.
pub open spec fn parse_part(input: Seq<u8>) -> Result<(PartView, Seq<u8>), WireError> {
    if input.len() < 2 {
        Err(WireError::Insufficient)
    } else if input.take(2) != part_prefix() {
        Err(WireError::UnexpectedTag)
    } else {
        match parse_part_meta(input.skip(2)) {
            Ok((meta, r1)) => match parse_usize(r1) {
                Ok((part_idx, r2)) => Ok((PartView { meta, part_idx, data: r2 }, Seq::empty())),
                Err(e) => Err(e),
            },
            Err(e) => Err(e),
        }
    }
}

impl Part {
    /// What all parts of the data say.
    pub fn meta(&self) -> (meta: PartMeta)
        ensures
            meta == self@.meta,
    {
        self.meta
    }

    /// The index of the part.
    pub fn index(&self) -> (idx: usize)
        ensures
            idx == self@.part_idx,
    {
        self.part_idx
    }

    /// The data of the part.
    pub fn data(&self) -> (data: &Vec<u8>)
        ensures
            data@ == self@.data,
    {
        &self.data
    }
}

impl ToWire for Part {
    open spec fn wire(&self) -> Seq<u8> {
        part_wire(self@)
    }

    fn to_wire(&self) -> (bytes: Vec<u8>) {
        // Start with Pb prefix.
        let mut bytes: Vec<u8> = Vec::new();
        bytes.push(0x50u8);
        bytes.push(0x62u8);
        assert(bytes@ =~= part_prefix());
        // Encode metadata.
        extend(&mut bytes, self.meta.to_wire().as_slice());
        // Encode part index.
        extend(&mut bytes, encode_usize(self.part_idx).as_slice());
        // Encode data.
        extend(&mut bytes, self.data.as_slice());
        bytes
    }
}

impl FromWire for Part {
    open spec fn parse(input: Seq<u8>) -> Result<(PartView, Seq<u8>), WireError> {
        parse_part(input)
    }

    fn from_wire_partial(input: &[u8]) -> (res: Result<(&[u8], Part), WireError>) {
        if input.len() < 2 {
            return Err(WireError::Insufficient);
        }
        if input[0] != 0x50 || input[1] != 0x62 {
            proof {
                assert(input@.take(2)[0] == input@[0]);
                assert(input@.take(2)[1] == input@[1]);
            }
            return Err(WireError::UnexpectedTag);
        }
        proof {
            assert(input@.take(2) =~= part_prefix());
        }
        let r0 = slice_subrange(input, 2, input.len());
        proof {
            assert(r0@ =~= input@.skip(2));
        }
        let (r1, meta) = match PartMeta::from_wire_partial(r0) {
            Ok(v) => v,
            Err(e) => { return Err(e); },
        };
        let (part_idx, r2) = match decode_usize(r1) {
            Ok(v) => v,
            Err(e) => { return Err(e); },
        };
        let rest = slice_subrange(r2, r2.len(), r2.len());
        proof {
            assert(rest@ =~= Seq::<u8>::empty());
        }
        Ok((rest, Part { meta, part_idx, data: slice_to_vec(r2) }))
    }
}

/// A part that was written is read again.
pub proof fn lemma_part_round_trip(part: PartView)
    ensures
        parse_part(part_wire(part)) == Ok::<(PartView, Seq<u8>), WireError>((part, Seq::empty())),
{
    let w3 = varint(part.part_idx as nat) + part.data;
    let w2 = varint(part.meta.num_parts as nat) + w3;
    let w1 = seq![0x44u8] + w2;
    let w0 = varint(part.meta.version as nat) + w1;
    let wire = part_wire(part);
    assert(wire =~= part_prefix() + w0);
    assert(wire.take(2) =~= part_prefix());
    assert(wire.skip(2) =~= w0);
    lemma_parse_u32(part.meta.version, w1);
    assert(w1.skip(1) =~= w2);
    lemma_parse_u64(part.meta.num_parts as u64, w3);
    lemma_parse_u64(part.part_idx as u64, part.data);
}

/// What the slots of a joiner hold.
pub open spec fn slot_views(parts: Seq<Option<Part>>) -> Seq<Option<PartView>> {
    parts.map_values(
        |p: Option<Part>|
            match p {
                Some(part) => Some(part@),
                None => None,
            },
    )
}

/// The number of slots among the first `n` that hold no part.
pub open spec fn missing(slots: Seq<Option<PartView>>, n: nat) -> nat
    decreases n,
{
    if n == 0 {
        0
    } else {
        missing(slots, (n - 1) as nat) + if slots[n - 1] is None {
            1nat
        } else {
            0nat
        }
    }
}

/// The data of the first `n` slots, one after another.
pub open spec fn joined_data(slots: Seq<Option<PartView>>, n: nat) -> Seq<u8>
    decreases n,
{
    if n == 0 {
        Seq::empty()
    } else {
        joined_data(slots, (n - 1) as nat) + match slots[n - 1] {
            Some(part) => part.data,
            None => Seq::empty(),
        }
    }
}

/// Puts the parts of one piece of data together.
#[derive(Debug)]
pub struct Joiner {
    meta: Option<PartMeta>,
    parts: Vec<Option<Part>>,
}

/// What adding `part` makes of a joiner that holds `meta` and `slots`: the
/// new state of the joiner, and why the part was not taken, if it was not.
/// With the first part the joiner takes what the part says and as many
/// empty slots as there are parts: also where the index of the part is
/// none of them.
pub open spec fn add_part_spec(
    meta: Option<PartMeta>,
    slots: Seq<Option<PartView>>,
    part: PartView,
) -> (Option<PartMeta>, Seq<Option<PartView>>, Option<Error>) {
    match meta {
        Some(m) => if m != part.meta || part.part_idx >= m.num_parts {
            (meta, slots, Some(Error::MismatchedQrCode))
        } else if part.meta.version != PAPERBACK_VERSION {
            (meta, slots, Some(Error::WrongPaperbackVersion { version: part.meta.version }))
        } else if part.part_idx >= slots.len() {
            (meta, slots, Some(Error::MismatchedQrCode))
        } else {
            (meta, slots.update(part.part_idx as int, Some(part)), None)
        },
        None => {
            let empty = Seq::new(part.meta.num_parts as nat, |i: int| None::<PartView>);
            if part.part_idx >= part.meta.num_parts {
                (Some(part.meta), empty, Some(Error::MismatchedQrCode))
            } else {
                (Some(part.meta), empty.update(part.part_idx as int, Some(part)), None)
            }
        },
    }
}

impl Default for Joiner {
    fn default() -> (j: Joiner)
        ensures
            j.meta() is None,
            j.slots().len() == 0,
    {
        Joiner::new()
    }
}

impl Joiner {
    /// What the parts say, once there is a part.
    pub closed spec fn meta(&self) -> Option<PartMeta> {
        self.meta
    }

    /// The slots of the parts.
    pub closed spec fn slots(&self) -> Seq<Option<PartView>> {
        slot_views(self.parts@)
    }

    /// A joiner without parts.
    pub fn new() -> (j: Joiner)
        ensures
            j.meta() is None,
            j.slots().len() == 0,
    {
        Joiner { meta: None, parts: Vec::new() }
    }

    /// The number of parts that are missing, once there is a part.
    pub fn remaining(&self) -> (n: Option<usize>)
        ensures
            n == (match self.meta() {
                Some(_) => Some(missing(self.slots(), self.slots().len()) as usize),
                None => None,
            }),
            n matches Some(count) ==> count == missing(self.slots(), self.slots().len()),
    {
        match self.meta {
            Some(_) => {
                let total = self.parts.len();
                let mut count: usize = 0;
                for i in 0..total
                    invariant
                        total == self.parts@.len(),
                        count == missing(slot_views(self.parts@), i as nat),
                        count <= i,
                {
                    if self.parts[i].is_none() {
                        count = count + 1;
                    }
                }
                Some(count)
            },
            None => None,
        }
    }

    /// Whether no part is missing.
    pub fn complete(&self) -> (b: bool)
        ensures
            b == (self.meta().is_some() && missing(self.slots(), self.slots().len()) == 0),
    {
        match self.remaining() {
            Some(n) => n == 0,
            None => false,
        }
    }

    /// Adds a part.
    #[verifier::rlimit(40)]
    pub fn add_part(&mut self, part: Part) -> (res: Result<(), Error>)
        ensures
            ({
                let (meta, slots, error) = add_part_spec(old(self).meta(), old(self).slots(), part@);
                &&& final(self).meta() == meta
                &&& final(self).slots() == slots
                &&& match error {
                    Some(e) => res == Err::<(), Error>(e),
                    None => res is Ok,
                }
            }),
    {
        match self.meta {
            Some(meta) => {
                if meta != part.meta || part.part_idx >= meta.num_parts {
                    return Err(Error::MismatchedQrCode);
                }
                if part.meta.version != PAPERBACK_VERSION {
                    return Err(Error::WrongPaperbackVersion { version: part.meta.version });
                }
            },
            None => {
                self.meta = Some(part.meta);
                let mut parts: Vec<Option<Part>> = Vec::new();
                let total = part.meta.num_parts;
                for i in 0..total
                    invariant
                        parts@.len() == i,
                        forall|j: int| 0 <= j < i ==> parts@[j] is None,
                {
                    parts.push(None);
                }
                self.parts = parts;
                proof {
                    assert(slot_views(self.parts@) =~= Seq::new(
                        total as nat,
                        |i: int| None::<PartView>,
                    ));
                }
            },
        }
        if part.part_idx >= self.parts.len() {
            return Err(Error::MismatchedQrCode);
        }
        let idx = part.part_idx;
        let ghost before = slot_views(self.parts@);
        let ghost view = part@;
        self.parts.set(idx, Some(part));
        proof {
            assert(slot_views(self.parts@) =~= before.update(idx as int, Some(view)));
        }
        Ok(())
    }

    /// Adds the part that the data of a qr code holds.
    pub fn add_qr_part(&mut self, qr_data: &str) -> (res: Result<(), Error>)
        ensures
            match crate::v0::wire::parse_text(qr_data@, |bytes: Seq<u8>| parse_part(bytes)) {
                Err(e) => res == Err::<(), Error>(Error::ParseQrData(e)) && final(self).meta()
                    == old(self).meta() && final(self).slots() == old(self).slots(),
                Ok(part) => {
                    let (meta, slots, error) = add_part_spec(
                        old(self).meta(),
                        old(self).slots(),
                        part,
                    );
                    &&& final(self).meta() == meta
                    &&& final(self).slots() == slots
                    &&& match error {
                        Some(e) => res == Err::<(), Error>(e),
                        None => res is Ok,
                    }
                },
            },
    {
        let part = match Part::from_wire_multibase(qr_data) {
            Ok(part) => part,
            Err(e) => {
                proof {
                    assert((|bytes: Seq<u8>| Part::parse(bytes)) =~= (|bytes: Seq<u8>|
                        parse_part(bytes)));
                }
                return Err(Error::ParseQrData(e));
            },
        };
        proof {
            assert((|bytes: Seq<u8>| Part::parse(bytes)) =~= (|bytes: Seq<u8>| parse_part(bytes)));
        }
        self.add_part(part)
    }

    /// The data of all parts, one after another, or the index of the first
    /// part that is missing.
    pub fn combine_parts(&self) -> (res: Result<Vec<u8>, Error>)
        ensures
            match res {
                Ok(bytes) => bytes@ == joined_data(self.slots(), self.slots().len()) && forall|
                    i: int,
                | 0 <= i < self.slots().len() ==> self.slots()[i] is Some,
                Err(e) => exists|idx: int|
                    {
                        &&& 0 <= idx < self.slots().len()
                        &&& e == Error::MissingQrSegment { idx: idx as usize }
                        &&& #[trigger] self.slots()[idx] is None
                        &&& forall|j: int| 0 <= j < idx ==> self.slots()[j] is Some
                    },
            },
    {
        let total = self.parts.len();
        let mut bytes: Vec<u8> = Vec::new();
        for idx in 0..total
            invariant
                total == self.parts@.len(),
                bytes@ == joined_data(slot_views(self.parts@), idx as nat),
                forall|j: int| 0 <= j < idx ==> slot_views(self.parts@)[j] is Some,
        {
            match &self.parts[idx] {
                Some(part) => {
                    extend(&mut bytes, part.data.as_slice());
                },
                None => {
                    proof {
                        assert(slot_views(self.parts@)[idx as int] is None);
                    }
                    return Err(Error::MissingQrSegment { idx });
                },
            }
        }
        Ok(bytes)
    }
}

/// The most bytes of data that a part holds.
pub const MAX_DATA_LENGTH: usize = 605;

/// The number of parts that data of `len` bytes is split into.
pub open spec fn part_count(len: nat) -> nat {
    (len + MAX_DATA_LENGTH - 1) as nat / (MAX_DATA_LENGTH as nat)
}

/// The part `i` of `data`.
pub open spec fn part_of(data_type: PartType, data: Seq<u8>, i: int) -> PartView {
    let start = i * MAX_DATA_LENGTH;
    let end = if start + MAX_DATA_LENGTH < data.len() {
        start + MAX_DATA_LENGTH
    } else {
        data.len() as int
    };
    PartView {
        meta: PartMeta {
            version: PAPERBACK_VERSION,
            data_type,
            num_parts: part_count(data.len()) as usize,
        },
        part_idx: i as usize,
        data: data.subrange(start, end),
    }
}

/// What parts hold.
pub open spec fn part_views(parts: Seq<Part>) -> Seq<PartView> {
    parts.map_values(|p: Part| p@)
}

/// Splits data into parts of at most `MAX_DATA_LENGTH` bytes.
#[verifier::rlimit(40)]
pub fn split_data(data_type: PartType, data: &[u8]) -> (parts: Vec<Part>)
    ensures
        parts@.len() == part_count(data@.len()),
        forall|i: int|
            0 <= i < parts@.len() ==> (#[trigger] parts@[i])@ == part_of(data_type, data@, i),
{
    let n = data.len();
    let count: usize = n / MAX_DATA_LENGTH + if n % MAX_DATA_LENGTH != 0 {
        1
    } else {
        0
    };
    let mut parts: Vec<Part> = Vec::new();
    for idx in 0..count
        invariant
            n == data@.len(),
            count == part_count(n as nat),
            parts@.len() == idx,
            forall|i: int| 0 <= i < idx ==> (#[trigger] parts@[i])@ == part_of(data_type, data@, i),
    {
        let start = idx * MAX_DATA_LENGTH;
        let end = if n - start > MAX_DATA_LENGTH {
            start + MAX_DATA_LENGTH
        } else {
            n
        };
        let chunk = slice_to_vec(slice_subrange(data, start, end));
        parts.push(
            Part {
                meta: PartMeta { version: PAPERBACK_VERSION, data_type, num_parts: count },
                part_idx: idx,
                data: chunk,
            },
        );
    }
    parts
}

/// What a sequence of byte strings holds.
pub open spec fn byte_lists(codes: Seq<Vec<u8>>) -> Seq<Seq<u8>> {
    codes.map_values(|c: Vec<u8>| c@)
}

/// The base in which the data of a qr code is written: digits give almost
/// the density of binary data, which readers do not handle well.
pub open spec fn qrcode_base() -> Base {
    Base::Base10
}

/// The data of the qr codes of `data`: for each part of the data the wire
/// form of the part, and its multibase text, which is what the qr code
/// holds.
pub fn generate_codes(data_type: PartType, data: &[u8]) -> (res: (Vec<String>, Vec<Vec<u8>>))
    ensures
        res.0@.len() == part_count(data@.len()),
        res.1@.len() == part_count(data@.len()),
        forall|i: int|
            0 <= i < res.1@.len() ==> (#[trigger] byte_lists(res.1@)[i]) == part_wire(
                part_of(data_type, data@, i),
            ),
        forall|i: int|
            0 <= i < res.0@.len() ==> (#[trigger] texts(res.0@)[i]) == multibase_text(
                qrcode_base().code(),
                part_wire(part_of(data_type, data@, i)),
            ),
{
    let parts = split_data(data_type, data);
    let n = parts.len();
    let mut codes: Vec<Vec<u8>> = Vec::new();
    let mut text: Vec<String> = Vec::new();
    for i in 0..n
        invariant
            n == parts@.len(),
            n == part_count(data@.len()),
            forall|j: int| 0 <= j < n ==> (#[trigger] parts@[j])@ == part_of(data_type, data@, j),
            codes@.len() == i,
            text@.len() == i,
            forall|j: int|
                0 <= j < i ==> (#[trigger] codes@[j])@ == part_wire(part_of(data_type, data@, j)),
            forall|j: int|
                0 <= j < i ==> (#[trigger] text@[j])@ == multibase_text(
                    qrcode_base().code(),
                    part_wire(part_of(data_type, data@, j)),
                ),
    {
        let code = parts[i].to_wire();
        text.push(multibase_encode(Base::Base10, code.as_slice()));
        codes.push(code);
    }
    (text, codes)
}

/// The data of the one qr code of `data`, which is not split: its
/// multibase text, which is what the qr code holds, and the data.
pub fn generate_one_code(data: &[u8]) -> (res: (String, Vec<u8>))
    ensures
        res.0@ == multibase_text(qrcode_base().code(), data@),
        res.1@ == data@,
{
    // We don't use a split code for single-QR-code data segments: the part
    // header takes up space, and it also causes checksums to be encoded
    // differently.
    (multibase_encode(Base::Base10, data), slice_to_vec(data))
}

} // verus!
