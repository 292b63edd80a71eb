//! What goes on paper: the data of a document, split into the parts that a
//! qr code holds.

pub mod qr;

use crate::v0::wire::TextError;
use vstd::prelude::*;

verus! {

/// What can go wrong when the parts of qr codes are put together.
#[derive(Debug, Clone, Copy, PartialEq, Eq, Structural)]
pub enum Error {
    /// The part is not one of the data that the other parts belong to.
    MismatchedQrCode,
    /// The part with the index `idx` is missing.
    MissingQrSegment { idx: usize },
    /// The part was created with a version of paperback that is not
    /// supported.
    WrongPaperbackVersion { version: u32 },
    /// The data of a qr code is no part.
    ParseQrData(TextError),
}

} // verus!
