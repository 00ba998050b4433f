//! Cached planes: what one paint's rasterization leaves behind for replay.

use vstd::prelude::*;

verus! {

/// A plane's payload: coverage bytes, a list of packed uniform-coverage spans, or premultiplied
/// source pixels that already carry their coverage.
pub enum PlaneData {
    /// Coverage bytes, row after row.
    Cov(Vec<u8>),
    /// Packed spans.
    Spans(Vec<u64>),
    /// Source pixels, row after row.
    Src(Vec<u32>),
}

/// The contents of a plane's payload.
#[verifier::ext_equal]
pub enum PlaneSeq {
    /// Coverage bytes, row after row.
    Cov(Seq<u8>),
    /// Packed spans.
    Spans(Seq<u64>),
    /// Source pixels, row after row.
    Src(Seq<u32>),
}

impl View for PlaneData {
    type V = PlaneSeq;

    open spec fn view(&self) -> PlaneSeq {
        match self {
            PlaneData::Cov(v) => PlaneSeq::Cov(v@),
            PlaneData::Spans(v) => PlaneSeq::Spans(v@),
            PlaneData::Src(v) => PlaneSeq::Src(v@),
        }
    }
}

/// One cached plane: a record `(y, x0, len)` for each row, and the rows' payload.
pub struct CovEntry {
    /// The row records.
    pub rows: Vec<(u32, u32, u32)>,
    /// The payload of all rows, in order.
    pub data: PlaneData,
}

/// The contents of a cached plane.
#[verifier::ext_equal]
pub struct EntryView {
    /// The row records.
    pub rows: Seq<(u32, u32, u32)>,
    /// The payload.
    pub data: PlaneSeq,
}

impl View for CovEntry {
    type V = EntryView;

    open spec fn view(&self) -> EntryView {
        EntryView { rows: self.rows@, data: self.data@ }
    }
}

} // verus!
