//! A document: a mapping from field names to typed values, exactly one
//! of which (the primary key) identifies it.

use vstd::prelude::*;
use vstd::utf8::encode_utf8;
use crate::field::{FieldValue, wf_field_value};
use crate::maps::StringMap;

verus! {

/// A document on its way into the store.
pub type Document = StringMap<FieldValue>;

/// A document the store accepts: distinct field names, each short enough
/// for the registry's file, and each value well formed.
pub open spec fn wf_document(d: Document) -> bool {
    &&& d.wf()
    &&& forall|i: int|
        0 <= i < d.seq_view().len() ==> encode_utf8((#[trigger] d.seq_view()[i]).0).len()
            <= u32::MAX
    &&& forall|i: int|
        0 <= i < d.seq_view().len() ==> wf_field_value((#[trigger] d.seq_view()[i]).1)
}

/// The field names of a document, in entry order.
pub open spec fn spec_doc_names(d: Document) -> Seq<Seq<char>> {
    d.seq_view().map(|i: int, e: (Seq<char>, FieldValue)| e.0)
}

} // verus!
