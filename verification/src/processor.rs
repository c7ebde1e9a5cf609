//! The write-event processor: typed events from the write log,
//! dispatched to the index facade.

use vstd::prelude::*;
use crate::ckv::{CKVIndex, NUM_SEGMENTS};
use crate::document::{Document, wf_document};
use crate::error::IndexError;
use crate::oplog::MAX_RECORD_FIELDS;

verus! {

/// One event of the partition's write log.
pub enum IKVDataEvent {
    /// Upsert the fields of a document.
    UpsertDocumentFields { document: Document },
    /// Set some fields of a document back to absent.
    DeleteDocumentFields { document_id: Document, fields_to_delete: Vec<String> },
    /// Delete a document.
    DeleteDocument { document_id: Document },
    /// Drop fields from the schema, or everything.
    DropField { field_names: Vec<String>, field_name_prefixes: Vec<String>, drop_all: bool },
}

/// An event the processor accepts.
pub open spec fn wf_event(e: IKVDataEvent) -> bool {
    match e {
        IKVDataEvent::UpsertDocumentFields { document } => wf_document(document),
        IKVDataEvent::DeleteDocumentFields { document_id, fields_to_delete } => wf_document(
            document_id,
        ) && fields_to_delete@.len() <= MAX_RECORD_FIELDS,
        IKVDataEvent::DeleteDocument { document_id } => wf_document(document_id),
        IKVDataEvent::DropField { .. } => true,
    }
}

/// Owns the index and applies events to it.
pub struct WritesProcessor {
    index: CKVIndex,
}

impl WritesProcessor {
    /// The index as the processor holds it.
    pub closed spec fn index(self) -> CKVIndex {
        self.ckv_index()
    }

    pub closed spec fn ckv_index(self) -> CKVIndex {
        self.index
    }

    pub open spec fn wf(self) -> bool {
        self.index().wf()
    }

    pub fn new(ckv_index: CKVIndex) -> (r: WritesProcessor)
        requires
            ckv_index.wf(),
        ensures
            r.wf(),
            r.index() == ckv_index,
    {
        WritesProcessor { index: ckv_index }
    }

    /// Borrow the index for reads.
    pub fn index_ref(&self) -> (r: &CKVIndex)
        ensures
            *r == self.index(),
    {
        &self.index
    }

    /// Take the index back.
    pub fn into_index(self) -> (r: CKVIndex)
        ensures
            r == self.index(),
    {
        self.index
    }

    /// Flush all writes to disk; called before the incoming stream's
    /// position is checkpointed, so that replay reprocesses at most one
    /// unflushed batch.
    pub fn flush_all(&mut self) -> (r: Result<(), IndexError>)
        requires
            old(self).wf(),
        ensures
            r is Ok,
            final(self).wf(),
            forall|i: int|
                0 <= i < NUM_SEGMENTS ==> {
                    &&& (#[trigger] final(self).index().seg(i)).flushed()
                    &&& crate::ckv::spec_seg_core_eq(
                        final(self).index().seg(i),
                        old(self).index().seg(i),
                    )
                },
            final(self).index().schema() == old(self).index().schema(),
            final(self).index().offsets_file() == old(self).index().offsets_file(),
            final(self).index().header() == old(self).index().header(),
    {
        self.index.flush_writes()
    }

    /// Apply one event: upserts and deletes go to the owning shard
    /// through the facade, drop events to the registry; an event with
    /// nothing to do leaves the index as it was. Processing fails
    /// exactly when the facade write it dispatches to fails.
    pub fn process(&mut self, event: &IKVDataEvent) -> (r: Result<(), IndexError>)
        requires
            old(self).wf(),
            wf_event(*event),
        ensures
            final(self).wf(),
            final(self).index().header() == old(self).index().header(),
            final(self).index().offsets_file() == old(self).index().offsets_file(),
            r is Ok <==> !spec_event_fail(old(self).index(), *event),
            r is Ok ==> spec_event_effect(old(self).index(), final(self).index(), *event),
            r is Err ==> forall|j: int|
                0 <= j < NUM_SEGMENTS ==> #[trigger] final(self).index().seg(j) == old(
                    self,
                ).index().seg(j),
    {
        match event {
            IKVDataEvent::UpsertDocumentFields { document } => {
                match self.index.upsert_field_values(document) {
                    Ok(u) => Ok(()),
                    Err(e) => Err(e),
                }
            },
            IKVDataEvent::DeleteDocumentFields { document_id, fields_to_delete } => {
                if fields_to_delete.len() == 0 {
                    return Ok(());
                }
                match self.index.delete_field_values(document_id, fields_to_delete) {
                    Ok(u) => Ok(()),
                    Err(e) => Err(e),
                }
            },
            IKVDataEvent::DeleteDocument { document_id } => {
                match self.index.delete_document(document_id) {
                    Ok(u) => Ok(()),
                    Err(e) => Err(e),
                }
            },
            IKVDataEvent::DropField { field_names, field_name_prefixes, drop_all } => {
                if field_names.len() > 0 || field_name_prefixes.len() > 0 {
                    match self.index.drop_fields(field_names, field_name_prefixes) {
                        Ok(u) => Ok(()),
                        Err(e) => Err(e),
                    }
                } else if *drop_all {
                    match self.index.drop_all_documents() {
                        Ok(u) => Ok(()),
                        Err(e) => Err(e),
                    }
                } else {
                    Ok(())
                }
            },
        }
    }
}

/// Why processing an event fails: the facade write it dispatches to
/// rejects its input. Drop events and empty inputs never fail.
pub open spec fn spec_event_fail(ix: CKVIndex, e: IKVDataEvent) -> bool {
    match e {
        IKVDataEvent::UpsertDocumentFields { document } => document.seq_view().len() > 0
            && crate::ckv::spec_upsert_fail(ix, document),
        IKVDataEvent::DeleteDocumentFields { document_id, fields_to_delete } => {
            &&& document_id.seq_view().len() > 0
            &&& fields_to_delete@.len() > 0
            &&& crate::ckv::spec_pk_fail(ix, document_id)
        },
        IKVDataEvent::DeleteDocument { document_id } => document_id.seq_view().len() > 0
            && crate::ckv::spec_pk_fail(ix, document_id),
        IKVDataEvent::DropField { .. } => false,
    }
}

/// What processing an event does to the index, per event kind, stated
/// over the state a flush preserves.
pub open spec fn spec_event_effect(pre: CKVIndex, post: CKVIndex, e: IKVDataEvent) -> bool {
    match e {
        IKVDataEvent::UpsertDocumentFields { document } => {
            &&& (document.seq_view().len() == 0 ==> crate::ckv::spec_index_core_unchanged(
                pre,
                post,
            ))
            &&& (document.seq_view().len() > 0 ==> crate::ckv::spec_upsert_effect(
                pre,
                post,
                document,
            ))
        },
        IKVDataEvent::DeleteDocumentFields { document_id, fields_to_delete } => {
            &&& ((document_id.seq_view().len() == 0 || fields_to_delete@.len() == 0)
                ==> crate::ckv::spec_index_core_unchanged(pre, post))
            &&& (document_id.seq_view().len() > 0 && fields_to_delete@.len() > 0
                ==> crate::ckv::spec_delete_fields_effect(
                pre,
                post,
                document_id,
                fields_to_delete@,
            ))
        },
        IKVDataEvent::DeleteDocument { document_id } => {
            &&& (document_id.seq_view().len() == 0 ==> crate::ckv::spec_index_core_unchanged(
                pre,
                post,
            ))
            &&& (document_id.seq_view().len() > 0 ==> crate::ckv::spec_delete_doc_effect(
                pre,
                post,
                document_id,
            ))
        },
        IKVDataEvent::DropField { field_names, field_name_prefixes, drop_all } => {
            &&& ((field_names@.len() == 0 && field_name_prefixes@.len() == 0 && !drop_all)
                ==> crate::ckv::spec_index_core_unchanged(pre, post))
            &&& ((field_names@.len() > 0 || field_name_prefixes@.len() > 0) ==> ({
                &&& post.schema().pk_name() == pre.schema().pk_name()
                &&& post.schema().counter() == pre.schema().counter()
                &&& (forall|j: int|
                    0 <= j < NUM_SEGMENTS ==> crate::ckv::spec_seg_core_eq(
                        #[trigger] post.seg(j),
                        pre.seg(j),
                    ))
                &&& (forall|k: Seq<char>|
                    #[trigger] post.schema().map().contains_key(k) <==> (pre.schema().map().contains_key(
                        k,
                    ) && !crate::schema_store::spec_should_drop(
                        k,
                        pre.schema().pk_name(),
                        field_names@,
                        field_name_prefixes@,
                    )))
                &&& (forall|k: Seq<char>|
                    #[trigger] post.schema().map().contains_key(k) ==> post.schema().map()[k]
                        == pre.schema().map()[k])
            }))
            &&& ((field_names@.len() == 0 && field_name_prefixes@.len() == 0 && drop_all) ==> ({
                &&& (forall|j: int|
                    0 <= j < NUM_SEGMENTS ==> (#[trigger] post.seg(j)).fresh())
                &&& post.schema().pk_name() == pre.schema().pk_name()
                &&& post.schema().counter() == 1
                &&& post.schema().map() == Map::<Seq<char>, u32>::empty().insert(
                    pre.schema().pk_name(),
                    0u32,
                )
            }))
        },
    }
}


/// An event's effect is stated over what a flush preserves, so it
/// survives the flush that precedes a checkpoint.
proof fn lemma_event_effect_flush_stable(
    pre: CKVIndex,
    mid: CKVIndex,
    post: CKVIndex,
    e: IKVDataEvent,
)
    requires
        spec_event_effect(pre, mid, e),
        post.schema() == mid.schema(),
        forall|j: int|
            0 <= j < NUM_SEGMENTS ==> crate::ckv::spec_seg_core_eq(
                #[trigger] post.seg(j),
                mid.seg(j),
            ),
    ensures
        spec_event_effect(pre, post, e),
{
    assert forall|pk: Seq<u8>, g: Seq<char>| true implies #[trigger] post.spec_get(pk, g)
        == mid.spec_get(pk, g) by {
        let idx = crate::hashing::spec_segment_of(pk, NUM_SEGMENTS as int);
        if 0 <= idx < NUM_SEGMENTS {
            assert(crate::ckv::spec_seg_core_eq(post.seg(idx), mid.seg(idx)));
        }
    }
    assert forall|j: int, pk: Seq<u8>, g: u32| 0 <= j < NUM_SEGMENTS implies #[trigger] crate::segment::spec_read_at(
        post.seg(j).table(),
        post.seg(j).arena(),
        pk,
        g,
    ) == crate::segment::spec_read_at(mid.seg(j).table(), mid.seg(j).arena(), pk, g) by {
        assert(crate::ckv::spec_seg_core_eq(post.seg(j), mid.seg(j)));
    }
    assert forall|j: int| 0 <= j < NUM_SEGMENTS && mid.seg(j).fresh() implies (#[trigger] post.seg(
        j,
    )).fresh() by {
        assert(crate::ckv::spec_seg_core_eq(post.seg(j), mid.seg(j)));
    }
}

/// The stability lemma, callable where the consumer needs it.
pub proof fn lemma_event_effect_after_flush(
    pre: CKVIndex,
    mid: CKVIndex,
    post: CKVIndex,
    e: IKVDataEvent,
)
    requires
        spec_event_effect(pre, mid, e),
        post.schema() == mid.schema(),
        forall|j: int|
            0 <= j < NUM_SEGMENTS ==> crate::ckv::spec_seg_core_eq(
                #[trigger] post.seg(j),
                mid.seg(j),
            ),
    ensures
        spec_event_effect(pre, post, e),
{
    lemma_event_effect_flush_stable(pre, mid, post, e);
}


} // verus!
