//! The log-consumer's decisions: where to resume, when to stop the
//! catch-up phase, when to flush and checkpoint, and what one incoming
//! event does to the store. The blocking stream itself lives outside;
//! it feeds events in partition order and performs the actions decided
//! here.

use vstd::prelude::*;
use vstd::string::StrSliceExecFns;
use crate::codec::str_eq;
use crate::config::IKVStoreConfig;
use crate::error::IndexError;
use crate::offset_store::{OffsetStore, KafkaOffsetStoreEntry, wf_offset_entry};
use crate::processor::{WritesProcessor, IKVDataEvent, wf_event};

verus! {

/// Flush and checkpoint after every batch of this many events.
pub const BATCH_SIZE: u32 = 100;

/// The consumer's connection settings, validated out of the
/// configuration.
pub struct ConsumerConfig {
    pub account_id: String,
    pub account_passkey: String,
    pub kafka_bootstrap_server: String,
    pub topic: String,
    pub partition: i32,
}

impl ConsumerConfig {
    /// Pull the consumer settings out of the configuration; each is
    /// required, and the partition must fit a broker partition number.
    pub fn from_config(config: &IKVStoreConfig) -> (r: Result<ConsumerConfig, IndexError>)
        requires
            config.wf(),
        ensures
            match r {
                Ok(cc) => {
                    &&& config.string_configs@.contains_key("account_id"@)
                    &&& cc.account_id@ == config.string_configs@["account_id"@]@
                    &&& config.string_configs@.contains_key("account_passkey"@)
                    &&& cc.account_passkey@ == config.string_configs@["account_passkey"@]@
                    &&& config.string_configs@.contains_key("kafka_bootstrap_server"@)
                    &&& cc.kafka_bootstrap_server@ == config.string_configs@[
                        "kafka_bootstrap_server"@]@
                    &&& config.string_configs@.contains_key("kafka_topic"@)
                    &&& cc.topic@ == config.string_configs@["kafka_topic"@]@
                    &&& config.int_configs@.contains_key("partition"@)
                    &&& 0 <= config.int_configs@["partition"@] <= i32::MAX
                    &&& cc.partition == config.int_configs@["partition"@] as i32
                },
                Err(e) => {
                    ||| !config.string_configs@.contains_key("account_id"@)
                    ||| !config.string_configs@.contains_key("account_passkey"@)
                    ||| !config.string_configs@.contains_key("kafka_bootstrap_server"@)
                    ||| !config.string_configs@.contains_key("kafka_topic"@)
                    ||| !config.int_configs@.contains_key("partition"@)
                    ||| config.int_configs@["partition"@] > i32::MAX
                    ||| config.int_configs@["partition"@] < 0
                },
            },
    {
        let account_id = match config.get_string("account_id") {
            None => {
                return Err(
                    IndexError::IllegalArguments(
                        String::from_str("account_id is a required client-specified config"),
                    ),
                );
            },
            Some(v) => String::from_str(v.as_str()),
        };
        let account_passkey = match config.get_string("account_passkey") {
            None => {
                return Err(
                    IndexError::IllegalArguments(
                        String::from_str("account_passkey is a required client-specified config"),
                    ),
                );
            },
            Some(v) => String::from_str(v.as_str()),
        };
        let kafka_bootstrap_server = match config.get_string("kafka_bootstrap_server") {
            None => {
                return Err(
                    IndexError::IllegalArguments(
                        String::from_str(
                            "kafka_bootstrap_server is a required gateway-specified config",
                        ),
                    ),
                );
            },
            Some(v) => String::from_str(v.as_str()),
        };
        let topic = match config.get_string("kafka_topic") {
            None => {
                return Err(
                    IndexError::IllegalArguments(
                        String::from_str("kafka_topic is a required gateway-specified config"),
                    ),
                );
            },
            Some(v) => String::from_str(v.as_str()),
        };
        let partition_i64 = match config.get_int("partition") {
            None => {
                return Err(
                    IndexError::IllegalArguments(
                        String::from_str("partition is a required user-specified config"),
                    ),
                );
            },
            Some(p) => *p,
        };
        if partition_i64 > i32::MAX as i64 || partition_i64 < 0 {
            return Err(IndexError::IllegalArguments(String::from_str("partition bad value")));
        }
        Ok(
            ConsumerConfig {
                account_id,
                account_passkey,
                kafka_bootstrap_server,
                topic,
                partition: partition_i64 as i32,
            },
        )
    }
}

/// The index of the first persisted entry for `(topic, partition)`.
pub open spec fn spec_first_offset_match(
    entries: Seq<crate::offset_store::OffsetEntryView>,
    topic: Seq<char>,
    partition: i32,
) -> int
    decreases entries.len(),
{
    if entries.len() == 0 {
        -1
    } else if entries[0].topic == topic && entries[0].partition == partition {
        0
    } else {
        let r = spec_first_offset_match(entries.drop_first(), topic, partition);
        if r < 0 {
            -1
        } else {
            r + 1
        }
    }
}

/// Where consumption resumes: the first persisted offset for the
/// consumer's topic and partition, if any; else from the beginning.
pub fn resume_offset(entries: &Vec<KafkaOffsetStoreEntry>, topic: &str, partition: i32) -> (r:
    Option<i64>)
    ensures
        ({
            let views = entries@.map(|i: int, e: KafkaOffsetStoreEntry| e@);
            let m = spec_first_offset_match(views, topic@, partition);
            match r {
                Some(o) => m >= 0 && o == views[m].offset,
                None => m == -1,
            }
        }),
{
    let ghost views = entries@.map(|i: int, e: KafkaOffsetStoreEntry| e@);
    let n = entries.len();
    let mut i: usize = 0;
    proof {
        assert(views.skip(0int) =~= views);
    }
    while i < n
        invariant
            i <= n,
            n == entries@.len(),
            views == entries@.map(|q: int, e: KafkaOffsetStoreEntry| e@),
            spec_first_offset_match(views, topic@, partition) == (if spec_first_offset_match(
                views.skip(i as int),
                topic@,
                partition,
            ) >= 0 {
                i + spec_first_offset_match(views.skip(i as int), topic@, partition)
            } else {
                -1
            }),
        decreases n - i,
    {
        proof {
            assert(views.skip(i as int)[0] == views[i as int]);
            assert(views.skip(i as int).drop_first() =~= views.skip(i + 1int));
            assert(views[i as int] == entries@[i as int]@);
        }
        if str_eq(entries[i].topic.as_str(), topic) && entries[i].partition == partition {
            proof {
                assert(spec_first_offset_match(views.skip(i as int), topic@, partition) == 0);
            }
            return Some(entries[i].offset);
        }
        i = i + 1;
    }
    proof {
        assert(views.skip(n as int).len() == 0);
    }
    None
}

/// Counts processed events and says when a batch is due. The counter
/// starts past zero so that the very first event does not trigger a
/// commit, and it wraps around.
pub struct OffsetCommitter {
    counter: u32,
}

impl OffsetCommitter {
    pub closed spec fn count(self) -> u32 {
        self.counter
    }

    pub fn new() -> (r: OffsetCommitter)
        ensures
            r.count() == 1,
    {
        OffsetCommitter { counter: 1 }
    }

    /// Step the counter; a commit is due once per `BATCH_SIZE` calls.
    pub fn should_commit(&mut self) -> (r: bool)
        ensures
            r == (old(self).count() % BATCH_SIZE == 0),
            final(self).count() == (if old(self).count() == u32::MAX {
                0u32
            } else {
                (old(self).count() + 1) as u32
            }),
    {
        let prev = self.counter;
        self.counter = self.counter.wrapping_add(1);
        prev % BATCH_SIZE == 0
    }
}

/// What the catch-up phase does before consuming: an empty partition
/// (low watermark equal to high) means there is nothing to catch up.
pub fn catch_up_is_empty(low_watermark: i64, high_watermark: i64) -> (r: bool)
    ensures
        r == (low_watermark == high_watermark),
{
    low_watermark == high_watermark
}

/// One incoming item of the event stream, as the outside consumer hands
/// it over.
pub enum ConsumerEvent {
    /// A write event, with its position in the log.
    Message { topic: String, partition: i32, offset: i64, event: IKVDataEvent },
    /// The partition's end was reached: the catch-up phase is done.
    PartitionEof,
}

/// What the driving loop should do next.
#[derive(Debug, Clone, Copy, PartialEq, Eq, Structural)]
pub enum ConsumerAction {
    /// Keep consuming.
    ContinueConsuming,
    /// Stop cleanly: catch-up is complete.
    StopCleanly,
}

/// The consumer's write-side state: the processor that owns the index,
/// the batch counter, and the consumed-offset store.
pub struct ConsumerState {
    pub processor: WritesProcessor,
    pub committer: OffsetCommitter,
    pub offset_store: OffsetStore,
}

impl ConsumerState {
    pub open spec fn wf(self) -> bool {
        self.processor.wf()
    }

    /// Handle one item of the catch-up phase. A message is dispatched
    /// through the processor (failing exactly when that write fails);
    /// once per `BATCH_SIZE` processed events everything is flushed and
    /// the message's own position is persisted, so that replay after a
    /// crash reprocesses at most one unflushed batch. The end of the
    /// partition stops the phase, changing nothing.
    pub fn handle_catch_up_event(&mut self, incoming: ConsumerEvent) -> (r: Result<
        ConsumerAction,
        IndexError,
    >)
        requires
            old(self).wf(),
            match incoming {
                ConsumerEvent::Message { topic, event, .. } => wf_event(event)
                    && vstd::utf8::encode_utf8(topic@).len() <= u32::MAX,
                ConsumerEvent::PartitionEof => true,
            },
        ensures
            final(self).wf(),
            incoming is PartitionEof ==> (*final(self) == *old(self) && r matches Ok(
                ConsumerAction::StopCleanly,
            )),
            match incoming {
                ConsumerEvent::PartitionEof => true,
                ConsumerEvent::Message { topic, partition, offset, event } => {
                    &&& (r matches Ok(a) ==> a == ConsumerAction::ContinueConsuming)
                    &&& (r is Err <==> crate::processor::spec_event_fail(
                        old(self).processor.index(),
                        event,
                    ))
                    &&& (r is Ok ==> crate::processor::spec_event_effect(
                        old(self).processor.index(),
                        final(self).processor.index(),
                        event,
                    ))
                    &&& (r is Ok ==> final(self).committer.count() == (if old(self).committer.count() == u32::MAX {
                        0u32
                    } else {
                        (old(self).committer.count() + 1) as u32
                    }))
                    &&& (r is Ok && old(self).committer.count() % BATCH_SIZE == 0 ==> ({
                        &&& final(self).offset_store.file_bytes()
                            == crate::offset_store::spec_encode_offsets_file(
                            seq![
                                crate::offset_store::OffsetEntryView {
                                    topic: topic@,
                                    partition,
                                    offset,
                                },
                            ],
                        )
                        &&& forall|j: int|
                            0 <= j < crate::ckv::NUM_SEGMENTS ==> (#[trigger] final(self).processor.index().seg(j)).flushed()
                    }))
                    &&& (r is Ok && old(self).committer.count() % BATCH_SIZE != 0 ==> final(self).offset_store == old(self).offset_store)
                    &&& (r is Err ==> final(self).committer == old(self).committer && final(self).offset_store == old(self).offset_store)
                },
            },
    {
        match incoming {
            ConsumerEvent::PartitionEof => Ok(ConsumerAction::StopCleanly),
            ConsumerEvent::Message { topic, partition, offset, event } => {
                match self.processor.process(&event) {
                    Err(e) => {
                        return Err(e);
                    },
                    Ok(u) => {},
                }
                let ghost mid = self.processor.index();
                if self.committer.should_commit() {
                    let _ = self.processor.flush_all();
                    proof {
                        crate::processor::lemma_event_effect_after_flush(
                            old(self).processor.index(),
                            mid,
                            self.processor.index(),
                            event,
                        );
                    }
                    let entry = KafkaOffsetStoreEntry { topic, partition, offset };
                    let mut entries: Vec<KafkaOffsetStoreEntry> = Vec::new();
                    entries.push(entry);
                    proof {
                        assert(forall|q: int|
                            0 <= q < entries@.len() ==> wf_offset_entry(
                                (#[trigger] entries@[q])@,
                            ));
                    }
                    let _ = self.offset_store.write_all_offsets(&entries);
                    proof {
                        assert(entries@.map(|i: int, e: KafkaOffsetStoreEntry| e@) =~= seq![
                            crate::offset_store::OffsetEntryView {
                                topic: topic@,
                                partition,
                                offset,
                            },
                        ]);
                    }
                }
                Ok(ConsumerAction::ContinueConsuming)
            },
        }
    }
}

} // verus!
