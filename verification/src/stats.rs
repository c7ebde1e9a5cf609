//! Size statistics reported around compaction.

use vstd::prelude::*;

verus! {

/// Sizes of one shard (or an aggregate over shards): the operation-log
/// file's length and the bytes of arena in use.
#[derive(Debug, Default)]
pub struct CompactionStats {
    pub offset_table_size_bytes: u64,
    pub mmap_file_size_bytes: u64,
}

/// Sum of the log sizes of a run of stats.
pub open spec fn spec_sum_offset_table(s: Seq<CompactionStats>) -> int
    decreases s.len(),
{
    if s.len() == 0 {
        0
    } else {
        spec_sum_offset_table(s.drop_last()) + s.last().offset_table_size_bytes
    }
}

/// Sum of the arena sizes of a run of stats.
pub open spec fn spec_sum_mmap(s: Seq<CompactionStats>) -> int
    decreases s.len(),
{
    if s.len() == 0 {
        0
    } else {
        spec_sum_mmap(s.drop_last()) + s.last().mmap_file_size_bytes
    }
}

/// The saturated totals of a run of stats.
pub open spec fn spec_aggregate(s: Seq<CompactionStats>) -> CompactionStats {
    CompactionStats {
        offset_table_size_bytes: (if spec_sum_offset_table(s) <= u64::MAX {
            spec_sum_offset_table(s)
        } else {
            u64::MAX as int
        }) as u64,
        mmap_file_size_bytes: (if spec_sum_mmap(s) <= u64::MAX {
            spec_sum_mmap(s)
        } else {
            u64::MAX as int
        }) as u64,
    }
}

proof fn lemma_sums_nonneg(s: Seq<CompactionStats>)
    ensures
        spec_sum_offset_table(s) >= 0,
        spec_sum_mmap(s) >= 0,
    decreases s.len(),
{
    if s.len() > 0 {
        lemma_sums_nonneg(s.drop_last());
    }
}

impl CompactionStats {
    /// Add up a run of per-shard stats; each total saturates at the
    /// largest representable value.
    pub fn aggregate(stats: &Vec<CompactionStats>) -> (r: CompactionStats)
        ensures
            r == spec_aggregate(stats@),
            r.offset_table_size_bytes == (if spec_sum_offset_table(stats@) <= u64::MAX {
                spec_sum_offset_table(stats@)
            } else {
                u64::MAX as int
            }),
            r.mmap_file_size_bytes == (if spec_sum_mmap(stats@) <= u64::MAX {
                spec_sum_mmap(stats@)
            } else {
                u64::MAX as int
            }),
    {
        let mut offset_table_size_bytes: u64 = 0;
        let mut mmap_file_size_bytes: u64 = 0;
        let n = stats.len();
        let mut i: usize = 0;
        while i < n
            invariant
                i <= n,
                n == stats@.len(),
                offset_table_size_bytes == (if spec_sum_offset_table(stats@.take(i as int))
                    <= u64::MAX {
                    spec_sum_offset_table(stats@.take(i as int))
                } else {
                    u64::MAX as int
                }),
                mmap_file_size_bytes == (if spec_sum_mmap(stats@.take(i as int)) <= u64::MAX {
                    spec_sum_mmap(stats@.take(i as int))
                } else {
                    u64::MAX as int
                }),
            decreases n - i,
        {
            proof {
                assert(stats@.take(i + 1int).drop_last() =~= stats@.take(i as int));
                assert(stats@.take(i + 1int).last() == stats@[i as int]);
                lemma_sums_nonneg(stats@.take(i as int));
            }
            offset_table_size_bytes = offset_table_size_bytes.saturating_add(
                stats[i].offset_table_size_bytes,
            );
            mmap_file_size_bytes = mmap_file_size_bytes.saturating_add(
                stats[i].mmap_file_size_bytes,
            );
            i = i + 1;
        }
        proof {
            assert(stats@.take(n as int) =~= stats@);
        }
        CompactionStats { offset_table_size_bytes, mmap_file_size_bytes }
    }
}

} // verus!
