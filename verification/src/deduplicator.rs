//! The orchestrator that drives a whole deduplication run.

use vstd::prelude::*;

use crate::chunk_processor::{
    ends_of, find_chunk_boundaries, process_chunk_stream, state_of, Chunk, DedupError,
};
use crate::dedup_set::{dedup_set_contents, DedupSet};
use crate::model::{
    chunk_ends, dedup_output, global_run, init_state, lemma_chunk_ends_props, lemma_run_bounds,
    lemma_run_compose, run_from, scan_stop,
};
use crate::progress::{Metrics, ProgressTracker};

verus! {

/// Drives one deduplication run: it discovers the chunk boundaries,
/// validates them against the data, and streams every chunk in order
/// through one shared fingerprint set into one output buffer.
pub struct Deduplicator {
    pub chunk_size_bytes: usize,
}

impl Deduplicator {
    /// A deduplicator that closes a chunk once it holds at least
    /// `chunk_size_bytes` bytes.
    pub fn new(chunk_size_bytes: usize) -> (d: Deduplicator)
        ensures
            d.chunk_size_bytes == chunk_size_bytes,
    {
        Deduplicator { chunk_size_bytes }
    }

    /// Deduplicate `data`: the returned bytes hold, in input order, the
    /// first occurrence of every nonempty line the boundary scan walks
    /// whole, and the metrics count the processed lines and the dropped
    /// duplicates.  The result does not depend on the chunk size.  The run
    /// never fails: every chunk the finder produces starts inside the data.
    #[verifier::rlimit(100)]
    pub fn process(&self, data: &Vec<u8>) -> (r: Result<(Vec<u8>, Metrics), DedupError>)
        ensures
            r is Ok,
            r matches Ok(p) ==> p.0@ == dedup_output(data@)
                && p.1.lines_processed as int == global_run(data@).lines
                && p.1.duplicates_removed as int == global_run(data@).dups,
    {
        let ghost target = self.chunk_size_bytes as int;
        let ghost ends = chunk_ends(data@, target);
        proof {
            lemma_chunk_ends_props(data@, target);
        }
        let chunks = find_chunk_boundaries(data, self.chunk_size_bytes);
        let file_size = data.len() as u64;

        // Fail-fast validation pass: no chunk may start beyond the data.
        // The finder's contract proves the check never fires.
        let mut idx: usize = 0;
        while idx < chunks.len()
            invariant
                ends == chunk_ends(data@, target),
                ends_of(chunks@) == ends,
                chunks@.len() >= 1,
                data@.len() <= usize::MAX,
                file_size == data@.len() as u64,
                forall|k: int| 0 <= k < chunks@.len() ==> (#[trigger] chunks@[k]).start_offset as int
                    == if k == 0 { 0int } else { chunks@[k - 1].end_offset as int },
                forall|k: int| 0 <= k < ends.len() ==> 0 <= #[trigger] ends[k] <= data@.len(),
            decreases chunks@.len() - idx,
        {
            proof {
                assert(ends_of(chunks@)[idx as int] == chunks@[idx as int].end_offset as int);
                if idx > 0 {
                    assert(ends_of(chunks@)[idx as int - 1]
                        == chunks@[idx as int - 1].end_offset as int);
                }
                assert(chunks@[idx as int].start_offset as int <= data@.len());
            }
            if chunks[idx].start_offset > file_size {
                return Err(DedupError::InvalidChunk {
                    start_offset: chunks[idx].start_offset,
                    file_size,
                });
            }
            idx = idx + 1;
        }

        let (out, metrics) = run_chunks(data, &chunks, Ghost(target));
        Ok((out, metrics))
    }
}

/// Stream every chunk, in discovery order, through one shared fingerprint
/// set and one output buffer, and report the final metrics.
#[verifier::rlimit(100)]
fn run_chunks(data: &Vec<u8>, chunks: &Vec<Chunk>, Ghost(target): Ghost<int>) -> (r: (Vec<u8>, Metrics))
    requires
        data@.len() <= usize::MAX,
        ends_of(chunks@) == chunk_ends(data@, target),
        chunks@.len() >= 1,
        forall|k: int| 0 <= k < chunks@.len() ==> (#[trigger] chunks@[k]).start_offset as int
            == if k == 0 { 0int } else { chunks@[k - 1].end_offset as int },
    ensures
        r.0@ == dedup_output(data@),
        r.1.lines_processed as int == global_run(data@).lines,
        r.1.duplicates_removed as int == global_run(data@).dups,
{
    let ghost ends = chunk_ends(data@, target);
    proof {
        lemma_chunk_ends_props(data@, target);
    }
    let mut out: Vec<u8> = Vec::new();
    let mut global_seen = DedupSet::new();
    let mut progress = ProgressTracker::new();
    let mut i: usize = 0;
    proof {
        assert(state_of(out@, dedup_set_contents(global_seen), progress) =~= init_state());
        if data@.len() > 0 {
            crate::model::lemma_line_end(data@, 0);
        }
        assert(run_from(data@, 0, 0, init_state()) == init_state());
    }
    while i < chunks.len()
        invariant
            0 <= i <= chunks@.len(),
            data@.len() <= usize::MAX,
            ends == chunk_ends(data@, target),
            ends_of(chunks@) == ends,
            chunks@.len() >= 1,
            forall|k: int| 0 <= k < chunks@.len() ==> (#[trigger] chunks@[k]).start_offset as int
                == if k == 0 { 0int } else { chunks@[k - 1].end_offset as int },
            forall|k: int| 0 <= k < ends.len() ==> 0 <= #[trigger] ends[k] <= data@.len(),
            forall|k: int| 0 <= k < ends.len() - 1 ==> #[trigger] ends[k] <= ends[k + 1],
            ends[ends.len() - 1] == scan_stop(data@),
            forall|k: int| 0 <= k < ends.len() - 1 ==> 0 < #[trigger] ends[k]
                && ends[k] < data@.len() && data@[ends[k] - 1] == 10,
            state_of(out@, dedup_set_contents(global_seen), progress)
                == run_from(data@, 0, if i == 0 { 0int } else { ends[i - 1] }, init_state()),
        decreases chunks@.len() - i,
    {
        let c = chunks[i];
        let ghost prev_end = if i == 0 { 0int } else { ends[i - 1] };
        let ghost st_cur = state_of(out@, dedup_set_contents(global_seen), progress);
        proof {
            assert(ends_of(chunks@)[i as int] == chunks@[i as int].end_offset as int);
            if i > 0 {
                assert(ends_of(chunks@)[i as int - 1]
                    == chunks@[i as int - 1].end_offset as int);
            }
            assert(c.start_offset as int == prev_end);
            assert(c.end_offset as int == ends[i as int]);
            assert(prev_end <= c.end_offset as int <= data@.len());
            lemma_run_compose(data@, 0, prev_end, c.end_offset as int, init_state());
            assert(run_from(data@, c.start_offset as int, c.end_offset as int, st_cur)
                == run_from(data@, 0, c.end_offset as int, init_state()));
            lemma_run_bounds(data@, 0, c.end_offset as int, init_state());
            assert(run_from(data@, c.start_offset as int, c.end_offset as int, st_cur).lines
                <= data@.len());
            assert(run_from(data@, c.start_offset as int, c.end_offset as int, st_cur).dups
                <= data@.len());
            assert(data@.len() <= u64::MAX);
        }
        let r = process_chunk_stream(data, &c, &mut out, &mut global_seen, &mut progress);
        proof {
            assert(r is Ok);
            assert(state_of(out@, dedup_set_contents(global_seen), progress)
                == run_from(data@, 0, ends[i as int], init_state()));
        }
        i = i + 1;
    }
    proof {
        assert(state_of(out@, dedup_set_contents(global_seen), progress)
            == run_from(data@, 0, scan_stop(data@), init_state()));
    }
    let metrics = progress.finish();
    (out, metrics)
}

} // verus!