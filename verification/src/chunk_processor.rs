//! Chunk boundaries and the streaming chunk processor.

use vstd::prelude::*;
use vstd::slice::slice_subrange;

use crate::dedup_set::{dedup_set_contents, DedupSet};
use crate::model::{
    chunk_ends, chunk_ends_from, fingerprint_of, fnv1a_from, is_valid_utf8, lemma_line_end,
    lemma_run_bounds, lemma_stop_point_bounds, lemma_utf8_fail_offset_valid, line_consumable,
    line_content, line_end, line_fail_at, lower_byte, lower_bytes, run_from, step_state,
    stop_point, unicode_lower_bytes, utf8_fail_offset, utf8_step, RunState, FNV_OFFSET_BASIS,
    FNV_PRIME, RECOVERY_CAP,
};
use crate::progress::ProgressTracker;

verus! {

/// A contiguous byte range `[start_offset, end_offset)` of the input,
/// processed as one unit.
#[derive(Clone, Copy, Debug, PartialEq, Eq, Structural)]
pub struct Chunk {
    pub start_offset: u64,
    pub end_offset: u64,
}

/// 64-bit FNV-1a over the bytes as they stand.
fn fnv1a_hash(bytes: &[u8]) -> (h: u64)
    ensures
        h == fnv1a_from(bytes@, 0, FNV_OFFSET_BASIS),
{
    let mut acc: u64 = FNV_OFFSET_BASIS;
    let mut i: usize = 0;
    while i < bytes.len()
        invariant
            0 <= i <= bytes@.len(),
            fnv1a_from(bytes@, i as int, acc) == fnv1a_from(bytes@, 0, FNV_OFFSET_BASIS),
        decreases bytes@.len() - i,
    {
        acc = (acc ^ (bytes[i] as u64)).wrapping_mul(FNV_PRIME);
        i = i + 1;
    }
    acc
}

/// Relies on `str::to_lowercase` (through `str::from_utf8` and
/// `String::into_bytes`, which only convert): for well-formed UTF-8 the
/// lowercased bytes depend on the input bytes alone.
#[verifier::external_body]
fn lowercase_bytes(content: &[u8]) -> (r: Vec<u8>)
    requires
        is_valid_utf8(content@),
    ensures
        r@ == unicode_lower_bytes(content@),
{
    let s = core::str::from_utf8(content).unwrap();
    s.to_lowercase().into_bytes()
}

/// The dedup key of a line's content: the 64-bit FNV-1a hash of its
/// case-folded form — Unicode lowercasing where the content decodes as
/// UTF-8, ASCII lowercasing where it does not.  Equal contents — compared
/// case-insensitively — always get equal keys.
pub fn hash_string(content: &[u8]) -> (h: u64)
    ensures
        h == fingerprint_of(content@),
{
    let fail = utf8_scan(content);
    proof {
        lemma_utf8_fail_offset_valid(content@, 0);
    }
    if fail == content.len() {
        let lowered = lowercase_bytes(content);
        fnv1a_hash(lowered.as_slice())
    } else {
        let ghost lowered = lower_bytes(content@);
        let mut acc: u64 = FNV_OFFSET_BASIS;
        let mut i: usize = 0;
        while i < content.len()
            invariant
                0 <= i <= content@.len(),
                lowered == lower_bytes(content@),
                lowered.len() == content@.len(),
                fnv1a_from(lowered, i as int, acc) == fnv1a_from(lowered, 0, FNV_OFFSET_BASIS),
            decreases content@.len() - i,
        {
            let b = content[i];
            let lb: u8 = if 65 <= b && b <= 90 { b + 32 } else { b };
            assert(lb == lowered[i as int]);
            acc = (acc ^ (lb as u64)).wrapping_mul(FNV_PRIME);
            i = i + 1;
        }
        acc
    }
}

/// Where UTF-8 decoding of `bytes` first fails; `bytes.len()` when it is
/// well-formed throughout.
pub fn utf8_scan(bytes: &[u8]) -> (fail: usize)
    ensures
        fail as int == utf8_fail_offset(bytes@, 0),
{
    let end = bytes.len();
    let mut i: usize = 0;
    while i < end
        invariant
            0 <= i <= end == bytes@.len(),
            utf8_fail_offset(bytes@, 0) == utf8_fail_offset(bytes@, i as int),
        decreases end - i,
    {
        let b0 = bytes[i];
        let k: usize = if b0 <= 0x7F {
            1
        } else if 0xC2 <= b0 && b0 <= 0xDF {
            if end - i >= 2 && 0x80 <= bytes[i + 1] && bytes[i + 1] <= 0xBF { 2 } else { 0 }
        } else if b0 == 0xE0 {
            if end - i >= 3 && 0xA0 <= bytes[i + 1] && bytes[i + 1] <= 0xBF
                && 0x80 <= bytes[i + 2] && bytes[i + 2] <= 0xBF { 3 } else { 0 }
        } else if 0xE1 <= b0 && b0 <= 0xEC {
            if end - i >= 3 && 0x80 <= bytes[i + 1] && bytes[i + 1] <= 0xBF
                && 0x80 <= bytes[i + 2] && bytes[i + 2] <= 0xBF { 3 } else { 0 }
        } else if b0 == 0xED {
            if end - i >= 3 && 0x80 <= bytes[i + 1] && bytes[i + 1] <= 0x9F
                && 0x80 <= bytes[i + 2] && bytes[i + 2] <= 0xBF { 3 } else { 0 }
        } else if 0xEE <= b0 && b0 <= 0xEF {
            if end - i >= 3 && 0x80 <= bytes[i + 1] && bytes[i + 1] <= 0xBF
                && 0x80 <= bytes[i + 2] && bytes[i + 2] <= 0xBF { 3 } else { 0 }
        } else if b0 == 0xF0 {
            if end - i >= 4 && 0x90 <= bytes[i + 1] && bytes[i + 1] <= 0xBF
                && 0x80 <= bytes[i + 2] && bytes[i + 2] <= 0xBF
                && 0x80 <= bytes[i + 3] && bytes[i + 3] <= 0xBF { 4 } else { 0 }
        } else if 0xF1 <= b0 && b0 <= 0xF3 {
            if end - i >= 4 && 0x80 <= bytes[i + 1] && bytes[i + 1] <= 0xBF
                && 0x80 <= bytes[i + 2] && bytes[i + 2] <= 0xBF
                && 0x80 <= bytes[i + 3] && bytes[i + 3] <= 0xBF { 4 } else { 0 }
        } else if b0 == 0xF4 {
            if end - i >= 4 && 0x80 <= bytes[i + 1] && bytes[i + 1] <= 0x8F
                && 0x80 <= bytes[i + 2] && bytes[i + 2] <= 0xBF
                && 0x80 <= bytes[i + 3] && bytes[i + 3] <= 0xBF { 4 } else { 0 }
        } else {
            0
        };
        proof {
            assert(utf8_step(bytes@, i as int) == k);
        }
        if k == 0 {
            return i;
        }
        i = i + k;
    }
    i
}

/// Whether `data[start..end]` is well-formed UTF-8.
pub fn utf8_range_valid(data: &Vec<u8>, start: usize, end: usize) -> (valid: bool)
    requires
        start <= end <= data@.len(),
    ensures
        valid == is_valid_utf8(data@.subrange(start as int, end as int)),
{
    let fail = utf8_scan(slice_subrange(data.as_slice(), start, end));
    proof {
        lemma_utf8_fail_offset_valid(data@.subrange(start as int, end as int), 0);
    }
    fail == end - start
}

/// The position one past the line that starts at `start`.
fn find_line_end(data: &Vec<u8>, start: usize) -> (j: usize)
    requires
        start <= data@.len(),
    ensures
        j == line_end(data@, start as int),
{
    let mut i: usize = start;
    while i < data.len()
        invariant
            start <= i <= data@.len(),
            line_end(data@, start as int) == line_end(data@, i as int),
        decreases data@.len() - i,
    {
        if data[i] == 10 {
            return i + 1;
        }
        i = i + 1;
    }
    i
}

/// The end offsets of a list of chunks.
pub open spec fn ends_of(chunks: Seq<Chunk>) -> Seq<int> {
    chunks.map_values(|c: Chunk| c.end_offset as int)
}

/// Scan the data once, line by line, and partition it into contiguous,
/// line-aligned chunks: a chunk closes at the first line boundary at which
/// it holds at least `chunk_size_bytes` bytes.  A line whose terminator does
/// not stand within the recovery cap of the point where its decoding fails
/// stops the scan; the bytes walked up to that point still close the final
/// chunk.  An empty input yields the single chunk `[0, 0)`.
pub fn find_chunk_boundaries(data: &Vec<u8>, chunk_size_bytes: usize) -> (chunks: Vec<Chunk>)
    ensures
        chunks@.len() >= 1,
        ends_of(chunks@) == chunk_ends(data@, chunk_size_bytes as int),
        forall|k: int| 0 <= k < chunks@.len() ==> (#[trigger] chunks@[k]).start_offset as int
            == if k == 0 { 0int } else { chunks@[k - 1].end_offset as int },
{
    let ghost target = chunk_size_bytes as int;
    let mut chunks: Vec<Chunk> = Vec::new();
    let mut cur: usize = 0;
    let mut start: usize = 0;
    let mut stopped: bool = false;
    while !stopped && cur < data.len()
        invariant
            start <= cur <= data@.len(),
            target == chunk_size_bytes as int,
            forall|k: int| 0 <= k < chunks@.len() ==> (#[trigger] chunks@[k]).start_offset as int
                == if k == 0 { 0int } else { chunks@[k - 1].end_offset as int },
            chunks@.len() == 0 ==> start == 0,
            chunks@.len() > 0 ==> chunks@[chunks@.len() - 1].end_offset as int == start as int,
            stopped ==> chunks@.len() > 0 && cur == start,
            stopped ==> chunk_ends_from(data@, target, 0, 0) == ends_of(chunks@),
            !stopped ==> chunk_ends_from(data@, target, 0, 0)
                == ends_of(chunks@) + chunk_ends_from(data@, target, cur as int, cur - start),
        decreases data@.len() - cur,
    {
        let ghost old_chunks = chunks@;
        let ghost old_cur = cur as int;
        let ghost old_size = cur - start as int;
        let j = find_line_end(data, cur);
        proof {
            lemma_line_end(data@, cur as int);
        }
        let off = utf8_scan(slice_subrange(data.as_slice(), cur, j));
        proof {
            crate::model::lemma_utf8_fail_offset_bounds(data@.subrange(old_cur, j as int), 0);
        }
        let fail = cur + off;
        proof {
            assert(fail as int == line_fail_at(data@, old_cur));
            assert(cur <= fail <= j);
            lemma_stop_point_bounds(data@, old_cur);
        }
        let consumable = fail == j || (data[j - 1] == 10 && j - fail <= RECOVERY_CAP + 1);
        proof {
            assert(consumable == line_consumable(data@, old_cur));
        }
        if consumable {
            cur = j;
            if cur - start >= chunk_size_bytes {
                chunks.push(Chunk { start_offset: start as u64, end_offset: cur as u64 });
                start = cur;
                proof {
                    assert(ends_of(chunks@) =~= ends_of(old_chunks).push(j as int));
                    assert(chunk_ends_from(data@, target, old_cur, old_size)
                        == seq![j as int] + chunk_ends_from(data@, target, j as int, 0));
                    assert(ends_of(old_chunks) + chunk_ends_from(data@, target, old_cur, old_size)
                        =~= ends_of(chunks@) + chunk_ends_from(data@, target, j as int, 0));
                }
            } else {
                proof {
                    assert(chunk_ends_from(data@, target, old_cur, old_size)
                        == chunk_ends_from(data@, target, j as int, old_size + (j - old_cur)));
                }
            }
        } else {
            let p = if j - fail <= RECOVERY_CAP + 1 { j } else { fail + (RECOVERY_CAP + 1) };
            proof {
                assert(p as int == stop_point(data@, old_cur));
                assert(chunk_ends_from(data@, target, old_cur, old_size) == seq![p as int]);
            }
            chunks.push(Chunk { start_offset: start as u64, end_offset: p as u64 });
            start = p;
            cur = p;
            stopped = true;
            proof {
                assert(ends_of(chunks@) =~= ends_of(old_chunks).push(p as int));
                assert(chunk_ends_from(data@, target, 0, 0) =~= ends_of(chunks@));
            }
        }
    }
    let ghost before_tail = chunks@;
    if cur > start {
        chunks.push(Chunk { start_offset: start as u64, end_offset: cur as u64 });
        proof {
            assert(ends_of(chunks@) =~= ends_of(before_tail).push(cur as int));
            assert(chunk_ends_from(data@, target, cur as int, cur - start) == seq![cur as int]);
            assert(chunk_ends_from(data@, target, 0, 0) =~= ends_of(chunks@));
        }
    }
    if chunks.len() == 0 {
        proof {
            assert(!stopped);
            assert(cur == 0);
        }
        chunks.push(Chunk { start_offset: 0, end_offset: 0 });
        proof {
            assert(chunk_ends_from(data@, target, 0, 0).len() == 0);
            assert(ends_of(chunks@) =~= seq![0int]);
        }
    }
    proof {
        if chunk_ends_from(data@, target, 0, 0).len() == 0 {
            assert(ends_of(chunks@) =~= chunk_ends(data@, target));
        } else {
            assert(ends_of(chunks@) =~= chunk_ends(data@, target));
        }
    }
    chunks
}

/// Why a run fails.
#[derive(Clone, Copy, Debug, PartialEq, Eq, Structural)]
pub enum DedupError {
    /// A chunk's start offset lies beyond the end of the data.
    InvalidChunk { start_offset: u64, file_size: u64 },
}

/// The processor's state assembled from the exec values it works on.
pub open spec fn state_of(out: Seq<u8>, seen: Set<u64>, tracker: ProgressTracker) -> RunState {
    RunState {
        out: out,
        seen: seen,
        lines: tracker.lines() as int,
        dups: tracker.duplicates() as int,
    }
}

/// Stream one chunk: walk, in order, every line that lies whole within the
/// chunk, count every such line with nonempty content, and append the raw
/// line bytes to `out` exactly when the fingerprint of the line's content
/// is new to `global_seen`.  Reading stops before any line that would run
/// past the chunk's end offset, so no byte beyond it is ever looked at.
/// Fails — with nothing changed — exactly when the chunk starts beyond the
/// end of the data.
///
/// The two bounds in `requires` keep the two counters inside `u64`; every
/// caller holding fewer bytes than lines fit in a `u64` meets them.
pub fn process_chunk_stream(
    data: &Vec<u8>,
    chunk: &Chunk,
    out: &mut Vec<u8>,
    global_seen: &mut DedupSet,
    progress: &mut ProgressTracker,
) -> (r: Result<(), DedupError>)
    requires
        run_from(data@, chunk.start_offset as int, chunk.end_offset as int,
            state_of(old(out)@, dedup_set_contents(*old(global_seen)), *old(progress))).lines
            <= u64::MAX,
        run_from(data@, chunk.start_offset as int, chunk.end_offset as int,
            state_of(old(out)@, dedup_set_contents(*old(global_seen)), *old(progress))).dups
            <= u64::MAX,
    ensures
        r is Ok <==> chunk.start_offset as int <= data@.len(),
        r is Ok ==> state_of(final(out)@, dedup_set_contents(*final(global_seen)), *final(progress))
            == run_from(data@, chunk.start_offset as int, chunk.end_offset as int,
                state_of(old(out)@, dedup_set_contents(*old(global_seen)), *old(progress))),
        r is Err ==> final(out)@ == old(out)@
            && dedup_set_contents(*final(global_seen)) == dedup_set_contents(*old(global_seen))
            && *final(progress) == *old(progress)
            && r == Err::<(), DedupError>(DedupError::InvalidChunk {
                start_offset: chunk.start_offset,
                file_size: data@.len() as u64,
            }),
{
    let file_size = data.len();
    if chunk.start_offset > file_size as u64 {
        return Err(DedupError::InvalidChunk {
            start_offset: chunk.start_offset,
            file_size: file_size as u64,
        });
    }
    let ghost start0 = chunk.start_offset as int;
    let ghost stop = chunk.end_offset as int;
    let ghost st0 = state_of(out@, dedup_set_contents(*global_seen), *progress);
    let ghost total = run_from(data@, start0, stop, st0);
    let mut cur: usize = chunk.start_offset as usize;
    let mut done: bool = false;
    while !done
        invariant
            cur <= data@.len(),
            stop == chunk.end_offset as int,
            total == run_from(data@, start0, stop, st0),
            total.lines <= u64::MAX,
            total.dups <= u64::MAX,
            run_from(data@, cur as int, stop,
                state_of(out@, dedup_set_contents(*global_seen), *progress)) == total,
            done ==> state_of(out@, dedup_set_contents(*global_seen), *progress) == total,
        decreases data@.len() - cur + (if done { 0int } else { 1int }),
    {
        if cur >= data.len() {
            done = true;
        } else {
            let j = find_line_end(data, cur);
            proof {
                lemma_line_end(data@, cur as int);
            }
            if (j as u64) > chunk.end_offset {
                done = true;
            } else {
                let ghost st_cur = state_of(out@, dedup_set_contents(*global_seen), *progress);
                let ghost st_next = step_state(data@, cur as int, st_cur);
                proof {
                    assert(run_from(data@, cur as int, stop, st_cur)
                        == run_from(data@, j as int, stop, st_next));
                    lemma_run_bounds(data@, j as int, stop, st_next);
                }
                let content_end = if data[j - 1] == 10 { j - 1 } else { j };
                proof {
                    assert(line_content(data@, cur as int)
                        == data@.subrange(cur as int, content_end as int));
                }
                if content_end > cur {
                    progress.increment_lines(1);
                    let content = slice_subrange(data.as_slice(), cur, content_end);
                    let h = hash_string(content);
                    proof {
                        assert(h == fingerprint_of(line_content(data@, cur as int)));
                    }
                    let newly = global_seen.insert(h);
                    if newly {
                        let ghost snap = out@;
                        let mut x = cur;
                        while x < j
                            invariant
                                cur <= x <= j,
                                j <= data@.len(),
                                out@ == snap + data@.subrange(cur as int, x as int),
                            decreases j - x,
                        {
                            let b = data[x];
                            out.push(b);
                            proof {
                                assert(out@ =~= snap + data@.subrange(cur as int, x as int + 1));
                            }
                            x = x + 1;
                        }
                    } else {
                        progress.increment_duplicates(1);
                        proof {
                            assert(dedup_set_contents(*global_seen) =~= st_cur.seen);
                        }
                    }
                }
                proof {
                    assert(state_of(out@, dedup_set_contents(*global_seen), *progress) =~= st_next);
                }
                cur = j;
            }
        }
    }
    Ok(())
}

} // verus!
