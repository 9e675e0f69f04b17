//! Mathematical model of the deduplication engine.
//!
//! The input file is modelled as a sequence of bytes.  A *line* is the run of
//! bytes from a position up to and including the next line feed (byte 10), or
//! up to the end of the data when no line feed follows.  A line's *content*
//! is the line without its terminator.  The model defines
//!
//! * how the boundary scan walks the data line by line, recovering from
//!   invalid UTF-8 runs up to a cap of 10000 bytes (`scan_stop_from`,
//!   `chunk_ends_from`), and
//! * how the streaming processor folds lines into the output, the shared
//!   fingerprint set and the counters (`run_from`).

use vstd::prelude::*;

verus! {

/// Longest run of bytes the boundary scan will walk through while looking
/// for a line terminator after a decode failure.
pub const RECOVERY_CAP: usize = 10000;

/// Seed of the 64-bit FNV-1a hash.
pub const FNV_OFFSET_BASIS: u64 = 0xcbf29ce484222325;

/// Multiplier of the 64-bit FNV-1a hash.
pub const FNV_PRIME: u64 = 0x100000001b3;

/// One past the end of the line that starts at `i`: the position just after
/// the next line feed, or `data.len()` when no line feed follows.
pub open spec fn line_end(data: Seq<u8>, i: int) -> int
    decreases data.len() - i,
{
    if i >= data.len() {
        data.len() as int
    } else if i < 0 {
        0
    } else if data[i] == 10 {
        i + 1
    } else {
        line_end(data, i + 1)
    }
}

/// Basic facts about `line_end`: it stays inside the data, it advances by at
/// least one byte, it stops right after a line feed unless it hit the end,
/// and no line feed stands strictly inside the line.
pub proof fn lemma_line_end(data: Seq<u8>, i: int)
    requires
        0 <= i <= data.len(),
    ensures
        i <= line_end(data, i) <= data.len(),
        i < data.len() ==> i + 1 <= line_end(data, i),
        line_end(data, i) < data.len() ==> data[line_end(data, i) - 1] == 10,
        forall|k: int| i <= k < line_end(data, i) - 1 ==> data[k] != 10,
    decreases data.len() - i,
{
    if i < data.len() && data[i] != 10 {
        lemma_line_end(data, i + 1);
    }
}

/// A line never runs past a line feed: if `data[p - 1]` is a line feed, the
/// line starting at or before it ends at `p` at the latest.
pub proof fn lemma_line_end_le(data: Seq<u8>, i: int, p: int)
    requires
        0 <= i < p <= data.len(),
        data[p - 1] == 10,
    ensures
        line_end(data, i) <= p,
    decreases p - i,
{
    if data[i] != 10 {
        if i + 1 == p {
            assert(data[i] == 10);
        } else {
            lemma_line_end_le(data, i + 1, p);
        }
    }
}

/// The line's content: its bytes without the trailing line feed, if any.
pub open spec fn line_content(data: Seq<u8>, i: int) -> Seq<u8> {
    let j = line_end(data, i);
    if i < j && data[j - 1] == 10 {
        data.subrange(i, j - 1)
    } else {
        data.subrange(i, j)
    }
}

/// ASCII lowercasing of one byte.
pub open spec fn lower_byte(b: u8) -> u8 {
    if 65 <= b && b <= 90 {
        (b + 32) as u8
    } else {
        b
    }
}

/// ASCII lowercasing of a byte sequence.
pub open spec fn lower_bytes(s: Seq<u8>) -> Seq<u8> {
    s.map_values(|b: u8| lower_byte(b))
}

/// 64-bit FNV-1a folded over `s` starting from index `i` with accumulator `acc`.
pub open spec fn fnv1a_from(s: Seq<u8>, i: int, acc: u64) -> u64
    decreases s.len() - i,
{
    if i < 0 || i >= s.len() {
        acc
    } else {
        fnv1a_from(s, i + 1, (acc ^ (s[i] as u64)).wrapping_mul(FNV_PRIME))
    }
}

/// What `str::to_lowercase` makes of a well-formed UTF-8 byte sequence.
/// The result depends on the bytes alone; the trusted wrapper around the
/// call states that its result is this.
pub uninterp spec fn unicode_lower_bytes(s: Seq<u8>) -> Seq<u8>;

/// The case folding the fingerprint uses: Unicode lowercasing for content
/// that decodes as UTF-8, plain ASCII lowercasing for content that does not.
pub open spec fn folded_content(content: Seq<u8>) -> Seq<u8> {
    if is_valid_utf8(content) {
        unicode_lower_bytes(content)
    } else {
        lower_bytes(content)
    }
}

/// The dedup key of a line: the FNV-1a hash of its case-folded content.
pub open spec fn fingerprint_of(content: Seq<u8>) -> u64 {
    fnv1a_from(folded_content(content), 0, FNV_OFFSET_BASIS)
}

/// A UTF-8 continuation byte.
pub open spec fn utf8_cont(b: u8) -> bool {
    0x80 <= b && b <= 0xBF
}

/// Length of the well-formed UTF-8 sequence starting at `i`, or 0 when the
/// bytes at `i` do not begin one (or it would run past the end).
pub open spec fn utf8_step(s: Seq<u8>, i: int) -> int {
    if i < 0 || i >= s.len() {
        0
    } else {
        let b0 = s[i];
        if b0 <= 0x7F {
            1
        } else if 0xC2 <= b0 && b0 <= 0xDF {
            if i + 2 <= s.len() && utf8_cont(s[i + 1]) { 2 } else { 0 }
        } else if b0 == 0xE0 {
            if i + 3 <= s.len() && 0xA0 <= s[i + 1] && s[i + 1] <= 0xBF && utf8_cont(s[i + 2]) { 3 } else { 0 }
        } else if 0xE1 <= b0 && b0 <= 0xEC {
            if i + 3 <= s.len() && utf8_cont(s[i + 1]) && utf8_cont(s[i + 2]) { 3 } else { 0 }
        } else if b0 == 0xED {
            if i + 3 <= s.len() && 0x80 <= s[i + 1] && s[i + 1] <= 0x9F && utf8_cont(s[i + 2]) { 3 } else { 0 }
        } else if 0xEE <= b0 && b0 <= 0xEF {
            if i + 3 <= s.len() && utf8_cont(s[i + 1]) && utf8_cont(s[i + 2]) { 3 } else { 0 }
        } else if b0 == 0xF0 {
            if i + 4 <= s.len() && 0x90 <= s[i + 1] && s[i + 1] <= 0xBF && utf8_cont(s[i + 2]) && utf8_cont(s[i + 3]) { 4 } else { 0 }
        } else if 0xF1 <= b0 && b0 <= 0xF3 {
            if i + 4 <= s.len() && utf8_cont(s[i + 1]) && utf8_cont(s[i + 2]) && utf8_cont(s[i + 3]) { 4 } else { 0 }
        } else if b0 == 0xF4 {
            if i + 4 <= s.len() && 0x80 <= s[i + 1] && s[i + 1] <= 0x8F && utf8_cont(s[i + 2]) && utf8_cont(s[i + 3]) { 4 } else { 0 }
        } else {
            0
        }
    }
}

/// The bytes of `s` from `i` on form a well-formed UTF-8 string.
pub open spec fn utf8_valid_from(s: Seq<u8>, i: int) -> bool
    decreases s.len() - i,
{
    if i < 0 {
        false
    } else if i >= s.len() {
        true
    } else {
        utf8_step(s, i) > 0 && utf8_valid_from(s, i + utf8_step(s, i))
    }
}

/// `s` is a well-formed UTF-8 string.
pub open spec fn is_valid_utf8(s: Seq<u8>) -> bool {
    utf8_valid_from(s, 0)
}

/// The first position at or after `k` where UTF-8 decoding fails, or the
/// end of `s` when everything from `k` on decodes.
pub open spec fn utf8_fail_offset(s: Seq<u8>, k: int) -> int
    decreases s.len() - k,
{
    if k < 0 || k >= s.len() {
        s.len() as int
    } else if utf8_step(s, k) == 0 {
        k
    } else {
        utf8_fail_offset(s, k + utf8_step(s, k))
    }
}

/// The failure offset stays between its start and the end of the data.
pub proof fn lemma_utf8_fail_offset_bounds(s: Seq<u8>, k: int)
    requires
        0 <= k <= s.len(),
    ensures
        k <= utf8_fail_offset(s, k) <= s.len(),
    decreases s.len() - k,
{
    if k < s.len() && utf8_step(s, k) != 0 {
        lemma_utf8_fail_offset_bounds(s, k + utf8_step(s, k));
    }
}

/// Decoding from `k` on succeeds exactly when no failure position exists.
pub proof fn lemma_utf8_fail_offset_valid(s: Seq<u8>, k: int)
    requires
        0 <= k <= s.len(),
    ensures
        utf8_valid_from(s, k) <==> utf8_fail_offset(s, k) == s.len(),
    decreases s.len() - k,
{
    if k < s.len() && utf8_step(s, k) != 0 {
        lemma_utf8_fail_offset_valid(s, k + utf8_step(s, k));
    }
}

/// Where UTF-8 decoding of the line at `i` first fails, as a position in
/// the data; the line's end when the whole line decodes.
pub open spec fn line_fail_at(data: Seq<u8>, i: int) -> int {
    i + utf8_fail_offset(data.subrange(i, line_end(data, i)), 0)
}

/// The boundary scan consumes the line at `i` whole when the line decodes,
/// or when its terminator stands within the recovery cap of the point where
/// decoding fails.
pub open spec fn line_consumable(data: Seq<u8>, i: int) -> bool {
    let j = line_end(data, i);
    let f = line_fail_at(data, i);
    f == j || (i < j && data[j - 1] == 10 && j - f <= RECOVERY_CAP + 1)
}

/// Where the scan gives up inside the line at `i`: at the end of the line if
/// that is nearer, otherwise one byte past the recovery cap counted from the
/// decode failure.
pub open spec fn stop_point(data: Seq<u8>, i: int) -> int {
    let j = line_end(data, i);
    let f = line_fail_at(data, i);
    if j - f <= RECOVERY_CAP + 1 {
        j
    } else {
        f + RECOVERY_CAP + 1
    }
}

/// The stop point lies strictly inside `(i, line_end]`.
pub proof fn lemma_stop_point_bounds(data: Seq<u8>, i: int)
    requires
        0 <= i < data.len(),
    ensures
        i < stop_point(data, i) <= line_end(data, i),
{
    lemma_line_end(data, i);
    lemma_utf8_fail_offset_bounds(data.subrange(i, line_end(data, i)), 0);
}

/// The position where the boundary scan, started at `i`, stops reading:
/// the end of the data, or a point inside a line it could not get past.
/// The chunk target size plays no part here, so the scanned region — and with
/// it the deduplicated output — is the same for every chunk size.
pub open spec fn scan_stop_from(data: Seq<u8>, i: int) -> int
    decreases data.len() - i,
{
    if i < 0 || i >= data.len() {
        i
    } else {
        proof {
            lemma_line_end(data, i);
        }
        if line_consumable(data, i) {
            scan_stop_from(data, line_end(data, i))
        } else {
            stop_point(data, i)
        }
    }
}

/// Where the whole boundary scan stops.
pub open spec fn scan_stop(data: Seq<u8>) -> int {
    scan_stop_from(data, 0)
}

/// The chunk end offsets the boundary scan produces from position `i` with
/// `size` bytes already accumulated in the open chunk: a chunk closes as soon
/// as the accumulated size reaches `target` at a line boundary; the last
/// chunk closes where the scan stops.
pub open spec fn chunk_ends_from(data: Seq<u8>, target: int, i: int, size: int) -> Seq<int>
    decreases data.len() - i,
{
    if i < 0 {
        Seq::empty()
    } else if i >= data.len() {
        if size > 0 {
            seq![i]
        } else {
            Seq::empty()
        }
    } else {
        proof {
            lemma_line_end(data, i);
        }
        let j = line_end(data, i);
        if line_consumable(data, i) {
            if size + (j - i) >= target {
                seq![j] + chunk_ends_from(data, target, j, 0)
            } else {
                chunk_ends_from(data, target, j, size + (j - i))
            }
        } else {
            seq![stop_point(data, i)]
        }
    }
}

/// All chunk end offsets for the given data and target size; an empty input
/// yields the single empty chunk ending at 0.
pub open spec fn chunk_ends(data: Seq<u8>, target: int) -> Seq<int> {
    let e = chunk_ends_from(data, target, 0, 0);
    if e.len() == 0 {
        seq![0int]
    } else {
        e
    }
}

/// The state the streaming processor threads through the run: the output
/// bytes written so far, the fingerprints seen so far, and the counters.
#[verifier::ext_equal]
pub struct RunState {
    pub out: Seq<u8>,
    pub seen: Set<u64>,
    pub lines: int,
    pub dups: int,
}

/// The state of a fresh run: nothing written, nothing seen, counters at zero.
pub open spec fn init_state() -> RunState {
    RunState { out: Seq::empty(), seen: Set::empty(), lines: 0, dups: 0 }
}

/// What processing the single line at `i` does to the state: a line of
/// empty content is skipped; otherwise it is counted, and it is appended to
/// the output exactly when its fingerprint is new.
pub open spec fn step_state(data: Seq<u8>, i: int, st: RunState) -> RunState {
    let j = line_end(data, i);
    let line = data.subrange(i, j);
    let content = line_content(data, i);
    if content.len() == 0 {
        st
    } else if st.seen.contains(fingerprint_of(content)) {
        RunState { lines: st.lines + 1, dups: st.dups + 1, ..st }
    } else {
        RunState {
            out: st.out + line,
            seen: st.seen.insert(fingerprint_of(content)),
            lines: st.lines + 1,
            dups: st.dups,
        }
    }
}

/// Folding the processor over every line that lies whole inside
/// `[i, stop]`: a line whose end would pass `stop` is never read.
pub open spec fn run_from(data: Seq<u8>, i: int, stop: int, st: RunState) -> RunState
    decreases data.len() - i,
{
    if i < 0 || i >= data.len() {
        st
    } else {
        proof {
            lemma_line_end(data, i);
        }
        if line_end(data, i) > stop {
            st
        } else {
            run_from(data, line_end(data, i), stop, step_state(data, i, st))
        }
    }
}

/// The state after deduplicating everything the boundary scan reaches.
pub open spec fn global_run(data: Seq<u8>) -> RunState {
    run_from(data, 0, scan_stop(data), init_state())
}

/// The deduplicated output for `data`: every first occurrence, in input
/// order, of a nonempty line the scan walks whole, with its original
/// terminator.
pub open spec fn dedup_output(data: Seq<u8>) -> Seq<u8> {
    global_run(data).out
}

/// The counters only grow, each processed line adds at most one to each, and
/// every processed line consumes at least one byte, so the growth of the
/// line count is bounded by the bytes left.
pub proof fn lemma_run_bounds(data: Seq<u8>, i: int, stop: int, st: RunState)
    requires
        0 <= i,
    ensures
        st.lines <= run_from(data, i, stop, st).lines,
        st.dups <= run_from(data, i, stop, st).dups,
        run_from(data, i, stop, st).lines - st.lines <= if i <= data.len() { data.len() - i } else { 0 },
        run_from(data, i, stop, st).dups - st.dups <= run_from(data, i, stop, st).lines - st.lines,
    decreases data.len() - i,
{
    if i < data.len() {
        lemma_line_end(data, i);
        if line_end(data, i) <= stop {
            lemma_run_bounds(data, line_end(data, i), stop, step_state(data, i, st));
        }
    }
}

/// Processing `[a, b)` and then `[b, c)` with the state threaded through is
/// processing `[a, c)`, as long as `b` sits on a line boundary (right after
/// a line feed, or at the very end of the data), so that no line straddles it.
pub proof fn lemma_run_compose(data: Seq<u8>, a: int, b: int, c: int, st: RunState)
    requires
        0 <= a <= b <= c,
        b <= data.len(),
        a == b || b == data.len() || data[b - 1] == 10,
    ensures
        run_from(data, b, c, run_from(data, a, b, st)) == run_from(data, a, c, st),
    decreases b - a,
{
    if a < b {
        lemma_line_end(data, a);
        let j = line_end(data, a);
        if b < data.len() {
            lemma_line_end_le(data, a, b);
        }
        assert(j <= b);
        lemma_run_compose(data, j, b, c, step_state(data, a, st));
    } else {
        if b < data.len() {
            lemma_line_end(data, b);
        }
        assert(run_from(data, a, b, st) == st);
    }
}

/// Shape of the chunk end offsets the scan produces: they lie between `i`
/// and the end of the data, they do not decrease, the last one is where the
/// scan stops, and every one but the last sits right after a line feed.
pub proof fn lemma_chunk_ends_from_props(data: Seq<u8>, target: int, i: int, size: int)
    requires
        0 <= i <= data.len(),
        0 <= size,
    ensures
        ({
            let e = chunk_ends_from(data, target, i, size);
            &&& (e.len() == 0 <==> (i == data.len() && size <= 0))
            &&& (forall|k: int| 0 <= k < e.len() ==> i <= #[trigger] e[k] <= data.len())
            &&& (forall|k: int| 0 <= k < e.len() - 1 ==> #[trigger] e[k] <= e[k + 1])
            &&& (e.len() > 0 ==> e[e.len() - 1] == scan_stop_from(data, i))
            &&& (forall|k: int| 0 <= k < e.len() - 1 ==> 0 < #[trigger] e[k] && e[k] < data.len()
                && data[e[k] - 1] == 10)
        }),
    decreases data.len() - i,
{
    let e = chunk_ends_from(data, target, i, size);
    if i < data.len() {
        lemma_line_end(data, i);
        let j = line_end(data, i);
        if line_consumable(data, i) {
            assert(scan_stop_from(data, i) == scan_stop_from(data, j));
            if size + (j - i) >= target {
                let rest = chunk_ends_from(data, target, j, 0);
                lemma_chunk_ends_from_props(data, target, j, 0);
                assert(e == seq![j] + rest);
                assert forall|k: int| 0 <= k < e.len() implies i <= #[trigger] e[k] <= data.len() by {
                    if k > 0 {
                        assert(e[k] == rest[k - 1]);
                    }
                }
                assert forall|k: int| 0 <= k < e.len() - 1 implies #[trigger] e[k] <= e[k + 1] by {
                    if k > 0 {
                        assert(e[k] == rest[k - 1] && e[k + 1] == rest[k]);
                    } else {
                        assert(e[1] == rest[0]);
                    }
                }
                assert forall|k: int| 0 <= k < e.len() - 1 implies 0 < #[trigger] e[k]
                    && e[k] < data.len() && data[e[k] - 1] == 10 by {
                    if k == 0 {
                        assert(rest.len() > 0);
                        assert(j < data.len());
                    } else {
                        assert(e[k] == rest[k - 1]);
                    }
                }
                if rest.len() > 0 {
                    assert(e[e.len() - 1] == rest[rest.len() - 1]);
                } else {
                    assert(j == data.len());
                    assert(e[e.len() - 1] == j);
                }
            } else {
                lemma_chunk_ends_from_props(data, target, j, size + (j - i));
                assert(j < data.len() || size + (j - i) > 0);
            }
        } else {
            lemma_stop_point_bounds(data, i);
            assert(scan_stop_from(data, i) == stop_point(data, i));
        }
    }
}

/// The same shape for the full list of chunk ends: at least one end, all of
/// them inside the data, not decreasing, the last at the scan stop, and all
/// internal ones right after a line feed.
pub proof fn lemma_chunk_ends_props(data: Seq<u8>, target: int)
    ensures
        ({
            let e = chunk_ends(data, target);
            &&& e.len() >= 1
            &&& (forall|k: int| 0 <= k < e.len() ==> 0 <= #[trigger] e[k] <= data.len())
            &&& (forall|k: int| 0 <= k < e.len() - 1 ==> #[trigger] e[k] <= e[k + 1])
            &&& e[e.len() - 1] == scan_stop(data)
            &&& (forall|k: int| 0 <= k < e.len() - 1 ==> 0 < #[trigger] e[k] && e[k] < data.len()
                && data[e[k] - 1] == 10)
        }),
{
    lemma_chunk_ends_from_props(data, target, 0, 0);
}

} // verus!
