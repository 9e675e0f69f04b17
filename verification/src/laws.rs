//! The engine's global guarantees, proved from the model.
//!
//! The processor's fold `run_from` is characterized here as a filter over
//! the sequence of lines: the output is the concatenation, in input order,
//! of exactly the first occurrence of every fingerprint class of nonempty
//! lines.  From that follow the global dedup invariant, order preservation,
//! and the idempotence of re-running the engine on its own output.

use vstd::prelude::*;

use crate::model::{
    chunk_ends, dedup_output, fingerprint_of, global_run, init_state,
    lemma_chunk_ends_props, lemma_line_end, lemma_line_end_le, lemma_run_compose,
    lemma_utf8_fail_offset_bounds, line_consumable, line_content, line_end, line_fail_at,
    run_from, scan_stop, scan_stop_from, step_state, stop_point, utf8_fail_offset, RunState,
    RECOVERY_CAP,
};

verus! {

/// The lines that lie whole inside `[i, stop]`, in order: the walk ends at
/// the first line whose end would pass `stop`.
pub open spec fn plines(data: Seq<u8>, i: int, stop: int) -> Seq<Seq<u8>>
    decreases data.len() - i,
{
    if i < 0 || i >= data.len() {
        Seq::empty()
    } else {
        proof {
            lemma_line_end(data, i);
        }
        if line_end(data, i) > stop {
            Seq::empty()
        } else {
            seq![data.subrange(i, line_end(data, i))] + plines(data, line_end(data, i), stop)
        }
    }
}

/// A line's content: the line without its trailing line feed, if any.
pub open spec fn content_of(line: Seq<u8>) -> Seq<u8> {
    if line.len() > 0 && line[line.len() - 1] == 10 {
        line.drop_last()
    } else {
        line
    }
}

/// The subsequence of `ls` the processor keeps when it has already seen the
/// fingerprints in `seen`: lines of empty content are dropped, and of the
/// rest exactly the first line of each fingerprint survives.
pub open spec fn kept_lines(ls: Seq<Seq<u8>>, seen: Set<u64>) -> Seq<Seq<u8>>
    decreases ls.len(),
{
    if ls.len() == 0 {
        Seq::empty()
    } else {
        let c = content_of(ls[0]);
        if c.len() == 0 || seen.contains(fingerprint_of(c)) {
            kept_lines(ls.drop_first(), seen)
        } else {
            seq![ls[0]] + kept_lines(ls.drop_first(), seen.insert(fingerprint_of(c)))
        }
    }
}

/// The content of the line at `i` is the content of that line taken as a value.
proof fn lemma_line_content_is_content_of(data: Seq<u8>, i: int)
    requires
        0 <= i < data.len(),
    ensures
        line_content(data, i) == content_of(data.subrange(i, line_end(data, i))),
{
    lemma_line_end(data, i);
    let j = line_end(data, i);
    let line = data.subrange(i, j);
    if data[j - 1] == 10 {
        assert(line[line.len() - 1] == 10);
        assert(line.drop_last() =~= data.subrange(i, j - 1));
    } else {
        assert(line[line.len() - 1] != 10);
    }
}

/// What `run_from` writes is what `kept_lines` keeps of the lines it walks.
pub proof fn lemma_run_out_is_kept(data: Seq<u8>, i: int, stop: int, st: RunState)
    requires
        0 <= i,
    ensures
        run_from(data, i, stop, st).out == st.out + kept_lines(plines(data, i, stop), st.seen).flatten(),
    decreases data.len() - i,
{
    let ls = plines(data, i, stop);
    if i >= data.len() || line_end(data, i) > stop {
        if i < data.len() {
            lemma_line_end(data, i);
        }
        assert(ls.len() == 0);
        assert(run_from(data, i, stop, st) == st);
        assert(kept_lines(ls, st.seen).flatten() =~= Seq::<u8>::empty());
        assert(st.out + Seq::<u8>::empty() =~= st.out);
    } else {
        lemma_line_end(data, i);
        let j = line_end(data, i);
        let line = data.subrange(i, j);
        let rest = plines(data, j, stop);
        assert(ls == seq![line] + rest);
        assert(ls[0] == line);
        assert(ls.drop_first() =~= rest);
        lemma_line_content_is_content_of(data, i);
        let c = content_of(line);
        let st2 = step_state(data, i, st);
        lemma_run_out_is_kept(data, j, stop, st2);
        if c.len() == 0 || st.seen.contains(fingerprint_of(c)) {
            assert(st2.out == st.out && st2.seen == st.seen);
            assert(kept_lines(ls, st.seen) == kept_lines(rest, st.seen));
        } else {
            assert(st2.out == st.out + line);
            assert(st2.seen == st.seen.insert(fingerprint_of(c)));
            let kr = kept_lines(rest, st2.seen);
            assert(kept_lines(ls, st.seen) == seq![line] + kr);
            assert((seq![line] + kr).first() == line);
            assert((seq![line] + kr).drop_first() =~= kr);
            assert((seq![line] + kr).flatten() == line + kr.flatten());
            assert(st.out + (seq![line] + kr).flatten() =~= (st.out + line) + kr.flatten());
        }
    }
}

/// Order preservation: the deduplicated output is the concatenation, in
/// input order, of the kept subsequence of the lines the scan reaches —
/// and nothing else.  The chunk size appears nowhere in this statement.
pub proof fn lemma_order_preservation(data: Seq<u8>)
    ensures
        dedup_output(data) == kept_lines(plines(data, 0, scan_stop(data)), Set::empty()).flatten(),
{
    lemma_run_out_is_kept(data, 0, scan_stop(data), init_state());
    let k = kept_lines(plines(data, 0, scan_stop(data)), Set::empty()).flatten();
    assert(Seq::<u8>::empty() + k =~= k);
}

/// Global dedup invariant, uniqueness half: the kept lines all have
/// nonempty content, none of their fingerprints was seen before, and no two
/// of them share a fingerprint — so of any set of case-insensitively equal
/// lines at most one reaches the output.
pub proof fn lemma_kept_fingerprints_distinct(ls: Seq<Seq<u8>>, seen: Set<u64>)
    ensures
        forall|m: int| 0 <= m < kept_lines(ls, seen).len()
            ==> content_of(#[trigger] kept_lines(ls, seen)[m]).len() > 0,
        forall|m: int| 0 <= m < kept_lines(ls, seen).len()
            ==> !seen.contains(fingerprint_of(content_of(#[trigger] kept_lines(ls, seen)[m]))),
        forall|m1: int, m2: int| 0 <= m1 < m2 < kept_lines(ls, seen).len()
            ==> fingerprint_of(content_of(#[trigger] kept_lines(ls, seen)[m1]))
                != fingerprint_of(content_of(#[trigger] kept_lines(ls, seen)[m2])),
    decreases ls.len(),
{
    if ls.len() > 0 {
        let kept = kept_lines(ls, seen);
        let c = content_of(ls[0]);
        if c.len() == 0 || seen.contains(fingerprint_of(c)) {
            lemma_kept_fingerprints_distinct(ls.drop_first(), seen);
            assert(kept == kept_lines(ls.drop_first(), seen));
        } else {
            let seen2 = seen.insert(fingerprint_of(c));
            let kr = kept_lines(ls.drop_first(), seen2);
            lemma_kept_fingerprints_distinct(ls.drop_first(), seen2);
            assert(kept == seq![ls[0]] + kr);
            assert(kept[0] == ls[0]);
            assert forall|m: int| 0 <= m < kept.len() implies
                content_of(#[trigger] kept[m]).len() > 0
                && !seen.contains(fingerprint_of(content_of(kept[m]))) by {
                if m > 0 {
                    assert(kept[m] == kr[m - 1]);
                }
            }
            assert forall|m1: int, m2: int| 0 <= m1 < m2 < kept.len() implies
                fingerprint_of(content_of(#[trigger] kept[m1]))
                != fingerprint_of(content_of(#[trigger] kept[m2])) by {
                assert(kept[m2] == kr[m2 - 1]);
                if m1 > 0 {
                    assert(kept[m1] == kr[m1 - 1]);
                } else {
                    assert(seen2.contains(fingerprint_of(c)));
                }
            }
        }
    }
}

/// Global dedup invariant, first-occurrence half: a nonempty line whose
/// fingerprint is new — no earlier nonempty line shares it, and the
/// processor has not seen it — is kept.
pub proof fn lemma_first_occurrence_kept(ls: Seq<Seq<u8>>, seen: Set<u64>, k: int)
    requires
        0 <= k < ls.len(),
        content_of(ls[k]).len() > 0,
        !seen.contains(fingerprint_of(content_of(ls[k]))),
        forall|m: int| 0 <= m < k && content_of(#[trigger] ls[m]).len() > 0
            ==> fingerprint_of(content_of(ls[m])) != fingerprint_of(content_of(ls[k])),
    ensures
        kept_lines(ls, seen).contains(ls[k]),
    decreases ls.len(),
{
    let c = content_of(ls[0]);
    let kept = kept_lines(ls, seen);
    if c.len() == 0 || seen.contains(fingerprint_of(c)) {
        assert(k != 0);
        lemma_first_occurrence_kept(ls.drop_first(), seen, k - 1);
        assert(ls.drop_first()[k - 1] == ls[k]);
        let kr = kept_lines(ls.drop_first(), seen);
        let m = choose|m: int| 0 <= m < kr.len() && kr[m] == ls[k];
        assert(kept[m] == ls[k]);
    } else {
        let seen2 = seen.insert(fingerprint_of(c));
        let kr = kept_lines(ls.drop_first(), seen2);
        assert(kept == seq![ls[0]] + kr);
        if k == 0 {
            assert(kept[0] == ls[k]);
        } else {
            assert(fingerprint_of(c) != fingerprint_of(content_of(ls[k])));
            lemma_first_occurrence_kept(ls.drop_first(), seen2, k - 1);
            assert(ls.drop_first()[k - 1] == ls[k]);
            let m = choose|m: int| 0 <= m < kr.len() && kr[m] == ls[k];
            assert(kept[m + 1] == ls[k]);
        }
    }
}

/// A line the boundary scan gets past whole: it decodes as UTF-8, or its
/// terminator stands within the recovery cap of the point where decoding
/// fails.
pub open spec fn consumable_line(line: Seq<u8>) -> bool {
    let f = utf8_fail_offset(line, 0);
    f == line.len() || (line.len() > 0 && line[line.len() - 1] == 10
        && line.len() - f <= RECOVERY_CAP + 1)
}

/// The scan, stopping inside or at the end of this line, still covers all
/// of it: the line's end stands within the recovery cap of the decode
/// failure (trivially so when the line decodes).
pub open spec fn tail_line_ok(line: Seq<u8>) -> bool {
    line.len() - utf8_fail_offset(line, 0) <= RECOVERY_CAP + 1
}

/// A position with no line feed before `q - 1` and a line feed at `q - 1`
/// (or the end of the data at `q`) is exactly where the line ends.
proof fn lemma_line_end_exact(data: Seq<u8>, i: int, q: int)
    requires
        0 <= i < q <= data.len(),
        forall|x: int| i <= x < q - 1 ==> data[x] != 10,
        data[q - 1] == 10 || q == data.len(),
    ensures
        line_end(data, i) == q,
{
    lemma_line_end(data, i);
    let j = line_end(data, i);
    if data[q - 1] == 10 {
        lemma_line_end_le(data, i, q);
        if j < q {
            assert(data[j - 1] != 10);
        }
    } else {
        if j < q {
            assert(data[j - 1] != 10);
        }
    }
}

/// The scan stop lies between its start and the end of the data.
proof fn lemma_scan_stop_bounds(data: Seq<u8>, i: int)
    requires
        0 <= i <= data.len(),
    ensures
        i <= scan_stop_from(data, i) <= data.len(),
    decreases data.len() - i,
{
    if i < data.len() {
        lemma_line_end(data, i);
        if line_consumable(data, i) {
            lemma_scan_stop_bounds(data, line_end(data, i));
        } else {
            crate::model::lemma_stop_point_bounds(data, i);
        }
    }
}

/// Consuming the line at `i` is a property of the line's bytes alone, and
/// a consumable line is always a sound tail line.
proof fn lemma_consumable_transfer(data: Seq<u8>, i: int)
    requires
        0 <= i < data.len(),
    ensures
        line_consumable(data, i) == consumable_line(data.subrange(i, line_end(data, i))),
        line_fail_at(data, i) - i == utf8_fail_offset(data.subrange(i, line_end(data, i)), 0),
        consumable_line(data.subrange(i, line_end(data, i)))
            ==> tail_line_ok(data.subrange(i, line_end(data, i))),
{
    lemma_line_end(data, i);
    let j = line_end(data, i);
    let line = data.subrange(i, j);
    lemma_utf8_fail_offset_bounds(line, 0);
    assert(line.len() == j - i);
    assert(line[line.len() - 1] == data[j - 1]);
}

/// Every line of `plines` is nonempty, holds no line feed except possibly
/// as its last byte, and — except possibly the last line — ends with one.
proof fn lemma_plines_structure(data: Seq<u8>, i: int, stop: int)
    requires
        0 <= i,
    ensures
        ({
            let ls = plines(data, i, stop);
            &&& (forall|k: int| 0 <= k < ls.len() ==> (#[trigger] ls[k]).len() > 0)
            &&& (forall|k: int, x: int| 0 <= k < ls.len() && 0 <= x < ls[k].len() - 1
                ==> #[trigger] ls[k][x] != 10)
            &&& (forall|k: int| 0 <= k < ls.len() - 1
                ==> (#[trigger] ls[k])[ls[k].len() - 1] == 10)
        }),
    decreases data.len() - i,
{
    let ls = plines(data, i, stop);
    if i < data.len() && line_end(data, i) <= stop {
        lemma_line_end(data, i);
        let j = line_end(data, i);
        let line = data.subrange(i, j);
        let rest = plines(data, j, stop);
        lemma_plines_structure(data, j, stop);
        assert(ls == seq![line] + rest);
        assert(ls[0] == line);
        assert(forall|k: int| 1 <= k < ls.len() ==> #[trigger] ls[k] == rest[k - 1]);
        assert forall|k: int, x: int| 0 <= k < ls.len() && 0 <= x < ls[k].len() - 1
            implies #[trigger] ls[k][x] != 10 by {
            if k == 0 {
                assert(line[x] == data[i + x]);
            } else {
                assert(ls[k] == rest[k - 1]);
                assert(rest[k - 1][x] != 10);
            }
        }
        assert forall|k: int| 0 <= k < ls.len() - 1
            implies (#[trigger] ls[k])[ls[k].len() - 1] == 10 by {
            if k == 0 {
                assert(rest.len() > 0);
                assert(j < data.len());
                assert(line[line.len() - 1] == data[j - 1]);
            } else {
                assert(ls[k] == rest[k - 1]);
            }
        }
    }
}

/// Every line the scan walks whole — except possibly the last — is
/// consumable, and every one of them, the last included, lies within the
/// recovery cap of its own decode failure.
proof fn lemma_plines_consumable(data: Seq<u8>, i: int)
    requires
        0 <= i <= data.len(),
    ensures
        ({
            let ls = plines(data, i, scan_stop_from(data, i));
            &&& (forall|k: int| 0 <= k < ls.len() - 1 ==> consumable_line(#[trigger] ls[k]))
            &&& (forall|k: int| 0 <= k < ls.len() ==> tail_line_ok(#[trigger] ls[k]))
        }),
    decreases data.len() - i,
{
    let s = scan_stop_from(data, i);
    let ls = plines(data, i, s);
    if i < data.len() {
        lemma_line_end(data, i);
        let j = line_end(data, i);
        let line = data.subrange(i, j);
        lemma_consumable_transfer(data, i);
        if line_consumable(data, i) {
            assert(s == scan_stop_from(data, j));
            lemma_scan_stop_bounds(data, j);
            assert(j <= s);
            lemma_plines_consumable(data, j);
            let rest = plines(data, j, s);
            assert(ls == seq![line] + rest);
            assert forall|k: int| 0 <= k < ls.len() - 1 implies consumable_line(#[trigger] ls[k]) by {
                if k == 0 {
                    assert(consumable_line(line));
                } else {
                    assert(ls[k] == rest[k - 1]);
                }
            }
            assert forall|k: int| 0 <= k < ls.len() implies tail_line_ok(#[trigger] ls[k]) by {
                if k == 0 {
                    assert(tail_line_ok(line));
                } else {
                    assert(ls[k] == rest[k - 1]);
                }
            }
        } else {
            assert(s == stop_point(data, i));
            crate::model::lemma_stop_point_bounds(data, i);
            if s < j {
                assert(ls.len() == 0);
            } else {
                assert(s == j);
                assert(j - line_fail_at(data, i) <= RECOVERY_CAP + 1);
                assert(tail_line_ok(line));
                lemma_line_end(data, j);
                assert(plines(data, j, s).len() == 0);
                assert(ls == seq![line] + plines(data, j, s));
                assert(ls.len() == 1);
            }
        }
    }
}

/// Each kept line is one of the walked lines, and only the last kept line
/// can be the last walked line.
proof fn lemma_kept_subsequence(ls: Seq<Seq<u8>>, seen: Set<u64>)
    ensures
        forall|m: int| 0 <= m < kept_lines(ls, seen).len()
            ==> exists|k: int| 0 <= k < ls.len() && ls[k] == #[trigger] kept_lines(ls, seen)[m]
                && (m < kept_lines(ls, seen).len() - 1 ==> k < ls.len() - 1),
    decreases ls.len(),
{
    let kept = kept_lines(ls, seen);
    if ls.len() > 0 {
        let c = content_of(ls[0]);
        if c.len() == 0 || seen.contains(fingerprint_of(c)) {
            let kr = kept_lines(ls.drop_first(), seen);
            lemma_kept_subsequence(ls.drop_first(), seen);
            assert(kept == kr);
            assert forall|m: int| 0 <= m < kept.len() implies
                exists|k: int| 0 <= k < ls.len() && ls[k] == #[trigger] kept[m]
                    && (m < kept.len() - 1 ==> k < ls.len() - 1) by {
                let k0 = choose|k0: int| 0 <= k0 < ls.drop_first().len()
                    && ls.drop_first()[k0] == kr[m] && (m < kr.len() - 1 ==> k0 < ls.drop_first().len() - 1);
                assert(ls[k0 + 1] == ls.drop_first()[k0]);
                assert(0 <= k0 + 1 < ls.len() && ls[k0 + 1] == kept[m]
                    && (m < kept.len() - 1 ==> k0 + 1 < ls.len() - 1));
            }
        } else {
            let seen2 = seen.insert(fingerprint_of(c));
            let kr = kept_lines(ls.drop_first(), seen2);
            lemma_kept_subsequence(ls.drop_first(), seen2);
            assert(kept == seq![ls[0]] + kr);
            assert forall|m: int| 0 <= m < kept.len() implies
                exists|k: int| 0 <= k < ls.len() && ls[k] == #[trigger] kept[m]
                    && (m < kept.len() - 1 ==> k < ls.len() - 1) by {
                if m == 0 {
                    if kept.len() > 1 {
                        assert(kr.len() > 0);
                        assert(ls.drop_first().len() > 0);
                        assert(0 < ls.len() - 1);
                    }
                    assert(0 <= 0 < ls.len() && ls[0] == kept[m]
                        && (m < kept.len() - 1 ==> 0 < ls.len() - 1));
                } else {
                    assert(kept[m] == kr[m - 1]);
                    let k0 = choose|k0: int| 0 <= k0 < ls.drop_first().len()
                        && ls.drop_first()[k0] == kr[m - 1]
                        && (m - 1 < kr.len() - 1 ==> k0 < ls.drop_first().len() - 1);
                    assert(ls[k0 + 1] == ls.drop_first()[k0]);
                    assert(0 <= k0 + 1 < ls.len() && ls[k0 + 1] == kept[m]
                        && (m < kept.len() - 1 ==> k0 + 1 < ls.len() - 1));
                }
            }
        }
    }
}

/// When every line has nonempty content, no fingerprint was seen, and all
/// fingerprints differ, nothing is dropped.
proof fn lemma_kept_of_distinct(ls: Seq<Seq<u8>>, seen: Set<u64>)
    requires
        forall|k: int| 0 <= k < ls.len() ==> content_of(#[trigger] ls[k]).len() > 0,
        forall|k: int| 0 <= k < ls.len()
            ==> !seen.contains(fingerprint_of(content_of(#[trigger] ls[k]))),
        forall|k1: int, k2: int| 0 <= k1 < k2 < ls.len()
            ==> fingerprint_of(content_of(#[trigger] ls[k1]))
                != fingerprint_of(content_of(#[trigger] ls[k2])),
    ensures
        kept_lines(ls, seen) == ls,
    decreases ls.len(),
{
    if ls.len() > 0 {
        let c = content_of(ls[0]);
        let seen2 = seen.insert(fingerprint_of(c));
        let rest = ls.drop_first();
        assert(forall|k: int| 0 <= k < rest.len() ==> #[trigger] rest[k] == ls[k + 1]);
        assert forall|k: int| 0 <= k < rest.len() implies
            !seen2.contains(fingerprint_of(content_of(#[trigger] rest[k]))) by {
            assert(rest[k] == ls[k + 1]);
            assert(fingerprint_of(content_of(ls[0]))
                != fingerprint_of(content_of(ls[k + 1])));
        }
        assert forall|k1: int, k2: int| 0 <= k1 < k2 < rest.len() implies
            fingerprint_of(content_of(#[trigger] rest[k1]))
                != fingerprint_of(content_of(#[trigger] rest[k2])) by {
            assert(rest[k1] == ls[k1 + 1] && rest[k2] == ls[k2 + 1]);
        }
        lemma_kept_of_distinct(rest, seen2);
        assert(kept_lines(ls, seen) == seq![ls[0]] + rest);
        assert(seq![ls[0]] + rest =~= ls);
    }
}

/// Scanning a concatenation of well-shaped lines — each nonempty, no inner
/// line feed, all but the last terminated and consumable — walks exactly
/// those lines.
proof fn lemma_rescan_lines(data: Seq<u8>, pos: int, ls: Seq<Seq<u8>>)
    requires
        0 <= pos <= data.len(),
        data.subrange(pos, data.len() as int) == ls.flatten(),
        forall|k: int| 0 <= k < ls.len() ==> (#[trigger] ls[k]).len() > 0,
        forall|k: int, x: int| 0 <= k < ls.len() && 0 <= x < ls[k].len() - 1
            ==> #[trigger] ls[k][x] != 10,
        forall|k: int| 0 <= k < ls.len() - 1 ==> (#[trigger] ls[k])[ls[k].len() - 1] == 10,
        forall|k: int| 0 <= k < ls.len() - 1 ==> consumable_line(#[trigger] ls[k]),
        ls.len() > 0 ==> tail_line_ok(ls[ls.len() - 1]),
    ensures
        plines(data, pos, scan_stop_from(data, pos)) == ls,
    decreases ls.len(),
{
    if ls.len() == 0 {
        assert(ls.flatten() =~= Seq::<u8>::empty());
        assert(data.subrange(pos, data.len() as int).len() == data.len() - pos);
        assert(data.len() - pos == 0);
        assert(scan_stop_from(data, pos) == pos);
    } else {
        let l0 = ls[0];
        let rest = ls.drop_first();
        assert(ls.first() == l0);
        assert(ls.flatten() == l0 + rest.flatten());
        let n0 = l0.len() as int;
        assert forall|x: int| 0 <= x < data.len() - pos implies
            #[trigger] data[pos + x] == ls.flatten()[x] by {
            assert(data.subrange(pos, data.len() as int)[x] == data[pos + x]);
        }
        assert(pos + n0 <= data.len()) by {
            assert(ls.flatten().len() == n0 + rest.flatten().len());
        }
        // the first line ends exactly at pos + n0
        assert forall|x: int| pos <= x < pos + n0 - 1 implies data[x] != 10 by {
            assert(data[pos + (x - pos)] == ls.flatten()[x - pos]);
            assert(ls.flatten()[x - pos] == l0[x - pos]);
            assert(l0[x - pos] != 10);
        }
        assert(data[pos + n0 - 1] == l0[n0 - 1]) by {
            assert(data[pos + (n0 - 1)] == ls.flatten()[n0 - 1]);
            assert(ls.flatten()[n0 - 1] == l0[n0 - 1]);
        }
        if rest.len() > 0 {
            assert(l0[n0 - 1] == 10);
        } else {
            assert(ls.flatten() =~= l0);
            assert(data.len() - pos == n0);
        }
        lemma_line_end_exact(data, pos, pos + n0);
        let j = pos + n0;
        assert(data.subrange(pos, j) =~= l0);
        lemma_consumable_transfer(data, pos);
        let s = scan_stop_from(data, pos);
        if rest.len() > 0 {
            assert(line_consumable(data, pos));
            assert(s == scan_stop_from(data, j));
            lemma_scan_stop_bounds(data, j);
            assert(data.subrange(j, data.len() as int) =~= rest.flatten()) by {
                assert forall|y: int| 0 <= y < data.len() - j implies
                    #[trigger] data.subrange(j, data.len() as int)[y] == rest.flatten()[y] by {
                    assert(data.subrange(j, data.len() as int)[y] == data[j + y]);
                    assert(data[pos + (n0 + y)] == ls.flatten()[n0 + y]);
                    assert(ls.flatten()[n0 + y] == rest.flatten()[y]);
                }
            }
            assert(rest[rest.len() - 1] == ls[ls.len() - 1]);
            lemma_rescan_lines(data, j, rest);
            assert(j <= s);
            assert(plines(data, pos, s) == seq![l0] + plines(data, j, s));
            assert(seq![l0] + rest =~= ls);
        } else {
            assert(tail_line_ok(l0));
            assert(j == data.len());
            if line_consumable(data, pos) {
                assert(s == scan_stop_from(data, j));
                assert(s == j);
            } else {
                assert(s == stop_point(data, pos));
                // the tail line lies within the cap, so the stop is its end
                assert(j - line_fail_at(data, pos) <= RECOVERY_CAP + 1);
                assert(s == j);
            }
            assert(plines(data, pos, s) == seq![l0] + plines(data, j, s));
            assert(plines(data, j, s).len() == 0);
            assert(seq![l0] =~= ls);
        }
    }
}

/// Processing a list of chunks in order, the state threaded through: chunk
/// `k` covers `[prev, ends[k])` where `prev` is the previous end.
pub open spec fn run_chunks_from(data: Seq<u8>, ends: Seq<int>, k: int, prev: int, st: RunState) -> RunState
    decreases ends.len() - k,
{
    if k < 0 || k >= ends.len() {
        st
    } else {
        run_chunks_from(data, ends, k + 1, ends[k], run_from(data, prev, ends[k], st))
    }
}

/// Chunked processing from chunk `k` on lands where the unchunked run lands.
proof fn lemma_run_chunks_from_global(data: Seq<u8>, ends: Seq<int>, k: int, prev: int)
    requires
        0 <= k <= ends.len(),
        ends.len() >= 1,
        prev == if k == 0 { 0int } else { ends[k - 1] },
        forall|x: int| 0 <= x < ends.len() ==> 0 <= #[trigger] ends[x] <= data.len(),
        forall|x: int| 0 <= x < ends.len() - 1 ==> #[trigger] ends[x] <= ends[x + 1],
        forall|x: int| 0 <= x < ends.len() - 1 ==> 0 < #[trigger] ends[x] && ends[x] < data.len()
            && data[ends[x] - 1] == 10,
    ensures
        run_chunks_from(data, ends, k, prev, run_from(data, 0, prev, init_state()))
            == run_from(data, 0, ends[ends.len() - 1], init_state()),
    decreases ends.len() - k,
{
    let st = run_from(data, 0, prev, init_state());
    if k < ends.len() {
        lemma_run_compose(data, 0, prev, ends[k], init_state());
        assert(run_from(data, prev, ends[k], st) == run_from(data, 0, ends[k], init_state()));
        lemma_run_chunks_from_global(data, ends, k + 1, ends[k]);
    }
}

/// Chunk-size invariance, spec side: streaming the chunks of any target
/// size through one shared state gives the state of the unchunked global
/// run, so two runs that differ only in chunk size end alike.
pub proof fn lemma_chunk_size_invariance(data: Seq<u8>, target1: int, target2: int)
    ensures
        run_chunks_from(data, chunk_ends(data, target1), 0, 0, init_state())
            == global_run(data),
        run_chunks_from(data, chunk_ends(data, target1), 0, 0, init_state())
            == run_chunks_from(data, chunk_ends(data, target2), 0, 0, init_state()),
{
    lemma_chunked_run_is_global(data, target1);
    lemma_chunked_run_is_global(data, target2);
}

/// Streaming the chunks of one target size equals the unchunked global run.
proof fn lemma_chunked_run_is_global(data: Seq<u8>, target: int)
    ensures
        run_chunks_from(data, chunk_ends(data, target), 0, 0, init_state()) == global_run(data),
{
    let ends = chunk_ends(data, target);
    lemma_chunk_ends_props(data, target);
    if data.len() > 0 {
        lemma_line_end(data, 0);
    }
    assert(run_from(data, 0, 0, init_state()) == init_state());
    lemma_run_chunks_from_global(data, ends, 0, 0);
    assert(ends[ends.len() - 1] == scan_stop(data));
}

/// A terminated line that lies whole within the recovery cap is always
/// consumable, whatever its bytes: even if decoding fails at its very
/// first byte, the scan finds the terminator before the cap runs out.
pub proof fn lemma_short_terminated_line_consumable(line: Seq<u8>)
    requires
        line.len() > 0,
        line[line.len() - 1] == 10,
        line.len() <= RECOVERY_CAP + 1,
    ensures
        consumable_line(line),
{
    lemma_utf8_fail_offset_bounds(line, 0);
}

/// When every line of the data is consumable — every invalid run recovers
/// within the cap — the boundary scan reaches the end of the data.
pub proof fn lemma_scan_reaches_end(data: Seq<u8>, i: int)
    requires
        0 <= i <= data.len(),
        forall|k: int| 0 <= k < plines(data, i, data.len() as int).len()
            ==> consumable_line(#[trigger] plines(data, i, data.len() as int)[k]),
    ensures
        scan_stop_from(data, i) == data.len(),
    decreases data.len() - i,
{
    if i < data.len() {
        lemma_line_end(data, i);
        let j = line_end(data, i);
        let line = data.subrange(i, j);
        let ls = plines(data, i, data.len() as int);
        let rest = plines(data, j, data.len() as int);
        assert(ls == seq![line] + rest);
        assert(ls[0] == line);
        assert(consumable_line(line));
        lemma_consumable_transfer(data, i);
        assert(line_consumable(data, i));
        assert forall|k: int| 0 <= k < rest.len() implies consumable_line(#[trigger] rest[k]) by {
            assert(rest[k] == ls[k + 1]);
        }
        lemma_scan_reaches_end(data, j);
    }
}

/// The recovery scenario: when the scan reaches the whole data — every
/// invalid run recovers within the cap — a line of nonempty content whose
/// fingerprint no earlier nonempty line shares is kept, and the output is
/// the concatenation of the kept lines, so that line stands in the output.
/// Lines of equal case-insensitive content always share a fingerprint;
/// distinct contents may collide, the accepted trade-off of hashing, so
/// the premise here is fingerprint inequality.
pub proof fn lemma_recovery_keeps_new_line(data: Seq<u8>, k: int)
    requires
        scan_stop(data) == data.len(),
        0 <= k < plines(data, 0, data.len() as int).len(),
        content_of(plines(data, 0, data.len() as int)[k]).len() > 0,
        forall|m: int| 0 <= m < k
            && content_of(#[trigger] plines(data, 0, data.len() as int)[m]).len() > 0
            ==> fingerprint_of(content_of(plines(data, 0, data.len() as int)[m]))
                != fingerprint_of(content_of(plines(data, 0, data.len() as int)[k])),
    ensures
        kept_lines(plines(data, 0, scan_stop(data)), Set::empty()).contains(
            plines(data, 0, data.len() as int)[k]),
        dedup_output(data) == kept_lines(plines(data, 0, scan_stop(data)), Set::empty()).flatten(),
{
    lemma_first_occurrence_kept(plines(data, 0, data.len() as int), Set::empty(), k);
    lemma_order_preservation(data);
}

/// When every line of the data is consumable, the chunks cover the whole
/// data: the last chunk ends exactly at the end of the input.
pub proof fn lemma_full_coverage_when_recovery_succeeds(data: Seq<u8>, target: int)
    requires
        forall|k: int| 0 <= k < plines(data, 0, data.len() as int).len()
            ==> consumable_line(#[trigger] plines(data, 0, data.len() as int)[k]),
    ensures
        chunk_ends(data, target)[chunk_ends(data, target).len() - 1] == data.len(),
{
    lemma_scan_reaches_end(data, 0);
    lemma_chunk_ends_props(data, target);
}

/// Boundary correctness: no chunk boundary falls inside a line.  For every
/// adjacent pair of chunks the byte right before the boundary is a line
/// feed, and the final end never runs past the data.
pub proof fn lemma_boundary_correctness(data: Seq<u8>, target: int)
    ensures
        forall|k: int| 0 <= k < chunk_ends(data, target).len() - 1
            ==> data[#[trigger] chunk_ends(data, target)[k] - 1] == 10,
        chunk_ends(data, target)[chunk_ends(data, target).len() - 1] <= data.len(),
{
    lemma_chunk_ends_props(data, target);
}

/// Idempotence: running the engine on its own output changes nothing.
/// The output's lines are the kept lines of the first run: pairwise
/// distinct fingerprints, nonempty contents, and every line the re-run's
/// scan walks up to its last one is consumable, so the second run keeps
/// them all.
pub proof fn lemma_idempotent(data: Seq<u8>)
    ensures
        dedup_output(dedup_output(data)) == dedup_output(data),
{
    let stop = scan_stop(data);
    let ls = plines(data, 0, stop);
    let ks = kept_lines(ls, Set::empty());
    let out = dedup_output(data);
    lemma_scan_stop_bounds(data, 0);
    lemma_order_preservation(data);
    assert(out == ks.flatten());
    lemma_plines_structure(data, 0, stop);
    lemma_plines_consumable(data, 0);
    lemma_kept_subsequence(ls, Set::empty());
    lemma_kept_fingerprints_distinct(ls, Set::empty());

    // transfer the per-line shape from the walked lines to the kept lines
    assert forall|m: int| 0 <= m < ks.len() implies (#[trigger] ks[m]).len() > 0 by {
        assert(content_of(ks[m]).len() > 0);
    }
    assert forall|m: int, x: int| 0 <= m < ks.len() && 0 <= x < ks[m].len() - 1 implies
        #[trigger] ks[m][x] != 10 by {
        let k = choose|k: int| 0 <= k < ls.len() && ls[k] == ks[m]
            && (m < ks.len() - 1 ==> k < ls.len() - 1);
        assert(ls[k][x] != 10);
    }
    assert forall|m: int| 0 <= m < ks.len() - 1 implies
        (#[trigger] ks[m])[ks[m].len() - 1] == 10 && consumable_line(ks[m]) by {
        let k = choose|k: int| 0 <= k < ls.len() && ls[k] == ks[m]
            && (m < ks.len() - 1 ==> k < ls.len() - 1);
        assert(ls[k][ls[k].len() - 1] == 10);
        assert(consumable_line(ls[k]));
    }
    assert forall|m: int| 0 <= m < ks.len() implies tail_line_ok(#[trigger] ks[m]) by {
        let k = choose|k: int| 0 <= k < ls.len() && ls[k] == ks[m]
            && (m < ks.len() - 1 ==> k < ls.len() - 1);
        assert(tail_line_ok(ls[k]));
    }

    // the re-run's scan walks exactly the kept lines
    assert(out.subrange(0, out.len() as int) =~= ks.flatten());
    lemma_rescan_lines(out, 0, ks);
    assert(plines(out, 0, scan_stop(out)) == ks);

    // and keeps every one of them
    lemma_kept_of_distinct(ks, Set::empty());
    lemma_order_preservation(out);
    assert(dedup_output(out) == ks.flatten());
}

} // verus!
