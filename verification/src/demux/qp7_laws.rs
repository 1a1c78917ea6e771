//! What holds of the records of the QP7 mode, said of the bytes of the file.

use super::container::{audio_start, block_count, block_frames, lemma_audio_start_bound, payload};
use super::container_laws::{law_frame_total_by_bytes, law_payload_by_bytes};
use super::ds2::{demuxed, DemuxModel};
use super::qp::{first_frame_at, qp_segments};
use super::qp7::{
    later, law_qp7_segments_sound, qp7_progress, qp7_segments, record_at, record_size, records_at,
    with_records, Qp7SegmentModel,
};
use crate::error::ErrorModel;
use crate::text::decimal;
use vstd::prelude::*;

verus! {

/// What is wrong with records is always that one is incomplete.
proof fn lemma_records_truncated(raw: Seq<u8>, pos: int, n: nat)
    ensures
        records_at(raw, pos, n) matches Err(error) ==> error is Truncated,
    decreases n,
{
    if n > 0 {
        lemma_records_truncated(raw, pos, (n - 1) as nat);
    }
}

/// What is wrong with blocks of records is always that a record is incomplete.
proof fn lemma_progress_truncated(data: Seq<u8>, start: int, raw: Seq<u8>, n: nat)
    ensures
        qp7_progress(data, start, raw, n) matches Err(error) ==> error is Truncated,
    decreases n,
{
    if n > 0 {
        let bi = n - 1;
        lemma_progress_truncated(data, start, raw, bi as nat);
        if let Ok(before) = qp7_progress(data, start, raw, bi as nat) {
            lemma_records_truncated(
                raw,
                later(before.pos, first_frame_at(data, start, bi)),
                block_frames(data, start, bi) as nat,
            );
        }
    }
}

/// A file of records is refused only if one is incomplete.
pub proof fn lemma_only_truncated(data: Seq<u8>, start: int, n: nat)
    ensures
        qp7_segments(data, start, n) matches Err(error) ==> error is Truncated,
{
    lemma_progress_truncated(data, start, payload(data, start, n), n);
}

/// How the records of the first blocks of a file were found: where they begin in
/// the payload, and how the blocks share them out.
pub struct Walk {
    /// How many records there are before each block, and before the end.
    pub before: Seq<int>,
    /// From where on each block may hold records, and the blocks behind the last.
    pub free: Seq<int>,
    /// Where each record begins.
    pub at: Seq<int>,
    /// The first block of each segment, and the block behind its last.
    pub spans: Seq<(int, int)>,
}

/// Where the records from `pos` on begin.
proof fn lemma_records_places(raw: Seq<u8>, pos: int, n: nat) -> (at: Seq<int>)
    requires
        pos >= 0,
    ensures
        records_at(raw, pos, n) matches Ok((records, end)) ==> {
            &&& at.len() == n
            &&& records.len() == n
            &&& n == 0 ==> end == pos
            &&& n > 0 ==> at[0] == pos && end == at[n - 1] + record_size(raw, at[n - 1])
            &&& forall|g: int|
                0 < g < n ==> #[trigger] at[g] == at[g - 1] + record_size(raw, at[g - 1])
            &&& forall|g: int|
                0 <= g < n ==> pos <= #[trigger] at[g] && at[g] + record_size(raw, at[g])
                    <= raw.len() && records[g] == raw.subrange(
                    at[g],
                    at[g] + record_size(raw, at[g]),
                )
        },
    decreases n,
{
    if n == 0 {
        Seq::empty()
    } else {
        let earlier = lemma_records_places(raw, pos, (n - 1) as nat);
        match records_at(raw, pos, (n - 1) as nat) {
            Err(_) => Seq::empty(),
            Ok((_, end)) => earlier.push(end),
        }
    }
}

/// Whether block `b` has its records where it should.
spec fn block_walked(data: Seq<u8>, start: int, raw: Seq<u8>, w: Walk, b: int) -> bool {
    let count = block_frames(data, start, b);
    let lo = w.before[b];
    let hi = w.before[b + 1];
    &&& 0 <= lo
    &&& hi == lo + count
    &&& hi <= w.at.len()
    &&& w.free[b] >= 0
    &&& count == 0 ==> w.free[b + 1] == later(w.free[b], 506 * (b + 1))
    &&& count > 0 ==> {
        &&& w.at[lo] == later(w.free[b], first_frame_at(data, start, b))
        &&& w.free[b + 1] == w.at[hi - 1] + record_size(raw, w.at[hi - 1])
    }
    &&& forall|g: int| lo < g < hi ==> #[trigger] w.at[g] == w.at[g - 1] + record_size(raw, w.at[g - 1])
}

/// Whether segment `k` holds the records of its blocks.
spec fn segment_walked(
    segments: Seq<Qp7SegmentModel>,
    k: int,
    data: Seq<u8>,
    start: int,
    raw: Seq<u8>,
    w: Walk,
    m: int,
    n: int,
) -> bool {
    let (b, c) = w.spans[k];
    let segment = segments[k];
    &&& 0 <= b < c <= m
    &&& k > 0 ==> w.spans[k - 1].1 < b
    &&& b == 0 || block_frames(data, start, b - 1) == 0
    &&& c == n || block_frames(data, start, c) == 0
    &&& forall|i: int| b <= i < c ==> #[trigger] block_frames(data, start, i) > 0
    &&& segment.total_frames == segment.records.len()
    &&& segment.reset_before == (k > 0)
    &&& holds_records(segment.records, raw, w, b, c)
}

/// Whether the records are those of the blocks from `b` to before `c`.
spec fn holds_records(records: Seq<Seq<u8>>, raw: Seq<u8>, w: Walk, b: int, c: int) -> bool {
    &&& records.len() == w.before[c] - w.before[b]
    &&& forall|i: int|
        0 <= i < records.len() ==> #[trigger] records[i] == raw.subrange(
            w.at[w.before[b] + i],
            w.at[w.before[b] + i] + record_size(raw, w.at[w.before[b] + i]),
        )
}

/// Whether block `i` belongs to a segment.
spec fn in_segment(spans: Seq<(int, int)>, i: int) -> bool {
    exists|k: int| 0 <= k < spans.len() && (#[trigger] spans[k]).0 <= i < spans[k].1
}

/// Whether the walk over the first `m` blocks led to these segments.
spec fn walked(
    segments: Seq<Qp7SegmentModel>,
    data: Seq<u8>,
    start: int,
    raw: Seq<u8>,
    w: Walk,
    upto: int,
    m: int,
    n: int,
) -> bool {
    &&& w.before.len() == m + 1
    &&& w.free.len() == m + 1
    &&& w.before[0] == 0
    &&& w.free[0] == 0
    &&& w.free[m] >= 0
    &&& w.before[m] == w.at.len()
    &&& forall|b: int| 0 <= b < m ==> #[trigger] block_walked(data, start, raw, w, b)
    &&& forall|g: int|
        0 <= g < w.at.len() ==> 0 <= #[trigger] w.at[g] && w.at[g] + record_size(raw, w.at[g])
            <= raw.len()
    &&& w.spans.len() == segments.len()
    &&& forall|k: int|
        0 <= k < segments.len() ==> #[trigger] segment_walked(
            segments,
            k,
            data,
            start,
            raw,
            w,
            upto,
            n,
        )
    &&& forall|i: int|
        0 <= i < upto && #[trigger] block_frames(data, start, i) > 0 ==> in_segment(w.spans, i)
}

/// Counts of records grow.
proof fn lemma_before_grows(
    data: Seq<u8>,
    start: int,
    raw: Seq<u8>,
    w: Walk,
    m: int,
    b: int,
    c: int,
)
    requires
        0 <= b <= c <= m,
        w.before.len() == m + 1,
        forall|i: int| 0 <= i < m ==> #[trigger] block_walked(data, start, raw, w, i),
    ensures
        w.before[b] <= w.before[c],
    decreases c - b,
{
    if b < c {
        assert(block_walked(data, start, raw, w, c - 1));
        lemma_before_grows(data, start, raw, w, m, b, c - 1);
    }
}

/// The open segment: its first block, which all blocks with frames follow.
spec fn open_walked(
    open: Seq<Seq<u8>>,
    data: Seq<u8>,
    start: int,
    raw: Seq<u8>,
    w: Walk,
    first: int,
    m: int,
) -> bool {
    &&& 0 <= first <= m
    &&& first == 0 || block_frames(data, start, first - 1) == 0
    &&& forall|i: int| first <= i < m ==> #[trigger] block_frames(data, start, i) > 0
    &&& holds_records(open, raw, w, first, m)
    &&& w.spans.len() > 0 ==> w.spans.last().1 < first
}

/// Ending the open segment adds it to the walk.
proof fn lemma_close(
    segments: Seq<Qp7SegmentModel>,
    open: Seq<Seq<u8>>,
    data: Seq<u8>,
    start: int,
    raw: Seq<u8>,
    w: Walk,
    first: int,
    m: int,
    n: int,
) -> (more: Walk)
    requires
        walked(segments, data, start, raw, w, first, m, n),
        open_walked(open, data, start, raw, w, first, m),
        m == n || block_frames(data, start, m) == 0,
    ensures
        walked(with_records(segments, open), data, start, raw, more, m, m, n),
        more.before == w.before,
        more.free == w.free,
        more.at == w.at,
        more.spans.len() > 0 ==> more.spans.last().1 <= m,
{
    let after = with_records(segments, open);
    if first == m {
        assert(open.len() == 0);
        assert forall|k: int| 0 <= k < after.len() implies #[trigger] segment_walked(
            after,
            k,
            data,
            start,
            raw,
            w,
            m,
            n,
        ) by {
            assert(segment_walked(segments, k, data, start, raw, w, first, n));
        }
        w
    } else {
        assert(block_walked(data, start, raw, w, first));
        assert(block_frames(data, start, first) > 0);
        lemma_before_grows(data, start, raw, w, m, first + 1, m);
        assert(open.len() > 0);
        let more = Walk { spans: w.spans.push((first, m)), ..w };
        assert forall|b: int| 0 <= b < m implies #[trigger] block_walked(
            data,
            start,
            raw,
            more,
            b,
        ) by {
            assert(block_walked(data, start, raw, w, b));
        }
        assert forall|k: int| 0 <= k < after.len() implies #[trigger] segment_walked(
            after,
            k,
            data,
            start,
            raw,
            more,
            m,
            n,
        ) by {
            if k < segments.len() {
                assert(segment_walked(segments, k, data, start, raw, w, first, n));
                assert(more.spans[k] == w.spans[k] && after[k] == segments[k]);
                if k > 0 {
                    assert(more.spans[k - 1] == w.spans[k - 1]);
                }
                let (b, c) = w.spans[k];
                assert(holds_records(segments[k].records, raw, more, b, c));
            } else {
                assert(holds_records(open, raw, more, first, m));
                if k > 0 {
                    assert(more.spans[k - 1] == w.spans.last());
                }
            }
        }
        assert forall|i: int| 0 <= i < m && #[trigger] block_frames(data, start, i)
            > 0 implies in_segment(more.spans, i) by {
            if i < first {
                assert(in_segment(w.spans, i));
                let k = choose|k: int|
                    0 <= k < w.spans.len() && (#[trigger] w.spans[k]).0 <= i < w.spans[k].1;
                assert(more.spans[k] == w.spans[k]);
            } else {
                assert(more.spans[w.spans.len() as int] == (first, m));
            }
        }
        more
    }
}

/// A longer walk with the same beginning keeps what holds of the blocks before.
proof fn lemma_longer(
    segments: Seq<Qp7SegmentModel>,
    data: Seq<u8>,
    start: int,
    raw: Seq<u8>,
    w: Walk,
    longer: Walk,
    upto: int,
    m: int,
    n: int,
)
    requires
        walked(segments, data, start, raw, w, upto, m, n),
        0 <= upto <= m,
        longer.spans == w.spans,
        longer.before.len() == m + 2,
        longer.free.len() == m + 2,
        longer.at.len() >= w.at.len(),
        forall|i: int| 0 <= i <= m ==> #[trigger] longer.before[i] == w.before[i],
        forall|i: int| 0 <= i <= m ==> #[trigger] longer.free[i] == w.free[i],
        forall|g: int| 0 <= g < w.at.len() ==> #[trigger] longer.at[g] == w.at[g],
    ensures
        forall|b: int| 0 <= b < m ==> #[trigger] block_walked(data, start, raw, longer, b),
        forall|k: int|
            0 <= k < segments.len() ==> #[trigger] segment_walked(
                segments,
                k,
                data,
                start,
                raw,
                longer,
                upto,
                n,
            ),
        forall|b: int, c: int, records: Seq<Seq<u8>>|
            0 <= b <= c <= m && #[trigger] holds_records(records, raw, w, b, c) ==> holds_records(
                records,
                raw,
                longer,
                b,
                c,
            ),
{
    assert forall|b: int| 0 <= b < m implies #[trigger] block_walked(
        data,
        start,
        raw,
        longer,
        b,
    ) by {
        assert(block_walked(data, start, raw, w, b));
        assert(longer.before[b] == w.before[b] && longer.before[b + 1] == w.before[b + 1]);
        assert(longer.free[b] == w.free[b] && longer.free[b + 1] == w.free[b + 1]);
        let lo = w.before[b];
        let hi = w.before[b + 1];
        assert forall|g: int| lo <= g < hi implies #[trigger] longer.at[g] == w.at[g] by {}
    }
    assert forall|b: int, c: int, records: Seq<Seq<u8>>|
        0 <= b <= c <= m && #[trigger] holds_records(records, raw, w, b, c) implies holds_records(
        records,
        raw,
        longer,
        b,
        c,
    ) by {
        lemma_before_grows(data, start, raw, w, m, b, c);
        lemma_before_grows(data, start, raw, w, m, 0, b);
        lemma_before_grows(data, start, raw, w, m, c, m);
        assert(longer.before[b] == w.before[b] && longer.before[c] == w.before[c]);
        assert forall|i: int| 0 <= i < records.len() implies #[trigger] records[i] == raw.subrange(
            longer.at[longer.before[b] + i],
            longer.at[longer.before[b] + i] + record_size(raw, longer.at[longer.before[b] + i]),
        ) by {
            assert(longer.at[w.before[b] + i] == w.at[w.before[b] + i]);
        }
    }
    assert forall|k: int| 0 <= k < segments.len() implies #[trigger] segment_walked(
        segments,
        k,
        data,
        start,
        raw,
        longer,
        upto,
        n,
    ) by {
        assert(segment_walked(segments, k, data, start, raw, w, upto, n));
        let (b, c) = w.spans[k];
        assert(holds_records(segments[k].records, raw, w, b, c));
    }
}

/// The walk over the first `m` blocks, with the first block of the open segment.
proof fn lemma_walk(data: Seq<u8>, start: int, raw: Seq<u8>, m: nat, n: nat) -> (res: (Walk, int))
    requires
        m <= n,
    ensures
        qp7_progress(data, start, raw, m) matches Ok(at) ==> {
            &&& walked(at.segments, data, start, raw, res.0, res.1, m as int, n as int)
            &&& open_walked(at.open, data, start, raw, res.0, res.1, m as int)
            &&& res.0.free[m as int] == at.pos
        },
    decreases m,
{
    let none = Walk { before: seq![0], free: seq![0], at: Seq::empty(), spans: Seq::empty() };
    if m == 0 {
        (none, 0)
    } else {
        let bi = (m - 1) as nat;
        let (w, first) = lemma_walk(data, start, raw, bi, n);
        match qp7_progress(data, start, raw, bi) {
            Err(_) => (none, 0),
            Ok(before) => {
                let count = block_frames(data, start, bi as int);
                if count == 0 {
                    let closed = lemma_close(
                        before.segments,
                        before.open,
                        data,
                        start,
                        raw,
                        w,
                        first,
                        bi as int,
                        n as int,
                    );
                    let longer = Walk {
                        before: closed.before.push(closed.before[bi as int]),
                        free: closed.free.push(later(closed.free[bi as int], 506 * m as int)),
                        ..closed
                    };
                    let segments = with_records(before.segments, before.open);
                    lemma_longer(
                        segments,
                        data,
                        start,
                        raw,
                        closed,
                        longer,
                        bi as int,
                        bi as int,
                        n as int,
                    );
                    assert(block_walked(data, start, raw, longer, bi as int)) by {
                        lemma_before_grows(data, start, raw, closed, bi as int, 0, bi as int);
                    }
                    assert forall|k: int| 0 <= k < segments.len() implies #[trigger] segment_walked(
                        segments,
                        k,
                        data,
                        start,
                        raw,
                        longer,
                        m as int,
                        n as int,
                    ) by {
                        assert(segment_walked(
                            segments,
                            k,
                            data,
                            start,
                            raw,
                            longer,
                            bi as int,
                            n as int,
                        ));
                    }
                    assert forall|i: int| 0 <= i < m && #[trigger] block_frames(data, start, i)
                        > 0 implies in_segment(longer.spans, i) by {
                        assert(i < bi);
                    }
                    (longer, m as int)
                } else {
                    let pos = later(before.pos, first_frame_at(data, start, bi as int));
                    let at = lemma_records_places(raw, pos, count as nat);
                    match records_at(raw, pos, count as nat) {
                        Err(_) => (none, 0),
                        Ok((records, end)) => {
                            let longer = Walk {
                                before: w.before.push(w.before[bi as int] + count),
                                free: w.free.push(end),
                                at: w.at + at,
                                ..w
                            };
                            lemma_longer(
                                before.segments,
                                data,
                                start,
                                raw,
                                w,
                                longer,
                                first,
                                bi as int,
                                n as int,
                            );
                            lemma_new_records(data, start, raw, w, longer, at, bi as int);
                            lemma_before_grows(data, start, raw, w, bi as int, 0, first);
                            lemma_before_grows(data, start, raw, w, bi as int, first, bi as int);
                            let open = before.open + records;
                            assert(holds_records(before.open, raw, longer, first, bi as int));
                            assert(holds_records(open, raw, longer, first, m as int)) by {
                                assert(longer.before[first] == w.before[first]);
                                assert forall|i: int| 0 <= i < open.len() implies #[trigger] open[i]
                                    == raw.subrange(
                                    longer.at[longer.before[first] + i],
                                    longer.at[longer.before[first] + i] + record_size(
                                        raw,
                                        longer.at[longer.before[first] + i],
                                    ),
                                ) by {
                                    if i < before.open.len() {
                                        assert(open[i] == before.open[i]);
                                    } else {
                                        let g = i - before.open.len();
                                        assert(open[i] == records[g]);
                                        assert(longer.at[longer.before[first] + i] == at[g]);
                                    }
                                }
                            }
                            (longer, first)
                        },
                    }
                }
            },
        }
    }
}

/// The records that a block adds to a walk.
proof fn lemma_new_records(
    data: Seq<u8>,
    start: int,
    raw: Seq<u8>,
    w: Walk,
    longer: Walk,
    at: Seq<int>,
    b: int,
)
    requires
        0 <= b,
        block_frames(data, start, b) > 0,
        w.before.len() == b + 1,
        w.free.len() == b + 1,
        w.before[b] == w.at.len(),
        w.free[b] >= 0,
        at.len() == block_frames(data, start, b),
        at[0] == later(w.free[b], first_frame_at(data, start, b)),
        forall|g: int|
            0 < g < at.len() ==> #[trigger] at[g] == at[g - 1] + record_size(raw, at[g - 1]),
        forall|g: int|
            0 <= g < at.len() ==> at[0] <= #[trigger] at[g] && at[g] + record_size(raw, at[g])
                <= raw.len(),
        forall|g: int|
            0 <= g < w.at.len() ==> 0 <= #[trigger] w.at[g] && w.at[g] + record_size(raw, w.at[g])
                <= raw.len(),
        longer == (Walk {
            before: w.before.push(w.before[b] + at.len()),
            free: w.free.push(at.last() + record_size(raw, at.last())),
            at: w.at + at,
            ..w
        }),
    ensures
        block_walked(data, start, raw, longer, b),
        forall|g: int|
            0 <= g < longer.at.len() ==> 0 <= #[trigger] longer.at[g] && longer.at[g]
                + record_size(raw, longer.at[g]) <= raw.len(),
        forall|g: int| 0 <= g < at.len() ==> longer.at[w.at.len() + g] == #[trigger] at[g],
{
    let lo = w.before[b];
    let hi = longer.before[b + 1];
    assert(longer.before[b] == lo && longer.free[b] == w.free[b]);
    assert forall|g: int| lo <= g < hi implies #[trigger] longer.at[g] == at[g - lo] by {}
    assert forall|g: int| lo < g < hi implies #[trigger] longer.at[g] == longer.at[g - 1]
        + record_size(raw, longer.at[g - 1]) by {
        assert(at[g - lo] == at[g - lo - 1] + record_size(raw, at[g - lo - 1]));
        assert(longer.at[g - 1] == at[g - 1 - lo]);
    }
    assert(longer.at[hi - 1] == at.last());
    assert forall|g: int| 0 <= g < longer.at.len() implies 0 <= #[trigger] longer.at[g]
        && longer.at[g] + record_size(raw, longer.at[g]) <= raw.len() by {
        if g < w.at.len() {
            assert(longer.at[g] == w.at[g]);
        } else {
            assert(longer.at[g] == at[g - lo]);
            assert(at[0] <= at[g - lo]);
        }
    }
}

/// The segments of a file of the QP7 mode, said of its bytes.
///
/// The payload is what the blocks hold behind their six header bytes. The records
/// are counted through the file: block `b` has those from `before[b]` to before
/// `before[b + 1]`, as many as its byte 2 announces. The first record of a block
/// begins at `506 * b` plus twice byte 1 of the block less six, or plus nothing if
/// that is negative, but not before `free[b]`, where the records before it end;
/// every other one begins where the one before it ends. A block without records
/// is skipped whole. A record has 56 bytes if bit 7 of its second byte is set and
/// 12 otherwise, and all of them are there. Segment `k` is made of the blocks from
/// `spans[k].0` to before `spans[k].1`, which all have records and have none on
/// either side. Every block with records belongs to a segment, the segments are in
/// order, and all but the first start the decoder afresh.
pub proof fn law_qp7_segments_by_bytes(data: Seq<u8>, start: int, n: nat) -> (w: Walk)
    requires
        n > 0 ==> 0 <= start && start + 512 * n <= data.len(),
    ensures
        qp7_segments(data, start, n) matches Ok(segments) ==> {
            let count = |b: int| data[start + 512 * b + 2] as int;
            let bytes = |p: int| data[start + 512 * (p / 506) + 6 + p % 506];
            let size = |p: int|
                if bytes(p + 1) / 128 == 1 {
                    56int
                } else {
                    12int
                };
            let named = |b: int|
                506 * b + if data[start + 512 * b + 1] < 3 {
                    0
                } else {
                    2 * data[start + 512 * b + 1] - 6
                };
            &&& w.before.len() == n + 1 && w.free.len() == n + 1
            &&& w.before[0] == 0 && w.free[0] == 0
            &&& w.at.len() == w.before[n as int]
            &&& forall|b: int|
                0 <= b < n ==> {
                    let lo = #[trigger] w.before[b];
                    let hi = w.before[b + 1];
                    &&& 0 <= lo && hi == lo + count(b) && hi <= w.at.len()
                    &&& count(b) == 0 ==> w.free[b + 1] == if w.free[b] < 506 * b + 506 {
                        506 * b + 506
                    } else {
                        w.free[b]
                    }
                    &&& count(b) > 0 ==> w.at[lo] == if w.free[b] < named(b) {
                        named(b)
                    } else {
                        w.free[b]
                    }
                    &&& count(b) > 0 ==> w.free[b + 1] == w.at[hi - 1] + size(w.at[hi - 1])
                    &&& forall|g: int|
                        lo < g < hi ==> #[trigger] w.at[g] == w.at[g - 1] + size(w.at[g - 1])
                }
            &&& forall|g: int|
                0 <= g < w.at.len() ==> 0 <= #[trigger] w.at[g] && w.at[g] + size(w.at[g]) <= 506
                    * n
            &&& w.spans.len() == segments.len()
            &&& forall|k: int|
                0 <= k < segments.len() ==> {
                    let (b, c) = #[trigger] w.spans[k];
                    let segment = segments[k];
                    &&& 0 <= b < c <= n
                    &&& k > 0 ==> w.spans[k - 1].1 < b
                    &&& b == 0 || count(b - 1) == 0
                    &&& c == n || count(c) == 0
                    &&& forall|i: int| b <= i < c ==> #[trigger] count(i) > 0
                    &&& segment.records.len() == w.before[c] - w.before[b]
                    &&& segment.total_frames == segment.records.len()
                    &&& segment.reset_before == (k > 0)
                    &&& forall|i: int|
                        0 <= i < segment.records.len() ==> (#[trigger] segment.records[i]).len()
                            == size(w.at[w.before[b] + i])
                    &&& forall|i: int, j: int|
                        0 <= i < segment.records.len() && 0 <= j < segment.records[i].len()
                            ==> #[trigger] segment.records[i][j] == bytes(
                            w.at[w.before[b] + i] + j,
                        )
                }
            &&& forall|i: int|
                0 <= i < n && #[trigger] count(i) > 0 ==> exists|k: int|
                    0 <= k < segments.len() && (#[trigger] w.spans[k]).0 <= i < w.spans[k].1
        },
{
    let raw = payload(data, start, n);
    law_payload_by_bytes(data, start, n);
    let (open_walk, first) = lemma_walk(data, start, raw, n, n);
    match qp7_progress(data, start, raw, n) {
        Err(_) => open_walk,
        Ok(end) => {
            let segments = with_records(end.segments, end.open);
            let w = lemma_close(
                end.segments,
                end.open,
                data,
                start,
                raw,
                open_walk,
                first,
                n as int,
                n as int,
            );
            let count = |b: int| data[start + 512 * b + 2] as int;
            let bytes = |p: int| data[start + 512 * (p / 506) + 6 + p % 506];
            let size = |p: int|
                if bytes(p + 1) / 128 == 1 {
                    56int
                } else {
                    12int
                };
            assert forall|b: int| #[trigger] block_frames(data, start, b) == count(b) by {}
            assert forall|g: int| 0 <= g < w.at.len() implies 0 <= #[trigger] w.at[g] && w.at[g]
                + size(w.at[g]) <= 506 * n by {
                let p = w.at[g];
                assert(0 <= p && p + record_size(raw, p) <= raw.len());
                assert(raw[p + 1] == bytes(p + 1));
            }
            lemma_walk_prefix(data, start, raw, w, n, n as int);
            assert forall|k: int| 0 <= k < segments.len() implies {
                let (b, c) = #[trigger] w.spans[k];
                let segment = segments[k];
                &&& 0 <= b < c <= n
                &&& k > 0 ==> w.spans[k - 1].1 < b
                &&& b == 0 || count(b - 1) == 0
                &&& c == n || count(c) == 0
                &&& forall|i: int| b <= i < c ==> #[trigger] count(i) > 0
                &&& segment.records.len() == w.before[c] - w.before[b]
                &&& segment.total_frames == segment.records.len()
                &&& segment.reset_before == (k > 0)
                &&& forall|i: int|
                    0 <= i < segment.records.len() ==> (#[trigger] segment.records[i]).len()
                        == size(w.at[w.before[b] + i])
                &&& forall|i: int, j: int|
                    0 <= i < segment.records.len() && 0 <= j < segment.records[i].len()
                        ==> #[trigger] segment.records[i][j] == bytes(w.at[w.before[b] + i] + j)
            } by {
                assert(segment_walked(segments, k, data, start, raw, w, n as int, n as int));
                lemma_walk_segment(segments, k, data, start, raw, w, n);
            }
            assert forall|i: int| 0 <= i < n && #[trigger] count(i) > 0 implies exists|k: int|
                0 <= k < segments.len() && (#[trigger] w.spans[k]).0 <= i < w.spans[k].1 by {
                assert(block_frames(data, start, i) > 0);
                assert(in_segment(w.spans, i));
            }
            w
        },
    }
}

/// One segment of a walk, said of the bytes.
proof fn lemma_walk_segment(
    segments: Seq<Qp7SegmentModel>,
    k: int,
    data: Seq<u8>,
    start: int,
    raw: Seq<u8>,
    w: Walk,
    n: nat,
)
    requires
        raw == payload(data, start, n),
        n > 0 ==> 0 <= start && start + 512 * n <= data.len(),
        walked(segments, data, start, raw, w, n as int, n as int, n as int),
        0 <= k < segments.len(),
    ensures
        ({
            let count = |b: int| data[start + 512 * b + 2] as int;
            let bytes = |p: int| data[start + 512 * (p / 506) + 6 + p % 506];
            let size = |p: int|
                if bytes(p + 1) / 128 == 1 {
                    56int
                } else {
                    12int
                };
            let (b, c) = w.spans[k];
            let segment = segments[k];
            &&& 0 <= b < c <= n
            &&& k > 0 ==> w.spans[k - 1].1 < b
            &&& b == 0 || count(b - 1) == 0
            &&& c == n || count(c) == 0
            &&& forall|i: int| b <= i < c ==> #[trigger] count(i) > 0
            &&& segment.records.len() == w.before[c] - w.before[b]
            &&& segment.total_frames == segment.records.len()
            &&& segment.reset_before == (k > 0)
            &&& forall|i: int|
                0 <= i < segment.records.len() ==> (#[trigger] segment.records[i]).len() == size(
                    w.at[w.before[b] + i],
                )
            &&& forall|i: int, j: int|
                0 <= i < segment.records.len() && 0 <= j < segment.records[i].len()
                    ==> #[trigger] segment.records[i][j] == bytes(w.at[w.before[b] + i] + j)
        }),
{
    law_payload_by_bytes(data, start, n);
    let count = |b: int| data[start + 512 * b + 2] as int;
    let bytes = |p: int| data[start + 512 * (p / 506) + 6 + p % 506];
    let size = |p: int|
        if bytes(p + 1) / 128 == 1 {
            56int
        } else {
            12int
        };
    assert(segment_walked(segments, k, data, start, raw, w, n as int, n as int));
    let (b, c) = w.spans[k];
    let records = segments[k].records;
    assert(holds_records(records, raw, w, b, c));
    lemma_before_grows(data, start, raw, w, n as int, 0, b);
    lemma_before_grows(data, start, raw, w, n as int, c, n as int);
    assert forall|i: int| b <= i < c implies #[trigger] count(i) > 0 by {
        assert(block_frames(data, start, i) > 0);
    }
    assert forall|i: int| 0 <= i < records.len() implies (#[trigger] records[i]).len() == size(
        w.at[w.before[b] + i],
    ) by {
        let p = w.at[w.before[b] + i];
        assert(0 <= p && p + record_size(raw, p) <= raw.len());
        assert(raw[p + 1] == bytes(p + 1));
    }
    assert forall|i: int, j: int|
        0 <= i < records.len() && 0 <= j < records[i].len() implies #[trigger] records[i][j]
        == bytes(w.at[w.before[b] + i] + j) by {
        let p = w.at[w.before[b] + i];
        assert(0 <= p && p + record_size(raw, p) <= raw.len());
        assert(records[i][j] == raw[p + j]);
    }
}

/// Every record that is handed out is long if and only if bit 7 of its second
/// byte is set, whatever the other bits are: it has 56 bytes then, and 12
/// otherwise.
pub proof fn law_record_sizes_by_bytes(data: Seq<u8>, k: int, i: int)
    requires
        demuxed(data) is Ok,
        demuxed(data)->Ok_0 is Qp7Segments,
    ensures
        demuxed(data) matches Ok(DemuxModel::Qp7Segments { segments, total_frames: _ }) ==> {
            let record = segments[k].records[i];
            0 <= k < segments.len() && 0 <= i < segments[k].records.len() ==> {
                &&& record[1] & 0x80 != 0 ==> record.len() == 56
                &&& record[1] & 0x80 == 0 ==> record.len() == 12
            }
        },
{
    let start = audio_start(data);
    let n = block_count(data, start);
    lemma_audio_start_bound(data);
    let w = law_qp7_segments_by_bytes(data, start, n);
    if let Ok(DemuxModel::Qp7Segments { segments, total_frames: _ }) = demuxed(data) {
        if 0 <= k < segments.len() && 0 <= i < segments[k].records.len() {
            let (b, c) = w.spans[k];
            let record = segments[k].records[i];
            let p = w.at[w.before[b] + i];
            assert(record.len() >= 12);
            assert(record[1] == data[start + 512 * ((p + 1) / 506) + 6 + (p + 1) % 506]);
            let second = record[1];
            assert(second & 0x80 != 0 <==> second >= 0x80) by (bit_vector);
        }
    }
}

/// Where a file of the QP7 mode is refused, said of its bytes: the walk through
/// its records, as in [`law_qp7_segments_by_bytes`], comes in block `b`, behind
/// `i` of its records, to a place where the second byte of a record or the whole
/// record does not fit into the payload any more, and the text says which and
/// where.
pub proof fn law_qp7_refusal_by_bytes(data: Seq<u8>, start: int, n: nat) -> (res: (
    Walk,
    int,
    int,
    Seq<int>,
))
    requires
        n > 0 ==> 0 <= start && start + 512 * n <= data.len(),
    ensures
        qp7_segments(data, start, n) matches Err(error) ==> {
            let (w, b, i, at) = res;
            let count = |b: int| data[start + 512 * b + 2] as int;
            let bytes = |p: int| data[start + 512 * (p / 506) + 6 + p % 506];
            let size = |p: int|
                if bytes(p + 1) / 128 == 1 {
                    56int
                } else {
                    12int
                };
            let named = |b: int|
                506 * b + if data[start + 512 * b + 1] < 3 {
                    0
                } else {
                    2 * data[start + 512 * b + 1] - 6
                };
            &&& 0 <= b < n
            &&& 0 <= i < count(b)
            &&& at.len() == i + 1
            &&& w.free.len() == b + 1 && w.before.len() == b + 1 && w.at.len() == w.before[b]
            &&& w.before[0] == 0 && w.free[0] == 0
            &&& forall|c: int|
                0 <= c < b ==> {
                    let lo = #[trigger] w.before[c];
                    let hi = w.before[c + 1];
                    &&& 0 <= lo && hi == lo + count(c) && hi <= w.at.len()
                    &&& count(c) == 0 ==> w.free[c + 1] == if w.free[c] < 506 * c + 506 {
                        506 * c + 506
                    } else {
                        w.free[c]
                    }
                    &&& count(c) > 0 ==> w.at[lo] == if w.free[c] < named(c) {
                        named(c)
                    } else {
                        w.free[c]
                    }
                    &&& count(c) > 0 ==> w.free[c + 1] == w.at[hi - 1] + size(w.at[hi - 1])
                    &&& forall|g: int|
                        lo < g < hi ==> #[trigger] w.at[g] == w.at[g - 1] + size(w.at[g - 1])
                }
            &&& forall|g: int|
                0 <= g < w.at.len() ==> 0 <= #[trigger] w.at[g] && w.at[g] + size(w.at[g]) <= 506
                    * n
            &&& at[0] == if w.free[b] < named(b) {
                named(b)
            } else {
                w.free[b]
            }
            &&& forall|g: int| 0 < g <= i ==> #[trigger] at[g] == at[g - 1] + size(at[g - 1])
            &&& forall|g: int|
                0 <= g < i ==> 0 <= #[trigger] at[g] && at[g] + size(at[g]) <= 506 * n
            &&& if at[i] + 2 > 506 * n {
                error == ErrorModel::Truncated(
                    "incomplete format-7 selector at byte "@ + decimal(at[i] as nat),
                )
            } else {
                &&& at[i] + size(at[i]) > 506 * n
                &&& error == ErrorModel::Truncated(
                    "incomplete format-7 record at byte "@ + decimal(at[i] as nat),
                )
            }
        },
{
    let raw = payload(data, start, n);
    law_payload_by_bytes(data, start, n);
    let none = Walk {
        before: Seq::empty(),
        free: Seq::empty(),
        at: Seq::empty(),
        spans: Seq::empty(),
    };
    if qp7_segments(data, start, n) is Ok {
        (none, 0, 0, Seq::empty())
    } else {
        let b = lemma_first_bad_block(data, start, raw, n);
        let (w, _) = lemma_walk(data, start, raw, b as nat, n);
        let before = qp7_progress(data, start, raw, b as nat)->Ok_0;
        let pos = later(before.pos, first_frame_at(data, start, b));
        let i = lemma_first_bad_record(raw, pos, block_frames(data, start, b) as nat);
        let good = lemma_records_places(raw, pos, i as nat);
        let end = records_at(raw, pos, i as nat)->Ok_0.1;
        let at = good.push(end);
        let bytes = |p: int| data[start + 512 * (p / 506) + 6 + p % 506];
        let size = |p: int|
            if bytes(p + 1) / 128 == 1 {
                56int
            } else {
                12int
            };
        assert forall|p: int| 0 <= p && p + 2 <= raw.len() implies #[trigger] record_size(raw, p)
            == size(p) by {
            assert(raw[p + 1] == bytes(p + 1));
        }
        lemma_walk_prefix(data, start, raw, w, n, b);
        assert forall|g: int| 0 <= g < i implies 0 <= #[trigger] at[g] && at[g] + size(at[g])
            <= 506 * n by {
            assert(at[g] == good[g]);
            assert(record_size(raw, at[g]) == size(at[g]));
        }
        assert forall|g: int| 0 < g <= i implies #[trigger] at[g] == at[g - 1] + size(
            at[g - 1],
        ) by {
            assert(at[g - 1] == good[g - 1]);
            assert(record_size(raw, at[g - 1]) == size(at[g - 1]));
            if g < i {
                assert(at[g] == good[g]);
            }
        }
        assert forall|g: int| 0 <= g < w.at.len() implies 0 <= #[trigger] w.at[g] && w.at[g] + size(
            w.at[g],
        ) <= 506 * n by {
            assert(w.at[g] + record_size(raw, w.at[g]) <= raw.len());
            assert(record_size(raw, w.at[g]) == size(w.at[g]));
        }
        assert(at[i] == end);
        if end + 2 <= 506 * n {
            assert(record_size(raw, end) == size(end));
        }
        (w, b, i, at)
    }
}

/// The blocks of a walk over the first `m` blocks, said of the bytes.
proof fn lemma_walk_prefix(data: Seq<u8>, start: int, raw: Seq<u8>, w: Walk, n: nat, m: int)
    requires
        raw == payload(data, start, n),
        n > 0 ==> 0 <= start && start + 512 * n <= data.len(),
        0 <= m <= n,
        w.before.len() == m + 1,
        w.free.len() == m + 1,
        w.at.len() == w.before[m],
        forall|b: int| 0 <= b < m ==> #[trigger] block_walked(data, start, raw, w, b),
        forall|g: int|
            0 <= g < w.at.len() ==> 0 <= #[trigger] w.at[g] && w.at[g] + record_size(raw, w.at[g])
                <= raw.len(),
    ensures
        ({
            let count = |b: int| data[start + 512 * b + 2] as int;
            let bytes = |p: int| data[start + 512 * (p / 506) + 6 + p % 506];
            let size = |p: int|
                if bytes(p + 1) / 128 == 1 {
                    56int
                } else {
                    12int
                };
            let named = |b: int|
                506 * b + if data[start + 512 * b + 1] < 3 {
                    0
                } else {
                    2 * data[start + 512 * b + 1] - 6
                };
            forall|c: int|
                0 <= c < m ==> {
                    let lo = #[trigger] w.before[c];
                    let hi = w.before[c + 1];
                    &&& 0 <= lo && hi == lo + count(c) && hi <= w.at.len()
                    &&& count(c) == 0 ==> w.free[c + 1] == if w.free[c] < 506 * c + 506 {
                        506 * c + 506
                    } else {
                        w.free[c]
                    }
                    &&& count(c) > 0 ==> w.at[lo] == if w.free[c] < named(c) {
                        named(c)
                    } else {
                        w.free[c]
                    }
                    &&& count(c) > 0 ==> w.free[c + 1] == w.at[hi - 1] + size(w.at[hi - 1])
                    &&& forall|g: int|
                        lo < g < hi ==> #[trigger] w.at[g] == w.at[g - 1] + size(w.at[g - 1])
                }
        }),
{
    law_payload_by_bytes(data, start, n);
    let count = |b: int| data[start + 512 * b + 2] as int;
    let bytes = |p: int| data[start + 512 * (p / 506) + 6 + p % 506];
    let size = |p: int|
        if bytes(p + 1) / 128 == 1 {
            56int
        } else {
            12int
        };
    let named = |b: int|
        506 * b + if data[start + 512 * b + 1] < 3 {
            0
        } else {
            2 * data[start + 512 * b + 1] - 6
        };
    assert forall|g: int| 0 <= g < w.at.len() implies record_size(raw, #[trigger] w.at[g]) == size(
        w.at[g],
    ) by {
        let p = w.at[g];
        assert(0 <= p && p + record_size(raw, p) <= raw.len());
        assert(raw[p + 1] == bytes(p + 1));
    }
    assert forall|c: int| 0 <= c < m implies {
        let lo = #[trigger] w.before[c];
        let hi = w.before[c + 1];
        &&& 0 <= lo && hi == lo + count(c) && hi <= w.at.len()
        &&& count(c) == 0 ==> w.free[c + 1] == if w.free[c] < 506 * c + 506 {
            506 * c + 506
        } else {
            w.free[c]
        }
        &&& count(c) > 0 ==> w.at[lo] == if w.free[c] < named(c) {
            named(c)
        } else {
            w.free[c]
        }
        &&& count(c) > 0 ==> w.free[c + 1] == w.at[hi - 1] + size(w.at[hi - 1])
        &&& forall|g: int| lo < g < hi ==> #[trigger] w.at[g] == w.at[g - 1] + size(w.at[g - 1])
    } by {
        assert(block_walked(data, start, raw, w, c));
        let lo = w.before[c];
        let hi = w.before[c + 1];
        if count(c) > 0 {
            assert(record_size(raw, w.at[hi - 1]) == size(w.at[hi - 1]));
        }
        assert forall|g: int| lo < g < hi implies #[trigger] w.at[g] == w.at[g - 1] + size(
            w.at[g - 1],
        ) by {
            assert(record_size(raw, w.at[g - 1]) == size(w.at[g - 1]));
        }
    }
}

/// The first block in which a record is incomplete.
proof fn lemma_first_bad_block(data: Seq<u8>, start: int, raw: Seq<u8>, n: nat) -> (b: int)
    requires
        qp7_progress(data, start, raw, n) is Err,
    ensures
        0 <= b < n,
        qp7_progress(data, start, raw, b as nat) matches Ok(before) && block_frames(data, start, b)
            > 0 && {
            let read = records_at(
                raw,
                later(before.pos, first_frame_at(data, start, b)),
                block_frames(data, start, b) as nat,
            );
            read is Err && read->Err_0 == qp7_progress(data, start, raw, n)->Err_0
        },
    decreases n,
{
    if qp7_progress(data, start, raw, (n - 1) as nat) is Err {
        lemma_first_bad_block(data, start, raw, (n - 1) as nat)
    } else {
        n - 1
    }
}

/// The first record that is incomplete.
proof fn lemma_first_bad_record(raw: Seq<u8>, pos: int, n: nat) -> (i: int)
    requires
        records_at(raw, pos, n) is Err,
    ensures
        0 <= i < n,
        records_at(raw, pos, i as nat) is Ok,
        record_at(raw, records_at(raw, pos, i as nat)->Ok_0.1) is Err,
        record_at(raw, records_at(raw, pos, i as nat)->Ok_0.1)->Err_0 == records_at(
            raw,
            pos,
            n,
        )->Err_0,
    decreases n,
{
    if records_at(raw, pos, (n - 1) as nat) is Err {
        lemma_first_bad_record(raw, pos, (n - 1) as nat)
    } else {
        n - 1
    }
}

/// What a file of the QP or QP7 mode gives is made of all its whole blocks: the
/// segments are those of the blocks from its start to its end, and the frames are
/// as many as the blocks announce together.
pub proof fn law_segments_of_whole_file(data: Seq<u8>)
    ensures
        ({
            let start = audio_start(data);
            let n = (if data.len() < start {
                0
            } else {
                (data.len() - start) / 512
            }) as nat;
            let announced = Seq::new(n, |b: int| data[start + 512 * b + 2] as int).fold_left(
                0,
                |sum: int, count: int| sum + count,
            );
            match demuxed(data) {
                Ok(DemuxModel::QpSegments { segments, total_frames }) => {
                    &&& segments == qp_segments(data, start, n)
                    &&& total_frames == announced
                },
                Ok(DemuxModel::Qp7Segments { segments, total_frames }) => {
                    &&& qp7_segments(data, start, n) == Ok::<Seq<Qp7SegmentModel>, ErrorModel>(
                        segments,
                    )
                    &&& total_frames == announced
                },
                Ok(DemuxModel::Sp { packets: _, total_frames }) => total_frames == announced,
                Err(error) => error is Truncated ==> qp7_segments(data, start, n) == Err::<
                    Seq<Qp7SegmentModel>,
                    ErrorModel,
                >(error),
            }
        }),
{
    let start = audio_start(data);
    let n = block_count(data, start);
    law_frame_total_by_bytes(data, start, n);
    law_qp7_segments_sound(data, start, n);
}

} // verus!
