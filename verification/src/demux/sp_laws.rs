//! What holds of the SP mode as a whole: the packets of a stream do not depend
//! on the pieces in which its bytes arrive, and they are those of the file.

use super::container::{block_count, block_start, frame_total, payload};
use super::sp::{lemma_extend_ready, lemma_ready_bound, SpFeed};
use super::sp_stream::SpStream;
use crate::pieces::joined;
use vstd::prelude::*;

verus! {

/// Blocks that arrive with more bytes behind them are treated as on their own.
proof fn lemma_run_pieces(s: SpStream, more: Seq<u8>)
    ensures
        ({
            let (mid, first) = s.run();
            let (end, second) = (SpStream { block: mid.block + more, ..mid }).run();
            (SpStream { block: s.block + more, ..s }).run() == (end, first + second)
        }),
    decreases s.block.len(),
{
    let whole = SpStream { block: s.block + more, ..s };
    if s.block.len() < 512 {
        assert(Seq::<Seq<u8>>::empty() + whole.run().1 =~= whole.run().1);
    } else {
        let fed = s.next_block();
        let rest = fed.made(fed.ready());
        lemma_run_pieces(rest, more);
        let whole_fed = whole.next_block();
        assert(whole.block.take(512) =~= s.block.take(512));
        assert(whole.block.skip(512) =~= s.block.skip(512) + more);
        assert(whole_fed == (SpStream { block: fed.block + more, ..fed }));
        assert(whole_fed.made(whole_fed.ready()) == (SpStream {
            block: rest.block + more,
            ..rest
        }));
        let (mid, first) = rest.run();
        let (end, second) = (SpStream { block: mid.block + more, ..mid }).run();
        assert(fed.feed.packets(fed.ready()) + (first + second) =~= (fed.feed.packets(fed.ready())
            + first) + second);
    }
}

/// Bytes that arrive in two pieces lead to the same state and to the same
/// packets as when they arrive at once.
pub proof fn law_sp_push_in_pieces(s: SpStream, a: Seq<u8>, b: Seq<u8>)
    ensures
        s.push(a + b) == (
            s.push(a).0.push(b).0,
            s.push(a).1 + s.push(a).0.push(b).1,
        ),
{
    let bytes = s.block + a;
    assert(s.block + (a + b) =~= bytes + b);
    if s.header_complete {
        lemma_run_pieces(SpStream { block: bytes, ..s }, b);
        lemma_run_keeps_header(SpStream { block: bytes, ..s });
    } else if bytes.len() < 0x600 {
        let mid = s.push(a).0;
        assert(Seq::<Seq<u8>>::empty() + mid.push(b).1 =~= mid.push(b).1);
    } else {
        let body = SpStream { header_complete: true, block: bytes.skip(0x600), ..s };
        assert((bytes + b).skip(0x600) =~= bytes.skip(0x600) + b);
        lemma_run_pieces(body, b);
        lemma_run_keeps_header(body);
    }
}

/// Blocks announce fewer packets than they have bytes.
proof fn lemma_run_room(s: SpStream)
    ensures
        s.run().0.pending + s.run().0.block.len() <= s.pending + s.block.len(),
    decreases s.block.len(),
{
    if s.block.len() >= 512 {
        let fed = s.next_block();
        lemma_ready_bound(fed.feed, fed.pending);
        lemma_run_room(fed.made(fed.ready()));
    }
}

/// Where bytes can be counted at once, they can be counted in two pieces.
pub proof fn law_sp_room_in_pieces(s: SpStream, a: Seq<u8>, b: Seq<u8>)
    requires
        s.has_room((a + b).len()),
    ensures
        s.has_room(a.len()),
        s.push(a).0.has_room(b.len()),
{
    let bytes = s.block + a;
    lemma_run_room(SpStream { block: bytes, ..s });
    lemma_run_room(SpStream { header_complete: true, block: bytes.skip(0x600), ..s });
}

/// Blocks do not bring the file header back.
pub proof fn lemma_run_keeps_header(s: SpStream)
    ensures
        s.run().0.header_complete == s.header_complete,
        s.run().0.block.len() < 512,
    decreases s.block.len(),
{
    if s.block.len() >= 512 {
        let fed = s.next_block();
        lemma_run_keeps_header(fed.made(fed.ready()));
    }
}

/// The state and the packets after bytes have arrived piece by piece.
pub open spec fn push_all(s: SpStream, pieces: Seq<Seq<u8>>) -> (SpStream, Seq<Seq<u8>>)
    decreases pieces.len(),
{
    if pieces.len() == 0 {
        (s, Seq::empty())
    } else {
        let (mid, first) = push_all(s, pieces.drop_last());
        let (end, second) = mid.push(pieces.last());
        (end, first + second)
    }
}

/// However a file is cut into pieces, pushing them one after the other leads to
/// the same state and the same packets as pushing the file at once.
pub proof fn law_sp_push_any_pieces(pieces: Seq<Seq<u8>>)
    ensures
        push_all(SpStream::start(), pieces) == SpStream::start().push(joined(pieces)),
    decreases pieces.len(),
{
    let s = SpStream::start();
    if pieces.len() == 0 {
        assert(s.block + joined(pieces) =~= s.block);
    } else {
        law_sp_push_any_pieces(pieces.drop_last());
        law_sp_push_in_pieces(s, joined(pieces.drop_last()), pieces.last());
    }
}

/// The payloads of the whole blocks in `bytes`.
spec fn blocks_payload(bytes: Seq<u8>) -> Seq<u8>
    decreases bytes.len(),
{
    if bytes.len() < 512 {
        Seq::empty()
    } else {
        bytes.subrange(6, 512) + blocks_payload(bytes.skip(512))
    }
}

/// How many frames begin in the whole blocks in `bytes`.
spec fn blocks_frames(bytes: Seq<u8>) -> nat
    decreases bytes.len(),
{
    if bytes.len() < 512 {
        0
    } else {
        bytes[2] as nat + blocks_frames(bytes.skip(512))
    }
}

/// The packets of a run of blocks, together with those that are still owed at
/// its end, are those of all the payload.
proof fn lemma_run_packets(s: SpStream)
    requires
        s.primed,
    ensures
        ({
            let (end, packets) = s.run();
            packets + end.feed.packets(end.pending) == s.feed.extended(
                blocks_payload(s.block),
            ).packets(s.pending + blocks_frames(s.block))
        }),
    decreases s.block.len(),
{
    if s.block.len() < 512 {
        assert(s.feed.stream + blocks_payload(s.block) =~= s.feed.stream);
        assert(Seq::<Seq<u8>>::empty() + s.feed.packets(s.pending) =~= s.feed.packets(s.pending));
    } else {
        let fed = s.next_block();
        let k = fed.ready();
        let rest = fed.made(k);
        let tail = blocks_payload(rest.block);
        let more = blocks_frames(rest.block);
        lemma_ready_bound(fed.feed, fed.pending);
        lemma_run_packets(rest);
        lemma_extend_ready(fed.feed, tail, k, fed.pending, (fed.pending - k + more) as nat);
        assert(s.block.take(512).subrange(6, 512) =~= s.block.subrange(6, 512));
        assert(fed.feed.extended(tail).stream =~= s.feed.extended(blocks_payload(s.block)).stream);
        assert(fed.feed.extended(tail) == s.feed.extended(blocks_payload(s.block)));
        let (end, packets) = rest.run();
        assert(s.run().1 + end.feed.packets(end.pending) =~= fed.feed.packets(k) + (packets
            + end.feed.packets(end.pending)));
    }
}

/// The payload and the frames of a file, split at block `i`.
proof fn lemma_blocks_from(data: Seq<u8>, header_size: int, i: nat)
    requires
        0 <= header_size <= data.len(),
        i <= block_count(data, header_size),
    ensures
        ({
            let n = block_count(data, header_size);
            let rest = data.skip(block_start(header_size, i as int));
            &&& payload(data, header_size, n) == payload(data, header_size, i) + blocks_payload(
                rest,
            )
            &&& frame_total(data, header_size, n) == frame_total(data, header_size, i)
                + blocks_frames(rest)
        }),
    decreases block_count(data, header_size) - i,
{
    let n = block_count(data, header_size);
    let at = block_start(header_size, i as int);
    let rest = data.skip(at);
    if i == n {
        assert(rest.len() < 512);
        assert(payload(data, header_size, n) + blocks_payload(rest) =~= payload(
            data,
            header_size,
            n,
        ));
    } else {
        lemma_blocks_from(data, header_size, i + 1);
        assert(rest.skip(512) =~= data.skip(block_start(header_size, i as int + 1)));
        assert(rest.subrange(6, 512) =~= data.subrange(at + 6, block_start(header_size, i as int + 1)));
        assert(payload(data, header_size, i + 1) + blocks_payload(rest.skip(512)) =~= payload(
            data,
            header_size,
            i,
        ) + blocks_payload(rest));
    }
}

/// The packets of a whole file whose blocks begin at 0x600.
pub open spec fn file_packets(data: Seq<u8>) -> Seq<Seq<u8>> {
    let n = block_count(data, 0x600);
    (SpFeed {
        stream: payload(data, 0x600, n),
        swap: data[0x600] >= 0x80,
        lent: 0,
    }).packets(frame_total(data, 0x600, n) as nat)
}

/// Pushing a file and then ending the stream leniently gives exactly the
/// packets of the file.
pub proof fn law_sp_lenient_stream_gives_file(data: Seq<u8>)
    requires
        data.len() >= 0x600,
    ensures
        ({
            let (s, pushed) = SpStream::start().push(data);
            &&& s.finish_lenient() is Ok
            &&& pushed + s.finish_lenient()->Ok_0.1 == file_packets(data)
        }),
{
    let start = SpStream::start();
    let n = block_count(data, 0x600);
    let bytes = data.skip(0x600);
    assert(start.block + data =~= data);
    let body = SpStream { header_complete: true, block: bytes, ..start };
    lemma_run_keeps_header(body);
    lemma_blocks_from(data, 0x600, 0);
    assert(payload(data, 0x600, n) =~= blocks_payload(bytes));
    if bytes.len() < 512 {
        assert(Seq::<Seq<u8>>::empty() + Seq::<Seq<u8>>::empty() =~= Seq::<Seq<u8>>::empty());
    } else {
        let primed = SpStream {
            primed: true,
            feed: SpFeed { swap: bytes[0] >= 0x80, ..body.feed },
            ..body
        };
        assert(primed.next_block() == body.next_block());
        assert(primed.run() == body.run());
        lemma_run_packets(primed);
        assert(primed.feed.extended(blocks_payload(bytes)).stream =~= blocks_payload(bytes));
    }
}

/// Where ending the stream strictly succeeds, nothing is owed: the packets
/// that were pushed out already are those of the file.
pub proof fn law_sp_strict_stream_gives_file(data: Seq<u8>)
    requires
        data.len() >= 0x600,
        SpStream::start().push(data).0.finish() is Ok,
    ensures
        SpStream::start().push(data).1 + SpStream::start().push(data).0.finish()->Ok_0
            == file_packets(data),
{
    law_sp_lenient_stream_gives_file(data);
    let start = SpStream::start();
    assert(start.block + data =~= data);
    lemma_run_keeps_header(
        SpStream { header_complete: true, block: data.skip(0x600), ..start },
    );
}

} // verus!
