//! What holds of the packets of the SP mode, said of the bytes of the file.

use super::container::{audio_start, block_count, frame_total, lemma_audio_start_bound, payload};
use super::container_laws::{law_frame_total_by_bytes, law_payload_by_bytes};
use super::ds2::demuxed;
use super::sp::{
    byte_or_zero, law_sp_packet_sizes, lemma_after_one_more, lemma_packet_at, lemma_ready_bound,
    sp_need, sp_offset, SpFeed,
};
use super::sp_laws::{
    file_packets, law_sp_lenient_stream_gives_file, law_sp_push_any_pieces, push_all,
};
use super::sp_stream::SpStream;
use crate::error::ErrorModel;
use crate::pieces::law_joined_is_flatten;
use vstd::prelude::*;

verus! {

/// What is left behind the first `n` packets: the payload from where they end
/// on, whether it is complete or not, and the byte lent last.
proof fn lemma_after_bytes(feed: SpFeed, n: nat)
    ensures
        ({
            let after = feed.after(n);
            let o = sp_offset(feed.swap, n);
            &&& after.swap == (feed.swap != (n % 2 == 1))
            &&& forall|p: int| 0 <= p ==> #[trigger] byte_or_zero(after.stream, p) == byte_or_zero(
                feed.stream,
                o + p,
            )
            &&& after.stream.len() == if o <= feed.stream.len() {
                feed.stream.len() - o
            } else {
                0
            }
            &&& after.swap ==> after.lent == if n == 0 {
                feed.lent
            } else {
                byte_or_zero(feed.stream, o - 2)
            }
        }),
    decreases n,
{
    if n == 0 {
        assert(sp_offset(feed.swap, 0) == 0) by {
            assert(0 * sp_need(feed.swap) == 0) by (nonlinear_arith);
        }
    } else {
        let k = (n - 1) as nat;
        let before = feed.after(k);
        lemma_after_bytes(feed, k);
        lemma_after_one_more(feed, k);
        lemma_offset_step(feed.swap, k);
        let after = feed.after(n);
        let o = sp_offset(feed.swap, n);
        assert forall|p: int| 0 <= p implies #[trigger] byte_or_zero(after.stream, p)
            == byte_or_zero(feed.stream, o + p) by {
            assert(byte_or_zero(before.stream, before.taken() + p) == byte_or_zero(
                after.stream,
                p,
            ));
            assert(byte_or_zero(before.stream, sp_need(before.swap) + p) == byte_or_zero(
                feed.stream,
                o + p,
            ));
        }
        if after.swap {
            assert(byte_or_zero(before.chunk(), 40) == byte_or_zero(before.stream, 40));
        }
    }
}

/// The offset of the next packet.
proof fn lemma_offset_step(swap: bool, k: nat)
    ensures
        sp_offset(swap, k + 1) == sp_offset(swap, k) + sp_need(swap != (k % 2 == 1)),
{
    let need = sp_need(swap);
    assert(1 * need == need && 0 * need == 0) by (nonlinear_arith);
    if k % 2 == 0 {
        assert((k + 1) % 2 == 1 && (k + 1) / 2 == k / 2);
    } else {
        assert((k + 1) % 2 == 0 && (k + 1) / 2 == k / 2 + 1);
    }
}

/// Byte `j` of packet `i`, said of the payload.
proof fn lemma_packet_byte(feed: SpFeed, n: nat, i: nat, j: int)
    requires
        i < n,
        0 <= j < 42,
        feed.lent == 0,
    ensures
        feed.packets(n).len() == n,
        feed.packets(n)[i as int].len() == 42,
        ({
            let swap = feed.swap != (i % 2 == 1);
            let o = sp_offset(feed.swap, i);
            feed.packets(n)[i as int][j] == if j == 40 {
                0
            } else if !swap {
                byte_or_zero(feed.stream, o + j)
            } else if j == 1 {
                if i == 0 {
                    0
                } else {
                    byte_or_zero(feed.stream, o - 2)
                }
            } else if j % 2 == 0 {
                byte_or_zero(feed.stream, o + j + 1)
            } else {
                byte_or_zero(feed.stream, o + j - 3)
            }
        }),
{
    let after = feed.after(i);
    law_sp_packet_sizes(feed, n);
    lemma_packet_at(feed, n, i);
    lemma_after_bytes(feed, i);
    let chunk = after.chunk();
    assert forall|p: int| 0 <= p < sp_need(after.swap) implies #[trigger] byte_or_zero(chunk, p)
        == byte_or_zero(after.stream, p) by {}
    if after.swap {
        if j % 2 == 0 && j != 40 {
            assert(byte_or_zero(chunk, j + 1) == byte_or_zero(after.stream, j + 1));
        } else if j > 1 && j != 40 {
            assert(byte_or_zero(chunk, j - 3) == byte_or_zero(after.stream, j - 3));
        }
    } else {
        assert(byte_or_zero(chunk, j) == byte_or_zero(after.stream, j));
    }
}

/// Every byte of every packet of a file of the SP mode, said of the bytes of the
/// file. There are as many packets as the blocks announce, each of 42 bytes.
///
/// The payload of the file is what its blocks hold behind their six header bytes,
/// and zeros behind that. The first packet is swapped if and only if bit 7 of the
/// first byte of the first block is set, and from there plain and swapped packets
/// take turns; a plain one takes 42 bytes of the payload and a swapped one 40. A
/// plain packet is its bytes with a zero at 40. A swapped packet has its bytes
/// pairwise exchanged, a zero at 40, and at 1 the last but one byte of the plain
/// packet before it.
pub proof fn law_sp_packets_by_bytes(data: Seq<u8>, i: int, j: int)
    requires
        demuxed(data) is Ok,
        demuxed(data)->Ok_0 is Sp,
    ensures
        ({
            let start = audio_start(data);
            let n = if data.len() < start {
                0
            } else {
                (data.len() - start) / 512
            };
            let packets = demuxed(data)->Ok_0->packets;
            let bytes = |p: int|
                if p < 506 * n {
                    data[start + 512 * (p / 506) + 6 + p % 506]
                } else {
                    0u8
                };
            let first = data[start] / 128 == 1;
            let swapped = if i % 2 == 0 {
                first
            } else {
                !first
            };
            let o = 41 * i + if i % 2 == 0 {
                0int
            } else if first {
                -1
            } else {
                1
            };
            &&& packets.len() == Seq::new(
                n as nat,
                |b: int| data[start + 512 * b + 2] as int,
            ).fold_left(0, |sum: int, count: int| sum + count)
            &&& 0 <= i < packets.len() ==> packets[i].len() == 42
            &&& 0 <= i < packets.len() && 0 <= j < 42 ==> packets[i][j] == if j == 40 {
                0
            } else if !swapped {
                bytes(o + j)
            } else if j % 2 == 0 {
                bytes(o + j + 1)
            } else if j > 1 {
                bytes(o + j - 3)
            } else if i > 0 {
                bytes(o - 2)
            } else {
                0
            }
        }),
{
    let start = audio_start(data);
    lemma_audio_start_bound(data);
    lemma_file_bytes(data, start, i, j);
}

/// The packets of the blocks from `start` on, said of the bytes.
proof fn lemma_file_bytes(data: Seq<u8>, start: int, i: int, j: int)
    requires
        0 <= start,
    ensures
        ({
            let n = if data.len() < start {
                0
            } else {
                (data.len() - start) / 512
            };
            let total = Seq::new(n as nat, |b: int| data[start + 512 * b + 2] as int).fold_left(
                0,
                |sum: int, count: int| sum + count,
            );
            let packets = (SpFeed {
                stream: payload(data, start, n as nat),
                swap: data[start] >= 0x80,
                lent: 0,
            }).packets(total as nat);
            let bytes = |p: int|
                if p < 506 * n {
                    data[start + 512 * (p / 506) + 6 + p % 506]
                } else {
                    0u8
                };
            let first = data[start] / 128 == 1;
            let swapped = if i % 2 == 0 {
                first
            } else {
                !first
            };
            let o = 41 * i + if i % 2 == 0 {
                0int
            } else if first {
                -1
            } else {
                1
            };
            &&& n == block_count(data, start)
            &&& total == frame_total(data, start, n as nat)
            &&& total >= 0
            &&& packets.len() == total
            &&& 0 <= i < packets.len() ==> packets[i].len() == 42
            &&& 0 <= i < packets.len() && 0 <= j < 42 ==> packets[i][j] == if j == 40 {
                0
            } else if !swapped {
                bytes(o + j)
            } else if j % 2 == 0 {
                bytes(o + j + 1)
            } else if j > 1 {
                bytes(o + j - 3)
            } else if i > 0 {
                bytes(o - 2)
            } else {
                0
            }
        }),
{
    let n = block_count(data, start);
    let feed = SpFeed {
        stream: payload(data, start, n),
        swap: data[start] >= 0x80,
        lent: 0,
    };
    let total = frame_total(data, start, n);
    super::container::lemma_frame_total_bound(data, start, 0, n);
    law_frame_total_by_bytes(data, start, n);
    law_payload_by_bytes(data, start, n);
    law_sp_packet_sizes(feed, total as nat);
    if 0 <= i < total {
        lemma_offset_value(feed.swap, i as nat);
        if 0 <= j < 42 {
            lemma_packet_byte(feed, total as nat, i as nat, j);
            assert forall|p: int| 0 <= p implies #[trigger] byte_or_zero(feed.stream, p) == (if p
                < 506 * n {
                data[start + 512 * (p / 506) + 6 + p % 506]
            } else {
                0u8
            }) by {}
        }
    }
}

/// The offset of a packet: 41 bytes for each packet before it, and one more or
/// less behind an odd number.
pub proof fn lemma_offset_value(swap: bool, i: nat)
    ensures
        sp_offset(swap, i) == 41 * i + if i % 2 == 0 {
            0int
        } else if swap {
            -1
        } else {
            1
        },
{
    let need = sp_need(swap);
    assert(1 * need == need && 0 * need == 0) by (nonlinear_arith);
    assert(i == 2 * (i / 2) + i % 2);
}

/// Packets that are ready take all their bytes, and behind them none is.
proof fn lemma_ready_exhausts(feed: SpFeed, limit: nat)
    ensures
        ({
            let k = feed.ready(limit);
            &&& k <= limit
            &&& sp_offset(feed.swap, k) <= feed.stream.len()
            &&& k < limit ==> sp_offset(feed.swap, k + 1) > feed.stream.len()
        }),
    decreases limit,
{
    lemma_offset_value(feed.swap, 0);
    lemma_offset_value(feed.swap, 1);
    if limit > 0 && feed.stream.len() >= sp_need(feed.swap) {
        let k = feed.ready(limit);
        lemma_ready_exhausts(feed.next(), (limit - 1) as nat);
        lemma_offset_value(feed.swap, k);
        lemma_offset_value(feed.swap, k + 1);
        lemma_offset_value(!feed.swap, (k - 1) as nat);
        lemma_offset_value(!feed.swap, k);
    }
}

/// How a run of blocks has used up the payload: what is left of it, how many
/// packets are owed, and that none of them is ready.
spec fn settled(start: SpFeed, stream_len: int, announced: int, made: int, end: SpStream) -> bool {
    &&& 0 <= made
    &&& made + end.pending == announced
    &&& end.feed.swap == (start.swap != (made % 2 == 1))
    &&& sp_offset(start.swap, made as nat) + end.feed.stream.len() == stream_len
    &&& end.pending > 0 ==> end.feed.stream.len() < sp_need(end.feed.swap)
}

/// The bytes and the frames of the whole blocks in `bytes`.
spec fn run_bytes(bytes: Seq<u8>) -> int {
    506 * (bytes.len() as int / 512)
}

/// A run of blocks settles what is owed.
proof fn lemma_run_settles(s: SpStream, base: SpFeed, stream_len: int, announced: int, made: int)
    requires
        s.primed || made == 0 && s.pending == 0 && s.feed.stream.len() == 0 && s.block.len() >= 512
            && (base.swap == (s.block[0] >= 0x80)),
        s.primed ==> settled(base, stream_len, announced, made, s),
        !s.primed ==> stream_len == 0 && announced == 0,
    ensures
        s.run().0.pending + s.run().1.len() + made >= announced,
        settled(
            base,
            stream_len + run_bytes(s.block),
            made + s.run().1.len() + s.run().0.pending,
            made + s.run().1.len(),
            s.run().0,
        ),
    decreases s.block.len(),
{
    if s.block.len() >= 512 {
        let fed = s.next_block();
        let k = fed.ready();
        let rest = fed.made(k);
        lemma_offset_value(base.swap, made as nat);
        assert(s.block.take(512)[0] == s.block[0]);
        assert(fed.feed.swap == (base.swap != (made % 2 == 1)));
        lemma_ready_bound(fed.feed, fed.pending);
        lemma_ready_exhausts(fed.feed, fed.pending);
        lemma_after_bytes(fed.feed, k);
        law_sp_packet_sizes(fed.feed, k);
        lemma_offset_value(fed.feed.swap, k);
        lemma_offset_value(fed.feed.swap, k + 1);
        lemma_offset_value(base.swap, (made + k) as nat);
        assert(fed.feed.stream.len() == s.feed.stream.len() + 506);
        assert(run_bytes(s.block) == 506 + run_bytes(s.block.skip(512)));
        assert(settled(base, stream_len + 506, announced + s.block[2] as int, made + k, rest));
        lemma_run_settles(rest, base, stream_len + 506, announced + s.block[2] as int, made + k);
    }
}

/// A stream of the SP mode, said of the bytes that have arrived, in whatever
/// pieces.
///
/// Before 0x600 bytes are there nothing comes out, and ending fails unless there
/// are none at all. From there on every packet comes out as soon as all its bytes
/// are there: those that have come out fit into the payload of the whole blocks,
/// and the next one that is announced does not. Together with those that ending
/// leniently gives they are all packets of the file, byte for byte as in
/// [`law_sp_packets_by_bytes`] with the blocks at 0x600. Ending strictly succeeds
/// if and only if the last block is whole and the payload holds all packets, and
/// otherwise says which of the two is wrong.
pub proof fn law_sp_stream_by_bytes(pieces: Seq<Seq<u8>>, i: int, j: int)
    ensures
        ({
            let data = pieces.flatten();
            let (s, pushed) = push_all(SpStream::start(), pieces);
            &&& data.len() < 0x600 ==> {
                let cut = Err::<Seq<Seq<u8>>, ErrorModel>(ErrorModel::Truncated("DS2 header"@));
                &&& pushed.len() == 0
                &&& data.len() == 0 ==> s.finish() == Ok::<Seq<Seq<u8>>, ErrorModel>(Seq::empty())
                &&& data.len() == 0 ==> s.finish_lenient() is Ok
                &&& data.len() == 0 ==> s.finish_lenient()->Ok_0.1.len() == 0
                &&& data.len() > 0 ==> s.finish() == cut
                &&& data.len() > 0 ==> s.finish_lenient() is Err
                &&& data.len() > 0 ==> s.finish_lenient()->Err_0 == ErrorModel::Truncated(
                    "DS2 header"@,
                )
            }
            &&& data.len() >= 0x600 ==> {
                let n = (data.len() - 0x600) / 512;
                let announced = Seq::new(
                    n as nat,
                    |b: int| data[0x600 + 512 * b + 2] as int,
                ).fold_left(0, |sum: int, count: int| sum + count);
                let bytes = |p: int|
                    if p < 506 * n {
                        data[0x600 + 512 * (p / 506) + 6 + p % 506]
                    } else {
                        0u8
                    };
                let first = data[0x600] / 128 == 1;
                let swapped = if i % 2 == 0 {
                    first
                } else {
                    !first
                };
                let place = |k: int|
                    41 * k + if k % 2 == 0 {
                        0int
                    } else if first {
                        -1
                    } else {
                        1
                    };
                let o = place(i);
                let packets = pushed + s.finish_lenient()->Ok_0.1;
                let made = pushed.len() as int;
                &&& made <= announced
                &&& n > 0 ==> place(made) <= 506 * n
                &&& made < announced ==> place(made + 1) > 506 * n
                &&& s.finish_lenient() is Ok
                &&& packets.len() == announced
                &&& 0 <= i < packets.len() ==> packets[i].len() == 42
                &&& 0 <= i < packets.len() && 0 <= j < 42 ==> packets[i][j] == if j == 40 {
                    0
                } else if !swapped {
                    bytes(o + j)
                } else if j % 2 == 0 {
                    bytes(o + j + 1)
                } else if j > 1 {
                    bytes(o + j - 3)
                } else if i > 0 {
                    bytes(o - 2)
                } else {
                    0
                }
                &&& s.finish() == if (data.len() - 0x600) % 512 != 0 {
                    Err::<Seq<Seq<u8>>, ErrorModel>(ErrorModel::Truncated("DS2 block"@))
                } else if announced > 0 && place(announced) > 506 * n {
                    Err(ErrorModel::Truncated("DS2 SP frame"@))
                } else {
                    Ok(Seq::empty())
                }
            }
        }),
{
    let data = pieces.flatten();
    law_joined_is_flatten(pieces);
    law_sp_push_any_pieces(pieces);
    let start = SpStream::start();
    assert(start.block + data =~= data);
    if data.len() >= 0x600 {
        let n = block_count(data, 0x600);
        let (s, pushed) = start.push(data);
        law_sp_lenient_stream_gives_file(data);
        lemma_file_bytes(data, 0x600, i, j);
        let announced = frame_total(data, 0x600, n);
        law_frame_total_by_bytes(data, 0x600, n);
        let swap = data[0x600] >= 0x80;
        let body = SpStream { header_complete: true, block: data.skip(0x600), ..start };
        super::sp_laws::lemma_run_keeps_header(body);
        lemma_block_left(body);
        let base = SpFeed { stream: Seq::empty(), swap, lent: 0 };
        law_sp_packet_sizes(s.feed, s.pending);
        assert(file_packets(data).len() == announced);
        assert(pushed.len() + s.pending == announced);
        if n > 0 {
            lemma_offset_value(swap, 0);
            lemma_run_settles(body, base, 0, 0, 0);
            lemma_offset_value(swap, pushed.len());
            lemma_offset_value(swap, (pushed.len() + 1) as nat);
            lemma_offset_value(swap, announced as nat);
            if s.pending > 0 {
                lemma_offset_grows(swap, (pushed.len() + 1) as nat, announced as nat);
            }
        }
    }
}

/// Later packets begin later.
proof fn lemma_offset_grows(swap: bool, a: nat, b: nat)
    requires
        a <= b,
    ensures
        sp_offset(swap, a) <= sp_offset(swap, b),
    decreases b - a,
{
    if a < b {
        lemma_offset_grows(swap, a, (b - 1) as nat);
        lemma_offset_step(swap, (b - 1) as nat);
    }
}

/// What a run of blocks leaves of the last one.
proof fn lemma_block_left(s: SpStream)
    ensures
        s.run().0.block.len() == s.block.len() % 512,
    decreases s.block.len(),
{
    if s.block.len() >= 512 {
        let fed = s.next_block();
        lemma_block_left(fed.made(fed.ready()));
    }
}

/// What ending a stream leniently leaves behind the file header: no bytes of a
/// block, no packets owed, and the payload behind the packets that were owed. The
/// payload goes on where they end, complete or not; plain and swapped packets have
/// taken turns; and a swapped packet that comes next is lent the last but one byte
/// of the packet before it. Ending once more gives nothing, leniently or not.
pub proof fn law_sp_lenient_end_leaves_nothing_owed(s: SpStream, p: int)
    requires
        s.header_complete,
    ensures
        s.finish_lenient() matches Ok((end, packets)) && {
            let n = s.pending as int;
            let o = 41 * n + if n % 2 == 0 {
                0int
            } else if s.feed.swap {
                -1
            } else {
                1
            };
            let left = s.feed.stream;
            &&& packets.len() == n
            &&& end.header_complete && end.primed == s.primed
            &&& end.block.len() == 0
            &&& end.pending == 0
            &&& end.feed.swap == if n % 2 == 0 {
                s.feed.swap
            } else {
                !s.feed.swap
            }
            &&& end.feed.stream.len() == if o < left.len() {
                left.len() - o
            } else {
                0
            }
            &&& 0 <= p < end.feed.stream.len() ==> end.feed.stream[p] == left[o + p]
            &&& n > 0 && end.feed.swap ==> end.feed.lent == if o - 2 < left.len() {
                left[o - 2]
            } else {
                0
            }
            &&& n == 0 ==> end.feed.lent == s.feed.lent
            &&& end.finish() == Ok::<Seq<Seq<u8>>, ErrorModel>(Seq::empty())
            &&& end.finish_lenient() matches Ok((_, more)) && more.len() == 0
        },
{
    lemma_after_bytes(s.feed, s.pending);
    lemma_offset_value(s.feed.swap, s.pending);
    law_sp_packet_sizes(s.feed, s.pending);
    let end = s.finish_lenient()->Ok_0.0;
    if 0 <= p < end.feed.stream.len() {
        assert(byte_or_zero(end.feed.stream, p) == end.feed.stream[p]);
    }
}

/// A stream can count more bytes as long as all that it may have to count fits: the
/// packets owed, the bytes of the incomplete block, and the new bytes.
pub proof fn law_sp_room(s: SpStream, n: nat)
    ensures
        s.has_room(n) <==> s.pending + s.block.len() + n <= usize::MAX,
        SpStream::start().header_complete == false,
        SpStream::start().block.len() == 0,
        SpStream::start().pending == 0,
        SpStream::start().primed == false,
        SpStream::start().feed.stream.len() == 0,
        SpStream::start().feed.lent == 0,
{
}

} // verus!
