//! The packets of the SP mode.
//!
//! The payload is a sequence of packets that take 42 and 40 bytes in turn. A
//! packet of 42 bytes lends one byte to the packet of 40 bytes behind it, whose
//! bytes are stored pairwise swapped. Every packet is handed out with 42 bytes.

use vstd::prelude::*;
use vstd::slice::slice_subrange;

verus! {

/// The size of a packet of the SP mode.
pub const DSS_SP_PACKET_SIZE: usize = 42;

/// The number of payload bytes that a swapped packet takes.
pub const SP_SWAPPED_SIZE: usize = 40;

/// The contents of a list of packets, frames or records.
pub open spec fn frames_view(frames: Seq<Vec<u8>>) -> Seq<Seq<u8>> {
    frames.map_values(|frame: Vec<u8>| frame@)
}

/// How many payload bytes the next packet takes.
pub open spec fn sp_need(swap: bool) -> nat {
    if swap {
        40
    } else {
        42
    }
}

/// The byte at `i`, and zero past the end.
pub open spec fn byte_or_zero(bytes: Seq<u8>, i: int) -> u8 {
    if 0 <= i < bytes.len() {
        bytes[i]
    } else {
        0
    }
}

/// The packet made of the payload bytes `chunk`. A plain packet is the chunk; a
/// swapped one has the even positions filled from the odd bytes and the other
/// way round, with the byte that the plain packet before it lent in the second
/// place. The byte at 40 is always cleared, and missing bytes are zero.
pub open spec fn sp_packet(swap: bool, lent: u8, chunk: Seq<u8>) -> Seq<u8> {
    Seq::new(
        42,
        |i: int|
            if i == 40 {
                0u8
            } else if !swap {
                byte_or_zero(chunk, i)
            } else if i == 1 {
                lent
            } else if i % 2 == 0 {
                byte_or_zero(chunk, i + 1)
            } else {
                byte_or_zero(chunk, i - 3)
            },
    )
}

/// The byte that is lent to a later packet once a packet has been made of the
/// payload bytes `chunk`: a plain packet lends its byte at 40, and a swapped one
/// leaves the byte as it is.
pub open spec fn lent_after(swap: bool, lent: u8, chunk: Seq<u8>) -> u8 {
    if swap {
        lent
    } else {
        byte_or_zero(chunk, 40)
    }
}

/// What is left of the payload, and what the next packet depends on besides:
/// whether it is swapped and the byte lent to it.
pub struct SpFeed {
    pub stream: Seq<u8>,
    pub swap: bool,
    pub lent: u8,
}

impl SpFeed {
    /// How many bytes the next packet takes: fewer than it needs at the end.
    pub open spec fn taken(self) -> int {
        if self.stream.len() < sp_need(self.swap) {
            self.stream.len() as int
        } else {
            sp_need(self.swap) as int
        }
    }

    /// The bytes of the next packet.
    pub open spec fn chunk(self) -> Seq<u8> {
        self.stream.take(self.taken())
    }

    /// The next packet.
    pub open spec fn packet(self) -> Seq<u8> {
        sp_packet(self.swap, self.lent, self.chunk())
    }

    /// The payload behind the next packet.
    pub open spec fn next(self) -> SpFeed {
        SpFeed {
            stream: self.stream.skip(self.taken()),
            swap: !self.swap,
            lent: lent_after(self.swap, self.lent, self.chunk()),
        }
    }

    /// The next `n` packets.
    pub open spec fn packets(self, n: nat) -> Seq<Seq<u8>>
        decreases n,
    {
        if n == 0 {
            Seq::empty()
        } else {
            seq![self.packet()] + self.next().packets((n - 1) as nat)
        }
    }

    /// The payload behind the next `n` packets.
    pub open spec fn after(self, n: nat) -> SpFeed
        decreases n,
    {
        if n == 0 {
            self
        } else {
            self.next().after((n - 1) as nat)
        }
    }

    /// How many of the next `limit` packets have all their bytes.
    pub open spec fn ready(self, limit: nat) -> nat
        decreases limit,
    {
        if limit == 0 || self.stream.len() < sp_need(self.swap) {
            0
        } else {
            1 + self.next().ready((limit - 1) as nat)
        }
    }

    /// The same payload with more bytes behind it.
    pub open spec fn extended(self, more: Seq<u8>) -> SpFeed {
        SpFeed { stream: self.stream + more, ..self }
    }
}

/// How many payload bytes the first `n` packets need.
pub open spec fn sp_offset(swap: bool, n: nat) -> nat {
    82 * (n / 2) + (n % 2) * sp_need(swap)
}

/// Whether each of `n` packets begins within a payload of `len` bytes or at its
/// very end.
pub open spec fn sp_fits(len: nat, swap: bool, n: nat) -> bool {
    n == 0 || sp_offset(swap, (n - 1) as nat) <= len
}

/// There are as many packets as asked for, each of 42 bytes.
pub proof fn law_sp_packet_sizes(feed: SpFeed, n: nat)
    ensures
        feed.packets(n).len() == n,
        forall|i: int| 0 <= i < n ==> (#[trigger] feed.packets(n)[i]).len() == 42,
    decreases n,
{
    if n > 0 {
        let rest = feed.next().packets((n - 1) as nat);
        law_sp_packet_sizes(feed.next(), (n - 1) as nat);
        assert forall|i: int| 0 <= i < n implies (#[trigger] feed.packets(n)[i]).len() == 42 by {
            if i > 0 {
                assert(feed.packets(n)[i] == rest[i - 1]);
            }
        }
    }
}

/// Packet `i` is the packet that comes next behind the first `i`.
pub proof fn lemma_packet_at(feed: SpFeed, n: nat, i: nat)
    requires
        i < n,
    ensures
        feed.packets(n).len() == n,
        feed.packets(n)[i as int] == feed.after(i).packet(),
    decreases i,
{
    law_sp_packet_sizes(feed, n);
    if i > 0 {
        lemma_packet_at(feed.next(), (n - 1) as nat, (i - 1) as nat);
        assert(feed.packets(n)[i as int] == feed.next().packets((n - 1) as nat)[i - 1]);
    }
}

/// Behind the first `n` packets the payload goes on at the offset that they
/// need, and packets are swapped in turn.
proof fn lemma_after_place(feed: SpFeed, n: nat)
    requires
        sp_offset(feed.swap, n) <= feed.stream.len(),
    ensures
        feed.after(n).stream == feed.stream.skip(sp_offset(feed.swap, n) as int),
        feed.after(n).swap == (feed.swap != (n % 2 == 1)),
    decreases n,
{
    if n == 0 {
        assert(feed.stream.skip(0) =~= feed.stream);
    } else {
        assert(sp_offset(feed.swap, n) == sp_need(feed.swap) + sp_offset(
            !feed.swap,
            (n - 1) as nat,
        ));
        lemma_after_place(feed.next(), (n - 1) as nat);
        assert(feed.next().stream.skip(sp_offset(!feed.swap, (n - 1) as nat) as int)
            =~= feed.stream.skip(sp_offset(feed.swap, n) as int));
    }
}

/// One packet more is the packet that comes next.
pub proof fn lemma_after_one_more(feed: SpFeed, n: nat)
    ensures
        feed.after(n + 1) == feed.after(n).next(),
    decreases n,
{
    if n > 0 {
        lemma_after_one_more(feed.next(), (n - 1) as nat);
    } else {
        assert(feed.next().after(0) == feed.next());
    }
}

/// A swapped packet behind the first is lent the last but one byte of the plain
/// packet before it.
proof fn lemma_lent_place(feed: SpFeed, i: nat)
    requires
        0 < i,
        feed.swap != (i % 2 == 1),
        sp_offset(feed.swap, i) <= feed.stream.len(),
    ensures
        sp_offset(feed.swap, i) >= 42,
        feed.after(i).lent == feed.stream[sp_offset(feed.swap, i) - 2],
{
    let before = (i - 1) as nat;
    assert(sp_offset(feed.swap, i) == sp_offset(feed.swap, before) + 42) by {
        let need = sp_need(feed.swap);
        assert(1 * need == need && 0 * need == 0) by (nonlinear_arith);
        if feed.swap {
            assert(i % 2 == 0 && before % 2 == 1 && before / 2 == i / 2 - 1);
        } else {
            assert(i % 2 == 1 && before % 2 == 0 && before / 2 == i / 2);
        }
    }
    lemma_after_place(feed, before);
    lemma_after_one_more(feed, before);
}

/// Where the packets fit into the payload, packet `i` is made of the bytes from
/// the offset that the packets before it need, and every other packet is
/// swapped. A swapped packet is lent the last but one byte of the plain packet
/// before it, and the first one what there was before.
pub proof fn law_sp_packet_places(feed: SpFeed, n: nat, i: nat)
    requires
        i < n,
        sp_fits(feed.stream.len(), feed.swap, n),
    ensures
        feed.packets(n).len() == n,
        ({
            let swap = feed.swap != (i % 2 == 1);
            let rest = feed.stream.skip(sp_offset(feed.swap, i) as int);
            let chunk = if rest.len() < sp_need(swap) {
                rest
            } else {
                rest.take(sp_need(swap) as int)
            };
            &&& feed.packets(n)[i as int] == sp_packet(swap, feed.after(i).lent, chunk)
            &&& swap && i == 0 ==> feed.after(i).lent == feed.lent
            &&& swap && i > 0 ==> {
                &&& sp_offset(feed.swap, i) >= 42
                &&& feed.after(i).lent == feed.stream[sp_offset(feed.swap, i) - 2]
            }
        }),
{
    let swap = feed.swap != (i % 2 == 1);
    assert(sp_offset(feed.swap, i) <= sp_offset(feed.swap, (n - 1) as nat)) by {
        assert(i / 2 <= ((n - 1) as nat) / 2);
        if i / 2 == ((n - 1) as nat) / 2 {
            assert(i % 2 <= ((n - 1) as nat) % 2);
            assert((i % 2) * sp_need(feed.swap) <= (((n - 1) as nat) % 2) * sp_need(feed.swap))
                by (nonlinear_arith)
                requires
                    i % 2 <= ((n - 1) as nat) % 2,
            ;
        } else {
            assert((i % 2) * sp_need(feed.swap) <= 42) by (nonlinear_arith)
                requires
                    i % 2 <= 1,
                    sp_need(feed.swap) <= 42,
            ;
            assert((((n - 1) as nat) % 2) * sp_need(feed.swap) >= 0) by (nonlinear_arith);
        }
    }
    lemma_packet_at(feed, n, i);
    lemma_after_place(feed, i);
    if swap && i > 0 {
        lemma_lent_place(feed, i);
    }
    let rest = feed.after(i).stream;
    assert(rest.take(rest.len() as int) =~= rest);
}

/// A plain packet of the bytes `a` and the swapped packet of the bytes `b`
/// behind it lose no byte: all of `a` but the byte at 40 stay where they are,
/// that byte is the second of the swapped packet, and the bytes of `b` are there
/// pairwise swapped. The byte at 40 is zero in both. What is lent is the same
/// afterwards, and has no part in a plain packet, so that a third packet is made
/// like the first.
pub proof fn law_sp_pair_loses_no_byte(lent: u8, a: Seq<u8>, b: Seq<u8>, c: Seq<u8>)
    requires
        a.len() == 42,
        b.len() == 40,
    ensures
        ({
            let p0 = sp_packet(false, lent, a);
            let lent1 = lent_after(false, lent, a);
            let p1 = sp_packet(true, lent1, b);
            let lent2 = lent_after(true, lent1, b);
            &&& p0.len() == 42 && p1.len() == 42
            &&& forall|i: int| 0 <= i < 42 && i != 40 ==> #[trigger] p0[i] == a[i]
            &&& p1[1] == a[40]
            &&& forall|j: int| 0 <= j < 40 && j % 2 == 1 ==> #[trigger] b[j] == p1[j - 1]
            &&& forall|j: int| 0 <= j < 40 && j % 2 == 0 ==> #[trigger] b[j] == p1[j + 3]
            &&& p0[40] == 0 && p1[40] == 0
            &&& lent2 == lent1
            &&& sp_packet(false, lent2, c) == sp_packet(false, lent, c)
        }),
{
    assert(sp_packet(false, a[40], c) =~= sp_packet(false, lent, c));
}

/// No more packets are ready than asked for.
pub proof fn lemma_ready_bound(feed: SpFeed, limit: nat)
    ensures
        feed.ready(limit) <= limit,
    decreases limit,
{
    if limit > 0 && feed.stream.len() >= sp_need(feed.swap) {
        lemma_ready_bound(feed.next(), (limit - 1) as nat);
    }
}

/// A packet that has all its bytes stays the same when more bytes follow, and
/// so does what it leaves behind.
pub proof fn lemma_extend_ready(feed: SpFeed, more: Seq<u8>, k: nat, limit: nat, m: nat)
    requires
        k <= feed.ready(limit),
    ensures
        feed.extended(more).packets(k + m) == feed.packets(k) + feed.after(k).extended(
            more,
        ).packets(m),
    decreases k,
{
    if k == 0 {
        assert(feed.packets(0) + feed.extended(more).packets(m) =~= feed.extended(more).packets(m));
    } else {
        let whole = feed.extended(more);
        assert(whole.chunk() =~= feed.chunk());
        assert(whole.next().stream =~= feed.next().extended(more).stream);
        assert(whole.next() == feed.next().extended(more));
        lemma_extend_ready(feed.next(), more, (k - 1) as nat, (limit - 1) as nat, m);
        assert(whole.packets(k + m) == seq![whole.packet()] + whole.next().packets(
            (k + m - 1) as nat,
        ));
        assert(feed.packets(k) + feed.after(k).extended(more).packets(m) =~= seq![feed.packet()] + (
        feed.next().packets((k - 1) as nat) + feed.after(k).extended(more).packets(m)));
    }
}

/// The byte at `i`, and zero past the end.
fn byte_at(bytes: &[u8], i: usize) -> (b: u8)
    ensures
        b == byte_or_zero(bytes@, i as int),
{
    if i < bytes.len() {
        bytes[i]
    } else {
        0
    }
}

/// The packet made of the payload bytes `chunk`, and the byte that is lent to
/// the packet behind it.
pub(crate) fn build_sp_packet(swap: bool, lent: u8, chunk: &[u8]) -> (res: (Vec<u8>, u8))
    ensures
        res.0@ == sp_packet(swap, lent, chunk@),
        res.1 == lent_after(swap, lent, chunk@),
{
    let mut pkt: Vec<u8> = Vec::with_capacity(DSS_SP_PACKET_SIZE);
    let mut i: usize = 0;
    while i < DSS_SP_PACKET_SIZE
        invariant
            i <= DSS_SP_PACKET_SIZE,
            pkt@ == sp_packet(swap, lent, chunk@).take(i as int),
        decreases DSS_SP_PACKET_SIZE - i,
    {
        let byte: u8 = if i == DSS_SP_PACKET_SIZE - 2 {
            0
        } else if !swap {
            byte_at(chunk, i)
        } else if i == 1 {
            lent
        } else if i % 2 == 0 {
            byte_at(chunk, i + 1)
        } else {
            byte_at(chunk, i - 3)
        };
        pkt.push(byte);
        i += 1;
        assert(pkt@ =~= sp_packet(swap, lent, chunk@).take(i as int));
    }
    assert(pkt@ =~= sp_packet(swap, lent, chunk@));
    let next_lent: u8 = if swap {
        lent
    } else {
        byte_at(chunk, DSS_SP_PACKET_SIZE - 2)
    };
    (pkt, next_lent)
}

/// The first `total` packets of a payload; packets behind its end are padded
/// with zeros.
pub(crate) fn split_sp_packets(stream: &[u8], swap: bool, total: usize) -> (packets: Vec<Vec<u8>>)
    ensures
        frames_view(packets@) == (SpFeed { stream: stream@, swap, lent: 0 }).packets(total as nat),
{
    let ghost whole = SpFeed { stream: stream@, swap, lent: 0 };
    let mut packets: Vec<Vec<u8>> = Vec::new();
    let mut swap: bool = swap;
    let mut lent: u8 = 0;
    let mut pos: usize = 0;
    let mut fi: usize = 0;
    assert(stream@.skip(0) =~= stream@);
    assert(frames_view(packets@) + whole.packets(total as nat) =~= whole.packets(total as nat));
    while fi < total
        invariant
            fi <= total,
            pos <= stream.len(),
            frames_view(packets@) + (SpFeed {
                stream: stream@.skip(pos as int),
                swap,
                lent,
            }).packets((total - fi) as nat) == whole.packets(total as nat),
        decreases total - fi,
    {
        let ghost feed = SpFeed { stream: stream@.skip(pos as int), swap, lent };
        let ghost before = frames_view(packets@);
        let read_size: usize = if swap {
            SP_SWAPPED_SIZE
        } else {
            DSS_SP_PACKET_SIZE
        };
        let end: usize = if stream.len() - pos < read_size {
            stream.len()
        } else {
            pos + read_size
        };
        let chunk = slice_subrange(stream, pos, end);
        assert(chunk@ =~= feed.chunk());
        let (pkt, next_lent) = build_sp_packet(swap, lent, chunk);
        packets.push(pkt);
        lent = next_lent;
        pos = end;
        swap = !swap;
        fi += 1;
        proof {
            let next = SpFeed { stream: stream@.skip(pos as int), swap, lent };
            assert(next.stream =~= feed.next().stream);
            assert(frames_view(packets@) =~= before.push(feed.packet()));
            assert(before + feed.packets((total - fi + 1) as nat) =~= before.push(feed.packet())
                + next.packets((total - fi) as nat));
        }
    }
    assert(frames_view(packets@) =~= whole.packets(total as nat));
    packets
}

} // verus!
