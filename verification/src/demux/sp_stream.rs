//! Demultiplexing a DS2 file of the SP mode whose bytes arrive in pieces.

use super::container::{DS2_BLOCK_HEADER_SIZE, DS2_BLOCK_SIZE, DS2_HEADER_SIZE};
use super::sp::{build_sp_packet, frames_view, DSS_SP_PACKET_SIZE, SP_SWAPPED_SIZE};
use super::sp::{lemma_ready_bound, lent_after, sp_need, sp_packet, SpFeed};
use crate::error::{DecodeError, ErrorModel};
use vstd::prelude::*;
use vstd::slice::slice_subrange;

verus! {

/// The state of a stream of the SP mode.
pub struct SpStream {
    /// Whether the file header is behind.
    pub header_complete: bool,
    /// The bytes of the header or block that is not complete yet.
    pub block: Seq<u8>,
    /// The payload of which no packet has been made yet.
    pub feed: SpFeed,
    /// How many packets have been announced and not been made yet.
    pub pending: nat,
    /// Whether a block has said if the first packet is swapped.
    pub primed: bool,
}

impl SpStream {
    /// The state before the first byte.
    pub open spec fn start() -> SpStream {
        SpStream {
            header_complete: false,
            block: Seq::empty(),
            feed: SpFeed { stream: Seq::empty(), swap: false, lent: 0 },
            pending: 0,
            primed: false,
        }
    }

    /// The state in which the payload of one block and its packets have been
    /// added. The first block of all says whether the first packet is swapped.
    pub open spec fn with_block(self, block: Seq<u8>) -> SpStream {
        SpStream {
            feed: SpFeed {
                stream: self.feed.stream + block.subrange(6, 512),
                swap: if self.primed {
                    self.feed.swap
                } else {
                    block[0] >= 0x80
                },
                ..self.feed
            },
            pending: self.pending + block[2] as nat,
            primed: true,
            ..self
        }
    }

    /// How many packets can be made now.
    pub open spec fn ready(self) -> nat {
        self.feed.ready(self.pending)
    }

    /// The state in which `n` of the announced packets have been made.
    pub open spec fn made(self, n: nat) -> SpStream {
        SpStream { feed: self.feed.after(n), pending: (self.pending - n) as nat, ..self }
    }

    /// The state with the first whole block moved to the payload.
    pub open spec fn next_block(self) -> SpStream {
        SpStream { block: self.block.skip(512), ..self }.with_block(self.block.take(512))
    }

    /// All whole blocks go to the payload, and each time the packets that are
    /// ready are made.
    pub open spec fn run(self) -> (SpStream, Seq<Seq<u8>>)
        decreases self.block.len(),
    {
        if self.block.len() < 512 {
            (self, Seq::empty())
        } else {
            let fed = self.next_block();
            let (end, packets) = fed.made(fed.ready()).run();
            (end, fed.feed.packets(fed.ready()) + packets)
        }
    }

    /// Whether `n` more bytes and the packets that they may announce can be
    /// counted.
    pub open spec fn has_room(self, n: nat) -> bool {
        self.pending + self.block.len() + n <= usize::MAX
    }

    /// More bytes arrive.
    pub open spec fn push(self, data: Seq<u8>) -> (SpStream, Seq<Seq<u8>>) {
        let bytes = self.block + data;
        if self.header_complete {
            SpStream { block: bytes, ..self }.run()
        } else if bytes.len() < 0x600 {
            (SpStream { block: bytes, ..self }, Seq::empty())
        } else {
            SpStream { header_complete: true, block: bytes.skip(0x600), ..self }.run()
        }
    }

    /// The bytes end here, and nothing may be missing.
    pub open spec fn finish(self) -> Result<Seq<Seq<u8>>, ErrorModel> {
        if !self.header_complete {
            if self.block.len() == 0 {
                Ok(Seq::empty())
            } else {
                Err(ErrorModel::Truncated("DS2 header"@))
            }
        } else if self.block.len() > 0 {
            Err(ErrorModel::Truncated("DS2 block"@))
        } else if self.pending > 0 {
            Err(ErrorModel::Truncated("DS2 SP frame"@))
        } else {
            Ok(Seq::empty())
        }
    }

    /// The bytes end here, and what is missing of the announced packets is
    /// taken as zero.
    pub open spec fn finish_lenient(self) -> Result<(SpStream, Seq<Seq<u8>>), ErrorModel> {
        if !self.header_complete {
            if self.block.len() == 0 {
                Ok((self, Seq::empty()))
            } else {
                Err(ErrorModel::Truncated("DS2 header"@))
            }
        } else {
            Ok(
                (
                    SpStream { block: Seq::empty(), ..self }.made(self.pending),
                    self.feed.packets(self.pending),
                ),
            )
        }
    }
}

/// A demultiplexer for a DS2 file of the SP mode that takes the bytes as they
/// arrive and hands out the packets as soon as they are complete.
pub struct Ds2SpStreamDemuxer {
    header_complete: bool,
    block_buf: Vec<u8>,
    stream_buf: Vec<u8>,
    pending_frames: usize,
    swap: bool,
    swap_byte: u8,
    have_initial_swap: bool,
}

impl View for Ds2SpStreamDemuxer {
    type V = SpStream;

    closed spec fn view(&self) -> SpStream {
        SpStream {
            header_complete: self.header_complete,
            block: self.block_buf@,
            feed: SpFeed { stream: self.stream_buf@, swap: self.swap, lent: self.swap_byte },
            pending: self.pending_frames as nat,
            primed: self.have_initial_swap,
        }
    }
}

/// Takes the first `n` bytes out of a buffer.
fn take_front(buf: &mut Vec<u8>, n: usize) -> (front: Vec<u8>)
    requires
        n <= old(buf).len(),
    ensures
        front@ == old(buf)@.take(n as int),
        final(buf)@ == old(buf)@.skip(n as int),
{
    let mut front = buf.split_off(n);
    std::mem::swap(&mut front, buf);
    assert(front@ =~= old(buf)@.take(n as int));
    assert(buf@ =~= old(buf)@.skip(n as int));
    front
}

impl Ds2SpStreamDemuxer {
    /// A demultiplexer that has seen no bytes.
    pub fn new() -> (demuxer: Self)
        ensures
            demuxer@ == SpStream::start(),
    {
        Ds2SpStreamDemuxer {
            header_complete: false,
            block_buf: Vec::new(),
            stream_buf: Vec::new(),
            pending_frames: 0,
            swap: false,
            swap_byte: 0,
            have_initial_swap: false,
        }
    }

    /// Whether `n` more bytes and the packets that they may announce can be
    /// counted.
    pub fn has_room(&self, n: usize) -> (res: bool)
        ensures
            res == self@.has_room(n as nat),
    {
        self.pending_frames <= usize::MAX - n && self.block_buf.len() <= usize::MAX - n
            - self.pending_frames
    }

    /// Takes more bytes of the file and hands out the packets that they
    /// complete.
    pub fn push(&mut self, data: &[u8]) -> (res: Result<Vec<Vec<u8>>, DecodeError>)
        requires
            old(self)@.has_room(data@.len()),
        ensures
            res is Ok,
            final(self)@ == old(self)@.push(data@).0,
            frames_view(res->Ok_0@) == old(self)@.push(data@).1,
    {
        let mut frames: Vec<Vec<u8>> = Vec::new();
        assert(frames_view(frames@) =~= Seq::empty());
        self.block_buf.extend_from_slice(data);
        assert(self.block_buf@ =~= old(self)@.block + data@);
        if !self.header_complete {
            if self.block_buf.len() < DS2_HEADER_SIZE {
                return Ok(frames);
            }
            let _header = take_front(&mut self.block_buf, DS2_HEADER_SIZE);
            self.header_complete = true;
        }
        let ghost goal = self@.run();
        assert(frames_view(frames@) + self@.run().1 =~= goal.1);
        while self.block_buf.len() >= DS2_BLOCK_SIZE
            invariant
                self@.pending + self@.block.len() <= usize::MAX,
                self@.run().0 == goal.0,
                frames_view(frames@) + self@.run().1 == goal.1,
            decreases self.block_buf.len(),
        {
            let ghost before = self@;
            let ghost made = frames_view(frames@);
            let block = take_front(&mut self.block_buf, DS2_BLOCK_SIZE);
            self.process_block(block.as_slice(), &mut frames);
            proof {
                let fed = before.next_block();
                lemma_ready_bound(fed.feed, fed.pending);
                assert(self@ == fed.made(fed.ready()));
                assert(made + before.run().1 =~= frames_view(frames@) + self@.run().1);
            }
        }
        assert(frames_view(frames@) =~= goal.1);
        Ok(frames)
    }

    /// Ends the stream. Fails if a header, a block or a packet is incomplete.
    pub fn finish(&mut self) -> (res: Result<Vec<Vec<u8>>, DecodeError>)
        ensures
            final(self)@ == old(self)@,
            match old(self)@.finish() {
                Ok(packets) => res is Ok && frames_view(res->Ok_0@) == packets,
                Err(error) => res is Err && res->Err_0@ == error,
            },
    {
        if !self.header_complete {
            if self.block_buf.is_empty() {
                let none: Vec<Vec<u8>> = Vec::new();
                assert(frames_view(none@) =~= Seq::empty());
                return Ok(none);
            }
            return Err(DecodeError::Truncated("DS2 header".to_string()));
        }
        if !self.block_buf.is_empty() {
            return Err(DecodeError::Truncated("DS2 block".to_string()));
        }
        if self.pending_frames > 0 {
            return Err(DecodeError::Truncated("DS2 SP frame".to_string()));
        }
        let none: Vec<Vec<u8>> = Vec::new();
        assert(frames_view(none@) =~= Seq::empty());
        Ok(none)
    }

    /// Ends the stream. An incomplete block is dropped, and the packets that
    /// are still owed are padded with zeros.
    pub fn finish_lenient(&mut self) -> (res: Result<Vec<Vec<u8>>, DecodeError>)
        ensures
            match old(self)@.finish_lenient() {
                Ok((end, packets)) => {
                    &&& res is Ok
                    &&& frames_view(res->Ok_0@) == packets
                    &&& final(self)@ == end
                },
                Err(error) => {
                    &&& res is Err
                    &&& res->Err_0@ == error
                    &&& final(self)@ == old(self)@
                },
            },
    {
        let mut frames: Vec<Vec<u8>> = Vec::new();
        assert(frames_view(frames@) =~= Seq::empty());
        if !self.header_complete {
            if self.block_buf.is_empty() {
                return Ok(frames);
            }
            return Err(DecodeError::Truncated("DS2 header".to_string()));
        }
        self.block_buf.clear();
        let ghost total = self@.pending;
        let ghost whole = self@.feed.packets(total);
        let ghost end = self@.made(total);
        assert(frames_view(frames@) + whole =~= whole);
        while self.pending_frames > 0
            invariant
                frames_view(frames@) + self@.feed.packets(self@.pending) == whole,
                self@.made(self@.pending) == end,
            decreases self.pending_frames,
        {
            let ghost before = self@;
            let ghost made = frames_view(frames@);
            let needed: usize = if self.swap {
                SP_SWAPPED_SIZE
            } else {
                DSS_SP_PACKET_SIZE
            };
            let packet = self.extract_sp_packet_padded(needed);
            frames.push(packet);
            self.pending_frames -= 1;
            proof {
                assert(frames_view(frames@) =~= made.push(before.feed.packet()));
                assert(made + before.feed.packets(before.pending) =~= frames_view(frames@)
                    + self@.feed.packets(self@.pending));
            }
        }
        assert(frames_view(frames@) =~= whole);
        Ok(frames)
    }

    /// Adds a block and makes the packets that are ready.
    fn process_block(&mut self, block: &[u8], frames: &mut Vec<Vec<u8>>)
        requires
            block@.len() == DS2_BLOCK_SIZE,
            old(self)@.pending + 512 <= usize::MAX,
        ensures
            ({
                let fed = old(self)@.with_block(block@);
                &&& final(self)@ == fed.made(fed.ready())
                &&& frames_view(final(frames)@) == frames_view(old(frames)@) + fed.feed.packets(
                    fed.ready(),
                )
            }),
    {
        if !self.have_initial_swap {
            self.swap = block[0] >= 0x80;
            self.have_initial_swap = true;
        }
        self.pending_frames += block[2] as usize;
        let part = slice_subrange(block, DS2_BLOCK_HEADER_SIZE, DS2_BLOCK_SIZE);
        self.stream_buf.extend_from_slice(part);
        let ghost fed = old(self)@.with_block(block@);
        assert(self@.feed.stream =~= fed.feed.stream);
        assert(self@ == fed);
        let ghost goal = frames_view(frames@) + fed.feed.packets(fed.ready());
        while self.pending_frames > 0
            invariant_except_break
                self@.made(self@.ready()) == fed.made(fed.ready()),
                frames_view(frames@) + self@.feed.packets(self@.ready()) == goal,
            ensures
                self@ == fed.made(fed.ready()),
                frames_view(frames@) == goal,
            decreases self.pending_frames,
        {
            let needed: usize = if self.swap {
                SP_SWAPPED_SIZE
            } else {
                DSS_SP_PACKET_SIZE
            };
            if self.stream_buf.len() < needed {
                assert(frames_view(frames@) =~= goal);
                break;
            }
            let ghost before = self@;
            let ghost made = frames_view(frames@);
            let packet = self.extract_sp_packet(needed);
            frames.push(packet);
            self.pending_frames -= 1;
            proof {
                assert(frames_view(frames@) =~= made.push(before.feed.packet()));
                assert(made + before.feed.packets(before.ready()) =~= frames_view(frames@)
                    + self@.feed.packets(self@.ready()));
                assert(before.made(before.ready()) == self@.made(self@.ready()));
            }
        }
    }

    /// Makes the next packet, which has all its bytes.
    fn extract_sp_packet(&mut self, read_size: usize) -> (packet: Vec<u8>)
        requires
            read_size == sp_need(old(self)@.feed.swap),
            read_size <= old(self)@.feed.stream.len(),
        ensures
            packet@ == old(self)@.feed.packet(),
            final(self)@ == (SpStream { feed: old(self)@.feed.next(), ..old(self)@ }),
    {
        let chunk = take_front(&mut self.stream_buf, read_size);
        self.fill_sp_packet(chunk.as_slice())
    }

    /// Makes the next packet of the bytes that are there.
    fn extract_sp_packet_padded(&mut self, read_size: usize) -> (packet: Vec<u8>)
        requires
            read_size == sp_need(old(self)@.feed.swap),
        ensures
            packet@ == old(self)@.feed.packet(),
            final(self)@ == (SpStream { feed: old(self)@.feed.next(), ..old(self)@ }),
    {
        let take: usize = if read_size < self.stream_buf.len() {
            read_size
        } else {
            self.stream_buf.len()
        };
        let chunk = take_front(&mut self.stream_buf, take);
        self.fill_sp_packet(chunk.as_slice())
    }

    /// Makes a packet of the bytes `chunk`.
    fn fill_sp_packet(&mut self, chunk: &[u8]) -> (packet: Vec<u8>)
        ensures
            packet@ == sp_packet(old(self)@.feed.swap, old(self)@.feed.lent, chunk@),
            final(self)@ == (SpStream {
                feed: SpFeed {
                    stream: old(self)@.feed.stream,
                    swap: !old(self)@.feed.swap,
                    lent: lent_after(old(self)@.feed.swap, old(self)@.feed.lent, chunk@),
                },
                ..old(self)@
            }),
    {
        let (packet, lent) = build_sp_packet(self.swap, self.swap_byte, chunk);
        self.swap_byte = lent;
        self.swap = !self.swap;
        packet
    }
}

} // verus!
