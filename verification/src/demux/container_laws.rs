//! What holds of the container and of the format, said of the bytes of the file
//! themselves.

use super::container::{
    audio_start, block_count, format_type, frame_total, header_at, header_run, is_audio_header,
    is_candidate, law_audio_start_is_earliest_best, mode_from, payload, start_score,
};
use super::ds2::{demuxed, DemuxModel};
use super::format::{detected, AudioFormat};
use super::qp7_laws::lemma_only_truncated;
use crate::error::ErrorModel;
use vstd::prelude::*;

verus! {

/// Every header with 0x0f in front, 0xff at 3 and 5, a frame count other than
/// zero and one of the modes 0 to 3, 6 and 7 is an audio block header, and no
/// other is. Where the first frame begins has no part in it, nor has how many
/// frames there are.
pub proof fn law_audio_header_by_bytes(header: Seq<u8>)
    ensures
        is_audio_header(header) <==> {
            &&& header.len() >= 6
            &&& header[0] == 0x0f && header[3] == 0xff && header[5] == 0xff
            &&& header[2] != 0
            &&& header[4] == 0 || header[4] == 1 || header[4] == 2 || header[4] == 3 || header[4]
                == 6 || header[4] == 7
        },
        forall|first: u8, count: u8|
            count > 0 && header.len() >= 6 && is_audio_header(header) ==> is_audio_header(
                #[trigger] header.update(1, first).update(2, count),
            ),
{
}

/// A run of headers is as long as there are headers 512 bytes apart.
proof fn lemma_header_run(data: Seq<u8>, offset: int, limit: nat, m: nat)
    requires
        m <= limit,
    ensures
        header_run(data, offset, limit) >= m <==> forall|j: int|
            0 <= j < m ==> header_at(data, #[trigger] stride(offset, j)),
    decreases limit,
{
    if m > 0 {
        if header_at(data, offset) {
            let rest = (m - 1) as nat;
            lemma_header_run(data, offset + 512, (limit - 1) as nat, rest);
            if header_run(data, offset, limit) >= m {
                assert forall|j: int| 0 <= j < m implies header_at(
                    data,
                    #[trigger] stride(offset, j),
                ) by {
                    if j > 0 {
                        assert(stride(offset, j) == stride(offset + 512, j - 1));
                    }
                }
            } else {
                let j = choose|j: int|
                    0 <= j < rest && !header_at(data, #[trigger] stride(offset + 512, j));
                assert(stride(offset, j + 1) == stride(offset + 512, j));
            }
        } else {
            assert(stride(offset, 0) == offset);
        }
    }
}

/// The place `j` blocks behind `offset`.
spec fn stride(offset: int, j: int) -> int {
    offset + 512 * j
}

/// What a score of at least one to four says of the headers.
proof fn lemma_score(data: Seq<u8>, offset: int)
    ensures
        start_score(data, offset) <= 4,
        start_score(data, offset) >= 1 <==> header_at(data, offset),
        start_score(data, offset) >= 2 <==> header_at(data, offset) && header_at(
            data,
            offset + 512,
        ),
        start_score(data, offset) >= 3 <==> header_at(data, offset) && header_at(
            data,
            offset + 512,
        ) && header_at(data, offset + 1024),
        start_score(data, offset) >= 4 <==> header_at(data, offset) && header_at(
            data,
            offset + 512,
        ) && header_at(data, offset + 1024) && header_at(data, offset + 1536),
{
    lemma_header_run(data, offset, 16, 1);
    lemma_header_run(data, offset, 16, 2);
    lemma_header_run(data, offset, 16, 3);
    lemma_header_run(data, offset, 16, 4);
    assert(stride(offset, 0) == offset);
    assert(stride(offset, 1) == offset + 512);
    assert(stride(offset, 2) == offset + 1024);
    assert(stride(offset, 3) == offset + 1536);
}

/// Where the blocks of a file begin, said of its bytes. Files of another version
/// than 7 have them at 0x600. In a file of version 7 the places looked at are the
/// multiples of 512 from 512 to 0x10000 at which an audio block header stands; if
/// there is none the blocks begin at 0x1000. Otherwise they begin at one of these
/// places. As many headers in a row, 512 bytes apart and up to four, as stand at
/// any such place stand there too, and at every earlier place fewer do.
pub proof fn law_audio_start_by_bytes(data: Seq<u8>)
    ensures
        data.len() == 0 || data[0] != 7 ==> audio_start(data) == 0x600,
        data.len() > 0 && data[0] == 7 ==> {
            let start = audio_start(data);
            let header = |o: int|
                {
                    &&& 0 <= o
                    &&& o + 6 <= data.len()
                    &&& data[o] == 0x0f && data[o + 3] == 0xff && data[o + 5] == 0xff
                    &&& data[o + 2] > 0
                    &&& data[o + 4] < 4 || data[o + 4] == 6 || data[o + 4] == 7
                };
            let row = |o: int, m: int|
                {
                    &&& header(o)
                    &&& m > 1 ==> header(o + 512)
                    &&& m > 2 ==> header(o + 1024)
                    &&& m > 3 ==> header(o + 1536)
                };
            let place = |o: int| 512 <= o <= 0x10000 && o % 512 == 0 && header(o);
            &&& (forall|o: int| !#[trigger] place(o)) ==> start == 0x1000
            &&& (exists|o: int| #[trigger] place(o)) ==> place(start)
            &&& forall|o: int, m: int|
                #![trigger place(o), row(o, m)]
                place(o) && 1 <= m <= 4 && row(o, m) ==> row(start, m)
            &&& forall|o: int|
                #![trigger place(o)]
                place(o) && o < start ==> exists|m: int|
                    1 <= m <= 4 && #[trigger] row(start, m) && !row(o, m)
        },
{
    if data.len() > 0 && data[0] == 7 {
        let start = audio_start(data);
        let header = |o: int|
            {
                &&& 0 <= o
                &&& o + 6 <= data.len()
                &&& data[o] == 0x0f && data[o + 3] == 0xff && data[o + 5] == 0xff
                &&& data[o + 2] > 0
                &&& data[o + 4] < 4 || data[o + 4] == 6 || data[o + 4] == 7
            };
        let row = |o: int, m: int|
            {
                &&& header(o)
                &&& m > 1 ==> header(o + 512)
                &&& m > 2 ==> header(o + 1024)
                &&& m > 3 ==> header(o + 1536)
            };
        let place = |o: int| 512 <= o <= 0x10000 && o % 512 == 0 && header(o);
        law_audio_start_is_earliest_best(data);
        assert forall|o: int| #[trigger] header_at(data, o) == header(o) by {
            lemma_header_at(data, o);
        }
        assert forall|o: int| #[trigger] start_score(data, o) > 0 <==> header_at(data, o) by {
            lemma_score(data, o);
        }
        assert forall|o: int| #[trigger] place(o) <==> is_candidate(data, o) && start_score(
            data,
            o,
        ) > 0 by {
            lemma_score(data, o);
        }
        assert forall|o: int, m: int|
            #![trigger row(o, m)]
            1 <= m <= 4 implies row(o, m) == (start_score(data, o) >= m) by {
            lemma_score(data, o);
            assert(header_at(data, o) == header(o));
            assert(header_at(data, o + 512) == header(o + 512));
            assert(header_at(data, o + 1024) == header(o + 1024));
            assert(header_at(data, o + 1536) == header(o + 1536));
        }
        if exists|o: int| #[trigger] place(o) {
            let o = choose|o: int| #[trigger] place(o);
            assert(is_candidate(data, o) && start_score(data, o) > 0);
            assert(place(start));
        } else {
            assert forall|o: int| is_candidate(data, o) implies #[trigger] start_score(data, o)
                == 0 by {
                assert(!place(o));
            }
        }
        assert forall|o: int, m: int|
            #![trigger place(o), row(o, m)]
            place(o) && 1 <= m <= 4 && row(o, m) implies row(start, m) by {
            assert(start_score(data, o) <= start_score(data, start));
        }
        assert forall|o: int|
            #![trigger place(o)]
            place(o) && o < start implies exists|m: int|
            1 <= m <= 4 && #[trigger] row(start, m) && !row(o, m) by {
            let m = start_score(data, start) as int;
            lemma_score(data, start);
            assert(start_score(data, o) < m);
            assert(row(start, m) && !row(o, m));
        }
    }
}

/// The header at an offset, said of the bytes.
proof fn lemma_header_at(data: Seq<u8>, o: int)
    ensures
        header_at(data, o) <==> {
            &&& 0 <= o
            &&& o + 6 <= data.len()
            &&& data[o] == 0x0f && data[o + 3] == 0xff && data[o + 5] == 0xff
            &&& data[o + 2] > 0
            &&& data[o + 4] < 4 || data[o + 4] == 6 || data[o + 4] == 7
        },
{
    if 0 <= o && o + 6 <= data.len() {
        let header = data.subrange(o, o + 6);
        assert(header[0] == data[o] && header[2] == data[o + 2] && header[3] == data[o + 3]);
        assert(header[4] == data[o + 4] && header[5] == data[o + 5]);
    }
}

/// A file of version 7 with four audio block headers in a row, 512 bytes apart
/// from a multiple of 512 on, and none at an earlier multiple has its blocks
/// there.
pub proof fn law_four_headers_settle_the_start(data: Seq<u8>, start: int)
    requires
        data.len() > 0,
        data[0] == 7,
        512 <= start <= 0x10000,
        start % 512 == 0,
        start + 1542 <= data.len(),
        forall|o: int|
            start <= o <= start + 1536 && o % 512 == 0 ==> #[trigger] data[o] == 0x0f && data[o + 2]
                != 0 && data[o + 3] == 0xff && data[o + 5] == 0xff && (data[o + 4] <= 3 || data[o
                + 4] == 6 || data[o + 4] == 7),
        forall|o: int|
            512 <= o < start && o % 512 == 0 ==> #[trigger] data[o] != 0x0f || data[o + 2] == 0
                || data[o + 3] != 0xff || data[o + 5] != 0xff || data[o + 4] == 4 || data[o + 4]
                == 5 || data[o + 4] > 7,
    ensures
        audio_start(data) == start,
{
    lemma_header_at(data, start);
    lemma_header_at(data, start + 512);
    lemma_header_at(data, start + 1024);
    lemma_header_at(data, start + 1536);
    assert(data[start] == 0x0f && data[start + 512] == 0x0f && data[start + 1024] == 0x0f
        && data[start + 1536] == 0x0f);
    lemma_score(data, start);
    law_audio_start_is_earliest_best(data);
    assert(is_candidate(data, start));
    let found = audio_start(data);
    lemma_score(data, found);
    if found < start {
        lemma_header_at(data, found);
        assert(data[found] == 0x0f ==> data[found] == 0x0f);
        assert(start_score(data, found) == 0);
    }
}

/// The mode of a file is that of its first whole block with a frame count other
/// than zero.
pub proof fn law_mode_by_bytes(data: Seq<u8>, start: int, k: nat)
    requires
        0 <= start,
        start + 512 * (k + 1) <= data.len(),
        data[start + 512 * k + 2] > 0,
        forall|o: int| start <= o < start + 512 * k && (o - start) % 512 == 2 ==> data[o] == 0,
    ensures
        format_type(data, start) == data[start + 512 * k + 4],
{
    lemma_mode_from(data, start, k, 0);
}

/// Blocks without frames do not tell the mode.
proof fn lemma_mode_from(data: Seq<u8>, start: int, k: nat, i: nat)
    requires
        0 <= start,
        i <= k,
        start + 512 * (k + 1) <= data.len(),
        data[start + 512 * k + 2] > 0,
        forall|o: int| start <= o < start + 512 * k && (o - start) % 512 == 2 ==> data[o] == 0,
    ensures
        mode_from(data, start, i) == data[start + 512 * k + 4],
    decreases k - i,
{
    assert(block_count(data, start) > k);
    if i < k {
        let o = start + 512 * i + 2;
        assert((o - start) % 512 == 2);
        assert(data[o] == 0);
        lemma_mode_from(data, start, k, i + 1);
    }
}

/// A file without frames in its whole blocks has mode 6 or 7 if its first block
/// is whole and says so, and mode 0 otherwise.
pub proof fn law_frameless_mode_by_bytes(data: Seq<u8>, start: int)
    requires
        0 <= start,
        forall|o: int|
            start <= o && o + 510 <= data.len() && (o - start) % 512 == 2 ==> data[o] == 0,
    ensures
        format_type(data, start) == if data.len() >= start + 512 && (data[start + 4] == 6
            || data[start + 4] == 7) {
            data[start + 4]
        } else {
            0
        },
{
    lemma_frameless(data, start, 0);
}

/// Blocks without frames leave the mode to the first block.
proof fn lemma_frameless(data: Seq<u8>, start: int, i: nat)
    requires
        0 <= start,
        i <= block_count(data, start),
        forall|o: int|
            start <= o && o + 510 <= data.len() && (o - start) % 512 == 2 ==> data[o] == 0,
    ensures
        mode_from(data, start, i) == mode_from(data, start, block_count(data, start)),
    decreases block_count(data, start) - i,
{
    if i < block_count(data, start) {
        let o = start + 512 * i + 2;
        assert((o - start) % 512 == 2);
        assert(data[o] == 0);
        lemma_frameless(data, start, i + 1);
    }
}

/// The frames of the first `n` blocks are the sum of the third bytes of the
/// blocks.
pub proof fn law_frame_total_by_bytes(data: Seq<u8>, start: int, n: nat)
    ensures
        frame_total(data, start, n) == Seq::new(
            n,
            |b: int| data[start + 512 * b + 2] as int,
        ).fold_left(0, |sum: int, count: int| sum + count),
    decreases n,
{
    let counts = Seq::new(n, |b: int| data[start + 512 * b + 2] as int);
    if n > 0 {
        law_frame_total_by_bytes(data, start, (n - 1) as nat);
        assert(counts.drop_last() =~= Seq::new(
            (n - 1) as nat,
            |b: int| data[start + 512 * b + 2] as int,
        ));
        assert(counts.last() == data[start + 512 * (n - 1) + 2] as int);
    }
}

/// The payload of the first `n` blocks: byte `p` of it is byte `p % 506` behind
/// the six header bytes of block `p / 506`.
pub proof fn law_payload_by_bytes(data: Seq<u8>, start: int, n: nat)
    requires
        n > 0 ==> 0 <= start && start + 512 * n <= data.len(),
    ensures
        payload(data, start, n).len() == 506 * n,
        forall|p: int|
            0 <= p < 506 * n ==> #[trigger] payload(data, start, n)[p] == data[start + 512 * (p
                / 506) + 6 + p % 506],
    decreases n,
{
    if n > 0 {
        law_payload_by_bytes(data, start, (n - 1) as nat);
        let earlier = payload(data, start, (n - 1) as nat);
        assert forall|p: int| 0 <= p < 506 * n implies #[trigger] payload(data, start, n)[p]
            == data[start + 512 * (p / 506) + 6 + p % 506] by {
            if p < 506 * (n - 1) {
                assert(payload(data, start, n)[p] == earlier[p]);
            } else {
                assert(p / 506 == n - 1 && p % 506 == p - 506 * (n - 1));
            }
        }
    }
}

/// What kind of frames a file has, said of its bytes and its mode: a file that
/// does not begin with 1, 3 or 7 and `ds2` is refused, and no other is refused as
/// not DS2; mode 7 has records, the other modes from 6 on have segments of a
/// stream, and all modes below 6 have packets.
pub proof fn law_kind_by_bytes(data: Seq<u8>)
    ensures
        ({
            let named = data.len() >= 4 && (data[0] == 1 || data[0] == 3 || data[0] == 7) && data[1]
                == 'd' as int && data[2] == 's' as int && data[3] == '2' as int;
            let mode = format_type(data, audio_start(data));
            &&& !named <==> demuxed(data) == Err::<DemuxModel, ErrorModel>(
                ErrorModel::NotDs2("<bytes>"@),
            )
            &&& named && mode < 6 ==> demuxed(data) is Ok && demuxed(data)->Ok_0 is Sp
            &&& named && mode == 6 ==> demuxed(data) is Ok && demuxed(data)->Ok_0 is QpSegments
            &&& named && mode > 7 ==> demuxed(data) is Ok && demuxed(data)->Ok_0 is QpSegments
            &&& named && mode == 7 ==> match demuxed(data) {
                Ok(frames) => frames is Qp7Segments,
                Err(error) => error is Truncated,
            }
        }),
{
    let start = audio_start(data);
    lemma_only_truncated(data, start, block_count(data, start));
}

/// The format of a file, said of its first bytes: 2, 3 or 6 and `dss` tell it at
/// once, of which 6 is Grundig's; 1, 3 or 7 and `ds2` tell it by the mode as soon
/// as there are more than 0x604 bytes and more than four behind the start of the
/// blocks; nothing else tells a format.
pub proof fn law_format_by_bytes(data: Seq<u8>)
    ensures
        ({
            let ds = data.len() >= 4 && data[1] == 'd' as int && data[2] == 's' as int;
            let dss = ds && data[3] == 's' as int;
            let ds2 = ds && data[3] == '2' as int && (data[0] == 1 || data[0] == 3 || data[0] == 7)
                && data.len() > 0x604 && data.len() > audio_start(data) + 4;
            let mode = format_type(data, audio_start(data));
            &&& detected(data) == Some(AudioFormat::GrundigSp) <==> dss && data[0] == 6
            &&& detected(data) == Some(AudioFormat::DssSp) <==> dss && (data[0] == 2 || data[0]
                == 3)
            &&& detected(data) == Some(AudioFormat::Ds2Qp7) <==> ds2 && mode == 7
            &&& detected(data) == Some(AudioFormat::Ds2Qp) <==> ds2 && mode == 6
            &&& detected(data) == Some(AudioFormat::Ds2Sp) <==> ds2 && mode != 6 && mode != 7
        }),
{
}

/// The rate of each format.
pub proof fn law_rates(format: AudioFormat)
    ensures
        format is DssSp ==> format.rate() == 11025,
        format is Ds2Sp ==> format.rate() == 12000,
        format is Ds2Qp || format is Ds2Qp7 || format is GrundigSp ==> format.rate() == 16000,
        format.in_ds2() <==> !(format is DssSp) && !(format is GrundigSp),
{
}

} // verus!
