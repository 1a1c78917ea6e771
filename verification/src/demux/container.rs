//! The DS2 container: a file header, then blocks of 512 bytes, each with a
//! header of six bytes.
//!
//! Of a block header, byte 1 is half the offset at which the first frame of the
//! block begins, byte 2 is the number of frames that begin in the block, and
//! byte 4 is the recording mode.

use vstd::prelude::*;
use vstd::slice::slice_subrange;

verus! {

/// Where the blocks begin, except in files of version 7.
pub const DS2_HEADER_SIZE: usize = 0x600;

/// The size of a block.
pub const DS2_BLOCK_SIZE: usize = 512;

/// The size of the header of a block.
pub const DS2_BLOCK_HEADER_SIZE: usize = 6;

/// The number of bytes in a block behind its header.
pub const DS2_PAYLOAD_SIZE: usize = 506;

/// Where the blocks of a version 7 file begin if none can be recognised.
const FALLBACK_START: usize = 0x1000;

/// The last offset at which the blocks of a version 7 file are looked for.
const SCAN_LIMIT: usize = 0x10000;

/// How many block headers in a row are looked at behind a candidate start.
const RUN_LIMIT: usize = 16;

/// How many block headers in a row settle where the blocks begin.
const RUN_SETTLED: usize = 4;

/// The three magic numbers of a DS2 file: a version and `ds2`.
pub open spec fn is_ds2(data: Seq<u8>) -> bool {
    &&& data.len() >= 4
    &&& data[0] == 3 || data[0] == 1 || data[0] == 7
    &&& data[1] == 0x64
    &&& data[2] == 0x73
    &&& data[3] == 0x32
}

/// Whether the bytes begin with one of the magic numbers of a DS2 file.
pub fn starts_as_ds2(data: &[u8]) -> (res: bool)
    ensures
        res == is_ds2(data@),
{
    data.len() >= 4 && (data[0] == 3 || data[0] == 1 || data[0] == 7) && data[1] == 0x64 && data[2]
        == 0x73 && data[3] == 0x32
}

/// The header of a block that holds audio in one of the known modes.
pub open spec fn is_audio_header(header: Seq<u8>) -> bool {
    &&& header.len() >= 6
    &&& header[0] == 0x0f
    &&& header[3] == 0xff
    &&& header[5] == 0xff
    &&& header[2] > 0
    &&& header[4] <= 3 || header[4] == 6 || header[4] == 7
}

/// Whether the bytes are the header of a block that holds audio.
pub fn is_ds2_audio_block_header(block_header: &[u8]) -> (res: bool)
    ensures
        res == is_audio_header(block_header@),
{
    if block_header.len() < DS2_BLOCK_HEADER_SIZE {
        return false;
    }
    let fc = block_header[2];
    let fmt = block_header[4];
    block_header[0] == 0x0f && block_header[3] == 0xff && block_header[5] == 0xff && fc > 0 && (fmt
        <= 3 || fmt == 6 || fmt == 7)
}

/// Whether an audio block header stands at `offset`.
pub open spec fn header_at(data: Seq<u8>, offset: int) -> bool {
    &&& 0 <= offset
    &&& offset + 6 <= data.len()
    &&& is_audio_header(data.subrange(offset, offset + 6))
}

/// How many audio block headers stand in a row at `offset`, `offset + 512` and
/// so on, counted up to `limit`.
pub open spec fn header_run(data: Seq<u8>, offset: int, limit: nat) -> nat
    decreases limit,
{
    if limit == 0 || !header_at(data, offset) {
        0
    } else {
        1 + header_run(data, offset + 512, (limit - 1) as nat)
    }
}

/// How well `offset` does as the start of the blocks: the length of the run of
/// headers there, where four are as good as more.
pub open spec fn start_score(data: Seq<u8>, offset: int) -> nat {
    let run = header_run(data, offset, 16);
    if run < 4 {
        run
    } else {
        4
    }
}

/// How many offsets are candidates: the multiples of 512 from 512 up to both
/// 0x10000 and the last place where a block header fits.
pub open spec fn candidates(data: Seq<u8>) -> nat {
    let last = if data.len() < 6 {
        0int
    } else {
        data.len() - 6
    };
    (if last < 0x10000 {
        last / 512
    } else {
        0x10000int / 512
    }) as nat
}

/// The score of a candidate, and zero of none.
pub open spec fn choice_score(data: Seq<u8>, choice: Option<int>) -> nat {
    match choice {
        Some(offset) => start_score(data, offset),
        None => 0,
    }
}

/// The earliest of the first `n` candidates with the largest score, if that
/// score is not zero.
pub open spec fn best_candidate(data: Seq<u8>, n: nat) -> Option<int>
    decreases n,
{
    if n == 0 {
        None
    } else {
        let earlier = best_candidate(data, (n - 1) as nat);
        if start_score(data, 512 * (n as int)) > choice_score(data, earlier) {
            Some(512 * (n as int))
        } else {
            earlier
        }
    }
}

/// Where the blocks of a file begin.
pub open spec fn audio_start(data: Seq<u8>) -> int {
    if data.len() == 0 || data[0] != 7 {
        0x600
    } else {
        match best_candidate(data, candidates(data)) {
            Some(offset) => offset,
            None => 0x1000,
        }
    }
}

/// The choice among the first `n` candidates: it is one of them, none scores
/// higher and none before it scores as high.
proof fn lemma_best_candidate(data: Seq<u8>, n: nat)
    ensures
        match best_candidate(data, n) {
            Some(best) => {
                &&& best % 512 == 0
                &&& 512 <= best <= 512 * n
                &&& start_score(data, best) > 0
                &&& forall|offset: int|
                    512 <= offset <= 512 * n && offset % 512 == 0 ==> {
                        &&& #[trigger] start_score(data, offset) <= start_score(data, best)
                        &&& offset < best ==> start_score(data, offset) < start_score(data, best)
                    }
            },
            None => forall|offset: int|
                512 <= offset <= 512 * n && offset % 512 == 0 ==> #[trigger] start_score(
                    data,
                    offset,
                ) == 0,
        },
    decreases n,
{
    if n > 0 {
        lemma_best_candidate(data, (n - 1) as nat);
    }
}

/// A score of four ends the search: no later candidate is chosen.
proof fn lemma_settled(data: Seq<u8>, k: nat, n: nat)
    requires
        k <= n,
        choice_score(data, best_candidate(data, k)) >= 4,
    ensures
        best_candidate(data, n) == best_candidate(data, k),
    decreases n - k,
{
    if k < n {
        lemma_settled(data, k, (n - 1) as nat);
    }
}

/// The blocks never begin in the first 512 bytes.
pub proof fn lemma_audio_start_bound(data: Seq<u8>)
    ensures
        512 <= audio_start(data),
{
    lemma_best_candidate(data, candidates(data));
}

/// Whether the blocks of a version 7 file are looked for at `offset`.
pub open spec fn is_candidate(data: Seq<u8>, offset: int) -> bool {
    512 <= offset <= 512 * candidates(data) && offset % 512 == 0
}

/// The blocks of a version 7 file begin at the earliest candidate with the
/// largest score, and at 0x1000 if every score is zero.
pub proof fn law_audio_start_is_earliest_best(data: Seq<u8>)
    requires
        data.len() > 0,
        data[0] == 7,
    ensures
        (forall|offset: int|
            is_candidate(data, offset) ==> #[trigger] start_score(data, offset) == 0)
            ==> audio_start(data) == 0x1000,
        (exists|offset: int|
            is_candidate(data, offset) && #[trigger] start_score(data, offset) > 0) ==> {
            &&& is_candidate(data, audio_start(data))
            &&& forall|offset: int|
                is_candidate(data, offset) ==> {
                    &&& #[trigger] start_score(data, offset) <= start_score(data, audio_start(data))
                    &&& offset < audio_start(data) ==> start_score(data, offset) < start_score(
                        data,
                        audio_start(data),
                    )
                }
        },
{
    lemma_best_candidate(data, candidates(data));
}

/// How many audio block headers stand in a row at `offset`, up to sixteen.
fn count_headers(data: &[u8], offset: usize) -> (valid: usize)
    requires
        offset <= SCAN_LIMIT,
    ensures
        valid == header_run(data@, offset as int, 16),
{
    let mut valid: usize = 0;
    while valid < RUN_LIMIT
        invariant
            offset <= SCAN_LIMIT,
            valid <= RUN_LIMIT,
            header_run(data@, offset as int, 16) == valid + header_run(
                data@,
                offset + 512 * valid,
                (16 - valid) as nat,
            ),
        decreases RUN_LIMIT - valid,
    {
        let block_start = offset + valid * DS2_BLOCK_SIZE;
        if block_start + DS2_BLOCK_HEADER_SIZE > data.len() {
            return valid;
        }
        if !is_ds2_audio_block_header(
            slice_subrange(data, block_start, block_start + DS2_BLOCK_HEADER_SIZE),
        ) {
            return valid;
        }
        valid += 1;
    }
    valid
}

/// Where the blocks of a file begin.
pub fn detect_ds2_audio_start(data: &[u8]) -> (start: usize)
    ensures
        start == audio_start(data@),
        512 <= start <= 0x10000,
{
    if data.len() == 0 || data[0] != 0x07 {
        return DS2_HEADER_SIZE;
    }
    let mut scan_end: usize = data.len().saturating_sub(DS2_BLOCK_HEADER_SIZE);
    if scan_end > SCAN_LIMIT {
        scan_end = SCAN_LIMIT;
    }
    let mut best_start: Option<usize> = None;
    let mut best_score: usize = 0;
    let mut offset: usize = DS2_BLOCK_SIZE;
    let ghost mut n: nat = 0;
    while offset <= scan_end
        invariant
            data@.len() > 0,
            data@[0] == 7,
            scan_end <= SCAN_LIMIT,
            scan_end == (if data@.len() < 6 {
                0int
            } else if data@.len() - 6 < 0x10000 {
                data@.len() - 6
            } else {
                0x10000int
            }),
            n <= candidates(data@),
            offset == 512 * (n + 1),
            best_score < 4,
            best_score == choice_score(data@, best_candidate(data@, n)),
            match best_start {
                Some(best) => best_candidate(data@, n) == Some(best as int) && 512 <= best
                    <= SCAN_LIMIT,
                None => best_candidate(data@, n) is None,
            },
        decreases scan_end + 512 - offset,
    {
        let valid = count_headers(data, offset);
        assert(n + 1 <= candidates(data@));
        if valid >= RUN_SETTLED {
            proof {
                lemma_settled(data@, (n + 1) as nat, candidates(data@));
            }
            return offset;
        }
        if valid > best_score {
            best_start = Some(offset);
            best_score = valid;
        }
        offset += DS2_BLOCK_SIZE;
        proof {
            n = n + 1;
        }
    }
    assert(n == candidates(data@));
    match best_start {
        Some(best) => best,
        None => FALLBACK_START,
    }
}

/// How many whole blocks stand behind the file header.
pub open spec fn block_count(data: Seq<u8>, header_size: int) -> nat {
    if data.len() < header_size {
        0
    } else {
        ((data.len() - header_size) / 512) as nat
    }
}

/// Where block `bi` begins.
pub open spec fn block_start(header_size: int, bi: int) -> int {
    header_size + bi * 512
}

/// How many frames begin in block `bi`.
pub open spec fn block_frames(data: Seq<u8>, header_size: int, bi: int) -> int {
    data[block_start(header_size, bi) + 2] as int
}

/// The mode of a file in whose whole blocks no frame begins: 6 or 7 if the first
/// block is there and says so, and zero otherwise.
pub open spec fn frameless_mode(data: Seq<u8>, header_size: int) -> u8 {
    if block_count(data, header_size) == 0 {
        0
    } else if data[header_size + 4] == 6 || data[header_size + 4] == 7 {
        data[header_size + 4]
    } else {
        0
    }
}

/// The mode of the first whole block from `bi` on in which a frame begins, or
/// else the mode of a file without frames.
pub open spec fn mode_from(data: Seq<u8>, header_size: int, bi: nat) -> u8
    decreases block_count(data, header_size) - bi,
{
    if bi >= block_count(data, header_size) {
        frameless_mode(data, header_size)
    } else if block_frames(data, header_size, bi as int) > 0 {
        data[block_start(header_size, bi as int) + 4]
    } else {
        mode_from(data, header_size, bi + 1)
    }
}

/// The recording mode of a file whose blocks begin at `header_size`.
pub open spec fn format_type(data: Seq<u8>, header_size: int) -> u8 {
    mode_from(data, header_size, 0)
}

/// The number of whole blocks behind the file header.
pub(crate) fn count_blocks(data: &[u8], header_size: usize) -> (n: usize)
    ensures
        n == block_count(data@, header_size as int),
        n > 0 ==> header_size + n * 512 <= data.len(),
{
    data.len().saturating_sub(header_size) / DS2_BLOCK_SIZE
}

/// The recording mode of a file whose blocks begin at `header_size`: that of
/// the first whole block in which a frame begins. Without frames it is 6 or 7 if
/// the first block is whole and says so, and otherwise zero.
pub fn detect_ds2_format_type(data: &[u8], header_size: usize) -> (mode: u8)
    ensures
        mode == format_type(data@, header_size as int),
{
    let num_blocks = count_blocks(data, header_size);
    let mut bi: usize = 0;
    while bi < num_blocks
        invariant
            num_blocks == block_count(data@, header_size as int),
            num_blocks > 0 ==> header_size + num_blocks * 512 <= data.len(),
            bi <= num_blocks,
            format_type(data@, header_size as int) == mode_from(
                data@,
                header_size as int,
                bi as nat,
            ),
        decreases num_blocks - bi,
    {
        let bstart = header_size + bi * DS2_BLOCK_SIZE;
        if data[bstart + 2] > 0 {
            return data[bstart + 4];
        }
        bi += 1;
    }
    if num_blocks > 0 && (data[header_size + 4] == 6 || data[header_size + 4] == 7) {
        data[header_size + 4]
    } else {
        0
    }
}

/// How many frames begin in the first `n` blocks.
pub open spec fn frame_total(data: Seq<u8>, header_size: int, n: nat) -> int
    decreases n,
{
    if n == 0 {
        0
    } else {
        frame_total(data, header_size, (n - 1) as nat) + block_frames(data, header_size, n - 1)
    }
}

/// The frame counts of the blocks are bytes.
pub proof fn lemma_frame_total_bound(data: Seq<u8>, header_size: int, a: nat, b: nat)
    requires
        a <= b,
    ensures
        0 <= frame_total(data, header_size, a) <= frame_total(data, header_size, b),
        frame_total(data, header_size, b) - frame_total(data, header_size, a) <= 255 * (b - a),
    decreases b,
{
    if a < b {
        lemma_frame_total_bound(data, header_size, a, (b - 1) as nat);
    } else if a > 0 {
        lemma_frame_total_bound(data, header_size, (a - 1) as nat, (a - 1) as nat);
    }
}

/// The number of frames that begin in the first `num_blocks` blocks.
pub(crate) fn count_frames(data: &[u8], header_size: usize, num_blocks: usize) -> (total: usize)
    requires
        num_blocks > 0 ==> header_size + num_blocks * 512 <= data.len(),
    ensures
        total == frame_total(data@, header_size as int, num_blocks as nat),
{
    let mut total: usize = 0;
    let mut bi: usize = 0;
    while bi < num_blocks
        invariant
            num_blocks > 0 ==> header_size + num_blocks * 512 <= data.len(),
            bi <= num_blocks,
            total == frame_total(data@, header_size as int, bi as nat),
            total <= 255 * bi,
        decreases num_blocks - bi,
    {
        total += data[header_size + bi * DS2_BLOCK_SIZE + 2] as usize;
        bi += 1;
    }
    total
}

/// The payloads of the first `n` blocks, one behind the other.
pub open spec fn payload(data: Seq<u8>, header_size: int, n: nat) -> Seq<u8>
    decreases n,
{
    if n == 0 {
        Seq::empty()
    } else {
        payload(data, header_size, (n - 1) as nat) + data.subrange(
            block_start(header_size, n - 1) + 6,
            block_start(header_size, n as int),
        )
    }
}

/// Every block contributes 506 bytes.
pub proof fn lemma_payload_len(data: Seq<u8>, header_size: int, n: nat)
    requires
        header_size >= 0,
        n > 0 ==> header_size + n * 512 <= data.len(),
    ensures
        payload(data, header_size, n).len() == n * 506,
    decreases n,
{
    if n > 0 {
        lemma_payload_len(data, header_size, (n - 1) as nat);
    }
}

/// The payloads of the first `num_blocks` blocks, one behind the other.
pub(crate) fn collect_payload(data: &[u8], header_size: usize, num_blocks: usize) -> (raw: Vec<u8>)
    requires
        num_blocks > 0 ==> header_size + num_blocks * 512 <= data.len(),
    ensures
        raw@ == payload(data@, header_size as int, num_blocks as nat),
        raw@.len() == num_blocks * 506,
{
    let mut raw: Vec<u8> = Vec::new();
    let mut bi: usize = 0;
    while bi < num_blocks
        invariant
            num_blocks > 0 ==> header_size + num_blocks * 512 <= data.len(),
            bi <= num_blocks,
            raw@ == payload(data@, header_size as int, bi as nat),
        decreases num_blocks - bi,
    {
        let bstart = header_size + bi * DS2_BLOCK_SIZE;
        let part = slice_subrange(data, bstart + DS2_BLOCK_HEADER_SIZE, bstart + DS2_BLOCK_SIZE);
        raw.extend_from_slice(part);
        bi += 1;
        assert(raw@ =~= payload(data@, header_size as int, bi as nat));
    }
    proof {
        lemma_payload_len(data@, header_size as int, num_blocks as nat);
    }
    raw
}

} // verus!
