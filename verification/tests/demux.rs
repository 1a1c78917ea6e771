use dss_codec::demux::container::{
    detect_ds2_audio_start, detect_ds2_format_type, is_ds2_audio_block_header,
};
use dss_codec::demux::ds2::{
    can_demux_ds2, demux_ds2, DemuxedDs2, Ds2Qp7Segment, Ds2QpSegment, Ds2QpStreamDemuxer,
    Ds2SpStreamDemuxer,
};
use dss_codec::demux::{detect_format, AudioFormat};
use dss_codec::error::DecodeError;

const DS2_HEADER_SIZE: usize = 0x600;
const DS2_BLOCK_SIZE: usize = 512;
const DS2_BLOCK_HEADER_SIZE: usize = 6;
const DS2_QP_FRAME_SIZE: usize = 56;

fn make_ds2_file(mode: u8, frame_count: u8, payload_pattern: u8) -> Vec<u8> {
    let mut data = vec![0u8; DS2_HEADER_SIZE];
    data[..4].copy_from_slice(b"\x03ds2");

    let mut block = [0u8; DS2_BLOCK_SIZE];
    block[2] = frame_count;
    block[4] = mode;
    for (i, byte) in block[DS2_BLOCK_HEADER_SIZE..].iter_mut().enumerate() {
        *byte = payload_pattern.wrapping_add(i as u8);
    }

    data.extend_from_slice(&block);
    data
}

#[test]
fn test_ds2_sp_stream_demux_matches_batch() {
    let data = make_ds2_file(0, 4, 0x10);
    let expected = match demux_ds2(&data).unwrap() {
        DemuxedDs2::Sp { packets, .. } => packets,
        _ => panic!("expected DS2 SP packets"),
    };

    let mut demuxer = Ds2SpStreamDemuxer::new();
    let mut actual = Vec::new();
    for chunk in data.chunks(137) {
        actual.extend(demuxer.push(chunk).unwrap());
    }
    actual.extend(demuxer.finish().unwrap());

    assert_eq!(actual, expected);
}

#[test]
fn test_ds2_qp_stream_demux_matches_batch() {
    let data = make_ds2_file(6, 3, 0x40);
    let expected = match demux_ds2(&data).unwrap() {
        DemuxedDs2::QpSegments {
            segments,
            total_frames,
        } => segments
            .into_iter()
            .flat_map(|seg| seg.stream.into_iter())
            .collect::<Vec<_>>()[..total_frames * DS2_QP_FRAME_SIZE]
            .chunks(DS2_QP_FRAME_SIZE)
            .map(|chunk| chunk.to_vec())
            .collect::<Vec<_>>(),
        _ => panic!("expected DS2 QP stream"),
    };

    let mut demuxer = Ds2QpStreamDemuxer::new();
    let mut actual = Vec::new();
    for chunk in data.chunks(113) {
        actual.extend(demuxer.push(chunk).unwrap());
    }
    actual.extend(demuxer.finish().unwrap());

    assert_eq!(actual, expected);
}

#[test]
fn test_ds2_qp_stream_demux_lenient_batching() {
    let data = make_ds2_file(6, 3, 0x55);
    let mut demuxer = Ds2QpStreamDemuxer::new();
    for chunk in data.chunks(97) {
        let _ = demuxer.push(chunk).unwrap();
    }

    assert_eq!(demuxer.finish().unwrap().len(), 3);
}

/// A block of a version 3 file: header byte 1, frame count, mode, payload.
fn block(offset: u8, frames: u8, mode: u8, payload: &[u8]) -> Vec<u8> {
    let mut block = vec![0u8; DS2_BLOCK_SIZE];
    block[1] = offset;
    block[2] = frames;
    block[4] = mode;
    block[DS2_BLOCK_HEADER_SIZE..DS2_BLOCK_HEADER_SIZE + payload.len()].copy_from_slice(payload);
    block
}

fn file(blocks: &[Vec<u8>]) -> Vec<u8> {
    let mut data = vec![0u8; DS2_HEADER_SIZE];
    data[..4].copy_from_slice(b"\x03ds2");
    for block in blocks {
        data.extend_from_slice(block);
    }
    data
}

/// A version 7 file of `len` bytes with audio block headers at some offsets.
fn version_7_file(len: usize, headers: &[usize]) -> Vec<u8> {
    let mut data = vec![0u8; len];
    data[..4].copy_from_slice(b"\x07ds2");
    for &at in headers {
        data[at..at + 6].copy_from_slice(&[0x0f, 3, 2, 0xff, 6, 0xff]);
    }
    data
}

fn sp_packets(data: &[u8]) -> Vec<Vec<u8>> {
    match demux_ds2(data).unwrap() {
        DemuxedDs2::Sp {
            packets,
            total_frames,
        } => {
            assert_eq!(packets.len(), total_frames);
            packets
        }
        _ => panic!("expected DS2 SP packets"),
    }
}

fn qp_segments(data: &[u8]) -> (Vec<Ds2QpSegment>, usize) {
    match demux_ds2(data).unwrap() {
        DemuxedDs2::QpSegments {
            segments,
            total_frames,
        } => (segments, total_frames),
        _ => panic!("expected DS2 QP segments"),
    }
}

fn qp7_segments(data: &[u8]) -> (Vec<Ds2Qp7Segment>, usize) {
    match demux_ds2(data).unwrap() {
        DemuxedDs2::Qp7Segments {
            segments,
            total_frames,
        } => (segments, total_frames),
        _ => panic!("expected DS2 QP7 segments"),
    }
}

#[test]
fn audio_block_headers_are_recognised() {
    assert!(is_ds2_audio_block_header(&[0x0f, 0, 1, 0xff, 0, 0xff]));
    assert!(is_ds2_audio_block_header(&[0x0f, 9, 7, 0xff, 7, 0xff, 1]));
    assert!(!is_ds2_audio_block_header(&[0x0f, 0, 1, 0xff, 0]));
    assert!(!is_ds2_audio_block_header(&[0x0e, 0, 1, 0xff, 0, 0xff]));
    assert!(!is_ds2_audio_block_header(&[0x0f, 0, 0, 0xff, 0, 0xff]));
    assert!(!is_ds2_audio_block_header(&[0x0f, 0, 1, 0xff, 4, 0xff]));
    assert!(!is_ds2_audio_block_header(&[0x0f, 0, 1, 0xff, 5, 0xff]));
    assert!(!is_ds2_audio_block_header(&[0x0f, 0, 1, 0xff, 8, 0xff]));
}

#[test]
fn audio_starts_behind_the_fixed_header_before_version_7() {
    assert_eq!(detect_ds2_audio_start(&[]), 0x600);
    assert_eq!(detect_ds2_audio_start(b"\x03ds2"), 0x600);
    let mut data = version_7_file(0x4000, &[0x800, 0xa00, 0xc00, 0xe00]);
    assert_eq!(detect_ds2_audio_start(&data), 0x800);
    data[0] = 1;
    assert_eq!(detect_ds2_audio_start(&data), 0x600);
}

#[test]
fn audio_of_version_7_starts_at_the_earliest_best_run() {
    // No header at all.
    assert_eq!(detect_ds2_audio_start(&version_7_file(0x4000, &[])), 0x1000);
    assert_eq!(detect_ds2_audio_start(b"\x07ds2"), 0x1000);
    // The longer of two short runs.
    let data = version_7_file(0x4000, &[0x400, 0x1000, 0x1200]);
    assert_eq!(detect_ds2_audio_start(&data), 0x1000);
    // The earlier of two equal runs.
    let data = version_7_file(0x4000, &[0x400, 0x600, 0x1000, 0x1200]);
    assert_eq!(detect_ds2_audio_start(&data), 0x400);
    // Four in a row are as good as five.
    let data = version_7_file(
        0x4000,
        &[0x200, 0x400, 0x600, 0x800, 0x1000, 0x1200, 0x1400, 0x1600, 0x1800],
    );
    assert_eq!(detect_ds2_audio_start(&data), 0x200);
    // Nothing is looked for off the grid or behind 0x10000.
    let data = version_7_file(0x12000, &[0x210, 0x10200, 0x10400, 0x10600, 0x10800]);
    assert_eq!(detect_ds2_audio_start(&data), 0x1000);
    let data = version_7_file(0x12000, &[0x10000, 0x10200, 0x10400, 0x10600]);
    assert_eq!(detect_ds2_audio_start(&data), 0x10000);
}

#[test]
fn mode_is_that_of_the_first_block_with_frames() {
    let data = file(&[block(0, 0, 6, &[]), block(0, 0, 7, &[]), block(0, 1, 1, &[])]);
    assert_eq!(detect_ds2_format_type(&data, 0x600), 1);
    // Without frames the first block tells modes 6 and 7 once it is complete.
    let data = file(&[block(0, 0, 6, &[]), block(0, 0, 7, &[])]);
    assert_eq!(detect_ds2_format_type(&data, 0x600), 6);
    assert_eq!(detect_ds2_format_type(&data[..0x800], 0x600), 6);
    assert_eq!(detect_ds2_format_type(&data[..0x7ff], 0x600), 0);
    assert_eq!(detect_ds2_format_type(&data[..0x604], 0x600), 0);
    assert_eq!(detect_ds2_format_type(&data, 0x800), 7);
    assert_eq!(detect_ds2_format_type(&data, usize::MAX), 0);
    for mode in [0, 1, 5, 8, 9, 255] {
        let data = file(&[block(0, 0, mode, &[]), block(0, 0, 6, &[])]);
        assert_eq!(detect_ds2_format_type(&data, 0x600), 0);
    }
}

#[test]
fn formats_have_rates_and_extensions() {
    let all = [
        (AudioFormat::DssSp, 11025, "dss"),
        (AudioFormat::Ds2Sp, 12000, "ds2"),
        (AudioFormat::Ds2Qp, 16000, "ds2"),
        (AudioFormat::Ds2Qp7, 16000, "ds2"),
        (AudioFormat::GrundigSp, 16000, "dss"),
    ];
    for (format, rate, extension) in all {
        assert_eq!(format.native_sample_rate(), rate);
        assert_eq!(format.extension(), extension);
    }
}

#[test]
fn formats_are_detected() {
    assert_eq!(detect_format(b"\x02ds"), None);
    assert_eq!(detect_format(b"\x02dss"), Some(AudioFormat::DssSp));
    assert_eq!(detect_format(b"\x03dss"), Some(AudioFormat::DssSp));
    assert_eq!(detect_format(b"\x06dss"), Some(AudioFormat::GrundigSp));
    assert_eq!(detect_format(b"\x04dss"), None);
    assert_eq!(detect_format(b"\x03ds2"), None);
    for (mode, format) in [
        (0, AudioFormat::Ds2Sp),
        (1, AudioFormat::Ds2Sp),
        (6, AudioFormat::Ds2Qp),
        (7, AudioFormat::Ds2Qp7),
        (8, AudioFormat::Ds2Sp),
    ] {
        let data = make_ds2_file(mode, 1, 0);
        assert_eq!(detect_format(&data), Some(format));
        assert_eq!(detect_format(&data[..0x604]), None);
        // Before the block is complete its mode does not count.
        assert_eq!(detect_format(&data[..0x605]), Some(AudioFormat::Ds2Sp));
        assert_eq!(detect_format(&data[..0x7ff]), Some(AudioFormat::Ds2Sp));
    }
    // A version 7 file tells its format behind its own header.
    let data = version_7_file(0x1200, &[]);
    assert_eq!(detect_format(&data[..0x1004]), None);
    assert_eq!(detect_format(&data[..0x1005]), Some(AudioFormat::Ds2Sp));
}

#[test]
fn detection_is_settled_by_a_block_with_frames() {
    let mut data = make_ds2_file(6, 1, 0);
    assert_eq!(detect_format(&data), Some(AudioFormat::Ds2Qp));
    data.extend_from_slice(&block(0, 3, 7, &[]));
    assert_eq!(detect_format(&data), Some(AudioFormat::Ds2Qp));
}

#[test]
fn other_files_are_refused() {
    for data in [&b""[..], b"\x03ds", b"\x02dss", b"\x05ds2"] {
        assert!(can_demux_ds2(data));
        match demux_ds2(data) {
            Err(DecodeError::NotDs2(name)) => assert_eq!(name, "<bytes>"),
            _ => panic!("expected a refusal"),
        }
    }
}

#[test]
fn sp_packets_have_exact_bytes() {
    let data = make_ds2_file(0, 3, 0x10);
    let payload: Vec<u8> = data[DS2_HEADER_SIZE + 6..].to_vec();
    let packets = sp_packets(&data);
    assert_eq!(packets.len(), 3);

    let mut plain = payload[..42].to_vec();
    plain[40] = 0;
    assert_eq!(packets[0], plain);

    let chunk = &payload[42..82];
    let mut swapped = vec![0u8; 42];
    for i in (0..40).step_by(2) {
        swapped[i] = chunk[i + 1];
    }
    swapped[1] = payload[40];
    for i in (3..42).step_by(2) {
        swapped[i] = chunk[i - 3];
    }
    assert_eq!(packets[1], swapped);
    assert_eq!(packets[1][..6], [0x3b, 0x38, 0x3d, 0x3a, 0x3f, 0x3c]);
    assert_eq!(packets[1][38..], [0x61, 0x5e, 0, 0x60]);

    let mut third = payload[82..124].to_vec();
    third[40] = 0;
    assert_eq!(packets[2], third);
}

#[test]
fn sp_files_can_begin_with_a_swapped_packet() {
    let mut data = make_ds2_file(1, 2, 0x10);
    data[DS2_HEADER_SIZE] = 0x80;
    let payload: Vec<u8> = data[DS2_HEADER_SIZE + 6..].to_vec();
    let packets = sp_packets(&data);
    assert_eq!(packets[0][0], payload[1]);
    assert_eq!(packets[0][1], 0);
    assert_eq!(packets[0][3], payload[0]);
    assert_eq!(packets[1][..40], payload[40..80]);

    let mut demuxer = Ds2SpStreamDemuxer::new();
    assert_eq!(demuxer.push(&data).unwrap(), packets);
}

#[test]
fn last_sp_packet_is_padded_with_zeros() {
    // Twelve packets need 492 bytes, the thirteenth has 14 left.
    let data = make_ds2_file(0, 13, 1);
    let packets = sp_packets(&data);
    assert_eq!(packets.len(), 13);
    assert_eq!(packets[12][..14], data[DS2_HEADER_SIZE + 6 + 492..]);
    assert_eq!(packets[12][14..], [0u8; 28]);

    // A fourteenth would begin behind the end.
    assert!(can_demux_ds2(&data));
    assert!(!can_demux_ds2(&make_ds2_file(0, 14, 1)));
    // There is no first byte behind the header.
    assert!(!can_demux_ds2(&data[..DS2_HEADER_SIZE]));
    assert!(can_demux_ds2(&data[..DS2_HEADER_SIZE + 1]));
    assert!(sp_packets(&data[..DS2_HEADER_SIZE + 1]).is_empty());
}

#[test]
fn sp_stream_gives_the_packets_of_the_file_in_any_pieces() {
    let mut blocks = Vec::new();
    for k in 0..5u8 {
        let payload: Vec<u8> = (0..506).map(|i| (i as u8).wrapping_mul(7).wrapping_add(k)).collect();
        blocks.push(block(0, 12, 0, &payload));
    }
    let data = file(&blocks);
    let expected = sp_packets(&data);
    for size in [1, 41, 511, 512, 513, 4096] {
        let mut demuxer = Ds2SpStreamDemuxer::new();
        let mut actual = Vec::new();
        for chunk in data.chunks(size) {
            assert!(demuxer.has_room(chunk.len()));
            actual.extend(demuxer.push(chunk).unwrap());
        }
        actual.extend(demuxer.finish_lenient().unwrap());
        assert_eq!(actual, expected);
        assert!(demuxer.finish().unwrap().is_empty());
    }
}

#[test]
fn sp_stream_says_what_is_missing() {
    fn truncated(demuxer: &mut Ds2SpStreamDemuxer) -> String {
        match demuxer.finish() {
            Err(DecodeError::Truncated(part)) => part,
            _ => panic!("expected a truncation"),
        }
    }
    let mut demuxer = Ds2SpStreamDemuxer::new();
    assert!(demuxer.finish().unwrap().is_empty());
    assert!(demuxer.finish_lenient().unwrap().is_empty());

    let data = make_ds2_file(0, 13, 1);
    assert!(demuxer.push(&data[..100]).unwrap().is_empty());
    assert_eq!(truncated(&mut demuxer), "DS2 header");
    assert!(matches!(
        demuxer.finish_lenient(),
        Err(DecodeError::Truncated(_))
    ));
    assert!(demuxer.push(&data[100..1600]).unwrap().is_empty());
    assert_eq!(truncated(&mut demuxer), "DS2 block");
    assert_eq!(demuxer.push(&data[1600..]).unwrap().len(), 12);
    assert_eq!(truncated(&mut demuxer), "DS2 SP frame");
    let last = demuxer.finish_lenient().unwrap();
    assert_eq!(last, sp_packets(&data)[12..]);
}

#[test]
fn qp_recording_without_cuts_is_one_segment() {
    // Nine frames fill 504 bytes; the tenth goes on in the next block, whose
    // own first frame begins 54 bytes behind.
    let first: Vec<u8> = (0..506).map(|i| i as u8).collect();
    let second: Vec<u8> = (0..506).map(|i| !(i as u8)).collect();
    let data = file(&[block(3, 10, 6, &first), block(30, 2, 6, &second)]);
    let (segments, total) = qp_segments(&data);
    assert_eq!(total, 12);
    assert_eq!(segments.len(), 1);
    assert_eq!(segments[0].total_frames, 12);
    assert!(!segments[0].reset_before);
    let mut stream = first.clone();
    stream.extend_from_slice(&second);
    assert_eq!(segments[0].stream, stream[..672]);
}

#[test]
fn qp_recording_is_cut_where_frames_do_not_go_on() {
    let first: Vec<u8> = (0..506).map(|i| i as u8).collect();
    let second: Vec<u8> = (0..506).map(|i| (i as u8) ^ 0x55).collect();
    let data = file(&[
        block(3, 2, 6, &first),
        block(5, 3, 6, &second),
        block(3, 0, 6, &first),
    ]);
    let (segments, total) = qp_segments(&data);
    assert_eq!(total, 5);
    assert_eq!(
        segments,
        vec![
            Ds2QpSegment {
                stream: first[..112].to_vec(),
                total_frames: 2,
                reset_before: false,
            },
            Ds2QpSegment {
                stream: second[4..172].to_vec(),
                total_frames: 3,
                reset_before: true,
            },
        ]
    );
}

#[test]
fn qp_segment_ends_with_the_payload() {
    let data = make_ds2_file(6, 10, 0);
    let (segments, total) = qp_segments(&data);
    assert_eq!(total, 10);
    assert_eq!(segments[0].stream.len(), 506);
    assert_eq!(segments[0].total_frames, 10);

    let mut demuxer = Ds2QpStreamDemuxer::new();
    demuxer.push(&data).unwrap();
    let frames = demuxer.finish_lenient().unwrap();
    assert_eq!(frames.len(), 10);
    assert!(frames[..9].iter().all(|frame| frame.len() == 56));
    assert_eq!(frames[9].len(), 2);
}

#[test]
fn qp_without_frames_has_no_segments() {
    let (segments, total) = qp_segments(&make_ds2_file(6, 0, 9));
    assert!(segments.is_empty());
    assert_eq!(total, 0);
    assert!(sp_packets(&make_ds2_file(9, 0, 9)).is_empty());
    // Modes above 7 are read like mode 6.
    assert_eq!(qp_segments(&make_ds2_file(9, 2, 9)).0[0].total_frames, 2);
}

#[test]
fn qp7_records_are_short_or_long() {
    let mut payload = vec![0u8; 80];
    for (i, byte) in payload.iter_mut().enumerate() {
        *byte = i as u8;
    }
    payload[1] = 0x7f; // short: 0..12
    payload[13] = 0x80; // long: 12..68
    payload[69] = 0x00; // short: 68..80
    let data = file(&[block(3, 3, 7, &payload), block(0, 0, 7, &[]), block(4, 1, 7, &payload)]);
    let (segments, total) = qp7_segments(&data);
    assert_eq!(total, 4);
    assert_eq!(
        segments,
        vec![
            Ds2Qp7Segment {
                records: vec![
                    payload[..12].to_vec(),
                    payload[12..68].to_vec(),
                    payload[68..].to_vec(),
                ],
                total_frames: 3,
                reset_before: false,
            },
            Ds2Qp7Segment {
                records: vec![payload[2..14].to_vec()],
                total_frames: 1,
                reset_before: true,
            },
        ]
    );

    let mut demuxer = Ds2QpStreamDemuxer::new();
    demuxer.push(&data).unwrap();
    let frames = demuxer.finish().unwrap();
    assert_eq!(frames.len(), 4);
    assert_eq!(frames[3], payload[2..14]);
}

#[test]
fn qp7_records_go_on_where_the_block_before_ends() {
    // The second block says that its first record begins at its start, but the
    // last record of the first block reaches into it.
    let mut first = vec![0u8; 506];
    for at in [0, 56, 112, 168, 224, 280, 336, 392, 448] {
        first[at + 1] = 0x80;
    }
    first[505] = 0x80;
    let second: Vec<u8> = (0..506).map(|i| i as u8 & 0x7f).collect();
    let data = file(&[block(3, 10, 7, &first), block(3, 1, 7, &second)]);
    let (segments, total) = qp7_segments(&data);
    assert_eq!(total, 11);
    assert_eq!(segments.len(), 1);
    assert_eq!(segments[0].records[9][2..], second[..54]);
    assert_eq!(segments[0].records[10], second[54..66]);
}

#[test]
fn qp7_says_where_a_record_is_missing() {
    let mut payload = vec![0u8; 506];
    for at in (0..504).step_by(56) {
        payload[at + 1] = 0x80;
    }
    let data = file(&[block(3, 11, 7, &payload)]);
    match demux_ds2(&data) {
        Err(DecodeError::Truncated(part)) => {
            assert_eq!(part, "incomplete format-7 record at byte 504")
        }
        _ => panic!("expected a truncation"),
    }
    let data = file(&[block(255, 1, 7, &payload), block(255, 2, 7, &[0; 506])]);
    match demux_ds2(&data) {
        Err(DecodeError::Truncated(part)) => {
            assert_eq!(part, "incomplete format-7 record at byte 1010")
        }
        _ => panic!("expected a truncation"),
    }
    let data = file(&[block(0, 43, 7, &[0; 506])]);
    match demux_ds2(&data) {
        Err(DecodeError::Truncated(part)) => {
            assert_eq!(part, "incomplete format-7 record at byte 504")
        }
        _ => panic!("expected a truncation"),
    }
    // Forty-two short records from byte 2 on end with the payload.
    let data = file(&[block(4, 43, 7, &[0; 506])]);
    match demux_ds2(&data) {
        Err(DecodeError::Truncated(part)) => {
            assert_eq!(part, "incomplete format-7 selector at byte 506")
        }
        _ => panic!("expected a truncation"),
    }
}

#[test]
fn qp_stream_of_other_files() {
    let mut demuxer = Ds2QpStreamDemuxer::new();
    assert!(matches!(demuxer.finish(), Err(DecodeError::NotDs2(_))));
    demuxer.push(&make_ds2_file(0, 2, 7)).unwrap();
    assert!(demuxer.finish().unwrap().is_empty());
}

#[test]
fn plain_sp_packets_lend_their_last_but_one_byte() {
    let data = make_ds2_file(0, 12, 0x31);
    let payload: Vec<u8> = data[DS2_HEADER_SIZE + 6..].to_vec();
    let packets = sp_packets(&data);
    for i in (0..12).step_by(2) {
        let a = &payload[i / 2 * 82..i / 2 * 82 + 42];
        let b = &payload[i / 2 * 82 + 42..i / 2 * 82 + 82];
        assert_eq!(packets[i][..40], a[..40]);
        assert_eq!(packets[i][40..], [0, a[41]]);
        assert_eq!(packets[i + 1][1], a[40]);
        assert_eq!(packets[i + 1][40], 0);
        for j in 0..20 {
            assert_eq!(packets[i + 1][2 * j], b[2 * j + 1]);
            assert_eq!(packets[i + 1][2 * j + 3], b[2 * j]);
        }
    }
}

#[test]
fn qp_segments_announce_as_many_frames_as_the_blocks() {
    let payload = vec![7u8; 506];
    // The frames of the last block begin two bytes before the payload ends.
    let data = file(&[
        block(3, 2, 6, &payload),
        block(9, 0, 6, &payload),
        block(8, 5, 6, &payload),
        block(255, 9, 6, &payload),
    ]);
    let (segments, total) = qp_segments(&data);
    assert_eq!(total, 16);
    let frames: Vec<usize> = segments.iter().map(|segment| segment.total_frames).collect();
    assert_eq!(frames, vec![2, 5, 9]);
    assert_eq!(segments[2].stream.len(), 2);
}
