use dss_codec::demux::AudioFormat;
use dss_codec::error::DecodeError;
use dss_codec::streaming::{
    DecodeStep, DecryptStep, DecryptStreamer, DecryptingDecoderStreamer, StreamStep,
    StreamingDecoder,
};

/// The magic number of encrypted input in these tests.
const MAGIC: &[u8] = b"\x03enc";

fn make_ds2_header_only(mode: u8) -> Vec<u8> {
    let mut data = vec![0u8; 0x600 + 512];
    data[..4].copy_from_slice(b"\x03ds2");
    data[0x600 + 4] = mode;
    data
}

fn make_ds2_frames(mode: u8, frames: u8) -> Vec<u8> {
    let mut data = make_ds2_header_only(mode);
    data[0x602] = frames;
    for i in 0..506 {
        data[0x606 + i] = i as u8 & 0x7f;
    }
    data
}

#[test]
fn test_streaming_decoder_detects_only_when_enough_bytes_arrive() {
    let data = make_ds2_header_only(6);
    let mut decoder = StreamingDecoder::new();

    let first = decoder.push(&data[..4]).unwrap();
    assert!(first.is_empty());
    assert_eq!(decoder.format(), None);
    assert_eq!(decoder.native_rate(), None);

    let second = decoder.push(&data[4..]).unwrap();
    assert!(second.is_empty());
    assert_eq!(decoder.format(), Some(AudioFormat::Ds2Qp));
    assert_eq!(decoder.native_rate(), Some(16000));
}

#[test]
fn test_streaming_decoder_truncated_header_on_finish() {
    let mut decoder = StreamingDecoder::new();
    let _ = decoder.push(b"\x03ds2").unwrap();

    let err = decoder.finish().unwrap_err();
    assert!(matches!(err, DecodeError::Truncated(_)));
}

#[test]
fn test_streaming_decoder_push_after_finish_errors() {
    let mut decoder = StreamingDecoder::new();
    let _ = decoder.finish().unwrap();

    let err = decoder.push(b"\x03ds2").unwrap_err();
    assert!(matches!(err, DecodeError::AlreadyFinished));
}

#[test]
fn decrypt_streamer_passes_plain_ds2_through() {
    let mut decryptor = DecryptStreamer::new(None, MAGIC);
    let plain = decryptor.push(b"\x03ds2rest").unwrap();
    assert_eq!(plain, DecryptStep::Plain(b"\x03ds2rest".to_vec()));
    assert_eq!(decryptor.finish().unwrap(), DecryptStep::Plain(Vec::new()));
}

#[test]
fn decrypt_streamer_passes_plain_dss_through() {
    let mut decryptor = DecryptStreamer::new(None, MAGIC);
    let plain = decryptor.push(b"\x02dssrest").unwrap();
    assert_eq!(plain, DecryptStep::Plain(b"\x02dssrest".to_vec()));
    assert_eq!(decryptor.finish().unwrap(), DecryptStep::Plain(Vec::new()));
}

#[test]
fn decrypt_streamer_rejects_unsupported_prefix() {
    let mut decryptor = DecryptStreamer::new(None, MAGIC);
    let err = decryptor.push(b"nope").unwrap_err();
    assert!(matches!(err, DecodeError::UnsupportedFormat(_)));
}

#[test]
fn decrypting_decoder_streamer_plain_ds2_decodes() {
    let data = make_ds2_header_only(6);
    let mut decoder = DecryptingDecoderStreamer::new(None, MAGIC);
    let samples = decoder.push(&data).unwrap();
    assert!(samples.is_empty());
    assert_eq!(decoder.format(), Some(AudioFormat::Ds2Qp));
    assert_eq!(decoder.native_rate(), Some(16000));
    assert!(decoder.finish().unwrap().is_empty());
}

#[test]
fn decrypting_decoder_streamer_push_after_finish_errors() {
    let mut decoder = DecryptingDecoderStreamer::new(None, MAGIC);
    let _ = decoder.finish().unwrap();
    let err = decoder.push(b"\x03ds2").unwrap_err();
    assert!(matches!(err, DecodeError::AlreadyFinished));
}

#[test]
fn streaming_decoder_hands_out_sp_packets() {
    let data = make_ds2_frames(0, 3);
    let mut decoder = StreamingDecoder::default();
    assert!(decoder.has_room(data.len()));
    assert_eq!(decoder.push(&data[..1540]).unwrap(), DecodeStep::Idle);
    let step = decoder.push(&data[1540..]).unwrap();
    match &step {
        DecodeStep::Ds2SpFrames(frames) => {
            assert_eq!(frames.len(), 3);
            assert_eq!(frames[0][..40], data[0x606..0x606 + 40]);
        }
        _ => panic!("expected packets"),
    }
    assert!(!step.is_empty());
    assert_eq!(decoder.format(), Some(AudioFormat::Ds2Sp));
    assert_eq!(decoder.native_rate(), Some(12000));
    assert!(decoder.can_end());
    assert_eq!(decoder.finish().unwrap(), DecodeStep::Ds2SpFrames(Vec::new()));
    // Ending again does nothing.
    assert_eq!(decoder.finish().unwrap(), DecodeStep::Idle);
    assert_eq!(decoder.push(b"x").unwrap_err(), DecodeError::AlreadyFinished);
}

#[test]
fn streaming_decoder_tolerates_missing_sp_bytes_only_leniently() {
    let data = make_ds2_frames(0, 13);
    let mut decoder = StreamingDecoder::new();
    decoder.push(&data).unwrap();
    assert_eq!(
        decoder.finish().unwrap_err(),
        DecodeError::Truncated("DS2 SP frame".to_string())
    );
    match decoder.finish_lenient().unwrap() {
        DecodeStep::Ds2SpFrames(frames) => {
            assert_eq!(frames.len(), 1);
            assert_eq!(frames[0].len(), 42);
        }
        _ => panic!("expected packets"),
    }
    assert_eq!(decoder.push(b"").unwrap_err(), DecodeError::AlreadyFinished);
}

#[test]
fn streaming_decoder_keeps_qp_until_the_end() {
    for size in [512, 1024, 1540, 3000] {
        let data = make_ds2_frames(6, 3);
        let mut decoder = StreamingDecoder::new();
        for chunk in data.chunks(size) {
            assert_eq!(decoder.push(chunk).unwrap(), DecodeStep::Idle);
        }
        assert!(decoder.can_end());
        match decoder.finish().unwrap() {
            DecodeStep::QpSegments(segments) => {
                assert_eq!(segments.len(), 1);
                assert_eq!(segments[0].stream, data[0x606..0x606 + 168]);
            }
            _ => panic!("expected segments"),
        }
    }
    let data = make_ds2_frames(7, 3);
    let mut decoder = StreamingDecoder::new();
    decoder.push(&data).unwrap();
    assert_eq!(decoder.format(), Some(AudioFormat::Ds2Qp7));
    match decoder.finish_lenient().unwrap() {
        DecodeStep::Qp7Segments(segments) => assert_eq!(segments[0].records.len(), 3),
        _ => panic!("expected records"),
    }
}

#[test]
fn streaming_decoder_takes_an_incomplete_first_block_as_sp() {
    let data = make_ds2_frames(6, 3);
    let mut decoder = StreamingDecoder::new();
    decoder.push(&data[..0x604]).unwrap();
    assert_eq!(decoder.format(), None);
    decoder.push(&data[0x604..0x605]).unwrap();
    assert_eq!(decoder.format(), Some(AudioFormat::Ds2Sp));
    match decoder.push(&data[0x605..]).unwrap() {
        DecodeStep::Ds2SpFrames(frames) => assert_eq!(frames.len(), 3),
        _ => panic!("expected packets"),
    }
    assert_eq!(decoder.format(), Some(AudioFormat::Ds2Sp));
}

#[test]
fn streaming_decoder_refuses_broken_qp7() {
    let data = make_ds2_frames(7, 60);
    let mut decoder = StreamingDecoder::new();
    decoder.push(&data).unwrap();
    assert_eq!(
        decoder.finish().unwrap_err(),
        DecodeError::Truncated("incomplete format-7 record at byte 504".to_string())
    );
    // The end has not been decoded.
    assert!(decoder.push(b"more").is_ok());
}

#[test]
fn streaming_decoder_ends_where_the_mode_changes_to_sp() {
    // The first block has no frames and says QP, the second says SP.
    let mut data = make_ds2_header_only(6);
    data.extend_from_slice(&make_ds2_frames(0, 3)[0x600..]);
    let mut decoder = StreamingDecoder::new();
    decoder.push(&data[..0x800]).unwrap();
    assert_eq!(decoder.format(), Some(AudioFormat::Ds2Qp));
    decoder.push(&data[0x800..]).unwrap();
    assert!(decoder.can_end());
    assert_eq!(decoder.finish().unwrap(), DecodeStep::Idle);
    // With more packets than the payload holds the end is not defined.
    data[0x802] = 40;
    let mut decoder = StreamingDecoder::new();
    decoder.push(&data[..0x800]).unwrap();
    assert!(!decoder.can_end_after(&data[0x800..]));
    decoder.push(&data[0x800..]).unwrap();
    assert!(!decoder.can_end());
}

#[test]
fn streaming_decoder_directs_dss_bytes_outside() {
    let mut decoder = StreamingDecoder::new();
    assert_eq!(decoder.push(b"\x03d").unwrap(), DecodeStep::Idle);
    assert_eq!(
        decoder.push(b"ss12").unwrap(),
        DecodeStep::DssBytes {
            version: 3,
            bytes: b"\x03dss12".to_vec()
        }
    );
    assert_eq!(decoder.format(), Some(AudioFormat::DssSp));
    assert_eq!(
        decoder.decode_frames(vec![vec![1], vec![2]]),
        DecodeStep::DssFrames(vec![vec![1], vec![2]])
    );
    assert_eq!(
        decoder.finish().unwrap(),
        DecodeStep::DssEnd { lenient: false }
    );
    // Ending failed outside: the stream goes on.
    let missing = DecodeError::Truncated("DSS frame".to_string());
    assert_eq!(decoder.ended(Err(missing.clone())).unwrap_err(), missing);
    assert!(decoder.push(b"3").unwrap().is_outside());
    assert_eq!(
        decoder.finish_lenient().unwrap(),
        DecodeStep::DssEnd { lenient: true }
    );
    assert_eq!(
        decoder.ended(Ok(vec![vec![9]])).unwrap(),
        DecodeStep::DssFrames(vec![vec![9]])
    );
    assert_eq!(decoder.push(b"4").unwrap_err(), DecodeError::AlreadyFinished);
}

#[test]
fn streaming_decoder_directs_grundig_bytes_outside() {
    let mut decoder = StreamingDecoder::new();
    assert_eq!(
        decoder.push(b"\x06dss").unwrap(),
        DecodeStep::GrundigBytes {
            header_blocks: 6,
            bytes: b"\x06dss".to_vec()
        }
    );
    assert_eq!(decoder.native_rate(), Some(16000));
    // The codec is left alone until there are frames.
    assert_eq!(decoder.decode_frames(Vec::new()), DecodeStep::Idle);
    assert_eq!(
        decoder.finish().unwrap(),
        DecodeStep::GrundigEnd { lenient: false }
    );
    assert_eq!(
        decoder.ended(Ok(vec![vec![5]])).unwrap(),
        DecodeStep::GrundigFrames(vec![vec![5]])
    );
}

#[test]
fn streaming_decoder_refuses_unknown_input() {
    let mut decoder = StreamingDecoder::new();
    assert_eq!(decoder.push(b"no").unwrap(), DecodeStep::Idle);
    assert_eq!(
        decoder.finish().unwrap_err(),
        DecodeError::UnsupportedFormat(b'n')
    );
    assert_eq!(
        decoder.push(b"pe").unwrap_err(),
        DecodeError::UnsupportedFormat(b'n')
    );
    assert_eq!(
        decoder.finish().unwrap_err(),
        DecodeError::UnsupportedFormat(b'n')
    );
    let mut decoder = StreamingDecoder::new();
    decoder.push(b"\x01ds2").unwrap();
    assert_eq!(
        decoder.finish_lenient().unwrap_err(),
        DecodeError::Truncated("DS2 header".to_string())
    );
}

#[test]
fn decrypt_streamer_passes_plain_input_in_any_pieces() {
    let data = b"\x07ds2 and the rest of the file";
    for size in 1..data.len() + 1 {
        let mut decryptor = DecryptStreamer::new(Some(b"secret"), MAGIC);
        let mut out = Vec::new();
        for chunk in data.chunks(size) {
            match decryptor.push(chunk).unwrap() {
                DecryptStep::Plain(bytes) => out.extend(bytes),
                _ => panic!("expected plain bytes"),
            }
        }
        match decryptor.finish().unwrap() {
            DecryptStep::Plain(bytes) => out.extend(bytes),
            _ => panic!("expected plain bytes"),
        }
        assert_eq!(out, data);
    }
}

#[test]
fn decrypt_streamer_directs_encrypted_input() {
    let mut decryptor = DecryptStreamer::new(Some(b"secret"), MAGIC);
    assert_eq!(
        decryptor.push(b"\x03e").unwrap(),
        DecryptStep::Plain(Vec::new())
    );
    assert_eq!(decryptor.buffered(), 2);
    assert_eq!(
        decryptor.push(b"nc!").unwrap(),
        DecryptStep::Open {
            password: b"secret".to_vec(),
            bytes: b"\x03enc!".to_vec()
        }
    );
    assert_eq!(decryptor.buffered(), 0);
    assert_eq!(decryptor.opened(Ok(b"plain".to_vec())).unwrap(), b"plain");
    assert_eq!(
        decryptor.push(b"more").unwrap(),
        DecryptStep::Cipher(b"more".to_vec())
    );
    assert_eq!(decryptor.finish().unwrap(), DecryptStep::CipherEnd);
}

#[test]
fn decrypt_streamer_starts_over_if_the_decryptor_refuses() {
    let mut decryptor = DecryptStreamer::new(Some(b"wrong"), MAGIC);
    decryptor.push(b"\x03enc").unwrap();
    let refusal = DecodeError::EncryptedDs2("wrong password".to_string());
    assert_eq!(decryptor.opened(Err(refusal.clone())).unwrap_err(), refusal);
    assert_eq!(decryptor.finish().unwrap(), DecryptStep::Plain(Vec::new()));
}

#[test]
fn decrypt_streamer_needs_a_password() {
    let mut decryptor = DecryptStreamer::new(None, MAGIC);
    let refusal =
        DecodeError::EncryptedDs2("password required for encrypted DS2 input".to_string());
    assert_eq!(decryptor.push(b"\x03enc").unwrap_err(), refusal);
    assert_eq!(
        decryptor.finish().unwrap_err(),
        DecodeError::Truncated("encrypted DS2 header".to_string())
    );
    assert_eq!(decryptor.push(b"x").unwrap_err(), refusal);
    assert_eq!(
        decryptor.finish().unwrap_err(),
        DecodeError::UnsupportedFormat(3)
    );
}

#[test]
fn decrypt_streamer_ends_short_input() {
    let mut decryptor = DecryptStreamer::new(None, MAGIC);
    assert_eq!(decryptor.finish().unwrap(), DecryptStep::Plain(Vec::new()));
    decryptor.push(b"\x03").unwrap();
    assert_eq!(
        decryptor.finish().unwrap_err(),
        DecodeError::Truncated("encrypted DS2 header".to_string())
    );
    decryptor.push(b"d").unwrap();
    assert_eq!(
        decryptor.ending().unwrap(),
        DecryptStep::Plain(b"\x03d".to_vec())
    );
    assert_eq!(
        decryptor.finish().unwrap(),
        DecryptStep::Plain(b"\x03d".to_vec())
    );
    assert_eq!(decryptor.finish().unwrap(), DecryptStep::Plain(Vec::new()));
    assert_eq!(
        decryptor.push(b"nope").unwrap_err(),
        DecodeError::UnsupportedFormat(b'n')
    );
}

#[test]
fn decrypting_decoder_streamer_deciphers_and_decodes() {
    let data = make_ds2_frames(0, 3);
    let mut decoder = DecryptingDecoderStreamer::new(Some(b"secret"), MAGIC);
    assert!(decoder.has_room(4));
    assert_eq!(
        decoder.push(b"\x03enc").unwrap(),
        StreamStep::Decrypt(DecryptStep::Open {
            password: b"secret".to_vec(),
            bytes: b"\x03enc".to_vec()
        })
    );
    assert!(decoder.opened(Ok(data[..1000].to_vec())).unwrap().is_empty());
    assert_eq!(
        decoder.push(b"abc").unwrap(),
        StreamStep::Decrypt(DecryptStep::Cipher(b"abc".to_vec()))
    );
    match decoder.decrypted(Ok(data[1000..].to_vec())).unwrap() {
        DecodeStep::Ds2SpFrames(frames) => assert_eq!(frames.len(), 3),
        _ => panic!("expected packets"),
    }
    assert!(decoder.can_end());
    assert_eq!(
        decoder.finish().unwrap(),
        StreamStep::Decrypt(DecryptStep::CipherEnd)
    );
    assert!(decoder.can_end_after(&[]));
    assert!(decoder.decrypted_end(Ok(Vec::new()), false).unwrap().is_empty());
    assert_eq!(decoder.push(b"x").unwrap_err(), DecodeError::AlreadyFinished);
    assert_eq!(
        decoder.finish_lenient().unwrap(),
        StreamStep::Decode(Vec::new())
    );
}

#[test]
fn decrypting_decoder_streamer_passes_refusals_on() {
    let refusal = DecodeError::EncryptedDs2("damaged".to_string());
    let mut decoder = DecryptingDecoderStreamer::new(Some(b"secret"), MAGIC);
    decoder.push(b"\x03enc").unwrap();
    assert_eq!(decoder.opened(Err(refusal.clone())).unwrap_err(), refusal);
    decoder.push(b"\x03enc").unwrap();
    decoder.opened(Ok(Vec::new())).unwrap();
    assert_eq!(decoder.decrypted(Err(refusal.clone())).unwrap_err(), refusal);
    assert_eq!(
        decoder.decrypted_end(Err(refusal.clone()), true).unwrap_err(),
        refusal
    );
    assert!(decoder.push(b"x").is_ok());
}

#[test]
fn decrypting_decoder_streamer_ends_dss_in_steps() {
    let mut decoder = DecryptingDecoderStreamer::new(None, MAGIC);
    assert_eq!(
        decoder.push(b"\x02dss").unwrap(),
        StreamStep::Decode(vec![DecodeStep::DssBytes {
            version: 2,
            bytes: b"\x02dss".to_vec()
        }])
    );
    let step = decoder.finish().unwrap();
    assert!(!step.is_empty());
    assert_eq!(
        step,
        StreamStep::DecodeThenFinish(DecodeStep::DssBytes {
            version: 2,
            bytes: Vec::new()
        })
    );
    assert_eq!(
        decoder.finish_rest(false).unwrap(),
        DecodeStep::DssEnd { lenient: false }
    );
    assert_eq!(
        decoder.decode_frames(Vec::new()),
        DecodeStep::DssFrames(Vec::new())
    );
    assert!(decoder.push(b"").is_ok());
    assert_eq!(
        decoder.ended(Ok(vec![vec![7]])).unwrap(),
        DecodeStep::DssFrames(vec![vec![7]])
    );
    assert_eq!(decoder.push(b"").unwrap_err(), DecodeError::AlreadyFinished);
}

#[test]
fn decrypting_decoder_streamer_refuses_short_input() {
    let mut decoder = DecryptingDecoderStreamer::new(None, MAGIC);
    assert!(decoder.push(b"ab").unwrap().is_empty());
    assert!(decoder.can_end());
    assert_eq!(
        decoder.finish_lenient().unwrap_err(),
        DecodeError::UnsupportedFormat(b'a')
    );
}

#[test]
fn decrypting_decoder_streamer_ends_like_the_decoder() {
    let data = make_ds2_frames(0, 3);
    let mut decoder = DecryptingDecoderStreamer::new(None, MAGIC);
    for chunk in data.chunks(3) {
        decoder.push(chunk).unwrap();
    }
    assert_eq!(
        decoder.finish().unwrap(),
        StreamStep::Decode(vec![DecodeStep::Ds2SpFrames(Vec::new())])
    );

    let mut decoder = DecryptingDecoderStreamer::new(None, MAGIC);
    decoder.push(&make_ds2_frames(0, 13)).unwrap();
    assert_eq!(
        decoder.finish().unwrap_err(),
        DecodeError::Truncated("DS2 SP frame".to_string())
    );
    match decoder.finish_lenient().unwrap() {
        StreamStep::Decode(steps) => match &steps[0] {
            DecodeStep::Ds2SpFrames(frames) => assert_eq!(frames.len(), 1),
            _ => panic!("expected packets"),
        },
        _ => panic!("expected steps to decode"),
    }
}

#[test]
fn decrypting_decoder_streamer_hands_packets_out_before_a_failing_end() {
    let data = make_ds2_frames(0, 13);
    let mut decoder = DecryptingDecoderStreamer::new(Some(b"secret"), MAGIC);
    decoder.push(b"\x03enc").unwrap();
    decoder.opened(Ok(data[..0x700].to_vec())).unwrap();
    assert_eq!(
        decoder.finish().unwrap(),
        StreamStep::Decrypt(DecryptStep::CipherEnd)
    );
    assert!(decoder.can_end_after(&data[0x700..]));
    match decoder
        .decrypted_end(Ok(data[0x700..].to_vec()), false)
        .unwrap()
    {
        StreamStep::DecodeThenFinish(DecodeStep::Ds2SpFrames(frames)) => {
            assert_eq!(frames.len(), 12)
        }
        _ => panic!("expected packets before the end"),
    }
    assert_eq!(
        decoder.finish_rest(false).unwrap_err(),
        DecodeError::Truncated("DS2 SP frame".to_string())
    );
    assert_eq!(
        decoder.finish_lenient().unwrap(),
        StreamStep::Decrypt(DecryptStep::CipherEnd)
    );
    match decoder.decrypted_end(Ok(Vec::new()), true).unwrap() {
        StreamStep::Decode(steps) => match &steps[..] {
            [DecodeStep::Ds2SpFrames(frames)] => assert_eq!(frames.len(), 1),
            _ => panic!("expected the last packet"),
        },
        _ => panic!("expected a step to decode"),
    }
    assert_eq!(decoder.push(b"x").unwrap_err(), DecodeError::AlreadyFinished);
}

#[test]
fn decrypting_decoder_streamer_decodes_like_the_decoder() {
    let data = make_ds2_frames(0, 12);
    for size in [1, 3, 4, 5, 1000, 2048] {
        let mut alone = StreamingDecoder::new();
        let mut streamer = DecryptingDecoderStreamer::new(None, MAGIC);
        let mut seen = 0;
        for chunk in data.chunks(size) {
            seen += chunk.len();
            let expected = alone.push(chunk).unwrap();
            match streamer.push(chunk).unwrap() {
                StreamStep::Decode(steps) if seen >= 4 => assert_eq!(steps, vec![expected]),
                StreamStep::Decode(steps) => assert_eq!(steps, vec![DecodeStep::Idle]),
                _ => panic!("expected a step to decode"),
            }
            assert_eq!(streamer.format(), alone.format());
        }
    }
}

#[test]
fn decrypt_streamer_takes_magic_numbers_of_more_than_four_bytes() {
    let magic = b"\x03encrypt";
    let mut decryptor = DecryptStreamer::new(None, magic);
    assert_eq!(
        decryptor.push(b"\x03enc").unwrap_err(),
        DecodeError::UnsupportedFormat(3)
    );
    for piece in [&b"rypt"[..], b"", b"more"] {
        assert!(matches!(
            decryptor.push(piece),
            Err(DecodeError::EncryptedDs2(_))
        ));
    }
    let mut decryptor = DecryptStreamer::new(Some(b"secret"), magic);
    decryptor.push(b"\x03e").unwrap();
    assert_eq!(
        decryptor.push(b"ncrypt!").unwrap(),
        DecryptStep::Open {
            password: b"secret".to_vec(),
            bytes: b"\x03encrypt!".to_vec()
        }
    );
}
