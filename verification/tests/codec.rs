use postcard::accumulator::{CobsAccumulator, FeedResult};
use discovery_telemetry::codec::{decode_all, encode, Decoder, EncodeError, MAX_FRAME};
use discovery_telemetry::{Baro, Board, Frame, Fused, Hello, Imu, Level, Mag, Msg, Status, PROTOCOL_VERSION};

fn bits3(a: [f32; 3]) -> [u32; 3] {
    [a[0].to_bits(), a[1].to_bits(), a[2].to_bits()]
}

fn encoded(frame: &Frame) -> Vec<u8> {
    let mut buf = [0u8; MAX_FRAME];
    encode(frame, &mut buf).expect("encode fits").to_vec()
}

fn roundtrip(frame: Frame) {
    let mut buf = [0u8; MAX_FRAME];
    let wire = encode(&frame, &mut buf).expect("encode fits");
    // COBS frames end in the 0x00 delimiter and contain no interior zeros.
    assert_eq!(*wire.last().unwrap(), 0x00);
    assert!(wire[..wire.len() - 1].iter().all(|&b| b != 0x00));

    let mut got = Vec::new();
    let mut dec = Decoder::new();
    let dropped = dec.push(wire, |f| got.push(f));
    assert_eq!(dropped, 0);
    assert_eq!(got, vec![frame]);
}

fn tick(t_ms: u32, n: u32) -> Frame {
    Frame { t_ms, msg: Msg::Tick(n) }
}

#[test]
fn roundtrip_each_variant() {
    roundtrip(Frame {
        t_ms: 0,
        msg: Msg::Hello(Hello {
            proto: PROTOCOL_VERSION,
            fw_git: *b"7c44b5e\0",
            board: Board::ArkDiscovery,
        }),
    });
    roundtrip(Frame { t_ms: 12345, msg: Msg::Tick(42) });
    roundtrip(Frame {
        t_ms: 1,
        msg: Msg::Imu(Imu {
            accel_g: bits3([0.01, -0.02, -1.03]),
            gyro_dps: bits3([0.1, 0.2, -0.3]),
            temp_c: 28.5f32.to_bits(),
        }),
    });
    roundtrip(Frame {
        t_ms: 2,
        msg: Msg::Baro(Baro { pressure_hpa: 1013.25f32.to_bits(), temp_c: 25.5f32.to_bits() }),
    });
    roundtrip(Frame {
        t_ms: 3,
        msg: Msg::Mag(Mag { field_ut: bits3([22.5, 10.3, -45.2]), temp_c: 24.5f32.to_bits() }),
    });
    roundtrip(Frame {
        t_ms: 12345,
        msg: Msg::Fused(Fused {
            roll_deg: 5.2f32.to_bits(),
            pitch_deg: 3.1f32.to_bits(),
            yaw_deg: 127.5f32.to_bits(),
            altitude_m: 100.45f32.to_bits(),
            vertical_speed_mps: 0.12f32.to_bits(),
            baro_residual_m: 0.05f32.to_bits(),
        }),
    });
    // Status with a full-width text payload exercises the largest frame against MAX_FRAME.
    let mut text = [0u8; 48];
    text[..11].copy_from_slice(b"baro BMP390");
    roundtrip(Frame { t_ms: u32::MAX, msg: Msg::Status(Status { level: Level::Error, text }) });
}

#[test]
fn decodes_concatenated_stream_across_chunk_split() {
    // Two frames encoded back-to-back, then fed in two arbitrary chunks: the decoder
    // must hold partial state across the split (the real serial-read case).
    let a = Frame { t_ms: 1, msg: Msg::Tick(1) };
    let b = Frame {
        t_ms: 2,
        msg: Msg::Fused(Fused {
            roll_deg: (-10.0f32).to_bits(),
            pitch_deg: 70.0f32.to_bits(),
            yaw_deg: 359.9f32.to_bits(),
            altitude_m: 0.0f32.to_bits(),
            vertical_speed_mps: (-1.5f32).to_bits(),
            baro_residual_m: 0.0f32.to_bits(),
        }),
    };
    let mut stream = Vec::new();
    stream.extend_from_slice(&encoded(&a));
    stream.extend_from_slice(&encoded(&b));

    let split = stream.len() / 2;
    let mut got = Vec::new();
    let mut dec = Decoder::new();
    dec.push(&stream[..split], |f| got.push(f));
    dec.push(&stream[split..], |f| got.push(f));
    assert_eq!(got, vec![a, b]);
}

#[test]
fn resyncs_after_garbage() {
    // Leading garbage (a half-frame from connecting mid-stream) is discarded; the next
    // clean frame still decodes.
    let good = Frame { t_ms: 9, msg: Msg::Tick(7) };
    let wire = encoded(&good);

    let mut stream = vec![0x11u8, 0x22, 0x33]; // no delimiter yet: partial junk
    stream.push(0x00); // delimiter closes the junk -> undecodable, resync
    stream.extend_from_slice(&wire);

    let mut got = Vec::new();
    let mut dec = Decoder::new();
    let dropped = dec.push(&stream, |f| got.push(f));
    assert_eq!(got, vec![good]);
    assert!(dropped >= 1, "the junk frame should be counted as dropped");
}

#[test]
fn encode_tick_exact_bytes() {
    // t_ms 12345 is the varint B9 60, then the Tick index 01 and 42 = 2A; COBS prepends the
    // distance to the (virtual) trailing zero and appends the delimiter.
    assert_eq!(encoded(&tick(12345, 42)), vec![0x05, 0xB9, 0x60, 0x01, 0x2A, 0x00]);
}

#[test]
fn encode_stuffs_interior_zeros() {
    // t_ms 0 is the byte 00, so COBS must replace it: body 00 01 00 -> 01 02 01 01 00.
    assert_eq!(encoded(&tick(0, 0)), vec![0x01, 0x02, 0x01, 0x01, 0x00]);
}

#[test]
fn encode_matches_postcard_for_every_variant() {
    let mut ours = [0u8; MAX_FRAME];
    let mut theirs = [0u8; MAX_FRAME];

    let hello = Frame {
        t_ms: 70000,
        msg: Msg::Hello(Hello { proto: 300, fw_git: *b"deadbee\0", board: Board::Unknown }),
    };
    let got = encode(&hello, &mut ours).unwrap().to_vec();
    let want = postcard::to_slice_cobs(&(70000u32, 0u32, 300u16, *b"deadbee\0", 2u32), &mut theirs)
        .unwrap();
    assert_eq!(&got[..], &want[..]);

    let imu = Frame {
        t_ms: 1,
        msg: Msg::Imu(Imu {
            accel_g: bits3([0.01, -0.02, -1.03]),
            gyro_dps: bits3([0.1, 0.2, -0.3]),
            temp_c: 28.5f32.to_bits(),
        }),
    };
    let got = encode(&imu, &mut ours).unwrap().to_vec();
    let want = postcard::to_slice_cobs(
        &(1u32, 2u32, [0.01f32, -0.02, -1.03], [0.1f32, 0.2, -0.3], 28.5f32),
        &mut theirs,
    )
    .unwrap();
    assert_eq!(&got[..], &want[..]);

    let baro = Frame {
        t_ms: 2,
        msg: Msg::Baro(Baro { pressure_hpa: 1013.25f32.to_bits(), temp_c: 25.5f32.to_bits() }),
    };
    let got = encode(&baro, &mut ours).unwrap().to_vec();
    let want = postcard::to_slice_cobs(&(2u32, 3u32, 1013.25f32, 25.5f32), &mut theirs).unwrap();
    assert_eq!(&got[..], &want[..]);

    let mag = Frame {
        t_ms: 3,
        msg: Msg::Mag(Mag { field_ut: bits3([22.5, 10.3, -45.2]), temp_c: 24.5f32.to_bits() }),
    };
    let got = encode(&mag, &mut ours).unwrap().to_vec();
    let want =
        postcard::to_slice_cobs(&(3u32, 4u32, [22.5f32, 10.3, -45.2], 24.5f32), &mut theirs)
            .unwrap();
    assert_eq!(&got[..], &want[..]);

    let fused = Frame {
        t_ms: 12345,
        msg: Msg::Fused(Fused {
            roll_deg: 5.2f32.to_bits(),
            pitch_deg: 3.1f32.to_bits(),
            yaw_deg: 127.5f32.to_bits(),
            altitude_m: 100.45f32.to_bits(),
            vertical_speed_mps: 0.12f32.to_bits(),
            baro_residual_m: 0.05f32.to_bits(),
        }),
    };
    let got = encode(&fused, &mut ours).unwrap().to_vec();
    let want = postcard::to_slice_cobs(
        &(12345u32, 5u32, 5.2f32, 3.1f32, 127.5f32, 100.45f32, 0.12f32, 0.05f32),
        &mut theirs,
    )
    .unwrap();
    assert_eq!(&got[..], &want[..]);

    let mut text = [0u8; 48];
    text[..11].copy_from_slice(b"baro BMP390");
    let status = Frame { t_ms: u32::MAX, msg: Msg::Status(Status { level: Level::Warn, text }) };
    let got = encode(&status, &mut ours).unwrap().to_vec();
    let mut head = [0u8; 32];
    let mut tail = [0u8; 16];
    head.copy_from_slice(&text[..32]);
    tail.copy_from_slice(&text[32..]);
    let want =
        postcard::to_slice_cobs(&(u32::MAX, 6u32, 1u32, head, tail), &mut theirs).unwrap();
    assert_eq!(&got[..], &want[..]);
}

#[test]
fn largest_frame_is_57_bytes() {
    let status = Frame {
        t_ms: u32::MAX,
        msg: Msg::Status(Status { level: Level::Info, text: [0x41; 48] }),
    };
    assert_eq!(encoded(&status).len(), 57);
    assert!(encoded(&status).len() <= MAX_FRAME);
}

#[test]
fn encode_into_small_buffer_fails() {
    let frame = tick(12345, 42);
    let mut small = [0u8; 5];
    assert_eq!(encode(&frame, &mut small), Err(EncodeError::BufferFull));
    let mut exact = [0u8; 6];
    assert_eq!(encode(&frame, &mut exact).map(|w| w.len()), Ok(6));
    assert_eq!(exact, [0x05, 0xB9, 0x60, 0x01, 0x2A, 0x00]);
    let mut roomy = [0xEEu8; 8];
    assert_eq!(encode(&frame, &mut roomy).unwrap(), &[0x05, 0xB9, 0x60, 0x01, 0x2A, 0x00]);
    // Only the returned prefix is written.
    assert_eq!(&roomy[6..], &[0xEE, 0xEE]);
    let mut empty: [u8; 0] = [];
    assert_eq!(encode(&frame, &mut empty), Err(EncodeError::BufferFull));
}

#[test]
fn decodes_postcard_encoded_frames() {
    let mut buf = [0u8; MAX_FRAME];
    let wire = postcard::to_slice_cobs(&(12345u32, 1u32, 42u32), &mut buf).unwrap();
    assert_eq!(decode_all(wire), vec![tick(12345, 42)]);
}

#[test]
fn postcard_accumulator_reads_our_frames() {
    let wire = encoded(&tick(12345, 42));
    let mut acc: CobsAccumulator<MAX_FRAME> = CobsAccumulator::new();
    match acc.feed::<(u32, u32, u32)>(&wire) {
        FeedResult::Success { data, remaining } => {
            assert_eq!(data, (12345, 1, 42));
            assert!(remaining.is_empty());
        }
        _ => panic!("postcard could not read the frame"),
    }
}

#[test]
fn decode_all_stream_of_frames() {
    let frames = vec![tick(1, 1), tick(0, 0), tick(u32::MAX, u32::MAX), tick(300, 128)];
    let mut stream = Vec::new();
    for f in &frames {
        stream.extend_from_slice(&encoded(f));
    }
    assert_eq!(decode_all(&stream), frames);
}

#[test]
fn split_at_every_point_gives_same_frames() {
    let frames = vec![tick(5, 6), tick(70000, 0), tick(0, 3)];
    let mut stream = Vec::new();
    for f in &frames {
        stream.extend_from_slice(&encoded(f));
    }
    for split in 0..=stream.len() {
        let mut got = Vec::new();
        let mut dec = Decoder::new();
        let d1 = dec.push(&stream[..split], |f| got.push(f));
        let d2 = dec.push(&stream[split..], |f| got.push(f));
        assert_eq!(got, frames);
        assert_eq!(d1 + d2, 0);
    }
}

#[test]
fn resync_reports_one_event_for_half_frame() {
    // The tail of a frame (connecting mid-stream) then a clean frame.
    let wire = encoded(&tick(12345, 42));
    let mut stream = wire[2..].to_vec();
    stream.extend_from_slice(&encoded(&tick(1, 2)));
    let mut got = Vec::new();
    let mut dec = Decoder::default();
    let dropped = dec.push(&stream, |f| got.push(f));
    assert_eq!(dropped, 1);
    assert_eq!(got, vec![tick(1, 2)]);
}

#[test]
fn overfull_frame_is_dropped() {
    // 70 non-zero bytes overfill the 64-byte accumulator.
    let mut stream = vec![0x07u8; 70];
    stream.push(0x00);
    stream.extend_from_slice(&encoded(&tick(3, 4)));
    let mut got = Vec::new();
    let mut dec = Decoder::new();
    let dropped = dec.push(&stream, |f| got.push(f));
    assert_eq!(got, vec![tick(3, 4)]);
    // One oversized frame is one drop.
    assert_eq!(dropped, 1);
}

#[test]
fn lone_delimiter_is_dropped() {
    let mut got = Vec::new();
    let mut dec = Decoder::new();
    assert_eq!(dec.push(&[0x00], |f| got.push(f)), 1);
    assert!(got.is_empty());
}

#[test]
fn unknown_variant_is_skipped() {
    // t_ms 1, message index 7 (not known to this build), one payload byte.
    let mut buf = [0u8; MAX_FRAME];
    let future = postcard::to_slice_cobs(&(1u32, 7u32, 9u8), &mut buf).unwrap().to_vec();
    let mut stream = future.clone();
    stream.extend_from_slice(&encoded(&tick(2, 3)));
    let mut got = Vec::new();
    let mut dec = Decoder::new();
    let dropped = dec.push(&stream, |f| got.push(f));
    assert_eq!(dropped, 1);
    assert_eq!(got, vec![tick(2, 3)]);
}

#[test]
fn overlong_varint_is_accepted_like_postcard() {
    // t_ms written as 80 00 (an overlong zero), then Tick(5): body 80 00 01 05.
    let stream = [0x02u8, 0x80, 0x03, 0x01, 0x05, 0x00];
    assert_eq!(decode_all(&stream), vec![tick(0, 5)]);
}

#[test]
fn too_wide_varint_is_rejected() {
    // t_ms FF FF FF FF 1F does not fit a u32: the frame is dropped.
    let stream = [0x08u8, 0xFF, 0xFF, 0xFF, 0xFF, 0x1F, 0x01, 0x05, 0x00];
    let mut got = Vec::new();
    let mut dec = Decoder::new();
    assert_eq!(dec.push(&stream, |f| got.push(f)), 1);
    assert!(got.is_empty());
    // FF FF FF FF 0F is u32::MAX and is accepted.
    let stream = [0x08u8, 0xFF, 0xFF, 0xFF, 0xFF, 0x0F, 0x01, 0x05, 0x00];
    assert_eq!(decode_all(&stream), vec![tick(u32::MAX, 5)]);
}

#[test]
fn truncated_frame_is_dropped() {
    // A Baro frame cut short: t_ms 1, index 3, only two payload bytes.
    let stream = [0x05u8, 0x01, 0x03, 0x11, 0x22, 0x00];
    let mut got = Vec::new();
    let mut dec = Decoder::new();
    assert_eq!(dec.push(&stream, |f| got.push(f)), 1);
    assert!(got.is_empty());
}

#[test]
fn trailing_bytes_after_frame_are_ignored() {
    // Tick(5) at t_ms 1 followed by two extra bytes inside the same COBS frame.
    let stream = [0x06u8, 0x01, 0x01, 0x05, 0x33, 0x44, 0x00];
    assert_eq!(decode_all(&stream), vec![tick(1, 5)]);
}

#[test]
fn pending_bytes_wait_for_delimiter() {
    let wire = encoded(&tick(8, 9));
    let mut got = Vec::new();
    let mut dec = Decoder::new();
    for b in &wire[..wire.len() - 1] {
        assert_eq!(dec.push(std::slice::from_ref(b), |f| got.push(f)), 0);
        assert!(got.is_empty());
    }
    assert_eq!(dec.push(&[0x00], |f| got.push(f)), 0);
    assert_eq!(got, vec![tick(8, 9)]);
}

#[test]
fn push_into_appends_frames() {
    let mut out = vec![tick(0, 0)];
    let mut dec = Decoder::new();
    let mut stream = encoded(&tick(1, 1));
    stream.extend_from_slice(&[0x00]);
    let dropped = dec.push_into(&stream, &mut out);
    assert_eq!(dropped, 1);
    assert_eq!(out, vec![tick(0, 0), tick(1, 1)]);
}

#[test]
fn long_run_without_delimiter_is_one_drop() {
    // 130 non-zero bytes: one oversized frame, reported once, however long it runs on.
    let mut got = Vec::new();
    let mut dec = Decoder::new();
    assert_eq!(dec.push(&[0x05u8; 130], |f| got.push(f)), 1);
    assert_eq!(dec.push(&[0x05u8; 130], |f| got.push(f)), 0);
    assert!(got.is_empty());
    // Its delimiter ends it with no further report; the next frame decodes.
    assert_eq!(dec.push(&[0x00], |f| got.push(f)), 0);
    let wire = encoded(&tick(4, 5));
    assert_eq!(dec.push(&wire, |f| got.push(f)), 0);
    assert_eq!(got, vec![tick(4, 5)]);
}

#[test]
fn tail_of_oversized_frame_is_not_decoded() {
    // 65 bytes with no delimiter start a frame longer than MAX_FRAME. The chunk that ends
    // it (09 01 07 00) is the tail of that frame, not a frame of its own.
    let mut head = vec![0x01u8; 64];
    head.push(0x04);
    let mut got = Vec::new();
    let mut dec = Decoder::new();
    assert_eq!(dec.push(&head, |f| got.push(f)), 1);
    assert_eq!(dec.push(&[0x09, 0x01, 0x07, 0x00], |f| got.push(f)), 0);
    assert!(got.is_empty());
    // Decoding resumed at that delimiter.
    let wire = encoded(&tick(9, 7));
    assert_eq!(dec.push(&wire, |f| got.push(f)), 0);
    assert_eq!(got, vec![tick(9, 7)]);
}

#[test]
fn frame_filling_the_decoder_exactly_is_read() {
    // A COBS frame of exactly MAX_FRAME bytes with its delimiter: Tick(1) at t_ms 1 padded
    // with trailing bytes, which the reader ignores.
    let mut seg = vec![0x3Fu8, 0x01, 0x01, 0x01];
    seg.extend_from_slice(&[0x55; 59]);
    seg.push(0x00);
    assert_eq!(seg.len(), MAX_FRAME);
    let mut got = Vec::new();
    let mut dec = Decoder::new();
    assert_eq!(dec.push(&seg, |f| got.push(f)), 0);
    assert_eq!(got, vec![tick(1, 1)]);
    // One byte more is oversized.
    let mut seg = vec![0x40u8, 0x01, 0x01, 0x01];
    seg.extend_from_slice(&[0x55; 60]);
    seg.push(0x00);
    let mut got = Vec::new();
    let mut dec = Decoder::new();
    assert_eq!(dec.push(&seg, |f| got.push(f)), 1);
    assert!(got.is_empty());
}

#[test]
fn frames_never_exceed_delimiters() {
    let stream = [0x11u8, 0x00, 0x00, 0x03, 0x01, 0x01, 0x01, 0x00, 0x22];
    let zeros = stream.iter().filter(|b| **b == 0).count();
    let mut got = Vec::new();
    let mut dec = Decoder::new();
    let dropped = dec.push(&stream, |f| got.push(f));
    assert!(got.len() <= zeros);
    // Every frame here fits, so each delimiter closed exactly one frame or drop.
    assert_eq!(got.len() + dropped, zeros);
    // 03 01 01 01 unstuffs to 01 01 00: Tick(0) at 1 ms.
    assert_eq!(got, vec![tick(1, 0)]);
}

#[test]
fn decode_all_cut_after_delimiter_concatenates() {
    let mut x = vec![0x7Bu8, 0x00];
    x.extend_from_slice(&encoded(&tick(1, 2)));
    let mut y = vec![0x02u8];
    y.extend_from_slice(&encoded(&tick(3, 4)));
    let mut xy = x.clone();
    xy.extend_from_slice(&y);
    let mut want = decode_all(&x);
    want.extend(decode_all(&y));
    assert_eq!(decode_all(&xy), want);
    assert_eq!(want, vec![tick(1, 2)]);
}

#[test]
fn push_into_matches_push() {
    let mut stream = vec![0x09u8; 80];
    stream.push(0x00);
    stream.extend_from_slice(&encoded(&tick(6, 6)));
    stream.extend_from_slice(&[0x01, 0x00]);
    let mut a = Decoder::new();
    let mut got = Vec::new();
    let da = a.push(&stream, |f| got.push(f));
    let mut b = Decoder::new();
    let mut out = Vec::new();
    let db = b.push_into(&stream, &mut out);
    assert_eq!(got, out);
    assert_eq!(da, db);
    assert_eq!((da, out), (2, vec![tick(6, 6)]));
}
