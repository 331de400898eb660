use discovery_telemetry::codec::{Decoder, MAX_FRAME};
use discovery_telemetry::wire::{read_frame, write_frame, MAX_FRAME_BYTES};
use discovery_telemetry::{Board, Frame, Hello, Level, Msg, Status, PROTOCOL_VERSION};

#[test]
fn write_frame_tick_layout() {
    let mut out = [0xAAu8; MAX_FRAME_BYTES + 2];
    let n = write_frame(&Frame { t_ms: 12345, msg: Msg::Tick(42) }, &mut out);
    assert_eq!(&out[..n], &[0xB9, 0x60, 0x01, 0x2A]);
    // Past the frame the buffer is untouched.
    assert!(out[n..].iter().all(|&b| b == 0xAA));
}

#[test]
fn write_frame_hello_layout() {
    let mut out = [0u8; MAX_FRAME_BYTES];
    let hello = Hello { proto: PROTOCOL_VERSION, fw_git: *b"7c44b5e\0", board: Board::HolybroDiscovery };
    let n = write_frame(&Frame { t_ms: 0, msg: Msg::Hello(hello) }, &mut out);
    let mut want = vec![0x00, 0x00, 0x02];
    want.extend_from_slice(b"7c44b5e\0");
    want.push(0x01);
    assert_eq!(&out[..n], &want[..]);
}

#[test]
fn read_frame_inverts_write_frame() {
    let mut text = [0u8; 48];
    text[..7].copy_from_slice(b"diag on");
    let frame = Frame { t_ms: 200, msg: Msg::Status(Status { level: Level::Warn, text }) };
    let mut out = [9u8; MAX_FRAME_BYTES + 3];
    let n = write_frame(&frame, &mut out);
    assert_eq!(n, 2 + 1 + 1 + 48);
    assert_eq!(read_frame(&out[..n + 3]), Some(frame));
    assert_eq!(read_frame(&out[..n]), Some(frame));
}

#[test]
fn read_frame_rejects_unknown_board() {
    let mut bytes = vec![0x05, 0x00, 0x02];
    bytes.extend_from_slice(b"abcdefgh");
    bytes.push(0x03);
    assert_eq!(read_frame(&bytes), None);
    bytes[11] = 0x02;
    assert_eq!(
        read_frame(&bytes),
        Some(Frame {
            t_ms: 5,
            msg: Msg::Hello(Hello { proto: 2, fw_git: *b"abcdefgh", board: Board::Unknown }),
        })
    );
}

#[test]
fn read_frame_rejects_unknown_level_and_short_input() {
    assert_eq!(read_frame(&[0x01, 0x06, 0x03]), None);
    assert_eq!(read_frame(&[]), None);
    assert_eq!(read_frame(&[0x01]), None);
    assert_eq!(read_frame(&[0x01, 0x02, 0x00, 0x00]), None);
}

#[test]
fn read_frame_u16_width() {
    // proto 0xFFFF as FF FF 03 is accepted; FF FF 04 exceeds 16 bits.
    let mut ok = vec![0x01, 0x00, 0xFF, 0xFF, 0x03];
    ok.extend_from_slice(&[0x30; 8]);
    ok.push(0x00);
    assert_eq!(
        read_frame(&ok),
        Some(Frame {
            t_ms: 1,
            msg: Msg::Hello(Hello { proto: 0xFFFF, fw_git: [0x30; 8], board: Board::ArkDiscovery }),
        })
    );
    let mut bad = ok.clone();
    bad[4] = 0x04;
    assert_eq!(read_frame(&bad), None);
}

#[test]
fn decoder_default_starts_empty() {
    let mut dec = Decoder::default();
    let mut got = Vec::new();
    assert_eq!(dec.push(&[0x03, 0x01, 0x01, 0x01, 0x00], |f| got.push(f)), 0);
    assert_eq!(got, vec![Frame { t_ms: 1, msg: Msg::Tick(0) }]);
    assert!(MAX_FRAME >= 57);
}

#[test]
fn largest_write_fills_max_frame_bytes() {
    let frame = Frame {
        t_ms: u32::MAX,
        msg: Msg::Status(Status { level: Level::Error, text: [0x7F; 48] }),
    };
    let mut out = [0u8; MAX_FRAME_BYTES];
    assert_eq!(write_frame(&frame, &mut out), MAX_FRAME_BYTES);
    assert_eq!(read_frame(&out), Some(frame));
}
