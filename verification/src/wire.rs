//! The telemetry wire layout of a [`Frame`], before COBS framing.
//!
//! Layout (the serde data model of the frame types, as postcard lays it out):
//! - `u32` and `u16` fields, and every enum variant index, are base-128 varints
//!   (low group first, high bit set on every byte but the last);
//! - `u8` fields and byte arrays are raw bytes, arrays without a length prefix;
//! - `f32` fields are the four little-endian bytes of their bit pattern;
//! - struct fields follow each other in declaration order.
//!
//! Reading accepts what postcard's deserializer accepts: overlong varints are fine as long
//! as they fit the field's maximum width, and bytes after a complete frame are ignored.
use vstd::prelude::*;
use crate::frames::{Baro, Board, Frame, Fused, Hello, Imu, Level, Mag, Msg, Status};

verus! {

broadcast use vstd::array::group_array_axioms;

// ---------------------------------------------------------------------------------------
// Layout of values as bytes
// ---------------------------------------------------------------------------------------

/// Canonical base-128 varint of `v`.
pub open spec fn varint_bytes(v: nat) -> Seq<u8>
    decreases v,
{
    if v < 128 {
        seq![v as u8]
    } else {
        seq![(v % 128 + 128) as u8] + varint_bytes(v / 128)
    }
}

/// The four little-endian bytes of a 32-bit word.
pub open spec fn word_bytes(w: u32) -> Seq<u8> {
    seq![(w & 0xff) as u8, ((w >> 8u32) & 0xff) as u8, ((w >> 16u32) & 0xff) as u8, (w >> 24u32) as u8]
}

/// Three words, one after the other.
pub open spec fn words3_bytes(a: [u32; 3]) -> Seq<u8> {
    word_bytes(a[0]) + word_bytes(a[1]) + word_bytes(a[2])
}

pub open spec fn board_index(b: Board) -> nat {
    match b {
        Board::ArkDiscovery => 0,
        Board::HolybroDiscovery => 1,
        Board::Unknown => 2,
    }
}

pub open spec fn level_index(l: Level) -> nat {
    match l {
        Level::Info => 0,
        Level::Warn => 1,
        Level::Error => 2,
    }
}

pub open spec fn msg_index(m: Msg) -> nat {
    match m {
        Msg::Hello(_) => 0,
        Msg::Tick(_) => 1,
        Msg::Imu(_) => 2,
        Msg::Baro(_) => 3,
        Msg::Mag(_) => 4,
        Msg::Fused(_) => 5,
        Msg::Status(_) => 6,
    }
}

pub open spec fn hello_bytes(h: Hello) -> Seq<u8> {
    varint_bytes(h.proto as nat) + h.fw_git@ + varint_bytes(board_index(h.board))
}

pub open spec fn imu_bytes(i: Imu) -> Seq<u8> {
    words3_bytes(i.accel_g) + words3_bytes(i.gyro_dps) + word_bytes(i.temp_c)
}

pub open spec fn baro_bytes(b: Baro) -> Seq<u8> {
    word_bytes(b.pressure_hpa) + word_bytes(b.temp_c)
}

pub open spec fn mag_bytes(m: Mag) -> Seq<u8> {
    words3_bytes(m.field_ut) + word_bytes(m.temp_c)
}

pub open spec fn fused_bytes(f: Fused) -> Seq<u8> {
    word_bytes(f.roll_deg) + word_bytes(f.pitch_deg) + word_bytes(f.yaw_deg) + word_bytes(
        f.altitude_m,
    ) + word_bytes(f.vertical_speed_mps) + word_bytes(f.baro_residual_m)
}

pub open spec fn status_bytes(s: Status) -> Seq<u8> {
    varint_bytes(level_index(s.level)) + s.text@
}

pub open spec fn payload_bytes(m: Msg) -> Seq<u8> {
    match m {
        Msg::Hello(h) => hello_bytes(h),
        Msg::Tick(n) => varint_bytes(n as nat),
        Msg::Imu(i) => imu_bytes(i),
        Msg::Baro(b) => baro_bytes(b),
        Msg::Mag(g) => mag_bytes(g),
        Msg::Fused(f) => fused_bytes(f),
        Msg::Status(s) => status_bytes(s),
    }
}

pub open spec fn msg_bytes(m: Msg) -> Seq<u8> {
    varint_bytes(msg_index(m)) + payload_bytes(m)
}

/// The wire bytes of a frame: the timestamp varint, then the message.
pub open spec fn frame_bytes(f: Frame) -> Seq<u8> {
    varint_bytes(f.t_ms as nat) + msg_bytes(f.msg)
}

// ---------------------------------------------------------------------------------------
// Reading values back: each reader takes the bytes still to read and gives the value and
// the bytes after it, or `None`.
// ---------------------------------------------------------------------------------------

/// A varint of at most `left` bytes; if it takes all `left` bytes, its last byte may be at
/// most `last_max` (the bits above the field's width must be clear).
pub open spec fn take_varint(s: Seq<u8>, left: nat, last_max: u8) -> Option<(nat, Seq<u8>)>
    decreases left,
{
    if left == 0 || s.len() == 0 {
        None
    } else if s[0] < 128 {
        if left == 1 && s[0] > last_max {
            None
        } else {
            Some((s[0] as nat, s.drop_first()))
        }
    } else {
        match take_varint(s.drop_first(), (left - 1) as nat, last_max) {
            Some((v, rest)) => Some((((s[0] - 128) + 128 * v) as nat, rest)),
            None => None,
        }
    }
}

pub open spec fn take_u32(s: Seq<u8>) -> Option<(u32, Seq<u8>)> {
    match take_varint(s, 5, 15) {
        Some((v, rest)) => Some((v as u32, rest)),
        None => None,
    }
}

pub open spec fn take_u16(s: Seq<u8>) -> Option<(u16, Seq<u8>)> {
    match take_varint(s, 3, 3) {
        Some((v, rest)) => Some((v as u16, rest)),
        None => None,
    }
}

/// The word whose little-endian bytes start `s`.
pub open spec fn word_value(s: Seq<u8>) -> u32 {
    (s[0] as u32) | ((s[1] as u32) << 8u32) | ((s[2] as u32) << 16u32) | ((s[3] as u32) << 24u32)
}

pub open spec fn take_word(s: Seq<u8>) -> Option<(u32, Seq<u8>)> {
    if s.len() >= 4 {
        Some((word_value(s), s.skip(4)))
    } else {
        None
    }
}

pub open spec fn take_words3(s: Seq<u8>) -> Option<([u32; 3], Seq<u8>)> {
    if s.len() >= 12 {
        Some(([word_value(s), word_value(s.skip(4)), word_value(s.skip(8))], s.skip(12)))
    } else {
        None
    }
}

pub open spec fn take_bytes8(s: Seq<u8>) -> Option<([u8; 8], Seq<u8>)> {
    if s.len() >= 8 {
        Some((choose|a: [u8; 8]| a@ == s.take(8), s.skip(8)))
    } else {
        None
    }
}

pub open spec fn take_bytes48(s: Seq<u8>) -> Option<([u8; 48], Seq<u8>)> {
    if s.len() >= 48 {
        Some((choose|a: [u8; 48]| a@ == s.take(48), s.skip(48)))
    } else {
        None
    }
}

pub open spec fn take_board(s: Seq<u8>) -> Option<(Board, Seq<u8>)> {
    match take_u32(s) {
        Some((i, rest)) => if i == 0 {
            Some((Board::ArkDiscovery, rest))
        } else if i == 1 {
            Some((Board::HolybroDiscovery, rest))
        } else if i == 2 {
            Some((Board::Unknown, rest))
        } else {
            None
        },
        None => None,
    }
}

pub open spec fn take_level(s: Seq<u8>) -> Option<(Level, Seq<u8>)> {
    match take_u32(s) {
        Some((i, rest)) => if i == 0 {
            Some((Level::Info, rest))
        } else if i == 1 {
            Some((Level::Warn, rest))
        } else if i == 2 {
            Some((Level::Error, rest))
        } else {
            None
        },
        None => None,
    }
}

pub open spec fn take_hello(s: Seq<u8>) -> Option<(Hello, Seq<u8>)> {
    match take_u16(s) {
        Some((proto, r1)) => match take_bytes8(r1) {
            Some((fw_git, r2)) => match take_board(r2) {
                Some((board, r3)) => Some((Hello { proto, fw_git, board }, r3)),
                None => None,
            },
            None => None,
        },
        None => None,
    }
}

pub open spec fn take_imu(s: Seq<u8>) -> Option<(Imu, Seq<u8>)> {
    match take_words3(s) {
        Some((accel_g, r1)) => match take_words3(r1) {
            Some((gyro_dps, r2)) => match take_word(r2) {
                Some((temp_c, r3)) => Some((Imu { accel_g, gyro_dps, temp_c }, r3)),
                None => None,
            },
            None => None,
        },
        None => None,
    }
}

pub open spec fn take_baro(s: Seq<u8>) -> Option<(Baro, Seq<u8>)> {
    match take_word(s) {
        Some((pressure_hpa, r1)) => match take_word(r1) {
            Some((temp_c, r2)) => Some((Baro { pressure_hpa, temp_c }, r2)),
            None => None,
        },
        None => None,
    }
}

pub open spec fn take_mag(s: Seq<u8>) -> Option<(Mag, Seq<u8>)> {
    match take_words3(s) {
        Some((field_ut, r1)) => match take_word(r1) {
            Some((temp_c, r2)) => Some((Mag { field_ut, temp_c }, r2)),
            None => None,
        },
        None => None,
    }
}

pub open spec fn take_fused(s: Seq<u8>) -> Option<(Fused, Seq<u8>)> {
    if s.len() >= 24 {
        Some(
            (
                Fused {
                    roll_deg: word_value(s),
                    pitch_deg: word_value(s.skip(4)),
                    yaw_deg: word_value(s.skip(8)),
                    altitude_m: word_value(s.skip(12)),
                    vertical_speed_mps: word_value(s.skip(16)),
                    baro_residual_m: word_value(s.skip(20)),
                },
                s.skip(24),
            ),
        )
    } else {
        None
    }
}

pub open spec fn take_status(s: Seq<u8>) -> Option<(Status, Seq<u8>)> {
    match take_level(s) {
        Some((level, r1)) => match take_bytes48(r1) {
            Some((text, r2)) => Some((Status { level, text }, r2)),
            None => None,
        },
        None => None,
    }
}

pub open spec fn take_msg(s: Seq<u8>) -> Option<(Msg, Seq<u8>)> {
    match take_u32(s) {
        Some((d, r)) => if d == 0 {
            match take_hello(r) {
                Some((h, r2)) => Some((Msg::Hello(h), r2)),
                None => None,
            }
        } else if d == 1 {
            match take_u32(r) {
                Some((n, r2)) => Some((Msg::Tick(n), r2)),
                None => None,
            }
        } else if d == 2 {
            match take_imu(r) {
                Some((i, r2)) => Some((Msg::Imu(i), r2)),
                None => None,
            }
        } else if d == 3 {
            match take_baro(r) {
                Some((b, r2)) => Some((Msg::Baro(b), r2)),
                None => None,
            }
        } else if d == 4 {
            match take_mag(r) {
                Some((g, r2)) => Some((Msg::Mag(g), r2)),
                None => None,
            }
        } else if d == 5 {
            match take_fused(r) {
                Some((f, r2)) => Some((Msg::Fused(f), r2)),
                None => None,
            }
        } else if d == 6 {
            match take_status(r) {
                Some((st, r2)) => Some((Msg::Status(st), r2)),
                None => None,
            }
        } else {
            None
        },
        None => None,
    }
}

pub open spec fn take_frame(s: Seq<u8>) -> Option<(Frame, Seq<u8>)> {
    match take_u32(s) {
        Some((t_ms, r1)) => match take_msg(r1) {
            Some((msg, r2)) => Some((Frame { t_ms, msg }, r2)),
            None => None,
        },
        None => None,
    }
}

/// The frame that `s` holds, if any; bytes after a complete frame are ignored.
pub open spec fn parse_frame(s: Seq<u8>) -> Option<Frame> {
    match take_frame(s) {
        Some((f, _)) => Some(f),
        None => None,
    }
}

// ---------------------------------------------------------------------------------------
// Proofs: every value read back from its own bytes gives the value and the bytes after it
// ---------------------------------------------------------------------------------------

pub open spec fn pow128(n: nat) -> nat
    decreases n,
{
    if n == 0 {
        1
    } else {
        128 * pow128((n - 1) as nat)
    }
}

proof fn lemma_pow128_positive(n: nat)
    ensures
        pow128(n) >= 1,
    decreases n,
{
    if n > 0 {
        lemma_pow128_positive((n - 1) as nat);
    }
}

/// A varint read within `left` bytes is below the field's range, and leaves a proper
/// suffix of the input.
pub proof fn lemma_take_varint_bound(s: Seq<u8>, left: nat, last_max: u8)
    requires
        last_max < 128,
    ensures
        take_varint(s, left, last_max) matches Some((v, rest)) ==> {
            &&& left >= 1
            &&& v < pow128((left - 1) as nat) * (last_max + 1)
            &&& rest.len() < s.len()
            &&& rest == s.skip(s.len() - rest.len())
        },
    decreases left,
{
    if left == 0 || s.len() == 0 {
    } else if s[0] < 128 {
        lemma_pow128_positive((left - 1) as nat);
        let p = pow128((left - 1) as nat);
        if left == 1 {
            let p0 = pow128(0);
            assert(p0 * (last_max + 1) == last_max + 1) by (nonlinear_arith)
                requires
                    p0 == 1,
            ;
        }
        if left >= 2 {
            assert(p == 128 * pow128((left - 2) as nat));
            lemma_pow128_positive((left - 2) as nat);
            assert(p >= 128);
            assert(p * (last_max + 1) >= p) by (nonlinear_arith)
                requires
                    p >= 1,
                    last_max >= 0,
            ;
        }
        assert(s.drop_first() == s.skip(1));
    } else {
        lemma_take_varint_bound(s.drop_first(), (left - 1) as nat, last_max);
        if let Some((v, rest)) = take_varint(s.drop_first(), (left - 1) as nat, last_max) {
            let q = pow128((left - 2) as nat);
            let l1 = last_max + 1;
            let b = s[0] - 128;
            assert(pow128((left - 1) as nat) == 128 * q);
            assert(b + 128 * v < 128 * q * l1) by (nonlinear_arith)
                requires
                    0 <= b < 128,
                    0 <= v < q * l1,
            ;
            assert(s.drop_first().skip(s.drop_first().len() - rest.len()) =~= s.skip(
                s.len() - rest.len(),
            ));
            assert(take_varint(s, left, last_max) == Some((((s[0] - 128) + 128 * v) as nat, rest)));
        }
    }
}

/// Reading the canonical varint of `v` back gives `v` and the bytes after it.
pub proof fn lemma_varint_roundtrip(v: nat, rest: Seq<u8>, left: nat, last_max: u8)
    requires
        1 <= left,
        last_max < 128,
        v < pow128((left - 1) as nat) * (last_max + 1),
    ensures
        take_varint(varint_bytes(v) + rest, left, last_max) == Some((v, rest)),
        varint_bytes(v).len() <= left,
    decreases v,
{
    let s = varint_bytes(v) + rest;
    if v < 128 {
        assert(s[0] == v as u8);
        assert(s.drop_first() =~= rest);
        if left == 1 {
            let p0 = pow128(0);
            assert(p0 * (last_max + 1) == last_max + 1) by (nonlinear_arith)
                requires
                    p0 == 1,
            ;
        }
    } else {
        let l1 = last_max + 1;
        if left == 1 {
            assert(pow128(0) == 1);
            let p0 = pow128(0);
            assert(p0 * (last_max + 1) == last_max + 1) by (nonlinear_arith)
                requires
                    p0 == 1,
            ;
            assert(false);
        }
        let q = pow128((left - 2) as nat);
        assert(pow128((left - 1) as nat) == 128 * q);
        assert(v / 128 < q * l1) by (nonlinear_arith)
            requires
                v < 128 * q * l1,
        ;
        lemma_varint_roundtrip(v / 128, rest, (left - 1) as nat, last_max);
        assert(s.drop_first() =~= varint_bytes(v / 128) + rest);
        assert(s[0] == (v % 128 + 128) as u8);
    }
}

proof fn lemma_pow128_values()
    ensures
        pow128(2) * 4 == 0x10000,
        pow128(4) * 16 == 0x1_0000_0000,
{
    reveal_with_fuel(pow128, 5);
}

pub proof fn lemma_u32_roundtrip(v: u32, rest: Seq<u8>)
    ensures
        take_u32(varint_bytes(v as nat) + rest) == Some((v, rest)),
        varint_bytes(v as nat).len() <= 5,
{
    lemma_pow128_values();
    lemma_varint_roundtrip(v as nat, rest, 5, 15);
}

pub proof fn lemma_u16_roundtrip(v: u16, rest: Seq<u8>)
    ensures
        take_u16(varint_bytes(v as nat) + rest) == Some((v, rest)),
        varint_bytes(v as nat).len() <= 3,
{
    lemma_pow128_values();
    lemma_varint_roundtrip(v as nat, rest, 3, 3);
}

/// A small index (an enum variant) reads back through a `u32` varint in one byte.
proof fn lemma_index_roundtrip(i: nat, rest: Seq<u8>)
    requires
        i < 128,
    ensures
        take_u32(varint_bytes(i) + rest) == Some((i as u32, rest)),
        varint_bytes(i).len() == 1,
{
    lemma_u32_roundtrip(i as u32, rest);
}

pub proof fn lemma_word_roundtrip(w: u32, rest: Seq<u8>)
    ensures
        take_word(word_bytes(w) + rest) == Some((w, rest)),
{
    let s = word_bytes(w) + rest;
    let b0 = s[0];
    let b1 = s[1];
    let b2 = s[2];
    let b3 = s[3];
    assert(b0 == (w & 0xff) as u8);
    assert(b1 == ((w >> 8u32) & 0xff) as u8);
    assert(b2 == ((w >> 16u32) & 0xff) as u8);
    assert(b3 == (w >> 24u32) as u8);
    assert(((b0 as u32) | ((b1 as u32) << 8u32) | ((b2 as u32) << 16u32) | ((b3 as u32)
        << 24u32)) == w) by (bit_vector)
        requires
            b0 == (w & 0xff) as u8,
            b1 == ((w >> 8u32) & 0xff) as u8,
            b2 == ((w >> 16u32) & 0xff) as u8,
            b3 == (w >> 24u32) as u8,
    ;
    assert(s.skip(4) =~= rest);
}

pub proof fn lemma_words3_roundtrip(a: [u32; 3], rest: Seq<u8>)
    ensures
        take_words3(words3_bytes(a) + rest) == Some((a, rest)),
{
    let s = words3_bytes(a) + rest;
    let r2 = word_bytes(a[2]) + rest;
    let r1 = word_bytes(a[1]) + r2;
    assert(s =~= word_bytes(a[0]) + r1);
    lemma_word_roundtrip(a[0], r1);
    lemma_word_roundtrip(a[1], r2);
    lemma_word_roundtrip(a[2], rest);
    assert(s.skip(4) =~= r1);
    assert(s.skip(8) =~= r2);
    assert(s.skip(12) =~= rest);
    let b: [u32; 3] = [word_value(s), word_value(s.skip(4)), word_value(s.skip(8))];
    assert(b =~= a);
}

pub proof fn lemma_bytes8_roundtrip(a: [u8; 8], rest: Seq<u8>)
    ensures
        take_bytes8(a@ + rest) == Some((a, rest)),
{
    let s = a@ + rest;
    assert(s.take(8) =~= a@);
    assert(s.skip(8) =~= rest);
    let x = choose|x: [u8; 8]| x@ == s.take(8);
    assert(x@ == s.take(8));
    assert(x =~= a);
}

pub proof fn lemma_bytes48_roundtrip(a: [u8; 48], rest: Seq<u8>)
    ensures
        take_bytes48(a@ + rest) == Some((a, rest)),
{
    let s = a@ + rest;
    assert(s.take(48) =~= a@);
    assert(s.skip(48) =~= rest);
    let x = choose|x: [u8; 48]| x@ == s.take(48);
    assert(x@ == s.take(48));
    assert(x =~= a);
}


pub proof fn lemma_hello_roundtrip(h: Hello, rest: Seq<u8>)
    ensures
        take_hello(hello_bytes(h) + rest) == Some((h, rest)),
        hello_bytes(h).len() <= 12,
{
    let r2 = varint_bytes(board_index(h.board)) + rest;
    let r1 = h.fw_git@ + r2;
    assert(hello_bytes(h) + rest =~= varint_bytes(h.proto as nat) + r1);
    lemma_u16_roundtrip(h.proto, r1);
    lemma_bytes8_roundtrip(h.fw_git, r2);
    lemma_index_roundtrip(board_index(h.board), rest);
}

pub proof fn lemma_imu_roundtrip(i: Imu, rest: Seq<u8>)
    ensures
        take_imu(imu_bytes(i) + rest) == Some((i, rest)),
        imu_bytes(i).len() == 28,
{
    let r2 = word_bytes(i.temp_c) + rest;
    let r1 = words3_bytes(i.gyro_dps) + r2;
    assert(imu_bytes(i) + rest =~= words3_bytes(i.accel_g) + r1);
    lemma_words3_roundtrip(i.accel_g, r1);
    lemma_words3_roundtrip(i.gyro_dps, r2);
    lemma_word_roundtrip(i.temp_c, rest);
}

pub proof fn lemma_baro_roundtrip(b: Baro, rest: Seq<u8>)
    ensures
        take_baro(baro_bytes(b) + rest) == Some((b, rest)),
        baro_bytes(b).len() == 8,
{
    let r1 = word_bytes(b.temp_c) + rest;
    assert(baro_bytes(b) + rest =~= word_bytes(b.pressure_hpa) + r1);
    lemma_word_roundtrip(b.pressure_hpa, r1);
    lemma_word_roundtrip(b.temp_c, rest);
}

pub proof fn lemma_mag_roundtrip(m: Mag, rest: Seq<u8>)
    ensures
        take_mag(mag_bytes(m) + rest) == Some((m, rest)),
        mag_bytes(m).len() == 16,
{
    let r1 = word_bytes(m.temp_c) + rest;
    assert(mag_bytes(m) + rest =~= words3_bytes(m.field_ut) + r1);
    lemma_words3_roundtrip(m.field_ut, r1);
    lemma_word_roundtrip(m.temp_c, rest);
}

pub proof fn lemma_fused_roundtrip(f: Fused, rest: Seq<u8>)
    ensures
        take_fused(fused_bytes(f) + rest) == Some((f, rest)),
        fused_bytes(f).len() == 24,
{
    let s = fused_bytes(f) + rest;
    let r5 = word_bytes(f.baro_residual_m) + rest;
    let r4 = word_bytes(f.vertical_speed_mps) + r5;
    let r3 = word_bytes(f.altitude_m) + r4;
    let r2 = word_bytes(f.yaw_deg) + r3;
    let r1 = word_bytes(f.pitch_deg) + r2;
    assert(s =~= word_bytes(f.roll_deg) + r1);
    assert(s.skip(4) =~= r1);
    assert(s.skip(8) =~= r2);
    assert(s.skip(12) =~= r3);
    assert(s.skip(16) =~= r4);
    assert(s.skip(20) =~= r5);
    assert(s.skip(24) =~= rest);
    lemma_word_roundtrip(f.roll_deg, r1);
    lemma_word_roundtrip(f.pitch_deg, r2);
    lemma_word_roundtrip(f.yaw_deg, r3);
    lemma_word_roundtrip(f.altitude_m, r4);
    lemma_word_roundtrip(f.vertical_speed_mps, r5);
    lemma_word_roundtrip(f.baro_residual_m, rest);
}

pub proof fn lemma_status_roundtrip(st: Status, rest: Seq<u8>)
    ensures
        take_status(status_bytes(st) + rest) == Some((st, rest)),
        status_bytes(st).len() == 49,
{
    let r1 = st.text@ + rest;
    assert(status_bytes(st) + rest =~= varint_bytes(level_index(st.level)) + r1);
    lemma_index_roundtrip(level_index(st.level), r1);
    lemma_bytes48_roundtrip(st.text, rest);
}

pub proof fn lemma_msg_roundtrip(m: Msg, rest: Seq<u8>)
    ensures
        take_msg(msg_bytes(m) + rest) == Some((m, rest)),
        msg_bytes(m).len() <= 50,
{
    let r = payload_bytes(m) + rest;
    assert(msg_bytes(m) + rest =~= varint_bytes(msg_index(m)) + r);
    lemma_index_roundtrip(msg_index(m), r);
    match m {
        Msg::Hello(h) => lemma_hello_roundtrip(h, rest),
        Msg::Tick(n) => lemma_u32_roundtrip(n, rest),
        Msg::Imu(i) => lemma_imu_roundtrip(i, rest),
        Msg::Baro(b) => lemma_baro_roundtrip(b, rest),
        Msg::Mag(g) => lemma_mag_roundtrip(g, rest),
        Msg::Fused(f) => lemma_fused_roundtrip(f, rest),
        Msg::Status(st) => lemma_status_roundtrip(st, rest),
    }
}

/// Reading a frame back from its own wire bytes gives the frame and exactly the bytes
/// that followed it; and no frame's wire bytes are longer than 55 bytes.
pub proof fn lemma_frame_roundtrip(f: Frame, rest: Seq<u8>)
    ensures
        take_frame(frame_bytes(f) + rest) == Some((f, rest)),
        parse_frame(frame_bytes(f) + rest) == Some(f),
        2 <= frame_bytes(f).len() <= 55,
{
    let r = msg_bytes(f.msg) + rest;
    assert(frame_bytes(f) + rest =~= varint_bytes(f.t_ms as nat) + r);
    lemma_u32_roundtrip(f.t_ms, r);
    lemma_msg_roundtrip(f.msg, rest);
}


/// A message index this build does not know (a variant appended by a newer firmware) makes
/// the whole frame unreadable, so a decoder skips it rather than misreading it.
pub proof fn lemma_unknown_variant(t_ms: u32, index: u32, rest: Seq<u8>)
    requires
        index >= 7,
    ensures
        parse_frame(varint_bytes(t_ms as nat) + varint_bytes(index as nat) + rest) is None,
{
    let r = varint_bytes(index as nat) + rest;
    assert(varint_bytes(t_ms as nat) + varint_bytes(index as nat) + rest =~= varint_bytes(
        t_ms as nat,
    ) + r);
    lemma_u32_roundtrip(t_ms, r);
    lemma_u32_roundtrip(index, rest);
}

// ---------------------------------------------------------------------------------------
// Writing frames
// ---------------------------------------------------------------------------------------

/// `after` is `before` with `bytes` written over it from position `pos` on.
pub open spec fn written(before: Seq<u8>, after: Seq<u8>, pos: int, bytes: Seq<u8>) -> bool {
    &&& 0 <= pos
    &&& pos + bytes.len() <= before.len()
    &&& after =~= before.take(pos) + bytes + before.skip(pos + bytes.len())
}

proof fn lemma_written_chain(s0: Seq<u8>, s1: Seq<u8>, s2: Seq<u8>, pos: int, a: Seq<u8>, b: Seq<u8>)
    requires
        written(s0, s1, pos, a),
        written(s1, s2, pos + a.len(), b),
    ensures
        written(s0, s2, pos, a + b),
{
    assert(s2 =~= s0.take(pos) + (a + b) + s0.skip(pos + a.len() + b.len()));
}

fn put_byte(out: &mut [u8], pos: usize, b: u8) -> (end: usize)
    requires
        pos < old(out)@.len(),
    ensures
        end == pos + 1,
        written(old(out)@, final(out)@, pos as int, seq![b]),
{
    out[pos] = b;
    pos + 1
}

fn put_varint(out: &mut [u8], pos: usize, v: u32) -> (end: usize)
    requires
        pos + varint_bytes(v as nat).len() <= old(out)@.len(),
    ensures
        end == pos + varint_bytes(v as nat).len(),
        written(old(out)@, final(out)@, pos as int, varint_bytes(v as nat)),
{
    let ghost all = varint_bytes(v as nat);
    let ghost mut done: Seq<u8> = Seq::empty();
    let mut value: u32 = v;
    let mut cur: usize = pos;
    assert(out@ =~= old(out)@.take(pos as int) + done + old(out)@.skip(pos as int));
    while value >= 128
        invariant
            all == varint_bytes(v as nat),
            done + varint_bytes(value as nat) == all,
            cur == pos + done.len(),
            pos + all.len() <= old(out)@.len(),
            written(old(out)@, out@, pos as int, done),
        decreases value,
    {
        let ghost before = out@;
        let b: u8 = (value % 128 + 128) as u8;
        assert(varint_bytes(value as nat) == seq![b] + varint_bytes((value / 128) as nat));
        cur = put_byte(out, cur, b);
        proof {
            lemma_written_chain(old(out)@, before, out@, pos as int, done, seq![b]);
            assert(done + seq![b] + varint_bytes((value / 128) as nat) =~= all);
            done = done + seq![b];
        }
        value = value / 128;
    }
    let ghost before = out@;
    assert(varint_bytes(value as nat) == seq![value as u8]);
    cur = put_byte(out, cur, value as u8);
    proof {
        lemma_written_chain(old(out)@, before, out@, pos as int, done, seq![value as u8]);
    }
    cur
}

fn put_word(out: &mut [u8], pos: usize, w: u32) -> (end: usize)
    requires
        pos + 4 <= old(out)@.len(),
    ensures
        end == pos + 4,
        written(old(out)@, final(out)@, pos as int, word_bytes(w)),
{
    out[pos] = (w & 0xff) as u8;
    out[pos + 1] = ((w >> 8u32) & 0xff) as u8;
    out[pos + 2] = ((w >> 16u32) & 0xff) as u8;
    out[pos + 3] = (w >> 24u32) as u8;
    assert(out@ =~= old(out)@.take(pos as int) + word_bytes(w) + old(out)@.skip(pos + 4));
    pos + 4
}

fn put_words3(out: &mut [u8], pos: usize, a: &[u32; 3]) -> (end: usize)
    requires
        pos + 12 <= old(out)@.len(),
    ensures
        end == pos + 12,
        written(old(out)@, final(out)@, pos as int, words3_bytes(*a)),
{
    let ghost s0 = out@;
    let p1 = put_word(out, pos, a[0]);
    let ghost s1 = out@;
    let p2 = put_word(out, p1, a[1]);
    let ghost s2 = out@;
    let p3 = put_word(out, p2, a[2]);
    proof {
        lemma_written_chain(s0, s1, s2, pos as int, word_bytes(a[0]), word_bytes(a[1]));
        lemma_written_chain(
            s0,
            s2,
            out@,
            pos as int,
            word_bytes(a[0]) + word_bytes(a[1]),
            word_bytes(a[2]),
        );
    }
    p3
}

fn put_bytes(out: &mut [u8], pos: usize, bytes: &[u8]) -> (end: usize)
    requires
        pos + bytes@.len() <= old(out)@.len(),
    ensures
        end == pos + bytes@.len(),
        written(old(out)@, final(out)@, pos as int, bytes@),
{
    let mut i: usize = 0;
    while i < bytes.len()
        invariant
            i <= bytes.len(),
            pos + bytes@.len() <= old(out)@.len(),
            out@.len() == old(out)@.len(),
            pos + bytes.len() <= out.len(),
            written(old(out)@, out@, pos as int, bytes@.take(i as int)),
        decreases bytes.len() - i,
    {
        out[pos + i] = bytes[i];
        i = i + 1;
        assert(out@ =~= old(out)@.take(pos as int) + bytes@.take(i as int) + old(out)@.skip(
            pos + i,
        ));
    }
    assert(bytes@.take(i as int) =~= bytes@);
    pos + i
}

fn board_index_exec(b: Board) -> (r: u32)
    ensures
        r as nat == board_index(b),
{
    match b {
        Board::ArkDiscovery => 0,
        Board::HolybroDiscovery => 1,
        Board::Unknown => 2,
    }
}

fn level_index_exec(l: Level) -> (r: u32)
    ensures
        r as nat == level_index(l),
{
    match l {
        Level::Info => 0,
        Level::Warn => 1,
        Level::Error => 2,
    }
}

fn put_hello(out: &mut [u8], pos: usize, h: &Hello) -> (end: usize)
    requires
        pos + hello_bytes(*h).len() <= old(out)@.len(),
    ensures
        end == pos + hello_bytes(*h).len(),
        written(old(out)@, final(out)@, pos as int, hello_bytes(*h)),
{
    let ghost s0 = out@;
    let q1 = put_varint(out, pos, h.proto as u32);
    let ghost s1 = out@;
    let q2 = put_bytes(out, q1, h.fw_git.as_slice());
    let ghost s2 = out@;
    let q3 = put_varint(out, q2, board_index_exec(h.board));
    proof {
        let a = varint_bytes(h.proto as nat);
        let b = h.fw_git@;
        let c = varint_bytes(board_index(h.board));
        lemma_written_chain(s0, s1, s2, pos as int, a, b);
        lemma_written_chain(s0, s2, out@, pos as int, a + b, c);
    }
    q3
}

fn put_imu(out: &mut [u8], pos: usize, i: &Imu) -> (end: usize)
    requires
        pos + imu_bytes(*i).len() <= old(out)@.len(),
    ensures
        end == pos + imu_bytes(*i).len(),
        written(old(out)@, final(out)@, pos as int, imu_bytes(*i)),
{
    let ghost s0 = out@;
    let q1 = put_words3(out, pos, &i.accel_g);
    let ghost s1 = out@;
    let q2 = put_words3(out, q1, &i.gyro_dps);
    let ghost s2 = out@;
    let q3 = put_word(out, q2, i.temp_c);
    proof {
        let a = words3_bytes(i.accel_g);
        let b = words3_bytes(i.gyro_dps);
        let c = word_bytes(i.temp_c);
        lemma_written_chain(s0, s1, s2, pos as int, a, b);
        lemma_written_chain(s0, s2, out@, pos as int, a + b, c);
    }
    q3
}

fn put_baro(out: &mut [u8], pos: usize, b: &Baro) -> (end: usize)
    requires
        pos + baro_bytes(*b).len() <= old(out)@.len(),
    ensures
        end == pos + baro_bytes(*b).len(),
        written(old(out)@, final(out)@, pos as int, baro_bytes(*b)),
{
    let ghost s0 = out@;
    let q1 = put_word(out, pos, b.pressure_hpa);
    let ghost s1 = out@;
    let q2 = put_word(out, q1, b.temp_c);
    proof {
        lemma_written_chain(s0, s1, out@, pos as int, word_bytes(b.pressure_hpa), word_bytes(b.temp_c));
    }
    q2
}

fn put_mag(out: &mut [u8], pos: usize, g: &Mag) -> (end: usize)
    requires
        pos + mag_bytes(*g).len() <= old(out)@.len(),
    ensures
        end == pos + mag_bytes(*g).len(),
        written(old(out)@, final(out)@, pos as int, mag_bytes(*g)),
{
    let ghost s0 = out@;
    let q1 = put_words3(out, pos, &g.field_ut);
    let ghost s1 = out@;
    let q2 = put_word(out, q1, g.temp_c);
    proof {
        lemma_written_chain(s0, s1, out@, pos as int, words3_bytes(g.field_ut), word_bytes(g.temp_c));
    }
    q2
}

fn put_fused(out: &mut [u8], pos: usize, x: &Fused) -> (end: usize)
    requires
        pos + fused_bytes(*x).len() <= old(out)@.len(),
    ensures
        end == pos + fused_bytes(*x).len(),
        written(old(out)@, final(out)@, pos as int, fused_bytes(*x)),
{
    let ghost s0 = out@;
    let q1 = put_word(out, pos, x.roll_deg);
    let ghost t1 = out@;
    let q2 = put_word(out, q1, x.pitch_deg);
    let ghost t2 = out@;
    let q3 = put_word(out, q2, x.yaw_deg);
    let ghost t3 = out@;
    let q4 = put_word(out, q3, x.altitude_m);
    let ghost t4 = out@;
    let q5 = put_word(out, q4, x.vertical_speed_mps);
    let ghost t5 = out@;
    let q6 = put_word(out, q5, x.baro_residual_m);
    proof {
        let w1 = word_bytes(x.roll_deg);
        let w2 = word_bytes(x.pitch_deg);
        let w3 = word_bytes(x.yaw_deg);
        let w4 = word_bytes(x.altitude_m);
        let w5 = word_bytes(x.vertical_speed_mps);
        let w6 = word_bytes(x.baro_residual_m);
        let p = pos as int;
        lemma_written_chain(s0, t1, t2, p, w1, w2);
        lemma_written_chain(s0, t2, t3, p, w1 + w2, w3);
        lemma_written_chain(s0, t3, t4, p, w1 + w2 + w3, w4);
        lemma_written_chain(s0, t4, t5, p, w1 + w2 + w3 + w4, w5);
        lemma_written_chain(s0, t5, out@, p, w1 + w2 + w3 + w4 + w5, w6);
    }
    q6
}

fn put_status(out: &mut [u8], pos: usize, st: &Status) -> (end: usize)
    requires
        pos + status_bytes(*st).len() <= old(out)@.len(),
    ensures
        end == pos + status_bytes(*st).len(),
        written(old(out)@, final(out)@, pos as int, status_bytes(*st)),
{
    let ghost s0 = out@;
    let q1 = put_varint(out, pos, level_index_exec(st.level));
    let ghost s1 = out@;
    let q2 = put_bytes(out, q1, st.text.as_slice());
    proof {
        lemma_written_chain(s0, s1, out@, pos as int, varint_bytes(level_index(st.level)), st.text@);
    }
    q2
}

fn put_msg(out: &mut [u8], pos: usize, m: &Msg) -> (end: usize)
    requires
        pos + msg_bytes(*m).len() <= old(out)@.len(),
    ensures
        end == pos + msg_bytes(*m).len(),
        written(old(out)@, final(out)@, pos as int, msg_bytes(*m)),
{
    let ghost s0 = out@;
    let index: u32 = match m {
        Msg::Hello(_) => 0,
        Msg::Tick(_) => 1,
        Msg::Imu(_) => 2,
        Msg::Baro(_) => 3,
        Msg::Mag(_) => 4,
        Msg::Fused(_) => 5,
        Msg::Status(_) => 6,
    };
    let q = put_varint(out, pos, index);
    let ghost s1 = out@;
    let end = match m {
        Msg::Hello(h) => put_hello(out, q, h),
        Msg::Tick(n) => put_varint(out, q, *n),
        Msg::Imu(i) => put_imu(out, q, i),
        Msg::Baro(b) => put_baro(out, q, b),
        Msg::Mag(g) => put_mag(out, q, g),
        Msg::Fused(x) => put_fused(out, q, x),
        Msg::Status(st) => put_status(out, q, st),
    };
    proof {
        lemma_written_chain(s0, s1, out@, pos as int, varint_bytes(msg_index(*m)), payload_bytes(*m));
    }
    end
}

/// The longest wire bytes of any frame (a `Status` with a five-byte timestamp).
pub const MAX_FRAME_BYTES: usize = 55;

/// Writes the wire bytes of `f` at the front of `out` and returns their length; the rest of
/// `out` is left as it was.
pub fn write_frame(f: &Frame, out: &mut [u8]) -> (n: usize)
    requires
        old(out)@.len() >= MAX_FRAME_BYTES,
    ensures
        n == frame_bytes(*f).len(),
        written(old(out)@, final(out)@, 0, frame_bytes(*f)),
{
    proof {
        lemma_frame_roundtrip(*f, Seq::empty());
    }
    let ghost s0 = out@;
    let p1 = put_varint(out, 0, f.t_ms);
    let ghost s1 = out@;
    let p2 = put_msg(out, p1, &f.msg);
    proof {
        lemma_written_chain(s0, s1, out@, 0, varint_bytes(f.t_ms as nat), msg_bytes(f.msg));
    }
    p2
}

// ---------------------------------------------------------------------------------------
// Reading frames: each reader starts at position `p` of `s` and gives the value and the
// position after it, exactly as the matching `take_` function on `s@.skip(p)`.
// ---------------------------------------------------------------------------------------

proof fn lemma_pow128_small(n: nat)
    requires
        n <= 4,
    ensures
        pow128(n) <= 268435456,
{
    reveal_with_fuel(pow128, 5);
}

fn read_varint(s: &[u8], p: usize, left: usize, last_max: u8) -> (r: Option<(u64, usize)>)
    requires
        p <= s.len(),
        left <= 5,
        last_max < 128,
    ensures
        match r {
            Some((v, q)) => p < q <= s.len() && take_varint(s@.skip(p as int), left as nat, last_max)
                == Some((v as nat, s@.skip(q as int))),
            None => take_varint(s@.skip(p as int), left as nat, last_max) is None,
        },
    decreases left,
{
    let ghost t = s@.skip(p as int);
    if left == 0 || p >= s.len() {
        return None;
    }
    let b = s[p];
    assert(t[0] == b);
    assert(t.drop_first() =~= s@.skip(p + 1));
    if b < 128 {
        if left == 1 && b > last_max {
            None
        } else {
            Some((b as u64, p + 1))
        }
    } else {
        match read_varint(s, p + 1, left - 1, last_max) {
            Some((v, q)) => {
                proof {
                    lemma_take_varint_bound(s@.skip(p + 1), (left - 1) as nat, last_max);
                    lemma_pow128_small((left - 2) as nat);
                    let k = pow128((left - 2) as nat);
                    assert(v < 34359738368) by (nonlinear_arith)
                        requires
                            v < k * (last_max + 1),
                            k <= 268435456,
                            last_max < 128,
                    ;
                }
                Some(((b - 128) as u64 + 128 * v, q))
            },
            None => None,
        }
    }
}

fn read_u32(s: &[u8], p: usize) -> (r: Option<(u32, usize)>)
    requires
        p <= s.len(),
    ensures
        match r {
            Some((v, q)) => p < q <= s.len() && take_u32(s@.skip(p as int)) == Some(
                (v, s@.skip(q as int)),
            ),
            None => take_u32(s@.skip(p as int)) is None,
        },
{
    match read_varint(s, p, 5, 15) {
        Some((v, q)) => {
            proof {
                lemma_take_varint_bound(s@.skip(p as int), 5, 15);
                lemma_pow128_values();
            }
            Some((v as u32, q))
        },
        None => None,
    }
}

fn read_u16(s: &[u8], p: usize) -> (r: Option<(u16, usize)>)
    requires
        p <= s.len(),
    ensures
        match r {
            Some((v, q)) => p < q <= s.len() && take_u16(s@.skip(p as int)) == Some(
                (v, s@.skip(q as int)),
            ),
            None => take_u16(s@.skip(p as int)) is None,
        },
{
    match read_varint(s, p, 3, 3) {
        Some((v, q)) => {
            proof {
                lemma_take_varint_bound(s@.skip(p as int), 3, 3);
                lemma_pow128_values();
            }
            Some((v as u16, q))
        },
        None => None,
    }
}

fn read_word(s: &[u8], p: usize) -> (r: Option<(u32, usize)>)
    requires
        p <= s.len(),
    ensures
        match r {
            Some((v, q)) => p < q <= s.len() && take_word(s@.skip(p as int)) == Some(
                (v, s@.skip(q as int)),
            ),
            None => take_word(s@.skip(p as int)) is None,
        },
{
    if s.len() - p < 4 {
        return None;
    }
    let ghost t = s@.skip(p as int);
    assert(t[0] == s[p as int] && t[1] == s[p + 1] && t[2] == s[p + 2] && t[3] == s[p + 3]);
    assert(t.skip(4) =~= s@.skip(p + 4));
    let w = (s[p] as u32) | ((s[p + 1] as u32) << 8u32) | ((s[p + 2] as u32) << 16u32) | ((s[p
        + 3] as u32) << 24u32);
    Some((w, p + 4))
}

fn read_words3(s: &[u8], p: usize) -> (r: Option<([u32; 3], usize)>)
    requires
        p <= s.len(),
    ensures
        match r {
            Some((v, q)) => p < q <= s.len() && take_words3(s@.skip(p as int)) == Some(
                (v, s@.skip(q as int)),
            ),
            None => take_words3(s@.skip(p as int)) is None,
        },
{
    if s.len() - p < 12 {
        return None;
    }
    let ghost t = s@.skip(p as int);
    let (w0, p1) = match read_word(s, p) {
        Some(x) => x,
        None => return None,
    };
    let (w1, p2) = match read_word(s, p1) {
        Some(x) => x,
        None => return None,
    };
    let (w2, p3) = match read_word(s, p2) {
        Some(x) => x,
        None => return None,
    };
    assert(t.skip(4) =~= s@.skip(p1 as int));
    assert(t.skip(8) =~= s@.skip(p2 as int));
    assert(t.skip(12) =~= s@.skip(p3 as int));
    Some(([w0, w1, w2], p3))
}

fn read_array8(s: &[u8], p: usize) -> (r: Option<([u8; 8], usize)>)
    requires
        p <= s.len(),
    ensures
        match r {
            Some((v, q)) => p < q <= s.len() && take_bytes8(s@.skip(p as int)) == Some(
                (v, s@.skip(q as int)),
            ),
            None => take_bytes8(s@.skip(p as int)) is None,
        },
{
    if s.len() - p < 8 {
        return None;
    }
    let ghost t = s@.skip(p as int);
    let mut a = [0u8; 8];
    let mut i: usize = 0;
    while i < 8
        invariant
            i <= 8,
            p + 8 <= s.len(),
            t == s@.skip(p as int),
            forall|j: int| 0 <= j < i ==> a@[j] == t[j],
        decreases 8 - i,
    {
        a[i] = s[p + i];
        i = i + 1;
    }
    proof {
        assert(a@ =~= t.take(8));
        let x = choose|x: [u8; 8]| x@ == t.take(8);
        assert(x@ == t.take(8));
        assert(x =~= a);
        assert(t.skip(8) =~= s@.skip(p + 8));
    }
    Some((a, p + 8))
}

fn read_array48(s: &[u8], p: usize) -> (r: Option<([u8; 48], usize)>)
    requires
        p <= s.len(),
    ensures
        match r {
            Some((v, q)) => p < q <= s.len() && take_bytes48(s@.skip(p as int)) == Some(
                (v, s@.skip(q as int)),
            ),
            None => take_bytes48(s@.skip(p as int)) is None,
        },
{
    if s.len() - p < 48 {
        return None;
    }
    let ghost t = s@.skip(p as int);
    let mut a = [0u8; 48];
    let mut i: usize = 0;
    while i < 48
        invariant
            i <= 48,
            p + 48 <= s.len(),
            t == s@.skip(p as int),
            forall|j: int| 0 <= j < i ==> a@[j] == t[j],
        decreases 48 - i,
    {
        a[i] = s[p + i];
        i = i + 1;
    }
    proof {
        assert(a@ =~= t.take(48));
        let x = choose|x: [u8; 48]| x@ == t.take(48);
        assert(x@ == t.take(48));
        assert(x =~= a);
        assert(t.skip(48) =~= s@.skip(p + 48));
    }
    Some((a, p + 48))
}


fn read_board(s: &[u8], p: usize) -> (r: Option<(Board, usize)>)
    requires
        p <= s.len(),
    ensures
        match r {
            Some((v, q)) => p < q <= s.len() && take_board(s@.skip(p as int)) == Some(
                (v, s@.skip(q as int)),
            ),
            None => take_board(s@.skip(p as int)) is None,
        },
{
    match read_u32(s, p) {
        Some((i, q)) => if i == 0 {
            Some((Board::ArkDiscovery, q))
        } else if i == 1 {
            Some((Board::HolybroDiscovery, q))
        } else if i == 2 {
            Some((Board::Unknown, q))
        } else {
            None
        },
        None => None,
    }
}

fn read_level(s: &[u8], p: usize) -> (r: Option<(Level, usize)>)
    requires
        p <= s.len(),
    ensures
        match r {
            Some((v, q)) => p < q <= s.len() && take_level(s@.skip(p as int)) == Some(
                (v, s@.skip(q as int)),
            ),
            None => take_level(s@.skip(p as int)) is None,
        },
{
    match read_u32(s, p) {
        Some((i, q)) => if i == 0 {
            Some((Level::Info, q))
        } else if i == 1 {
            Some((Level::Warn, q))
        } else if i == 2 {
            Some((Level::Error, q))
        } else {
            None
        },
        None => None,
    }
}

fn read_hello(s: &[u8], p: usize) -> (r: Option<(Hello, usize)>)
    requires
        p <= s.len(),
    ensures
        match r {
            Some((v, q)) => p < q <= s.len() && take_hello(s@.skip(p as int)) == Some(
                (v, s@.skip(q as int)),
            ),
            None => take_hello(s@.skip(p as int)) is None,
        },
{
    let (proto, p1) = match read_u16(s, p) {
        Some(x) => x,
        None => return None,
    };
    let (fw_git, p2) = match read_array8(s, p1) {
        Some(x) => x,
        None => return None,
    };
    let (board, p3) = match read_board(s, p2) {
        Some(x) => x,
        None => return None,
    };
    Some((Hello { proto, fw_git, board }, p3))
}

fn read_imu(s: &[u8], p: usize) -> (r: Option<(Imu, usize)>)
    requires
        p <= s.len(),
    ensures
        match r {
            Some((v, q)) => p < q <= s.len() && take_imu(s@.skip(p as int)) == Some(
                (v, s@.skip(q as int)),
            ),
            None => take_imu(s@.skip(p as int)) is None,
        },
{
    let (accel_g, p1) = match read_words3(s, p) {
        Some(x) => x,
        None => return None,
    };
    let (gyro_dps, p2) = match read_words3(s, p1) {
        Some(x) => x,
        None => return None,
    };
    let (temp_c, p3) = match read_word(s, p2) {
        Some(x) => x,
        None => return None,
    };
    Some((Imu { accel_g, gyro_dps, temp_c }, p3))
}

fn read_baro(s: &[u8], p: usize) -> (r: Option<(Baro, usize)>)
    requires
        p <= s.len(),
    ensures
        match r {
            Some((v, q)) => p < q <= s.len() && take_baro(s@.skip(p as int)) == Some(
                (v, s@.skip(q as int)),
            ),
            None => take_baro(s@.skip(p as int)) is None,
        },
{
    let (pressure_hpa, p1) = match read_word(s, p) {
        Some(x) => x,
        None => return None,
    };
    let (temp_c, p2) = match read_word(s, p1) {
        Some(x) => x,
        None => return None,
    };
    Some((Baro { pressure_hpa, temp_c }, p2))
}

fn read_mag(s: &[u8], p: usize) -> (r: Option<(Mag, usize)>)
    requires
        p <= s.len(),
    ensures
        match r {
            Some((v, q)) => p < q <= s.len() && take_mag(s@.skip(p as int)) == Some(
                (v, s@.skip(q as int)),
            ),
            None => take_mag(s@.skip(p as int)) is None,
        },
{
    let (field_ut, p1) = match read_words3(s, p) {
        Some(x) => x,
        None => return None,
    };
    let (temp_c, p2) = match read_word(s, p1) {
        Some(x) => x,
        None => return None,
    };
    Some((Mag { field_ut, temp_c }, p2))
}

fn read_fused(s: &[u8], p: usize) -> (r: Option<(Fused, usize)>)
    requires
        p <= s.len(),
    ensures
        match r {
            Some((v, q)) => p < q <= s.len() && take_fused(s@.skip(p as int)) == Some(
                (v, s@.skip(q as int)),
            ),
            None => take_fused(s@.skip(p as int)) is None,
        },
{
    if s.len() - p < 24 {
        return None;
    }
    let ghost t = s@.skip(p as int);
    let (roll_deg, p1) = match read_word(s, p) {
        Some(x) => x,
        None => return None,
    };
    let (pitch_deg, p2) = match read_word(s, p1) {
        Some(x) => x,
        None => return None,
    };
    let (yaw_deg, p3) = match read_word(s, p2) {
        Some(x) => x,
        None => return None,
    };
    let (altitude_m, p4) = match read_word(s, p3) {
        Some(x) => x,
        None => return None,
    };
    let (vertical_speed_mps, p5) = match read_word(s, p4) {
        Some(x) => x,
        None => return None,
    };
    let (baro_residual_m, p6) = match read_word(s, p5) {
        Some(x) => x,
        None => return None,
    };
    assert(t.skip(4) =~= s@.skip(p1 as int));
    assert(t.skip(8) =~= s@.skip(p2 as int));
    assert(t.skip(12) =~= s@.skip(p3 as int));
    assert(t.skip(16) =~= s@.skip(p4 as int));
    assert(t.skip(20) =~= s@.skip(p5 as int));
    assert(t.skip(24) =~= s@.skip(p6 as int));
    Some(
        (
            Fused {
                roll_deg,
                pitch_deg,
                yaw_deg,
                altitude_m,
                vertical_speed_mps,
                baro_residual_m,
            },
            p6,
        ),
    )
}

fn read_status(s: &[u8], p: usize) -> (r: Option<(Status, usize)>)
    requires
        p <= s.len(),
    ensures
        match r {
            Some((v, q)) => p < q <= s.len() && take_status(s@.skip(p as int)) == Some(
                (v, s@.skip(q as int)),
            ),
            None => take_status(s@.skip(p as int)) is None,
        },
{
    let (level, p1) = match read_level(s, p) {
        Some(x) => x,
        None => return None,
    };
    let (text, p2) = match read_array48(s, p1) {
        Some(x) => x,
        None => return None,
    };
    Some((Status { level, text }, p2))
}

fn read_msg(s: &[u8], p: usize) -> (r: Option<(Msg, usize)>)
    requires
        p <= s.len(),
    ensures
        match r {
            Some((v, q)) => p < q <= s.len() && take_msg(s@.skip(p as int)) == Some(
                (v, s@.skip(q as int)),
            ),
            None => take_msg(s@.skip(p as int)) is None,
        },
{
    let (d, q) = match read_u32(s, p) {
        Some(x) => x,
        None => return None,
    };
    if d == 0 {
        match read_hello(s, q) {
            Some((h, q2)) => Some((Msg::Hello(h), q2)),
            None => None,
        }
    } else if d == 1 {
        match read_u32(s, q) {
            Some((n, q2)) => Some((Msg::Tick(n), q2)),
            None => None,
        }
    } else if d == 2 {
        match read_imu(s, q) {
            Some((i, q2)) => Some((Msg::Imu(i), q2)),
            None => None,
        }
    } else if d == 3 {
        match read_baro(s, q) {
            Some((b, q2)) => Some((Msg::Baro(b), q2)),
            None => None,
        }
    } else if d == 4 {
        match read_mag(s, q) {
            Some((g, q2)) => Some((Msg::Mag(g), q2)),
            None => None,
        }
    } else if d == 5 {
        match read_fused(s, q) {
            Some((x, q2)) => Some((Msg::Fused(x), q2)),
            None => None,
        }
    } else if d == 6 {
        match read_status(s, q) {
            Some((st, q2)) => Some((Msg::Status(st), q2)),
            None => None,
        }
    } else {
        None
    }
}

/// The frame at the start of `bytes`, if they hold one; bytes after it are ignored.
pub fn read_frame(bytes: &[u8]) -> (r: Option<Frame>)
    ensures
        r == parse_frame(bytes@),
{
    assert(bytes@.skip(0) =~= bytes@);
    let (t_ms, p1) = match read_u32(bytes, 0) {
        Some(x) => x,
        None => return None,
    };
    match read_msg(bytes, p1) {
        Some((msg, _)) => Some(Frame { t_ms, msg }),
        None => None,
    }
}

} // verus!
