//! The wire layout of every message, stated byte for byte.
//!
//! These laws pin what [`crate::codec::encode`] stuffs and what the decoder reads to the
//! layout postcard gives the frame types: the timestamp varint, the variant index in
//! declaration order (`Hello` 0 up to `Status` 6), then the fields in declaration order,
//! enum fields by their declaration index, `f32` bit patterns as four little-endian bytes.
//! Each law states both directions for every field value: the writer's bytes, and what the
//! reader makes of those bytes followed by anything. Further laws say what the reader
//! refuses: values wider than their field, unknown board and level indices, and frames cut
//! short.
use vstd::prelude::*;
use crate::frames::{Baro, Board, Frame, Fused, Hello, Imu, Level, Mag, Msg, Status};
use crate::wire::{
    frame_bytes, lemma_bytes8_roundtrip, lemma_frame_roundtrip, lemma_take_varint_bound,
    lemma_u16_roundtrip, lemma_u32_roundtrip, parse_frame, pow128, take_baro, take_board,
    take_bytes48, take_bytes8, take_frame, take_fused, take_hello, take_imu, take_level,
    take_mag, take_msg, take_status, take_u16, take_u32, take_varint, take_word, take_words3,
    varint_bytes, word_bytes, word_value,
};

verus! {

// ---------------------------------------------------------------------------------------
// Numbers
// ---------------------------------------------------------------------------------------

/// The number a base-128 varint spells: seven bits per byte, low group first.
pub open spec fn varint_value(s: Seq<u8>) -> nat
    decreases s.len(),
{
    if s.len() == 0 {
        0
    } else {
        (s[0] % 128) as nat + 128 * varint_value(s.drop_first())
    }
}

/// A varint is at least one byte; every byte but the last has its high bit set, the last
/// has it clear and is non-zero unless the value is; and the low seven bits of the bytes,
/// low group first, spell the value.
pub proof fn lemma_varint_layout(v: nat)
    ensures
        varint_bytes(v).len() >= 1,
        forall|i: int| 0 <= i < varint_bytes(v).len() - 1 ==> varint_bytes(v)[i] >= 128,
        varint_bytes(v).last() < 128,
        v > 0 ==> varint_bytes(v).last() != 0,
        varint_value(varint_bytes(v)) == v,
    decreases v,
{
    let s = varint_bytes(v);
    if v < 128 {
        assert(s[0] == v);
        assert(s.drop_first() =~= Seq::<u8>::empty());
        assert(varint_value(s.drop_first()) == 0);
    } else {
        lemma_varint_layout(v / 128);
        let t = varint_bytes(v / 128);
        assert(s.drop_first() =~= t);
        assert(s.last() == t.last());
        assert forall|i: int| 0 <= i < s.len() - 1 implies s[i] >= 128 by {
            if i > 0 {
                assert(s[i] == t[i - 1]);
            }
        }
        assert(s[0] == v % 128 + 128);
        assert(s[0] % 128 == v % 128);
        assert(v == v % 128 + 128 * (v / 128));
    }
}

/// A word goes on the wire as its four bytes, least significant first.
pub proof fn lemma_word_little_endian(w: u32)
    ensures
        word_bytes(w).len() == 4,
        w == word_bytes(w)[0] + 256 * word_bytes(w)[1] + 65536 * word_bytes(w)[2] + 16777216
            * word_bytes(w)[3],
{
    let b0 = w & 0xff;
    let b1 = (w >> 8u32) & 0xff;
    let b2 = (w >> 16u32) & 0xff;
    let b3 = w >> 24u32;
    assert(b0 < 256 && b1 < 256 && b2 < 256 && b3 < 256) by (bit_vector)
        requires
            b0 == w & 0xff,
            b1 == (w >> 8u32) & 0xff,
            b2 == (w >> 16u32) & 0xff,
            b3 == w >> 24u32,
    ;
    assert(w == b0 + 256 * b1 + 65536 * b2 + 16777216 * b3) by (bit_vector)
        requires
            b0 == w & 0xff,
            b1 == (w >> 8u32) & 0xff,
            b2 == (w >> 16u32) & 0xff,
            b3 == w >> 24u32,
    ;
    assert(word_bytes(w)[0] == b0);
    assert(word_bytes(w)[1] == b1);
    assert(word_bytes(w)[2] == b2);
    assert(word_bytes(w)[3] == b3);
}

// ---------------------------------------------------------------------------------------
// Messages
// ---------------------------------------------------------------------------------------

/// `Hello` (variant 0): the protocol version as a `u16` varint, whatever the board; the
/// eight commit bytes as they are; the board by declaration index (`ArkDiscovery` 0,
/// `HolybroDiscovery` 1, `Unknown` 2).
pub proof fn lemma_hello_layout(t_ms: u32, proto: u16, fw_git: [u8; 8], board: Board, rest: Seq<u8>)
    ensures
        ({
            let f = Frame { t_ms, msg: Msg::Hello(Hello { proto, fw_git, board }) };
            let b: u8 = match board {
                Board::ArkDiscovery => 0,
                Board::HolybroDiscovery => 1,
                Board::Unknown => 2,
            };
            let bytes = varint_bytes(t_ms as nat) + seq![0u8] + varint_bytes(proto as nat)
                + fw_git@ + seq![b];
            &&& frame_bytes(f) == bytes
            &&& parse_frame(bytes + rest) == Some(f)
        }),
{
    let f = Frame { t_ms, msg: Msg::Hello(Hello { proto, fw_git, board }) };
    let b: u8 = match board {
        Board::ArkDiscovery => 0,
        Board::HolybroDiscovery => 1,
        Board::Unknown => 2,
    };
    let bytes = varint_bytes(t_ms as nat) + seq![0u8] + varint_bytes(proto as nat) + fw_git@
        + seq![b];
    assert(varint_bytes(0) =~= seq![0u8]);
    assert(varint_bytes(b as nat) =~= seq![b]);
    assert(frame_bytes(f) =~= bytes);
    lemma_frame_roundtrip(f, rest);
}

/// `Tick` (variant 1): the counter as a `u32` varint.
pub proof fn lemma_tick_layout(t_ms: u32, n: u32, rest: Seq<u8>)
    ensures
        ({
            let f = Frame { t_ms, msg: Msg::Tick(n) };
            let bytes = varint_bytes(t_ms as nat) + seq![1u8] + varint_bytes(n as nat);
            &&& frame_bytes(f) == bytes
            &&& parse_frame(bytes + rest) == Some(f)
        }),
{
    let f = Frame { t_ms, msg: Msg::Tick(n) };
    let bytes = varint_bytes(t_ms as nat) + seq![1u8] + varint_bytes(n as nat);
    assert(varint_bytes(1) =~= seq![1u8]);
    assert(frame_bytes(f) =~= bytes);
    lemma_frame_roundtrip(f, rest);
}

/// `Imu` (variant 2): acceleration x, y, z, then angular rate x, y, z, then temperature,
/// each a little-endian word.
#[verifier::rlimit(40)]
pub proof fn lemma_imu_layout(t_ms: u32, accel_g: [u32; 3], gyro_dps: [u32; 3], temp_c: u32, rest: Seq<u8>)
    ensures
        ({
            let f = Frame { t_ms, msg: Msg::Imu(Imu { accel_g, gyro_dps, temp_c }) };
            let bytes = varint_bytes(t_ms as nat) + seq![2u8] + word_bytes(accel_g[0])
                + word_bytes(accel_g[1]) + word_bytes(accel_g[2]) + word_bytes(gyro_dps[0])
                + word_bytes(gyro_dps[1]) + word_bytes(gyro_dps[2]) + word_bytes(temp_c);
            &&& frame_bytes(f) == bytes
            &&& parse_frame(bytes + rest) == Some(f)
        }),
{
    let f = Frame { t_ms, msg: Msg::Imu(Imu { accel_g, gyro_dps, temp_c }) };
    let bytes = varint_bytes(t_ms as nat) + seq![2u8] + word_bytes(accel_g[0]) + word_bytes(
        accel_g[1],
    ) + word_bytes(accel_g[2]) + word_bytes(gyro_dps[0]) + word_bytes(gyro_dps[1])
        + word_bytes(gyro_dps[2]) + word_bytes(temp_c);
    assert(varint_bytes(2) =~= seq![2u8]);
    let a = word_bytes(accel_g[0]) + word_bytes(accel_g[1]) + word_bytes(accel_g[2]);
    let g = word_bytes(gyro_dps[0]) + word_bytes(gyro_dps[1]) + word_bytes(gyro_dps[2]);
    let head = varint_bytes(t_ms as nat) + seq![2u8];
    assert(bytes =~= head + (a + g + word_bytes(temp_c)));
    assert(frame_bytes(f) =~= head + (a + g + word_bytes(temp_c)));
    lemma_frame_roundtrip(f, rest);
}

/// `Baro` (variant 3): pressure, then temperature, each a little-endian word.
pub proof fn lemma_baro_layout(t_ms: u32, pressure_hpa: u32, temp_c: u32, rest: Seq<u8>)
    ensures
        ({
            let f = Frame { t_ms, msg: Msg::Baro(Baro { pressure_hpa, temp_c }) };
            let bytes = varint_bytes(t_ms as nat) + seq![3u8] + word_bytes(pressure_hpa)
                + word_bytes(temp_c);
            &&& frame_bytes(f) == bytes
            &&& parse_frame(bytes + rest) == Some(f)
        }),
{
    let f = Frame { t_ms, msg: Msg::Baro(Baro { pressure_hpa, temp_c }) };
    let bytes = varint_bytes(t_ms as nat) + seq![3u8] + word_bytes(pressure_hpa) + word_bytes(
        temp_c,
    );
    assert(varint_bytes(3) =~= seq![3u8]);
    assert(frame_bytes(f) =~= bytes);
    lemma_frame_roundtrip(f, rest);
}

/// `Mag` (variant 4): field x, y, z, then temperature, each a little-endian word.
pub proof fn lemma_mag_layout(t_ms: u32, field_ut: [u32; 3], temp_c: u32, rest: Seq<u8>)
    ensures
        ({
            let f = Frame { t_ms, msg: Msg::Mag(Mag { field_ut, temp_c }) };
            let bytes = varint_bytes(t_ms as nat) + seq![4u8] + word_bytes(field_ut[0])
                + word_bytes(field_ut[1]) + word_bytes(field_ut[2]) + word_bytes(temp_c);
            &&& frame_bytes(f) == bytes
            &&& parse_frame(bytes + rest) == Some(f)
        }),
{
    let f = Frame { t_ms, msg: Msg::Mag(Mag { field_ut, temp_c }) };
    let bytes = varint_bytes(t_ms as nat) + seq![4u8] + word_bytes(field_ut[0]) + word_bytes(
        field_ut[1],
    ) + word_bytes(field_ut[2]) + word_bytes(temp_c);
    assert(varint_bytes(4) =~= seq![4u8]);
    assert(frame_bytes(f) =~= bytes);
    lemma_frame_roundtrip(f, rest);
}

/// `Fused` (variant 5): roll, pitch, yaw, altitude, vertical speed, baro residual, in that
/// order whatever their values, each a little-endian word.
pub proof fn lemma_fused_layout(
    t_ms: u32,
    roll_deg: u32,
    pitch_deg: u32,
    yaw_deg: u32,
    altitude_m: u32,
    vertical_speed_mps: u32,
    baro_residual_m: u32,
    rest: Seq<u8>,
)
    ensures
        ({
            let f = Frame {
                t_ms,
                msg: Msg::Fused(
                    Fused {
                        roll_deg,
                        pitch_deg,
                        yaw_deg,
                        altitude_m,
                        vertical_speed_mps,
                        baro_residual_m,
                    },
                ),
            };
            let bytes = varint_bytes(t_ms as nat) + seq![5u8] + word_bytes(roll_deg) + word_bytes(
                pitch_deg,
            ) + word_bytes(yaw_deg) + word_bytes(altitude_m) + word_bytes(vertical_speed_mps)
                + word_bytes(baro_residual_m);
            &&& frame_bytes(f) == bytes
            &&& parse_frame(bytes + rest) == Some(f)
        }),
{
    let f = Frame {
        t_ms,
        msg: Msg::Fused(
            Fused { roll_deg, pitch_deg, yaw_deg, altitude_m, vertical_speed_mps, baro_residual_m },
        ),
    };
    let bytes = varint_bytes(t_ms as nat) + seq![5u8] + word_bytes(roll_deg) + word_bytes(
        pitch_deg,
    ) + word_bytes(yaw_deg) + word_bytes(altitude_m) + word_bytes(vertical_speed_mps)
        + word_bytes(baro_residual_m);
    assert(varint_bytes(5) =~= seq![5u8]);
    assert(frame_bytes(f) =~= bytes);
    lemma_frame_roundtrip(f, rest);
}

/// `Status` (variant 6): the level by declaration index (`Info` 0, `Warn` 1, `Error` 2),
/// then the 48 text bytes as they are.
pub proof fn lemma_status_layout(t_ms: u32, level: Level, text: [u8; 48], rest: Seq<u8>)
    ensures
        ({
            let f = Frame { t_ms, msg: Msg::Status(Status { level, text }) };
            let l: u8 = match level {
                Level::Info => 0,
                Level::Warn => 1,
                Level::Error => 2,
            };
            let bytes = varint_bytes(t_ms as nat) + seq![6u8] + seq![l] + text@;
            &&& frame_bytes(f) == bytes
            &&& parse_frame(bytes + rest) == Some(f)
        }),
{
    let f = Frame { t_ms, msg: Msg::Status(Status { level, text }) };
    let l: u8 = match level {
        Level::Info => 0,
        Level::Warn => 1,
        Level::Error => 2,
    };
    let bytes = varint_bytes(t_ms as nat) + seq![6u8] + seq![l] + text@;
    assert(varint_bytes(6) =~= seq![6u8]);
    assert(varint_bytes(l as nat) =~= seq![l]);
    assert(frame_bytes(f) =~= bytes);
    lemma_frame_roundtrip(f, rest);
}

// ---------------------------------------------------------------------------------------
// What is not a frame
// ---------------------------------------------------------------------------------------

/// Reading a canonical varint, if it succeeds at all, gives its value and the bytes after it.
proof fn lemma_take_varint_canonical(v: nat, rest: Seq<u8>, left: nat, last_max: u8)
    ensures
        take_varint(varint_bytes(v) + rest, left, last_max) matches Some((x, r)) ==> x == v && r
            == rest,
    decreases v,
{
    let s = varint_bytes(v) + rest;
    if v < 128 {
        assert(s[0] == v);
        assert(s.drop_first() =~= rest);
    } else {
        lemma_take_varint_canonical(v / 128, rest, (left - 1) as nat, last_max);
        assert(s.drop_first() =~= varint_bytes(v / 128) + rest);
        assert(s[0] == v % 128 + 128);
    }
}

proof fn lemma_pow128_widths()
    ensures
        pow128(2) * 4 == 0x10000,
        pow128(4) * 16 == 0x1_0000_0000,
{
    reveal_with_fuel(pow128, 5);
}

/// A varint whose value needs more than 32 bits is not a `u32`.
proof fn lemma_wide_u32(v: nat, rest: Seq<u8>)
    requires
        v >= 0x1_0000_0000,
    ensures
        take_u32(varint_bytes(v) + rest) is None,
{
    lemma_take_varint_canonical(v, rest, 5, 15);
    lemma_take_varint_bound(varint_bytes(v) + rest, 5, 15);
    lemma_pow128_widths();
}

/// A varint whose value needs more than 16 bits is not a `u16`.
proof fn lemma_wide_u16(v: nat, rest: Seq<u8>)
    requires
        v >= 0x10000,
    ensures
        take_u16(varint_bytes(v) + rest) is None,
{
    lemma_take_varint_canonical(v, rest, 3, 3);
    lemma_take_varint_bound(varint_bytes(v) + rest, 3, 3);
    lemma_pow128_widths();
}

/// A timestamp wider than 32 bits makes the bytes unreadable, whatever follows.
pub proof fn lemma_wide_timestamp_unreadable(t: nat, rest: Seq<u8>)
    requires
        t >= 0x1_0000_0000,
    ensures
        parse_frame(varint_bytes(t) + rest) is None,
{
    lemma_wide_u32(t, rest);
}

/// A `Hello` whose protocol version is wider than 16 bits is unreadable, whatever follows.
pub proof fn lemma_wide_proto_unreadable(t_ms: u32, proto: nat, rest: Seq<u8>)
    requires
        proto >= 0x10000,
    ensures
        parse_frame(varint_bytes(t_ms as nat) + seq![0u8] + varint_bytes(proto) + rest) is None,
{
    let x = varint_bytes(proto) + rest;
    let m = seq![0u8] + x;
    assert(varint_bytes(t_ms as nat) + seq![0u8] + varint_bytes(proto) + rest =~= varint_bytes(
        t_ms as nat,
    ) + m);
    lemma_u32_roundtrip(t_ms, m);
    assert(varint_bytes(0) =~= seq![0u8]);
    lemma_u32_roundtrip(0, x);
    lemma_wide_u16(proto, rest);
}

/// A `Hello` naming a board index this build does not know (3 and up) is unreadable.
pub proof fn lemma_unknown_board_unreadable(t_ms: u32, proto: u16, fw_git: [u8; 8], b: u8, rest: Seq<u8>)
    requires
        3 <= b < 128,
    ensures
        parse_frame(
            varint_bytes(t_ms as nat) + seq![0u8] + varint_bytes(proto as nat) + fw_git@ + seq![b]
                + rest,
        ) is None,
{
    let r3 = seq![b] + rest;
    let r2 = fw_git@ + r3;
    let x = varint_bytes(proto as nat) + r2;
    let m = seq![0u8] + x;
    assert(varint_bytes(t_ms as nat) + seq![0u8] + varint_bytes(proto as nat) + fw_git@ + seq![b]
        + rest =~= varint_bytes(t_ms as nat) + m);
    lemma_u32_roundtrip(t_ms, m);
    assert(varint_bytes(0) =~= seq![0u8]);
    lemma_u32_roundtrip(0, x);
    lemma_u16_roundtrip(proto, r2);
    lemma_bytes8_roundtrip(fw_git, r3);
    assert(varint_bytes(b as nat) =~= seq![b]);
    lemma_u32_roundtrip(b as u32, rest);
}

/// A `Status` naming a level index this build does not know (3 and up) is unreadable.
pub proof fn lemma_unknown_level_unreadable(t_ms: u32, l: u8, rest: Seq<u8>)
    requires
        3 <= l < 128,
    ensures
        parse_frame(varint_bytes(t_ms as nat) + seq![6u8] + seq![l] + rest) is None,
{
    let x = seq![l] + rest;
    let m = seq![6u8] + x;
    assert(varint_bytes(t_ms as nat) + seq![6u8] + seq![l] + rest =~= varint_bytes(t_ms as nat)
        + m);
    lemma_u32_roundtrip(t_ms, m);
    assert(varint_bytes(6) =~= seq![6u8]);
    lemma_u32_roundtrip(6, x);
    assert(varint_bytes(l as nat) =~= seq![l]);
    lemma_u32_roundtrip(l as u32, rest);
}

// ---------------------------------------------------------------------------------------
// Reading looks only at the bytes it needs
// ---------------------------------------------------------------------------------------

proof fn lemma_varint_extends(p: Seq<u8>, q: Seq<u8>, left: nat, last_max: u8)
    ensures
        take_varint(p, left, last_max) matches Some((v, r)) ==> take_varint(p + q, left, last_max)
            == Some((v, r + q)),
    decreases left,
{
    if left > 0 && p.len() > 0 {
        assert((p + q)[0] == p[0]);
        assert((p + q).drop_first() =~= p.drop_first() + q);
        if p[0] >= 128 {
            lemma_varint_extends(p.drop_first(), q, (left - 1) as nat, last_max);
        }
    }
}

proof fn lemma_u32_extends(p: Seq<u8>, q: Seq<u8>)
    ensures
        take_u32(p) matches Some((v, r)) ==> take_u32(p + q) == Some((v, r + q)),
{
    lemma_varint_extends(p, q, 5, 15);
}

proof fn lemma_u16_extends(p: Seq<u8>, q: Seq<u8>)
    ensures
        take_u16(p) matches Some((v, r)) ==> take_u16(p + q) == Some((v, r + q)),
{
    lemma_varint_extends(p, q, 3, 3);
}

proof fn lemma_word_value_extends(p: Seq<u8>, q: Seq<u8>, k: int)
    requires
        0 <= k,
        k + 4 <= p.len(),
    ensures
        word_value((p + q).skip(k)) == word_value(p.skip(k)),
        (p + q).skip(k) =~= p.skip(k) + q,
{
    assert((p + q).skip(k) =~= p.skip(k) + q);
}

proof fn lemma_word_extends(p: Seq<u8>, q: Seq<u8>)
    ensures
        take_word(p) matches Some((v, r)) ==> take_word(p + q) == Some((v, r + q)),
{
    if p.len() >= 4 {
        lemma_word_value_extends(p, q, 0);
        assert(p.skip(0) =~= p);
        assert((p + q).skip(0) =~= p + q);
        assert((p + q).skip(4) =~= p.skip(4) + q);
    }
}

proof fn lemma_words3_extends(p: Seq<u8>, q: Seq<u8>)
    ensures
        take_words3(p) matches Some((v, r)) ==> take_words3(p + q) == Some((v, r + q)),
{
    if p.len() >= 12 {
        lemma_word_value_extends(p, q, 0);
        lemma_word_value_extends(p, q, 4);
        lemma_word_value_extends(p, q, 8);
        assert(p.skip(0) =~= p);
        assert((p + q).skip(0) =~= p + q);
        assert((p + q).skip(12) =~= p.skip(12) + q);
    }
}

proof fn lemma_bytes8_extends(p: Seq<u8>, q: Seq<u8>)
    ensures
        take_bytes8(p) matches Some((v, r)) ==> take_bytes8(p + q) == Some((v, r + q)),
{
    if p.len() >= 8 {
        assert((p + q).take(8) =~= p.take(8));
        assert((p + q).skip(8) =~= p.skip(8) + q);
    }
}

proof fn lemma_bytes48_extends(p: Seq<u8>, q: Seq<u8>)
    ensures
        take_bytes48(p) matches Some((v, r)) ==> take_bytes48(p + q) == Some((v, r + q)),
{
    if p.len() >= 48 {
        assert((p + q).take(48) =~= p.take(48));
        assert((p + q).skip(48) =~= p.skip(48) + q);
    }
}

proof fn lemma_hello_extends(p: Seq<u8>, q: Seq<u8>)
    ensures
        take_hello(p) matches Some((v, r)) ==> take_hello(p + q) == Some((v, r + q)),
{
    lemma_u16_extends(p, q);
    if let Some((_, r1)) = take_u16(p) {
        lemma_bytes8_extends(r1, q);
        if let Some((_, r2)) = take_bytes8(r1) {
            lemma_u32_extends(r2, q);
        }
    }
}

proof fn lemma_imu_extends(p: Seq<u8>, q: Seq<u8>)
    ensures
        take_imu(p) matches Some((v, r)) ==> take_imu(p + q) == Some((v, r + q)),
{
    lemma_words3_extends(p, q);
    if let Some((_, r1)) = take_words3(p) {
        lemma_words3_extends(r1, q);
        if let Some((_, r2)) = take_words3(r1) {
            lemma_word_extends(r2, q);
        }
    }
}

proof fn lemma_baro_extends(p: Seq<u8>, q: Seq<u8>)
    ensures
        take_baro(p) matches Some((v, r)) ==> take_baro(p + q) == Some((v, r + q)),
{
    lemma_word_extends(p, q);
    if let Some((_, r1)) = take_word(p) {
        lemma_word_extends(r1, q);
    }
}

proof fn lemma_mag_extends(p: Seq<u8>, q: Seq<u8>)
    ensures
        take_mag(p) matches Some((v, r)) ==> take_mag(p + q) == Some((v, r + q)),
{
    lemma_words3_extends(p, q);
    if let Some((_, r1)) = take_words3(p) {
        lemma_word_extends(r1, q);
    }
}

proof fn lemma_fused_extends(p: Seq<u8>, q: Seq<u8>)
    ensures
        take_fused(p) matches Some((v, r)) ==> take_fused(p + q) == Some((v, r + q)),
{
    if p.len() >= 24 {
        lemma_word_value_extends(p, q, 0);
        lemma_word_value_extends(p, q, 4);
        lemma_word_value_extends(p, q, 8);
        lemma_word_value_extends(p, q, 12);
        lemma_word_value_extends(p, q, 16);
        lemma_word_value_extends(p, q, 20);
        assert(p.skip(0) =~= p);
        assert((p + q).skip(0) =~= p + q);
        assert((p + q).skip(24) =~= p.skip(24) + q);
    }
}

proof fn lemma_status_extends(p: Seq<u8>, q: Seq<u8>)
    ensures
        take_status(p) matches Some((v, r)) ==> take_status(p + q) == Some((v, r + q)),
{
    lemma_u32_extends(p, q);
    if let Some((_, r1)) = take_level(p) {
        lemma_bytes48_extends(r1, q);
    }
}

proof fn lemma_msg_extends(p: Seq<u8>, q: Seq<u8>)
    ensures
        take_msg(p) matches Some((v, r)) ==> take_msg(p + q) == Some((v, r + q)),
{
    lemma_u32_extends(p, q);
    if let Some((_, r)) = take_u32(p) {
        lemma_hello_extends(r, q);
        lemma_u32_extends(r, q);
        lemma_imu_extends(r, q);
        lemma_baro_extends(r, q);
        lemma_mag_extends(r, q);
        lemma_fused_extends(r, q);
        lemma_status_extends(r, q);
    }
}

proof fn lemma_frame_extends(p: Seq<u8>, q: Seq<u8>)
    ensures
        take_frame(p) matches Some((v, r)) ==> take_frame(p + q) == Some((v, r + q)),
{
    lemma_u32_extends(p, q);
    if let Some((_, r1)) = take_u32(p) {
        lemma_msg_extends(r1, q);
    }
}

/// Bytes after a readable frame change nothing: the same frame is read.
pub proof fn lemma_parse_ignores_trailing(p: Seq<u8>, q: Seq<u8>)
    ensures
        parse_frame(p) is Some ==> parse_frame(p + q) == parse_frame(p),
{
    lemma_frame_extends(p, q);
}

/// A frame's wire bytes cut short anywhere are unreadable: no field is made up from bytes
/// that are not there.
pub proof fn lemma_truncated_unreadable(f: Frame, n: int)
    requires
        0 <= n < frame_bytes(f).len(),
    ensures
        parse_frame(frame_bytes(f).take(n)) is None,
{
    let b = frame_bytes(f);
    let p = b.take(n);
    let q = b.skip(n);
    assert(p + q =~= b);
    lemma_frame_roundtrip(f, Seq::empty());
    assert(b + Seq::<u8>::empty() =~= b);
    lemma_frame_extends(p, q);
    if let Some((g, r)) = take_frame(p) {
        assert((r + q).len() == 0);
    }
}

} // verus!
