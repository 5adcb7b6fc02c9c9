//! The colour of a frame: a fixed function of what the frame shows, so that
//! a frame keeps its colour from one drawing to the next.

use vstd::prelude::*;
use vstd::std_specs::hash::DefaultHasherAdditionalSpecFns;
use std::collections::hash_map::DefaultHasher;
use std::hash::Hasher;

verus! {

/// A colour by hue, saturation and brightness, in whole numbers: the hue in
/// thousandths of a degree, the others in millionths of the full value.
#[derive(Clone, Copy, Debug, PartialEq, Eq, Structural)]
pub struct Hsva {
    pub h: u32,
    pub s: u32,
    pub v: u32,
    pub a: u32,
}

/// The full value of saturation, brightness and opacity.
pub const FULL: u32 = 1_000_000;

/// By how many hundredths hovering changes a frame's colour.
pub const HOVER_FACTOR: u32 = 30;

/// The first `n` bytes of `x`, lowest first.
pub open spec fn low_bytes(x: nat, n: nat) -> Seq<u8>
    decreases n,
{
    if n == 0 {
        Seq::empty()
    } else {
        seq![(x % 256) as u8] + low_bytes(x / 256, (n - 1) as nat)
    }
}

/// A coordinate as a number without sign: its distance from the least one.
pub open spec fn unsigned(x: i64) -> nat {
    (x - i64::MIN) as nat
}

/// What is hashed for a frame: weight, depth and the two ends, each as its
/// bytes, lowest first.
pub open spec fn frame_key(value: u64, depth: u32, min_x: i64, max_x: i64) -> Seq<Seq<u8>> {
    seq![
        low_bytes(value as nat, 8),
        low_bytes(depth as nat, 4),
        low_bytes(unsigned(min_x), 8),
        low_bytes(unsigned(max_x), 8),
    ]
}

/// The hash of a frame.
pub open spec fn frame_hash(value: u64, depth: u32, min_x: i64, max_x: i64) -> u64 {
    DefaultHasher::spec_finish(frame_key(value, depth, min_x, max_x))
}

/// The colour for a hash: a green between 118 and 160 degrees by the lowest
/// byte of the hash, a saturation between 0.76 and 0.84 by the next seven
/// bits, a brightness from 0.6 up by seven bits of the third byte.
pub open spec fn color_of_hash(hash: u64) -> Hsva {
    Hsva {
        h: (118_000 + (42_000 * (hash % 256)) / 255) as u32,
        s: (760_000 + (80_000 * ((hash / 256) % 128)) / 127) as u32,
        v: (600_000 + (300_000 * ((hash / 65_536) % 128)) / 255) as u32,
        a: FULL,
    }
}

/// The colour of a frame.
pub open spec fn frame_color(value: u64, depth: u32, min_x: i64, max_x: i64) -> Hsva {
    color_of_hash(frame_hash(value, depth, min_x, max_x))
}

/// A part of one, lowered by `factor` hundredths of itself; nothing is left
/// from a hundred hundredths on.
pub open spec fn lowered(part: u32, factor: u32) -> u32 {
    if factor >= 100 {
        0
    } else {
        ((part * (100 - factor)) / 100) as u32
    }
}

/// The colour of a hovered frame: paler and darker by `factor` hundredths,
/// with the hue and the opacity it had.
pub open spec fn dimmed(color: Hsva, factor: u32) -> Hsva {
    Hsva { h: color.h, s: lowered(color.s, factor), v: lowered(color.v, factor), a: color.a }
}

/// The first `n` bytes of `x`, lowest first.
fn bytes_of(x: u64, n: usize) -> (out: Vec<u8>)
    ensures
        out@ == low_bytes(x as nat, n as nat),
{
    let mut out: Vec<u8> = Vec::new();
    let mut rest: u64 = x;
    let mut i: usize = 0;
    while i < n
        invariant
            i <= n,
            low_bytes(x as nat, n as nat) == out@ + low_bytes(rest as nat, (n - i) as nat),
        decreases n - i,
    {
        proof {
            assert(out@ + (seq![(rest % 256) as u8] + low_bytes(
                (rest / 256) as nat,
                (n - i - 1) as nat,
            )) =~= out@.push((rest % 256) as u8) + low_bytes(
                (rest / 256) as nat,
                (n - i - 1) as nat,
            ));
        }
        out.push((rest % 256) as u8);
        rest = rest / 256;
        i = i + 1;
    }
    assert(out@ + Seq::<u8>::empty() =~= out@);
    out
}

/// A coordinate as a number without sign.
fn unsigned_of(x: i64) -> (r: u64)
    ensures
        r == unsigned(x),
{
    (x as i128 - i64::MIN as i128) as u64
}

/// The colour for a hash. The hue lies between 100 and 160 degrees, the
/// saturation between 0.6 and 1, the brightness between 0.6 and 0.9.
pub fn color_from_hash(hash: u64) -> (c: Hsva)
    ensures
        c == color_of_hash(hash),
        100_000 <= c.h <= 160_000,
        600_000 <= c.s <= 1_000_000,
        600_000 <= c.v <= 900_000,
        c.a == FULL,
{
    let b0: u64 = hash % 256;
    let b1: u64 = (hash / 256) % 128;
    let b2: u64 = (hash / 65_536) % 128;
    Hsva {
        h: (118_000 + (42_000 * b0) / 255) as u32,
        s: (760_000 + (80_000 * b1) / 127) as u32,
        v: (600_000 + (300_000 * b2) / 255) as u32,
        a: FULL,
    }
}

/// The colour of a frame of the given weight at the given depth that
/// reaches from `min_x` to `max_x`. The same frame always gets the same colour.
pub fn make_frame_color(value: u64, depth: u32, min_x: i64, max_x: i64) -> (c: Hsva)
    ensures
        c == frame_color(value, depth, min_x, max_x),
        100_000 <= c.h <= 160_000,
        600_000 <= c.s <= 1_000_000,
        600_000 <= c.v <= 900_000,
        c.a == FULL,
{
    let mut hasher = DefaultHasher::new();
    let value_bytes = bytes_of(value, 8);
    let depth_bytes = bytes_of(depth as u64, 4);
    let min_bytes = bytes_of(unsigned_of(min_x), 8);
    let max_bytes = bytes_of(unsigned_of(max_x), 8);
    hasher.write(value_bytes.as_slice());
    hasher.write(depth_bytes.as_slice());
    hasher.write(min_bytes.as_slice());
    hasher.write(max_bytes.as_slice());
    assert(hasher@ =~= frame_key(value, depth, min_x, max_x));
    color_from_hash(hasher.finish())
}

/// A part of one, lowered by `factor` hundredths of itself.
fn lower(part: u32, factor: u32) -> (r: u32)
    ensures
        r == lowered(part, factor),
        r <= part,
{
    if factor >= 100 {
        0
    } else {
        let by: u64 = 100 - factor as u64;
        assert(0 <= part as int * by as int <= part as int * 100) by (nonlinear_arith)
            requires
                0 <= part,
                0 <= by <= 100,
        ;
        ((part as u64 * by) / 100) as u32
    }
}

/// The colour of a hovered frame: the same hue and opacity, with no more
/// saturation and no more brightness than before.
pub fn saturate(color: Hsva, factor: u32) -> (c: Hsva)
    ensures
        c == dimmed(color, factor),
        c.h == color.h,
        c.a == color.a,
        c.s <= color.s,
        c.v <= color.v,
{
    Hsva { h: color.h, s: lower(color.s, factor), v: lower(color.v, factor), a: color.a }
}

} // verus!
