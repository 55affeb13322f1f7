//! Serialization of a framebuffer to the binary PPM (P6) format.

use vstd::prelude::*;
use crate::math::{SCALE, lemma_div_tz_bound};
use crate::vec3::{V3, Vec3};

verus! {

/// Byte of one color channel: the fixed-point value clamped to [0, 1] and
/// scaled to 0..=255, truncating toward zero.
pub open spec fn spec_channel_byte(v: int) -> u8 {
    if v <= 0 {
        0u8
    } else if v >= SCALE {
        255u8
    } else {
        ((v * 255) / (SCALE as int)) as u8
    }
}

pub fn channel_byte(v: i64) -> (r: u8)
    ensures
        r == spec_channel_byte(v as int),
{
    if v <= 0 {
        0
    } else if v >= SCALE {
        255
    } else {
        let q: u64 = ((v as u64) * 255) / (SCALE as u64);
        proof {
            lemma_div_tz_bound((v as int) * 255, SCALE as int, 255);
        }
        q as u8
    }
}

/// Decimal digits of `n`, most significant first, as ASCII bytes.
pub open spec fn spec_digits(n: nat) -> Seq<u8>
    decreases n,
{
    if n < 10 {
        seq![(48 + n) as u8]
    } else {
        spec_digits(n / 10).push((48 + n % 10) as u8)
    }
}

/// Append the decimal digits of `n`.
fn push_digits(n: u64, out: &mut Vec<u8>)
    ensures
        final(out)@ == old(out)@ + spec_digits(n as nat),
    decreases n,
{
    if n < 10 {
        out.push(48 + (n as u8));
        proof {
            assert(out@ =~= old(out)@ + spec_digits(n as nat));
        }
    } else {
        push_digits(n / 10, out);
        out.push(48 + ((n % 10) as u8));
        proof {
            assert(out@ =~= old(out)@ + spec_digits(n as nat));
        }
    }
}

/// The PPM header `P6\n<width> <height>\n255\n`, as ASCII bytes.
pub open spec fn spec_header(w: nat, h: nat) -> Seq<u8> {
    seq![80u8, 54u8, 10u8] + spec_digits(w) + seq![32u8] + spec_digits(h) + seq![
        10u8,
        50u8,
        53u8,
        53u8,
        10u8,
    ]
}

pub fn header_bytes(width: usize, height: usize) -> (r: Vec<u8>)
    ensures
        r@ == spec_header(width as nat, height as nat),
{
    let mut out: Vec<u8> = Vec::new();
    out.push(80);
    out.push(54);
    out.push(10);
    proof {
        assert(out@ =~= seq![80u8, 54u8, 10u8]);
    }
    push_digits(width as u64, &mut out);
    let ghost s1 = seq![80u8, 54u8, 10u8] + spec_digits(width as nat);
    out.push(32);
    proof {
        assert(out@ =~= s1 + seq![32u8]);
    }
    push_digits(height as u64, &mut out);
    let ghost s2 = s1 + seq![32u8] + spec_digits(height as nat);
    out.push(10);
    out.push(50);
    out.push(53);
    out.push(53);
    out.push(10);
    proof {
        assert(out@ =~= s2 + seq![10u8, 50u8, 53u8, 53u8, 10u8]);
        assert(out@ =~= spec_header(width as nat, height as nat));
    }
    out
}

/// The image body: three bytes per pixel in raster order, R then G then B.
pub open spec fn spec_body(pixels: Seq<V3>) -> Seq<u8>
    decreases pixels.len(),
{
    if pixels.len() == 0 {
        Seq::empty()
    } else {
        spec_body(pixels.drop_last()) + seq![
            spec_channel_byte(pixels.last().x),
            spec_channel_byte(pixels.last().y),
            spec_channel_byte(pixels.last().z),
        ]
    }
}

/// The body holds exactly three bytes per pixel.
pub proof fn lemma_spec_body_len(pixels: Seq<V3>)
    ensures
        spec_body(pixels).len() == 3 * pixels.len(),
    decreases pixels.len(),
{
    if pixels.len() > 0 {
        lemma_spec_body_len(pixels.drop_last());
    }
}

/// Serialize a framebuffer of `width * height` pixels as a complete PPM
/// file: the header, then exactly `width * height * 3` channel bytes.
pub fn ppm_bytes(fb: &Vec<Vec3>, width: usize, height: usize) -> (r: Vec<u8>)
    requires
        fb@.len() == width * height,
    ensures
        r@ == spec_header(width as nat, height as nat) + spec_body(
            fb@.map_values(|p: Vec3| p@),
        ),
        r@.len() == spec_header(width as nat, height as nat).len() + width * height * 3,
{
    let mut out = header_bytes(width, height);
    let ghost hdr = out@;
    let ghost pix = fb@.map_values(|p: Vec3| p@);
    proof {
        assert(pix.take(0) =~= Seq::<V3>::empty());
        assert(out@ =~= hdr + spec_body(pix.take(0)));
    }
    let n = fb.len();
    let mut k: usize = 0;
    while k < n
        invariant
            k <= n,
            n == fb@.len(),
            pix == fb@.map_values(|p: Vec3| p@),
            hdr == spec_header(width as nat, height as nat),
            out@ == hdr + spec_body(pix.take(k as int)),
        decreases n - k,
    {
        let p = fb[k];
        out.push(channel_byte(p.x));
        out.push(channel_byte(p.y));
        out.push(channel_byte(p.z));
        proof {
            assert(pix.take(k as int + 1).drop_last() =~= pix.take(k as int));
            assert(pix.take(k as int + 1).last() == pix[k as int]);
            assert(pix[k as int] == fb@[k as int]@);
            assert(out@ =~= hdr + spec_body(pix.take(k as int + 1)));
        }
        k = k + 1;
    }
    proof {
        assert(pix.take(n as int) =~= pix);
        lemma_spec_body_len(pix);
        assert(3 * (width * height) == width * height * 3) by (nonlinear_arith);
    }
    out
}

} // verus!
