//! Binary pixel-map serialization: an ASCII header followed by one 3-byte
//! RGB triple per pixel in row-major order.

use vstd::prelude::*;

verus! {

use crate::GraphikBuilder;

/// The decimal digits of `n`, most significant first, no leading zeros.
pub open spec fn dec_digits(n: nat) -> Seq<u8>
    decreases n,
{
    if n < 10 {
        seq![(48 + n) as u8]
    } else {
        dec_digits(n / 10) + seq![(48 + n % 10) as u8]
    }
}

/// The ASCII header `P6\n<width> <height> 255\n`.
pub open spec fn header_bytes(w: nat, h: nat) -> Seq<u8> {
    seq![80u8, 54u8, 10u8] + dec_digits(w) + seq![32u8] + dec_digits(h) + seq![
        32u8,
        50u8,
        53u8,
        53u8,
        10u8,
    ]
}

/// The three emitted channel bytes of a packed color: bits `[0, 8)`,
/// `[8, 16)` and `[16, 24)`; the top byte is never emitted.
pub open spec fn pixel_bytes(p: u32) -> Seq<u8> {
    seq![(p & 0xff) as u8, ((p >> 8) & 0xff) as u8, ((p >> 16) & 0xff) as u8]
}

/// The pixel body: three bytes per pixel, in storage order.
pub open spec fn body_bytes(pixels: Seq<u32>) -> Seq<u8>
    decreases pixels.len(),
{
    if pixels.len() == 0 {
        Seq::empty()
    } else {
        body_bytes(pixels.drop_last()) + pixel_bytes(pixels.last())
    }
}

/// The full serialized image: header, then body.
pub open spec fn ppm_bytes(w: nat, h: nat, pixels: Seq<u32>) -> Seq<u8> {
    header_bytes(w, h) + body_bytes(pixels)
}

/// The body holds exactly three bytes per pixel.
pub proof fn lemma_body_bytes_len(pixels: Seq<u32>)
    ensures
        body_bytes(pixels).len() == 3 * pixels.len(),
    decreases pixels.len(),
{
    if pixels.len() > 0 {
        lemma_body_bytes_len(pixels.drop_last());
    }
}

/// Every decimal digit byte is in the ASCII range `'0'..='9'`.
pub proof fn lemma_dec_digits_are_digits(n: nat)
    ensures
        dec_digits(n).len() >= 1,
        forall|i: int| 0 <= i < dec_digits(n).len() ==> 48 <= #[trigger] dec_digits(n)[i] <= 57,
    decreases n,
{
    if n >= 10 {
        lemma_dec_digits_are_digits(n / 10);
    }
}

/// Distinct numbers have distinct decimal digit sequences.
pub proof fn lemma_dec_digits_injective(a: nat, b: nat)
    requires
        dec_digits(a) == dec_digits(b),
    ensures
        a == b,
    decreases a,
{
    lemma_dec_digits_are_digits(a);
    lemma_dec_digits_are_digits(b);
    if a < 10 && b < 10 {
        assert(dec_digits(a)[0] == (48 + a) as u8);
        assert(dec_digits(b)[0] == (48 + b) as u8);
        assert(48 + a < 256 && 48 + b < 256);
        assert(dec_digits(a)[0] == dec_digits(b)[0]);
    } else if a < 10 {
        lemma_dec_digits_are_digits(b / 10);
        assert(dec_digits(b).len() >= 2);
    } else if b < 10 {
        lemma_dec_digits_are_digits(a / 10);
        assert(dec_digits(a).len() >= 2);
    } else {
        assert(dec_digits(a) == dec_digits(a / 10) + seq![(48 + a % 10) as u8]);
        assert(dec_digits(b) == dec_digits(b / 10) + seq![(48 + b % 10) as u8]);
        assert(dec_digits(a).last() == (48 + a % 10) as u8);
        assert(dec_digits(b).last() == (48 + b % 10) as u8);
        assert(48 + a % 10 < 256 && 48 + b % 10 < 256);
        assert(a % 10 == b % 10);
        assert(dec_digits(a).drop_last() =~= dec_digits(a / 10));
        assert(dec_digits(b).drop_last() =~= dec_digits(b / 10));
        lemma_dec_digits_injective(a / 10, b / 10);
    }
}

/// The header determines the dimensions: equal headers mean equal width and
/// equal height, so the serialized image's stated dimensions are exactly the
/// buffer's.
pub proof fn lemma_header_bytes_injective(w1: nat, h1: nat, w2: nat, h2: nat)
    requires
        header_bytes(w1, h1) == header_bytes(w2, h2),
    ensures
        w1 == w2,
        h1 == h2,
{
    lemma_dec_digits_are_digits(w1);
    lemma_dec_digits_are_digits(w2);
    lemma_dec_digits_are_digits(h1);
    lemma_dec_digits_are_digits(h2);
    let a1 = dec_digits(w1);
    let a2 = dec_digits(w2);
    let b1 = dec_digits(h1);
    let b2 = dec_digits(h2);
    // The width fields end at the first space, so they have equal length.
    if a1.len() < a2.len() {
        assert(header_bytes(w1, h1)[3 + a1.len() as int] == 32);
        assert(header_bytes(w2, h2)[3 + a1.len() as int] == a2[a1.len() as int]);
    } else if a2.len() < a1.len() {
        assert(header_bytes(w2, h2)[3 + a2.len() as int] == 32);
        assert(header_bytes(w1, h1)[3 + a2.len() as int] == a1[a2.len() as int]);
    }
    assert(a1.len() == a2.len());
    assert forall|i: int| 0 <= i < a1.len() implies a1[i] == a2[i] by {
        assert(header_bytes(w1, h1)[3 + i] == a1[i]);
        assert(header_bytes(w2, h2)[3 + i] == a2[i]);
    }
    assert(a1 =~= a2);
    lemma_dec_digits_injective(w1, w2);
    // Equal total lengths now force equal height field lengths.
    assert(header_bytes(w1, h1).len() == 9 + a1.len() + b1.len());
    assert(header_bytes(w2, h2).len() == 9 + a2.len() + b2.len());
    assert(b1.len() == b2.len());
    assert forall|i: int| 0 <= i < b1.len() implies b1[i] == b2[i] by {
        assert(header_bytes(w1, h1)[4 + a1.len() as int + i] == b1[i]);
        assert(header_bytes(w2, h2)[4 + a2.len() as int + i] == b2[i]);
    }
    assert(b1 =~= b2);
    lemma_dec_digits_injective(h1, h2);
}

/// The serialized image splits exactly into the header and the body: the
/// header is the prefix, the body is the rest, and the body holds three
/// bytes per pixel.
pub proof fn lemma_ppm_layout(w: nat, h: nat, pixels: Seq<u32>)
    ensures
        ppm_bytes(w, h, pixels).len() == header_bytes(w, h).len() + 3 * pixels.len(),
        ppm_bytes(w, h, pixels).take(header_bytes(w, h).len() as int) == header_bytes(w, h),
        ppm_bytes(w, h, pixels).skip(header_bytes(w, h).len() as int) == body_bytes(pixels),
{
    lemma_body_bytes_len(pixels);
    assert(ppm_bytes(w, h, pixels).take(header_bytes(w, h).len() as int) =~= header_bytes(w, h));
    assert(ppm_bytes(w, h, pixels).skip(header_bytes(w, h).len() as int) =~= body_bytes(pixels));
}

/// Appends the decimal digits of `v` to `out`.
fn push_decimal(out: &mut Vec<u8>, v: usize)
    ensures
        final(out)@ == old(out)@ + dec_digits(v as nat),
    decreases v,
{
    if v < 10 {
        out.push(48 + v as u8);
        assert(final(out)@ =~= old(out)@ + dec_digits(v as nat));
    } else {
        push_decimal(out, v / 10);
        out.push(48 + (v % 10) as u8);
        assert(final(out)@ =~= old(out)@ + dec_digits(v as nat));
    }
}

impl GraphikBuilder {
    /// Serializes the buffer to the binary pixel-map byte stream: the ASCII
    /// header with the buffer's dimensions, then each pixel's three low
    /// channel bytes in row-major order.
    pub fn serialize(&self) -> (r: Vec<u8>)
        requires
            self.wf(),
        ensures
            r@ == ppm_bytes(
                self.buffer.width as nat,
                self.buffer.height as nat,
                self.buffer.buffer@,
            ),
    {
        let ghost gw = self.buffer.width as nat;
        let ghost gh = self.buffer.height as nat;
        let mut out: Vec<u8> = Vec::new();
        out.push(80);
        out.push(54);
        out.push(10);
        assert(out@ =~= seq![80u8, 54u8, 10u8]);
        push_decimal(&mut out, self.buffer.width);
        out.push(32);
        assert(out@ =~= seq![80u8, 54u8, 10u8] + dec_digits(gw) + seq![32u8]);
        push_decimal(&mut out, self.buffer.height);
        out.push(32);
        out.push(50);
        out.push(53);
        out.push(53);
        out.push(10);
        assert(out@ =~= header_bytes(gw, gh));
        let ghost hdr = out@;
        let ghost pixels = self.buffer.buffer@;
        let len = self.buffer.buffer.len();
        let mut idx: usize = 0;
        while idx < len
            invariant
                idx <= len,
                len == pixels.len(),
                self.buffer.buffer@ == pixels,
                out@ == hdr + body_bytes(pixels.take(idx as int)),
            decreases len - idx,
        {
            let p = self.buffer.buffer[idx];
            out.push((p & 0xff) as u8);
            out.push(((p >> 8) & 0xff) as u8);
            out.push(((p >> 16) & 0xff) as u8);
            proof {
                assert(pixels.take(idx + 1).drop_last() =~= pixels.take(idx as int));
                assert(pixels.take(idx + 1).last() == pixels[idx as int]);
                assert(out@ =~= hdr + body_bytes(pixels.take(idx + 1)));
            }
            idx = idx + 1;
        }
        proof {
            assert(pixels.take(len as int) =~= pixels);
        }
        out
    }
}

} // verus!
