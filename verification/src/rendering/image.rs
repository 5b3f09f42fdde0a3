use vstd::prelude::*;
use vstd::string::*;
use crate::rendering::color::Color;

verus! {

/// Whether an output path names a PPM file, the only format written.
pub fn is_ppm_path(path: &str) -> (b: bool)
    ensures
        b == (path@.len() >= 4 && path@.skip(path@.len() - 4) == ".ppm"@),
{
    let n = path.unicode_len();
    if n < 4 {
        return false;
    }
    let tail: String = path.substring_char(n - 4, n).to_owned();
    let ext: String = ".ppm".to_owned();
    proof {
        assert(path@.subrange(n - 4, n as int) =~= path@.skip(n - 4));
    }
    tail == ext
}

/// The ASCII digits of `n` in base ten, most significant first, without leading zeros.
pub open spec fn decimal(n: nat) -> Seq<u8>
    decreases n,
{
    if n < 10 {
        seq![(48 + n) as u8]
    } else {
        decimal(n / 10).push((48 + n % 10) as u8)
    }
}

/// The number that a string of ASCII digits denotes in base ten, read most significant
/// digit first.
pub open spec fn digits_value(s: Seq<u8>) -> int
    decreases s.len(),
{
    if s.len() == 0 {
        0
    } else {
        digits_value(s.drop_last()) * 10 + (s.last() - 48)
    }
}

/// The digits written for `n` are its base-ten representation: each is an ASCII digit,
/// the first is not `0` unless `n` is zero, there is at least one, and read back they
/// give `n`, for every `n`.
pub proof fn lemma_decimal_denotes(n: nat)
    ensures
        decimal(n).len() >= 1,
        forall|i: int| 0 <= i < decimal(n).len() ==> 48 <= #[trigger] decimal(n)[i] <= 57,
        n > 0 ==> decimal(n)[0] != 48,
        digits_value(decimal(n)) == n,
    decreases n,
{
    if n < 10 {
        assert(decimal(n).drop_last() =~= Seq::<u8>::empty());
        assert(digits_value(decimal(n)) == digits_value(Seq::<u8>::empty()) * 10 + (decimal(n).last() - 48));
    } else {
        let q: nat = n / 10;
        lemma_decimal_denotes(q);
        let s = decimal(q).push((48 + n % 10) as u8);
        assert(s.drop_last() =~= decimal(q));
        assert(forall|i: int| 0 <= i < decimal(q).len() ==> s[i] == decimal(q)[i]);
        assert(q * 10 + n % 10 == n) by (nonlinear_arith)
            requires q == n / 10;
        assert(decimal(n) == s);
        assert(s.last() == 48 + n % 10);
        assert(digits_value(s) == digits_value(decimal(q)) * 10 + (s.last() - 48));
    }
}

/// Appends the decimal digits of `n`.
fn push_decimal(out: &mut Vec<u8>, n: u32)
    ensures
        final(out)@ == old(out)@ + decimal(n as nat),
    decreases n,
{
    if n >= 10 {
        push_decimal(out, n / 10);
    }
    let d = (n % 10) as u8;
    out.push(48 + d);
    proof {
        if n < 10 {
            assert(old(out)@ + decimal(n as nat) =~= old(out)@.push((48 + n) as u8));
        } else {
            assert(old(out)@ + decimal(n as nat) =~= (old(out)@ + decimal((n / 10) as nat)).push((48 + n % 10) as u8));
        }
    }
}

/// The header of a binary PPM image: `P6`, the width and height, and the maximum
/// channel value 255, each on a line.
pub open spec fn ppm_header_bytes(width: nat, height: nat) -> Seq<u8> {
    seq![80u8, 54u8, 10u8] + decimal(width) + seq![32u8] + decimal(height) + seq![10u8, 50u8, 53u8, 53u8, 10u8]
}

/// The channels of the pixels in order, three bytes (red, green, blue) per pixel.
pub open spec fn rgb_bytes(pixels: Seq<Color>) -> Seq<u8>
    decreases pixels.len(),
{
    if pixels.len() == 0 {
        Seq::empty()
    } else {
        rgb_bytes(pixels.drop_last()) + seq![pixels.last().r, pixels.last().g, pixels.last().b]
    }
}

/// The three bytes of every pixel, in order.
pub proof fn lemma_rgb_bytes(pixels: Seq<Color>)
    ensures
        rgb_bytes(pixels).len() == 3 * pixels.len(),
        forall|i: int| 0 <= i < pixels.len() ==> {
            &&& #[trigger] rgb_bytes(pixels)[3 * i] == pixels[i].r
            &&& rgb_bytes(pixels)[3 * i + 1] == pixels[i].g
            &&& rgb_bytes(pixels)[3 * i + 2] == pixels[i].b
        },
    decreases pixels.len(),
{
    if pixels.len() > 0 {
        let p = pixels.drop_last();
        lemma_rgb_bytes(p);
        let tail = seq![pixels.last().r, pixels.last().g, pixels.last().b];
        assert(rgb_bytes(pixels) == rgb_bytes(p) + tail);
        assert forall|i: int| 0 <= i < pixels.len() implies {
            &&& #[trigger] rgb_bytes(pixels)[3 * i] == pixels[i].r
            &&& rgb_bytes(pixels)[3 * i + 1] == pixels[i].g
            &&& rgb_bytes(pixels)[3 * i + 2] == pixels[i].b
        } by {
            if i < p.len() {
                assert(pixels[i] == p[i]);
                assert(rgb_bytes(p)[3 * i] == p[i].r);
            }
        }
    }
}

/// Whether every byte is an ASCII digit.
pub open spec fn all_digits(s: Seq<u8>) -> bool {
    forall|i: int| 0 <= i < s.len() ==> 48 <= #[trigger] s[i] <= 57
}

/// The header states the image's width, then its height: it is `P6` and a newline, a
/// run of digits denoting the width, a space, a run of digits denoting the height, and
/// the line `255`.
pub proof fn lemma_ppm_header_states_size(width: nat, height: nat)
    ensures
        exists|w: Seq<u8>, h: Seq<u8>|
            #![trigger digits_value(w), digits_value(h)]
            {
                &&& w.len() > 0 && all_digits(w) && digits_value(w) == width
                &&& h.len() > 0 && all_digits(h) && digits_value(h) == height
                &&& ppm_header_bytes(width, height) == seq![80u8, 54u8, 10u8] + w + seq![32u8] + h
                    + seq![10u8, 50u8, 53u8, 53u8, 10u8]
            },
{
    lemma_decimal_denotes(width);
    lemma_decimal_denotes(height);
    let w = decimal(width);
    let h = decimal(height);
    assert(all_digits(w) && all_digits(h));
    assert(digits_value(w) == width && digits_value(h) == height);
}

/// The header of a binary PPM image of the given size.
pub fn ppm_header(width: u32, height: u32) -> (h: Vec<u8>)
    ensures
        h@ == ppm_header_bytes(width as nat, height as nat),
{
    let mut h: Vec<u8> = Vec::new();
    h.push(80);
    h.push(54);
    h.push(10);
    push_decimal(&mut h, width);
    h.push(32);
    push_decimal(&mut h, height);
    h.push(10);
    h.push(50);
    h.push(53);
    h.push(53);
    h.push(10);
    proof {
        assert(h@ =~= ppm_header_bytes(width as nat, height as nat));
    }
    h
}

/// A whole binary PPM file: the header, then the pixels row by row.
pub fn ppm_image(width: u32, height: u32, buffer: &Vec<Color>) -> (bytes: Vec<u8>)
    ensures
        bytes@ == ppm_header_bytes(width as nat, height as nat) + rgb_bytes(buffer@),
{
    let mut bytes = ppm_header(width, height);
    let ghost head = bytes@;
    let mut i: usize = 0;
    while i < buffer.len()
        invariant
            i <= buffer.len(),
            bytes@ == head + rgb_bytes(buffer@.take(i as int)),
        decreases buffer.len() - i,
    {
        let c = buffer[i];
        bytes.push(c.r);
        bytes.push(c.g);
        bytes.push(c.b);
        proof {
            assert(buffer@.take(i + 1).drop_last() =~= buffer@.take(i as int));
            assert(bytes@ =~= head + rgb_bytes(buffer@.take(i + 1)));
        }
        i = i + 1;
    }
    proof {
        assert(buffer@.take(buffer@.len() as int) =~= buffer@);
    }
    bytes
}

} // verus!
