//! Pictures of a saved run: an RGB canvas, its PPM (P6) encoding, the names
//! of the numbered frame files, and the size rule of the encoded video.

use vstd::prelude::*;
use vstd::string::*;
use crate::text::{decimal, push_decimal, all_digits, digits_value};

verus! {

/// The encoded video must stay below this many bytes.
pub const MAX_VIDEO_BYTES: u64 = 2_000_000;

/// What a finished rendering reports.
pub struct VideoReport {
    /// Pictures encoded, one per saved trajectory frame.
    pub frames: usize,
    /// Where the video was written.
    pub out_path: String,
    /// Size of the written video.
    pub size_bytes: u64,
}

/// The error for an encoded video of `size` bytes that is too large.
pub open spec fn too_large_error(size: nat) -> Seq<char> {
    "video too large: "@ + decimal(size) + " bytes"@
}

/// Accepts the video of `frames` pictures written to `out_path` when its
/// `size_bytes` are below [`MAX_VIDEO_BYTES`], and refuses it otherwise.
pub fn video_report(frames: usize, out_path: String, size_bytes: u64) -> (r: Result<VideoReport, String>)
    ensures
        match r {
            Ok(v) => size_bytes < MAX_VIDEO_BYTES && v.frames == frames && v.out_path@ == out_path@
                && v.size_bytes == size_bytes,
            Err(e) => size_bytes >= MAX_VIDEO_BYTES && e@ == too_large_error(size_bytes as nat),
        },
{
    if size_bytes < MAX_VIDEO_BYTES {
        Ok(VideoReport { frames, out_path, size_bytes })
    } else {
        let mut e = String::from_str("video too large: ");
        push_decimal(&mut e, size_bytes);
        e.append(" bytes");
        Err(e)
    }
}

/// The ASCII digits of `n` in decimal.
pub open spec fn ascii_decimal(n: nat) -> Seq<u8>
    decreases n,
{
    if n < 10 {
        seq![(48 + n) as u8]
    } else {
        ascii_decimal(n / 10) + seq![(48 + n % 10) as u8]
    }
}

/// Appends the ASCII digits of `n`.
pub fn push_ascii_decimal(out: &mut Vec<u8>, n: u64)
    ensures
        final(out)@ == old(out)@ + ascii_decimal(n as nat),
    decreases n,
{
    if n >= 10 {
        push_ascii_decimal(out, n / 10);
    }
    let d = (n % 10) as u8;
    out.push(48 + d);
    proof {
        if n >= 10 {
            assert(old(out)@ + ascii_decimal(n as nat) =~= old(out)@ + ascii_decimal((n / 10) as nat) + seq![
                (48 + n % 10) as u8,
            ]);
        } else {
            assert(old(out)@ + ascii_decimal(n as nat) =~= old(out)@.push((48 + n) as u8));
        }
    }
}

/// The header of a binary PPM image of `width` by `height` pixels with
/// 8-bit channels: `P6`, the width, the height and `255`, each followed by
/// one whitespace byte.
pub open spec fn ppm_header(width: nat, height: nat) -> Seq<u8> {
    seq![80u8, 54u8, 10u8] + ascii_decimal(width) + seq![32u8] + ascii_decimal(height) + seq![
        10u8,
        50u8,
        53u8,
        53u8,
        10u8,
    ]
}

/// The digits of a frame number, zero-padded to five places.
pub open spec fn five_digits(index: nat) -> Seq<char> {
    seq![
        crate::text::digit_char(((index / 10000) % 10) as int),
        crate::text::digit_char(((index / 1000) % 10) as int),
        crate::text::digit_char(((index / 100) % 10) as int),
        crate::text::digit_char(((index / 10) % 10) as int),
        crate::text::digit_char((index % 10) as int),
    ]
}

proof fn lemma_digit_value(v: int)
    requires
        0 <= v < 10,
    ensures
        crate::text::is_digit(crate::text::digit_char(v)),
        crate::text::digit_of(crate::text::digit_char(v)) == v,
{
}

/// The five digits of a frame number below 100000 are ASCII decimal digits
/// whose decimal value is the number: exactly five places, zero-padded.
pub proof fn lemma_five_digits_value(index: nat)
    requires
        index < 100000,
    ensures
        five_digits(index).len() == 5,
        all_digits(five_digits(index)),
        digits_value(five_digits(index)) == index,
{
    lemma_decimal_places(index);
    let i = index as int;
    let q1 = i / 10;
    let q2 = q1 / 10;
    let q3 = q2 / 10;
    let q4 = q3 / 10;
    let s = five_digits(index);
    lemma_digit_value(q4 % 10);
    lemma_digit_value(q3 % 10);
    lemma_digit_value(q2 % 10);
    lemma_digit_value(q1 % 10);
    lemma_digit_value(i % 10);
    assert(all_digits(s)) by {
        assert forall|k: int| 0 <= k < s.len() implies crate::text::is_digit(#[trigger] s[k]) by {
        }
    }
    reveal_with_fuel(digits_value, 6);
    assert(s.drop_last().drop_last().drop_last().drop_last().drop_last() =~= Seq::<char>::empty());
    assert(s.drop_last().drop_last().drop_last().drop_last() =~= seq![s[0]]);
    assert(s.drop_last().drop_last().drop_last() =~= seq![s[0], s[1]]);
    assert(s.drop_last().drop_last() =~= seq![s[0], s[1], s[2]]);
    assert(s.drop_last() =~= seq![s[0], s[1], s[2], s[3]]);
    assert(digits_value(s) == (((q4 % 10 * 10 + q3 % 10) * 10 + q2 % 10) * 10 + q1 % 10) * 10 + i % 10);
}

proof fn lemma_decimal_places(index: nat)
    requires
        index < 100000,
    ensures
        ({
            let i = index as int;
            let q1 = i / 10;
            let q2 = q1 / 10;
            let q3 = q2 / 10;
            let q4 = q3 / 10;
            &&& i / 100 == q2
            &&& i / 1000 == q3
            &&& i / 10000 == q4
            &&& q4 < 10
            &&& q4 % 10 == q4
            &&& (((q4 * 10 + q3 % 10) * 10 + q2 % 10) * 10 + q1 % 10) * 10 + i % 10 == i
        }),
{
    let i = index as int;
    let q1 = i / 10;
    let q2 = q1 / 10;
    let q3 = q2 / 10;
    let q4 = q3 / 10;
    vstd::arithmetic::div_mod::lemma_div_denominator(i, 10, 10);
    vstd::arithmetic::div_mod::lemma_div_denominator(i, 100, 10);
    vstd::arithmetic::div_mod::lemma_div_denominator(i, 1000, 10);
    assert(q2 == i / 100);
    assert(q3 == i / 1000);
    assert(q4 == i / 10000);
    vstd::arithmetic::div_mod::lemma_fundamental_div_mod(i, 10);
    vstd::arithmetic::div_mod::lemma_fundamental_div_mod(q1, 10);
    vstd::arithmetic::div_mod::lemma_fundamental_div_mod(q2, 10);
    vstd::arithmetic::div_mod::lemma_fundamental_div_mod(q3, 10);
    vstd::arithmetic::div_mod::lemma_fundamental_div_mod(i, 10000);
    vstd::arithmetic::div_mod::lemma_small_mod(q4 as nat, 10);
}

/// The file name of picture `index`/// The file name of picture `index`, numbered as the encoder's
/// `frame_%05d.ppm` pattern reads them.
pub fn frame_file_name(index: usize) -> (r: String)
    requires
        index < 100000,
    ensures
        r@ == "frame_"@ + five_digits(index as nat) + ".ppm"@,
        r@.len() == 15,
        all_digits(r@.subrange(6, 11)),
        digits_value(r@.subrange(6, 11)) == index,
{
    let mut r = String::from_str("frame_");
    let mut place: usize = 10000;
    let ghost start = r@;
    let ghost mut digits: Seq<char> = seq![];
    let mut k: usize = 0;
    while k < 5
        invariant
            k <= 5,
            index < 100000,
            place == (if k == 0 {
                10000usize
            } else if k == 1 {
                1000usize
            } else if k == 2 {
                100usize
            } else if k == 3 {
                10usize
            } else if k == 4 {
                1usize
            } else {
                0usize
            }),
            r@ == start + digits,
            digits.len() == k,
            forall|j: int| 0 <= j < k ==> #[trigger] digits[j] == five_digits(index as nat)[j],
        decreases 5 - k,
    {
        let d = ((index / place) % 10) as u64;
        let ghost before = r@;
        push_decimal(&mut r, d);
        proof {
            assert(decimal(d as nat) =~= seq![crate::text::digit_char(d as int)]);
            digits = digits.push(crate::text::digit_char(d as int));
            assert(r@ =~= start + digits);
        }
        place = place / 10;
        k = k + 1;
    }
    r.append(".ppm");
    proof {
        assert(digits =~= five_digits(index as nat));
        reveal_strlit("frame_");
        reveal_strlit(".ppm");
        lemma_five_digits_value(index as nat);
        assert(r@.subrange(6, 11) =~= five_digits(index as nat));
    }
    r
}

/// An RGB picture, row by row from the top left, three bytes per pixel.
pub struct Canvas {
    pub width: usize,
    pub height: usize,
    pub pixels: Vec<u8>,
}

/// Where pixel `(x, y)` starts among the bytes of a canvas `width` wide.
pub open spec fn pixel_start(width: int, x: int, y: int) -> int {
    (y * width + x) * 3
}

proof fn lemma_pixel_in_range(width: int, height: int, x: int, y: int)
    requires
        0 <= x < width,
        0 <= y < height,
    ensures
        0 <= pixel_start(width, x, y),
        pixel_start(width, x, y) + 3 <= width * height * 3,
{
    assert(y * width + x + 1 <= width * height) by (nonlinear_arith)
        requires
            0 <= x < width,
            0 <= y < height,
    ;
    assert(0 <= y * width) by (nonlinear_arith)
        requires
            0 <= y,
            0 <= width,
    ;
}

impl Canvas {
    /// Holds exactly three bytes per pixel.
    pub open spec fn wf(&self) -> bool {
        self.pixels@.len() == self.width * self.height * 3
    }

    /// The color of pixel `(x, y)`.
    pub open spec fn color_at(&self, x: int, y: int) -> (u8, u8, u8) {
        let i = pixel_start(self.width as int, x, y);
        (self.pixels@[i], self.pixels@[i + 1], self.pixels@[i + 2])
    }

    /// A canvas of `width` by `height` pixels, all of color `background`.
    pub fn new(width: usize, height: usize, background: (u8, u8, u8)) -> (r: Canvas)
        requires
            width * height * 3 <= usize::MAX,
        ensures
            r.wf(),
            r.width == width,
            r.height == height,
            forall|p: int|
                0 <= p < width * height ==> #[trigger] r.pixels@[3 * p] == background.0 && r.pixels@[3 * p + 1]
                    == background.1 && r.pixels@[3 * p + 2] == background.2,
    {
        let count = width * height;
        let mut pixels: Vec<u8> = Vec::new();
        let mut p: usize = 0;
        while p < count
            invariant
                count == width * height,
                count * 3 <= usize::MAX,
                p <= count,
                pixels@.len() == 3 * p,
                forall|q: int|
                    0 <= q < p ==> #[trigger] pixels@[3 * q] == background.0 && pixels@[3 * q + 1]
                        == background.1 && pixels@[3 * q + 2] == background.2,
            decreases count - p,
        {
            let ghost before = pixels@;
            pixels.push(background.0);
            pixels.push(background.1);
            pixels.push(background.2);
            proof {
                assert forall|q: int| 0 <= q < p + 1 implies #[trigger] pixels@[3 * q] == background.0
                    && pixels@[3 * q + 1] == background.1 && pixels@[3 * q + 2] == background.2 by {
                    if q < p {
                        assert(pixels@[3 * q] == before[3 * q]);
                        assert(pixels@[3 * q + 1] == before[3 * q + 1]);
                        assert(pixels@[3 * q + 2] == before[3 * q + 2]);
                    }
                }
            }
            p = p + 1;
        }
        Canvas { width, height, pixels }
    }

    /// Paints pixel `(x, y)` with `color`; a position off the canvas leaves
    /// it unchanged.
    pub fn put(&mut self, x: i64, y: i64, color: (u8, u8, u8))
        requires
            old(self).wf(),
        ensures
            final(self).wf(),
            final(self).width == old(self).width,
            final(self).height == old(self).height,
            final(self).pixels@ == if 0 <= x < old(self).width && 0 <= y < old(self).height {
                let i = pixel_start(old(self).width as int, x as int, y as int);
                old(self).pixels@.update(i, color.0).update(i + 1, color.1).update(i + 2, color.2)
            } else {
                old(self).pixels@
            },
    {
        if x < 0 || y < 0 {
            return;
        }
        let xu = x as u64;
        let yu = y as u64;
        if xu as u128 >= self.width as u128 || yu as u128 >= self.height as u128 {
            return;
        }
        let total = self.pixels.len();
        let xs = xu as usize;
        let ys = yu as usize;
        proof {
            lemma_pixel_in_range(self.width as int, self.height as int, xs as int, ys as int);
            assert((ys as int) * (self.width as int) + xs < total);
            assert(((ys as int) * (self.width as int) + xs) * 3 + 3 <= total);
        }
        let i = (ys * self.width + xs) * 3;
        self.pixels.set(i, color.0);
        self.pixels.set(i + 1, color.1);
        self.pixels.set(i + 2, color.2);
    }

    /// The canvas as a binary PPM file: the header, then the pixel bytes.
    pub fn ppm(&self) -> (r: Vec<u8>)
        requires
            self.wf(),
        ensures
            r@ == ppm_header(self.width as nat, self.height as nat) + self.pixels@,
    {
        let mut out: Vec<u8> = Vec::new();
        out.push(80);
        out.push(54);
        out.push(10);
        push_ascii_decimal(&mut out, self.width as u64);
        out.push(32);
        push_ascii_decimal(&mut out, self.height as u64);
        out.push(10);
        out.push(50);
        out.push(53);
        out.push(53);
        out.push(10);
        let ghost header = out@;
        assert(header =~= ppm_header(self.width as nat, self.height as nat));
        let mut j: usize = 0;
        while j < self.pixels.len()
            invariant
                j <= self.pixels@.len(),
                out@ == header + self.pixels@.subrange(0, j as int),
            decreases self.pixels@.len() - j,
        {
            out.push(self.pixels[j]);
            j = j + 1;
            assert(header + self.pixels@.subrange(0, j as int) =~= (header + self.pixels@.subrange(
                0,
                j - 1,
            )).push(self.pixels@[j - 1]));
        }
        assert(self.pixels@.subrange(0, j as int) =~= self.pixels@);
        out
    }
}

} // verus!
