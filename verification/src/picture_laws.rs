//! What a picture looks like once it is drawn.

use crate::decode::{
    h264_comes_to, h265_comes_to, Answer, AnswerSpec, BytePicture, Decoded, PictureSpec,
};
use crate::yuv::{
    coefficients_for, depth_shift, law_scaling_keeps_high_bits, pixel_at, pixel_of, scaled_sample,
    to_byte, FrameSpec, PlaneSpec,
};
use vstd::prelude::*;

verus! {

/// Whether a byte is the nearest one to a number of 256ths.
pub open spec fn is_nearest(byte: u8, sum: int) -> bool {
    &&& byte > 0 ==> 256 * byte - 128 <= sum
    &&& byte < 255 ==> sum < 256 * byte + 128
}

/// Whether the four bytes at a position of a frame are the colour of those samples. Luma
/// starts at 16 and chroma is centred on 128; blue is made of luma and `u`, red of luma and
/// `v`, by BT.709 from 720 lines on and by BT.601 below.
pub open spec fn has_colour(
    frame: FrameSpec,
    width: int,
    height: int,
    row: int,
    col: int,
    y: int,
    u: int,
    v: int,
) -> bool {
    let at = (row * width + col) * 4;
    let luma = 298 * (y - 16);
    &&& 0 <= at
    &&& at + 4 <= frame.bgra.len()
    &&& frame.bgra[at + 3] == 255
    &&& height >= 720 ==> {
        &&& is_nearest(frame.bgra[at], luma + 541 * (u - 128))
        &&& is_nearest(frame.bgra[at + 1], luma - 55 * (u - 128) - 136 * (v - 128))
        &&& is_nearest(frame.bgra[at + 2], luma + 459 * (v - 128))
    }
    &&& height < 720 ==> {
        &&& is_nearest(frame.bgra[at], luma + 516 * (u - 128))
        &&& is_nearest(frame.bgra[at + 1], luma - 100 * (u - 128) - 208 * (v - 128))
        &&& is_nearest(frame.bgra[at + 2], luma + 409 * (v - 128))
    }
}

/// The bytes of a sample are the nearest to their sums.
proof fn lemma_pixel(height: int, y: u8, u: u8, v: u8)
    ensures
        ({
            let pixel = pixel_of(coefficients_for(height), y, u, v);
            let luma = 298 * (y - 16);
            &&& pixel.alpha == 255
            &&& height >= 720 ==> {
                &&& pixel.blue == to_byte((luma + 541 * (u - 128) + 128) / 256)
                &&& is_nearest(pixel.blue, luma + 541 * (u - 128))
                &&& is_nearest(pixel.green, luma - 55 * (u - 128) - 136 * (v - 128))
                &&& pixel.red == to_byte((luma + 459 * (v - 128) + 128) / 256)
                &&& is_nearest(pixel.red, luma + 459 * (v - 128))
            }
            &&& height < 720 ==> {
                &&& pixel.blue == to_byte((luma + 516 * (u - 128) + 128) / 256)
                &&& is_nearest(pixel.blue, luma + 516 * (u - 128))
                &&& is_nearest(pixel.green, luma - 100 * (u - 128) - 208 * (v - 128))
                &&& pixel.red == to_byte((luma + 409 * (v - 128) + 128) / 256)
                &&& is_nearest(pixel.red, luma + 409 * (v - 128))
            }
        }),
{
    let k = coefficients_for(height);
    let cb = u - 128;
    let cr = v - 128;
    if height >= 720 {
        assert(k.cb_b * cb == 541 * cb && k.cr_r * cr == 459 * cr && k.cb_g * cb == -55 * cb && k.cr_g
            * cr == -136 * cr) by (nonlinear_arith)
            requires
                k.cb_b == 541,
                k.cr_r == 459,
                k.cb_g == -55,
                k.cr_g == -136,
        ;
    } else {
        assert(k.cb_b * cb == 516 * cb && k.cr_r * cr == 409 * cr && k.cb_g * cb == -100 * cb
            && k.cr_g * cr == -208 * cr) by (nonlinear_arith)
            requires
                k.cb_b == 516,
                k.cr_r == 409,
                k.cb_g == -100,
                k.cr_g == -208,
        ;
    }
}

/// A position of a picture lies inside its frame.
proof fn lemma_inside_frame(width: int, height: int, row: int, col: int)
    by (nonlinear_arith)
    requires
        0 <= row < height,
        0 <= col < width,
    ensures
        0 <= (row * width + col) * 4,
        (row * width + col) * 4 + 4 <= width * height * 4,
        row * width + col < width * height,
{
}

/// An H.264 picture whose planes hold every sample that it needs is drawn, as large as it is,
/// and every pixel has the colour of the luma sample at its place and of the two chroma
/// samples that it shares with its neighbours: luma rows are as long as the picture is wide,
/// chroma rows half of that.
pub proof fn law_h264_colours(picture: BytePicture, decoded: Decoded, row: int, col: int)
    requires
        h264_comes_to(Answer::Picture(picture), decoded),
        picture.width * picture.height * 4 <= isize::MAX,
        0 <= row < picture.height,
        0 <= col < picture.width,
        picture.y@.len() >= picture.width * picture.height,
        picture.u@.len() > ((picture.height - 1) / 2) * (picture.width as int / 2) + (picture.width
            - 1) / 2,
        picture.v@.len() > ((picture.height - 1) / 2) * (picture.width as int / 2) + (picture.width
            - 1) / 2,
    ensures
        ({
            let width = picture.width as int;
            let chroma = (row / 2) * (width / 2) + col / 2;
            &&& decoded matches Ok(Some(frame))
            &&& frame.width == picture.width as u32
            &&& frame.height == picture.height as u32
            &&& frame.bgra@.len() == width * picture.height * 4
            &&& has_colour(
                frame@,
                width,
                picture.height as int,
                row,
                col,
                picture.y@[row * width + col] as int,
                picture.u@[chroma] as int,
                picture.v@[chroma] as int,
            )
        }),
{
    let w = picture.width as int;
    let h = picture.height as int;
    lemma_inside_frame(w, h, row, col);
    assert((h - 1) * w + w == h * w) by (nonlinear_arith);
    assert(h * w == w * h) by (nonlinear_arith);
    let half = w / 2;
    let last = (h - 1) / 2;
    assert(0 <= last * half <= w * h) by (nonlinear_arith)
        requires
            0 <= last <= h,
            0 <= half <= w,
    ;
    assert(picture.planes().hold(w, h));
    let chroma = (row / 2) * half + col / 2;
    lemma_pixel(h, picture.y@[row * w + col], picture.u@[chroma], picture.v@[chroma]);
    if let Ok(Some(frame)) = decoded {
        assert(pixel_at(frame@.bgra, w, row, col) == picture.planes().pixel(h, row, col));
    }
}

/// The value of a sample as one of eight bits: wider samples lose their low bits.
pub open spec fn eight_bits(plane: PlaneSpec, bit_depth: u8, i: int) -> int {
    match plane {
        PlaneSpec::U8(samples) => samples[i] as int,
        PlaneSpec::U16(samples) => samples[i] as int / ((1u32 << ((bit_depth - 8) as u32)) as u16)
            as int,
    }
}

/// How many samples a plane has.
pub open spec fn sample_count(plane: PlaneSpec) -> nat {
    match plane {
        PlaneSpec::U8(samples) => samples.len(),
        PlaneSpec::U16(samples) => samples.len(),
    }
}

/// Whether no sample is wider than the depth allows.
pub open spec fn keeps_depth(plane: PlaneSpec, bit_depth: u8) -> bool {
    plane matches PlaneSpec::U16(samples) ==> forall|i: int|
        0 <= i < samples.len() ==> (#[trigger] samples[i]) < 1u32 << (bit_depth as u32)
}

proof fn lemma_eight_bits(plane: PlaneSpec, bit_depth: u8, i: int)
    requires
        8 <= bit_depth <= 16,
        keeps_depth(plane, bit_depth),
        0 <= i < sample_count(plane),
    ensures
        plane.bytes(bit_depth).len() == sample_count(plane),
        plane.bytes(bit_depth)[i] == eight_bits(plane, bit_depth, i),
{
    if let PlaneSpec::U16(samples) = plane {
        assert(samples[i] < 1u32 << (bit_depth as u32));
        law_scaling_keeps_high_bits(samples[i], bit_depth);
        assert(depth_shift(bit_depth) as u32 == (bit_depth - 8) as u32);
        assert(plane.bytes(bit_depth)[i] == scaled_sample(samples[i], bit_depth));
        let shift = (bit_depth - 8) as u32;
        assert((1u32 << shift) as u16 > 0) by (bit_vector)
            requires
                shift <= 8,
        ;
    }
}

/// An HEVC picture of 8 to 16 bits whose planes hold every sample that it needs is drawn, as
/// large as it is, and every pixel has the colour of the luma sample at its place and of the
/// two chroma samples that it shares with its neighbours: luma rows are as long as the picture
/// is wide, chroma rows half of that, rounded up.
pub proof fn law_h265_colours(picture: PictureSpec, decoded: Decoded, row: int, col: int)
    requires
        h265_comes_to(AnswerSpec::Picture(picture), decoded),
        8 <= picture.bit_depth <= 16,
        keeps_depth(picture.y, picture.bit_depth),
        keeps_depth(picture.u, picture.bit_depth),
        keeps_depth(picture.v, picture.bit_depth),
        picture.width * picture.height * 4 <= isize::MAX,
        0 <= row < picture.height,
        0 <= col < picture.width,
        sample_count(picture.y) >= picture.width * picture.height,
        sample_count(picture.u) >= ((picture.width + 1) / 2) * ((picture.height + 1) / 2),
        sample_count(picture.v) >= ((picture.width + 1) / 2) * ((picture.height + 1) / 2),
    ensures
        ({
            let width = picture.width as int;
            let chroma = (row / 2) * ((width + 1) / 2) + col / 2;
            &&& decoded matches Ok(Some(frame))
            &&& frame.width == picture.width
            &&& frame.height == picture.height
            &&& frame.bgra@.len() == width * picture.height * 4
            &&& has_colour(
                frame@,
                width,
                picture.height as int,
                row,
                col,
                eight_bits(picture.y, picture.bit_depth, row * width + col),
                eight_bits(picture.u, picture.bit_depth, chroma),
                eight_bits(picture.v, picture.bit_depth, chroma),
            )
        }),
{
    let w = picture.width as int;
    let h = picture.height as int;
    let depth = picture.bit_depth;
    lemma_inside_frame(w, h, row, col);
    assert((h - 1) * w + w == h * w) by (nonlinear_arith);
    assert(h * w == w * h) by (nonlinear_arith);
    let half = (w + 1) / 2;
    let tall = (h + 1) / 2;
    let last = (h - 1) / 2;
    assert(last == tall - 1);
    assert(last * half + half == half * tall) by (nonlinear_arith)
        requires
            last == tall - 1,
    ;
    assert(0 <= half * tall <= w * h) by (nonlinear_arith)
        requires
            0 <= half <= w,
            0 <= tall <= h,
    ;
    let above = row / 2;
    assert(0 <= above * half <= last * half) by (nonlinear_arith)
        requires
            0 <= above <= last,
            0 <= half,
    ;
    assert(0 <= row * w) by (nonlinear_arith)
        requires
            0 <= row,
            0 <= w,
    ;
    let chroma = above * half + col / 2;
    lemma_eight_bits(picture.y, depth, row * w + col);
    lemma_eight_bits(picture.u, depth, chroma);
    lemma_eight_bits(picture.v, depth, chroma);
    assert(picture.planes().hold(w, h));
    assert(picture.renderable());
    let planes = picture.planes();
    lemma_pixel(h, planes.y[row * w + col], planes.u[chroma], planes.v[chroma]);
    if let Ok(Some(frame)) = decoded {
        assert(pixel_at(frame@.bgra, w, row, col) == picture.planes().pixel(h, row, col));
    }
}

/// Of two H.264 pictures of one size, with the same luma sample at a position: where the `v`
/// sample of one is at least that of the other, it is at least as red there, whatever `u` is;
/// where its `u` sample is, it is at least as blue there, whatever `v` is.
pub proof fn law_red_follows_v_and_blue_follows_u(
    a: BytePicture,
    b: BytePicture,
    drawn_a: Decoded,
    drawn_b: Decoded,
    row: int,
    col: int,
)
    requires
        h264_comes_to(Answer::Picture(a), drawn_a),
        h264_comes_to(Answer::Picture(b), drawn_b),
        drawn_a matches Ok(Some(_)),
        drawn_b matches Ok(Some(_)),
        a.width == b.width,
        a.height == b.height,
        0 <= row < a.height,
        0 <= col < a.width,
        a.y@[row * a.width + col] == b.y@[row * a.width + col],
    ensures
        ({
            let chroma = (row / 2) * (a.width as int / 2) + col / 2;
            let at = (row * a.width + col) * 4;
            let shown_a = drawn_a->Ok_0->0.bgra@;
            let shown_b = drawn_b->Ok_0->0.bgra@;
            &&& a.v@[chroma] <= b.v@[chroma] ==> shown_a[at + 2] <= shown_b[at + 2]
            &&& a.u@[chroma] <= b.u@[chroma] ==> shown_a[at] <= shown_b[at]
        }),
{
    let w = a.width as int;
    let h = a.height as int;
    let shown_a = drawn_a->Ok_0->0@.bgra;
    let shown_b = drawn_b->Ok_0->0@.bgra;
    assert(pixel_at(shown_a, w, row, col) == a.planes().pixel(h, row, col));
    assert(pixel_at(shown_b, w, row, col) == b.planes().pixel(h, row, col));
    let chroma = (row / 2) * (w / 2) + col / 2;
    lemma_pixel(h, a.y@[row * w + col], a.u@[chroma], a.v@[chroma]);
    lemma_pixel(h, b.y@[row * w + col], b.u@[chroma], b.v@[chroma]);
}

} // verus!
