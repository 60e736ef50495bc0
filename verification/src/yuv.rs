//! Pictures: from the planes a decoder fills to the bytes a window draws.

use vstd::prelude::*;

verus! {

/// A decoded frame, four bytes a pixel in the order blue, green, red, alpha.
#[derive(Debug)]
pub struct Frame {
    pub width: u32,
    pub height: u32,
    pub bgra: Vec<u8>,
}

/// The contents of a [`Frame`].
#[verifier::ext_equal]
pub struct FrameSpec {
    pub width: u32,
    pub height: u32,
    pub bgra: Seq<u8>,
}

impl View for Frame {
    type V = FrameSpec;

    open spec fn view(&self) -> FrameSpec {
        FrameSpec { width: self.width, height: self.height, bgra: self.bgra@ }
    }
}

/// How much blue-difference and red-difference chroma add to each colour, in 256ths.
pub struct Coefficients {
    pub cr_r: i32,
    pub cb_g: i32,
    pub cr_g: i32,
    pub cb_b: i32,
}

/// BT.709 limited range at 720 lines and above, BT.601 limited range below.
pub open spec fn coefficients_for(height: int) -> Coefficients {
    if height >= 720 {
        Coefficients { cr_r: 459, cb_g: (-55) as i32, cr_g: (-136) as i32, cb_b: 541 }
    } else {
        Coefficients { cr_r: 409, cb_g: (-100) as i32, cr_g: (-208) as i32, cb_b: 516 }
    }
}

/// `x` brought into the range of a byte.
pub open spec fn to_byte(x: int) -> u8 {
    if x < 0 {
        0
    } else if x > 255 {
        255
    } else {
        x as u8
    }
}

/// The bytes of one pixel.
pub struct Bgra {
    pub blue: u8,
    pub green: u8,
    pub red: u8,
    pub alpha: u8,
}

/// The colour of a sample: luma scaled by 298/256 from its floor of 16, chroma taken
/// about 128, and each sum rounded to the nearest.
pub open spec fn pixel_of(k: Coefficients, y: u8, u: u8, v: u8) -> Bgra {
    let luma = (y - 16) * 298;
    let cb = u - 128;
    let cr = v - 128;
    Bgra {
        blue: to_byte((luma + k.cb_b * cb + 128) / 256),
        green: to_byte((luma + k.cb_g * cb + k.cr_g * cr + 128) / 256),
        red: to_byte((luma + k.cr_r * cr + 128) / 256),
        alpha: 255,
    }
}

/// The pixel that `bgra` holds at a position of a picture that many pixels wide.
pub open spec fn pixel_at(bgra: Seq<u8>, width: int, row: int, col: int) -> Bgra {
    let px = (row * width + col) * 4;
    Bgra { blue: bgra[px], green: bgra[px + 1], red: bgra[px + 2], alpha: bgra[px + 3] }
}

/// The planes of a picture with 4:2:0 chroma.
pub struct Planes {
    pub y: Seq<u8>,
    pub u: Seq<u8>,
    pub v: Seq<u8>,
    pub y_stride: int,
    pub uv_stride: int,
}

impl Planes {
    /// The colour at a position; two by two positions share their chroma.
    pub open spec fn pixel(self, height: int, row: int, col: int) -> Bgra {
        let chroma = (row / 2) * self.uv_stride + col / 2;
        pixel_of(
            coefficients_for(height),
            self.y[row * self.y_stride + col],
            self.u[chroma],
            self.v[chroma],
        )
    }

    /// Whether the planes hold every sample of a picture of that size, and the picture
    /// fits in memory.
    pub open spec fn hold(self, width: int, height: int) -> bool {
        &&& width * height * 4 <= isize::MAX
        &&& height > 0 ==> {
            &&& (height - 1) * self.y_stride <= usize::MAX
            &&& ((height - 1) / 2) * self.uv_stride <= usize::MAX
        }
        &&& height > 0 && width > 0 ==> {
            &&& (height - 1) * self.y_stride + width <= self.y.len()
            &&& ((height - 1) / 2) * self.uv_stride + (width - 1) / 2 < self.u.len()
            &&& ((height - 1) / 2) * self.uv_stride + (width - 1) / 2 < self.v.len()
        }
    }
}

/// Whether a frame shows the picture that the planes hold.
pub open spec fn shows(frame: FrameSpec, planes: Planes, width: usize, height: usize) -> bool {
    &&& frame.width == width as u32
    &&& frame.height == height as u32
    &&& frame.bgra.len() == width * height * 4
    &&& forall|row: int, col: int|
        0 <= row < height && 0 <= col < width ==> #[trigger] pixel_at(
            frame.bgra,
            width as int,
            row,
            col,
        ) == planes.pixel(height as int, row, col)
}

/// Brings a sum into the range of a byte.
fn clamp_to_byte(x: i32) -> (b: u8)
    ensures
        b == to_byte(x as int),
{
    if x < 0 {
        0
    } else if x > 255 {
        255
    } else {
        x as u8
    }
}

/// Divides by 256, rounding down.
fn shift_down(x: i32) -> (r: i32)
    ensures
        r == x as int / 256,
{
    assert((x >> 8) * 256 <= x && x < (x >> 8) * 256 + 256) by (bit_vector);
    x >> 8
}

fn coefficients(height: usize) -> (k: Coefficients)
    ensures
        k == coefficients_for(height as int),
{
    if height >= 720 {
        Coefficients { cr_r: 459, cb_g: -55, cr_g: -136, cb_b: 541 }
    } else {
        Coefficients { cr_r: 409, cb_g: -100, cr_g: -208, cb_b: 516 }
    }
}

/// The colour of one sample.
fn convert(k: &Coefficients, y: u8, u: u8, v: u8) -> (p: Bgra)
    requires
        *k == coefficients_for(0) || *k == coefficients_for(720),
    ensures
        p == pixel_of(*k, y, u, v),
{
    let luma: i32 = (y as i32 - 16) * 298;
    let cb: i32 = u as i32 - 128;
    let cr: i32 = v as i32 - 128;
    assert(-600 * 128 <= k.cb_b * cb <= 600 * 128) by (nonlinear_arith)
        requires
            0 <= k.cb_b <= 600,
            -128 <= cb <= 128,
    ;
    assert(-600 * 128 <= k.cr_r * cr <= 600 * 128) by (nonlinear_arith)
        requires
            0 <= k.cr_r <= 600,
            -128 <= cr <= 128,
    ;
    assert(-600 * 128 <= k.cb_g * cb <= 600 * 128) by (nonlinear_arith)
        requires
            -600 <= k.cb_g <= 0,
            -128 <= cb <= 128,
    ;
    assert(-600 * 128 <= k.cr_g * cr <= 600 * 128) by (nonlinear_arith)
        requires
            -600 <= k.cr_g <= 0,
            -128 <= cr <= 128,
    ;
    let r = shift_down(luma + k.cr_r * cr + 128);
    let g = shift_down(luma + k.cb_g * cb + k.cr_g * cr + 128);
    let b = shift_down(luma + k.cb_b * cb + 128);
    Bgra { blue: clamp_to_byte(b), green: clamp_to_byte(g), red: clamp_to_byte(r), alpha: 255 }
}

/// Positions before another in reading order have a smaller index.
proof fn lemma_reading_order(width: int, row: int, col: int, r: int, c: int)
    by (nonlinear_arith)
    requires
        0 <= c < width,
        0 <= col,
        0 <= r,
        r < row || (r == row && c < col),
    ensures
        0 <= r * width + c,
        (r * width + c) * 4 + 4 <= (row * width + col) * 4,
{
}

/// The samples of a position lie inside planes that hold the picture.
proof fn lemma_inside_planes(planes: Planes, width: int, height: int, row: int, col: int)
    requires
        planes.hold(width, height),
        planes.y_stride >= 0,
        planes.uv_stride >= 0,
        0 <= row < height,
        0 <= col < width,
    ensures
        0 <= row * planes.y_stride <= usize::MAX,
        0 <= (row / 2) * planes.uv_stride <= usize::MAX,
        0 <= row * planes.y_stride + col < planes.y.len(),
        0 <= (row / 2) * planes.uv_stride + col / 2 < planes.u.len(),
        (row / 2) * planes.uv_stride + col / 2 < planes.v.len(),
{
    lemma_row_offset(planes, height, row);
}

proof fn lemma_row_offset(planes: Planes, height: int, row: int)
    requires
        planes.y_stride >= 0,
        planes.uv_stride >= 0,
        0 <= row < height,
    ensures
        0 <= row * planes.y_stride <= (height - 1) * planes.y_stride,
        0 <= (row / 2) * planes.uv_stride <= ((height - 1) / 2) * planes.uv_stride,
{
    let half = row / 2;
    let last = (height - 1) / 2;
    let y_stride = planes.y_stride;
    let uv_stride = planes.uv_stride;
    assert(0 <= row * y_stride <= (height - 1) * y_stride) by (nonlinear_arith)
        requires
            0 <= row <= height - 1,
            y_stride >= 0,
    ;
    assert(0 <= half * uv_stride <= last * uv_stride) by (nonlinear_arith)
        requires
            0 <= half <= last,
            uv_stride >= 0,
    ;
}

/// The planes that a conversion reads.
pub open spec fn planes_of(y: Seq<u8>, u: Seq<u8>, v: Seq<u8>, y_stride: usize, uv_stride: usize) -> Planes {
    Planes { y, u, v, y_stride: y_stride as int, uv_stride: uv_stride as int }
}

/// YUV 4:2:0 to BGRA. Uses BT.709 coefficients at 720p and above, BT.601 below,
/// which is what cameras signal in practice.
pub fn yuv_to_bgra(
    width: usize,
    height: usize,
    y_plane: &[u8],
    u_plane: &[u8],
    v_plane: &[u8],
    y_stride: usize,
    uv_stride: usize,
) -> (frame: Frame)
    requires
        planes_of(y_plane@, u_plane@, v_plane@, y_stride, uv_stride).hold(
            width as int,
            height as int,
        ),
    ensures
        shows(
            frame@,
            planes_of(y_plane@, u_plane@, v_plane@, y_stride, uv_stride),
            width,
            height,
        ),
{
    let ghost planes = planes_of(y_plane@, u_plane@, v_plane@, y_stride, uv_stride);
    let ghost w = width as int;
    let ghost h = height as int;
    let k = coefficients(height);
    let mut bgra: Vec<u8> = Vec::new();
    let mut row: usize = 0;
    assert(0 * w == 0) by (nonlinear_arith);
    while row < height
        invariant
            row <= height,
            w == width,
            h == height,
            planes == planes_of(y_plane@, u_plane@, v_plane@, y_stride, uv_stride),
            planes.hold(w, h),
            k == coefficients_for(h),
            bgra@.len() == (row * w) * 4,
            forall|r: int, c: int|
                0 <= r < row && 0 <= c < w ==> #[trigger] pixel_at(bgra@, w, r, c) == planes.pixel(
                    h,
                    r,
                    c,
                ),
        decreases height - row,
    {
        proof {
            lemma_row_offset(planes, h, row as int);
        }
        let y_row = row * y_stride;
        let uv_row = (row / 2) * uv_stride;
        let mut col: usize = 0;
        while col < width
            invariant
                row < height,
                col <= width,
                w == width,
                h == height,
                planes == planes_of(y_plane@, u_plane@, v_plane@, y_stride, uv_stride),
                planes.hold(w, h),
                k == coefficients_for(h),
                y_row == row * y_stride,
                uv_row == (row as int / 2) * uv_stride,
                bgra@.len() == (row * w + col) * 4,
                forall|r: int, c: int|
                    (0 <= r < row && 0 <= c < w) || (r == row && 0 <= c < col) ==> #[trigger] pixel_at(
                        bgra@,
                        w,
                        r,
                        c,
                    ) == planes.pixel(h, r, c),
            decreases width - col,
        {
            proof {
                lemma_inside_planes(planes, w, h, row as int, col as int);
                assert(y_plane.len() == y_plane@.len());
                assert(u_plane.len() == u_plane@.len());
            }
            let p = convert(
                &k,
                y_plane[y_row + col],
                u_plane[uv_row + col / 2],
                v_plane[uv_row + col / 2],
            );
            let ghost before = bgra@;
            bgra.push(p.blue);
            bgra.push(p.green);
            bgra.push(p.red);
            bgra.push(p.alpha);
            proof {
                assert(p == planes.pixel(h, row as int, col as int));
                assert forall|r: int, c: int|
                    (0 <= r < row && 0 <= c < w) || (r == row && 0 <= c < col + 1) implies #[trigger] pixel_at(
                    bgra@,
                    w,
                    r,
                    c,
                ) == planes.pixel(h, r, c) by {
                    if r < row || c < col {
                        lemma_reading_order(w, row as int, col as int, r, c);
                        assert(pixel_at(before, w, r, c) == planes.pixel(h, r, c));
                    }
                }
            }
            col += 1;
        }
        assert((row + 1) * w == row * w + w) by (nonlinear_arith);
        row += 1;
    }
    assert((h * w) * 4 == w * h * 4) by (nonlinear_arith);
    Frame { width: width as u32, height: height as u32, bgra }
}

/// Whether planes hold a picture of that size.
pub fn planes_hold(
    width: usize,
    height: usize,
    y_plane: &[u8],
    u_plane: &[u8],
    v_plane: &[u8],
    y_stride: usize,
    uv_stride: usize,
) -> (ok: bool)
    ensures
        ok == planes_of(y_plane@, u_plane@, v_plane@, y_stride, uv_stride).hold(
            width as int,
            height as int,
        ),
{
    let area = match width.checked_mul(height) {
        Some(area) => area,
        None => return false,
    };
    if area > isize::MAX as usize / 4 {
        return false;
    }
    if height == 0 {
        return true;
    }
    let last = height - 1;
    let (y_row, uv_row) = match (last.checked_mul(y_stride), (last / 2).checked_mul(uv_stride)) {
        (Some(y_row), Some(uv_row)) => (y_row, uv_row),
        _ => return false,
    };
    if width == 0 {
        return true;
    }
    let half = (width - 1) / 2;
    y_row < y_plane.len() && y_plane.len() - y_row >= width && uv_row < u_plane.len()
        && u_plane.len() - uv_row > half && uv_row < v_plane.len() && v_plane.len() - uv_row > half
}

/// [`yuv_to_bgra`] where the planes hold the picture, nothing where they do not.
pub fn yuv_to_bgra_checked(
    width: usize,
    height: usize,
    y_plane: &[u8],
    u_plane: &[u8],
    v_plane: &[u8],
    y_stride: usize,
    uv_stride: usize,
) -> (frame: Option<Frame>)
    ensures
        frame is Some <==> planes_of(y_plane@, u_plane@, v_plane@, y_stride, uv_stride).hold(
            width as int,
            height as int,
        ),
        frame matches Some(f) ==> shows(
            f@,
            planes_of(y_plane@, u_plane@, v_plane@, y_stride, uv_stride),
            width,
            height,
        ),
{
    if planes_hold(width, height, y_plane, u_plane, v_plane, y_stride, uv_stride) {
        Some(yuv_to_bgra(width, height, y_plane, u_plane, v_plane, y_stride, uv_stride))
    } else {
        None
    }
}

/// The samples of one plane, as wide as the stream's bit depth asks for.
#[derive(Debug)]
pub enum Plane {
    U8(Vec<u8>),
    U16(Vec<u16>),
}

/// The contents of a [`Plane`].
#[verifier::ext_equal]
pub enum PlaneSpec {
    U8(Seq<u8>),
    U16(Seq<u16>),
}

impl View for Plane {
    type V = PlaneSpec;

    open spec fn view(&self) -> PlaneSpec {
        match self {
            Plane::U8(samples) => PlaneSpec::U8(samples@),
            Plane::U16(samples) => PlaneSpec::U16(samples@),
        }
    }
}

/// How far samples of that depth are shifted down to fit a byte.
pub open spec fn depth_shift(bit_depth: u8) -> u8 {
    if bit_depth > 8 {
        (bit_depth - 8) as u8
    } else {
        0
    }
}

/// The low byte of a sample shifted down.
pub open spec fn scaled_sample(sample: u16, bit_depth: u8) -> u8 {
    (sample >> depth_shift(bit_depth)) as u8
}

impl PlaneSpec {
    /// The samples as bytes.
    pub open spec fn bytes(self, bit_depth: u8) -> Seq<u8> {
        match self {
            PlaneSpec::U8(samples) => samples,
            PlaneSpec::U16(samples) => samples.map_values(
                |sample: u16| scaled_sample(sample, bit_depth),
            ),
        }
    }

    /// Whether the shift is narrower than the samples it is applied to.
    pub open spec fn can_scale(self, bit_depth: u8) -> bool {
        self matches PlaneSpec::U16(samples) && samples.len() > 0 ==> depth_shift(bit_depth) < 16
    }
}

/// Whether [`plane_to_u8`] can take a plane of that depth.
pub fn can_scale(plane: &Plane, bit_depth: u8) -> (ok: bool)
    ensures
        ok == plane@.can_scale(bit_depth),
{
    match plane {
        Plane::U8(_) => true,
        Plane::U16(samples) => samples.len() == 0 || bit_depth.saturating_sub(8) < 16,
    }
}

/// The samples of a plane as bytes. Main 10 gives 16-bit samples; they are scaled down
/// rather than refused.
pub fn plane_to_u8(plane: &Plane, bit_depth: u8) -> (bytes: Vec<u8>)
    requires
        plane@.can_scale(bit_depth),
    ensures
        bytes@ == plane@.bytes(bit_depth),
{
    match plane {
        Plane::U8(samples) => samples.clone(),
        Plane::U16(samples) => {
            let shift = bit_depth.saturating_sub(8);
            let mut bytes: Vec<u8> = Vec::new();
            let mut i: usize = 0;
            while i < samples.len()
                invariant
                    i <= samples@.len(),
                    shift == depth_shift(bit_depth),
                    samples@.len() > 0 ==> shift < 16,
                    bytes@.len() == i,
                    forall|j: int|
                        0 <= j < i ==> bytes@[j] == scaled_sample(#[trigger] samples@[j], bit_depth),
                decreases samples.len() - i,
            {
                bytes.push(#[verifier::truncate] ((samples[i] >> shift) as u8));
                i += 1;
            }
            bytes
        },
    }
}

/// A sample that its depth allows keeps its eight highest bits.
pub proof fn law_scaling_keeps_high_bits(sample: u16, bit_depth: u8)
    requires
        8 <= bit_depth <= 16,
        sample < 1u32 << (bit_depth as u32),
    ensures
        scaled_sample(sample, bit_depth) == sample / ((1u32 << (depth_shift(bit_depth) as u32)) as u16),
{
    let shift = depth_shift(bit_depth);
    let depth = bit_depth as u32;
    let wide = shift as u32;
    assert(((sample >> shift) as u8) == sample / ((1u32 << wide) as u16)) by (bit_vector)
        requires
            sample < 1u32 << depth,
            8 <= depth <= 16,
            wide == depth - 8,
            wide == shift,
    ;
}

/// Every pixel of a converted frame is opaque, and the frame holds four bytes a pixel.
pub proof fn law_frames_are_opaque(frame: FrameSpec, planes: Planes, width: usize, height: usize)
    requires
        shows(frame, planes, width, height),
    ensures
        frame.bgra.len() == width * height * 4,
        forall|row: int, col: int|
            0 <= row < height && 0 <= col < width ==> #[trigger] pixel_at(
                frame.bgra,
                width as int,
                row,
                col,
            ).alpha == 255,
{
}

/// A converted frame always has the bytes that an image of its size is made of.
pub proof fn law_frames_fill_their_image(
    frame: FrameSpec,
    planes: Planes,
    width: usize,
    height: usize,
)
    requires
        shows(frame, planes, width, height),
    ensures
        frame.width * frame.height * 4 <= frame.bgra.len(),
        width <= u32::MAX && height <= u32::MAX ==> frame.width * frame.height * 4
            == frame.bgra.len(),
{
    let w = width as u32;
    let h = height as u32;
    assert(width as u32 <= width) by (bit_vector);
    assert(height as u32 <= height) by (bit_vector);
    assert(w * h * 4 <= width * height * 4) by (nonlinear_arith)
        requires
            0 <= w <= width,
            0 <= h <= height,
    ;
}

} // verus!
