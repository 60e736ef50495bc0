//! Decoding: access units in, pictures out.
//!
//! The two decoders stand outside, since a damaged stream can make either of them panic. What
//! this module fixes is what they are handed, which of the pictures they answer with is kept,
//! and how it is drawn.

use crate::text::same_text;
use crate::yuv::{
    can_scale, plane_to_u8, shows, yuv_to_bgra_checked, Frame, Plane, PlaneSpec, Planes,
};
use vstd::prelude::*;

verus! {

/// The kind of an HEVC unit.
#[verifier::external_type_specification]
#[verifier::external_body]
pub struct ExNalUnitType(rust_h265::NalUnitType);

/// One unit of an HEVC stream: its header, and its payload without the bytes that only
/// guard against start codes.
pub struct Nal {
    pub kind: rust_h265::NalUnitType,
    pub layer: u8,
    pub temporal_id: u8,
    pub payload: Vec<u8>,
    pub guards: Vec<u32>,
}

/// The contents of a [`Nal`].
#[verifier::ext_equal]
pub struct NalSpec {
    pub kind: rust_h265::NalUnitType,
    pub layer: u8,
    pub temporal_id: u8,
    pub payload: Seq<u8>,
    pub guards: Seq<u32>,
}

impl View for Nal {
    type V = NalSpec;

    open spec fn view(&self) -> NalSpec {
        NalSpec {
            kind: self.kind,
            layer: self.layer,
            temporal_id: self.temporal_id,
            payload: self.payload@,
            guards: self.guards@,
        }
    }
}

/// The contents of a list of units.
pub open spec fn nal_specs(units: Seq<Nal>) -> Seq<NalSpec> {
    units.map_values(|unit: Nal| unit@)
}

/// A picture as a decoder hands it out.
pub struct Picture {
    pub width: u32,
    pub height: u32,
    pub y: Plane,
    pub u: Plane,
    pub v: Plane,
    pub bit_depth: u8,
}

/// The contents of a [`Picture`].
#[verifier::ext_equal]
pub struct PictureSpec {
    pub width: u32,
    pub height: u32,
    pub y: PlaneSpec,
    pub u: PlaneSpec,
    pub v: PlaneSpec,
    pub bit_depth: u8,
}

impl View for Picture {
    type V = PictureSpec;

    open spec fn view(&self) -> PictureSpec {
        PictureSpec {
            width: self.width,
            height: self.height,
            y: self.y@,
            u: self.u@,
            v: self.v@,
            bit_depth: self.bit_depth,
        }
    }
}

/// What a decoder answers to what it is fed.
pub enum Answer<P> {
    Picture(P),
    NoPicture,
    /// It refused what it was fed, in its own words.
    Refused(String),
    /// It panicked and is of no further use.
    Died,
}

/// The contents of an answer of the HEVC decoder.
#[verifier::ext_equal]
pub enum AnswerSpec {
    Picture(PictureSpec),
    NoPicture,
    Refused(Seq<char>),
    Died,
}

pub open spec fn answer_spec(answer: Answer<Picture>) -> AnswerSpec {
    match answer {
        Answer::Picture(picture) => AnswerSpec::Picture(picture@),
        Answer::NoPicture => AnswerSpec::NoPicture,
        Answer::Refused(e) => AnswerSpec::Refused(e@),
        Answer::Died => AnswerSpec::Died,
    }
}

/// A picture as the H.264 decoder hands it out: bytes, and rows without padding.
pub struct BytePicture {
    pub width: usize,
    pub height: usize,
    pub y: Vec<u8>,
    pub u: Vec<u8>,
    pub v: Vec<u8>,
}

impl BytePicture {
    /// Whether the sides are even, luma has a sample for every pixel, and chroma one for every
    /// two by two.
    pub open spec fn sized(&self) -> bool {
        &&& self.width % 2 == 0
        &&& self.height % 2 == 0
        &&& self.y@.len() == self.width * self.height
        &&& self.u@.len() == (self.width / 2) * (self.height / 2)
        &&& self.v@.len() == (self.width / 2) * (self.height / 2)
    }
}

/// The units that `rust_h265::parse_annex_b` finds in an access unit.
pub uninterp spec fn annex_b_units(data: Seq<u8>) -> Seq<NalSpec>;

/// `rust_h265::parse_annex_b`: the units of an access unit. Which they are is left to the
/// name [`annex_b_units`]; they depend on the bytes alone.
#[verifier::external_body]
fn split_units(data: &[u8]) -> (units: Vec<Nal>)
    ensures
        nal_specs(units@) == annex_b_units(data@),
{
    rust_h265::parse_annex_b(data).into_iter().map(
        |unit| Nal {
            kind: unit.nal_unit_type,
            layer: unit.nuh_layer_id,
            temporal_id: unit.temporal_id,
            payload: unit.rbsp.into_owned(),
            guards: unit.epb_positions,
        },
    ).collect()
}

/// Why an access unit could not be shown.
#[derive(Debug)]
pub enum DecodeError {
    /// The decoder refused it, in its own words.
    Refused(String),
    /// The decoder answered with planes that do not hold the picture they are said to.
    Unrenderable,
    /// The decoder panicked.
    Died,
}

/// What decoding an access unit comes to.
pub type Decoded = Result<Option<Frame>, DecodeError>;

impl PictureSpec {
    /// The planes as bytes: luma rows as long as the picture is wide, chroma rows half of
    /// that, rounded up.
    pub open spec fn planes(self) -> Planes {
        Planes {
            y: self.y.bytes(self.bit_depth),
            u: self.u.bytes(self.bit_depth),
            v: self.v.bytes(self.bit_depth),
            y_stride: self.width as int,
            uv_stride: (self.width + 1) / 2,
        }
    }

    /// Whether the samples can be scaled to bytes, and then hold the picture.
    pub open spec fn renderable(self) -> bool {
        &&& self.y.can_scale(self.bit_depth)
        &&& self.u.can_scale(self.bit_depth)
        &&& self.v.can_scale(self.bit_depth)
        &&& self.planes().hold(self.width as int, self.height as int)
    }
}

impl BytePicture {
    /// The planes: luma rows as long as the picture is wide, chroma rows half of that.
    pub open spec fn planes(&self) -> Planes {
        Planes {
            y: self.y@,
            u: self.u@,
            v: self.v@,
            y_stride: self.width as int,
            uv_stride: self.width as int / 2,
        }
    }
}

/// What an answer of the HEVC decoder comes to.
pub open spec fn h265_comes_to(answer: AnswerSpec, decoded: Decoded) -> bool {
    match answer {
        AnswerSpec::Died => decoded == Err::<Option<Frame>, DecodeError>(DecodeError::Died),
        AnswerSpec::Refused(e) => decoded matches Err(DecodeError::Refused(text)) && text@ == e,
        AnswerSpec::NoPicture => decoded matches Ok(None),
        AnswerSpec::Picture(picture) => if picture.renderable() {
            decoded matches Ok(Some(frame)) && shows(
                frame@,
                picture.planes(),
                picture.width as usize,
                picture.height as usize,
            )
        } else {
            decoded == Err::<Option<Frame>, DecodeError>(DecodeError::Unrenderable)
        },
    }
}

/// What an answer of the H.264 decoder comes to.
pub open spec fn h264_comes_to(answer: Answer<BytePicture>, decoded: Decoded) -> bool {
    match answer {
        Answer::Died => decoded == Err::<Option<Frame>, DecodeError>(DecodeError::Died),
        Answer::Refused(e) => decoded matches Err(DecodeError::Refused(text)) && text@ == e@,
        Answer::NoPicture => decoded matches Ok(None),
        Answer::Picture(picture) => if picture.planes().hold(
            picture.width as int,
            picture.height as int,
        ) {
            decoded matches Ok(Some(frame)) && shows(
                frame@,
                picture.planes(),
                picture.width,
                picture.height,
            )
        } else {
            decoded == Err::<Option<Frame>, DecodeError>(DecodeError::Unrenderable)
        },
    }
}

/// The answer to keep after one more.
pub open spec fn newest_after(newest: AnswerSpec, answer: AnswerSpec) -> AnswerSpec {
    match answer {
        AnswerSpec::NoPicture => newest,
        _ => answer,
    }
}

/// Keeps the newest picture if an access unit yields several.
pub fn keep_newest(newest: Answer<Picture>, answer: Answer<Picture>) -> (kept: Answer<Picture>)
    ensures
        answer_spec(kept) == newest_after(answer_spec(newest), answer_spec(answer)),
{
    match answer {
        Answer::NoPicture => newest,
        other => other,
    }
}

/// Draws what the HEVC decoder answered.
pub fn draw_h265(answer: Answer<Picture>) -> (decoded: Decoded)
    ensures
        h265_comes_to(answer_spec(answer), decoded),
{
    let picture = match answer {
        Answer::Died => return Err(DecodeError::Died),
        Answer::Refused(e) => return Err(DecodeError::Refused(e)),
        Answer::NoPicture => return Ok(None),
        Answer::Picture(picture) => picture,
    };
    if !can_scale(&picture.y, picture.bit_depth) || !can_scale(&picture.u, picture.bit_depth)
        || !can_scale(&picture.v, picture.bit_depth) {
        return Err(DecodeError::Unrenderable);
    }
    let y = plane_to_u8(&picture.y, picture.bit_depth);
    let u = plane_to_u8(&picture.u, picture.bit_depth);
    let v = plane_to_u8(&picture.v, picture.bit_depth);
    let width = picture.width as usize;
    let height = picture.height as usize;
    match yuv_to_bgra_checked(
        width,
        height,
        y.as_slice(),
        u.as_slice(),
        v.as_slice(),
        width,
        width / 2 + width % 2,
    ) {
        Some(frame) => Ok(Some(frame)),
        None => Err(DecodeError::Unrenderable),
    }
}

/// Draws what the H.264 decoder answered to an access unit, which it is fed whole.
pub fn draw_h264(answer: Answer<BytePicture>) -> (decoded: Decoded)
    ensures
        h264_comes_to(answer, decoded),
{
    let picture = match answer {
        Answer::Died => return Err(DecodeError::Died),
        Answer::Refused(e) => return Err(DecodeError::Refused(e)),
        Answer::NoPicture => return Ok(None),
        Answer::Picture(picture) => picture,
    };
    match yuv_to_bgra_checked(
        picture.width,
        picture.height,
        picture.y.as_slice(),
        picture.u.as_slice(),
        picture.v.as_slice(),
        picture.width,
        picture.width / 2,
    ) {
        Some(frame) => Ok(Some(frame)),
        None => Err(DecodeError::Unrenderable),
    }
}

/// The decoding of one access unit of an HEVC stream. The decoder is fed its units one by one,
/// and each answer is taken in before the next.
pub struct UnitRun {
    units: Vec<Nal>,
    next: usize,
    newest: Answer<Picture>,
}

/// The contents of a [`UnitRun`]: the units that the decoder has not been fed, and the answer
/// that is kept.
#[verifier::ext_equal]
pub struct UnitRunSpec {
    pub left: Seq<NalSpec>,
    pub newest: AnswerSpec,
}

impl View for UnitRun {
    type V = UnitRunSpec;

    closed spec fn view(&self) -> UnitRunSpec {
        UnitRunSpec {
            left: if self.next < self.units@.len() {
                nal_specs(self.units@).skip(self.next as int)
            } else {
                Seq::empty()
            },
            newest: answer_spec(self.newest),
        }
    }
}

/// Whether an answer leaves the decoder ready for more.
pub open spec fn is_usable(answer: AnswerSpec) -> bool {
    answer is Picture || answer is NoPicture
}

impl UnitRunSpec {
    /// Before the decoder is fed any of the units.
    pub open spec fn started(units: Seq<NalSpec>) -> UnitRunSpec {
        UnitRunSpec { left: units, newest: AnswerSpec::NoPicture }
    }

    /// The unit that the decoder is fed next.
    pub open spec fn next_unit(self) -> Option<NalSpec> {
        if self.left.len() > 0 {
            Some(self.left[0])
        } else {
            None
        }
    }

    /// After the decoder's answer to the next unit. It is fed nothing after an error.
    pub open spec fn after(self, answer: AnswerSpec) -> UnitRunSpec {
        if self.left.len() == 0 {
            self
        } else {
            UnitRunSpec {
                left: if is_usable(answer) {
                    self.left.drop_first()
                } else {
                    Seq::empty()
                },
                newest: newest_after(self.newest, answer),
            }
        }
    }

    /// After several answers.
    pub open spec fn after_all(self, answers: Seq<AnswerSpec>) -> UnitRunSpec
        decreases answers.len(),
    {
        if answers.len() == 0 {
            self
        } else {
            self.after_all(answers.drop_last()).after(answers.last())
        }
    }
}

impl UnitRun {
    /// The decoding of an access unit.
    pub fn new(access_unit: &[u8]) -> (run: UnitRun)
        ensures
            run@ == UnitRunSpec::started(annex_b_units(access_unit@)),
    {
        UnitRun::over(split_units(access_unit))
    }

    /// The decoding of an access unit that consists of those units.
    pub fn over(units: Vec<Nal>) -> (run: UnitRun)
        ensures
            run@ == UnitRunSpec::started(nal_specs(units@)),
    {
        let run = UnitRun { units, next: 0, newest: Answer::NoPicture };
        assert(run@.left =~= nal_specs(units@));
        run
    }

    /// The unit to feed the decoder next, `None` once the access unit is over.
    pub fn next_unit(&self) -> (unit: Option<&Nal>)
        ensures
            (match unit {
                Some(u) => Some(u@),
                None => None,
            }) == self@.next_unit(),
    {
        if self.next < self.units.len() {
            Some(&self.units[self.next])
        } else {
            None
        }
    }

    /// Takes in what the decoder answered to the unit it was fed.
    pub fn take_answer(&mut self, answer: Answer<Picture>)
        ensures
            final(self)@ == old(self)@.after(answer_spec(answer)),
    {
        if self.next >= self.units.len() {
            return;
        }
        let ghost all = nal_specs(self.units@);
        let usable = match &answer {
            Answer::Picture(_) => true,
            Answer::NoPicture => true,
            Answer::Refused(_) => false,
            Answer::Died => false,
        };
        let mut newest = Answer::NoPicture;
        core::mem::swap(&mut newest, &mut self.newest);
        self.newest = keep_newest(newest, answer);
        self.next = if usable {
            self.next + 1
        } else {
            self.units.len()
        };
        assert(self@ =~= old(self)@.after(answer_spec(answer)));
    }

    /// Draws the answer that was kept.
    pub fn finish(self) -> (decoded: Decoded)
        ensures
            h265_comes_to(self@.newest, decoded),
    {
        draw_h265(self.newest)
    }
}

/// Which decoder a stream needs.
#[derive(Debug, Clone, Copy, PartialEq, Eq, Structural)]
pub enum Codec {
    H264,
    H265,
}

impl Codec {
    /// The codec that an encoding's name stands for.
    pub open spec fn named(encoding: Seq<char>) -> Option<Codec> {
        if encoding == "h264"@ {
            Some(Codec::H264)
        } else if encoding == "h265"@ || encoding == "hevc"@ {
            Some(Codec::H265)
        } else {
            None
        }
    }

    /// The codec for an encoding, by its name in lower case.
    pub fn for_encoding(encoding: &str) -> (codec: Option<Codec>)
        ensures
            codec == Codec::named(encoding@),
    {
        if same_text(encoding, "h264") {
            Some(Codec::H264)
        } else if same_text(encoding, "h265") || same_text(encoding, "hevc") {
            Some(Codec::H265)
        } else {
            None
        }
    }
}

/// As long as the decoder can be used, it is fed the units one by one and in order.
pub proof fn law_units_are_fed_in_order(units: Seq<NalSpec>, answers: Seq<AnswerSpec>)
    requires
        answers.len() <= units.len(),
        forall|k: int| 0 <= k < answers.len() ==> is_usable(#[trigger] answers[k]),
    ensures
        ({
            let run = UnitRunSpec::started(units).after_all(answers);
            &&& run.left == units.skip(answers.len() as int)
            &&& run.next_unit() == if answers.len() < units.len() {
                Some(units[answers.len() as int])
            } else {
                None
            }
        }),
    decreases answers.len(),
{
    if answers.len() > 0 {
        let before = answers.drop_last();
        law_units_are_fed_in_order(units, before);
        assert(is_usable(answers[answers.len() - 1]));
        assert(units.skip(before.len() as int).drop_first() =~= units.skip(answers.len() as int));
    } else {
        assert(units.skip(0) =~= units);
    }
}

/// Without an error the newest picture is what the access unit comes to.
pub proof fn law_newest_picture_wins(units: Seq<NalSpec>, answers: Seq<AnswerSpec>)
    requires
        answers.len() <= units.len(),
        forall|k: int| 0 <= k < answers.len() ==> is_usable(#[trigger] answers[k]),
    ensures
        ({
            let newest = UnitRunSpec::started(units).after_all(answers).newest;
            &&& (forall|k: int| 0 <= k < answers.len() ==> #[trigger] answers[k] is NoPicture)
                ==> newest is NoPicture
            &&& forall|k: int|
                0 <= k < answers.len() && #[trigger] answers[k] is Picture && (forall|j: int|
                    k < j < answers.len() ==> #[trigger] answers[j] is NoPicture) ==> newest
                    == answers[k]
        }),
    decreases answers.len(),
{
    if answers.len() > 0 {
        let before = answers.drop_last();
        let last = answers[answers.len() - 1];
        assert(is_usable(last));
        law_units_are_fed_in_order(units, before);
        law_newest_picture_wins(units, before);
        let newest = UnitRunSpec::started(units).after_all(answers).newest;
        assert forall|k: int|
            0 <= k < answers.len() && #[trigger] answers[k] is Picture && (forall|j: int|
                k < j < answers.len() ==> #[trigger] answers[j] is NoPicture) implies newest
            == answers[k] by {
            if k < before.len() {
                assert(last is NoPicture);
                assert(before[k] is Picture);
                assert forall|j: int| k < j < before.len() implies #[trigger] before[j] is NoPicture by {
                    assert(answers[j] is NoPicture);
                }
            }
        }
    }
}

/// At the first error the access unit is over: the decoder is fed nothing more of it, and the
/// error is what it comes to.
pub proof fn law_error_ends_the_unit(units: Seq<NalSpec>, answers: Seq<AnswerSpec>, k: int)
    requires
        0 <= k < answers.len(),
        k < units.len(),
        !is_usable(answers[k]),
        forall|j: int| 0 <= j < k ==> is_usable(#[trigger] answers[j]),
    ensures
        ({
            let run = UnitRunSpec::started(units).after_all(answers);
            run.next_unit() is None && run.newest == answers[k]
        }),
    decreases answers.len(),
{
    let before = answers.drop_last();
    if k < before.len() {
        law_error_ends_the_unit(units, before, k);
    } else {
        law_units_are_fed_in_order(units, before);
    }
}

/// A picture with planes of the right size is always shown, if it fits in memory.
pub proof fn law_sized_pictures_are_shown(picture: BytePicture, decoded: Decoded)
    requires
        picture.sized(),
        picture.width * picture.height * 4 <= isize::MAX,
        h264_comes_to(Answer::Picture(picture), decoded),
    ensures
        decoded matches Ok(Some(frame)) && shows(
            frame@,
            picture.planes(),
            picture.width,
            picture.height,
        ),
{
    let w = picture.width as int;
    let h = picture.height as int;
    let half_w = w / 2;
    let half_h = h / 2;
    if w > 0 && h > 0 {
        assert((h - 1) * w + w == h * w) by (nonlinear_arith);
        assert(h * w == w * h) by (nonlinear_arith);
        assert((half_h - 1) * half_w + half_w == half_w * half_h) by (nonlinear_arith);
        assert(half_w * half_h <= w * h) by (nonlinear_arith)
            requires
                0 <= half_w <= w,
                0 <= half_h <= h,
        ;
        assert((h - 1) / 2 == half_h - 1);
        assert((w - 1) / 2 == half_w - 1);
        assert(0 <= (half_h - 1) * half_w) by (nonlinear_arith)
            requires
                half_h >= 1,
                half_w >= 0,
        ;
        assert(w * h >= 0) by (nonlinear_arith)
            requires
                w >= 0,
                h >= 0,
        ;
    } else if h > 0 {
        assert((h - 1) * w == 0) by (nonlinear_arith)
            requires
                w == 0,
        ;
        assert(((h - 1) / 2) * half_w == 0) by (nonlinear_arith)
            requires
                half_w == 0,
        ;
    }
}

/// An access unit starts with all of its units to be fed and no picture, and once it is over no
/// answer changes what it comes to.
pub proof fn law_access_unit_begins_and_ends(
    units: Seq<NalSpec>,
    run: UnitRunSpec,
    answer: AnswerSpec,
)
    ensures
        UnitRunSpec::started(units).left == units,
        UnitRunSpec::started(units).newest is NoPicture,
        run.next_unit() is None ==> run.after(answer) == run,
        run.next_unit() matches Some(unit) ==> unit == run.left[0] && run.after(answer).left.len()
            < run.left.len(),
{
}

/// What a decoder refuses or dies of shows nothing, and is said as it was.
pub proof fn law_errors_are_passed_on(
    reason: String,
    decoded: Decoded,
)
    ensures
        h264_comes_to(Answer::Refused(reason), decoded) ==> (decoded matches Err(
            DecodeError::Refused(text),
        ) && text@ == reason@),
        h264_comes_to(Answer::NoPicture, decoded) ==> (decoded matches Ok(None)),
        h264_comes_to(Answer::Died, decoded) ==> (decoded matches Err(DecodeError::Died)),
        h265_comes_to(AnswerSpec::Refused(reason@), decoded) ==> (decoded matches Err(
            DecodeError::Refused(text),
        ) && text@ == reason@),
        h265_comes_to(AnswerSpec::NoPicture, decoded) ==> (decoded matches Ok(None)),
        h265_comes_to(AnswerSpec::Died, decoded) ==> (decoded matches Err(DecodeError::Died)),
{
}

} // verus!
