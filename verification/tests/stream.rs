use rtsp_player::connection::{Connection, Transport};
use rtsp_player::decode::{
    draw_h264, draw_h265, keep_newest, Answer, BytePicture, Codec, DecodeError, Decoded, Nal,
    Picture, UnitRun,
};
use rtsp_player::player::{set_status, Player, Status, Tone, Watch, STARVATION_LIMIT};
use rtsp_player::probe::{probe_connection, Probe};
use rtsp_player::session::{
    after_session, choose_stream, connect_timeout, goes_on, plan_session, priming, AfterSession, Arrival,
    Backoff, KeyFilter, Pump, Sent, Step, StreamInfo, KEY_FRAME_WAIT,
};
use rtsp_player::yuv::{
    can_scale, plane_to_u8, planes_hold, yuv_to_bgra, yuv_to_bgra_checked, Frame, Plane,
};

/// One 16x16 picture in colour.
const COLOURS: [u8; 163] = [
    0x00, 0x00, 0x00, 0x01, 0x40, 0x01, 0x0c, 0x01, 0xff, 0xff, 0x03, 0x70,
    0x00, 0x00, 0x03, 0x00, 0x90, 0x00, 0x00, 0x03, 0x00, 0x00, 0x03, 0x00,
    0x1e, 0xba, 0x02, 0x40, 0x00, 0x00, 0x00, 0x01, 0x42, 0x01, 0x01, 0x03,
    0x70, 0x00, 0x00, 0x03, 0x00, 0x90, 0x00, 0x00, 0x03, 0x00, 0x00, 0x03,
    0x00, 0x1e, 0xa0, 0x88, 0x45, 0x96, 0xe9, 0x6f, 0x0b, 0x80, 0x40, 0x00,
    0x00, 0xfa, 0x00, 0x00, 0x03, 0x00, 0xfa, 0x02, 0x00, 0x00, 0x00, 0x01,
    0x44, 0x01, 0xc0, 0x71, 0x81, 0xa4, 0x80, 0x00, 0x00, 0x01, 0x28, 0x01,
    0xac, 0x16, 0x40, 0x46, 0x1f, 0xf1, 0xcf, 0xfa, 0xce, 0x63, 0xc7, 0x97,
    0x66, 0xbf, 0x66, 0x32, 0x6b, 0x24, 0x64, 0x58, 0xd3, 0xd7, 0x8c, 0xec,
    0x38, 0x65, 0xe7, 0xb1, 0xc5, 0x2d, 0xe9, 0x2b, 0xdb, 0x0e, 0xcf, 0x32,
    0xbf, 0xff, 0xff, 0xff, 0xda, 0xff, 0x6d, 0x6c, 0xed, 0x8d, 0xd3, 0x06,
    0x63, 0xba, 0xe3, 0x37, 0x50, 0x28, 0xbb, 0xe1, 0x1b, 0x77, 0xff, 0xff,
    0xcf, 0x7d, 0xd3, 0xd3, 0xe9, 0xd7, 0xcc, 0xca, 0x0e, 0xed, 0x89, 0xe3,
    0x81, 0x7c, 0x0c, 0xfe, 0xfe, 0x85, 0x4f,
];

/// Three 16x16 pictures, the last of which to be decoded is of luma 110.
const THREE_PICTURES: [u8; 121] = [
    0x00, 0x00, 0x00, 0x01, 0x40, 0x01, 0x0c, 0x01, 0xff, 0xff, 0x01, 0x60,
    0x00, 0x00, 0x03, 0x00, 0x90, 0x00, 0x00, 0x03, 0x00, 0x00, 0x03, 0x00,
    0x1e, 0x91, 0x30, 0x24, 0x00, 0x00, 0x00, 0x01, 0x42, 0x01, 0x01, 0x01,
    0x60, 0x00, 0x00, 0x03, 0x00, 0x90, 0x00, 0x00, 0x03, 0x00, 0x00, 0x03,
    0x00, 0x1e, 0xa0, 0x88, 0x45, 0x96, 0x44, 0xd6, 0xf0, 0xb8, 0x04, 0x00,
    0x00, 0x0f, 0xa0, 0x00, 0x00, 0x0f, 0xa0, 0x20, 0x00, 0x00, 0x00, 0x01,
    0x44, 0x01, 0xc0, 0x71, 0x81, 0xa4, 0x80, 0x00, 0x00, 0x00, 0x01, 0x28,
    0x01, 0xac, 0x4c, 0xdc, 0xb9, 0xfe, 0x1e, 0xb8, 0x00, 0x00, 0x00, 0x01,
    0x02, 0x01, 0xd0, 0x11, 0x56, 0x23, 0x80, 0xbe, 0x59, 0xfe, 0x24, 0xc0,
    0x00, 0x00, 0x00, 0x01, 0x00, 0x01, 0xe0, 0x24, 0xbe, 0x08, 0xa0, 0xf1,
    0xe0,
];

fn plane(data: rust_h265::PixelData) -> Plane {
    match data {
        rust_h265::PixelData::U8(samples) => Plane::U8(samples),
        rust_h265::PixelData::U16(samples) => Plane::U16(samples),
    }
}

fn feed_hevc(decoder: &mut rust_h265::Decoder, unit: &Nal) -> Answer<Picture> {
    let unit = rust_h265::NalUnit {
        nal_unit_type: unit.kind,
        nuh_layer_id: unit.layer,
        temporal_id: unit.temporal_id,
        rbsp: unit.payload.as_slice().into(),
        epb_positions: unit.guards.clone(),
    };
    match decoder.decode_nal(&unit) {
        Ok(Some(frame)) => Answer::Picture(Picture {
            width: frame.width,
            height: frame.height,
            y: plane(frame.y),
            u: plane(frame.u),
            v: plane(frame.v),
            bit_depth: frame.bit_depth,
        }),
        Ok(None) => Answer::NoPicture,
        Err(e) => Answer::Refused(e.to_string()),
    }
}

fn decode_hevc(decoder: &mut rust_h265::Decoder, access_unit: &[u8]) -> Decoded {
    let mut run = UnitRun::new(access_unit);
    while let Some(unit) = run.next_unit() {
        let answer = feed_hevc(decoder, unit);
        run.take_answer(answer);
    }
    run.finish()
}

fn decode_avc(decoder: &mut rusty_h264::Decoder, access_unit: &[u8]) -> Decoded {
    draw_h264(match decoder.decode(access_unit) {
        Ok(Some(frame)) => Answer::Picture(BytePicture {
            width: frame.width,
            height: frame.height,
            y: frame.y,
            u: frame.u,
            v: frame.v,
        }),
        Ok(None) => Answer::NoPicture,
        Err(e) => Answer::Refused(e.to_string()),
    })
}

fn frame(n: u32) -> Frame {
    Frame { width: n, height: 1, bgra: Vec::new() }
}

#[test]
fn black_and_white_convert() {
    let picture = yuv_to_bgra(2, 1, &[16, 235], &[128], &[128], 2, 1);
    assert_eq!((picture.width, picture.height), (2, 1));
    assert_eq!(picture.bgra, vec![0, 0, 0, 255, 255, 255, 255, 255]);
}

#[test]
fn small_pictures_use_bt601() {
    let picture = yuv_to_bgra(1, 1, &[100], &[90], &[200], 1, 1);
    // 84 * 298 = 25032; u = -38; v = 72.
    assert_eq!(picture.bgra, vec![21, 54, 213, 255]);
}

#[test]
fn tall_pictures_use_bt709() {
    let luma = vec![100u8; 720];
    let chroma_u = vec![90u8; 360];
    let chroma_v = vec![200u8; 360];
    let picture = yuv_to_bgra(1, 720, &luma, &chroma_u, &chroma_v, 1, 1);
    assert_eq!(picture.bgra.len(), 720 * 4);
    assert_eq!(&picture.bgra[..4], &[17, 68, 227, 255]);
    assert_eq!(&picture.bgra[719 * 4..], &[17, 68, 227, 255]);
}

#[test]
fn two_by_two_pixels_share_chroma() {
    let luma = [100u8; 9];
    let u = [128u8, 255, 0, 128];
    let v = [128u8; 4];
    let picture = yuv_to_bgra(3, 3, &luma, &u, &v, 3, 2);
    let pixel = |row: usize, col: usize| picture.bgra[(row * 3 + col) * 4];
    assert_eq!(pixel(0, 0), pixel(1, 1));
    assert_eq!(pixel(0, 2), pixel(1, 2));
    assert_eq!(pixel(2, 0), pixel(2, 1));
    assert_ne!(pixel(0, 1), pixel(0, 2));
    assert_eq!(pixel(0, 2), 255);
    assert_eq!(pixel(2, 0), 0);
}

#[test]
fn planes_that_are_too_short_are_refused() {
    assert!(planes_hold(2, 2, &[0; 4], &[0; 1], &[0; 1], 2, 1));
    assert!(!planes_hold(2, 2, &[0; 3], &[0; 1], &[0; 1], 2, 1));
    assert!(!planes_hold(2, 2, &[0; 4], &[0; 0], &[0; 1], 2, 1));
    assert!(!planes_hold(2, 2, &[0; 4], &[0; 1], &[0; 0], 2, 1));
    assert!(planes_hold(0, 2, &[], &[], &[], 0, 0));
    assert!(!planes_hold(usize::MAX, 2, &[], &[], &[], 0, 0));
    assert!(yuv_to_bgra_checked(2, 2, &[0; 3], &[0; 1], &[0; 1], 2, 1).is_none());
    assert!(yuv_to_bgra_checked(2, 2, &[0; 4], &[0; 1], &[0; 1], 2, 1).is_some());
}

#[test]
fn ten_bits_are_shifted_down() {
    let plane = Plane::U16(vec![0, 4, 1023, 512]);
    assert_eq!(plane_to_u8(&plane, 10), vec![0, 1, 255, 128]);
    assert_eq!(plane_to_u8(&Plane::U16(vec![300]), 8), vec![44]);
    assert_eq!(plane_to_u8(&Plane::U8(vec![7, 9]), 12), vec![7, 9]);
    assert!(can_scale(&plane, 23));
    assert!(!can_scale(&plane, 24));
    assert!(can_scale(&Plane::U16(Vec::new()), 200));
    assert!(can_scale(&Plane::U8(vec![1]), 200));
}

#[test]
fn an_hevc_picture_is_decoded_and_drawn() {
    let mut decoder = rust_h265::Decoder::new();
    let decoded = decode_hevc(&mut decoder, &COLOURS).unwrap().unwrap();
    assert_eq!((decoded.width, decoded.height), (16, 16));
    assert_eq!(decoded.bgra.len(), 16 * 16 * 4);
    assert_eq!(&decoded.bgra[..4], &[55, 255, 72, 255]);
    let at = (3 * 16 + 7) * 4;
    assert_eq!(&decoded.bgra[at..at + 4], &[194, 213, 114, 255]);
    assert_eq!(&decoded.bgra[255 * 4..], &[89, 112, 3, 255]);
}

#[test]
fn the_newest_picture_of_an_access_unit_is_shown() {
    let mut decoder = rust_h265::Decoder::new();
    let decoded = decode_hevc(&mut decoder, &THREE_PICTURES).unwrap().unwrap();
    assert_eq!(&decoded.bgra[..4], &[109, 109, 109, 255]);
}

#[test]
fn a_slice_without_parameter_sets_is_an_error() {
    let mut decoder = rust_h265::Decoder::new();
    match decode_hevc(&mut decoder, &[0, 0, 1, 0x28, 0x01, 0xad, 0x40, 0x37]) {
        Err(DecodeError::Refused(reason)) => assert!(!reason.is_empty()),
        other => panic!("unexpected {:?}", other.map(|f| f.map(|f| f.width))),
    }
    assert!(matches!(decode_hevc(&mut decoder, &[]), Ok(None)));
}

#[test]
fn an_h264_picture_is_decoded_and_drawn() {
    let config = rusty_h264::EncoderConfig::new(32, 16);
    let mut encoder = rusty_h264::Encoder::new(config).unwrap();
    let unit = encoder.encode(&rusty_h264::YuvFrame::black(32, 16));
    let mut decoder = rusty_h264::Decoder::new();
    let decoded = decode_avc(&mut decoder, &unit).unwrap().unwrap();
    assert_eq!((decoded.width, decoded.height), (32, 16));
    assert_eq!(decoded.bgra.len(), 32 * 16 * 4);
    assert!(decoded.bgra[0] < 8 && decoded.bgra[1] < 8 && decoded.bgra[2] < 8);
    assert_eq!(decoded.bgra[3], 255);
}

#[test]
fn an_h264_error_is_reported_in_words() {
    let mut decoder = rusty_h264::Decoder::new();
    match decode_avc(&mut decoder, &[0, 0, 0, 1, 0x65, 0x88, 0x84, 0x00]) {
        Err(DecodeError::Refused(reason)) => assert_eq!(reason, "slice before SPS/PPS"),
        _ => panic!("a slice came before its parameter sets"),
    }
    assert!(matches!(decode_avc(&mut decoder, &[]), Ok(None)));
}

fn grey(width: usize, height: usize, depth: u8) -> Picture {
    let half = (width + 1) / 2 * ((height + 1) / 2);
    Picture {
        width: width as u32,
        height: height as u32,
        y: Plane::U16(vec![504; width * height]),
        u: Plane::U16(vec![512; half]),
        v: Plane::U16(vec![512; half]),
        bit_depth: depth,
    }
}

#[test]
fn replies_are_drawn_with_their_own_strides() {
    let drawn = draw_h265(Answer::Picture(grey(3, 3, 10))).unwrap().unwrap();
    assert_eq!(&drawn.bgra[..4], &[128, 128, 128, 255]);
    assert!(matches!(draw_h265(Answer::NoPicture), Ok(None)));
    assert!(matches!(draw_h265(Answer::Picture(grey(3, 3, 30))), Err(DecodeError::Unrenderable)));
    let mut short = grey(3, 3, 10);
    short.u = Plane::U8(Vec::new());
    assert!(matches!(draw_h265(Answer::Picture(short)), Err(DecodeError::Unrenderable)));
    match draw_h265(Answer::Refused("broken".to_string())) {
        Err(DecodeError::Refused(reason)) => assert_eq!(reason, "broken"),
        _ => panic!("an error was lost"),
    }

    let picture = BytePicture {
        width: 4,
        height: 2,
        y: vec![126; 8],
        u: vec![128; 2],
        v: vec![128; 2],
    };
    let drawn = draw_h264(Answer::Picture(picture)).unwrap().unwrap();
    assert_eq!(drawn.bgra, [128, 128, 128, 255].repeat(8));
    let picture = BytePicture { width: 4, height: 2, y: vec![126; 8], u: vec![], v: vec![] };
    assert!(matches!(draw_h264(Answer::Picture(picture)), Err(DecodeError::Unrenderable)));
    assert!(matches!(draw_h264(Answer::NoPicture), Ok(None)));
    assert!(matches!(draw_h264(Answer::Refused(String::new())), Err(DecodeError::Refused(_))));
    assert!(matches!(draw_h264(Answer::Died), Err(DecodeError::Died)));
    assert!(matches!(draw_h265(Answer::Died), Err(DecodeError::Died)));
}

fn width(answer: Answer<Picture>) -> Option<u32> {
    match answer {
        Answer::Picture(picture) => Some(picture.width),
        _ => None,
    }
}

#[test]
fn the_newest_answer_is_kept() {
    let one = || Answer::Picture(grey(1, 1, 8));
    assert_eq!(width(keep_newest(one(), Answer::Picture(grey(2, 2, 8)))), Some(2));
    assert_eq!(width(keep_newest(one(), Answer::NoPicture)), Some(1));
    assert!(matches!(keep_newest(Answer::NoPicture, Answer::NoPicture), Answer::NoPicture));
    match keep_newest(one(), Answer::Refused("no".to_string())) {
        Answer::Refused(reason) => assert_eq!(reason, "no"),
        _ => panic!("an error was lost"),
    }
    assert!(matches!(keep_newest(one(), Answer::Died), Answer::Died));
}

fn units(n: u8) -> Vec<Nal> {
    (0..n)
        .map(|k| Nal {
            kind: rust_h265::NalUnitType::Sps,
            layer: 0,
            temporal_id: 0,
            payload: vec![k],
            guards: Vec::new(),
        })
        .collect()
}

fn payload(run: &UnitRun) -> Option<Vec<u8>> {
    run.next_unit().map(|unit| unit.payload.clone())
}

#[test]
fn units_are_fed_one_by_one() {
    let mut run = UnitRun::over(units(3));
    assert_eq!(payload(&run), Some(vec![0]));
    run.take_answer(Answer::Picture(grey(3, 3, 10)));
    assert_eq!(payload(&run), Some(vec![1]));
    run.take_answer(Answer::Picture(grey(1, 1, 10)));
    assert_eq!(payload(&run), Some(vec![2]));
    run.take_answer(Answer::NoPicture);
    assert_eq!(payload(&run), None);
    run.take_answer(Answer::Died);
    assert_eq!(run.finish().unwrap().unwrap().width, 1);
    assert!(matches!(UnitRun::over(units(0)).finish(), Ok(None)));
}

#[test]
fn an_error_ends_the_access_unit() {
    let mut run = UnitRun::over(units(3));
    run.take_answer(Answer::Picture(grey(1, 1, 10)));
    run.take_answer(Answer::Refused("bad slice".to_string()));
    assert_eq!(payload(&run), None);
    match run.finish() {
        Err(DecodeError::Refused(reason)) => assert_eq!(reason, "bad slice"),
        _ => panic!("an error was lost"),
    }
    let mut run = UnitRun::over(units(2));
    run.take_answer(Answer::Died);
    assert_eq!(payload(&run), None);
    assert!(matches!(run.finish(), Err(DecodeError::Died)));
}

#[test]
fn the_decoders_own_words_are_shown() {
    let mut player = Player::start(Connection::new("a", "rtsp://a"));
    let mut watch = Watch::new();
    for _ in 1..STARVATION_LIMIT {
        assert!(watch.take_in(&mut player, Ok(None)));
    }
    assert!(watch.take_in(&mut player, Err(DecodeError::Refused("no SPS".to_string()))));
    assert_eq!(player.status(), Status::Failed("no SPS".to_string()));
    assert!(watch.take_in(&mut player, Ok(Some(frame(5)))));
    assert_eq!(player.status(), Status::Playing);
    assert_eq!(player.take_frame().map(|f| f.width), Some(5));
}

#[test]
fn a_dead_decoder_is_given_up() {
    let mut player = Player::start(Connection::new("a", "rtsp://a"));
    let mut watch = Watch::new();
    assert!(!watch.take_in(&mut player, Err(DecodeError::Died)));
    assert!(!watch.take_in(&mut player, Err(DecodeError::Unrenderable)));
    assert_eq!(watch.starved, 0);
    assert_eq!(player.status(), Status::Connecting);
}

#[test]
fn announced_parameter_sets_go_first() {
    assert_eq!(priming(Some(vec![0, 0, 1, 0x40])), Some(vec![0, 0, 1, 0x40]));
    assert_eq!(priming(Some(Vec::new())), None);
    assert_eq!(priming(None), None);
}

#[test]
fn codecs_go_by_their_names() {
    assert_eq!(Codec::for_encoding("h264"), Some(Codec::H264));
    assert_eq!(Codec::for_encoding("h265"), Some(Codec::H265));
    assert_eq!(Codec::for_encoding("hevc"), Some(Codec::H265));
    assert_eq!(Codec::for_encoding("H264"), None);
    assert_eq!(Codec::for_encoding("jpeg"), None);
}

#[test]
fn statuses_have_messages_and_tones() {
    assert_eq!(Status::Connecting.message(), "Connecting\u{2026}");
    assert_eq!(Status::Playing.message(), "Playing");
    assert_eq!(Status::Reconnecting("later".to_string()).message(), "later");
    assert_eq!(Status::Failed("never".to_string()).message(), "never");
    assert_eq!(Status::Connecting.tone(), Tone::Muted);
    assert_eq!(Status::Playing.tone(), Tone::Success);
    assert_eq!(Status::Reconnecting(String::new()).tone(), Tone::Warning);
    assert_eq!(Status::Failed(String::new()).tone(), Tone::Danger);
}

#[test]
fn a_frame_is_taken_once() {
    let mut player = Player::start(Connection::new("a", "rtsp://a"));
    assert_eq!(player.status(), Status::Connecting);
    assert_eq!(player.decoded_count(), 0);
    assert!(player.take_frame().is_none());
    player.publish(frame(1));
    player.publish(frame(2));
    assert_eq!(player.decoded_count(), 2);
    assert_eq!(player.take_frame().map(|f| f.width), Some(2));
    assert!(player.take_frame().is_none());
    set_status(&mut player, Status::Playing);
    assert_eq!(player.status(), Status::Playing);
    assert!(!player.stopped);
    player.stop();
    assert!(player.stopped);
}

#[test]
fn the_count_starts_over() {
    let mut player = Player::start(Connection::new("a", "rtsp://a"));
    player.decoded_frames = u64::MAX;
    player.publish(frame(1));
    assert_eq!(player.decoded_count(), 0);
}

#[test]
fn a_starved_decoder_is_given_up_once() {
    let mut player = Player::start(Connection::new("a", "rtsp://a"));
    let mut watch = Watch::new();
    for _ in 1..STARVATION_LIMIT {
        watch.observe(&mut player, Ok(None));
    }
    assert_eq!(player.status(), Status::Connecting);
    watch.observe(&mut player, Ok(None));
    assert_eq!(
        player.status(),
        Status::Failed("decoder produced no pictures".to_string())
    );
    set_status(&mut player, Status::Connecting);
    watch.observe(&mut player, Err("late".to_string()));
    assert_eq!(player.status(), Status::Connecting);
    watch.observe(&mut player, Ok(Some(frame(1))));
    assert_eq!(player.status(), Status::Playing);
}

#[test]
fn the_last_error_says_why() {
    let mut player = Player::start(Connection::new("a", "rtsp://a"));
    let mut watch = Watch::new();
    watch.observe(&mut player, Err("first".to_string()));
    watch.observe(&mut player, Err("second".to_string()));
    for _ in 2..STARVATION_LIMIT {
        watch.observe(&mut player, Ok(None));
    }
    assert_eq!(player.status(), Status::Failed("second".to_string()));
}

#[test]
fn a_stream_that_played_is_not_given_up() {
    let mut player = Player::start(Connection::new("a", "rtsp://a"));
    let mut watch = Watch::new();
    watch.observe(&mut player, Ok(Some(frame(1))));
    for _ in 0..100 {
        watch.observe(&mut player, Err("noise".to_string()));
    }
    assert_eq!(player.status(), Status::Playing);
    assert_eq!(player.decoded_count(), 1);
}

#[test]
fn the_filter_opens_at_a_key_frame() {
    let mut filter = KeyFilter::new();
    assert!(!filter.offer(false));
    assert!(filter.offer(true));
    assert!(filter.offer(false));
}

#[test]
fn the_filter_opens_by_itself() {
    let mut filter = KeyFilter::new();
    for _ in 1..KEY_FRAME_WAIT {
        assert!(!filter.offer(false));
    }
    assert!(filter.offer(false));
    assert!(filter.offer(false));
}

#[test]
fn only_the_chosen_stream_is_decoded() {
    let mut pump = Pump::new(1);
    assert!(matches!(pump.step(Arrival::Other), Step::Skip));
    assert!(matches!(
        pump.step(Arrival::Video { stream: 0, key_frame: true }),
        Step::Skip
    ));
    assert!(matches!(
        pump.step(Arrival::Video { stream: 1, key_frame: false }),
        Step::Skip
    ));
    assert!(matches!(
        pump.step(Arrival::Video { stream: 1, key_frame: true }),
        Step::Decode
    ));
    assert!(matches!(
        pump.step(Arrival::Video { stream: 1, key_frame: false }),
        Step::Decode
    ));
}

#[test]
fn a_session_ends_for_a_reason() {
    let mut pump = Pump::new(0);
    assert!(matches!(pump.step(Arrival::Stopped), Step::Finish(Ok(()))));
    assert!(matches!(pump.step(Arrival::Ended), Step::Finish(Ok(()))));
    match pump.step(Arrival::TimedOut) {
        Step::Finish(Err(reason)) => assert_eq!(reason, "timed out waiting for video"),
        _ => panic!("a timeout ends the session"),
    }
    match pump.step(Arrival::Broken("reset".to_string())) {
        Step::Finish(Err(reason)) => assert_eq!(reason, "reset"),
        _ => panic!("an error ends the session"),
    }
    assert!(goes_on(Sent::Taken));
    assert!(goes_on(Sent::QueueFull));
    assert!(!goes_on(Sent::Disconnected));
}

#[test]
fn delays_double_up_to_ten_seconds() {
    let mut backoff = Backoff::new();
    let delays: Vec<u64> = (0..7).map(|_| backoff.next()).collect();
    assert_eq!(delays, vec![500, 1000, 2000, 4000, 8000, 10000, 10000]);
}

#[test]
fn a_session_is_followed_by_another() {
    let mut backoff = Backoff::new();
    match after_session(false, Ok(()), &mut backoff) {
        AfterSession::Retry { status, millis } => {
            assert_eq!(status, Status::Reconnecting("stream ended".to_string()));
            assert_eq!(millis, 500);
        }
        _ => panic!("a stream that ended is tried again"),
    }
    match after_session(false, Err("  reset\nby peer".to_string()), &mut backoff) {
        AfterSession::Retry { status, millis } => {
            assert_eq!(status, Status::Reconnecting("reset".to_string()));
            assert_eq!(millis, 1000);
        }
        _ => panic!("a stream that broke is tried again"),
    }
    assert!(matches!(after_session(true, Ok(()), &mut backoff), AfterSession::End));
    let split = format!("{}\u{2026}rest", "x".repeat(118));
    match after_session(false, Err(split), &mut backoff) {
        AfterSession::Retry { status, millis } => {
            let reason = format!("{}\u{2026}", "x".repeat(118));
            assert_eq!(status, Status::Reconnecting(reason));
            assert_eq!(millis, 2000);
        }
        _ => panic!("a stream that broke is tried again"),
    }
    assert_eq!(backoff.next(), 4000);
}

#[test]
fn a_plan_names_the_camera_and_the_user() {
    let mut connection = Connection::new("door", "rtsp://host:554/path");
    connection.username = Some("admin".to_string());
    connection.transport = Transport::Udp;
    let plan = plan_session(&connection).unwrap();
    assert_eq!(plan.url.host_str(), Some("host"));
    assert_eq!(plan.url.path(), "/path");
    assert_eq!(plan.credentials, Some(("admin".to_string(), String::new())));
    assert_eq!(plan.transport, Transport::Udp);
    let refused = plan_session(&Connection::new("door", "no url"));
    assert_eq!(refused.err(), Some("relative URL without a base".to_string()));
    assert_eq!(connect_timeout(&connection), "timed out connecting to rtsp://host:554/path");
}

fn info(media: &str, encoding: &str) -> StreamInfo {
    StreamInfo { media: media.to_string(), encoding: encoding.to_string() }
}

#[test]
fn the_first_video_stream_is_played() {
    let choice = choose_stream(&vec![
        info("audio", "mpeg4-generic"),
        info("video", "H265"),
        info("video", "H264"),
    ]);
    let choice = choice.ok().unwrap();
    assert_eq!(choice.stream, 1);
    assert_eq!(choice.codec, Codec::H265);
    assert_eq!(
        choose_stream(&vec![info("audio", "pcmu")]).err(),
        Some("no video stream in this URL".to_string())
    );
    assert_eq!(
        choose_stream(&vec![info("video", "JPEG")]).err(),
        Some("unsupported video codec: jpeg".to_string())
    );
}

#[test]
fn a_probe_reports_what_is_new() {
    let mut probe = Probe::new();
    assert_eq!(probe.exit_code(), 1);
    assert_eq!(probe.status_line("Connecting"), Some("status: Connecting".to_string()));
    assert_eq!(probe.status_line("Connecting"), None);
    assert_eq!(probe.status_line("Playing"), Some("status: Playing".to_string()));
    assert_eq!(probe.frame_line(1920, 1080), Some("first frame: 1920x1080".to_string()));
    assert_eq!(probe.frame_line(1920, 1080), None);
    assert_eq!(probe.exit_code(), 0);
}

#[test]
fn a_probe_takes_its_camera_from_the_arguments() {
    let args = vec!["rtsp://x".to_string(), "me".to_string(), "pw".to_string()];
    let connection = probe_connection(&args).unwrap();
    assert_eq!(connection.name, "probe");
    assert_eq!(connection.url, "rtsp://x");
    assert_eq!(connection.credentials(), Some(("me".to_string(), "pw".to_string())));
    assert!(probe_connection(&args[..1]).unwrap().username.is_none());
    assert!(probe_connection(&[]).is_none());
}

#[test]
fn a_decoded_frame_fills_its_image() {
    let mut decoder = rust_h265::Decoder::new();
    let decoded = decode_hevc(&mut decoder, &COLOURS).unwrap().unwrap();
    let image: Option<image::RgbaImage> =
        image::ImageBuffer::from_raw(decoded.width, decoded.height, decoded.bgra);
    let image = image.unwrap();
    assert_eq!(image.dimensions(), (16, 16));
    assert!(image.pixels().all(|pixel| pixel.0[3] == 255));
}

#[test]
fn decoding_stops_at_the_first_error() {
    let mut decoder = rust_h265::Decoder::new();
    let mut unit = vec![0, 0, 1, 0x28, 0x01, 0xad, 0x40, 0x37];
    unit.extend_from_slice(&COLOURS);
    assert!(matches!(decode_hevc(&mut decoder, &unit), Err(DecodeError::Refused(_))));
    // The parameter sets behind the error were not fed.
    assert!(matches!(
        decode_hevc(&mut decoder, &[0, 0, 1, 0x28, 0x01, 0xad, 0x40, 0x37]),
        Err(DecodeError::Refused(_))
    ));
    assert!(matches!(decode_hevc(&mut decoder, &COLOURS), Ok(Some(_))));
}
