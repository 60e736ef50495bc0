//! What a session promises: which stream is played, as whom, and when.

use crate::connection::ConnectionSpec;
use crate::decode::Codec;
use crate::session::{
    chosen_stream, first_video, is_plan, law_filter_opens_once, law_first_video_wins,
    reconnect_reason, Arrival, KeyFilterSpec, PumpSpec, SessionPlan, StepSpec, StreamInfoSpec,
    CONNECT_TIMEOUT_SECS, ITEM_TIMEOUT_SECS, KEY_FRAME_WAIT, QUEUE_LENGTH,
};
use crate::text::{ascii_lowered, trimmed_error};
use vstd::prelude::*;

verus! {

/// Whether two characters are the same but for the case of the letters `A` to `Z`.
pub open spec fn same_letter(a: char, b: char) -> bool {
    ||| a == b
    ||| 'A' <= a <= 'Z' && b == (a as u32 + 32) as char
    ||| 'A' <= b <= 'Z' && a == (b as u32 + 32) as char
}

/// Whether a text spells a word, in whatever case.
pub open spec fn spells(text: Seq<char>, word: Seq<char>) -> bool {
    text.len() == word.len() && forall|k: int|
        0 <= k < text.len() ==> same_letter(#[trigger] text[k], word[k])
}

/// A text in lower case spells a word in lower case exactly if the text does in some case.
pub(crate) proof fn lemma_spells(text: Seq<char>, word: Seq<char>)
    requires
        forall|k: int| 0 <= k < word.len() ==> !('A' <= #[trigger] word[k] <= 'Z'),
    ensures
        ascii_lowered(text) == word <==> spells(text, word),
{
    let low = ascii_lowered(text);
    if low == word {
        assert forall|k: int| 0 <= k < text.len() implies same_letter(#[trigger] text[k], word[k]) by {
            assert(low[k] == word[k]);
        }
    }
    if spells(text, word) {
        assert forall|k: int| 0 <= k < low.len() implies low[k] == word[k] by {
            assert(same_letter(text[k], word[k]));
            assert(!('A' <= word[k] <= 'Z'));
        }
        assert(low =~= word);
    }
}

proof fn lemma_codec_names(text: Seq<char>)
    ensures
        ascii_lowered(text) == "h264"@ <==> spells(text, "h264"@),
        ascii_lowered(text) == "h265"@ <==> spells(text, "h265"@),
        ascii_lowered(text) == "hevc"@ <==> spells(text, "hevc"@),
        !(spells(text, "h264"@) && spells(text, "h265"@)),
        !(spells(text, "h264"@) && spells(text, "hevc"@)),
{
    reveal_strlit("h264");
    reveal_strlit("h265");
    reveal_strlit("hevc");
    lemma_spells(text, "h264"@);
    lemma_spells(text, "h265"@);
    lemma_spells(text, "hevc"@);
    if ascii_lowered(text) == "h264"@ {
        assert("h264"@[3] != "h265"@[3]);
        assert("h264"@[3] != "hevc"@[3]);
    }
}

/// A stream is played exactly if there is video and the first of it is H.264 or H.265. Then
/// that stream is chosen: the H.264 decoder exactly where its encoding spells `h264`, the H.265
/// decoder exactly where it spells `h265` or `hevc`.
pub proof fn law_codec_follows_the_encoding(streams: Seq<StreamInfoSpec>, i: int)
    requires
        0 <= i < streams.len(),
        streams[i].media == "video"@,
        forall|j: int| 0 <= j < i ==> (#[trigger] streams[j]).media != "video"@,
    ensures
        ({
            let encoding = streams[i].encoding;
            let h264 = spells(encoding, "h264"@);
            let h265 = spells(encoding, "h265"@) || spells(encoding, "hevc"@);
            &&& chosen_stream(streams) is Ok <==> h264 || h265
            &&& chosen_stream(streams) matches Ok((k, codec)) ==> {
                &&& k == i
                &&& codec == Codec::H264 <==> h264
                &&& codec == Codec::H265 <==> h265
            }
            &&& chosen_stream(streams) matches Err(reason) ==> reason.len() == 25
                + encoding.len() && reason.take(25) == "unsupported video codec: "@ && spells(
                encoding,
                reason.skip(25),
            )
        }),
{
    law_first_video_wins(streams);
    lemma_codec_names(streams[i].encoding);
    let found = first_video(streams);
    assert(streams[i].media == "video"@);
    assert(found == Some(i));
    let encoding = streams[i].encoding;
    let low = ascii_lowered(encoding);
    reveal_strlit("unsupported video codec: ");
    if let Err(reason) = chosen_stream(streams) {
        assert(reason.take(25) =~= "unsupported video codec: "@);
        assert(reason.skip(25) =~= low);
        assert forall|k: int| 0 <= k < encoding.len() implies same_letter(
            #[trigger] encoding[k],
            low[k],
        ) by {}
    }
}

/// Without video nothing is played, and that is what is said.
pub proof fn law_no_video_is_an_error(streams: Seq<StreamInfoSpec>)
    requires
        forall|j: int| 0 <= j < streams.len() ==> (#[trigger] streams[j]).media != "video"@,
    ensures
        chosen_stream(streams) == Err::<(int, Codec), Seq<char>>("no video stream in this URL"@),
{
    law_first_video_wins(streams);
}

/// A session goes to the URL of the connection over the transport of the connection. It logs in
/// exactly where the connection has a user name that is not empty: with that name, and with the
/// password, which is empty where there is none. What is no URL opens no session.
pub proof fn law_plan_follows_the_connection(
    plan: Result<SessionPlan, String>,
    connection: ConnectionSpec,
    parsed: Result<url::Url, Seq<char>>,
)
    requires
        is_plan(plan, connection, parsed),
    ensures
        plan is Ok <==> parsed is Ok,
        plan matches Ok(p) ==> {
            &&& p.url == parsed->Ok_0
            &&& p.transport == connection.transport
            &&& p.credentials is Some <==> (connection.username matches Some(user)
                && user.len() > 0)
            &&& p.credentials matches Some(pair) ==> {
                &&& Some(pair.0@) == connection.username
                &&& match connection.password {
                    Some(password) => pair.1@ == password,
                    None => pair.1@.len() == 0,
                }
            }
        },
        plan matches Err(reason) ==> Err::<url::Url, Seq<char>>(reason@) == parsed,
{
}

/// Only access units of the pump's own stream are decoded. What else arrives is passed over and
/// changes nothing in what is decoded later; the session ends when the user or the server ends
/// it, and with an error when it breaks or nothing comes in time.
pub proof fn law_pump_minds_its_own_stream(pump: PumpSpec, arrival: Arrival)
    ensures
        pump.step(arrival) is Decode ==> (arrival matches Arrival::Video { stream: from, .. } && from
            == pump.video_stream),
        (arrival matches Arrival::Video { stream: from, .. } && from != pump.video_stream) ==> {
            &&& pump.step(arrival) is Skip
            &&& pump.after(arrival) == pump
        },
        arrival is Other ==> pump.step(arrival) is Skip && pump.after(arrival) == pump,
        pump.step(arrival) matches StepSpec::Finish(ending) ==> {
            &&& ending is Ok <==> arrival is Stopped || arrival is Ended
            &&& arrival is TimedOut ==> ending == Err::<(), Seq<char>>(
                "timed out waiting for video"@,
            )
            &&& arrival matches Arrival::Broken(e) ==> ending == Err::<(), Seq<char>>(e@)
        },
        pump.step(arrival) is Finish <==> !(arrival is Other || arrival is Video),
        pump.after(arrival).video_stream == pump.video_stream,
{
}

/// The pump after arrivals of its own stream, by which of them are flagged.
pub open spec fn pumped(pump: PumpSpec, key_frames: Seq<bool>) -> PumpSpec
    decreases key_frames.len(),
{
    if key_frames.len() == 0 {
        pump
    } else {
        pumped(pump, key_frames.drop_last()).after(
            Arrival::Video { stream: pump.video_stream, key_frame: key_frames.last() },
        )
    }
}

proof fn lemma_pumped(pump: PumpSpec, key_frames: Seq<bool>)
    ensures
        pumped(pump, key_frames).video_stream == pump.video_stream,
        pumped(pump, key_frames).filter == pump.filter.after_all(key_frames),
    decreases key_frames.len(),
{
    if key_frames.len() > 0 {
        lemma_pumped(pump, key_frames.drop_last());
    }
}

/// An access unit of the pump's own stream is decoded exactly if it or one before it was
/// flagged as a key frame, or if it is at least the sixtieth.
pub proof fn law_decoding_starts_at_a_key_frame(stream: usize, key_frames: Seq<bool>, i: int)
    requires
        0 <= i < key_frames.len(),
    ensures
        ({
            let pump = pumped(
                PumpSpec { video_stream: stream, filter: KeyFilterSpec::shut() },
                key_frames.take(i),
            );
            let step = pump.step(Arrival::Video { stream, key_frame: key_frames[i] });
            &&& step is Decode <==> i >= 59 || exists|j: int| 0 <= j <= i && key_frames[j]
            &&& step is Decode || step is Skip
        }),
{
    let pump = PumpSpec { video_stream: stream, filter: KeyFilterSpec::shut() };
    lemma_pumped(pump, key_frames.take(i));
    law_filter_opens_once(key_frames, i);
}

/// A connection may take ten seconds and the next item fifteen, at most four access units wait
/// for the decoder, and a key frame is waited for no longer than sixty.
pub proof fn law_session_limits()
    ensures
        CONNECT_TIMEOUT_SECS == 10,
        ITEM_TIMEOUT_SECS == 15,
        QUEUE_LENGTH == 4,
        KEY_FRAME_WAIT == 60,
{
}

/// A stream that ended says so, and one that broke says why.
pub proof fn law_reconnecting_says_why(reason: Seq<char>)
    ensures
        reconnect_reason(Ok(())) == "stream ended"@,
        reconnect_reason(Err(reason)) == trimmed_error(reason),
{
}

} // verus!
