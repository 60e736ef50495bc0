//! The decisions of a streaming session: what to connect to, which access units to decode,
//! and when to try again. The network itself is elsewhere.

use crate::connection::{Connection, ConnectionSpec, Transport};
use crate::decode::Codec;
use crate::player::{Status, StatusSpec};
use crate::text::{ascii_lowered, same_text, to_ascii_lowercase, trim_error, trimmed_error};
use vstd::prelude::*;
use vstd::string::StringExecFns;

verus! {

/// Access units to wait for a flagged key frame before decoding regardless.
pub const KEY_FRAME_WAIT: usize = 60;

/// Seconds that the RTSP handshake may take, so an unreachable camera reports rather than
/// hangs.
pub const CONNECT_TIMEOUT_SECS: u64 = 10;

/// Seconds to wait for the next item of a session.
pub const ITEM_TIMEOUT_SECS: u64 = 15;

/// Access units that may wait for the decoder. Bounded so a slow decoder drops old ones
/// instead of growing a queue that would show ever-staler video.
pub const QUEUE_LENGTH: usize = 4;

/// Feeding a decoder from the middle of a group of pictures produces green garbage, so the
/// filter stays shut until a key frame. Not every server flags them correctly though, so it
/// opens by itself after a while rather than sitting silent forever.
pub struct KeyFilter {
    open: bool,
    waited: usize,
}

/// The contents of a [`KeyFilter`].
#[verifier::ext_equal]
pub struct KeyFilterSpec {
    pub open: bool,
    pub waited: int,
}

impl View for KeyFilter {
    type V = KeyFilterSpec;

    closed spec fn view(&self) -> KeyFilterSpec {
        KeyFilterSpec { open: self.open, waited: self.waited as int }
    }
}

impl KeyFilterSpec {
    /// Before the first access unit.
    pub open spec fn shut() -> KeyFilterSpec {
        KeyFilterSpec { open: false, waited: 0 }
    }

    /// Whether the next access unit passes.
    pub open spec fn passes(self, key_frame: bool) -> bool {
        self.open || key_frame || self.waited + 1 >= KEY_FRAME_WAIT
    }

    /// The filter after the next access unit.
    pub open spec fn after(self, key_frame: bool) -> KeyFilterSpec {
        if self.open {
            self
        } else {
            KeyFilterSpec { open: self.passes(key_frame), waited: self.waited + 1 }
        }
    }

    /// The filter after a run of access units, by which of them are flagged.
    pub open spec fn after_all(self, key_frames: Seq<bool>) -> KeyFilterSpec
        decreases key_frames.len(),
    {
        if key_frames.len() == 0 {
            self
        } else {
            self.after_all(key_frames.drop_last()).after(key_frames.last())
        }
    }
}

impl KeyFilter {
    #[verifier::type_invariant]
    spec fn inv(self) -> bool {
        self.waited < usize::MAX && (!self.open ==> self.waited < KEY_FRAME_WAIT)
    }

    /// A filter that nothing has passed.
    pub fn new() -> (filter: KeyFilter)
        ensures
            filter@ == KeyFilterSpec::shut(),
    {
        KeyFilter { open: false, waited: 0 }
    }

    /// Whether the next access unit may be decoded.
    pub fn offer(&mut self, key_frame: bool) -> (passes: bool)
        ensures
            passes == old(self)@.passes(key_frame),
            final(self)@ == old(self)@.after(key_frame),
    {
        proof {
            use_type_invariant(&*self);
        }
        if self.open {
            return true;
        }
        let waited = self.waited + 1;
        let open = key_frame || waited >= KEY_FRAME_WAIT;
        *self = KeyFilter { open, waited };
        open
    }
}

/// An access unit is decoded exactly if it or one before it was flagged, or fifty-nine came
/// before it.
pub proof fn law_filter_opens_once(key_frames: Seq<bool>, i: int)
    requires
        0 <= i < key_frames.len(),
    ensures
        KeyFilterSpec::shut().after_all(key_frames.take(i)).passes(key_frames[i]) == (i + 1
            >= KEY_FRAME_WAIT || exists|j: int| 0 <= j <= i && key_frames[j]),
{
    lemma_filter(key_frames.take(i));
    let seen = key_frames.take(i);
    if exists|j: int| 0 <= j < i && key_frames[j] {
        let j = choose|j: int| 0 <= j < i && key_frames[j];
        assert(seen[j]);
    }
}

proof fn lemma_filter(key_frames: Seq<bool>)
    ensures
        ({
            let filter = KeyFilterSpec::shut().after_all(key_frames);
            &&& filter.open == (key_frames.len() >= KEY_FRAME_WAIT || exists|j: int|
                0 <= j < key_frames.len() && key_frames[j])
            &&& !filter.open ==> filter.waited == key_frames.len()
        }),
    decreases key_frames.len(),
{
    if key_frames.len() > 0 {
        let before = key_frames.drop_last();
        lemma_filter(before);
        if exists|j: int| 0 <= j < before.len() && before[j] {
            let j = choose|j: int| 0 <= j < before.len() && before[j];
            assert(key_frames[j]);
        }
        if exists|j: int| 0 <= j < key_frames.len() && key_frames[j] {
            let j = choose|j: int| 0 <= j < key_frames.len() && key_frames[j];
            if j < before.len() {
                assert(before[j]);
            }
        }
        if key_frames.last() {
            assert(key_frames[key_frames.len() - 1]);
        }
    }
}

/// What a session brings next.
pub enum Arrival {
    /// The user has closed the stream.
    Stopped,
    /// Nothing came in time.
    TimedOut,
    /// The server has ended the stream.
    Ended,
    /// The session broke, in its own words.
    Broken(String),
    /// Something that is not video.
    Other,
    /// An access unit of a video stream.
    Video { stream: usize, key_frame: bool },
}

/// How a session ends: well, or for a reason.
pub type Ending = Result<(), String>;

/// What to do about an arrival.
pub enum Step {
    /// End the session.
    Finish(Ending),
    /// Wait for the next.
    Skip,
    /// Hand the access unit to the decoder.
    Decode,
}

/// The contents of an [`Ending`].
pub open spec fn ending_spec(ending: Ending) -> Result<(), Seq<char>> {
    match ending {
        Ok(()) => Ok(()),
        Err(e) => Err(e@),
    }
}

/// The contents of a [`Step`].
pub enum StepSpec {
    Finish(Result<(), Seq<char>>),
    Skip,
    Decode,
}

impl View for Step {
    type V = StepSpec;

    open spec fn view(&self) -> StepSpec {
        match self {
            Step::Finish(ending) => StepSpec::Finish(ending_spec(*ending)),
            Step::Skip => StepSpec::Skip,
            Step::Decode => StepSpec::Decode,
        }
    }
}

/// Takes the access units of one video stream out of a session.
pub struct Pump {
    pub video_stream: usize,
    pub filter: KeyFilter,
}

/// The contents of a [`Pump`].
#[verifier::ext_equal]
pub struct PumpSpec {
    pub video_stream: usize,
    pub filter: KeyFilterSpec,
}

impl View for Pump {
    type V = PumpSpec;

    open spec fn view(&self) -> PumpSpec {
        PumpSpec { video_stream: self.video_stream, filter: self.filter@ }
    }
}

impl PumpSpec {
    /// What is done about an arrival.
    pub open spec fn step(self, arrival: Arrival) -> StepSpec {
        match arrival {
            Arrival::Stopped => StepSpec::Finish(Ok(())),
            Arrival::TimedOut => StepSpec::Finish(Err("timed out waiting for video"@)),
            Arrival::Ended => StepSpec::Finish(Ok(())),
            Arrival::Broken(e) => StepSpec::Finish(Err(e@)),
            Arrival::Other => StepSpec::Skip,
            Arrival::Video { stream, key_frame } => if stream == self.video_stream
                && self.filter.passes(key_frame) {
                StepSpec::Decode
            } else {
                StepSpec::Skip
            },
        }
    }

    /// The pump after an arrival. Only access units of its own stream count for the filter.
    pub open spec fn after(self, arrival: Arrival) -> PumpSpec {
        match arrival {
            Arrival::Video { stream, key_frame } if stream == self.video_stream => PumpSpec {
                filter: self.filter.after(key_frame),
                ..self
            },
            _ => self,
        }
    }
}

impl Pump {
    /// A pump for that stream, with its filter shut.
    pub fn new(video_stream: usize) -> (pump: Pump)
        ensures
            pump@ == (PumpSpec { video_stream, filter: KeyFilterSpec::shut() }),
    {
        Pump { video_stream, filter: KeyFilter::new() }
    }

    /// Decides about an arrival.
    pub fn step(&mut self, arrival: Arrival) -> (step: Step)
        ensures
            step@ == old(self)@.step(arrival),
            final(self)@ == old(self)@.after(arrival),
    {
        match arrival {
            Arrival::Stopped => Step::Finish(Ok(())),
            Arrival::TimedOut => Step::Finish(Err("timed out waiting for video".to_owned())),
            Arrival::Ended => Step::Finish(Ok(())),
            Arrival::Broken(e) => Step::Finish(Err(e)),
            Arrival::Other => Step::Skip,
            Arrival::Video { stream, key_frame } => {
                if stream == self.video_stream && self.filter.offer(key_frame) {
                    Step::Decode
                } else {
                    Step::Skip
                }
            },
        }
    }
}

/// The access unit that the decoder is fed before any other: the parameter sets that the server
/// announced, so that the decoder is configured even if they never come with the pictures.
pub fn priming(announced: Option<Vec<u8>>) -> (first: Option<Vec<u8>>)
    ensures
        match announced {
            Some(sets) if sets@.len() > 0 => first matches Some(unit) && unit@ == sets@,
            _ => first is None,
        },
{
    match announced {
        Some(sets) => {
            if sets.len() > 0 {
                Some(sets)
            } else {
                None
            }
        },
        None => None,
    }
}

/// What became of an access unit that was handed to the decoder.
#[derive(Debug, Clone, Copy, PartialEq, Eq, Structural)]
pub enum Sent {
    Taken,
    /// The decoder is behind. Dropping is the right call for live video.
    QueueFull,
    /// The decoder is gone.
    Disconnected,
}

/// Whether the session goes on after that.
pub fn goes_on(sent: Sent) -> (on: bool)
    ensures
        on == (sent != Sent::Disconnected),
{
    match sent {
        Sent::Taken => true,
        Sent::QueueFull => true,
        Sent::Disconnected => false,
    }
}

/// The delay before the next attempt, in milliseconds: it doubles up to ten seconds.
pub struct Backoff {
    millis: u64,
}

impl Backoff {
    #[verifier::type_invariant]
    spec fn inv(self) -> bool {
        500 <= self.millis <= 10_000
    }

    /// The delay that comes next.
    pub closed spec fn delay(self) -> u64 {
        self.millis
    }

    /// The delay after the first session.
    pub fn new() -> (backoff: Backoff)
        ensures
            backoff.delay() == backoff_delay(0),
    {
        Backoff { millis: 500 }
    }

    /// The delay before the next attempt.
    pub fn next(&mut self) -> (millis: u64)
        ensures
            millis == old(self).delay(),
            final(self).delay() == doubled_delay(old(self).delay()),
    {
        proof {
            use_type_invariant(&*self);
        }
        let millis = self.millis;
        let doubled = millis * 2;
        *self = Backoff { millis: if doubled < 10_000 { doubled } else { 10_000 } };
        millis
    }
}

/// The delay after that one.
pub open spec fn doubled_delay(millis: u64) -> u64 {
    if millis * 2 < 10_000 {
        (millis * 2) as u64
    } else {
        10_000
    }
}

/// The delay after so many failed attempts before.
pub open spec fn backoff_delay(attempt: nat) -> u64
    decreases attempt,
{
    if attempt == 0 {
        500
    } else {
        doubled_delay(backoff_delay((attempt - 1) as nat))
    }
}

/// Delays double from half a second and stay at ten.
pub proof fn law_backoff_is_capped(attempt: nat)
    ensures
        backoff_delay(attempt) == if attempt < 5 {
            500 * vstd::arithmetic::power2::pow2(attempt) as int
        } else {
            10_000
        },
        500 <= backoff_delay(attempt) <= 10_000,
    decreases attempt,
{
    reveal(vstd::arithmetic::power2::pow2);
    vstd::arithmetic::power2::lemma2_to64();
    if attempt > 0 {
        law_backoff_is_capped((attempt - 1) as nat);
    }
}

/// What to do after a session.
pub enum AfterSession {
    /// The stream was closed: end.
    End,
    /// Show that status, wait so many milliseconds, and connect again.
    Retry { status: Status, millis: u64 },
}

/// Why a stream reconnects.
pub open spec fn reconnect_reason(ending: Result<(), Seq<char>>) -> Seq<char> {
    match ending {
        Ok(()) => "stream ended"@,
        Err(e) => trimmed_error(e),
    }
}

/// Decides what follows a session.
pub fn after_session(stopped: bool, ending: Ending, backoff: &mut Backoff) -> (next: AfterSession)
    ensures
        stopped ==> next is End && final(backoff).delay() == old(backoff).delay(),
        !stopped ==> {
            &&& next is Retry
            &&& next->status@ == StatusSpec::Reconnecting(reconnect_reason(ending_spec(ending)))
            &&& next->millis == old(backoff).delay()
            &&& final(backoff).delay() == doubled_delay(old(backoff).delay())
        },
{
    if stopped {
        return AfterSession::End;
    }
    let reason = match ending {
        Ok(()) => "stream ended".to_owned(),
        Err(e) => trim_error(e.as_str()),
    };
    AfterSession::Retry { status: Status::Reconnecting(reason), millis: backoff.next() }
}

/// A parsed URL.
#[verifier::external_type_specification]
#[verifier::external_body]
pub struct ExUrl(url::Url);

/// What `url::Url::parse` makes of a text: a URL, or an error in words.
pub uninterp spec fn parsed_url(text: Seq<char>) -> Result<url::Url, Seq<char>>;

/// `url::Url::parse`. Which texts are URLs is left to the name [`parsed_url`]; an error is
/// given by its `Display` text.
#[verifier::external_body]
fn parse_url(text: &str) -> (parsed: Result<url::Url, String>)
    ensures
        (match parsed {
            Ok(url) => Ok::<url::Url, Seq<char>>(url),
            Err(e) => Err::<url::Url, Seq<char>>(e@),
        }) == parsed_url(text@),
{
    match url::Url::parse(text) {
        Ok(url) => Ok(url),
        Err(e) => Err(e.to_string()),
    }
}

/// What it takes to open a session.
pub struct SessionPlan {
    pub url: url::Url,
    pub credentials: Option<(String, String)>,
    pub transport: Transport,
}

/// The plan for a connection whose URL was parsed to that.
pub open spec fn is_plan(
    plan: Result<SessionPlan, String>,
    connection: ConnectionSpec,
    parsed: Result<url::Url, Seq<char>>,
) -> bool {
    match parsed {
        Err(e) => plan matches Err(text) && text@ == e,
        Ok(url) => {
            &&& plan matches Ok(p)
            &&& p.url == url
            &&& p.transport == connection.transport
            &&& (match p.credentials {
                Some(pair) => Some((pair.0@, pair.1@)),
                None => None,
            }) == connection.credentials()
        },
    }
}

/// The plan for a connection, given what its URL was parsed to.
pub fn plan_for(connection: &Connection, parsed: Result<url::Url, String>) -> (plan: Result<
    SessionPlan,
    String,
>)
    ensures
        is_plan(
            plan,
            connection@,
            match parsed {
                Ok(url) => Ok::<url::Url, Seq<char>>(url),
                Err(e) => Err::<url::Url, Seq<char>>(e@),
            },
        ),
{
    match parsed {
        Ok(url) => Ok(
            SessionPlan {
                url,
                credentials: connection.credentials(),
                transport: connection.transport,
            },
        ),
        Err(e) => Err(e),
    }
}

/// Where to connect to, as whom, and over what.
pub fn plan_session(connection: &Connection) -> (plan: Result<SessionPlan, String>)
    ensures
        is_plan(plan, connection@, parsed_url(connection@.url)),
{
    plan_for(connection, parse_url(connection.url.as_str()))
}

/// What is reported of a camera that is off or firewalled.
pub fn connect_timeout(connection: &Connection) -> (text: String)
    ensures
        text@ == "timed out connecting to "@ + connection@.url,
{
    "timed out connecting to ".to_owned().concat(connection.url.as_str())
}

/// What a server says of one of its streams.
pub struct StreamInfo {
    pub media: String,
    pub encoding: String,
}

/// The contents of a [`StreamInfo`].
#[verifier::ext_equal]
pub struct StreamInfoSpec {
    pub media: Seq<char>,
    pub encoding: Seq<char>,
}

impl View for StreamInfo {
    type V = StreamInfoSpec;

    open spec fn view(&self) -> StreamInfoSpec {
        StreamInfoSpec { media: self.media@, encoding: self.encoding@ }
    }
}

/// The contents of a list of streams.
pub open spec fn stream_specs(streams: Seq<StreamInfo>) -> Seq<StreamInfoSpec> {
    streams.map_values(|stream: StreamInfo| stream@)
}

/// The first video stream of a session.
pub open spec fn first_video(streams: Seq<StreamInfoSpec>) -> Option<int>
    decreases streams.len(),
{
    if streams.len() == 0 {
        None
    } else if streams[0].media == "video"@ {
        Some(0)
    } else {
        match first_video(streams.drop_first()) {
            Some(i) => Some(i + 1),
            None => None,
        }
    }
}

/// The stream to play and the codec it needs, or why there is none.
pub open spec fn chosen_stream(streams: Seq<StreamInfoSpec>) -> Result<(int, Codec), Seq<char>> {
    match first_video(streams) {
        None => Err("no video stream in this URL"@),
        Some(i) => {
            let encoding = ascii_lowered(streams[i].encoding);
            match Codec::named(encoding) {
                Some(codec) => Ok((i, codec)),
                None => Err("unsupported video codec: "@ + encoding),
            }
        },
    }
}

/// Which stream to play.
pub struct Choice {
    pub stream: usize,
    pub codec: Codec,
}

/// Picks the first video stream of a session. Its codec is known by the encoding's name in
/// any case.
pub fn choose_stream(streams: &Vec<StreamInfo>) -> (choice: Result<Choice, String>)
    ensures
        (match choice {
            Ok(c) => Ok::<(int, Codec), Seq<char>>((c.stream as int, c.codec)),
            Err(e) => Err::<(int, Codec), Seq<char>>(e@),
        }) == chosen_stream(stream_specs(streams@)),
{
    let ghost all = stream_specs(streams@);
    let mut i: usize = 0;
    assert(all.skip(0) == all);
    while i < streams.len() && !same_text(streams[i].media.as_str(), "video")
        invariant
            all == stream_specs(streams@),
            i <= streams@.len(),
            first_video(all) == match first_video(all.skip(i as int)) {
                Some(k) => Some(k + i),
                None => None,
            },
        ensures
            i <= streams@.len(),
            first_video(all) == if i < streams@.len() {
                Some(i as int)
            } else {
                None
            },
        decreases streams@.len() - i,
    {
        assert(all.skip(i as int)[0] == streams@[i as int]@);
        assert(all.skip(i as int).drop_first() == all.skip(i + 1));
        i += 1;
    }
    if i == streams.len() {
        return Err("no video stream in this URL".to_owned());
    }
    let encoding = to_ascii_lowercase(streams[i].encoding.as_str());
    match Codec::for_encoding(encoding.as_str()) {
        Some(codec) => Ok(Choice { stream: i, codec }),
        None => Err("unsupported video codec: ".to_owned().concat(encoding.as_str())),
    }
}

/// The stream that is chosen is video, and none before it is.
pub proof fn law_first_video_wins(streams: Seq<StreamInfoSpec>)
    ensures
        match first_video(streams) {
            Some(i) => 0 <= i < streams.len() && streams[i].media == "video"@ && forall|j: int|
                0 <= j < i ==> (#[trigger] streams[j]).media != "video"@,
            None => forall|j: int|
                0 <= j < streams.len() ==> (#[trigger] streams[j]).media != "video"@,
        },
    decreases streams.len(),
{
    if streams.len() > 0 && streams[0].media != "video"@ {
        let rest = streams.drop_first();
        law_first_video_wins(rest);
        assert forall|j: int|
            0 < j < streams.len() && (first_video(rest) is None || j < first_video(rest)->0
                + 1) implies (#[trigger] streams[j]).media != "video"@ by {
            assert(rest[j - 1] == streams[j]);
        }
    }
}

} // verus!
