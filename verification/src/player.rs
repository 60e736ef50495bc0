//! One open stream, as its threads and the window share it.

use crate::connection::{optional_text, Connection, ConnectionSpec};
use crate::decode::{DecodeError, Decoded};
use crate::yuv::{Frame, FrameSpec};
use vstd::prelude::*;

verus! {

/// How many access units may decode without producing a picture before the stream is
/// declared broken.
pub const STARVATION_LIMIT: usize = 30;

/// What a stream is doing.
#[derive(Debug, PartialEq, Eq)]
pub enum Status {
    Connecting,
    Playing,
    Reconnecting(String),
    Failed(String),
}

/// The contents of a [`Status`].
#[verifier::ext_equal]
pub enum StatusSpec {
    Connecting,
    Playing,
    Reconnecting(Seq<char>),
    Failed(Seq<char>),
}

impl View for Status {
    type V = StatusSpec;

    open spec fn view(&self) -> StatusSpec {
        match self {
            Status::Connecting => StatusSpec::Connecting,
            Status::Playing => StatusSpec::Playing,
            Status::Reconnecting(reason) => StatusSpec::Reconnecting(reason@),
            Status::Failed(reason) => StatusSpec::Failed(reason@),
        }
    }
}

impl StatusSpec {
    /// What to show for it: the reason where there is one.
    pub open spec fn message(self) -> Seq<char> {
        match self {
            StatusSpec::Connecting => "Connecting\u{2026}"@,
            StatusSpec::Playing => "Playing"@,
            StatusSpec::Reconnecting(reason) => reason,
            StatusSpec::Failed(reason) => reason,
        }
    }
}

impl Clone for Status {
    fn clone(&self) -> (copy: Status)
        ensures
            copy == *self,
    {
        match self {
            Status::Connecting => Status::Connecting,
            Status::Playing => Status::Playing,
            Status::Reconnecting(reason) => Status::Reconnecting(reason.clone()),
            Status::Failed(reason) => Status::Failed(reason.clone()),
        }
    }
}

/// The colour that a status is shown in.
#[derive(Debug, Clone, Copy, PartialEq, Eq, Structural)]
pub enum Tone {
    Success,
    Muted,
    Warning,
    Danger,
}

impl StatusSpec {
    pub open spec fn tone(self) -> Tone {
        match self {
            StatusSpec::Playing => Tone::Success,
            StatusSpec::Connecting => Tone::Muted,
            StatusSpec::Reconnecting(_) => Tone::Warning,
            StatusSpec::Failed(_) => Tone::Danger,
        }
    }
}

impl Status {
    /// The colour to show it in.
    pub fn tone(&self) -> (tone: Tone)
        ensures
            tone == self@.tone(),
    {
        match self {
            Status::Playing => Tone::Success,
            Status::Connecting => Tone::Muted,
            Status::Reconnecting(_) => Tone::Warning,
            Status::Failed(_) => Tone::Danger,
        }
    }

    pub fn message(&self) -> (text: &str)
        ensures
            text@ == self@.message(),
    {
        match self {
            Status::Connecting => "Connecting\u{2026}",
            Status::Playing => "Playing",
            Status::Reconnecting(reason) => reason.as_str(),
            Status::Failed(reason) => reason.as_str(),
        }
    }
}

/// A running stream.
pub struct Player {
    pub connection: Connection,
    /// Single-slot mailbox. The decoder overwrites it; the window takes it. A slow window
    /// therefore skips frames instead of falling behind.
    pub latest: Option<Frame>,
    pub status: Status,
    pub stopped: bool,
    pub decoded_frames: u64,
}

/// The contents of a [`Player`].
#[verifier::ext_equal]
pub struct PlayerSpec {
    pub connection: ConnectionSpec,
    pub latest: Option<FrameSpec>,
    pub status: StatusSpec,
    pub stopped: bool,
    pub decoded_frames: u64,
}

/// The contents of an optional frame.
pub open spec fn optional_frame(frame: Option<Frame>) -> Option<FrameSpec> {
    match frame {
        Some(f) => Some(f@),
        None => None,
    }
}

impl View for Player {
    type V = PlayerSpec;

    open spec fn view(&self) -> PlayerSpec {
        PlayerSpec {
            connection: self.connection@,
            latest: optional_frame(self.latest),
            status: self.status@,
            stopped: self.stopped,
            decoded_frames: self.decoded_frames,
        }
    }
}

impl PlayerSpec {
    /// A stream that has just been opened.
    pub open spec fn started(connection: ConnectionSpec) -> PlayerSpec {
        PlayerSpec {
            connection,
            latest: None,
            status: StatusSpec::Connecting,
            stopped: false,
            decoded_frames: 0,
        }
    }

    /// With another frame in the mailbox. The count starts over after the largest number.
    pub open spec fn published(self, frame: FrameSpec) -> PlayerSpec {
        PlayerSpec {
            latest: Some(frame),
            decoded_frames: if self.decoded_frames == u64::MAX {
                0
            } else {
                (self.decoded_frames + 1) as u64
            },
            ..self
        }
    }
}

impl Player {
    /// Opens a stream: connecting, with nothing decoded yet.
    pub fn start(connection: Connection) -> (player: Player)
        ensures
            player@ == PlayerSpec::started(connection@),
    {
        Player {
            connection,
            latest: None,
            status: Status::Connecting,
            stopped: false,
            decoded_frames: 0,
        }
    }

    /// Takes the newest decoded frame, if one has arrived since the last call.
    pub fn take_frame(&mut self) -> (frame: Option<Frame>)
        ensures
            optional_frame(frame) == old(self)@.latest,
            final(self)@ == (PlayerSpec { latest: None, ..old(self)@ }),
    {
        self.latest.take()
    }

    pub fn status(&self) -> (status: Status)
        ensures
            status@ == self@.status,
    {
        self.status.clone()
    }

    /// Total pictures the decoder has produced, including ones the window skipped.
    pub fn decoded_count(&self) -> (count: u64)
        ensures
            count == self@.decoded_frames,
    {
        self.decoded_frames
    }

    /// Puts a frame into the mailbox and counts it.
    pub fn publish(&mut self, frame: Frame)
        ensures
            final(self)@ == old(self)@.published(frame@),
    {
        self.latest = Some(frame);
        self.decoded_frames = self.decoded_frames.wrapping_add(1);
    }

    /// Tells the threads of the stream to end.
    pub fn stop(&mut self)
        ensures
            final(self)@ == (PlayerSpec { stopped: true, ..old(self)@ }),
    {
        self.stopped = true;
    }
}

/// Replaces the status of a stream.
pub fn set_status(player: &mut Player, status: Status)
    ensures
        final(player)@ == (PlayerSpec { status: status@, ..old(player)@ }),
{
    player.status = status;
}

/// What decoding an access unit came to: a frame, none, or an error in words.
pub type Outcome = Result<Option<Frame>, String>;

/// The contents of an [`Outcome`].
pub type OutcomeSpec = Result<Option<FrameSpec>, Seq<char>>;

pub open spec fn outcome_spec(outcome: Outcome) -> OutcomeSpec {
    match outcome {
        Ok(frame) => Ok(optional_frame(frame)),
        Err(e) => Err(e@),
    }
}

/// Watches whether a decoder produces pictures. A decoder that never yields one is a dead
/// stream as far as the user is concerned, so the status says why rather than sitting on
/// "Connecting" forever.
pub struct Watch {
    pub playing: bool,
    pub starved: usize,
    pub last_error: Option<String>,
}

/// The contents of a [`Watch`].
#[verifier::ext_equal]
pub struct WatchSpec {
    pub playing: bool,
    pub starved: int,
    pub last_error: Option<Seq<char>>,
}

impl View for Watch {
    type V = WatchSpec;

    open spec fn view(&self) -> WatchSpec {
        WatchSpec {
            playing: self.playing,
            starved: self.starved as int,
            last_error: optional_text(self.last_error),
        }
    }
}

impl WatchSpec {
    /// Before the first access unit.
    pub open spec fn fresh() -> WatchSpec {
        WatchSpec { playing: false, starved: 0, last_error: None }
    }

    /// Why the stream is given up.
    pub open spec fn reason(self) -> Seq<char> {
        match self.last_error {
            Some(e) => e,
            None => "decoder produced no pictures"@,
        }
    }

    /// After another access unit.
    pub open spec fn after(self, outcome: OutcomeSpec) -> WatchSpec {
        match outcome {
            Ok(Some(_)) => WatchSpec { playing: true, starved: 0, ..self },
            Ok(None) => WatchSpec { starved: self.starved + 1, ..self },
            Err(e) => WatchSpec { starved: self.starved + 1, last_error: Some(e), ..self },
        }
    }
}

/// A player after another access unit, by what its watch held before.
pub open spec fn player_after(
    watch: WatchSpec,
    player: PlayerSpec,
    outcome: OutcomeSpec,
) -> PlayerSpec {
    match outcome {
        Ok(Some(frame)) => if watch.playing {
            player.published(frame)
        } else {
            PlayerSpec { status: StatusSpec::Playing, ..player.published(frame) }
        },
        _ => if !watch.playing && watch.starved + 1 == STARVATION_LIMIT {
            PlayerSpec { status: StatusSpec::Failed(watch.after(outcome).reason()), ..player }
        } else {
            player
        },
    }
}

impl Watch {
    /// A watch on a decoder that has been fed nothing.
    pub fn new() -> (watch: Watch)
        ensures
            watch@ == WatchSpec::fresh(),
    {
        Watch { playing: false, starved: 0, last_error: None }
    }

    /// Takes in what an access unit came to and tells the player.
    pub fn observe(&mut self, player: &mut Player, outcome: Outcome)
        requires
            is_picture(outcome_spec(outcome)) || old(self).starved < usize::MAX,
        ensures
            final(self)@ == old(self)@.after(outcome_spec(outcome)),
            final(player)@ == player_after(old(self)@, old(player)@, outcome_spec(outcome)),
    {
        match outcome {
            Ok(Some(frame)) => {
                self.starved = 0;
                player.publish(frame);
                if !self.playing {
                    set_status(player, Status::Playing);
                    self.playing = true;
                }
                return;
            },
            Ok(None) => {},
            Err(e) => {
                self.last_error = Some(e);
            },
        }
        self.starved += 1;
        if !self.playing && self.starved == STARVATION_LIMIT {
            let reason = match &self.last_error {
                Some(e) => e.clone(),
                None => "decoder produced no pictures".to_owned(),
            };
            set_status(player, Status::Failed(reason));
        }
    }
}

/// What decoding an access unit tells the watch: the frame, or the decoder's own words where it
/// refused the unit. Nothing where the decoder died or its picture cannot be drawn.
pub open spec fn told(decoded: Decoded) -> Option<OutcomeSpec> {
    match decoded {
        Ok(frame) => Some(Ok(optional_frame(frame))),
        Err(DecodeError::Refused(e)) => Some(Err(e@)),
        Err(DecodeError::Unrenderable) => None,
        Err(DecodeError::Died) => None,
    }
}

impl Watch {
    /// Takes in a decoded access unit and tells the player. Says whether to go on with the
    /// decoder; where not, the session ends and the stream reconnects.
    pub fn take_in(&mut self, player: &mut Player, decoded: Decoded) -> (goes_on: bool)
        requires
            told(decoded) matches Some(outcome) ==> is_picture(outcome) || old(self).starved
                < usize::MAX,
        ensures
            match told(decoded) {
                Some(outcome) => {
                    &&& goes_on
                    &&& final(self)@ == old(self)@.after(outcome)
                    &&& final(player)@ == player_after(old(self)@, old(player)@, outcome)
                },
                None => {
                    &&& !goes_on
                    &&& final(self)@ == old(self)@
                    &&& final(player)@ == old(player)@
                },
            },
    {
        let outcome = match decoded {
            Ok(frame) => Ok(frame),
            Err(DecodeError::Refused(e)) => Err(e),
            Err(DecodeError::Unrenderable) => return false,
            Err(DecodeError::Died) => return false,
        };
        self.observe(player, outcome);
        true
    }
}

/// A watch and its player after a run of access units.
pub open spec fn watch_run(
    watch: WatchSpec,
    player: PlayerSpec,
    outcomes: Seq<OutcomeSpec>,
) -> (WatchSpec, PlayerSpec)
    decreases outcomes.len(),
{
    if outcomes.len() == 0 {
        (watch, player)
    } else {
        let (w, p) = watch_run(watch, player, outcomes.drop_last());
        (w.after(outcomes.last()), player_after(w, p, outcomes.last()))
    }
}

/// Whether an access unit gave a picture.
pub open spec fn is_picture(outcome: OutcomeSpec) -> bool {
    outcome matches Ok(Some(_))
}

/// How many access units gave a picture.
pub open spec fn pictures(outcomes: Seq<OutcomeSpec>) -> nat {
    outcomes.filter(|o: OutcomeSpec| is_picture(o)).len()
}

/// The last error among access units.
pub open spec fn last_error(outcomes: Seq<OutcomeSpec>) -> Option<Seq<char>>
    decreases outcomes.len(),
{
    if outcomes.len() == 0 {
        None
    } else {
        match outcomes.last() {
            Err(e) => Some(e),
            _ => last_error(outcomes.drop_last()),
        }
    }
}

/// A stream plays once there has been a picture. It is given up exactly if the first thirty
/// access units bring none, for the last error among them or for want of pictures. Until
/// either happens its status stays as it was.
pub proof fn law_status_follows_pictures(player: PlayerSpec, outcomes: Seq<OutcomeSpec>)
    ensures
        ({
            let (_, after) = watch_run(WatchSpec::fresh(), player, outcomes);
            if pictures(outcomes) > 0 {
                after.status == StatusSpec::Playing
            } else if outcomes.len() >= STARVATION_LIMIT {
                after.status == StatusSpec::Failed(
                    match last_error(outcomes.take(STARVATION_LIMIT as int)) {
                        Some(e) => e,
                        None => "decoder produced no pictures"@,
                    },
                )
            } else {
                after.status == player.status
            }
        }),
{
    lemma_watch_run(player, outcomes);
}

/// What a watch has taken in after a run.
proof fn lemma_watch_run(player: PlayerSpec, outcomes: Seq<OutcomeSpec>)
    ensures
        ({
            let (w, p) = watch_run(WatchSpec::fresh(), player, outcomes);
            &&& w.playing == (pictures(outcomes) > 0)
            &&& !w.playing ==> w.starved == outcomes.len()
            &&& w.last_error == last_error(outcomes)
            &&& p.status == (if pictures(outcomes) > 0 {
                StatusSpec::Playing
            } else if outcomes.len() >= STARVATION_LIMIT {
                StatusSpec::Failed(
                    match last_error(outcomes.take(STARVATION_LIMIT as int)) {
                        Some(e) => e,
                        None => "decoder produced no pictures"@,
                    },
                )
            } else {
                player.status
            })
        }),
    decreases outcomes.len(),
{
    reveal(Seq::filter);
    if outcomes.len() > 0 {
        let before = outcomes.drop_last();
        lemma_watch_run(player, before);
        if outcomes.len() == STARVATION_LIMIT {
            assert(outcomes.take(STARVATION_LIMIT as int) == outcomes);
        } else if outcomes.len() > STARVATION_LIMIT {
            assert(outcomes.take(STARVATION_LIMIT as int) == before.take(STARVATION_LIMIT as int));
        }
    }
}

/// Every picture is counted, and the mailbox holds the newest.
pub proof fn law_mailbox_holds_newest(player: PlayerSpec, outcomes: Seq<OutcomeSpec>)
    requires
        player.decoded_frames + pictures(outcomes) <= u64::MAX,
    ensures
        ({
            let (_, after) = watch_run(WatchSpec::fresh(), player, outcomes);
            &&& after.decoded_frames == player.decoded_frames + pictures(outcomes)
            &&& after.connection == player.connection
            &&& after.stopped == player.stopped
            &&& pictures(outcomes) == 0 ==> after.latest == player.latest
            &&& forall|i: int|
                #![trigger outcomes[i]]
                0 <= i < outcomes.len() && is_picture(outcomes[i]) && (forall|j: int|
                    i < j < outcomes.len() ==> !is_picture(#[trigger] outcomes[j]))
                    ==> after.latest == outcomes[i]->Ok_0
        }),
    decreases outcomes.len(),
{
    reveal(Seq::filter);
    if outcomes.len() > 0 {
        let before = outcomes.drop_last();
        law_mailbox_holds_newest(player, before);
        let (_, mid) = watch_run(WatchSpec::fresh(), player, before);
        let (_, after) = watch_run(WatchSpec::fresh(), player, outcomes);
        assert forall|i: int|
            #![trigger outcomes[i]]
            0 <= i < outcomes.len() && is_picture(outcomes[i]) && (forall|j: int|
                i < j < outcomes.len() ==> !is_picture(#[trigger] outcomes[j])) implies after.latest
            == outcomes[i]->Ok_0 by {
            if i < before.len() {
                assert(!is_picture(outcomes[outcomes.len() - 1]));
                assert(before[i] == outcomes[i]);
                assert forall|j: int| i < j < before.len() implies !is_picture(
                    #[trigger] before[j],
                ) by {
                    assert(before[j] == outcomes[j]);
                }
            }
        }
    }
}

/// The first picture makes a stream play, and it is given up at the thirtieth access unit
/// without one: for what the decoder said last, or for want of pictures where it said nothing. A
/// stream that has played is not given up.
pub proof fn law_thirty_units_without_a_picture(
    player: PlayerSpec,
    outcomes: Seq<OutcomeSpec>,
    k: int,
)
    requires
        0 <= k <= outcomes.len(),
        forall|i: int| 0 <= i < k ==> !is_picture(#[trigger] outcomes[i]),
    ensures
        STARVATION_LIMIT == 30,
        ({
            let (_, after) = watch_run(WatchSpec::fresh(), player, outcomes.take(k));
            &&& k < 30 ==> after.status == player.status
            &&& k == 30 && outcomes[29] is Err ==> after.status == StatusSpec::Failed(
                outcomes[29]->Err_0,
            )
            &&& k >= 30 && (forall|i: int| 0 <= i < 30 ==> #[trigger] outcomes[i] is Ok)
                ==> after.status == StatusSpec::Failed("decoder produced no pictures"@)
            &&& after.latest == player.latest
            &&& after.decoded_frames == player.decoded_frames
        }),
        k < outcomes.len() && is_picture(outcomes[k]) ==> {
            let (_, after) = watch_run(WatchSpec::fresh(), player, outcomes.take(k + 1));
            &&& after.status == StatusSpec::Playing
            &&& after.latest == outcomes[k]->Ok_0
        },
{
    let run = outcomes.take(k);
    lemma_no_pictures(run);
    law_status_follows_pictures(player, run);
    if k >= 30 {
        let head = run.take(30);
        if k == 30 {
            assert(head =~= run);
            assert(run.last() == outcomes[29]);
        }
        if forall|i: int| 0 <= i < 30 ==> #[trigger] outcomes[i] is Ok {
            assert forall|i: int| 0 <= i < head.len() implies #[trigger] head[i] is Ok by {
                assert(head[i] == outcomes[i]);
            }
            lemma_no_errors(head);
        }
    }
    lemma_quiet_run(player, run);
    if k < outcomes.len() && is_picture(outcomes[k]) {
        let more = outcomes.take(k + 1);
        assert(more.drop_last() =~= run);
        assert(more.last() == outcomes[k]);
        lemma_watch_run(player, run);
    }
}

proof fn lemma_no_pictures(outcomes: Seq<OutcomeSpec>)
    requires
        forall|i: int| 0 <= i < outcomes.len() ==> !is_picture(#[trigger] outcomes[i]),
    ensures
        pictures(outcomes) == 0,
    decreases outcomes.len(),
{
    reveal(Seq::filter);
    if outcomes.len() > 0 {
        let before = outcomes.drop_last();
        assert(!is_picture(outcomes[outcomes.len() - 1]));
        assert forall|i: int| 0 <= i < before.len() implies !is_picture(#[trigger] before[i]) by {
            assert(before[i] == outcomes[i]);
        }
        lemma_no_pictures(before);
    }
}

proof fn lemma_no_errors(outcomes: Seq<OutcomeSpec>)
    requires
        forall|i: int| 0 <= i < outcomes.len() ==> #[trigger] outcomes[i] is Ok,
    ensures
        last_error(outcomes) is None,
    decreases outcomes.len(),
{
    if outcomes.len() > 0 {
        let before = outcomes.drop_last();
        assert(outcomes[outcomes.len() - 1] is Ok);
        assert forall|i: int| 0 <= i < before.len() implies #[trigger] before[i] is Ok by {
            assert(before[i] == outcomes[i]);
        }
        lemma_no_errors(before);
    }
}

/// Without a picture the mailbox and the count stay as they are.
proof fn lemma_quiet_run(player: PlayerSpec, outcomes: Seq<OutcomeSpec>)
    requires
        forall|i: int| 0 <= i < outcomes.len() ==> !is_picture(#[trigger] outcomes[i]),
    ensures
        watch_run(WatchSpec::fresh(), player, outcomes).1.latest == player.latest,
        watch_run(WatchSpec::fresh(), player, outcomes).1.decoded_frames == player.decoded_frames,
    decreases outcomes.len(),
{
    if outcomes.len() > 0 {
        let before = outcomes.drop_last();
        assert(!is_picture(outcomes[outcomes.len() - 1]));
        assert forall|i: int| 0 <= i < before.len() implies !is_picture(#[trigger] before[i]) by {
            assert(before[i] == outcomes[i]);
        }
        lemma_quiet_run(player, before);
    }
}

/// What the watch is told of an access unit is what decoding it came to: the frame that was
/// drawn, that there is none, or the decoder's own words. Where the decoder died, or its picture
/// cannot be drawn, decoding ends.
pub proof fn law_watch_is_told_the_outcome(decoded: Decoded)
    ensures
        decoded matches Ok(Some(frame)) ==> told(decoded) == Some(
            Ok::<Option<FrameSpec>, Seq<char>>(Some(frame@)),
        ),
        decoded matches Ok(None) ==> told(decoded) == Some(
            Ok::<Option<FrameSpec>, Seq<char>>(None),
        ),
        decoded matches Err(DecodeError::Refused(reason)) ==> told(decoded) == Some(
            Err::<Option<FrameSpec>, Seq<char>>(reason@),
        ),
        (decoded matches Err(e) && !(e is Refused)) ==> told(decoded) is None,
{
}

} // verus!
