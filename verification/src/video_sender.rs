//! The Annex B stream sender: takes a stream as it comes and gives out its frames, once
//! they are complete, for encoding and sending.
//!
//! A run gives out one frame after another. For each, the caller has the chunks judged and
//! the records encoded by the media wire layer (see `VideoWireJob`) and hands the replies
//! back with `frame_encoded`, until the run is done and its payloads can be sent.

use vstd::prelude::*;

use crate::annexb;
use crate::annexb::{video_annex_b_access_units, AccessUnit, VideoAccessUnit};
use crate::codec;
use crate::codec::{normalized_video_codec, VideoCodec, VideoFamily};
use crate::error::{MediaError, MediaFault, Refusal};
use crate::records;
use crate::video;
use crate::video::{
    packetize_video_access_unit, FrameOptions, StreamOptions, VideoFramePacketizeOptions,
};
use crate::wire;
use crate::wire::{
    frame_record_count, send_payloads, MuninnMediaSendPayload, SendPayload, VideoWireJob, WireJob,
};

verus! {

/// How an Annex B stream is sent.
#[derive(Debug, PartialEq, Eq)]
pub struct VideoAnnexBStreamSendConfig {
    pub stream_id: String,
    pub session_id: String,
    pub codec: String,
    pub first_frame_id: u64,
    pub first_pts_ticks: i64,
    pub frame_duration_ticks: u32,
    pub timebase_num: u32,
    pub timebase_den: u32,
    pub deadline_delay_ticks: i64,
    pub max_payload_bytes: usize,
    pub max_pending_bytes: usize,
    pub source_runtime_id: String,
    pub source_role: String,
}

/// What a `VideoAnnexBStreamSendConfig` says.
#[verifier::ext_equal]
pub struct VideoSendConfig {
    pub stream_id: Seq<char>,
    pub session_id: Seq<char>,
    pub codec: Seq<char>,
    pub first_frame_id: u64,
    pub first_pts_ticks: i64,
    pub frame_duration_ticks: u32,
    pub timebase_num: u32,
    pub timebase_den: u32,
    pub deadline_delay_ticks: i64,
    pub max_payload_bytes: usize,
    pub max_pending_bytes: usize,
    pub source_runtime_id: Seq<char>,
    pub source_role: Seq<char>,
}

impl View for VideoAnnexBStreamSendConfig {
    type V = VideoSendConfig;

    open spec fn view(&self) -> VideoSendConfig {
        VideoSendConfig {
            stream_id: self.stream_id@,
            session_id: self.session_id@,
            codec: self.codec@,
            first_frame_id: self.first_frame_id,
            first_pts_ticks: self.first_pts_ticks,
            frame_duration_ticks: self.frame_duration_ticks,
            timebase_num: self.timebase_num,
            timebase_den: self.timebase_den,
            deadline_delay_ticks: self.deadline_delay_ticks,
            max_payload_bytes: self.max_payload_bytes,
            max_pending_bytes: self.max_pending_bytes,
            source_runtime_id: self.source_runtime_id@,
            source_role: self.source_role@,
        }
    }
}

/// The first rule that a config breaks.
pub open spec fn config_refusal(config: VideoSendConfig) -> Option<Refusal> {
    let named = codec::named_codec(config.codec);
    if named != Some(VideoCodec::H264) && named != Some(VideoCodec::H265) {
        Some(Refusal::SenderCodec)
    } else if config.stream_id.len() == 0 {
        Some(Refusal::StreamIdEmpty)
    } else if config.session_id.len() == 0 {
        Some(Refusal::SessionIdEmpty)
    } else if config.frame_duration_ticks == 0 {
        Some(Refusal::FrameDurationZero)
    } else if config.timebase_num == 0 || config.timebase_den == 0 {
        Some(Refusal::VideoTimebaseZero)
    } else if config.deadline_delay_ticks < 0 {
        Some(Refusal::DeadlineDelayNegative)
    } else if config.max_payload_bytes == 0 {
        Some(Refusal::MaxPayloadZero)
    } else if config.max_pending_bytes == 0 {
        Some(Refusal::MaxPendingZero)
    } else if config.source_runtime_id.len() == 0 {
        Some(Refusal::SourceRuntimeIdEmpty)
    } else if config.source_role.len() == 0 {
        Some(Refusal::SourceRoleEmpty)
    } else {
        None
    }
}

/// A run: the access units that it gives out, how many of them are encoded, as how many
/// records the frame that is with the encoder goes onto the wire, and what the access units
/// were encoded to.
#[verifier::ext_equal]
pub struct VideoRun {
    pub units: Seq<AccessUnit>,
    pub encoded: nat,
    pub awaited: usize,
    pub payloads: Seq<SendPayload>,
    pub stored_at: Seq<char>,
}

/// What a `VideoAnnexBStreamSendState` holds.
#[verifier::ext_equal]
pub struct VideoSender {
    pub config: VideoSendConfig,
    pub pending: Seq<u8>,
    pub next_frame_id: u64,
    pub next_pts_ticks: i64,
    pub run: Option<VideoRun>,
}

/// What the caller does next: have a frame encoded, or send the payloads of a finished run.
#[derive(Debug, PartialEq, Eq)]
pub enum VideoSendStep {
    Frame(VideoWireJob),
    Done(Vec<MuninnMediaSendPayload>),
}

/// What a `VideoSendStep` holds.
#[verifier::ext_equal]
pub enum VideoStep {
    Frame(WireJob),
    Done(Seq<SendPayload>),
}

impl View for VideoSendStep {
    type V = VideoStep;

    open spec fn view(&self) -> VideoStep {
        match self {
            VideoSendStep::Frame(job) => VideoStep::Frame(job@),
            VideoSendStep::Done(payloads) => VideoStep::Done(wire::payload_views(payloads@)),
        }
    }
}

/// Whether a sender is in order: its config breaks no rule, and a run takes its access
/// units out of the pending bytes.
pub open spec fn in_order(sender: VideoSender) -> bool {
    &&& config_refusal(sender.config) is None
    &&& sender.run matches Some(run) ==> {
        &&& run.encoded <= run.units.len()
        &&& annexb::joined(run.units, run.units.len()).len() <= sender.pending.len()
    }
}

/// A sender without its run.
pub open spec fn idle(sender: VideoSender) -> VideoSender {
    VideoSender { run: None, ..sender }
}

/// How the next frame is packetized.
pub open spec fn next_frame(sender: VideoSender) -> Result<FrameOptions, Refusal> {
    let config = sender.config;
    let deadline = sender.next_pts_ticks + config.deadline_delay_ticks;
    if deadline > i64::MAX {
        Err(Refusal::VideoDeadlineOverflow)
    } else {
        Ok(
            FrameOptions {
                stream_id: config.stream_id,
                session_id: config.session_id,
                codec: config.codec,
                frame_id: sender.next_frame_id,
                pts_ticks: sender.next_pts_ticks,
                duration_ticks: config.frame_duration_ticks,
                timebase_num: config.timebase_num,
                timebase_den: config.timebase_den,
                deadline_ticks: deadline as i64,
                max_payload_bytes: config.max_payload_bytes,
            },
        )
    }
}

/// The next step of a run: the next frame, or, behind the last one, the payloads. The
/// bytes of the access units leave the pending bytes with the last step.
pub open spec fn step(sender: VideoSender) -> (Result<VideoStep, MediaFault>, VideoSender) {
    let run = sender.run->0;
    if run.encoded >= run.units.len() {
        (
            Ok(VideoStep::Done(run.payloads)),
            VideoSender {
                pending: sender.pending.skip(
                    annexb::joined(run.units, run.units.len()).len() as int,
                ),
                run: None,
                ..sender
            },
        )
    } else {
        match next_frame(sender) {
            Err(refusal) => (Err(MediaFault::Refused(refusal)), idle(sender)),
            Ok(frame) => match video::packetize_frame(frame, run.units[run.encoded as int]) {
                Err(fault) => (Err(fault), idle(sender)),
                Ok(chunks) => (
                    Ok(
                        VideoStep::Frame(
                            WireJob {
                                chunks,
                                stored_at: run.stored_at,
                                source_runtime_id: sender.config.source_runtime_id,
                                source_role: sender.config.source_role,
                            },
                        ),
                    ),
                    VideoSender {
                        run: Some(
                            VideoRun {
                                awaited: wire::frame_records(chunks.len()) as usize,
                                ..run
                            },
                        ),
                        ..sender
                    },
                ),
            },
        }
    }
}

/// The access units that are complete: all of them at the end of the stream, before that
/// all but the last.
pub open spec fn complete_units(units: Seq<AccessUnit>, flush_last: bool) -> Seq<AccessUnit> {
    if flush_last || units.len() == 0 {
        units
    } else {
        units.drop_last()
    }
}

/// Begins a run with the access units that are complete. Pending bytes without a start
/// code or a NAL unit are left to wait for more.
pub open spec fn begin(sender: VideoSender, stored_at: Seq<char>, flush_last: bool) -> (
    Result<VideoStep, MediaFault>,
    VideoSender,
) {
    if stored_at.len() == 0 {
        (Err(MediaFault::Refused(Refusal::StoredAtEmpty)), idle(sender))
    } else if sender.pending.len() == 0 {
        (Ok(VideoStep::Done(Seq::empty())), idle(sender))
    } else {
        match annexb::split_named(sender.config.codec, sender.pending) {
            Err(MediaFault::Refused(Refusal::NoStartCodes(_))) => (
                Ok(VideoStep::Done(Seq::empty())),
                idle(sender),
            ),
            Err(MediaFault::Refused(Refusal::NoNalPayloads(_))) => (
                Ok(VideoStep::Done(Seq::empty())),
                idle(sender),
            ),
            Err(fault) => (Err(fault), idle(sender)),
            Ok(units) => if complete_units(units, flush_last).len() == 0 {
                (Ok(VideoStep::Done(Seq::empty())), idle(sender))
            } else {
                step(
                    VideoSender {
                        run: Some(
                            VideoRun {
                                units: complete_units(units, flush_last),
                                encoded: 0,
                                awaited: 0,
                                payloads: Seq::empty(),
                                stored_at,
                            },
                        ),
                        ..sender
                    },
                )
            },
        }
    }
}

/// Takes in bytes and begins a run.
pub open spec fn pushed(sender: VideoSender, stored_at: Seq<char>, bytes: Seq<u8>) -> (
    Result<VideoStep, MediaFault>,
    VideoSender,
) {
    let filled = VideoSender { pending: sender.pending + bytes, run: None, ..sender };
    if filled.pending.len() > sender.config.max_pending_bytes {
        (
            Err(
                MediaFault::Refused(
                    Refusal::VideoPendingExceeded(sender.config.max_pending_bytes),
                ),
            ),
            filled,
        )
    } else {
        begin(filled, stored_at, false)
    }
}

/// Moves the clock on by one frame.
pub open spec fn clock_advanced(sender: VideoSender) -> (Result<(), Refusal>, VideoSender) {
    let duration = sender.config.frame_duration_ticks;
    if sender.next_frame_id == u64::MAX {
        (Err(Refusal::VideoFrameIdOverflow), sender)
    } else {
        let counted = VideoSender {
            next_frame_id: (sender.next_frame_id + 1) as u64,
            ..sender
        };
        if sender.next_pts_ticks + duration > i64::MAX {
            (Err(Refusal::VideoPtsOverflow), counted)
        } else {
            (
                Ok(()),
                VideoSender { next_pts_ticks: (sender.next_pts_ticks + duration) as i64, ..counted },
            )
        }
    }
}

/// Takes in what the records of a frame were encoded to and goes on with the run.
pub open spec fn encoded(
    sender: VideoSender,
    channel: Seq<char>,
    replies: Seq<Result<Vec<u8>, String>>,
) -> (Result<VideoStep, MediaFault>, VideoSender) {
    let run = sender.run->0;
    match wire::sent(channel, run.awaited, replies) {
        Err(fault) => (Err(fault), idle(sender)),
        Ok(payloads) => {
            let (ticked, advanced) = clock_advanced(sender);
            match ticked {
                Err(refusal) => (Err(MediaFault::Refused(refusal)), idle(advanced)),
                Ok(_) => step(
                    VideoSender {
                        run: Some(
                            VideoRun {
                                encoded: run.encoded + 1,
                                payloads: run.payloads + payloads,
                                ..run
                            },
                        ),
                        ..advanced
                    },
                ),
            }
        },
    }
}

struct VideoRunState {
    units: Vec<VideoAccessUnit>,
    encoded: usize,
    awaited: usize,
    payloads: Vec<MuninnMediaSendPayload>,
    stored_at: String,
}

impl VideoRunState {
    spec fn model(self) -> VideoRun {
        VideoRun {
            units: annexb::unit_views(self.units@),
            encoded: self.encoded as nat,
            awaited: self.awaited,
            payloads: wire::payload_views(self.payloads@),
            stored_at: self.stored_at@,
        }
    }
}

/// The sender of an Annex B stream.
pub struct VideoAnnexBStreamSendState {
    config: VideoAnnexBStreamSendConfig,
    pending: Vec<u8>,
    next_frame_id: u64,
    next_pts_ticks: i64,
    run: Option<VideoRunState>,
}

impl View for VideoAnnexBStreamSendState {
    type V = VideoSender;

    closed spec fn view(&self) -> VideoSender {
        VideoSender {
            config: self.config@,
            pending: self.pending@,
            next_frame_id: self.next_frame_id,
            next_pts_ticks: self.next_pts_ticks,
            run: match self.run {
                Some(run) => Some(run.model()),
                None => None,
            },
        }
    }
}

fn config_rule_broken(config: &VideoAnnexBStreamSendConfig) -> (broken: Option<Refusal>)
    ensures
        broken == config_refusal(config@),
{
    match normalized_video_codec(config.codec.as_str()) {
        None => {
            return Some(Refusal::SenderCodec);
        },
        Some(VideoCodec::Av1) => {
            return Some(Refusal::SenderCodec);
        },
        _ => {},
    }
    if config.stream_id.as_str().is_empty() {
        return Some(Refusal::StreamIdEmpty);
    }
    if config.session_id.as_str().is_empty() {
        return Some(Refusal::SessionIdEmpty);
    }
    if config.frame_duration_ticks == 0 {
        return Some(Refusal::FrameDurationZero);
    }
    if config.timebase_num == 0 || config.timebase_den == 0 {
        return Some(Refusal::VideoTimebaseZero);
    }
    if config.deadline_delay_ticks < 0 {
        return Some(Refusal::DeadlineDelayNegative);
    }
    if config.max_payload_bytes == 0 {
        return Some(Refusal::MaxPayloadZero);
    }
    if config.max_pending_bytes == 0 {
        return Some(Refusal::MaxPendingZero);
    }
    if config.source_runtime_id.as_str().is_empty() {
        return Some(Refusal::SourceRuntimeIdEmpty);
    }
    if config.source_role.as_str().is_empty() {
        return Some(Refusal::SourceRoleEmpty);
    }
    None
}

impl VideoAnnexBStreamSendState {
    /// A sender with nothing pending, at the first frame id and time of `config`.
    pub fn new(config: VideoAnnexBStreamSendConfig) -> (outcome: Result<Self, MediaError>)
        ensures
            match outcome {
                Ok(sender) => {
                    &&& config_refusal(config@) is None
                    &&& in_order(sender@)
                    &&& sender@ == (VideoSender {
                        config: config@,
                        pending: Seq::empty(),
                        next_frame_id: config.first_frame_id,
                        next_pts_ticks: config.first_pts_ticks,
                        run: None,
                    })
                },
                Err(error) => config_refusal(config@) is Some && error@ == MediaFault::Refused(
                    config_refusal(config@)->0,
                ),
            },
            outcome is Ok <==> {
                &&& codec::named_codec(config.codec@) == Some(VideoCodec::H264) || codec::named_codec(
                    config.codec@,
                ) == Some(VideoCodec::H265)
                &&& config.stream_id@.len() > 0
                &&& config.session_id@.len() > 0
                &&& config.frame_duration_ticks > 0
                &&& config.timebase_num > 0
                &&& config.timebase_den > 0
                &&& config.deadline_delay_ticks >= 0
                &&& config.max_payload_bytes > 0
                &&& config.max_pending_bytes > 0
                &&& config.source_runtime_id@.len() > 0
                &&& config.source_role@.len() > 0
            },
    {
        if let Some(refusal) = config_rule_broken(&config) {
            return Err(MediaError::Refused(refusal));
        }
        Ok(
            VideoAnnexBStreamSendState {
                next_frame_id: config.first_frame_id,
                next_pts_ticks: config.first_pts_ticks,
                config,
                pending: Vec::new(),
                run: None,
            },
        )
    }

    /// How many bytes are pending.
    pub fn pending_bytes(&self) -> (count: usize)
        ensures
            count == self@.pending.len(),
    {
        self.pending.len()
    }

    /// The id of the next frame.
    pub fn next_frame_id(&self) -> (frame_id: u64)
        ensures
            frame_id == self@.next_frame_id,
    {
        self.next_frame_id
    }
}

/// A step or an error as the model has it.
pub open spec fn outcome_view(outcome: Result<VideoSendStep, MediaError>) -> Result<
    VideoStep,
    MediaFault,
> {
    match outcome {
        Ok(next) => Ok(next@),
        Err(error) => Err(error@),
    }
}

proof fn lemma_joined_grows(units: Seq<AccessUnit>, k: nat, n: nat)
    requires
        k <= n,
    ensures
        annexb::joined(units, k).len() <= annexb::joined(units, n).len(),
    decreases n,
{
    if k < n {
        lemma_joined_grows(units, k, (n - 1) as nat);
    }
}

/// How many bytes `units` hold together.
fn total_bytes(units: &Vec<VideoAccessUnit>) -> (total: usize)
    requires
        annexb::joined(annexb::unit_views(units@), units@.len()).len() <= usize::MAX,
    ensures
        total == annexb::joined(annexb::unit_views(units@), units@.len()).len(),
{
    let ghost views = annexb::unit_views(units@);
    let mut total: usize = 0;
    let mut i: usize = 0;
    while i < units.len()
        invariant
            i <= units@.len(),
            views == annexb::unit_views(units@),
            total == annexb::joined(views, i as nat).len(),
            annexb::joined(views, units@.len()).len() <= usize::MAX,
        decreases units@.len() - i,
    {
        proof {
            lemma_joined_grows(views, (i + 1) as nat, units@.len());
            assert(views[i as int] == units@[i as int]@);
        }
        total = total + units[i].bytes.len();
        i = i + 1;
    }
    total
}

/// The complete units of the pending bytes fit into them.
pub proof fn lemma_complete_units_fit(codec: Seq<char>, pending: Seq<u8>, flush_last: bool)
    requires
        annexb::split_named(codec, pending) is Ok,
    ensures
        ({
            let units = complete_units(annexb::split_named(codec, pending)->Ok_0, flush_last);
            annexb::joined(units, units.len()).len() <= pending.len()
        }),
{
    let all = annexb::split_named(codec, pending)->Ok_0;
    let units = complete_units(all, flush_last);
    let family = if codec::named_codec(codec) == Some(VideoCodec::H264) {
        VideoFamily::H264
    } else {
        VideoFamily::H265
    };
    annexb::lemma_joined_len(family, pending, units.len());
    annexb::lemma_joined_of_prefix(units, all, units.len());
}

impl VideoAnnexBStreamSendState {
    /// Goes on with the run.
    fn step(&mut self) -> (outcome: Result<VideoSendStep, MediaError>)
        requires
            in_order(old(self)@),
            old(self)@.run is Some,
        ensures
            in_order(final(self)@),
            (outcome_view(outcome), final(self)@) == step(old(self)@),
    {
        let mut run = match self.run.take() {
            Some(run) => run,
            None => {
                return Ok(VideoSendStep::Done(Vec::new()));
            },
        };
        if run.encoded >= run.units.len() {
            assert(annexb::joined(run.model().units, run.units@.len()).len()
                <= self.pending.len());
            let emitted: usize = total_bytes(&run.units);
            let rest = self.pending.split_off(emitted);
            self.pending = rest;
            assert(self.pending@ =~= old(self)@.pending.skip(emitted as int));
            return Ok(VideoSendStep::Done(run.payloads));
        }
        let deadline_ticks: i64 = match self.next_pts_ticks.checked_add(
            self.config.deadline_delay_ticks,
        ) {
            Some(deadline_ticks) => deadline_ticks,
            None => {
                return Err(MediaError::Refused(Refusal::VideoDeadlineOverflow));
            },
        };
        let frame = VideoFramePacketizeOptions {
            stream_id: self.config.stream_id.as_str(),
            session_id: self.config.session_id.as_str(),
            codec: self.config.codec.as_str(),
            frame_id: self.next_frame_id,
            pts_ticks: self.next_pts_ticks,
            duration_ticks: self.config.frame_duration_ticks,
            timebase_num: self.config.timebase_num,
            timebase_den: self.config.timebase_den,
            deadline_ticks,
            max_payload_bytes: self.config.max_payload_bytes,
        };
        assert(annexb::unit_views(run.units@)[run.encoded as int] == run.units@[run.encoded as int]@);
        match packetize_video_access_unit(frame, &run.units[run.encoded]) {
            Ok(chunks) => {
                let job = VideoWireJob {
                    chunks,
                    stored_at: run.stored_at.clone(),
                    source_runtime_id: self.config.source_runtime_id.clone(),
                    source_role: self.config.source_role.clone(),
                };
                run.awaited = frame_record_count(job.chunks.len() as u16);
                self.run = Some(run);
                Ok(VideoSendStep::Frame(job))
            },
            Err(error) => Err(error),
        }
    }

    /// Begins a run with the access units that are complete.
    fn emit_available(&mut self, stored_at: &str, flush_last: bool) -> (outcome: Result<
        VideoSendStep,
        MediaError,
    >)
        requires
            in_order(old(self)@),
        ensures
            in_order(final(self)@),
            (outcome_view(outcome), final(self)@) == begin(old(self)@, stored_at@, flush_last),
    {
        self.run = None;
        if stored_at.is_empty() {
            return Err(MediaError::Refused(Refusal::StoredAtEmpty));
        }
        let nothing: Vec<MuninnMediaSendPayload> = Vec::new();
        assert(wire::payload_views(nothing@) =~= Seq::<SendPayload>::empty());
        if self.pending.len() == 0 {
            return Ok(VideoSendStep::Done(nothing));
        }
        let mut access_units = match video_annex_b_access_units(
            self.config.codec.as_str(),
            self.pending.as_slice(),
        ) {
            Ok(access_units) => access_units,
            Err(MediaError::Refused(Refusal::NoStartCodes(_))) => {
                return Ok(VideoSendStep::Done(nothing));
            },
            Err(MediaError::Refused(Refusal::NoNalPayloads(_))) => {
                return Ok(VideoSendStep::Done(nothing));
            },
            Err(error) => {
                return Err(error);
            },
        };
        let ghost units = annexb::unit_views(access_units@);
        if !flush_last {
            let _ = access_units.pop();
        }
        assert(annexb::unit_views(access_units@) =~= complete_units(units, flush_last));
        if access_units.len() == 0 {
            return Ok(VideoSendStep::Done(nothing));
        }
        proof {
            lemma_complete_units_fit(self@.config.codec, self@.pending, flush_last);
        }
        self.run = Some(
            VideoRunState {
                units: access_units,
                encoded: 0,
                awaited: 0,
                payloads: nothing,
                stored_at: stored_at.to_owned(),
            },
        );
        self.step()
    }

    /// Takes in bytes of the stream and begins a run with the frames that are complete.
    /// What an earlier run had left is given out again.
    pub fn push(&mut self, stored_at: &str, bytes: &[u8]) -> (outcome: Result<
        VideoSendStep,
        MediaError,
    >)
        requires
            in_order(old(self)@),
        ensures
            in_order(final(self)@),
            (outcome_view(outcome), final(self)@) == pushed(old(self)@, stored_at@, bytes@),
    {
        self.run = None;
        self.pending.extend_from_slice(bytes);
        assert(self.pending@ =~= old(self)@.pending + bytes@);
        if self.pending.len() > self.config.max_pending_bytes {
            return Err(
                MediaError::Refused(Refusal::VideoPendingExceeded(self.config.max_pending_bytes)),
            );
        }
        self.emit_available(stored_at, false)
    }

    /// Begins a run with all frames that are left, at the end of the stream.
    pub fn finish(&mut self, stored_at: &str) -> (outcome: Result<VideoSendStep, MediaError>)
        requires
            in_order(old(self)@),
        ensures
            in_order(final(self)@),
            (outcome_view(outcome), final(self)@) == begin(old(self)@, stored_at@, true),
    {
        self.emit_available(stored_at, true)
    }

    /// Moves the clock on by one frame.
    fn advance_frame_clock(&mut self) -> (outcome: Result<(), Refusal>)
        requires
            in_order(old(self)@),
        ensures
            in_order(final(self)@),
            (outcome, final(self)@) == clock_advanced(old(self)@),
    {
        self.next_frame_id = match self.next_frame_id.checked_add(1) {
            Some(frame_id) => frame_id,
            None => {
                return Err(Refusal::VideoFrameIdOverflow);
            },
        };
        self.next_pts_ticks = match self.next_pts_ticks.checked_add(
            self.config.frame_duration_ticks as i64,
        ) {
            Some(pts_ticks) => pts_ticks,
            None => {
                return Err(Refusal::VideoPtsOverflow);
            },
        };
        Ok(())
    }

    /// Takes in the encoder's replies for the frame that the run last gave out, one for
    /// each of its records, and goes on with the run. A failure ends the run, and so do
    /// replies that are not one per record; its bytes stay pending.
    pub fn frame_encoded(
        &mut self,
        media_channel: &'static str,
        replies: Vec<Result<Vec<u8>, String>>,
    ) -> (outcome: Result<VideoSendStep, MediaError>)
        requires
            in_order(old(self)@),
            old(self)@.run matches Some(run) && run.encoded < run.units.len(),
        ensures
            in_order(final(self)@),
            (outcome_view(outcome), final(self)@) == encoded(
                old(self)@,
                media_channel@,
                replies@,
            ),
    {
        let mut run = match self.run.take() {
            Some(run) => run,
            None => {
                return Ok(VideoSendStep::Done(Vec::new()));
            },
        };
        let mut payloads = match send_payloads(media_channel, run.awaited, replies) {
            Ok(payloads) => payloads,
            Err(error) => {
                return Err(error);
            },
        };
        if let Err(refusal) = self.advance_frame_clock() {
            return Err(MediaError::Refused(refusal));
        }
        let ghost before = run.payloads@;
        let ghost added = payloads@;
        run.payloads.append(&mut payloads);
        assert(run.encoded < run.units.len());
        run.encoded = run.encoded + 1;
        assert(wire::payload_views(run.payloads@) =~= wire::payload_views(before)
            + wire::payload_views(added));
        self.run = Some(run);
        self.step()
    }
}

// Laws

/// What a run that begins with `outcome` comes to once the encoder has replied for its
/// first `k` frames.
pub open spec fn replied(
    outcome: (Result<VideoStep, MediaFault>, VideoSender),
    channel: Seq<char>,
    replies: Seq<Seq<Result<Vec<u8>, String>>>,
    k: nat,
) -> (Result<VideoStep, MediaFault>, VideoSender)
    decreases k,
{
    if k == 0 {
        outcome
    } else {
        let (last, now) = replied(outcome, channel, replies, (k - 1) as nat);
        if last is Ok && last->Ok_0 is Frame {
            encoded(now, channel, replies[k - 1])
        } else {
            (last, now)
        }
    }
}

/// What the run of `sender` comes to once the encoder has replied for its first `k` frames.
pub open spec fn after(
    sender: VideoSender,
    channel: Seq<char>,
    replies: Seq<Seq<Result<Vec<u8>, String>>>,
    k: nat,
) -> (Result<VideoStep, MediaFault>, VideoSender) {
    replied(step(sender), channel, replies, k)
}

/// What the first `k` frames were encoded to, in order.
pub open spec fn all_sent(
    channel: Seq<char>,
    replies: Seq<Seq<Result<Vec<u8>, String>>>,
    k: nat,
) -> Seq<SendPayload>
    decreases k,
{
    if k == 0 {
        Seq::empty()
    } else {
        all_sent(channel, replies, (k - 1) as nat) + wire::pinned(
            channel,
            wire::encoded_bytes(replies[k - 1]),
        )
    }
}

/// Whether a sender is about to give out the first frame of a run.
pub open spec fn run_begins(sender: VideoSender) -> bool {
    &&& in_order(sender)
    &&& sender.run matches Some(run) && run.encoded == 0 && run.payloads == Seq::<
        SendPayload,
    >::empty()
}

/// As long as nothing fails, a run gives out its access units in order, each as one frame
/// with the next id and the time one frame duration later, and with as many replies as the
/// frame has records. The step behind the last frame hands out all payloads in order, every
/// one of them on the media channel, and only then do the bytes of the access units leave
/// the pending bytes.
pub proof fn law_run(
    sender: VideoSender,
    channel: Seq<char>,
    replies: Seq<Seq<Result<Vec<u8>, String>>>,
    k: nat,
)
    requires
        run_begins(sender),
        k <= sender.run->0.units.len(),
        after(sender, channel, replies, k).0 is Ok,
    ensures
        ({
            let (last, now) = after(sender, channel, replies, k);
            let run = sender.run->0;
            &&& now.config == sender.config
            &&& now.next_frame_id == sender.next_frame_id + k
            &&& now.next_pts_ticks == sender.next_pts_ticks + k
                * sender.config.frame_duration_ticks
            &&& k < run.units.len() ==> {
                &&& last->Ok_0 is Frame
                &&& now.pending == sender.pending
                &&& now.run == Some(
                    VideoRun {
                        encoded: k,
                        awaited: wire::frame_records(
                            last->Ok_0->Frame_0.chunks.len(),
                        ) as usize,
                        payloads: all_sent(channel, replies, k),
                        ..run
                    },
                )
                &&& next_frame(now) is Ok
                &&& video::packetize_frame(next_frame(now)->Ok_0, run.units[k as int]) == Ok::<
                    Seq<records::VideoChunk>,
                    MediaFault,
                >(last->Ok_0->Frame_0.chunks)
            }
            &&& k == run.units.len() ==> {
                &&& last->Ok_0 == VideoStep::Done(all_sent(channel, replies, k))
                &&& now.pending == sender.pending.skip(annexb::joined(run.units, k).len() as int)
                &&& now.run is None
            }
            &&& k > 0 ==> {
                let frame = after(sender, channel, replies, (k - 1) as nat).0->Ok_0->Frame_0;
                &&& replies[k - 1].len() == wire::frame_records(frame.chunks.len())
                &&& forall|i: int|
                    0 <= i < replies[k - 1].len() ==> #[trigger] replies[k - 1][i] is Ok
            }
            &&& forall|i: int|
                #![trigger all_sent(channel, replies, k)[i]]
                0 <= i < all_sent(channel, replies, k).len() ==> all_sent(
                    channel,
                    replies,
                    k,
                )[i].channel_id == channel
        }),
    decreases k,
{
    let run = sender.run->0;
    let duration = sender.config.frame_duration_ticks;
    if k == 0 {
        assert(0 * duration == 0) by (nonlinear_arith);
    } else {
        let (last, now) = after(sender, channel, replies, (k - 1) as nat);
        assert(last is Ok);
        law_run(sender, channel, replies, (k - 1) as nat);
        wire::law_replies_become_payloads(channel, now.run->0.awaited, replies[k - 1]);
        let frame = last->Ok_0->Frame_0;
        assert(frame.chunks == video::frame_chunks(next_frame(now)->Ok_0, run.units[k - 1]));
        assert(frame.chunks.len() <= u16::MAX);
        assert(replies[k - 1].len() == wire::frame_records(frame.chunks.len()));
        assert(k * duration == (k - 1) * duration + duration) by (nonlinear_arith);
        assert(0 <= (k - 1) * duration) by (nonlinear_arith)
            requires
                k > 0,
        ;
        let before = all_sent(channel, replies, (k - 1) as nat);
        let sends = all_sent(channel, replies, k);
        assert forall|i: int| #![trigger sends[i]] 0 <= i < sends.len() implies sends[i].channel_id
            == channel by {
            if i < before.len() {
                assert(sends[i] == before[i]);
            }
        }
    }
}

/// The replies that a run waits for are one for each record that the frame it has given out
/// becomes, whatever the media wire layer says of the chunks.
pub proof fn law_frames_await_a_reply_per_record(
    sender: VideoSender,
    verdicts: Seq<Result<(), String>>,
)
    requires
        sender.run is Some,
        step(sender).0 is Ok,
        step(sender).0->Ok_0 is Frame,
        verdicts.len() == step(sender).0->Ok_0->Frame_0.chunks.len(),
        wire::job_outcome(step(sender).0->Ok_0->Frame_0, verdicts) is Ok,
    ensures
        step(sender).1.run is Some,
        step(sender).1.run->0.awaited == wire::job_outcome(
            step(sender).0->Ok_0->Frame_0,
            verdicts,
        )->Ok_0.items.len(),
{
    let run = sender.run->0;
    let frame = next_frame(sender)->Ok_0;
    let unit = run.units[run.encoded as int];
    let chunks = step(sender).0->Ok_0->Frame_0.chunks;
    assert(chunks == video::frame_chunks(frame, unit));
    assert(chunks.len() <= u16::MAX);
    wire::law_frames_have_their_records(frame, unit, verdicts);
}

/// The options under which a whole stream would be packetized as `sender` sends it.
pub open spec fn stream_options(sender: VideoSender) -> StreamOptions {
    let config = sender.config;
    StreamOptions {
        stream_id: config.stream_id,
        session_id: config.session_id,
        codec: config.codec,
        first_frame_id: sender.next_frame_id,
        first_pts_ticks: sender.next_pts_ticks,
        frame_duration_ticks: config.frame_duration_ticks,
        timebase_num: config.timebase_num,
        timebase_den: config.timebase_den,
        deadline_delay_ticks: config.deadline_delay_ticks,
        max_payload_bytes: config.max_payload_bytes,
    }
}

/// The frames of a run are those of the packetized stream: frame `k` that a run gives out
/// has the chunks that packetizing the access units as a stream gives its unit `k`.
pub proof fn law_run_agrees_with_stream(
    sender: VideoSender,
    channel: Seq<char>,
    replies: Seq<Seq<Result<Vec<u8>, String>>>,
    k: nat,
)
    requires
        run_begins(sender),
        k < sender.run->0.units.len(),
        after(sender, channel, replies, k).0 is Ok,
        video::packetize_unit(stream_options(sender), sender.run->0.units, k as int) is Ok,
    ensures
        after(sender, channel, replies, k).0->Ok_0 is Frame,
        video::packetize_unit(stream_options(sender), sender.run->0.units, k as int)->Ok_0
            == after(sender, channel, replies, k).0->Ok_0->Frame_0.chunks,
{
    law_run(sender, channel, replies, k);
    assert(0 <= k * sender.config.frame_duration_ticks) by (nonlinear_arith);
    let now = after(sender, channel, replies, k).1;
    assert(next_frame(now)->Ok_0 =~= video::stream_frame(
        stream_options(sender),
        k as int,
    )->Ok_0);
}

/// Nothing that was taken in gets lost: a push keeps all pending bytes and the clock, and
/// a run that fails in the middle keeps the pending bytes and ends.
pub proof fn law_failures_keep_pending_bytes(
    sender: VideoSender,
    stored_at: Seq<char>,
    bytes: Seq<u8>,
    channel: Seq<char>,
    replies: Seq<Result<Vec<u8>, String>>,
)
    ensures
        pushed(sender, stored_at, bytes).1.pending == sender.pending + bytes,
        pushed(sender, stored_at, bytes).1.next_frame_id == sender.next_frame_id,
        pushed(sender, stored_at, bytes).1.next_pts_ticks == sender.next_pts_ticks,
        pushed(sender, stored_at, bytes).0 is Err ==> pushed(sender, stored_at, bytes).1.run is None,
        encoded(sender, channel, replies).0 is Err ==> {
            &&& encoded(sender, channel, replies).1.pending == sender.pending
            &&& encoded(sender, channel, replies).1.run is None
        },
{
}

/// A stream that begins with a start code and whose start codes are all followed by
/// complete NAL units is sent whole: once a push's run is over, what is still pending is
/// the last access unit, and once that of the finish is over, nothing is.
pub proof fn law_last_frame_waits(family: VideoFamily, pending: Seq<u8>)
    requires
        annexb::split_stream(family, pending) is Ok,
        annexb::stream_nals(family, pending).len() == annexb::start_codes(pending, 0).len(),
        annexb::start_codes(pending, 0)[0] == 0,
    ensures
        ({
            let units = annexb::stream_units(family, pending);
            let pushed_units = complete_units(units, false);
            let finished_units = complete_units(units, true);
            &&& pending.skip(annexb::joined(pushed_units, pushed_units.len()).len() as int)
                == units.last().bytes
            &&& pending.skip(annexb::joined(finished_units, finished_units.len()).len() as int)
                == Seq::<u8>::empty()
        }),
{
    let units = annexb::stream_units(family, pending);
    let n = units.len();
    annexb::law_units_are_disjoint_stretches(family, pending);
    annexb::law_units_join_to_the_stream(family, pending);
    assert(pending.skip(0) =~= pending);
    let early = complete_units(units, false);
    annexb::lemma_joined_of_prefix(early, units, (n - 1) as nat);
    let head = annexb::joined(early, early.len());
    assert(pending == head + units.last().bytes);
    assert(pending.skip(head.len() as int) =~= units.last().bytes);
    assert(pending.skip(pending.len() as int) =~= Seq::<u8>::empty());
}

/// The view of a config shows each of its fields.
pub proof fn law_configs_show_their_fields(config: VideoAnnexBStreamSendConfig)
    ensures
        config@.stream_id == config.stream_id@,
        config@.session_id == config.session_id@,
        config@.codec == config.codec@,
        config@.first_frame_id == config.first_frame_id,
        config@.first_pts_ticks == config.first_pts_ticks,
        config@.frame_duration_ticks == config.frame_duration_ticks,
        config@.timebase_num == config.timebase_num,
        config@.timebase_den == config.timebase_den,
        config@.deadline_delay_ticks == config.deadline_delay_ticks,
        config@.max_payload_bytes == config.max_payload_bytes,
        config@.max_pending_bytes == config.max_pending_bytes,
        config@.source_runtime_id == config.source_runtime_id@,
        config@.source_role == config.source_role@,
{
}

/// A sender is made exactly for a config whose codec names H.264 or H.265 and whose other
/// fields are valid: ids and names that are not empty, durations, timebase and limits
/// without a zero, a delay that is not negative. It is refused for its codec exactly where
/// the name is unknown or names AV1; otherwise the first field that is not valid is told.
pub proof fn law_what_senders_are_made(config: VideoSendConfig)
    ensures
        config_refusal(config) is None <==> {
            &&& codec::named_codec(config.codec) == Some(VideoCodec::H264) || codec::named_codec(
                config.codec,
            ) == Some(VideoCodec::H265)
            &&& config.stream_id.len() > 0
            &&& config.session_id.len() > 0
            &&& config.frame_duration_ticks > 0
            &&& config.timebase_num > 0
            &&& config.timebase_den > 0
            &&& config.deadline_delay_ticks >= 0
            &&& config.max_payload_bytes > 0
            &&& config.max_pending_bytes > 0
            &&& config.source_runtime_id.len() > 0
            &&& config.source_role.len() > 0
        },
        config_refusal(config) == Some(Refusal::SenderCodec) <==> codec::named_codec(config.codec)
            is None || codec::named_codec(config.codec) == Some(VideoCodec::Av1),
        config_refusal(config) is Some && config_refusal(config) != Some(Refusal::SenderCodec)
            ==> config_refusal(config)->0 == if config.stream_id.len() == 0 {
            Refusal::StreamIdEmpty
        } else if config.session_id.len() == 0 {
            Refusal::SessionIdEmpty
        } else if config.frame_duration_ticks == 0 {
            Refusal::FrameDurationZero
        } else if config.timebase_num == 0 || config.timebase_den == 0 {
            Refusal::VideoTimebaseZero
        } else if config.deadline_delay_ticks < 0 {
            Refusal::DeadlineDelayNegative
        } else if config.max_payload_bytes == 0 {
            Refusal::MaxPayloadZero
        } else if config.max_pending_bytes == 0 {
            Refusal::MaxPendingZero
        } else if config.source_runtime_id.len() == 0 {
            Refusal::SourceRuntimeIdEmpty
        } else {
            Refusal::SourceRoleEmpty
        },
{
}

/// A run that has yet to give out an access unit gives it out as a frame, with the next id
/// and the next time of the sender and everything else out of the config, exactly where the
/// deadline can be represented and 65535 chunks can take the access unit. Behind its last
/// access unit it is done: it hands out its payloads, and the bytes of its access units
/// leave the pending bytes from the front.
pub proof fn law_steps_give_out_the_next_unit(sender: VideoSender, i: int)
    requires
        in_order(sender),
        sender.run is Some,
    ensures
        ({
            let config = sender.config;
            let run = sender.run->0;
            let unit = run.units[run.encoded as int];
            let (outcome, now) = step(sender);
            let deadline = sender.next_pts_ticks + config.deadline_delay_ticks;
            &&& now.config == config
            &&& now.next_frame_id == sender.next_frame_id
            &&& now.next_pts_ticks == sender.next_pts_ticks
            &&& run.encoded == run.units.len() ==> {
                &&& outcome == Ok::<VideoStep, MediaFault>(VideoStep::Done(run.payloads))
                &&& now.pending == sender.pending.skip(
                    annexb::joined(run.units, run.units.len()).len() as int,
                )
                &&& now.run is None
            }
            &&& run.encoded < run.units.len() ==> {
                &&& now.pending == sender.pending
                &&& outcome is Ok <==> deadline <= 0x7fff_ffff_ffff_ffff && 0 < unit.bytes.len()
                    <= 65535 * config.max_payload_bytes
                &&& outcome is Err ==> now.run is None
                &&& deadline > 0x7fff_ffff_ffff_ffff ==> outcome == Err::<VideoStep, MediaFault>(
                    MediaFault::Refused(Refusal::VideoDeadlineOverflow),
                )
                &&& outcome is Ok ==> {
                    let job = outcome->Ok_0->Frame_0;
                    let count = job.chunks.len();
                    &&& outcome->Ok_0 is Frame
                    &&& job.stored_at == run.stored_at
                    &&& job.source_runtime_id == config.source_runtime_id
                    &&& job.source_role == config.source_role
                    &&& (count - 1) * config.max_payload_bytes < unit.bytes.len() <= count
                        * config.max_payload_bytes
                    &&& video::joined_payloads(job.chunks, count) == unit.bytes
                    &&& now.run is Some
                    &&& now.run->0.awaited == if count <= 1 {
                        count
                    } else if count < 16 {
                        2 * count
                    } else {
                        count + 16
                    }
                    &&& now.run->0.units == run.units
                    &&& now.run->0.encoded == run.encoded
                    &&& now.run->0.payloads == run.payloads
                    &&& now.run->0.stored_at == run.stored_at
                    &&& 0 <= i < count ==> {
                        let chunk = job.chunks[i];
                        &&& chunk.meta.stream_id == config.stream_id
                        &&& chunk.meta.session_id == config.session_id
                        &&& chunk.meta.frame_id == sender.next_frame_id
                        &&& chunk.meta.codec == config.codec
                        &&& chunk.meta.pts_ticks == sender.next_pts_ticks
                        &&& chunk.meta.duration_ticks == config.frame_duration_ticks
                        &&& chunk.meta.timebase_num == config.timebase_num
                        &&& chunk.meta.timebase_den == config.timebase_den
                        &&& chunk.meta.keyframe == unit.keyframe
                        &&& chunk.meta.deadline_ticks == deadline
                        &&& chunk.meta.chunk_count == count
                        &&& chunk.chunk_index == i
                        &&& i + 1 < count ==> chunk.payload.len() == config.max_payload_bytes
                    }
                }
            }
        }),
{
    let run = sender.run->0;
    law_what_senders_are_made(sender.config);
    if run.encoded < run.units.len() && next_frame(sender) is Ok {
        let frame = next_frame(sender)->Ok_0;
        let unit = run.units[run.encoded as int];
        codec::lemma_named_codecs_are_not_empty(sender.config.codec);
        video::law_what_can_be_packetized(frame, unit);
        if video::packetize_frame(frame, unit) is Ok {
            video::law_chunks_join_to_the_access_unit(frame, unit);
            let chunks = video::packetize_frame(frame, unit)->Ok_0;
            video::law_chunks_carry_the_options(frame, unit, 0);
            if 0 <= i < chunks.len() {
                video::law_chunks_carry_the_options(frame, unit, i);
            }
        }
    }
}

/// What a run begins with: nothing where the time is not told or no access unit is complete
/// yet; otherwise all access units of the pending bytes at the end of the stream, and all
/// but the last before it.
pub proof fn law_runs_begin_with_the_complete_units(
    sender: VideoSender,
    stored_at: Seq<char>,
    flush_last: bool,
)
    requires
        in_order(sender),
    ensures
        ({
            let family = if codec::named_codec(sender.config.codec) == Some(VideoCodec::H264) {
                VideoFamily::H264
            } else {
                VideoFamily::H265
            };
            let split = annexb::split_stream(family, sender.pending);
            let (outcome, now) = begin(sender, stored_at, flush_last);
            let nothing = Ok::<VideoStep, MediaFault>(VideoStep::Done(Seq::empty()));
            &&& now.pending == sender.pending
            &&& now.config == sender.config
            &&& now.next_frame_id == sender.next_frame_id
            &&& now.next_pts_ticks == sender.next_pts_ticks
            &&& stored_at.len() == 0 ==> outcome == Err::<VideoStep, MediaFault>(
                MediaFault::Refused(Refusal::StoredAtEmpty),
            ) && now.run is None
            &&& stored_at.len() > 0 && split is Err ==> outcome == nothing && now.run is None
            &&& stored_at.len() > 0 && split is Ok && split->Ok_0.len() == 1 && !flush_last
                ==> outcome == nothing && now.run is None
            &&& stored_at.len() > 0 && split is Ok && (split->Ok_0.len() > 1 || flush_last)
                ==> (outcome, now) == step(
                VideoSender {
                    run: Some(
                        VideoRun {
                            units: if flush_last {
                                split->Ok_0
                            } else {
                                split->Ok_0.drop_last()
                            },
                            encoded: 0,
                            awaited: 0,
                            payloads: Seq::empty(),
                            stored_at,
                        },
                    ),
                    ..sender
                },
            )
            &&& stored_at.len() > 0 && split is Ok && (split->Ok_0.len() > 1 || flush_last)
                && outcome is Ok ==> {
                &&& outcome->Ok_0 is Frame
                &&& now.run is Some
                &&& now.run->0.encoded == 0
                &&& now.run->0.payloads.len() == 0
                &&& now.run->0.stored_at == stored_at
                &&& now.run->0.units == if flush_last {
                    split->Ok_0
                } else {
                    split->Ok_0.drop_last()
                }
                &&& video::joined_payloads(
                    outcome->Ok_0->Frame_0.chunks,
                    outcome->Ok_0->Frame_0.chunks.len(),
                ) == split->Ok_0[0].bytes
            }
        }),
{
    law_what_senders_are_made(sender.config);
    let family = if codec::named_codec(sender.config.codec) == Some(VideoCodec::H264) {
        VideoFamily::H264
    } else {
        VideoFamily::H265
    };
    let split = annexb::split_stream(family, sender.pending);
    assert(annexb::split_named(sender.config.codec, sender.pending) == split);
    if sender.pending.len() == 0 {
        annexb::lemma_codes_apart(sender.pending, 0);
        if annexb::start_codes(sender.pending, 0).len() > 0 {
            assert(annexb::start_codes(sender.pending, 0)[0] >= 0);
        }
    }
    if split is Ok {
        let units = complete_units(split->Ok_0, flush_last);
        annexb::law_units_are_disjoint_stretches(family, sender.pending);
        lemma_complete_units_fit(sender.config.codec, sender.pending, flush_last);
        let begun = VideoSender {
            run: Some(
                VideoRun { units, encoded: 0, awaited: 0, payloads: Seq::empty(), stored_at },
            ),
            ..sender
        };
        law_steps_give_out_the_next_unit(begun, 0);
    }
}

/// A push puts its bytes behind the pending ones. It fails, keeping them, where they become
/// more than may be pending, and otherwise begins a run before the end of the stream.
pub proof fn law_pushes_fill_the_pending_bytes(
    sender: VideoSender,
    stored_at: Seq<char>,
    bytes: Seq<u8>,
)
    ensures
        ({
            let filled = VideoSender { pending: sender.pending + bytes, run: None, ..sender };
            pushed(sender, stored_at, bytes) == if sender.pending.len() + bytes.len()
                > sender.config.max_pending_bytes {
                (
                    Err::<VideoStep, MediaFault>(
                        MediaFault::Refused(
                            Refusal::VideoPendingExceeded(sender.config.max_pending_bytes),
                        ),
                    ),
                    filled,
                )
            } else {
                begin(filled, stored_at, false)
            }
        }),
{
}

/// A frame that is encoded moves the sender on by one frame: its id by one, its time by a
/// frame duration, its payloads by one for each reply, in order. That takes one good reply
/// for each record of the frame, an id and a time that can be represented.
pub proof fn law_encoded_frames_move_the_sender_on(
    sender: VideoSender,
    channel: Seq<char>,
    replies: Seq<Result<Vec<u8>, String>>,
)
    requires
        in_order(sender),
        sender.run matches Some(run) && run.encoded < run.units.len(),
    ensures
        ({
            let run = sender.run->0;
            let (outcome, now) = encoded(sender, channel, replies);
            let answered = replies.len() == run.awaited && forall|i: int|
                0 <= i < replies.len() ==> #[trigger] replies[i] is Ok;
            let next = VideoSender {
                next_frame_id: (sender.next_frame_id + 1) as u64,
                next_pts_ticks: (sender.next_pts_ticks + sender.config.frame_duration_ticks) as i64,
                run: Some(
                    VideoRun {
                        encoded: run.encoded + 1,
                        payloads: run.payloads + Seq::new(
                            replies.len(),
                            |i: int|
                                SendPayload { channel_id: channel, payload: replies[i]->Ok_0@ },
                        ),
                        ..run
                    },
                ),
                ..sender
            };
            &&& !answered ==> {
                &&& outcome is Err
                &&& outcome->Err_0 == wire::sent(channel, run.awaited, replies)->Err_0
                &&& now == (VideoSender { run: None, ..sender })
            }
            &&& answered && sender.next_frame_id == 0xffff_ffff_ffff_ffff ==> {
                &&& outcome == Err::<VideoStep, MediaFault>(
                    MediaFault::Refused(Refusal::VideoFrameIdOverflow),
                )
                &&& now == (VideoSender { run: None, ..sender })
            }
            &&& answered && sender.next_frame_id < 0xffff_ffff_ffff_ffff && sender.next_pts_ticks
                + sender.config.frame_duration_ticks > 0x7fff_ffff_ffff_ffff ==> {
                &&& outcome == Err::<VideoStep, MediaFault>(
                    MediaFault::Refused(Refusal::VideoPtsOverflow),
                )
                &&& now == (VideoSender {
                    next_frame_id: (sender.next_frame_id + 1) as u64,
                    run: None,
                    ..sender
                })
            }
            &&& answered && sender.next_frame_id < 0xffff_ffff_ffff_ffff && sender.next_pts_ticks
                + sender.config.frame_duration_ticks <= 0x7fff_ffff_ffff_ffff ==> (outcome, now)
                == step(next)
        }),
{
    let run = sender.run->0;
    wire::law_replies_become_payloads(channel, run.awaited, replies);
    let sends = Seq::new(
        replies.len(),
        |i: int| SendPayload { channel_id: channel, payload: replies[i]->Ok_0@ },
    );
    let outcome = wire::sent(channel, run.awaited, replies);
    if outcome is Ok {
        assert forall|i: int| 0 <= i < replies.len() implies #[trigger] replies[i] is Ok by {
            assert(outcome->Ok_0[i].channel_id == channel);
        }
        assert(outcome->Ok_0 =~= sends);
    }
}

/// The view of an outcome shows what it holds.
pub proof fn law_outcomes_show_what_they_hold(outcome: Result<VideoSendStep, MediaError>)
    ensures
        match outcome {
            Ok(VideoSendStep::Frame(job)) => outcome_view(outcome) == Ok::<VideoStep, MediaFault>(
                VideoStep::Frame(job@),
            ),
            Ok(VideoSendStep::Done(payloads)) => {
                &&& outcome_view(outcome) is Ok
                &&& outcome_view(outcome)->Ok_0 is Done
                &&& outcome_view(outcome)->Ok_0->Done_0.len() == payloads@.len()
                &&& forall|i: int|
                    0 <= i < payloads@.len() ==> #[trigger] outcome_view(outcome)->Ok_0->Done_0[i]
                        == payloads@[i]@
            },
            Err(error) => outcome_view(outcome) == Err::<VideoStep, MediaFault>(error@),
        },
{
}

} // verus!
