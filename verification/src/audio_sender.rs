//! The PCM stream sender: takes samples as they come and gives out packets of a fixed
//! duration, once they are full, for encoding and sending.
//!
//! A run gives out one packet after another. For each, the caller has the record encoded by
//! the media wire layer and hands the reply back with `packet_encoded`, until the run is
//! done and its payloads can be sent.

use vstd::arithmetic::div_mod;
use vstd::arithmetic::mul;
use vstd::prelude::*;
use vstd::slice::slice_subrange;

use crate::audio;
use crate::audio::{AudioPacketizeOptions, PacketOptions};
use crate::error::{MediaError, MediaFault, Refusal};
use crate::records::WireItem;
use crate::wire;
use crate::wire::{
    audio_packet_send_payload, encode_audio_packet_wire_record, AudioPacketWireOptions,
    MediaWireBatch, MuninnMediaSendPayload, SendPayload, WireBatch,
};

verus! {

/// How a PCM stream is sent.
#[derive(Debug, PartialEq, Eq)]
pub struct AudioPcmStreamSendConfig {
    pub stream_id: String,
    pub session_id: String,
    pub codec: String,
    pub first_packet_id: u64,
    pub first_pts_ticks: i64,
    pub packet_duration_ticks: u32,
    pub timebase_num: u32,
    pub timebase_den: u32,
    pub deadline_delay_ticks: i64,
    pub channels: u32,
    pub bytes_per_sample: u32,
    pub max_pending_bytes: usize,
    pub source_runtime_id: String,
    pub source_role: String,
}

/// What an `AudioPcmStreamSendConfig` says.
#[verifier::ext_equal]
pub struct AudioSendConfig {
    pub stream_id: Seq<char>,
    pub session_id: Seq<char>,
    pub codec: Seq<char>,
    pub first_packet_id: u64,
    pub first_pts_ticks: i64,
    pub packet_duration_ticks: u32,
    pub timebase_num: u32,
    pub timebase_den: u32,
    pub deadline_delay_ticks: i64,
    pub channels: u32,
    pub bytes_per_sample: u32,
    pub max_pending_bytes: usize,
    pub source_runtime_id: Seq<char>,
    pub source_role: Seq<char>,
}

impl View for AudioPcmStreamSendConfig {
    type V = AudioSendConfig;

    open spec fn view(&self) -> AudioSendConfig {
        AudioSendConfig {
            stream_id: self.stream_id@,
            session_id: self.session_id@,
            codec: self.codec@,
            first_packet_id: self.first_packet_id,
            first_pts_ticks: self.first_pts_ticks,
            packet_duration_ticks: self.packet_duration_ticks,
            timebase_num: self.timebase_num,
            timebase_den: self.timebase_den,
            deadline_delay_ticks: self.deadline_delay_ticks,
            channels: self.channels,
            bytes_per_sample: self.bytes_per_sample,
            max_pending_bytes: self.max_pending_bytes,
            source_runtime_id: self.source_runtime_id@,
            source_role: self.source_role@,
        }
    }
}

/// The first rule that a config breaks.
pub open spec fn config_refusal(config: AudioSendConfig) -> Option<Refusal> {
    if config.stream_id.len() == 0 {
        Some(Refusal::StreamIdEmpty)
    } else if config.session_id.len() == 0 {
        Some(Refusal::SessionIdEmpty)
    } else if config.codec.len() == 0 {
        Some(Refusal::CodecEmpty)
    } else if config.packet_duration_ticks == 0 {
        Some(Refusal::PacketDurationZero)
    } else if config.timebase_num == 0 || config.timebase_den == 0 {
        Some(Refusal::AudioTimebaseZero)
    } else if config.deadline_delay_ticks < 0 {
        Some(Refusal::DeadlineDelayNegative)
    } else if config.channels == 0 {
        Some(Refusal::ChannelsZero)
    } else if config.bytes_per_sample == 0 {
        Some(Refusal::BytesPerSampleZero)
    } else if config.max_pending_bytes == 0 {
        Some(Refusal::MaxPendingZero)
    } else if config.source_runtime_id.len() == 0 {
        Some(Refusal::SourceRuntimeIdEmpty)
    } else if config.source_role.len() == 0 {
        Some(Refusal::SourceRoleEmpty)
    } else {
        None
    }
}

/// The bytes of one sample of every channel, as far as they can be counted.
pub open spec fn frame_bytes(config: AudioSendConfig) -> nat {
    let bytes = config.channels * config.bytes_per_sample;
    if bytes > usize::MAX {
        usize::MAX as nat
    } else {
        bytes as nat
    }
}

/// The bytes of one packet: one sample of every channel per tick of its duration.
pub open spec fn packet_bytes(config: AudioSendConfig) -> nat {
    frame_bytes(config) * (config.packet_duration_ticks as nat)
}

/// A run: how many packets it gives out, how many of them are encoded, and
/// what they were encoded to.
#[verifier::ext_equal]
pub struct AudioRun {
    pub packets: nat,
    pub encoded: nat,
    pub payloads: Seq<SendPayload>,
    pub stored_at: Seq<char>,
    pub finishing: bool,
}

/// What an `AudioPcmStreamSendState` holds.
#[verifier::ext_equal]
pub struct AudioSender {
    pub config: AudioSendConfig,
    pub pending: Seq<u8>,
    pub next_packet_id: u64,
    pub next_pts_ticks: i64,
    pub run: Option<AudioRun>,
}

/// What the caller does next: have a packet encoded, or send the payloads of a finished
/// run.
#[derive(Debug, PartialEq, Eq)]
pub enum AudioSendStep {
    Packet(MediaWireBatch),
    Done(Vec<MuninnMediaSendPayload>),
}

/// What an `AudioSendStep` holds.
#[verifier::ext_equal]
pub enum AudioStep {
    Packet(WireBatch),
    Done(Seq<SendPayload>),
}

impl View for AudioSendStep {
    type V = AudioStep;

    open spec fn view(&self) -> AudioStep {
        match self {
            AudioSendStep::Packet(batch) => AudioStep::Packet(batch@),
            AudioSendStep::Done(payloads) => AudioStep::Done(wire::payload_views(payloads@)),
        }
    }
}

/// A step or an error as the model has it.
pub open spec fn outcome_view(outcome: Result<AudioSendStep, MediaError>) -> Result<
    AudioStep,
    MediaFault,
> {
    match outcome {
        Ok(next) => Ok(next@),
        Err(error) => Err(error@),
    }
}

/// Whether a sender is in order: its config breaks no rule, and a run takes its packets
/// out of the pending bytes.
pub open spec fn in_order(sender: AudioSender) -> bool {
    &&& config_refusal(sender.config) is None
    &&& sender.run matches Some(run) ==> {
        &&& run.encoded <= run.packets
        &&& packet_bytes(sender.config) <= usize::MAX
        &&& run.packets * packet_bytes(sender.config) <= sender.pending.len()
    }
}

/// A sender without its run.
pub open spec fn idle(sender: AudioSender) -> AudioSender {
    AudioSender { run: None, ..sender }
}

/// How the next packet is made.
pub open spec fn next_packet(sender: AudioSender) -> Result<PacketOptions, Refusal> {
    let config = sender.config;
    let deadline = sender.next_pts_ticks + config.deadline_delay_ticks;
    if deadline > i64::MAX {
        Err(Refusal::AudioDeadlineOverflow)
    } else {
        Ok(
            PacketOptions {
                stream_id: config.stream_id,
                session_id: config.session_id,
                codec: config.codec,
                packet_id: sender.next_packet_id,
                pts_ticks: sender.next_pts_ticks,
                duration_ticks: config.packet_duration_ticks,
                timebase_num: config.timebase_num,
                timebase_den: config.timebase_den,
                deadline_ticks: deadline as i64,
            },
        )
    }
}

/// The bytes of packet `k` of the pending bytes.
pub open spec fn packet_payload(pending: Seq<u8>, size: nat, k: int) -> Seq<u8> {
    pending.subrange(k * size, (k + 1) * size)
}

/// How a run ends: with its payloads, unless the stream ends and bytes are left over.
pub open spec fn settled(sender: AudioSender, payloads: Seq<SendPayload>, finishing: bool) -> (
    Result<AudioStep, MediaFault>,
    AudioSender,
) {
    if finishing && sender.pending.len() > 0 {
        (
            Err(MediaFault::Refused(Refusal::TrailingBytes(sender.pending.len() as usize))),
            idle(sender),
        )
    } else {
        (Ok(AudioStep::Done(payloads)), idle(sender))
    }
}

/// The next step of a run: the next packet, or, behind the last one, the payloads. The
/// bytes of the packets leave the pending bytes with the last step.
pub open spec fn step(sender: AudioSender) -> (Result<AudioStep, MediaFault>, AudioSender) {
    let run = sender.run->0;
    let size = packet_bytes(sender.config);
    if run.encoded >= run.packets {
        settled(
            AudioSender { pending: sender.pending.skip((run.packets * size) as int), ..sender },
            run.payloads,
            run.finishing,
        )
    } else {
        match next_packet(sender) {
            Err(refusal) => (Err(MediaFault::Refused(refusal)), idle(sender)),
            Ok(options) => match audio::packetize_payload(
                options,
                packet_payload(sender.pending, size, run.encoded as int),
            ) {
                Err(fault) => (Err(fault), idle(sender)),
                Ok(packet) => (
                    Ok(
                        AudioStep::Packet(
                            WireBatch {
                                items: seq![WireItem::Audio(packet)],
                                provenance: wire::provenance_of(
                                    run.stored_at,
                                    sender.config.source_runtime_id,
                                    sender.config.source_role,
                                ),
                            },
                        ),
                    ),
                    sender,
                ),
            },
        }
    }
}

/// Begins a run with the packets that are full.
pub open spec fn begin(sender: AudioSender, stored_at: Seq<char>, finishing: bool) -> (
    Result<AudioStep, MediaFault>,
    AudioSender,
) {
    let size = packet_bytes(sender.config);
    if stored_at.len() == 0 {
        (Err(MediaFault::Refused(Refusal::StoredAtEmpty)), idle(sender))
    } else if size > usize::MAX {
        (Err(MediaFault::Refused(Refusal::BytesPerPacketOverflow)), idle(sender))
    } else if sender.pending.len() / size == 0 {
        settled(sender, Seq::empty(), finishing)
    } else {
        step(
            AudioSender {
                run: Some(
                    AudioRun {
                        packets: sender.pending.len() / size,
                        encoded: 0,
                        payloads: Seq::empty(),
                        stored_at,
                        finishing,
                    },
                ),
                ..sender
            },
        )
    }
}

/// Takes in bytes and begins a run.
pub open spec fn pushed(sender: AudioSender, stored_at: Seq<char>, bytes: Seq<u8>) -> (
    Result<AudioStep, MediaFault>,
    AudioSender,
) {
    let filled = AudioSender { pending: sender.pending + bytes, run: None, ..sender };
    if filled.pending.len() > sender.config.max_pending_bytes {
        (
            Err(
                MediaFault::Refused(
                    Refusal::AudioPendingExceeded(sender.config.max_pending_bytes),
                ),
            ),
            filled,
        )
    } else {
        begin(filled, stored_at, false)
    }
}

/// Moves the clock on by one packet.
pub open spec fn clock_advanced(sender: AudioSender) -> (Result<(), Refusal>, AudioSender) {
    let duration = sender.config.packet_duration_ticks;
    if sender.next_packet_id == u64::MAX {
        (Err(Refusal::AudioPacketIdOverflow), sender)
    } else {
        let counted = AudioSender {
            next_packet_id: (sender.next_packet_id + 1) as u64,
            ..sender
        };
        if sender.next_pts_ticks + duration > i64::MAX {
            (Err(Refusal::AudioPtsOverflow), counted)
        } else {
            (
                Ok(()),
                AudioSender { next_pts_ticks: (sender.next_pts_ticks + duration) as i64, ..counted },
            )
        }
    }
}

/// Takes in what a packet was encoded to and goes on with the run.
pub open spec fn encoded(
    sender: AudioSender,
    channel: Seq<char>,
    reply: Result<Vec<u8>, String>,
) -> (Result<AudioStep, MediaFault>, AudioSender) {
    let run = sender.run->0;
    match reply {
        Err(text) => (Err(MediaFault::Wire(text@)), idle(sender)),
        Ok(bytes) => {
            let (ticked, advanced) = clock_advanced(sender);
            match ticked {
                Err(refusal) => (Err(MediaFault::Refused(refusal)), idle(advanced)),
                Ok(_) => step(
                    AudioSender {
                        run: Some(
                            AudioRun {
                                encoded: run.encoded + 1,
                                payloads: run.payloads.push(
                                    SendPayload { channel_id: channel, payload: bytes@ },
                                ),
                                ..run
                            },
                        ),
                        ..advanced
                    },
                ),
            }
        },
    }
}

struct AudioRunState {
    packets: usize,
    encoded: usize,
    payloads: Vec<MuninnMediaSendPayload>,
    stored_at: String,
    finishing: bool,
}

impl AudioRunState {
    spec fn model(self) -> AudioRun {
        AudioRun {
            packets: self.packets as nat,
            encoded: self.encoded as nat,
            payloads: wire::payload_views(self.payloads@),
            stored_at: self.stored_at@,
            finishing: self.finishing,
        }
    }
}

/// The sender of a PCM stream.
pub struct AudioPcmStreamSendState {
    config: AudioPcmStreamSendConfig,
    pending: Vec<u8>,
    next_packet_id: u64,
    next_pts_ticks: i64,
    run: Option<AudioRunState>,
}

impl View for AudioPcmStreamSendState {
    type V = AudioSender;

    closed spec fn view(&self) -> AudioSender {
        AudioSender {
            config: self.config@,
            pending: self.pending@,
            next_packet_id: self.next_packet_id,
            next_pts_ticks: self.next_pts_ticks,
            run: match self.run {
                Some(run) => Some(run.model()),
                None => None,
            },
        }
    }
}

fn config_rule_broken(config: &AudioPcmStreamSendConfig) -> (broken: Option<Refusal>)
    ensures
        broken == config_refusal(config@),
{
    if config.stream_id.as_str().is_empty() {
        return Some(Refusal::StreamIdEmpty);
    }
    if config.session_id.as_str().is_empty() {
        return Some(Refusal::SessionIdEmpty);
    }
    if config.codec.as_str().is_empty() {
        return Some(Refusal::CodecEmpty);
    }
    if config.packet_duration_ticks == 0 {
        return Some(Refusal::PacketDurationZero);
    }
    if config.timebase_num == 0 || config.timebase_den == 0 {
        return Some(Refusal::AudioTimebaseZero);
    }
    if config.deadline_delay_ticks < 0 {
        return Some(Refusal::DeadlineDelayNegative);
    }
    if config.channels == 0 {
        return Some(Refusal::ChannelsZero);
    }
    if config.bytes_per_sample == 0 {
        return Some(Refusal::BytesPerSampleZero);
    }
    if config.max_pending_bytes == 0 {
        return Some(Refusal::MaxPendingZero);
    }
    if config.source_runtime_id.as_str().is_empty() {
        return Some(Refusal::SourceRuntimeIdEmpty);
    }
    if config.source_role.as_str().is_empty() {
        return Some(Refusal::SourceRoleEmpty);
    }
    None
}

/// A packet of an accepted config holds at least one byte.
pub proof fn lemma_packets_hold_bytes(config: AudioSendConfig)
    requires
        config_refusal(config) is None,
    ensures
        packet_bytes(config) > 0,
{
    mul::lemma_mul_strictly_positive(config.channels as int, config.bytes_per_sample as int);
    mul::lemma_mul_strictly_positive(
        frame_bytes(config) as int,
        config.packet_duration_ticks as int,
    );
}

fn count_packet_bytes(config: &AudioPcmStreamSendConfig) -> (size: Option<usize>)
    ensures
        match size {
            Some(bytes) => bytes == packet_bytes(config@),
            None => packet_bytes(config@) > usize::MAX,
        },
{
    let frame: usize = match (config.channels as usize).checked_mul(
        config.bytes_per_sample as usize,
    ) {
        Some(frame) => frame,
        None => usize::MAX,
    };
    frame.checked_mul(config.packet_duration_ticks as usize)
}

impl AudioPcmStreamSendState {
    /// A sender with nothing pending, at the first packet id and time of `config`.
    pub fn new(config: AudioPcmStreamSendConfig) -> (outcome: Result<Self, MediaError>)
        ensures
            match outcome {
                Ok(sender) => {
                    &&& config_refusal(config@) is None
                    &&& in_order(sender@)
                    &&& sender@ == (AudioSender {
                        config: config@,
                        pending: Seq::empty(),
                        next_packet_id: config.first_packet_id,
                        next_pts_ticks: config.first_pts_ticks,
                        run: None,
                    })
                },
                Err(error) => config_refusal(config@) is Some && error@ == MediaFault::Refused(
                    config_refusal(config@)->0,
                ),
            },
            outcome is Ok <==> {
                &&& config.stream_id@.len() > 0
                &&& config.session_id@.len() > 0
                &&& config.codec@.len() > 0
                &&& config.packet_duration_ticks > 0
                &&& config.timebase_num > 0
                &&& config.timebase_den > 0
                &&& config.deadline_delay_ticks >= 0
                &&& config.channels > 0
                &&& config.bytes_per_sample > 0
                &&& config.max_pending_bytes > 0
                &&& config.source_runtime_id@.len() > 0
                &&& config.source_role@.len() > 0
            },
    {
        if let Some(refusal) = config_rule_broken(&config) {
            return Err(MediaError::Refused(refusal));
        }
        Ok(
            AudioPcmStreamSendState {
                next_packet_id: config.first_packet_id,
                next_pts_ticks: config.first_pts_ticks,
                config,
                pending: Vec::new(),
                run: None,
            },
        )
    }

    /// Ends a run.
    fn settle(&mut self, payloads: Vec<MuninnMediaSendPayload>, finishing: bool) -> (outcome: Result<
        AudioSendStep,
        MediaError,
    >)
        requires
            config_refusal(old(self)@.config) is None,
        ensures
            in_order(final(self)@),
            (outcome_view(outcome), final(self)@) == settled(
                old(self)@,
                wire::payload_views(payloads@),
                finishing,
            ),
    {
        self.run = None;
        if finishing && self.pending.len() > 0 {
            return Err(MediaError::Refused(Refusal::TrailingBytes(self.pending.len())));
        }
        Ok(AudioSendStep::Done(payloads))
    }

    /// Goes on with the run.
    fn step(&mut self) -> (outcome: Result<AudioSendStep, MediaError>)
        requires
            in_order(old(self)@),
            old(self)@.run is Some,
        ensures
            in_order(final(self)@),
            (outcome_view(outcome), final(self)@) == step(old(self)@),
    {
        let run = match self.run.take() {
            Some(run) => run,
            None => {
                return Ok(AudioSendStep::Done(Vec::new()));
            },
        };
        let size: usize = match count_packet_bytes(&self.config) {
            Some(size) => size,
            None => {
                return Err(MediaError::Refused(Refusal::BytesPerPacketOverflow));
            },
        };
        proof {
            mul::lemma_mul_inequality(run.encoded as int, run.packets as int, size as int);
            mul::lemma_mul_nonnegative(run.encoded as int, size as int);
            assert(run.packets * size <= self.pending.len());
        }
        if run.encoded >= run.packets {
            let rest = self.pending.split_off(run.packets * size);
            self.pending = rest;
            assert(self.pending@ =~= old(self)@.pending.skip(run.packets * size));
            return self.settle(run.payloads, run.finishing);
        }
        let deadline_ticks: i64 = match self.next_pts_ticks.checked_add(
            self.config.deadline_delay_ticks,
        ) {
            Some(deadline_ticks) => deadline_ticks,
            None => {
                return Err(MediaError::Refused(Refusal::AudioDeadlineOverflow));
            },
        };
        let options = AudioPacketWireOptions {
            packetize: AudioPacketizeOptions {
                stream_id: self.config.stream_id.as_str(),
                session_id: self.config.session_id.as_str(),
                codec: self.config.codec.as_str(),
                packet_id: self.next_packet_id,
                pts_ticks: self.next_pts_ticks,
                duration_ticks: self.config.packet_duration_ticks,
                timebase_num: self.config.timebase_num,
                timebase_den: self.config.timebase_den,
                deadline_ticks,
            },
            stored_at: run.stored_at.as_str(),
            source_runtime_id: self.config.source_runtime_id.as_str(),
            source_role: self.config.source_role.as_str(),
        };
        proof {
            mul::lemma_mul_inequality(run.encoded + 1, run.packets as int, size as int);
            assert((run.encoded + 1) * size == run.encoded * size + size) by (nonlinear_arith);
        }
        let start: usize = run.encoded * size;
        let payload = slice_subrange(self.pending.as_slice(), start, start + size);
        match encode_audio_packet_wire_record(options, payload) {
            Ok(batch) => {
                self.run = Some(run);
                Ok(AudioSendStep::Packet(batch))
            },
            Err(error) => Err(error),
        }
    }
}

impl AudioPcmStreamSendState {
    /// Begins a run with the packets that are full.
    fn emit_available(&mut self, stored_at: &str, finishing: bool) -> (outcome: Result<
        AudioSendStep,
        MediaError,
    >)
        requires
            in_order(old(self)@),
        ensures
            in_order(final(self)@),
            (outcome_view(outcome), final(self)@) == begin(old(self)@, stored_at@, finishing),
    {
        self.run = None;
        if stored_at.is_empty() {
            return Err(MediaError::Refused(Refusal::StoredAtEmpty));
        }
        let size: usize = match count_packet_bytes(&self.config) {
            Some(size) => size,
            None => {
                return Err(MediaError::Refused(Refusal::BytesPerPacketOverflow));
            },
        };
        proof {
            lemma_packets_hold_bytes(self@.config);
            div_mod::lemma_fundamental_div_mod(self.pending@.len() as int, size as int);
        }
        let packets: usize = self.pending.len() / size;
        let nothing: Vec<MuninnMediaSendPayload> = Vec::new();
        assert(wire::payload_views(nothing@) =~= Seq::<SendPayload>::empty());
        if packets == 0 {
            return self.settle(nothing, finishing);
        }
        assert(packets * size == size * packets) by (nonlinear_arith);
        self.run = Some(
            AudioRunState {
                packets,
                encoded: 0,
                payloads: nothing,
                stored_at: stored_at.to_owned(),
                finishing,
            },
        );
        self.step()
    }

    /// Takes in bytes of the stream and begins a run with the packets that are full.
    /// What an earlier run had left is given out again.
    pub fn push(&mut self, stored_at: &str, bytes: &[u8]) -> (outcome: Result<
        AudioSendStep,
        MediaError,
    >)
        requires
            in_order(old(self)@),
        ensures
            in_order(final(self)@),
            (outcome_view(outcome), final(self)@) == pushed(old(self)@, stored_at@, bytes@),
    {
        self.run = None;
        self.pending.extend_from_slice(bytes);
        assert(self.pending@ =~= old(self)@.pending + bytes@);
        if self.pending.len() > self.config.max_pending_bytes {
            return Err(
                MediaError::Refused(Refusal::AudioPendingExceeded(self.config.max_pending_bytes)),
            );
        }
        self.emit_available(stored_at, false)
    }

    /// Begins a run with all packets that are left, at the end of the stream. The run
    /// fails where bytes are left over behind the last full packet.
    pub fn finish(&mut self, stored_at: &str) -> (outcome: Result<AudioSendStep, MediaError>)
        requires
            in_order(old(self)@),
        ensures
            in_order(final(self)@),
            (outcome_view(outcome), final(self)@) == begin(old(self)@, stored_at@, true),
    {
        self.emit_available(stored_at, true)
    }

    /// Moves the clock on by one packet.
    fn advance_packet_clock(&mut self) -> (outcome: Result<(), Refusal>)
        requires
            in_order(old(self)@),
        ensures
            in_order(final(self)@),
            (outcome, final(self)@) == clock_advanced(old(self)@),
    {
        self.next_packet_id = match self.next_packet_id.checked_add(1) {
            Some(packet_id) => packet_id,
            None => {
                return Err(Refusal::AudioPacketIdOverflow);
            },
        };
        self.next_pts_ticks = match self.next_pts_ticks.checked_add(
            self.config.packet_duration_ticks as i64,
        ) {
            Some(pts_ticks) => pts_ticks,
            None => {
                return Err(Refusal::AudioPtsOverflow);
            },
        };
        Ok(())
    }

    /// Takes in the encoder's reply for the packet that the run last gave out, and goes on
    /// with the run. A failure ends the run; its bytes stay pending.
    pub fn packet_encoded(
        &mut self,
        media_channel: &'static str,
        reply: Result<Vec<u8>, String>,
    ) -> (outcome: Result<AudioSendStep, MediaError>)
        requires
            in_order(old(self)@),
            old(self)@.run matches Some(run) && run.encoded < run.packets,
        ensures
            in_order(final(self)@),
            (outcome_view(outcome), final(self)@) == encoded(old(self)@, media_channel@, reply),
    {
        let mut run = match self.run.take() {
            Some(run) => run,
            None => {
                return Ok(AudioSendStep::Done(Vec::new()));
            },
        };
        let send = match audio_packet_send_payload(media_channel, reply) {
            Ok(send) => send,
            Err(error) => {
                return Err(error);
            },
        };
        if let Err(refusal) = self.advance_packet_clock() {
            return Err(MediaError::Refused(refusal));
        }
        let ghost before = run.payloads@;
        run.payloads.push(send);
        run.encoded = run.encoded + 1;
        assert(wire::payload_views(run.payloads@) =~= wire::payload_views(before).push(send@));
        self.run = Some(run);
        self.step()
    }
}

// Laws

/// What a run that begins with `outcome` comes to once the encoder has replied for its
/// first `k` packets.
pub open spec fn replied(
    outcome: (Result<AudioStep, MediaFault>, AudioSender),
    channel: Seq<char>,
    replies: Seq<Result<Vec<u8>, String>>,
    k: nat,
) -> (Result<AudioStep, MediaFault>, AudioSender)
    decreases k,
{
    if k == 0 {
        outcome
    } else {
        let (last, now) = replied(outcome, channel, replies, (k - 1) as nat);
        if last is Ok && last->Ok_0 is Packet {
            encoded(now, channel, replies[k - 1])
        } else {
            (last, now)
        }
    }
}

/// What the run of `sender` comes to once the encoder has replied for its first `k`
/// packets.
pub open spec fn after(
    sender: AudioSender,
    channel: Seq<char>,
    replies: Seq<Result<Vec<u8>, String>>,
    k: nat,
) -> (Result<AudioStep, MediaFault>, AudioSender) {
    replied(step(sender), channel, replies, k)
}

/// What the first `k` packets were encoded to, in order.
pub open spec fn all_sent(
    channel: Seq<char>,
    replies: Seq<Result<Vec<u8>, String>>,
    k: nat,
) -> Seq<SendPayload> {
    Seq::new(
        k,
        |i: int| SendPayload { channel_id: channel, payload: replies[i]->Ok_0@ },
    )
}

/// Whether a sender is about to give out the first packet of a run.
pub open spec fn run_begins(sender: AudioSender) -> bool {
    &&& in_order(sender)
    &&& sender.run matches Some(run) && run.encoded == 0 && run.payloads == Seq::<
        SendPayload,
    >::empty() && run.packets == sender.pending.len() / packet_bytes(sender.config)
}

/// As long as nothing fails, a run gives out the pending bytes in order, each packet with
/// the next id and the time one packet duration later. The step behind the last packet
/// hands out all payloads in order, every one of them on the media channel; only then do
/// the bytes of the packets leave the pending bytes, and less than a packet is left.
pub proof fn law_run(
    sender: AudioSender,
    channel: Seq<char>,
    replies: Seq<Result<Vec<u8>, String>>,
    k: nat,
)
    requires
        run_begins(sender),
        k <= sender.run->0.packets,
        after(sender, channel, replies, k).0 is Ok,
    ensures
        ({
            let (last, now) = after(sender, channel, replies, k);
            let run = sender.run->0;
            let size = packet_bytes(sender.config);
            &&& now.config == sender.config
            &&& now.next_packet_id == sender.next_packet_id + k
            &&& now.next_pts_ticks == sender.next_pts_ticks + k
                * sender.config.packet_duration_ticks
            &&& k < run.packets ==> {
                &&& last->Ok_0 is Packet
                &&& now.pending == sender.pending
                &&& now.run == Some(
                    AudioRun { encoded: k, payloads: all_sent(channel, replies, k), ..run },
                )
                &&& next_packet(now) is Ok
                &&& last->Ok_0->Packet_0.items == seq![
                    WireItem::Audio(
                        audio::packet_of(
                            next_packet(now)->Ok_0,
                            packet_payload(sender.pending, size, k as int),
                        ),
                    ),
                ]
                &&& last->Ok_0->Packet_0.provenance == wire::provenance_of(
                    run.stored_at,
                    sender.config.source_runtime_id,
                    sender.config.source_role,
                )
            }
            &&& k == run.packets ==> {
                &&& last->Ok_0 == AudioStep::Done(all_sent(channel, replies, k))
                &&& now.pending == sender.pending.skip((run.packets * size) as int)
                &&& now.pending.len() < size
                &&& now.run is None
            }
        }),
    decreases k,
{
    let run = sender.run->0;
    let duration = sender.config.packet_duration_ticks;
    let size = packet_bytes(sender.config);
    lemma_packets_hold_bytes(sender.config);
    div_mod::lemma_fundamental_div_mod(sender.pending.len() as int, size as int);
    assert(run.packets * size == size * run.packets) by (nonlinear_arith);
    if k == 0 {
        assert(0 * duration == 0) by (nonlinear_arith);
        assert(all_sent(channel, replies, 0) =~= Seq::<SendPayload>::empty());
    } else {
        let (last, now) = after(sender, channel, replies, (k - 1) as nat);
        assert(last is Ok);
        law_run(sender, channel, replies, (k - 1) as nat);
        assert(k * duration == (k - 1) * duration + duration) by (nonlinear_arith);
        assert(all_sent(channel, replies, k) =~= all_sent(channel, replies, (k - 1) as nat).push(
            SendPayload { channel_id: channel, payload: replies[k - 1]->Ok_0@ },
        ));
    }
}

/// The payloads of the first `k` packets of the pending bytes, one behind the other.
pub open spec fn joined_packets(pending: Seq<u8>, size: nat, k: nat) -> Seq<u8>
    decreases k,
{
    if k == 0 {
        Seq::empty()
    } else {
        joined_packets(pending, size, (k - 1) as nat) + packet_payload(pending, size, k - 1)
    }
}

/// Samples are neither lost, repeated nor put out of order: what the packets of a run
/// carry, followed by what stays pending behind it, is what was pending before it.
pub proof fn law_samples_are_conserved(pending: Seq<u8>, size: nat, k: nat)
    requires
        k * size <= pending.len(),
    ensures
        joined_packets(pending, size, k) + pending.skip((k * size) as int) == pending,
        forall|i: int|
            0 <= i < k ==> #[trigger] packet_payload(pending, size, i).len() == size,
    decreases k,
{
    if k == 0 {
        assert(0 * size == 0) by (nonlinear_arith);
        assert(joined_packets(pending, size, 0) + pending.skip(0) =~= pending);
    } else {
        assert(k * size == (k - 1) * size + size) by (nonlinear_arith);
        assert(0 <= (k - 1) * size) by (nonlinear_arith)
            requires
                k > 0,
        ;
        law_samples_are_conserved(pending, size, (k - 1) as nat);
        let before = joined_packets(pending, size, (k - 1) as nat);
        let middle = packet_payload(pending, size, k - 1);
        assert(pending.skip((k - 1) * size) =~= middle + pending.skip((k * size) as int));
        assert(joined_packets(pending, size, k) + pending.skip((k * size) as int) =~= before
            + pending.skip((k - 1) * size));
        assert forall|i: int| 0 <= i < k implies #[trigger] packet_payload(pending, size, i).len()
            == size by {
            if i == k - 1 {
                assert(middle.len() == size);
            }
        }
    }
}

/// Samples may come in pieces: what a run leaves of one piece, followed by the next piece,
/// gives the packets that both pieces together give from there on, and leaves the same
/// bytes over.
pub proof fn law_pieces_make_no_difference(piece: Seq<u8>, more: Seq<u8>, size: nat)
    requires
        size > 0,
    ensures
        ({
            let n = piece.len() / size;
            let rest = piece.skip((n * size) as int) + more;
            let m = rest.len() / size;
            let whole = piece + more;
            &&& whole.len() / size == n + m
            &&& forall|k: int|
                0 <= k < n ==> #[trigger] packet_payload(whole, size, k) == packet_payload(
                    piece,
                    size,
                    k,
                )
            &&& forall|k: int|
                0 <= k < m ==> #[trigger] packet_payload(rest, size, k) == packet_payload(
                    whole,
                    size,
                    n + k,
                )
            &&& whole.skip(((n + m) * size) as int) == rest.skip((m * size) as int)
        }),
{
    let n = piece.len() / size;
    let s = size as int;
    div_mod::lemma_fundamental_div_mod(piece.len() as int, s);
    assert(n * size == size * n) by (nonlinear_arith);
    let rest = piece.skip((n * size) as int) + more;
    let m = rest.len() / size;
    let whole = piece + more;
    div_mod::lemma_fundamental_div_mod(rest.len() as int, s);
    assert(m * size == size * m) by (nonlinear_arith);
    assert((n + m) * size == n * size + m * size) by (nonlinear_arith);
    div_mod::lemma_fundamental_div_mod_converse(
        whole.len() as int,
        s,
        (n + m) as int,
        rest.len() as int % s,
    );
    assert forall|k: int| 0 <= k < n implies #[trigger] packet_payload(whole, size, k)
        == packet_payload(piece, size, k) by {
        assert(0 <= k * size) by (nonlinear_arith)
            requires
                k >= 0,
        ;
        assert((k + 1) * size == k * size + size) by (nonlinear_arith);
        mul::lemma_mul_inequality(k + 1, n as int, s);
        assert(packet_payload(whole, size, k) =~= packet_payload(piece, size, k));
    }
    assert forall|k: int| 0 <= k < m implies #[trigger] packet_payload(rest, size, k)
        == packet_payload(whole, size, n + k) by {
        assert(0 <= k * size) by (nonlinear_arith)
            requires
                k >= 0,
        ;
        assert((k + 1) * size == k * size + size) by (nonlinear_arith);
        assert((n + k) * size == n * size + k * size) by (nonlinear_arith);
        assert((n + k + 1) * size == n * size + k * size + size) by (nonlinear_arith);
        mul::lemma_mul_inequality(k + 1, m as int, s);
        assert(packet_payload(rest, size, k) =~= packet_payload(whole, size, n + k));
    }
    assert(whole.skip(((n + m) * size) as int) =~= rest.skip((m * size) as int));
}

/// Nothing that was taken in gets lost: a push keeps all pending bytes and the clock, and
/// a run that fails before its last packet is encoded keeps the pending bytes and ends.
pub proof fn law_failures_keep_pending_bytes(
    sender: AudioSender,
    stored_at: Seq<char>,
    bytes: Seq<u8>,
    channel: Seq<char>,
    reply: Result<Vec<u8>, String>,
)
    requires
        in_order(sender),
    ensures
        pushed(sender, stored_at, bytes).1.pending == sender.pending + bytes,
        pushed(sender, stored_at, bytes).1.next_packet_id == sender.next_packet_id,
        pushed(sender, stored_at, bytes).1.next_pts_ticks == sender.next_pts_ticks,
        pushed(sender, stored_at, bytes).0 is Err ==> pushed(sender, stored_at, bytes).1.run is None,
        encoded(sender, channel, reply).0 is Err ==> encoded(sender, channel, reply).1.run is None,
        encoded(sender, channel, reply).0 is Err && sender.run->0.encoded + 1
            < sender.run->0.packets ==> encoded(sender, channel, reply).1.pending
            == sender.pending,
{
    lemma_packets_hold_bytes(sender.config);
    div_mod::lemma_div_pos_is_pos(
        (sender.pending + bytes).len() as int,
        packet_bytes(sender.config) as int,
    );
}

/// The view of a config shows each of its fields.
pub proof fn law_configs_show_their_fields(config: AudioPcmStreamSendConfig)
    ensures
        config@.stream_id == config.stream_id@,
        config@.session_id == config.session_id@,
        config@.codec == config.codec@,
        config@.first_packet_id == config.first_packet_id,
        config@.first_pts_ticks == config.first_pts_ticks,
        config@.packet_duration_ticks == config.packet_duration_ticks,
        config@.timebase_num == config.timebase_num,
        config@.timebase_den == config.timebase_den,
        config@.deadline_delay_ticks == config.deadline_delay_ticks,
        config@.channels == config.channels,
        config@.bytes_per_sample == config.bytes_per_sample,
        config@.max_pending_bytes == config.max_pending_bytes,
        config@.source_runtime_id == config.source_runtime_id@,
        config@.source_role == config.source_role@,
{
}

/// A sender is made exactly for a config whose fields are valid: ids and names that are not
/// empty, duration, timebase, channels, sample size and limit without a zero, a delay that
/// is not negative. Otherwise the first field that is not valid is told.
pub proof fn law_what_senders_are_made(config: AudioSendConfig)
    ensures
        config_refusal(config) is None <==> {
            &&& config.stream_id.len() > 0
            &&& config.session_id.len() > 0
            &&& config.codec.len() > 0
            &&& config.packet_duration_ticks > 0
            &&& config.timebase_num > 0
            &&& config.timebase_den > 0
            &&& config.deadline_delay_ticks >= 0
            &&& config.channels > 0
            &&& config.bytes_per_sample > 0
            &&& config.max_pending_bytes > 0
            &&& config.source_runtime_id.len() > 0
            &&& config.source_role.len() > 0
        },
        config_refusal(config) is Some ==> config_refusal(config)->0 == if config.stream_id.len()
            == 0 {
            Refusal::StreamIdEmpty
        } else if config.session_id.len() == 0 {
            Refusal::SessionIdEmpty
        } else if config.codec.len() == 0 {
            Refusal::CodecEmpty
        } else if config.packet_duration_ticks == 0 {
            Refusal::PacketDurationZero
        } else if config.timebase_num == 0 || config.timebase_den == 0 {
            Refusal::AudioTimebaseZero
        } else if config.deadline_delay_ticks < 0 {
            Refusal::DeadlineDelayNegative
        } else if config.channels == 0 {
            Refusal::ChannelsZero
        } else if config.bytes_per_sample == 0 {
            Refusal::BytesPerSampleZero
        } else if config.max_pending_bytes == 0 {
            Refusal::MaxPendingZero
        } else if config.source_runtime_id.len() == 0 {
            Refusal::SourceRuntimeIdEmpty
        } else {
            Refusal::SourceRoleEmpty
        },
{
}

/// How many bytes one packet of a config takes: a sample of every channel for each tick.
pub proof fn law_packets_hold_whole_samples(config: AudioSendConfig)
    requires
        config.channels * config.bytes_per_sample <= usize::MAX,
    ensures
        packet_bytes(config) == config.channels * config.bytes_per_sample
            * config.packet_duration_ticks,
{
    mul::lemma_mul_nonnegative(config.channels as int, config.bytes_per_sample as int);
}

/// A run that has yet to give out a packet gives it out with the next id and the next time
/// of the sender and everything else out of the config, exactly where the deadline can be
/// represented. Its payload is one sample of every channel for each tick of its duration:
/// channels times bytes per sample times duration bytes, the next ones of the pending bytes.
/// Behind its last packet the run is done, and the bytes of its packets leave the pending
/// bytes from the front; at the end of the stream it fails where bytes are left over.
pub proof fn law_steps_give_out_the_next_packet(sender: AudioSender)
    requires
        in_order(sender),
        sender.run is Some,
        sender.config.channels * sender.config.bytes_per_sample <= usize::MAX,
    ensures
        ({
            let config = sender.config;
            let run = sender.run->0;
            let size = config.channels * config.bytes_per_sample * config.packet_duration_ticks;
            let deadline = sender.next_pts_ticks + config.deadline_delay_ticks;
            let (outcome, now) = step(sender);
            &&& now.config == config
            &&& now.next_packet_id == sender.next_packet_id
            &&& now.next_pts_ticks == sender.next_pts_ticks
            &&& run.encoded == run.packets ==> {
                let rest = sender.pending.skip(run.packets * size);
                &&& now.pending == rest
                &&& now.run is None
                &&& outcome == if run.finishing && rest.len() > 0 {
                    Err::<AudioStep, MediaFault>(
                        MediaFault::Refused(Refusal::TrailingBytes(rest.len() as usize)),
                    )
                } else {
                    Ok(AudioStep::Done(run.payloads))
                }
            }
            &&& run.encoded < run.packets ==> {
                &&& now.pending == sender.pending
                &&& outcome is Ok <==> deadline <= 0x7fff_ffff_ffff_ffff
                &&& outcome is Err ==> now.run is None && outcome == Err::<AudioStep, MediaFault>(
                    MediaFault::Refused(Refusal::AudioDeadlineOverflow),
                )
                &&& outcome is Ok ==> {
                    let batch = outcome->Ok_0->Packet_0;
                    let packet = batch.items[0]->Audio_0;
                    &&& now.run == sender.run
                    &&& outcome->Ok_0 is Packet
                    &&& batch.items.len() == 1
                    &&& batch.items[0] is Audio
                    &&& batch.provenance.stored_at == run.stored_at
                    &&& batch.provenance.runtime_id == config.source_runtime_id
                    &&& batch.provenance.role == config.source_role
                    &&& batch.provenance.producer == "muninn"@
                    &&& packet.stream_id == config.stream_id
                    &&& packet.session_id == config.session_id
                    &&& packet.packet_id == sender.next_packet_id
                    &&& packet.codec == config.codec
                    &&& packet.pts_ticks == sender.next_pts_ticks
                    &&& packet.duration_ticks == config.packet_duration_ticks
                    &&& packet.timebase_num == config.timebase_num
                    &&& packet.timebase_den == config.timebase_den
                    &&& packet.deadline_ticks == deadline
                    &&& packet.payload.len() == config.channels * config.bytes_per_sample
                        * packet.duration_ticks
                    &&& forall|o: int|
                        0 <= o < packet.payload.len() ==> #[trigger] packet.payload[o]
                            == sender.pending[run.encoded * size + o]
                }
            }
        }),
{
    let config = sender.config;
    let run = sender.run->0;
    let size = packet_bytes(config) as int;
    law_what_senders_are_made(config);
    law_packets_hold_whole_samples(config);
    lemma_packets_hold_bytes(config);
    if run.encoded < run.packets {
        let k = run.encoded as int;
        mul::lemma_mul_inequality(k + 1, run.packets as int, size);
        mul::lemma_mul_nonnegative(k, size);
        assert((k + 1) * size == k * size + size) by (nonlinear_arith);
        if next_packet(sender) is Ok {
            let options = next_packet(sender)->Ok_0;
            let payload = packet_payload(sender.pending, size as nat, k);
            audio::law_what_can_be_made_a_packet(options, payload);
            audio::law_packets_carry_the_options(options, payload);
        }
    }
}

/// What a run begins with: nothing where the time is not told or the size of a packet cannot
/// be counted; otherwise as many packets as the pending bytes fill.
pub proof fn law_runs_begin_with_the_full_packets(
    sender: AudioSender,
    stored_at: Seq<char>,
    finishing: bool,
)
    requires
        in_order(sender),
        sender.config.channels * sender.config.bytes_per_sample <= usize::MAX,
    ensures
        ({
            let config = sender.config;
            let size = config.channels * config.bytes_per_sample * config.packet_duration_ticks;
            let held = sender.pending.len();
            let (outcome, now) = begin(sender, stored_at, finishing);
            &&& now.pending == sender.pending
            &&& now.config == sender.config
            &&& now.next_packet_id == sender.next_packet_id
            &&& now.next_pts_ticks == sender.next_pts_ticks
            &&& stored_at.len() == 0 ==> now.run is None && outcome == Err::<
                AudioStep,
                MediaFault,
            >(MediaFault::Refused(Refusal::StoredAtEmpty))
            &&& stored_at.len() > 0 && size > usize::MAX ==> now.run is None && outcome == Err::<
                AudioStep,
                MediaFault,
            >(MediaFault::Refused(Refusal::BytesPerPacketOverflow))
            &&& stored_at.len() > 0 && size <= usize::MAX && held < size ==> {
                &&& now.run is None
                &&& outcome == if finishing && held > 0 {
                    Err::<AudioStep, MediaFault>(
                        MediaFault::Refused(Refusal::TrailingBytes(held as usize)),
                    )
                } else {
                    Ok(AudioStep::Done(Seq::empty()))
                }
            }
            &&& stored_at.len() > 0 && size <= usize::MAX && held >= size ==> {
                &&& outcome is Ok <==> sender.next_pts_ticks + config.deadline_delay_ticks
                    <= 0x7fff_ffff_ffff_ffff
                &&& outcome is Err ==> now.run is None && outcome == Err::<AudioStep, MediaFault>(
                    MediaFault::Refused(Refusal::AudioDeadlineOverflow),
                )
            }
            &&& stored_at.len() > 0 && size <= usize::MAX && held >= size && outcome is Ok ==> {
                &&& outcome->Ok_0 is Packet
                &&& now.run is Some
                &&& now.run->0.packets * size <= held < (now.run->0.packets + 1) * size
                &&& now.run->0.encoded == 0
                &&& now.run->0.payloads.len() == 0
                &&& now.run->0.stored_at == stored_at
                &&& now.run->0.finishing == finishing
            }
        }),
{
    let config = sender.config;
    let size = packet_bytes(config) as int;
    let held = sender.pending.len() as int;
    law_packets_hold_whole_samples(config);
    lemma_packets_hold_bytes(config);
    div_mod::lemma_fundamental_div_mod(held, size);
    let n = held / size;
    assert(n * size == size * n) by (nonlinear_arith);
    assert((n + 1) * size == n * size + size) by (nonlinear_arith);
    if held < size {
        assert(n == 0) by {
            if n >= 1 {
                mul::lemma_mul_inequality(1, n, size);
            }
            div_mod::lemma_div_pos_is_pos(held, size);
        }
    } else {
        assert(n > 0) by {
            if n <= 0 {
                assert(n * size <= 0) by (nonlinear_arith)
                    requires
                        n <= 0,
                        size > 0,
                ;
            }
        }
        let begun = AudioSender {
            run: Some(
                AudioRun {
                    packets: n as nat,
                    encoded: 0,
                    payloads: Seq::empty(),
                    stored_at,
                    finishing,
                },
            ),
            ..sender
        };
        if size <= usize::MAX {
            law_steps_give_out_the_next_packet(begun);
        }
    }
}

/// A push puts its bytes behind the pending ones. It fails, keeping them, where they become
/// more than may be pending, and otherwise begins a run before the end of the stream.
pub proof fn law_pushes_fill_the_pending_bytes(
    sender: AudioSender,
    stored_at: Seq<char>,
    bytes: Seq<u8>,
)
    ensures
        ({
            let filled = AudioSender { pending: sender.pending + bytes, run: None, ..sender };
            pushed(sender, stored_at, bytes) == if sender.pending.len() + bytes.len()
                > sender.config.max_pending_bytes {
                (
                    Err::<AudioStep, MediaFault>(
                        MediaFault::Refused(
                            Refusal::AudioPendingExceeded(sender.config.max_pending_bytes),
                        ),
                    ),
                    filled,
                )
            } else {
                begin(filled, stored_at, false)
            }
        }),
{
}

/// A packet that is encoded moves the sender on by one packet: its id by one, its time by a
/// packet duration, its payloads by the reply. That takes a good reply, an id and a time
/// that can be represented.
pub proof fn law_encoded_packets_move_the_sender_on(
    sender: AudioSender,
    channel: Seq<char>,
    reply: Result<Vec<u8>, String>,
)
    requires
        sender.run is Some,
    ensures
        ({
            let run = sender.run->0;
            let (outcome, now) = encoded(sender, channel, reply);
            let next = AudioSender {
                next_packet_id: (sender.next_packet_id + 1) as u64,
                next_pts_ticks: (sender.next_pts_ticks
                    + sender.config.packet_duration_ticks) as i64,
                run: Some(
                    AudioRun {
                        encoded: run.encoded + 1,
                        payloads: run.payloads.push(
                            SendPayload { channel_id: channel, payload: reply->Ok_0@ },
                        ),
                        ..run
                    },
                ),
                ..sender
            };
            &&& reply is Err ==> {
                &&& outcome == Err::<AudioStep, MediaFault>(MediaFault::Wire(reply->Err_0@))
                &&& now == (AudioSender { run: None, ..sender })
            }
            &&& reply is Ok && sender.next_packet_id == 0xffff_ffff_ffff_ffff ==> {
                &&& outcome == Err::<AudioStep, MediaFault>(
                    MediaFault::Refused(Refusal::AudioPacketIdOverflow),
                )
                &&& now == (AudioSender { run: None, ..sender })
            }
            &&& reply is Ok && sender.next_packet_id < 0xffff_ffff_ffff_ffff
                && sender.next_pts_ticks + sender.config.packet_duration_ticks
                > 0x7fff_ffff_ffff_ffff ==> {
                &&& outcome == Err::<AudioStep, MediaFault>(
                    MediaFault::Refused(Refusal::AudioPtsOverflow),
                )
                &&& now == (AudioSender {
                    next_packet_id: (sender.next_packet_id + 1) as u64,
                    run: None,
                    ..sender
                })
            }
            &&& reply is Ok && sender.next_packet_id < 0xffff_ffff_ffff_ffff
                && sender.next_pts_ticks + sender.config.packet_duration_ticks
                <= 0x7fff_ffff_ffff_ffff ==> (outcome, now) == step(next)
        }),
{
}

/// The view of an outcome shows what it holds.
pub proof fn law_outcomes_show_what_they_hold(outcome: Result<AudioSendStep, MediaError>)
    ensures
        match outcome {
            Ok(AudioSendStep::Packet(batch)) => outcome_view(outcome) == Ok::<
                AudioStep,
                MediaFault,
            >(AudioStep::Packet(batch@)),
            Ok(AudioSendStep::Done(payloads)) => {
                &&& outcome_view(outcome) is Ok
                &&& outcome_view(outcome)->Ok_0 is Done
                &&& outcome_view(outcome)->Ok_0->Done_0.len() == payloads@.len()
                &&& forall|i: int|
                    0 <= i < payloads@.len() ==> #[trigger] outcome_view(outcome)->Ok_0->Done_0[i]
                        == payloads@[i]@
            },
            Err(error) => outcome_view(outcome) == Err::<AudioStep, MediaFault>(error@),
        },
{
}

} // verus!
