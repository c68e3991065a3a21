//! Why a media operation did not succeed.

use vstd::prelude::*;

use crate::codec::VideoFamily;
use crate::text;

verus! {

/// A rule that an input did not meet.
#[derive(Clone, Copy, Debug, PartialEq, Eq, Structural)]
pub enum Refusal {
    Av1IsNotAnnexB,
    SenderCodec,
    NoStartCodes(VideoFamily),
    NoNalPayloads(VideoFamily),
    StreamIdEmpty,
    SessionIdEmpty,
    CodecEmpty,
    StoredAtEmpty,
    SourceRuntimeIdEmpty,
    SourceRoleEmpty,
    ReceiverIdEmpty,
    ObservedAtEmpty,
    FrameDurationZero,
    PacketDurationZero,
    VideoTimebaseZero,
    AudioTimebaseZero,
    DeadlineDelayNegative,
    MaxPayloadZero,
    MaxPendingZero,
    ChannelsZero,
    BytesPerSampleZero,
    VideoPendingExceeded(usize),
    AudioPendingExceeded(usize),
    VideoDeadlineOverflow,
    VideoFrameIdOverflow,
    VideoPtsOverflow,
    AudioDeadlineOverflow,
    AudioPacketIdOverflow,
    AudioPtsOverflow,
    BytesPerPacketOverflow,
    TrailingBytes(usize),
    VideoDurationZero,
    VideoDeadlineBeforePts,
    AccessUnitEmpty,
    TooManyChunks,
    ParityIncomplete { expected: u16, received: usize },
    ParityMixedMetadata,
    ParityDuplicateChunk(u16),
    ParityMissingChunk(u16),
    ParityLastChunkTooLong,
    ParityChunkTooLong,
    ReplyCount { records: usize, replies: usize },
    AudioDurationZero,
    AudioDeadlineBeforePts,
    AudioPayloadEmpty,
    BufferStreamIdEmpty,
    BufferSessionIdEmpty,
    BufferCodecEmpty,
    BufferTimebaseZero,
    BufferMixedMetadata,
    BufferPayloadEmpty,
    BufferDuplicatePacket(u64),
    BufferStalePacket { packet_id: u64, next_packet_id: u64 },
    JitterNegative,
    DecodeQueueNegative,
}

/// The error of a media operation.
#[derive(Debug, PartialEq, Eq)]
pub enum MediaError {
    /// An input broke a rule of this library.
    Refused(Refusal),
    /// The codec name stands for no Annex B codec.
    UnsupportedCodec(String),
    /// The media wire layer refused a value, in its own words.
    Wire(String),
}

/// What a `MediaError` says, with its texts as sequences of characters.
pub enum MediaFault {
    Refused(Refusal),
    UnsupportedCodec(Seq<char>),
    Wire(Seq<char>),
}

impl View for MediaError {
    type V = MediaFault;

    open spec fn view(&self) -> MediaFault {
        match self {
            MediaError::Refused(refusal) => MediaFault::Refused(*refusal),
            MediaError::UnsupportedCodec(codec) => MediaFault::UnsupportedCodec(codec@),
            MediaError::Wire(text) => MediaFault::Wire(text@),
        }
    }
}

/// The name by which messages call a video family.
pub open spec fn family_name(family: VideoFamily) -> Seq<char> {
    match family {
        VideoFamily::H264 => "H.264"@,
        VideoFamily::H265 => "H.265"@,
    }
}

/// The message for a broken rule.
pub open spec fn refusal_text(refusal: Refusal) -> Seq<char> {
    match refusal {
        Refusal::Av1IsNotAnnexB =>
            "AV1 access unit splitting is not Annex B; provide an AV1 OBU packetizer"@,
        Refusal::SenderCodec => "Annex B stream sender requires H.264/AVC or H.265/HEVC codec"@,
        Refusal::NoStartCodes(family) => family_name(family) + " Annex B stream has no start codes"@,
        Refusal::NoNalPayloads(family) => family_name(family)
            + " Annex B stream has no NAL payloads"@,
        Refusal::StreamIdEmpty => "stream_id must be non-empty"@,
        Refusal::SessionIdEmpty => "session_id must be non-empty"@,
        Refusal::CodecEmpty => "codec must be non-empty"@,
        Refusal::StoredAtEmpty => "stored_at must be non-empty"@,
        Refusal::SourceRuntimeIdEmpty => "source_runtime_id must be non-empty"@,
        Refusal::SourceRoleEmpty => "source_role must be non-empty"@,
        Refusal::ReceiverIdEmpty => "receiver_id must be non-empty"@,
        Refusal::ObservedAtEmpty => "observed_at must be non-empty"@,
        Refusal::FrameDurationZero => "frame_duration_ticks must be greater than zero"@,
        Refusal::PacketDurationZero => "packet_duration_ticks must be greater than zero"@,
        Refusal::VideoTimebaseZero => "video timebase must be non-zero"@,
        Refusal::AudioTimebaseZero => "audio timebase must be non-zero"@,
        Refusal::DeadlineDelayNegative => "deadline_delay_ticks must be non-negative"@,
        Refusal::MaxPayloadZero => "max_payload_bytes must be greater than zero"@,
        Refusal::MaxPendingZero => "max_pending_bytes must be greater than zero"@,
        Refusal::ChannelsZero => "audio channels must be non-zero"@,
        Refusal::BytesPerSampleZero => "audio bytes_per_sample must be non-zero"@,
        Refusal::VideoPendingExceeded(limit) => "Annex B stream sender pending buffer exceeded "@
            + text::decimal_text(limit as nat) + " bytes without a complete frame"@,
        Refusal::AudioPendingExceeded(limit) => "PCM stream sender pending buffer exceeded "@
            + text::decimal_text(limit as nat) + " bytes without a complete packet"@,
        Refusal::VideoDeadlineOverflow => "video deadline_ticks overflow"@,
        Refusal::VideoFrameIdOverflow => "video frame_id overflow"@,
        Refusal::VideoPtsOverflow => "video pts_ticks overflow"@,
        Refusal::AudioDeadlineOverflow => "audio deadline_ticks overflow"@,
        Refusal::AudioPacketIdOverflow => "audio packet_id overflow"@,
        Refusal::AudioPtsOverflow => "audio pts_ticks overflow"@,
        Refusal::BytesPerPacketOverflow => "PCM stream sender bytes_per_packet overflow"@,
        Refusal::TrailingBytes(count) => "PCM stream sender finished with "@ + text::decimal_text(
            count as nat,
        ) + " trailing bytes"@,
        Refusal::VideoDurationZero => "video duration_ticks must be greater than zero"@,
        Refusal::VideoDeadlineBeforePts => "video deadline_ticks must not precede pts_ticks"@,
        Refusal::AccessUnitEmpty => "access unit payload must be non-empty"@,
        Refusal::TooManyChunks => "video access unit requires more than 65535 chunks"@,
        Refusal::ParityIncomplete { expected, received } =>
            "video parity requires all chunks: expected "@ + text::decimal_text(expected as nat)
            + ", received "@ + text::decimal_text(received as nat),
        Refusal::ParityMixedMetadata => "video parity chunks have mixed metadata"@,
        Refusal::ParityDuplicateChunk(index) => "video parity received duplicate chunk_index "@
            + text::decimal_text(index as nat),
        Refusal::ParityMissingChunk(index) => "video parity missing chunk_index "@ + text::decimal_text(
            index as nat,
        ),
        Refusal::ParityLastChunkTooLong => "video parity last chunk payload length exceeds u32"@,
        Refusal::ParityChunkTooLong => "video parity chunk payload length exceeds u32"@,
        Refusal::ReplyCount { records, replies } =>
            "media encoding requires one reply per record: expected "@ + text::decimal_text(
            records as nat,
        ) + ", received "@ + text::decimal_text(replies as nat),
        Refusal::AudioDurationZero => "audio duration_ticks must be greater than zero"@,
        Refusal::AudioDeadlineBeforePts => "audio deadline_ticks must not precede pts_ticks"@,
        Refusal::AudioPayloadEmpty => "audio packet payload must be non-empty"@,
        Refusal::BufferStreamIdEmpty => "audio packet buffer stream_id must be non-empty"@,
        Refusal::BufferSessionIdEmpty => "audio packet buffer session_id must be non-empty"@,
        Refusal::BufferCodecEmpty => "audio packet buffer codec must be non-empty"@,
        Refusal::BufferTimebaseZero => "audio packet buffer timebase must be non-zero"@,
        Refusal::BufferMixedMetadata => "audio packet buffer received mixed stream metadata"@,
        Refusal::BufferPayloadEmpty => "audio packet buffer payload must be non-empty"@,
        Refusal::BufferDuplicatePacket(packet_id) => "audio packet buffer has duplicate packet_id "@
            + text::decimal_text(packet_id as nat),
        Refusal::BufferStalePacket { packet_id, next_packet_id } =>
            "audio packet buffer received stale packet_id "@ + text::decimal_text(packet_id as nat)
            + " before next expected "@ + text::decimal_text(next_packet_id as nat),
        Refusal::JitterNegative => "jitter_us must be non-negative"@,
        Refusal::DecodeQueueNegative => "decode_queue_us must be non-negative"@,
    }
}

/// The message for an error.
pub open spec fn fault_text(fault: MediaFault) -> Seq<char> {
    match fault {
        MediaFault::Refused(refusal) => refusal_text(refusal),
        MediaFault::UnsupportedCodec(codec) => "unsupported Annex B video codec "@ + codec,
        MediaFault::Wire(text) => text,
    }
}

fn text_around(before: &str, number: u64, after: &str) -> (text: String)
    ensures
        text@ == before@ + text::decimal_text(number as nat) + after@,
{
    let mut text = before.to_owned();
    text.append(text::decimal(number).as_str());
    text.append(after);
    text
}

fn text_ending_in(before: &str, number: u64) -> (text: String)
    ensures
        text@ == before@ + text::decimal_text(number as nat),
{
    let mut text = before.to_owned();
    text.append(text::decimal(number).as_str());
    text
}

fn text_with_two(before: &str, first: u64, between: &str, second: u64) -> (text: String)
    ensures
        text@ == before@ + text::decimal_text(first as nat) + between@ + text::decimal_text(second as nat),
{
    let mut text = text_around(before, first, between);
    text.append(text::decimal(second).as_str());
    text
}

fn family_text(family: VideoFamily, after: &str) -> (text: String)
    ensures
        text@ == family_name(family) + after@,
{
    let mut text = match family {
        VideoFamily::H264 => "H.264".to_owned(),
        VideoFamily::H265 => "H.265".to_owned(),
    };
    text.append(after);
    text
}

impl Refusal {
    /// The message for this broken rule.
    pub fn message(&self) -> (text: String)
        ensures
            text@ == refusal_text(*self),
    {
        match *self {
            Refusal::Av1IsNotAnnexB =>
                "AV1 access unit splitting is not Annex B; provide an AV1 OBU packetizer".to_owned(),
            Refusal::SenderCodec =>
                "Annex B stream sender requires H.264/AVC or H.265/HEVC codec".to_owned(),
            Refusal::NoStartCodes(family) => family_text(
                family,
                " Annex B stream has no start codes",
            ),
            Refusal::NoNalPayloads(family) => family_text(
                family,
                " Annex B stream has no NAL payloads",
            ),
            Refusal::StreamIdEmpty => "stream_id must be non-empty".to_owned(),
            Refusal::SessionIdEmpty => "session_id must be non-empty".to_owned(),
            Refusal::CodecEmpty => "codec must be non-empty".to_owned(),
            Refusal::StoredAtEmpty => "stored_at must be non-empty".to_owned(),
            Refusal::SourceRuntimeIdEmpty => "source_runtime_id must be non-empty".to_owned(),
            Refusal::SourceRoleEmpty => "source_role must be non-empty".to_owned(),
            Refusal::ReceiverIdEmpty => "receiver_id must be non-empty".to_owned(),
            Refusal::ObservedAtEmpty => "observed_at must be non-empty".to_owned(),
            Refusal::FrameDurationZero => {
                "frame_duration_ticks must be greater than zero".to_owned()
            },
            Refusal::PacketDurationZero => {
                "packet_duration_ticks must be greater than zero".to_owned()
            },
            Refusal::VideoTimebaseZero => "video timebase must be non-zero".to_owned(),
            Refusal::AudioTimebaseZero => "audio timebase must be non-zero".to_owned(),
            Refusal::DeadlineDelayNegative => {
                "deadline_delay_ticks must be non-negative".to_owned()
            },
            Refusal::MaxPayloadZero => "max_payload_bytes must be greater than zero".to_owned(),
            Refusal::MaxPendingZero => "max_pending_bytes must be greater than zero".to_owned(),
            Refusal::ChannelsZero => "audio channels must be non-zero".to_owned(),
            Refusal::BytesPerSampleZero => "audio bytes_per_sample must be non-zero".to_owned(),
            Refusal::VideoPendingExceeded(limit) => text_around(
                "Annex B stream sender pending buffer exceeded ",
                limit as u64,
                " bytes without a complete frame",
            ),
            Refusal::AudioPendingExceeded(limit) => text_around(
                "PCM stream sender pending buffer exceeded ",
                limit as u64,
                " bytes without a complete packet",
            ),
            Refusal::VideoDeadlineOverflow => "video deadline_ticks overflow".to_owned(),
            Refusal::VideoFrameIdOverflow => "video frame_id overflow".to_owned(),
            Refusal::VideoPtsOverflow => "video pts_ticks overflow".to_owned(),
            Refusal::AudioDeadlineOverflow => "audio deadline_ticks overflow".to_owned(),
            Refusal::AudioPacketIdOverflow => "audio packet_id overflow".to_owned(),
            Refusal::AudioPtsOverflow => "audio pts_ticks overflow".to_owned(),
            Refusal::BytesPerPacketOverflow => {
                "PCM stream sender bytes_per_packet overflow".to_owned()
            },
            Refusal::TrailingBytes(count) => text_around(
                "PCM stream sender finished with ",
                count as u64,
                " trailing bytes",
            ),
            Refusal::VideoDurationZero => {
                "video duration_ticks must be greater than zero".to_owned()
            },
            Refusal::VideoDeadlineBeforePts => {
                "video deadline_ticks must not precede pts_ticks".to_owned()
            },
            Refusal::AccessUnitEmpty => "access unit payload must be non-empty".to_owned(),
            Refusal::TooManyChunks => {
                "video access unit requires more than 65535 chunks".to_owned()
            },
            Refusal::ParityIncomplete { expected, received } => text_with_two(
                "video parity requires all chunks: expected ",
                expected as u64,
                ", received ",
                received as u64,
            ),
            Refusal::ParityMixedMetadata => "video parity chunks have mixed metadata".to_owned(),
            Refusal::ParityDuplicateChunk(index) => text_ending_in(
                "video parity received duplicate chunk_index ",
                index as u64,
            ),
            Refusal::ParityMissingChunk(index) => text_ending_in(
                "video parity missing chunk_index ",
                index as u64,
            ),
            Refusal::ParityLastChunkTooLong => {
                "video parity last chunk payload length exceeds u32".to_owned()
            },
            Refusal::ParityChunkTooLong => {
                "video parity chunk payload length exceeds u32".to_owned()
            },
            Refusal::ReplyCount { records, replies } => text_with_two(
                "media encoding requires one reply per record: expected ",
                records as u64,
                ", received ",
                replies as u64,
            ),
            Refusal::AudioDurationZero => {
                "audio duration_ticks must be greater than zero".to_owned()
            },
            Refusal::AudioDeadlineBeforePts => {
                "audio deadline_ticks must not precede pts_ticks".to_owned()
            },
            Refusal::AudioPayloadEmpty => "audio packet payload must be non-empty".to_owned(),
            Refusal::BufferStreamIdEmpty => {
                "audio packet buffer stream_id must be non-empty".to_owned()
            },
            Refusal::BufferSessionIdEmpty => {
                "audio packet buffer session_id must be non-empty".to_owned()
            },
            Refusal::BufferCodecEmpty => "audio packet buffer codec must be non-empty".to_owned(),
            Refusal::BufferTimebaseZero => {
                "audio packet buffer timebase must be non-zero".to_owned()
            },
            Refusal::BufferMixedMetadata => {
                "audio packet buffer received mixed stream metadata".to_owned()
            },
            Refusal::BufferPayloadEmpty => {
                "audio packet buffer payload must be non-empty".to_owned()
            },
            Refusal::BufferDuplicatePacket(packet_id) => text_ending_in(
                "audio packet buffer has duplicate packet_id ",
                packet_id,
            ),
            Refusal::BufferStalePacket { packet_id, next_packet_id } => text_with_two(
                "audio packet buffer received stale packet_id ",
                packet_id,
                " before next expected ",
                next_packet_id,
            ),
            Refusal::JitterNegative => "jitter_us must be non-negative".to_owned(),
            Refusal::DecodeQueueNegative => "decode_queue_us must be non-negative".to_owned(),
        }
    }
}

impl MediaError {
    /// The message for this error.
    pub fn message(&self) -> (text: String)
        ensures
            text@ == fault_text(self@),
    {
        match self {
            MediaError::Refused(refusal) => refusal.message(),
            MediaError::UnsupportedCodec(codec) => {
                let mut text = "unsupported Annex B video codec ".to_owned();
                text.append(codec.as_str());
                text
            },
            MediaError::Wire(text) => text.clone(),
        }
    }
}

// Laws

/// The view of an error says which one it is, and with which text.
pub proof fn law_errors_show_what_they_say(error: MediaError)
    ensures
        match error {
            MediaError::Refused(refusal) => error@ == MediaFault::Refused(refusal),
            MediaError::UnsupportedCodec(codec) => error@ == MediaFault::UnsupportedCodec(codec@),
            MediaError::Wire(text) => error@ == MediaFault::Wire(text@),
        },
{
}

/// The messages that tell a number tell all of its digits, where they belong.
pub proof fn law_messages_tell_the_numbers(limit: usize, first: u64, second: u64, index: u16)
    ensures
        refusal_text(Refusal::VideoPendingExceeded(limit))
            == "Annex B stream sender pending buffer exceeded "@ + text::decimal_text(limit as nat)
            + " bytes without a complete frame"@,
        refusal_text(Refusal::AudioPendingExceeded(limit))
            == "PCM stream sender pending buffer exceeded "@ + text::decimal_text(limit as nat)
            + " bytes without a complete packet"@,
        refusal_text(Refusal::TrailingBytes(limit)) == "PCM stream sender finished with "@
            + text::decimal_text(limit as nat) + " trailing bytes"@,
        refusal_text(Refusal::ParityIncomplete { expected: index, received: limit })
            == "video parity requires all chunks: expected "@ + text::decimal_text(index as nat)
            + ", received "@ + text::decimal_text(limit as nat),
        refusal_text(Refusal::ParityDuplicateChunk(index))
            == "video parity received duplicate chunk_index "@ + text::decimal_text(index as nat),
        refusal_text(Refusal::ParityMissingChunk(index)) == "video parity missing chunk_index "@
            + text::decimal_text(index as nat),
        refusal_text(Refusal::BufferDuplicatePacket(first))
            == "audio packet buffer has duplicate packet_id "@ + text::decimal_text(first as nat),
        refusal_text(Refusal::BufferStalePacket { packet_id: first, next_packet_id: second })
            == "audio packet buffer received stale packet_id "@ + text::decimal_text(first as nat)
            + " before next expected "@ + text::decimal_text(second as nat),
{
}

/// An error of the media wire layer is told in its own words, and an unknown codec by the
/// name that was given.
pub proof fn law_messages_tell_the_words(text: Seq<char>, refusal: Refusal)
    ensures
        fault_text(MediaFault::Wire(text)) == text,
        fault_text(MediaFault::UnsupportedCodec(text)) == "unsupported Annex B video codec "@
            + text,
        fault_text(MediaFault::Refused(refusal)) == refusal_text(refusal),
{
}

} // verus!
