use muninn_daemon::codec::VideoFamily;
use muninn_daemon::error::{MediaError, Refusal};

#[test]
fn refusals_have_their_messages() {
    for (refusal, text) in [
        (
            Refusal::Av1IsNotAnnexB,
            "AV1 access unit splitting is not Annex B; provide an AV1 OBU packetizer",
        ),
        (
            Refusal::SenderCodec,
            "Annex B stream sender requires H.264/AVC or H.265/HEVC codec",
        ),
        (
            Refusal::NoStartCodes(VideoFamily::H265),
            "H.265 Annex B stream has no start codes",
        ),
        (
            Refusal::NoNalPayloads(VideoFamily::H264),
            "H.264 Annex B stream has no NAL payloads",
        ),
        (Refusal::StreamIdEmpty, "stream_id must be non-empty"),
        (Refusal::SessionIdEmpty, "session_id must be non-empty"),
        (Refusal::CodecEmpty, "codec must be non-empty"),
        (Refusal::StoredAtEmpty, "stored_at must be non-empty"),
        (Refusal::SourceRuntimeIdEmpty, "source_runtime_id must be non-empty"),
        (Refusal::SourceRoleEmpty, "source_role must be non-empty"),
        (Refusal::ReceiverIdEmpty, "receiver_id must be non-empty"),
        (Refusal::ObservedAtEmpty, "observed_at must be non-empty"),
        (Refusal::FrameDurationZero, "frame_duration_ticks must be greater than zero"),
        (Refusal::PacketDurationZero, "packet_duration_ticks must be greater than zero"),
        (Refusal::VideoTimebaseZero, "video timebase must be non-zero"),
        (Refusal::AudioTimebaseZero, "audio timebase must be non-zero"),
        (Refusal::DeadlineDelayNegative, "deadline_delay_ticks must be non-negative"),
        (Refusal::MaxPayloadZero, "max_payload_bytes must be greater than zero"),
        (Refusal::MaxPendingZero, "max_pending_bytes must be greater than zero"),
        (Refusal::ChannelsZero, "audio channels must be non-zero"),
        (Refusal::BytesPerSampleZero, "audio bytes_per_sample must be non-zero"),
        (
            Refusal::VideoPendingExceeded(40),
            "Annex B stream sender pending buffer exceeded 40 bytes without a complete frame",
        ),
        (
            Refusal::AudioPendingExceeded(0),
            "PCM stream sender pending buffer exceeded 0 bytes without a complete packet",
        ),
        (Refusal::VideoDeadlineOverflow, "video deadline_ticks overflow"),
        (Refusal::VideoFrameIdOverflow, "video frame_id overflow"),
        (Refusal::VideoPtsOverflow, "video pts_ticks overflow"),
        (Refusal::AudioDeadlineOverflow, "audio deadline_ticks overflow"),
        (Refusal::AudioPacketIdOverflow, "audio packet_id overflow"),
        (Refusal::AudioPtsOverflow, "audio pts_ticks overflow"),
        (Refusal::BytesPerPacketOverflow, "PCM stream sender bytes_per_packet overflow"),
        (Refusal::TrailingBytes(7), "PCM stream sender finished with 7 trailing bytes"),
        (Refusal::VideoDurationZero, "video duration_ticks must be greater than zero"),
        (Refusal::VideoDeadlineBeforePts, "video deadline_ticks must not precede pts_ticks"),
        (Refusal::AccessUnitEmpty, "access unit payload must be non-empty"),
        (Refusal::TooManyChunks, "video access unit requires more than 65535 chunks"),
        (
            Refusal::ParityIncomplete { expected: 12, received: 3 },
            "video parity requires all chunks: expected 12, received 3",
        ),
        (Refusal::ParityMixedMetadata, "video parity chunks have mixed metadata"),
        (
            Refusal::ParityDuplicateChunk(5),
            "video parity received duplicate chunk_index 5",
        ),
        (Refusal::ParityMissingChunk(65_535), "video parity missing chunk_index 65535"),
        (
            Refusal::ParityLastChunkTooLong,
            "video parity last chunk payload length exceeds u32",
        ),
        (Refusal::ParityChunkTooLong, "video parity chunk payload length exceeds u32"),
        (
            Refusal::ReplyCount { records: 6, replies: 4 },
            "media encoding requires one reply per record: expected 6, received 4",
        ),
        (Refusal::AudioDurationZero, "audio duration_ticks must be greater than zero"),
        (Refusal::AudioDeadlineBeforePts, "audio deadline_ticks must not precede pts_ticks"),
        (Refusal::AudioPayloadEmpty, "audio packet payload must be non-empty"),
        (
            Refusal::BufferStreamIdEmpty,
            "audio packet buffer stream_id must be non-empty",
        ),
        (
            Refusal::BufferSessionIdEmpty,
            "audio packet buffer session_id must be non-empty",
        ),
        (Refusal::BufferCodecEmpty, "audio packet buffer codec must be non-empty"),
        (Refusal::BufferTimebaseZero, "audio packet buffer timebase must be non-zero"),
        (
            Refusal::BufferMixedMetadata,
            "audio packet buffer received mixed stream metadata",
        ),
        (Refusal::BufferPayloadEmpty, "audio packet buffer payload must be non-empty"),
        (
            Refusal::BufferDuplicatePacket(9),
            "audio packet buffer has duplicate packet_id 9",
        ),
        (
            Refusal::BufferStalePacket { packet_id: 3, next_packet_id: 10 },
            "audio packet buffer received stale packet_id 3 before next expected 10",
        ),
        (Refusal::JitterNegative, "jitter_us must be non-negative"),
        (Refusal::DecodeQueueNegative, "decode_queue_us must be non-negative"),
    ] {
        assert_eq!(refusal.message(), text);
        assert_eq!(MediaError::Refused(refusal).message(), text);
    }
    assert_eq!(
        MediaError::UnsupportedCodec("vp9".to_string()).message(),
        "unsupported Annex B video codec vp9"
    );
    assert_eq!(MediaError::Wire("as it came".to_string()).message(), "as it came");
}
