//! The media side of the daemon in one place: splitting, packetizing, parity, sending and
//! buffering.

pub use crate::annexb::{
    h264_annex_b_access_units, h265_annex_b_access_units, video_annex_b_access_units,
    VideoAccessUnit,
};
pub use crate::audio::{packetize_audio_packet, AudioPacketizeOptions};
pub use crate::audio_buffer::AudioPacketBuffer;
pub use crate::audio_sender::{AudioPcmStreamSendConfig, AudioPcmStreamSendState, AudioSendStep};
pub use crate::error::{MediaError, Refusal};
pub use crate::feedback::{
    build_receiver_feedback, ReceiverFeedbackDraft, ReceiverFeedbackOptions,
};
pub use crate::parity::build_video_parity_shards;
pub use crate::records::{
    GameCultMediaAudioPacketRecord, GameCultMediaReceiverFeedbackRecord,
    GameCultMediaVideoAccessUnitRecord, GameCultMediaVideoParityShardRecord,
    GameCultMediaWireRecord,
};
pub use crate::video::{
    packetize_video_access_unit, packetize_video_annex_b_stream, VideoAnnexBStreamPacketizeOptions,
    VideoFramePacketizeOptions,
};
pub use crate::video_sender::{
    VideoAnnexBStreamSendConfig, VideoAnnexBStreamSendState, VideoSendStep,
};
pub use crate::wire::{
    audio_packet_send_payload, encode_audio_packet_wire_record, encode_media_wire_records,
    encode_video_annex_b_stream_wire_records, video_annex_b_stream_send_payloads,
    AudioPacketWireOptions, MediaWireBatch, MediaWireProvenance, MuninnMediaSendPayload,
    VideoAnnexBStreamWireOptions, VideoWireJob, MUNINN_MEDIA_PRODUCER,
};
