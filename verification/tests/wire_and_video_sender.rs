use muninn_daemon::audio::AudioPacketizeOptions;
use muninn_daemon::error::MediaError;
use muninn_daemon::records::GameCultMediaWireRecord;
use muninn_daemon::video::{packetize_video_annex_b_stream, VideoAnnexBStreamPacketizeOptions};
use muninn_daemon::video_sender::{
    VideoAnnexBStreamSendConfig, VideoAnnexBStreamSendState, VideoSendStep,
};
use muninn_daemon::wire::{
    audio_packet_send_payload, collect_wire_payloads, encode_audio_packet_wire_record,
    encode_media_wire_records, encode_video_annex_b_stream_wire_records,
    video_annex_b_stream_send_payloads, AudioPacketWireOptions, MediaWireBatch,
    MuninnMediaSendPayload, VideoAnnexBStreamWireOptions, VideoWireJob,
};

type Result<T> = std::result::Result<T, MediaError>;

const MUNINN_MEDIA_RUDP_CHANNEL: &str = "media";

/// Stands in for the media wire layer: accepts every chunk, and encodes a record as the
/// number under which it can be found again.
struct Wire {
    encoded: Vec<GameCultMediaWireRecord>,
}

impl Wire {
    fn new() -> Self {
        Wire { encoded: Vec::new() }
    }

    fn judge(&self, job: &VideoWireJob) -> Vec<std::result::Result<(), String>> {
        job.chunks.iter().map(|_| Ok(())).collect()
    }

    fn encode(&mut self, batch: &MediaWireBatch) -> Vec<std::result::Result<Vec<u8>, String>> {
        batch
            .records
            .iter()
            .map(|record| {
                self.encoded.push(record.clone());
                Ok((self.encoded.len() as u64 - 1).to_le_bytes().to_vec())
            })
            .collect()
    }

    fn decode(&self, payload: &[u8]) -> GameCultMediaWireRecord {
        let mut number = [0_u8; 8];
        number.copy_from_slice(payload);
        self.encoded[u64::from_le_bytes(number) as usize].clone()
    }

    /// Encodes the frames of a run until it is done.
    fn run(
        &mut self,
        sender: &mut VideoAnnexBStreamSendState,
        first: VideoSendStep,
    ) -> Result<Vec<MuninnMediaSendPayload>> {
        let mut step = first;
        loop {
            match step {
                VideoSendStep::Done(payloads) => return Ok(payloads),
                VideoSendStep::Frame(job) => {
                    let batch = job.wire_batch(&self.judge(&job))?;
                    let replies = self.encode(&batch);
                    step = sender.frame_encoded(MUNINN_MEDIA_RUDP_CHANNEL, replies)?;
                }
            }
        }
    }
}

fn start_code() -> [u8; 4] {
    [0, 0, 0, 1]
}

#[test]
fn media_wire_batches_annex_b_video_records() -> Result<()> {
    let mut stream = Vec::new();
    stream.extend_from_slice(&start_code());
    stream.extend_from_slice(&[0x65, 0x80]);
    stream.extend_from_slice(&start_code());
    stream.extend_from_slice(&[0x41, 0x80]);
    let records = packetize_video_annex_b_stream(
        VideoAnnexBStreamPacketizeOptions {
            stream_id: "muninn.raven.av.rudp",
            session_id: "session-1",
            codec: "h264",
            first_frame_id: 9,
            first_pts_ticks: 27_000,
            frame_duration_ticks: 3_000,
            timebase_num: 1,
            timebase_den: 90_000,
            deadline_delay_ticks: 1_800,
            max_payload_bytes: 16,
        },
        &stream,
    )?;
    let wire_records = records
        .iter()
        .cloned()
        .map(GameCultMediaWireRecord::Video)
        .collect::<Vec<_>>();

    let mut layer = Wire::new();
    let batch = encode_media_wire_records(
        wire_records.clone(),
        "2026-06-18T00:00:00Z",
        "muninn-test",
        "media-test",
    );
    let wire = collect_wire_payloads(batch.records.len(), layer.encode(&batch))?;

    assert_eq!(wire.len(), 2);
    assert_eq!(layer.decode(&wire[0]), wire_records[0]);
    assert_eq!(layer.decode(&wire[1]), wire_records[1]);
    Ok(())
}

#[test]
fn media_wire_encodes_annex_b_stream_for_sender() -> Result<()> {
    let mut stream = Vec::new();
    stream.extend_from_slice(&start_code());
    stream.extend_from_slice(&[0x65, 0x80]);
    stream.extend_from_slice(&start_code());
    stream.extend_from_slice(&[0x41, 0x80]);

    let mut layer = Wire::new();
    let job = encode_video_annex_b_stream_wire_records(
        VideoAnnexBStreamWireOptions {
            packetize: VideoAnnexBStreamPacketizeOptions {
                stream_id: "muninn.raven.av.rudp",
                session_id: "session-1",
                codec: "h264",
                first_frame_id: 9,
                first_pts_ticks: 27_000,
                frame_duration_ticks: 3_000,
                timebase_num: 1,
                timebase_den: 90_000,
                deadline_delay_ticks: 1_800,
                max_payload_bytes: 16,
            },
            stored_at: "2026-06-18T00:00:00Z",
            source_runtime_id: "muninn-test",
            source_role: "media-test",
        },
        &stream,
    )?;
    let batch = job.wire_batch(&layer.judge(&job))?;
    let wire = collect_wire_payloads(batch.records.len(), layer.encode(&batch))?;

    assert_eq!(wire.len(), 2);
    let first = layer.decode(&wire[0]);
    let second = layer.decode(&wire[1]);
    let GameCultMediaWireRecord::Video(first) = first else {
        panic!("expected video media record");
    };
    let GameCultMediaWireRecord::Video(second) = second else {
        panic!("expected video media record");
    };
    assert_eq!(first.frame_id, 9);
    assert_eq!(first.deadline_ticks, 28_800);
    assert_eq!(second.frame_id, 10);
    assert_eq!(second.deadline_ticks, 31_800);
    Ok(())
}

#[test]
fn media_send_payloads_pin_video_to_media_channel() -> Result<()> {
    let mut stream = Vec::new();
    stream.extend_from_slice(&start_code());
    stream.extend_from_slice(&[0x65, 0x80]);

    let mut layer = Wire::new();
    let job = encode_video_annex_b_stream_wire_records(
        VideoAnnexBStreamWireOptions {
            packetize: VideoAnnexBStreamPacketizeOptions {
                stream_id: "muninn.raven.av.rudp",
                session_id: "session-1",
                codec: "h264",
                first_frame_id: 9,
                first_pts_ticks: 27_000,
                frame_duration_ticks: 3_000,
                timebase_num: 1,
                timebase_den: 90_000,
                deadline_delay_ticks: 1_800,
                max_payload_bytes: 16,
            },
            stored_at: "2026-06-18T00:00:00Z",
            source_runtime_id: "muninn-test",
            source_role: "media-test",
        },
        &stream,
    )?;
    let batch = job.wire_batch(&layer.judge(&job))?;
    let replies = layer.encode(&batch);
    let payloads = video_annex_b_stream_send_payloads(MUNINN_MEDIA_RUDP_CHANNEL, &batch, replies)?;

    assert_eq!(payloads.len(), 1);
    assert_eq!(payloads[0].channel_id, MUNINN_MEDIA_RUDP_CHANNEL);
    let GameCultMediaWireRecord::Video(record) = layer.decode(&payloads[0].payload)
    else {
        panic!("expected video media record");
    };
    assert_eq!(record.frame_id, 9);
    Ok(())
}

fn stream_send_config() -> VideoAnnexBStreamSendConfig {
    VideoAnnexBStreamSendConfig {
        stream_id: "muninn.raven.av.rudp".to_string(),
        session_id: "session-1".to_string(),
        codec: "h264".to_string(),
        first_frame_id: 9,
        first_pts_ticks: 27_000,
        frame_duration_ticks: 3_000,
        timebase_num: 1,
        timebase_den: 90_000,
        deadline_delay_ticks: 1_800,
        max_payload_bytes: 16,
        max_pending_bytes: 64,
        source_runtime_id: "muninn-test".to_string(),
        source_role: "media-test".to_string(),
    }
}

#[test]
fn annex_b_stream_send_state_emits_only_completed_frames() -> Result<()> {
    let mut first_frame = Vec::new();
    first_frame.extend_from_slice(&start_code());
    first_frame.extend_from_slice(&[0x65, 0x80]);
    let mut second_frame = Vec::new();
    second_frame.extend_from_slice(&start_code());
    second_frame.extend_from_slice(&[0x41, 0x80]);
    let mut layer = Wire::new();
    let mut sender = VideoAnnexBStreamSendState::new(stream_send_config())?;

    let step = sender.push("2026-06-18T00:00:00Z", &first_frame)?;
    let first_push = layer.run(&mut sender, step)?;

    assert!(first_push.is_empty());
    assert_eq!(sender.next_frame_id(), 9);
    assert_eq!(sender.pending_bytes(), first_frame.len());

    let step = sender.push("2026-06-18T00:00:00Z", &second_frame)?;
    let second_push = layer.run(&mut sender, step)?;

    assert_eq!(second_push.len(), 1);
    assert_eq!(second_push[0].channel_id, MUNINN_MEDIA_RUDP_CHANNEL);
    let GameCultMediaWireRecord::Video(first) =
        layer.decode(&second_push[0].payload)
    else {
        panic!("expected video media record");
    };
    assert_eq!(first.frame_id, 9);
    assert_eq!(first.pts_ticks, 27_000);
    assert!(first.keyframe);
    assert_eq!(sender.next_frame_id(), 10);
    assert_eq!(sender.pending_bytes(), second_frame.len());

    let step = sender.finish("2026-06-18T00:00:00Z")?;
    let tail = layer.run(&mut sender, step)?;

    assert_eq!(tail.len(), 1);
    let GameCultMediaWireRecord::Video(second) = layer.decode(&tail[0].payload)
    else {
        panic!("expected video media record");
    };
    assert_eq!(second.frame_id, 10);
    assert_eq!(second.pts_ticks, 30_000);
    assert_eq!(second.dependency_frame_id, Some(9));
    assert_eq!(sender.pending_bytes(), 0);
    assert_eq!(sender.next_frame_id(), 11);
    Ok(())
}

#[test]
fn annex_b_stream_send_state_rejects_non_annex_b_codecs() {
    let mut config = stream_send_config();
    config.codec = "av1".to_string();

    let error = match VideoAnnexBStreamSendState::new(config) {
        Ok(_) => panic!("AV1 must not create an Annex B stream sender"),
        Err(error) => error,
    };

    assert!(
        error.message().contains("Annex B stream sender requires H.264/AVC or H.265/HEVC codec")
    );
}

#[test]
fn annex_b_stream_send_state_rejects_unbounded_pending_bytes() -> Result<()> {
    let mut config = stream_send_config();
    config.max_pending_bytes = 4;
    let mut sender = VideoAnnexBStreamSendState::new(config)?;

    let error = sender
        .push("2026-06-18T00:00:00Z", &[0x47, 0x40, 0x00, 0x10, 0x00])
        .unwrap_err();

    assert!(
        error.message().contains("pending buffer exceeded 4 bytes")
    );
    Ok(())
}

#[test]
fn media_wire_encodes_audio_packet_for_sender() -> Result<()> {
    let mut layer = Wire::new();
    let batch = encode_audio_packet_wire_record(
        AudioPacketWireOptions {
            packetize: AudioPacketizeOptions {
                stream_id: "muninn.raven.av.rudp",
                session_id: "session-1",
                codec: "opus",
                packet_id: 12,
                pts_ticks: 48_000,
                duration_ticks: 960,
                timebase_num: 1,
                timebase_den: 48_000,
                deadline_ticks: 48_960,
            },
            stored_at: "2026-06-18T00:00:00Z",
            source_runtime_id: "muninn-test",
            source_role: "media-test",
        },
        &[0xf8, 0xff, 0xfe],
    )?;

    let wire = collect_wire_payloads(batch.records.len(), layer.encode(&batch))?;
    let decoded = layer.decode(&wire[0]);
    let GameCultMediaWireRecord::Audio(decoded) = decoded else {
        panic!("expected audio media record");
    };
    assert_eq!(decoded.packet_id, 12);
    assert_eq!(decoded.codec, "opus");
    assert_eq!(decoded.payload, vec![0xf8, 0xff, 0xfe]);
    Ok(())
}

#[test]
fn media_send_payload_pins_audio_to_media_channel() -> Result<()> {
    let mut layer = Wire::new();
    let batch = encode_audio_packet_wire_record(
        AudioPacketWireOptions {
            packetize: AudioPacketizeOptions {
                stream_id: "muninn.raven.av.rudp",
                session_id: "session-1",
                codec: "opus",
                packet_id: 12,
                pts_ticks: 48_000,
                duration_ticks: 960,
                timebase_num: 1,
                timebase_den: 48_000,
                deadline_ticks: 48_960,
            },
            stored_at: "2026-06-18T00:00:00Z",
            source_runtime_id: "muninn-test",
            source_role: "media-test",
        },
        &[0xf8, 0xff, 0xfe],
    )?;
    let reply = layer.encode(&batch).remove(0);
    let payload = audio_packet_send_payload(MUNINN_MEDIA_RUDP_CHANNEL, reply)?;

    assert_eq!(payload.channel_id, MUNINN_MEDIA_RUDP_CHANNEL);
    let GameCultMediaWireRecord::Audio(record) = layer.decode(&payload.payload)
    else {
        panic!("expected audio media record");
    };
    assert_eq!(record.packet_id, 12);
    Ok(())
}
