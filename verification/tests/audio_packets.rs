use muninn_daemon::audio::{packetize_audio_packet, AudioPacketizeOptions};
use muninn_daemon::audio_buffer::AudioPacketBuffer;
use muninn_daemon::error::MediaError;
use muninn_daemon::records::GameCultMediaAudioPacketRecord;

type Result<T> = std::result::Result<T, MediaError>;

#[test]
fn packetizes_audio_payload_into_typed_packet() -> Result<()> {
    let record = packetize_audio_packet(
        AudioPacketizeOptions {
            stream_id: "muninn.raven.av.rudp",
            session_id: "session-1",
            codec: "opus",
            packet_id: 12,
            pts_ticks: 48_000,
            duration_ticks: 960,
            timebase_num: 1,
            timebase_den: 48_000,
            deadline_ticks: 48_960,
        },
        &[0xf8, 0xff, 0xfe],
    )?;

    assert_eq!(record.stream_id, "muninn.raven.av.rudp");
    assert_eq!(record.codec, "opus");
    assert_eq!(record.packet_id, 12);
    assert_eq!(record.payload, vec![0xf8, 0xff, 0xfe]);
    Ok(())
}

#[test]
fn rejects_empty_audio_payloads() {
    let error = packetize_audio_packet(
        AudioPacketizeOptions {
            stream_id: "muninn.raven.av.rudp",
            session_id: "session-1",
            codec: "opus",
            packet_id: 12,
            pts_ticks: 48_000,
            duration_ticks: 960,
            timebase_num: 1,
            timebase_den: 48_000,
            deadline_ticks: 48_960,
        },
        &[],
    )
    .unwrap_err();

    assert!(error.message().contains("payload must be non-empty"));
}

#[test]
fn rejects_zero_duration_audio_packets() {
    let error = packetize_audio_packet(
        AudioPacketizeOptions {
            stream_id: "muninn.raven.av.rudp",
            session_id: "session-1",
            codec: "opus",
            packet_id: 12,
            pts_ticks: 48_000,
            duration_ticks: 0,
            timebase_num: 1,
            timebase_den: 48_000,
            deadline_ticks: 48_960,
        },
        &[0xf8, 0xff, 0xfe],
    )
    .unwrap_err();

    assert!(
        error.message().contains("audio duration_ticks must be greater than zero")
    );
}

#[test]
fn rejects_audio_deadline_before_pts() {
    let error = packetize_audio_packet(
        AudioPacketizeOptions {
            stream_id: "muninn.raven.av.rudp",
            session_id: "session-1",
            codec: "opus",
            packet_id: 12,
            pts_ticks: 48_000,
            duration_ticks: 960,
            timebase_num: 1,
            timebase_den: 48_000,
            deadline_ticks: 47_999,
        },
        &[0xf8, 0xff, 0xfe],
    )
    .unwrap_err();

    assert!(
        error.message().contains("audio deadline_ticks must not precede pts_ticks")
    );
}

fn audio_packet(packet_id: u64, deadline_ticks: i64) -> GameCultMediaAudioPacketRecord {
    packetize_audio_packet(
        AudioPacketizeOptions {
            stream_id: "muninn.raven.av.rudp",
            session_id: "session-1",
            codec: "opus",
            packet_id,
            pts_ticks: (packet_id as i64) * 960,
            duration_ticks: 960,
            timebase_num: 1,
            timebase_den: 48_000,
            deadline_ticks,
        },
        &[0xf8, 0xff, packet_id as u8],
    )
    .unwrap()
}

#[test]
fn audio_packet_buffer_emits_contiguous_packets_in_order() -> Result<()> {
    let mut buffer = AudioPacketBuffer::default();

    buffer.insert(audio_packet(7, 10_000))?;
    buffer.insert(audio_packet(9, 12_000))?;
    let ready = buffer.pop_ready_packets();

    assert_eq!(
        ready
            .iter()
            .map(|packet| packet.packet_id)
            .collect::<Vec<_>>(),
        vec![7]
    );
    assert_eq!(buffer.pending_packet_count(), 1);

    buffer.insert(audio_packet(8, 11_000))?;
    let ready = buffer.pop_ready_packets();

    assert_eq!(
        ready
            .iter()
            .map(|packet| packet.packet_id)
            .collect::<Vec<_>>(),
        vec![8, 9]
    );
    assert_eq!(buffer.pending_packet_count(), 0);
    Ok(())
}

#[test]
fn audio_packet_buffer_tracks_lowest_packet_before_first_emit() -> Result<()> {
    let mut buffer = AudioPacketBuffer::default();

    buffer.insert(audio_packet(9, 12_000))?;
    buffer.insert(audio_packet(7, 10_000))?;
    buffer.insert(audio_packet(8, 11_000))?;

    let ready = buffer.pop_ready_packets();

    assert_eq!(
        ready
            .iter()
            .map(|packet| packet.packet_id)
            .collect::<Vec<_>>(),
        vec![7, 8, 9]
    );
    assert_eq!(buffer.pending_packet_count(), 0);
    Ok(())
}

#[test]
fn audio_packet_buffer_rejects_stale_packets_after_emit() -> Result<()> {
    let mut buffer = AudioPacketBuffer::default();

    buffer.insert(audio_packet(7, 10_000))?;
    assert_eq!(buffer.pop_ready_packets().len(), 1);
    let error = buffer.insert(audio_packet(6, 9_000)).unwrap_err();

    assert!(error.message().contains("stale packet_id"));
    Ok(())
}

#[test]
fn audio_packet_buffer_expires_late_packets() -> Result<()> {
    let mut buffer = AudioPacketBuffer::default();

    buffer.insert(audio_packet(7, 10_000))?;
    buffer.insert(audio_packet(8, 12_000))?;

    let expired = buffer.expire_late_packets(10_000);

    assert_eq!(expired, vec![7]);
    assert_eq!(buffer.pending_packet_count(), 1);
    assert_eq!(
        buffer
            .pop_ready_packets()
            .into_iter()
            .map(|packet| packet.packet_id)
            .collect::<Vec<_>>(),
        vec![8]
    );
    Ok(())
}

#[test]
fn audio_packet_buffer_rejects_mixed_stream_metadata() -> Result<()> {
    let mut buffer = AudioPacketBuffer::default();
    let mut mixed = audio_packet(8, 12_000);
    mixed.session_id = "session-2".to_string();

    buffer.insert(audio_packet(7, 10_000))?;
    let error = buffer.insert(mixed).unwrap_err();

    assert!(error.message().contains("mixed stream metadata"));
    Ok(())
}
