use muninn_daemon::annexb::{
    h264_annex_b_access_units, h265_annex_b_access_units, VideoAccessUnit,
};
use muninn_daemon::audio_buffer::AudioPacketBuffer;
use muninn_daemon::audio_sender::{
    AudioPcmStreamSendConfig, AudioPcmStreamSendState, AudioSendStep,
};
use muninn_daemon::error::{MediaError, Refusal};
use muninn_daemon::records::{
    GameCultMediaAudioPacketRecord, GameCultMediaVideoAccessUnitRecord, GameCultMediaWireRecord,
};
use muninn_daemon::video::{packetize_video_annex_b_stream, VideoAnnexBStreamPacketizeOptions};
use muninn_daemon::video_sender::{
    VideoAnnexBStreamSendConfig, VideoAnnexBStreamSendState, VideoSendStep,
};
use muninn_daemon::wire::{
    encode_video_annex_b_stream_wire_records, MediaWireBatch, VideoAnnexBStreamWireOptions,
    VideoWireJob,
};

const NOW: &str = "2026-06-18T00:00:00Z";

/// Four H.264 access units, one of them in two slices, with start codes of both lengths.
fn h264_stream() -> Vec<u8> {
    vec![
        0, 0, 0, 1, 9, 0x10, 0, 0, 1, 0x65, 0x88, 0x80, 0x10, 0, 0, 3, 0, 0, 0, 1, 0x67, 0x42, 0,
        0, 1, 0x68, 0xce, 0, 0, 1, 0x65, 0x80, 0, 0, 1, 0x65, 0x40, 7, 0, 0, 0, 1, 0x41, 0x9a, 1,
        2, 3, 0, 0, 1, 0x41, 0x80, 0,
    ]
}

fn config(stream_id: &str) -> VideoAnnexBStreamSendConfig {
    VideoAnnexBStreamSendConfig {
        stream_id: stream_id.to_string(),
        session_id: "session".to_string(),
        codec: "h264".to_string(),
        first_frame_id: 5,
        first_pts_ticks: -100,
        frame_duration_ticks: 40,
        timebase_num: 1,
        timebase_den: 1_000,
        deadline_delay_ticks: 15,
        max_payload_bytes: 6,
        max_pending_bytes: 100,
        source_runtime_id: "runtime".to_string(),
        source_role: "role".to_string(),
    }
}

fn packetize_options() -> VideoAnnexBStreamPacketizeOptions<'static> {
    VideoAnnexBStreamPacketizeOptions {
        stream_id: "stream",
        session_id: "session",
        codec: "h264",
        first_frame_id: 5,
        first_pts_ticks: -100,
        frame_duration_ticks: 40,
        timebase_num: 1,
        timebase_den: 1_000,
        deadline_delay_ticks: 15,
        max_payload_bytes: 6,
    }
}

fn judged(job: &VideoWireJob) -> MediaWireBatch {
    let verdicts: Vec<Result<(), String>> = job.chunks.iter().map(|_| Ok(())).collect();
    job.wire_batch(&verdicts).unwrap()
}

fn encoded(batch: &MediaWireBatch) -> Vec<Result<Vec<u8>, String>> {
    batch.records.iter().map(|record| Ok(format!("{record:?}").into_bytes())).collect()
}

struct Sent {
    chunks: Vec<GameCultMediaVideoAccessUnitRecord>,
    records: Vec<GameCultMediaWireRecord>,
    payloads: Vec<Vec<u8>>,
    pending: usize,
    next_frame_id: u64,
}

fn sent(pieces: &[&[u8]], finish: bool) -> Sent {
    let mut sender = VideoAnnexBStreamSendState::new(config("stream")).unwrap();
    let mut chunks = Vec::new();
    let mut records = Vec::new();
    let mut payloads = Vec::new();
    for turn in 0..pieces.len() + finish as usize {
        let mut step = if turn < pieces.len() {
            sender.push(NOW, pieces[turn]).unwrap()
        } else {
            sender.finish(NOW).unwrap()
        };
        loop {
            match step {
                VideoSendStep::Frame(job) => {
                    let batch = judged(&job);
                    let replies = encoded(&batch);
                    chunks.extend(job.chunks);
                    records.extend(batch.records);
                    step = sender.frame_encoded("media", replies).unwrap();
                }
                VideoSendStep::Done(sends) => {
                    payloads.extend(sends.into_iter().map(|send| send.payload));
                    break;
                }
            }
        }
    }
    Sent {
        chunks,
        records,
        payloads,
        pending: sender.pending_bytes(),
        next_frame_id: sender.next_frame_id(),
    }
}

#[test]
fn cuts_of_a_video_stream_make_no_difference() {
    let stream = h264_stream();
    for finish in [false, true] {
        let whole = sent(&[&stream], finish);
        assert_eq!(whole.next_frame_id, if finish { 9 } else { 8 });
        assert_eq!(whole.pending, if finish { 0 } else { 6 });
        for first in 0..=stream.len() {
            for second in [first, first + (stream.len() - first) / 2, stream.len()] {
                let cut =
                    sent(&[&stream[..first], &stream[first..second], &stream[second..]], finish);
                assert_eq!(cut.chunks, whole.chunks);
                assert_eq!(cut.records, whole.records);
                assert_eq!(cut.payloads, whole.payloads);
                assert_eq!(cut.pending, whole.pending);
                assert_eq!(cut.next_frame_id, whole.next_frame_id);
            }
        }
    }
}

#[test]
fn push_and_finish_send_the_packetized_stream() {
    let stream = h264_stream();
    let whole = sent(&[&stream], true);
    let chunks = packetize_video_annex_b_stream(packetize_options(), &stream).unwrap();
    assert_eq!(chunks.iter().map(|chunk| chunk.chunk_count as usize).max(), Some(5));
    assert_eq!(whole.chunks, chunks);
    let job = encode_video_annex_b_stream_wire_records(
        VideoAnnexBStreamWireOptions {
            packetize: packetize_options(),
            stored_at: NOW,
            source_runtime_id: "runtime",
            source_role: "role",
        },
        &stream,
    )
    .unwrap();
    assert_eq!(whole.records, judged(&job).records);
    assert_eq!(whole.payloads.len(), whole.records.len());
    assert_eq!(whole.pending, 0);
}

fn joined(a: &[u8], b: &[u8]) -> Vec<u8> {
    [a, b].concat()
}

fn both<T: Clone>(mut a: Vec<T>, b: &[T]) -> Vec<T> {
    a.extend_from_slice(b);
    a
}

#[test]
fn splitting_distributes_over_concatenation() {
    let ends_in_a_byte = &h264_stream()[..52];
    let delimited = [0, 0, 0, 1, 9, 0x30, 0, 0, 1, 0x41, 0x80];
    let units = |input: &[u8]| -> Vec<VideoAccessUnit> { h264_annex_b_access_units(input).unwrap() };
    assert_eq!(
        units(&joined(ends_in_a_byte, &delimited)),
        both(units(ends_in_a_byte), &units(&delimited))
    );
    let hevc = [0, 0, 1, 0x26, 1, 0x80, 5];
    let delimited = [0, 0, 0, 1, 0x46, 1, 0x50, 0, 0, 1, 0x02, 1, 0x80];
    let units = |input: &[u8]| -> Vec<VideoAccessUnit> { h265_annex_b_access_units(input).unwrap() };
    assert_eq!(units(&joined(&hevc, &delimited)), both(units(&hevc), &units(&delimited)));
}

#[test]
fn the_rest_of_a_stream_splits_as_the_stream_does() {
    let stream = h264_stream();
    let units = h264_annex_b_access_units(&stream).unwrap();
    assert_eq!(units.len(), 4);
    let mut begin = 0;
    for (skipped, unit) in units.iter().enumerate() {
        assert_eq!(h264_annex_b_access_units(&stream[begin..]).unwrap(), units[skipped..].to_vec());
        begin += unit.bytes.len();
    }
    assert_eq!(begin, stream.len());
    for cut in 6..stream.len() {
        let head = h264_annex_b_access_units(&stream[..cut]).unwrap();
        assert_eq!(head[..head.len() - 1], units[..head.len() - 1]);
    }
}

type Packets = Vec<GameCultMediaWireRecord>;

fn audio_sent(pieces: &[&[u8]]) -> (Packets, Vec<Vec<u8>>, MediaError) {
    let mut sender = AudioPcmStreamSendState::new(AudioPcmStreamSendConfig {
        stream_id: "stream".to_string(),
        session_id: "session".to_string(),
        codec: "pcm".to_string(),
        first_packet_id: 3,
        first_pts_ticks: 90,
        packet_duration_ticks: 2,
        timebase_num: 1,
        timebase_den: 48_000,
        deadline_delay_ticks: 5,
        channels: 1,
        bytes_per_sample: 2,
        max_pending_bytes: 64,
        source_runtime_id: "runtime".to_string(),
        source_role: "role".to_string(),
    })
    .unwrap();
    let mut packets = Vec::new();
    let mut payloads = Vec::new();
    for piece in pieces {
        let mut step = sender.push(NOW, piece).unwrap();
        loop {
            match step {
                AudioSendStep::Packet(batch) => {
                    let reply = encoded(&batch).remove(0);
                    packets.extend(batch.records);
                    step = sender.packet_encoded("media", reply).unwrap();
                }
                AudioSendStep::Done(sends) => {
                    payloads.extend(sends.into_iter().map(|send| send.payload));
                    break;
                }
            }
        }
    }
    (packets, payloads, sender.finish(NOW).unwrap_err())
}

#[test]
fn cuts_of_a_pcm_stream_make_no_difference() {
    let samples: Vec<u8> = (0..15).collect();
    let whole = audio_sent(&[&samples]);
    assert_eq!(whole.0.len(), 3);
    assert_eq!(whole.1.len(), 3);
    assert_eq!(whole.2, MediaError::Refused(Refusal::TrailingBytes(3)));
    let last = match &whole.0[2] {
        GameCultMediaWireRecord::Audio(packet) => packet,
        _ => panic!("expected an audio record"),
    };
    assert_eq!((last.packet_id, last.pts_ticks, last.deadline_ticks), (5, 94, 99));
    assert_eq!(last.payload, vec![8, 9, 10, 11]);
    for cut in 0..=samples.len() {
        assert_eq!(audio_sent(&[&samples[..cut], &samples[cut..]]), whole);
    }
}

fn packet(packet_id: u64, stream_id: &str, payload: &[u8]) -> GameCultMediaAudioPacketRecord {
    GameCultMediaAudioPacketRecord {
        stream_id: stream_id.to_string(),
        session_id: "session".to_string(),
        packet_id,
        codec: "opus".to_string(),
        pts_ticks: 0,
        duration_ticks: 1,
        timebase_num: 1,
        timebase_den: 48_000,
        deadline_ticks: 10,
        payload: payload.to_vec(),
    }
}

#[test]
fn a_buffer_stays_with_its_stream() {
    let mixed = Err(MediaError::Refused(Refusal::BufferMixedMetadata));
    let mut buffer = AudioPacketBuffer::default();
    assert_eq!(
        buffer.insert(packet(1, "", &[1])),
        Err(MediaError::Refused(Refusal::BufferStreamIdEmpty))
    );
    assert_eq!(
        buffer.insert(packet(1, "first", &[])),
        Err(MediaError::Refused(Refusal::BufferPayloadEmpty))
    );
    assert_eq!(buffer.insert(packet(1, "second", &[1])), mixed);
    assert_eq!(buffer.pending_packet_count(), 0);
    assert_eq!(buffer.insert(packet(1, "first", &[1])), Ok(()));
    assert_eq!(buffer.insert(packet(2, "second", &[2])), mixed);
    assert_eq!(buffer.pop_ready_packets(), vec![packet(1, "first", &[1])]);
    assert_eq!(buffer.insert(packet(2, "second", &[2])), mixed);
    assert_eq!(buffer.insert(packet(3, "first", &[3])), Ok(()));
    assert_eq!(buffer.expire_late_packets(10), vec![3]);
    assert_eq!(buffer.insert(packet(4, "second", &[2])), mixed);
    assert_eq!(buffer.insert(packet(4, "first", &[4])), Ok(()));
}
