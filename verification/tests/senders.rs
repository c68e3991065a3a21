use muninn_daemon::audio_sender::{
    AudioPcmStreamSendConfig, AudioPcmStreamSendState, AudioSendStep,
};
use muninn_daemon::error::{MediaError, Refusal};
use muninn_daemon::records::{GameCultMediaAudioPacketRecord, GameCultMediaWireRecord};
use muninn_daemon::video_sender::{
    VideoAnnexBStreamSendConfig, VideoAnnexBStreamSendState, VideoSendStep,
};
use muninn_daemon::wire::{
    collect_wire_payloads, frame_record_count, muninn_provenance, send_payloads,
    video_annex_b_stream_send_payloads, MediaWireBatch, MediaWireProvenance,
    MuninnMediaSendPayload, VideoWireJob,
};

const CHANNEL: &str = "media";

const NOW: &str = "2026-06-18T00:00:00Z";

fn video_config() -> VideoAnnexBStreamSendConfig {
    VideoAnnexBStreamSendConfig {
        stream_id: "stream".to_string(),
        session_id: "session".to_string(),
        codec: "H.264".to_string(),
        first_frame_id: 20,
        first_pts_ticks: 1_000,
        frame_duration_ticks: 50,
        timebase_num: 1,
        timebase_den: 90_000,
        deadline_delay_ticks: 30,
        max_payload_bytes: 3,
        max_pending_bytes: 100,
        source_runtime_id: "runtime".to_string(),
        source_role: "role".to_string(),
    }
}

fn audio_config() -> AudioPcmStreamSendConfig {
    AudioPcmStreamSendConfig {
        stream_id: "stream".to_string(),
        session_id: "session".to_string(),
        codec: "pcm".to_string(),
        first_packet_id: 70,
        first_pts_ticks: -8,
        packet_duration_ticks: 3,
        timebase_num: 1,
        timebase_den: 48_000,
        deadline_delay_ticks: 5,
        channels: 2,
        bytes_per_sample: 2,
        max_pending_bytes: 64,
        source_runtime_id: "runtime".to_string(),
        source_role: "role".to_string(),
    }
}

fn refusal<T>(outcome: Result<T, MediaError>) -> Refusal {
    match outcome {
        Err(MediaError::Refused(refusal)) => refusal,
        _ => panic!("expected a refusal"),
    }
}

fn job(step: VideoSendStep) -> VideoWireJob {
    match step {
        VideoSendStep::Frame(job) => job,
        VideoSendStep::Done(_) => panic!("expected a frame"),
    }
}

fn done(step: VideoSendStep) -> Vec<MuninnMediaSendPayload> {
    match step {
        VideoSendStep::Done(payloads) => payloads,
        VideoSendStep::Frame(_) => panic!("expected the run to be done"),
    }
}

fn batch(step: AudioSendStep) -> MediaWireBatch {
    match step {
        AudioSendStep::Packet(batch) => batch,
        AudioSendStep::Done(_) => panic!("expected a packet"),
    }
}

fn audio_done(step: AudioSendStep) -> Vec<MuninnMediaSendPayload> {
    match step {
        AudioSendStep::Done(payloads) => payloads,
        AudioSendStep::Packet(_) => panic!("expected the run to be done"),
    }
}

fn packet(batch: &MediaWireBatch) -> &GameCultMediaAudioPacketRecord {
    assert_eq!(batch.records.len(), 1);
    match &batch.records[0] {
        GameCultMediaWireRecord::Audio(packet) => packet,
        _ => panic!("expected an audio record"),
    }
}

fn frame(first: u8, more: &[u8]) -> Vec<u8> {
    let mut bytes = vec![0, 0, 1, first, 0x80];
    bytes.extend_from_slice(more);
    bytes
}

fn replies(numbers: std::ops::Range<u8>) -> Vec<Result<Vec<u8>, String>> {
    numbers.map(|number| Ok(vec![number])).collect()
}

#[test]
fn video_runs_give_out_frames_in_order() {
    let mut sender = VideoAnnexBStreamSendState::new(video_config()).unwrap();
    let mut stream = frame(0x65, &[1, 2]);
    stream.extend(frame(0x41, &[3]));
    stream.extend(frame(0x41, &[4, 5, 6]));
    let first = job(sender.push(NOW, &stream).unwrap());
    assert_eq!(sender.pending_bytes(), stream.len());
    assert_eq!(first.stored_at, NOW);
    assert_eq!(first.source_runtime_id, "runtime");
    assert_eq!(first.source_role, "role");
    assert_eq!(first.chunks.len(), 3);
    assert!(first
        .chunks
        .iter()
        .all(|chunk| (chunk.frame_id, chunk.pts_ticks, chunk.deadline_ticks) == (20, 1_000, 1_030)));
    let records = first.wire_batch(&[Ok(()), Ok(()), Ok(())]).unwrap();
    assert_eq!(records.records.len(), 6);
    assert_eq!(
        records.provenance,
        MediaWireProvenance {
            stored_at: NOW.to_string(),
            runtime_id: "runtime".to_string(),
            role: "role".to_string(),
            producer: "muninn".to_string(),
        }
    );
    let second = job(sender.frame_encoded(CHANNEL, replies(1..7)).unwrap());
    assert_eq!(sender.next_frame_id(), 21);
    assert_eq!(sender.pending_bytes(), stream.len());
    assert!(second
        .chunks
        .iter()
        .all(|chunk| (chunk.frame_id, chunk.pts_ticks, chunk.deadline_ticks) == (21, 1_050, 1_080)));
    let payloads = done(sender.frame_encoded(CHANNEL, replies(7..11)).unwrap());
    assert_eq!(
        payloads,
        (1..11)
            .map(|number| MuninnMediaSendPayload { channel_id: CHANNEL, payload: vec![number] })
            .collect::<Vec<_>>()
    );
    assert_eq!(sender.next_frame_id(), 22);
    assert_eq!(sender.pending_bytes(), 8);
    let last = job(sender.finish(NOW).unwrap());
    assert!(last.chunks.iter().all(|chunk| chunk.frame_id == 22));
    assert_eq!(done(sender.frame_encoded(CHANNEL, replies(0..6)).unwrap()).len(), 6);
    assert_eq!(sender.pending_bytes(), 0);
    assert_eq!(done(sender.finish(NOW).unwrap()), vec![]);
}

#[test]
fn video_that_is_not_complete_waits() {
    let mut sender = VideoAnnexBStreamSendState::new(video_config()).unwrap();
    assert_eq!(done(sender.push(NOW, &[]).unwrap()), vec![]);
    assert_eq!(done(sender.push(NOW, &[9, 9]).unwrap()), vec![]);
    assert_eq!(done(sender.push(NOW, &[0, 0, 1]).unwrap()), vec![]);
    assert_eq!(done(sender.push(NOW, &[0x65, 0x80]).unwrap()), vec![]);
    assert_eq!(sender.pending_bytes(), 7);
    assert_eq!(refusal(sender.push("", &[])), Refusal::StoredAtEmpty);
    assert_eq!(refusal(sender.finish("")), Refusal::StoredAtEmpty);
    assert_eq!(sender.pending_bytes(), 7);
}

#[test]
fn failed_video_runs_keep_their_bytes() {
    let mut sender = VideoAnnexBStreamSendState::new(video_config()).unwrap();
    let mut stream = frame(0x65, &[]);
    stream.extend(frame(0x41, &[]));
    stream.extend(frame(0x41, &[]));
    let _ = job(sender.push(NOW, &stream).unwrap());
    let _ = job(sender.frame_encoded(CHANNEL, replies(0..4)).unwrap());
    let error = sender
        .frame_encoded(CHANNEL, vec![Ok(vec![2]), Err("no room".to_string()), Ok(vec![3])])
        .unwrap_err();
    assert_eq!(error, MediaError::Wire("no room".to_string()));
    assert_eq!(sender.pending_bytes(), stream.len());
    assert_eq!(sender.next_frame_id(), 21);
    let again = job(sender.push(NOW, &[]).unwrap());
    assert_eq!(again.chunks[0].frame_id, 21);
    assert!(again.chunks[0].keyframe);
}

#[test]
fn every_record_of_a_frame_needs_its_reply() {
    let mut sender = VideoAnnexBStreamSendState::new(video_config()).unwrap();
    let mut stream = frame(0x65, &[]);
    stream.extend(frame(0x41, &[]));
    for wrong in [0, 3, 5] {
        let given = job(sender.push(NOW, if wrong == 0 { &stream } else { &[] }).unwrap());
        assert_eq!(given.wire_batch(&[Ok(()), Ok(())]).unwrap().records.len(), 4);
        assert_eq!(
            refusal(sender.frame_encoded(CHANNEL, replies(0..wrong))),
            Refusal::ReplyCount { records: 4, replies: wrong as usize }
        );
        assert_eq!(sender.pending_bytes(), stream.len());
        assert_eq!(sender.next_frame_id(), 20);
    }
    let _ = job(sender.push(NOW, &[]).unwrap());
    assert_eq!(
        sender.frame_encoded(CHANNEL, vec![Err("no room".to_string())]).unwrap_err(),
        MediaError::Wire("no room".to_string())
    );
    let _ = job(sender.push(NOW, &[]).unwrap());
    assert_eq!(done(sender.frame_encoded(CHANNEL, replies(0..4)).unwrap()).len(), 4);
    assert_eq!(sender.pending_bytes(), 5);
    let mut config = video_config();
    config.max_payload_bytes = 5;
    let mut sender = VideoAnnexBStreamSendState::new(config).unwrap();
    let _ = job(sender.push(NOW, &stream).unwrap());
    assert_eq!(
        refusal(sender.frame_encoded(CHANNEL, replies(0..2))),
        Refusal::ReplyCount { records: 1, replies: 2 }
    );
    let _ = job(sender.push(NOW, &[]).unwrap());
    assert_eq!(done(sender.frame_encoded(CHANNEL, replies(0..1)).unwrap()).len(), 1);
    for (chunks, records) in [(0, 0), (1, 1), (2, 4), (15, 30), (16, 32), (17, 33), (65_535, 65_551)] {
        assert_eq!(frame_record_count(chunks), records);
    }
}

#[test]
fn video_runs_that_run_out_of_numbers_fail() {
    let mut stream = frame(0x65, &[]);
    stream.extend(frame(0x41, &[]));
    let mut config = video_config();
    config.first_frame_id = u64::MAX;
    let mut sender = VideoAnnexBStreamSendState::new(config).unwrap();
    let _ = job(sender.push(NOW, &stream).unwrap());
    assert_eq!(refusal(sender.frame_encoded(CHANNEL, replies(0..4))), Refusal::VideoFrameIdOverflow);
    assert_eq!(sender.next_frame_id(), u64::MAX);
    let mut config = video_config();
    config.first_pts_ticks = i64::MAX - 30;
    let mut sender = VideoAnnexBStreamSendState::new(config).unwrap();
    let _ = job(sender.push(NOW, &stream).unwrap());
    assert_eq!(refusal(sender.frame_encoded(CHANNEL, replies(0..4))), Refusal::VideoPtsOverflow);
    assert_eq!(sender.next_frame_id(), 21);
    let mut config = video_config();
    config.first_pts_ticks = i64::MAX - 29;
    let mut sender = VideoAnnexBStreamSendState::new(config).unwrap();
    assert_eq!(refusal(sender.push(NOW, &stream)), Refusal::VideoDeadlineOverflow);
    assert_eq!(sender.pending_bytes(), stream.len());
}

#[test]
fn video_configs_that_break_a_rule_are_refused() {
    let refuse = |change: fn(&mut VideoAnnexBStreamSendConfig)| {
        let mut config = video_config();
        change(&mut config);
        refusal(VideoAnnexBStreamSendState::new(config))
    };
    assert_eq!(refuse(|c| c.codec = "vp9".to_string()), Refusal::SenderCodec);
    assert_eq!(refuse(|c| c.codec = "AV1".to_string()), Refusal::SenderCodec);
    assert_eq!(refuse(|c| c.stream_id.clear()), Refusal::StreamIdEmpty);
    assert_eq!(refuse(|c| c.session_id.clear()), Refusal::SessionIdEmpty);
    assert_eq!(refuse(|c| c.frame_duration_ticks = 0), Refusal::FrameDurationZero);
    assert_eq!(refuse(|c| c.timebase_num = 0), Refusal::VideoTimebaseZero);
    assert_eq!(refuse(|c| c.timebase_den = 0), Refusal::VideoTimebaseZero);
    assert_eq!(refuse(|c| c.deadline_delay_ticks = -1), Refusal::DeadlineDelayNegative);
    assert_eq!(refuse(|c| c.max_payload_bytes = 0), Refusal::MaxPayloadZero);
    assert_eq!(refuse(|c| c.max_pending_bytes = 0), Refusal::MaxPendingZero);
    assert_eq!(refuse(|c| c.source_runtime_id.clear()), Refusal::SourceRuntimeIdEmpty);
    assert_eq!(refuse(|c| c.source_role.clear()), Refusal::SourceRoleEmpty);
    assert!(VideoAnnexBStreamSendState::new(video_config()).is_ok());
}

#[test]
fn audio_runs_give_out_full_packets_in_order() {
    let mut sender = AudioPcmStreamSendState::new(audio_config()).unwrap();
    let samples: Vec<u8> = (0..29).collect();
    let first = batch(sender.push(NOW, &samples).unwrap());
    assert_eq!(
        packet(&first),
        &GameCultMediaAudioPacketRecord {
            stream_id: "stream".to_string(),
            session_id: "session".to_string(),
            packet_id: 70,
            codec: "pcm".to_string(),
            pts_ticks: -8,
            duration_ticks: 3,
            timebase_num: 1,
            timebase_den: 48_000,
            deadline_ticks: -3,
            payload: samples[..12].to_vec(),
        }
    );
    assert_eq!(first.provenance, muninn_provenance(NOW, "runtime", "role"));
    let second = batch(sender.packet_encoded(CHANNEL, Ok(vec![1])).unwrap());
    assert_eq!(packet(&second).packet_id, 71);
    assert_eq!(packet(&second).pts_ticks, -5);
    assert_eq!(packet(&second).deadline_ticks, 0);
    assert_eq!(packet(&second).payload, samples[12..24].to_vec());
    let payloads = audio_done(sender.packet_encoded(CHANNEL, Ok(vec![2])).unwrap());
    assert_eq!(
        payloads,
        vec![
            MuninnMediaSendPayload { channel_id: CHANNEL, payload: vec![1] },
            MuninnMediaSendPayload { channel_id: CHANNEL, payload: vec![2] },
        ]
    );
    let third = batch(sender.push(NOW, &[29, 30, 31, 32, 33, 34, 35]).unwrap());
    assert_eq!(packet(&third).packet_id, 72);
    assert_eq!(packet(&third).payload, (24..36).collect::<Vec<u8>>());
    assert_eq!(audio_done(sender.packet_encoded(CHANNEL, Ok(vec![])).unwrap()).len(), 1);
    assert_eq!(audio_done(sender.finish(NOW).unwrap()), vec![]);
}

fn packets_of(pieces: &[&[u8]]) -> Vec<Vec<u8>> {
    let mut sender = AudioPcmStreamSendState::new(audio_config()).unwrap();
    let mut payloads = Vec::new();
    for piece in pieces {
        let mut step = sender.push(NOW, piece).unwrap();
        while let AudioSendStep::Packet(batch) = step {
            payloads.push(packet(&batch).payload.clone());
            step = sender.packet_encoded(CHANNEL, Ok(vec![])).unwrap();
        }
    }
    payloads
}

#[test]
fn samples_may_come_in_pieces() {
    let samples: Vec<u8> = (0..40).collect();
    let whole = packets_of(&[&samples]);
    assert_eq!(whole.len(), 3);
    assert_eq!(whole.concat(), samples[..36].to_vec());
    assert_eq!(packets_of(&[&samples[..1], &samples[1..12], &samples[12..37], &samples[37..]]), whole);
    assert_eq!(packets_of(&[&samples[..13], &[], &samples[13..]]), whole);
}

#[test]
fn trailing_samples_fail_the_finish() {
    let mut sender = AudioPcmStreamSendState::new(audio_config()).unwrap();
    let error = {
        assert_eq!(audio_done(sender.push(NOW, &[1, 2, 3]).unwrap()), vec![]);
        sender.finish(NOW).unwrap_err()
    };
    assert_eq!(error.message(), "PCM stream sender finished with 3 trailing bytes");
    let samples: Vec<u8> = (0..14).collect();
    let mut sender = AudioPcmStreamSendState::new(audio_config()).unwrap();
    let _ = batch(sender.push(NOW, &samples).unwrap());
    let packet_again = batch(sender.finish(NOW).unwrap());
    assert_eq!(packet(&packet_again).packet_id, 70);
    assert_eq!(
        refusal(sender.packet_encoded(CHANNEL, Ok(vec![]))),
        Refusal::TrailingBytes(2)
    );
}

#[test]
fn failed_audio_runs_keep_their_bytes() {
    let mut sender = AudioPcmStreamSendState::new(audio_config()).unwrap();
    let samples: Vec<u8> = (0..36).collect();
    let _ = batch(sender.push(NOW, &samples).unwrap());
    let _ = batch(sender.packet_encoded(CHANNEL, Ok(vec![])).unwrap());
    let error = sender.packet_encoded(CHANNEL, Err("no room".to_string())).unwrap_err();
    assert_eq!(error, MediaError::Wire("no room".to_string()));
    let again = batch(sender.push(NOW, &[]).unwrap());
    assert_eq!(packet(&again).packet_id, 71);
    assert_eq!(packet(&again).payload, samples[..12].to_vec());
}

#[test]
fn audio_limits_are_kept() {
    let mut sender = AudioPcmStreamSendState::new(audio_config()).unwrap();
    let error = sender.push(NOW, &[0; 65]).unwrap_err();
    assert_eq!(
        error.message(),
        "PCM stream sender pending buffer exceeded 64 bytes without a complete packet"
    );
    assert_eq!(refusal(sender.push("", &[])), Refusal::AudioPendingExceeded(64));
    assert_eq!(refusal(sender.finish("")), Refusal::StoredAtEmpty);
    let mut config = audio_config();
    config.channels = u32::MAX;
    config.bytes_per_sample = u32::MAX;
    let mut sender = AudioPcmStreamSendState::new(config).unwrap();
    assert_eq!(refusal(sender.push(NOW, &[0])), Refusal::BytesPerPacketOverflow);
    let mut config = audio_config();
    config.first_packet_id = u64::MAX;
    let mut sender = AudioPcmStreamSendState::new(config).unwrap();
    let _ = batch(sender.push(NOW, &[0; 12]).unwrap());
    assert_eq!(
        refusal(sender.packet_encoded(CHANNEL, Ok(vec![]))),
        Refusal::AudioPacketIdOverflow
    );
    let mut config = audio_config();
    config.first_pts_ticks = i64::MAX - 2;
    config.deadline_delay_ticks = 0;
    let mut sender = AudioPcmStreamSendState::new(config).unwrap();
    let _ = batch(sender.push(NOW, &[0; 12]).unwrap());
    assert_eq!(
        refusal(sender.packet_encoded(CHANNEL, Ok(vec![]))),
        Refusal::AudioPtsOverflow
    );
    let mut config = audio_config();
    config.first_pts_ticks = i64::MAX - 4;
    let mut sender = AudioPcmStreamSendState::new(config).unwrap();
    assert_eq!(refusal(sender.push(NOW, &[0; 12])), Refusal::AudioDeadlineOverflow);
}

#[test]
fn audio_configs_that_break_a_rule_are_refused() {
    let refuse = |change: fn(&mut AudioPcmStreamSendConfig)| {
        let mut config = audio_config();
        change(&mut config);
        refusal(AudioPcmStreamSendState::new(config))
    };
    assert_eq!(refuse(|c| c.stream_id.clear()), Refusal::StreamIdEmpty);
    assert_eq!(refuse(|c| c.session_id.clear()), Refusal::SessionIdEmpty);
    assert_eq!(refuse(|c| c.codec.clear()), Refusal::CodecEmpty);
    assert_eq!(refuse(|c| c.packet_duration_ticks = 0), Refusal::PacketDurationZero);
    assert_eq!(refuse(|c| c.timebase_num = 0), Refusal::AudioTimebaseZero);
    assert_eq!(refuse(|c| c.timebase_den = 0), Refusal::AudioTimebaseZero);
    assert_eq!(refuse(|c| c.deadline_delay_ticks = -1), Refusal::DeadlineDelayNegative);
    assert_eq!(refuse(|c| c.channels = 0), Refusal::ChannelsZero);
    assert_eq!(refuse(|c| c.bytes_per_sample = 0), Refusal::BytesPerSampleZero);
    assert_eq!(refuse(|c| c.max_pending_bytes = 0), Refusal::MaxPendingZero);
    assert_eq!(refuse(|c| c.source_runtime_id.clear()), Refusal::SourceRuntimeIdEmpty);
    assert_eq!(refuse(|c| c.source_role.clear()), Refusal::SourceRoleEmpty);
}

#[test]
fn replies_become_payloads_up_to_the_first_failure() {
    let replies = vec![Ok(vec![1]), Ok(vec![]), Ok(vec![2, 3])];
    assert_eq!(collect_wire_payloads(3, replies.clone()), Ok(vec![vec![1], vec![], vec![2, 3]]));
    assert_eq!(
        refusal(collect_wire_payloads(2, replies.clone())),
        Refusal::ReplyCount { records: 2, replies: 3 }
    );
    let sends = send_payloads(CHANNEL, 3, replies.clone()).unwrap();
    assert_eq!(sends.len(), 3);
    assert!(sends.iter().all(|send| send.channel_id == CHANNEL));
    assert_eq!(sends[2].payload, vec![2, 3]);
    let replies = vec![Ok(vec![1]), Err("first".to_string()), Err("second".to_string())];
    let nothing = MediaWireBatch {
        records: vec![],
        provenance: muninn_provenance(NOW, "runtime", "role"),
    };
    assert_eq!(
        video_annex_b_stream_send_payloads(CHANNEL, &nothing, replies),
        Err(MediaError::Wire("first".to_string()))
    );
    assert_eq!(
        refusal(video_annex_b_stream_send_payloads(CHANNEL, &nothing, vec![Ok(vec![1])])),
        Refusal::ReplyCount { records: 0, replies: 1 }
    );
    assert_eq!(video_annex_b_stream_send_payloads(CHANNEL, &nothing, vec![]), Ok(vec![]));
    assert_eq!(collect_wire_payloads(0, vec![]), Ok(vec![]));
}
