use muninn_daemon::audio::{packetize_audio_packet, AudioPacketizeOptions};
use muninn_daemon::audio_buffer::AudioPacketBuffer;
use muninn_daemon::error::{MediaError, Refusal};
use muninn_daemon::feedback::{build_receiver_feedback, ReceiverFeedbackOptions};
use muninn_daemon::ordered::rising_unique;
use muninn_daemon::records::GameCultMediaAudioPacketRecord;

fn packet(packet_id: u64) -> GameCultMediaAudioPacketRecord {
    GameCultMediaAudioPacketRecord {
        stream_id: "stream".to_string(),
        session_id: "session".to_string(),
        packet_id,
        codec: "opus".to_string(),
        pts_ticks: 0,
        duration_ticks: 1,
        timebase_num: 1,
        timebase_den: 48_000,
        deadline_ticks: packet_id as i64 * 10,
        payload: vec![packet_id as u8],
    }
}

fn refusal<T>(outcome: Result<T, MediaError>) -> Refusal {
    match outcome {
        Err(MediaError::Refused(refusal)) => refusal,
        _ => panic!("expected a refusal"),
    }
}

fn ids(packets: &[GameCultMediaAudioPacketRecord]) -> Vec<u64> {
    packets.iter().map(|packet| packet.packet_id).collect()
}

#[test]
fn audio_packets_that_break_a_rule_are_refused() {
    let options = AudioPacketizeOptions {
        stream_id: "stream",
        session_id: "session",
        codec: "opus",
        packet_id: 1,
        pts_ticks: 5,
        duration_ticks: 1,
        timebase_num: 1,
        timebase_den: 1,
        deadline_ticks: 5,
    };
    let refuse = |change: fn(&mut AudioPacketizeOptions<'static>)| {
        let mut changed = options;
        change(&mut changed);
        refusal(packetize_audio_packet(changed, &[1]))
    };
    assert_eq!(refuse(|o| o.stream_id = ""), Refusal::StreamIdEmpty);
    assert_eq!(refuse(|o| o.session_id = ""), Refusal::SessionIdEmpty);
    assert_eq!(refuse(|o| o.codec = ""), Refusal::CodecEmpty);
    assert_eq!(refuse(|o| o.timebase_num = 0), Refusal::AudioTimebaseZero);
    assert_eq!(refuse(|o| o.timebase_den = 0), Refusal::AudioTimebaseZero);
    assert_eq!(refuse(|o| o.duration_ticks = 0), Refusal::AudioDurationZero);
    assert_eq!(refuse(|o| o.deadline_ticks = 4), Refusal::AudioDeadlineBeforePts);
    assert_eq!(refusal(packetize_audio_packet(options, &[])), Refusal::AudioPayloadEmpty);
    let made = packetize_audio_packet(options, &[7, 8]).unwrap();
    assert_eq!(made.payload, vec![7, 8]);
    assert_eq!((made.packet_id, made.pts_ticks, made.deadline_ticks), (1, 5, 5));
    assert_eq!(made.clone(), made);
}

#[test]
fn buffers_refuse_what_does_not_fit() {
    let refuse = |change: fn(&mut GameCultMediaAudioPacketRecord)| {
        let mut buffer = AudioPacketBuffer::default();
        buffer.insert(packet(5)).unwrap();
        let mut changed = packet(6);
        change(&mut changed);
        let refusal = refusal(buffer.insert(changed));
        assert_eq!(buffer.pending_packet_count(), 1);
        refusal
    };
    assert_eq!(refuse(|p| p.stream_id.clear()), Refusal::BufferStreamIdEmpty);
    assert_eq!(refuse(|p| p.session_id.clear()), Refusal::BufferSessionIdEmpty);
    assert_eq!(refuse(|p| p.codec.clear()), Refusal::BufferCodecEmpty);
    assert_eq!(refuse(|p| p.timebase_num = 0), Refusal::BufferTimebaseZero);
    assert_eq!(refuse(|p| p.timebase_den = 0), Refusal::BufferTimebaseZero);
    assert_eq!(refuse(|p| p.timebase_den = 44_100), Refusal::BufferMixedMetadata);
    assert_eq!(refuse(|p| p.codec.push('2')), Refusal::BufferMixedMetadata);
    assert_eq!(refuse(|p| p.payload.clear()), Refusal::BufferPayloadEmpty);
    assert_eq!(refuse(|p| p.packet_id = 5), Refusal::BufferDuplicatePacket(5));
}

#[test]
fn a_refused_first_packet_still_names_the_stream() {
    let mut buffer = AudioPacketBuffer::default();
    let mut empty = packet(1);
    empty.payload.clear();
    assert_eq!(refusal(buffer.insert(empty)), Refusal::BufferPayloadEmpty);
    let mut other = packet(1);
    other.stream_id = "other".to_string();
    assert_eq!(refusal(buffer.insert(other)), Refusal::BufferMixedMetadata);
    assert_eq!(buffer.insert(packet(1)), Ok(()));
}

#[test]
fn packets_come_out_once_and_in_order() {
    let mut buffer = AudioPacketBuffer::default();
    assert_eq!(buffer.pop_ready_packets(), vec![]);
    for id in [12, 10, 11, 14] {
        buffer.insert(packet(id)).unwrap();
    }
    assert_eq!(ids(&buffer.pop_ready_packets()), vec![10, 11, 12]);
    assert_eq!(buffer.pop_ready_packets(), vec![]);
    let error = buffer.insert(packet(11)).unwrap_err();
    assert_eq!(
        error.message(),
        "audio packet buffer received stale packet_id 11 before next expected 13"
    );
    buffer.insert(packet(13)).unwrap();
    assert_eq!(buffer.pop_ready_packets(), vec![packet(13), packet(14)]);
}

#[test]
fn the_order_of_arrival_makes_no_difference_before_the_first_packet_is_out() {
    for order in [[4, 5, 6], [6, 5, 4], [5, 6, 4], [6, 4, 5]] {
        let mut buffer = AudioPacketBuffer::default();
        for id in order {
            buffer.insert(packet(id)).unwrap();
        }
        assert_eq!(ids(&buffer.pop_ready_packets()), vec![4, 5, 6]);
    }
}

#[test]
fn expiry_moves_on_to_what_is_left() {
    let mut buffer = AudioPacketBuffer::default();
    for id in [9, 7, 5, 8] {
        buffer.insert(packet(id)).unwrap();
    }
    assert_eq!(buffer.expire_late_packets(49), Vec::<u64>::new());
    assert_eq!(buffer.expire_late_packets(70), vec![5, 7]);
    assert_eq!(buffer.pending_packet_count(), 2);
    assert_eq!(ids(&buffer.pop_ready_packets()), vec![8, 9]);
    assert_eq!(buffer.expire_late_packets(i64::MAX), Vec::<u64>::new());
    buffer.insert(packet(12)).unwrap();
    assert_eq!(buffer.expire_late_packets(i64::MAX), vec![12]);
    assert_eq!(refusal(buffer.insert(packet(9))), Refusal::BufferStalePacket {
        packet_id: 9,
        next_packet_id: 10,
    });
    buffer.insert(packet(10)).unwrap();
    assert_eq!(buffer.expire_late_packets(i64::MAX), vec![10]);
    assert_eq!(buffer.insert(packet(3)), Ok(()));
    assert_eq!(ids(&buffer.pop_ready_packets()), vec![3]);
}

#[test]
fn the_last_id_can_be_given_out() {
    let mut buffer = AudioPacketBuffer::default();
    let mut last = packet(0);
    last.packet_id = u64::MAX;
    buffer.insert(last.clone()).unwrap();
    assert_eq!(buffer.pop_ready_packets(), vec![last]);
    assert_eq!(buffer.pop_ready_packets(), vec![]);
    let mut stale = packet(0);
    stale.packet_id = u64::MAX - 1;
    assert_eq!(refusal(buffer.insert(stale)), Refusal::BufferStalePacket {
        packet_id: u64::MAX - 1,
        next_packet_id: u64::MAX,
    });
}

fn feedback_options() -> ReceiverFeedbackOptions<'static> {
    ReceiverFeedbackOptions {
        stream_id: "stream",
        session_id: "session",
        receiver_id: "receiver",
        highest_decodable_frame_id: None,
        missing_frame_ids: vec![],
        missing_video_chunk_keys: vec![],
        late_frame_ids: vec![3, 1, 3, 2],
        requested_keyframe: false,
        jitter_us: 1,
        decode_queue_us: 2,
        observed_at: "now",
    }
}

#[test]
fn damage_requests_a_keyframe() {
    let report = |missing: Vec<u64>, asked: bool, keys: Vec<String>| {
        let mut options = feedback_options();
        options.missing_frame_ids = missing;
        options.requested_keyframe = asked;
        build_receiver_feedback(options).unwrap().with_chunk_keys(Ok(keys)).unwrap()
    };
    assert!(!report(vec![], false, vec![]).requested_keyframe);
    assert!(report(vec![], true, vec![]).requested_keyframe);
    assert!(report(vec![0], false, vec![]).requested_keyframe);
    assert!(report(vec![], false, vec!["1:2".to_string()]).requested_keyframe);
    let full = report(vec![5, 5], false, vec!["1:2".to_string()]);
    assert_eq!(full.missing_frame_ids, vec![5]);
    assert_eq!(full.late_frame_ids, vec![1, 2, 3]);
    assert_eq!(full.missing_video_chunk_keys, vec!["1:2".to_string()]);
    assert_eq!((full.jitter_us, full.decode_queue_us), (1, 2));
    assert_eq!(full.observed_at, "now");
    assert_eq!(full.receiver_id, "receiver");
    assert_eq!(full.clone(), full);
}

#[test]
fn reports_that_break_a_rule_are_refused() {
    let refuse = |change: fn(&mut ReceiverFeedbackOptions<'static>)| {
        let mut options = feedback_options();
        change(&mut options);
        refusal(build_receiver_feedback(options))
    };
    assert_eq!(refuse(|o| o.stream_id = ""), Refusal::StreamIdEmpty);
    assert_eq!(refuse(|o| o.session_id = ""), Refusal::SessionIdEmpty);
    assert_eq!(refuse(|o| o.receiver_id = ""), Refusal::ReceiverIdEmpty);
    assert_eq!(refuse(|o| o.observed_at = ""), Refusal::ObservedAtEmpty);
    assert_eq!(refuse(|o| o.jitter_us = -1), Refusal::JitterNegative);
    assert_eq!(refuse(|o| o.decode_queue_us = -1), Refusal::DecodeQueueNegative);
    let draft = build_receiver_feedback(feedback_options()).unwrap();
    assert_eq!(
        draft.with_chunk_keys(Err("bad key".to_string())),
        Err(MediaError::Wire("bad key".to_string()))
    );
}

#[test]
fn numbers_are_put_in_rising_order() {
    assert_eq!(rising_unique(&vec![]), Vec::<u64>::new());
    assert_eq!(rising_unique(&vec![3, u64::MAX, 0, 3, 2, 0]), vec![0, 2, 3, u64::MAX]);
}
