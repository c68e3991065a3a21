use muninn_daemon::annexb::VideoAccessUnit;
use muninn_daemon::error::{MediaError, Refusal};
use muninn_daemon::parity::build_video_parity_shards;
use muninn_daemon::records::{
    GameCultMediaVideoAccessUnitRecord, GameCultMediaVideoParityShardRecord,
    GameCultMediaWireRecord,
};
use muninn_daemon::video::{
    packetize_video_access_unit, packetize_video_annex_b_stream, VideoAnnexBStreamPacketizeOptions,
    VideoFramePacketizeOptions,
};
use muninn_daemon::wire::video_wire_records_with_parity;

fn options() -> VideoFramePacketizeOptions<'static> {
    VideoFramePacketizeOptions {
        stream_id: "stream",
        session_id: "session",
        codec: "h265",
        frame_id: 7,
        pts_ticks: 100,
        duration_ticks: 10,
        timebase_num: 1,
        timebase_den: 1_000,
        deadline_ticks: 120,
        max_payload_bytes: 4,
    }
}

fn unit(len: usize) -> VideoAccessUnit {
    VideoAccessUnit {
        bytes: (0..len).map(|i| (i * 37 + 11) as u8).collect(),
        keyframe: false,
    }
}

fn accepted(count: usize) -> Vec<Result<(), String>> {
    (0..count).map(|_| Ok(())).collect()
}

fn shards(chunks: &[GameCultMediaVideoAccessUnitRecord]) -> Vec<GameCultMediaVideoParityShardRecord> {
    build_video_parity_shards(chunks, &accepted(chunks.len())).unwrap()
}

fn refusal<T>(outcome: Result<T, MediaError>) -> Refusal {
    match outcome {
        Err(MediaError::Refused(refusal)) => refusal,
        _ => panic!("expected a refusal"),
    }
}

#[test]
fn chunks_join_to_the_access_unit() {
    for len in [1, 3, 4, 5, 8, 9, 70] {
        let unit = unit(len);
        let chunks = packetize_video_access_unit(options(), &unit).unwrap();
        assert_eq!(chunks.len(), (len + 3) / 4);
        let mut joined = Vec::new();
        for (i, chunk) in chunks.iter().enumerate() {
            assert_eq!(chunk.chunk_index as usize, i);
            assert_eq!(chunk.chunk_count as usize, chunks.len());
            assert!(!chunk.payload.is_empty() && chunk.payload.len() <= 4);
            assert!(i + 1 == chunks.len() || chunk.payload.len() == 4);
            joined.extend_from_slice(&chunk.payload);
        }
        assert_eq!(joined, unit.bytes);
    }
}

#[test]
fn a_chunk_carries_the_options() {
    let chunks = packetize_video_access_unit(options(), &unit(1)).unwrap();
    assert_eq!(
        chunks,
        vec![GameCultMediaVideoAccessUnitRecord {
            stream_id: "stream".to_string(),
            session_id: "session".to_string(),
            frame_id: 7,
            codec: "h265".to_string(),
            pts_ticks: 100,
            duration_ticks: 10,
            timebase_num: 1,
            timebase_den: 1_000,
            keyframe: false,
            dependency_frame_id: Some(6),
            deadline_ticks: 120,
            chunk_index: 0,
            chunk_count: 1,
            payload: vec![11],
        }]
    );
    assert_eq!(chunks.clone(), chunks);
}

#[test]
fn the_first_frame_depends_on_none() {
    let mut first = options();
    first.frame_id = 0;
    let chunks = packetize_video_access_unit(first, &unit(1)).unwrap();
    assert_eq!(chunks[0].dependency_frame_id, None);
    let mut keyframe = unit(1);
    keyframe.keyframe = true;
    let chunks = packetize_video_access_unit(options(), &keyframe).unwrap();
    assert_eq!(chunks[0].dependency_frame_id, None);
    assert!(chunks[0].keyframe);
}

#[test]
fn frames_that_break_a_rule_are_refused() {
    let refuse = |change: fn(&mut VideoFramePacketizeOptions<'static>)| {
        let mut changed = options();
        change(&mut changed);
        refusal(packetize_video_access_unit(changed, &unit(9)))
    };
    assert_eq!(refuse(|o| o.stream_id = ""), Refusal::StreamIdEmpty);
    assert_eq!(refuse(|o| o.session_id = ""), Refusal::SessionIdEmpty);
    assert_eq!(refuse(|o| o.codec = ""), Refusal::CodecEmpty);
    assert_eq!(refuse(|o| o.timebase_num = 0), Refusal::VideoTimebaseZero);
    assert_eq!(refuse(|o| o.timebase_den = 0), Refusal::VideoTimebaseZero);
    assert_eq!(refuse(|o| o.duration_ticks = 0), Refusal::VideoDurationZero);
    assert_eq!(refuse(|o| o.deadline_ticks = 99), Refusal::VideoDeadlineBeforePts);
    assert_eq!(refuse(|o| o.max_payload_bytes = 0), Refusal::MaxPayloadZero);
    assert_eq!(
        refusal(packetize_video_access_unit(options(), &unit(0))),
        Refusal::AccessUnitEmpty
    );
    let mut small = options();
    small.max_payload_bytes = 1;
    assert_eq!(packetize_video_access_unit(small, &unit(65_535)).unwrap().len(), 65_535);
    assert_eq!(
        refusal(packetize_video_access_unit(small, &unit(65_536))),
        Refusal::TooManyChunks
    );
}

#[test]
fn a_burst_as_long_as_the_stripes_is_recovered() {
    for (len, burst) in [(9, 0), (40, 2), (70, 1), (130, 5), (131, 17)] {
        let unit = unit(len);
        let chunks = packetize_video_access_unit(options(), &unit).unwrap();
        let parity = shards(&chunks);
        let count = parity[0].parity_count as usize;
        let lost: Vec<usize> = (burst..(burst + count).min(chunks.len())).collect();
        let mut joined = Vec::new();
        for (i, chunk) in chunks.iter().enumerate() {
            if !lost.contains(&i) {
                joined.extend_from_slice(&chunk.payload);
                continue;
            }
            let shard = &parity[i % count];
            let told = if i + 1 == chunks.len() {
                shard.last_chunk_payload_bytes
            } else {
                shard.chunk_payload_bytes
            };
            let mut recovered = shard.payload.clone();
            for (j, other) in chunks.iter().enumerate() {
                if j % count == i % count && !lost.contains(&j) {
                    for (offset, byte) in other.payload.iter().enumerate() {
                        recovered[offset] ^= *byte;
                    }
                }
            }
            recovered.truncate(told as usize);
            joined.extend_from_slice(&recovered);
        }
        assert_eq!(joined, unit.bytes);
    }
}

#[test]
fn there_is_one_shard_per_stripe() {
    for (len, expected) in [(5, 2), (12, 3), (64, 16), (65, 16), (200, 16)] {
        let chunks = packetize_video_access_unit(options(), &unit(len)).unwrap();
        let parity = shards(&chunks);
        assert_eq!(parity.len(), expected);
        for (i, shard) in parity.iter().enumerate() {
            assert_eq!(shard.parity_index as usize, i);
            assert_eq!(shard.parity_count as usize, expected);
            assert_eq!(shard.chunk_count as usize, chunks.len());
            assert_eq!(shard.chunk_payload_bytes, 4);
            assert_eq!(
                shard.last_chunk_payload_bytes as usize,
                chunks[chunks.len() - 1].payload.len()
            );
            assert_eq!(shard.frame_id, 7);
        }
    }
}

#[test]
fn parity_is_the_exclusive_or_of_a_stripe() {
    let mut narrow = options();
    narrow.max_payload_bytes = 1;
    let chunks = packetize_video_access_unit(narrow, &unit(18)).unwrap();
    let parity = shards(&chunks);
    assert_eq!(parity[0].payload, vec![chunks[0].payload[0] ^ chunks[16].payload[0]]);
    assert_eq!(parity[1].payload, vec![chunks[1].payload[0] ^ chunks[17].payload[0]]);
    assert_eq!(parity[2].payload, chunks[2].payload);
    assert_eq!(parity[0].clone(), parity[0]);
}

#[test]
fn single_chunks_have_no_parity() {
    let chunks = packetize_video_access_unit(options(), &unit(3)).unwrap();
    assert_eq!(build_video_parity_shards(&chunks, &[Err("unheard".to_string())]), Ok(vec![]));
    assert_eq!(build_video_parity_shards(&[], &[]), Ok(vec![]));
}

#[test]
fn empty_stripes_have_no_shard() {
    let mut chunks = packetize_video_access_unit(options(), &unit(12)).unwrap();
    chunks[1].payload.clear();
    let parity = shards(&chunks);
    assert_eq!(parity.len(), 2);
    assert_eq!(parity[0].parity_index, 0);
    assert_eq!(parity[1].parity_index, 2);
}

#[test]
fn the_order_of_chunks_makes_no_difference_to_parity() {
    let chunks = packetize_video_access_unit(options(), &unit(70)).unwrap();
    let mut turned = chunks.clone();
    turned.reverse();
    assert_eq!(shards(&turned), shards(&chunks));
}

#[test]
fn incomplete_frames_get_no_parity() {
    let chunks = packetize_video_access_unit(options(), &unit(12)).unwrap();
    let all = accepted(3);
    let error = build_video_parity_shards(&chunks[..2], &all[..2]).unwrap_err();
    assert_eq!(
        error.message(),
        "video parity requires all chunks: expected 3, received 2"
    );
    let mut mixed = chunks.clone();
    mixed[2].keyframe = true;
    assert_eq!(
        refusal(build_video_parity_shards(&mixed, &all)),
        Refusal::ParityMixedMetadata
    );
    let mut twice = chunks.clone();
    twice[2].chunk_index = 1;
    let error = build_video_parity_shards(&twice, &all).unwrap_err();
    assert_eq!(error.message(), "video parity received duplicate chunk_index 1");
    let mut missing = chunks.clone();
    missing[1].chunk_index = 9;
    let error = build_video_parity_shards(&missing, &all).unwrap_err();
    assert_eq!(error.message(), "video parity missing chunk_index 1");
}

#[test]
fn refused_chunks_get_no_parity() {
    let chunks = packetize_video_access_unit(options(), &unit(12)).unwrap();
    let mut verdicts = accepted(3);
    verdicts[1] = Err("bad chunk".to_string());
    let error = build_video_parity_shards(&chunks, &verdicts).unwrap_err();
    assert_eq!(error, MediaError::Wire("bad chunk".to_string()));
    assert_eq!(error.message(), "bad chunk");
    verdicts[0] = Err("bad first".to_string());
    let error = build_video_parity_shards(&chunks[..2], &verdicts[..2]).unwrap_err();
    assert_eq!(error.message(), "bad first");
}

#[test]
fn parity_follows_each_frame() {
    let mut later = options();
    later.frame_id = 8;
    let mut chunks = packetize_video_access_unit(options(), &unit(5)).unwrap();
    chunks.extend(packetize_video_access_unit(later, &unit(2)).unwrap());
    let records = video_wire_records_with_parity(&chunks, &accepted(3)).unwrap();
    let kinds: Vec<(bool, u64)> = records
        .iter()
        .map(|record| match record {
            GameCultMediaWireRecord::Video(chunk) => (false, chunk.frame_id),
            GameCultMediaWireRecord::VideoParity(shard) => (true, shard.frame_id),
            _ => panic!("no other record is wanted"),
        })
        .collect();
    assert_eq!(kinds, vec![(false, 7), (false, 7), (true, 7), (true, 7), (false, 8)]);
    assert_eq!(records.clone(), records);
    let alone = video_wire_records_with_parity(&chunks[1..], &accepted(2)).unwrap();
    assert_eq!(alone.len(), 2);
    let mut verdicts = accepted(3);
    verdicts[1] = Err("bad chunk".to_string());
    let error = video_wire_records_with_parity(&chunks, &verdicts).unwrap_err();
    assert_eq!(error.message(), "bad chunk");
}

fn stream_options() -> VideoAnnexBStreamPacketizeOptions<'static> {
    VideoAnnexBStreamPacketizeOptions {
        stream_id: "stream",
        session_id: "session",
        codec: "h264",
        first_frame_id: 5,
        first_pts_ticks: -100,
        frame_duration_ticks: 40,
        timebase_num: 1,
        timebase_den: 1_000,
        deadline_delay_ticks: 25,
        max_payload_bytes: 3,
    }
}

const THREE_FRAMES: [u8; 15] = [0, 0, 1, 0x65, 0x80, 0, 0, 1, 0x41, 0x80, 0, 0, 1, 0x41, 0x80];

#[test]
fn streams_are_timed_evenly() {
    let records = packetize_video_annex_b_stream(stream_options(), &THREE_FRAMES).unwrap();
    assert_eq!(records.len(), 6);
    for record in &records {
        let k = record.frame_id as i64 - 5;
        assert!((0..3).contains(&k));
        assert_eq!(record.pts_ticks, -100 + k * 40);
        assert_eq!(record.deadline_ticks, record.pts_ticks + 25);
        assert_eq!(record.keyframe, k == 0);
    }
}

#[test]
fn packetized_streams_lose_nothing() {
    let mut stream = vec![0x47, 0x40];
    stream.extend_from_slice(&THREE_FRAMES);
    let records = packetize_video_annex_b_stream(stream_options(), &stream).unwrap();
    let joined: Vec<u8> = records.iter().flat_map(|record| record.payload.clone()).collect();
    assert_eq!(joined, THREE_FRAMES.to_vec());
}

#[test]
fn streams_that_run_out_of_numbers_are_refused() {
    let refuse = |change: fn(&mut VideoAnnexBStreamPacketizeOptions<'static>)| {
        let mut changed = stream_options();
        change(&mut changed);
        refusal(packetize_video_annex_b_stream(changed, &THREE_FRAMES))
    };
    assert_eq!(refuse(|o| o.frame_duration_ticks = 0), Refusal::FrameDurationZero);
    assert_eq!(refuse(|o| o.deadline_delay_ticks = -1), Refusal::DeadlineDelayNegative);
    assert_eq!(refuse(|o| o.first_frame_id = u64::MAX - 1), Refusal::VideoFrameIdOverflow);
    assert_eq!(refuse(|o| o.first_pts_ticks = i64::MAX - 79), Refusal::VideoPtsOverflow);
    assert_eq!(refuse(|o| o.first_pts_ticks = i64::MAX - 80), Refusal::VideoDeadlineOverflow);
    assert_eq!(refuse(|o| o.max_payload_bytes = 0), Refusal::MaxPayloadZero);
    let mut unknown = stream_options();
    unknown.codec = "mjpeg";
    assert_eq!(
        packetize_video_annex_b_stream(unknown, &THREE_FRAMES),
        Err(MediaError::UnsupportedCodec("mjpeg".to_string()))
    );
}
