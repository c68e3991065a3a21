use muninn_daemon::annexb::{
    h264_annex_b_access_units, h265_annex_b_access_units, video_annex_b_access_units,
    VideoAccessUnit,
};
use muninn_daemon::error::MediaError;
use muninn_daemon::parity::build_video_parity_shards;
use muninn_daemon::video::{
    packetize_video_access_unit, packetize_video_annex_b_stream, VideoAnnexBStreamPacketizeOptions,
    VideoFramePacketizeOptions,
};

type Result<T> = std::result::Result<T, MediaError>;

fn start_code() -> [u8; 4] {
    [0, 0, 0, 1]
}

fn h265_nal(nal_type: u8, slice_first: Option<bool>) -> Vec<u8> {
    let mut nal = vec![nal_type << 1, 0x01];
    if let Some(first) = slice_first {
        nal.push(if first { 0x80 } else { 0x00 });
    } else {
        nal.push(0x00);
    }
    nal
}

fn accepted(count: usize) -> Vec<std::result::Result<(), String>> {
    (0..count).map(|_| Ok(())).collect()
}

#[test]
fn splits_h264_annex_b_access_units_on_aud_boundaries() -> Result<()> {
    let mut stream = Vec::new();
    stream.extend_from_slice(&start_code());
    stream.extend_from_slice(&[0x09, 0xf0]);
    stream.extend_from_slice(&start_code());
    stream.extend_from_slice(&[0x67, 0x42, 0x00, 0x1f]);
    stream.extend_from_slice(&start_code());
    stream.extend_from_slice(&[0x65, 0x80]);
    stream.extend_from_slice(&start_code());
    stream.extend_from_slice(&[0x09, 0xf0]);
    stream.extend_from_slice(&start_code());
    stream.extend_from_slice(&[0x41, 0x80]);

    let access_units = h264_annex_b_access_units(&stream)?;

    assert_eq!(access_units.len(), 2);
    assert!(access_units[0].keyframe);
    assert!(!access_units[1].keyframe);
    assert!(access_units[0].bytes.starts_with(&start_code()));
    assert!(access_units[1].bytes.starts_with(&start_code()));
    Ok(())
}

#[test]
fn splits_h264_annex_b_access_units_on_new_slice_zero() -> Result<()> {
    let mut stream = Vec::new();
    stream.extend_from_slice(&start_code());
    stream.extend_from_slice(&[0x65, 0x80]);
    stream.extend_from_slice(&start_code());
    stream.extend_from_slice(&[0x41, 0x80]);

    let access_units = h264_annex_b_access_units(&stream)?;

    assert_eq!(access_units.len(), 2);
    assert!(access_units[0].keyframe);
    assert!(!access_units[1].keyframe);
    Ok(())
}

#[test]
fn video_annex_b_dispatches_h264_aliases() -> Result<()> {
    let mut stream = Vec::new();
    stream.extend_from_slice(&start_code());
    stream.extend_from_slice(&[0x65, 0x80]);

    let access_units = video_annex_b_access_units("AVC", &stream)?;

    assert_eq!(access_units.len(), 1);
    assert!(access_units[0].keyframe);
    Ok(())
}

#[test]
fn splits_h265_annex_b_access_units_on_aud_boundaries() -> Result<()> {
    let mut stream = Vec::new();
    stream.extend_from_slice(&start_code());
    stream.extend_from_slice(&h265_nal(35, None));
    stream.extend_from_slice(&start_code());
    stream.extend_from_slice(&h265_nal(32, None));
    stream.extend_from_slice(&start_code());
    stream.extend_from_slice(&h265_nal(33, None));
    stream.extend_from_slice(&start_code());
    stream.extend_from_slice(&h265_nal(34, None));
    stream.extend_from_slice(&start_code());
    stream.extend_from_slice(&h265_nal(19, Some(true)));
    stream.extend_from_slice(&start_code());
    stream.extend_from_slice(&h265_nal(35, None));
    stream.extend_from_slice(&start_code());
    stream.extend_from_slice(&h265_nal(1, Some(true)));

    let access_units = h265_annex_b_access_units(&stream)?;

    assert_eq!(access_units.len(), 2);
    assert!(access_units[0].keyframe);
    assert!(!access_units[1].keyframe);
    assert!(access_units[0].bytes.starts_with(&start_code()));
    assert!(access_units[1].bytes.starts_with(&start_code()));
    Ok(())
}

#[test]
fn splits_h265_annex_b_access_units_on_first_slice_flag() -> Result<()> {
    let mut stream = Vec::new();
    stream.extend_from_slice(&start_code());
    stream.extend_from_slice(&h265_nal(19, Some(true)));
    stream.extend_from_slice(&start_code());
    stream.extend_from_slice(&h265_nal(1, Some(true)));

    let access_units = h265_annex_b_access_units(&stream)?;

    assert_eq!(access_units.len(), 2);
    assert!(access_units[0].keyframe);
    assert!(!access_units[1].keyframe);
    Ok(())
}

#[test]
fn video_annex_b_dispatches_hevc_aliases() -> Result<()> {
    let mut stream = Vec::new();
    stream.extend_from_slice(&start_code());
    stream.extend_from_slice(&h265_nal(19, Some(true)));

    let access_units = video_annex_b_access_units("HEVC", &stream)?;

    assert_eq!(access_units.len(), 1);
    assert!(access_units[0].keyframe);
    Ok(())
}

#[test]
fn video_annex_b_rejects_av1_without_obu_packetizer() {
    let error = video_annex_b_access_units("av1", &[1, 2, 3]).unwrap_err();

    assert!(
        error.message().contains("AV1 access unit splitting is not Annex B")
    );
}

#[test]
fn video_annex_b_rejects_unknown_codec() {
    let error = video_annex_b_access_units("vp9", &[1, 2, 3]).unwrap_err();

    assert!(
        error.message().contains("unsupported Annex B video codec vp9")
    );
}

#[test]
fn packetizes_access_unit_into_typed_video_chunks() -> Result<()> {
    let access_unit = VideoAccessUnit {
        bytes: vec![1, 2, 3, 4, 5],
        keyframe: false,
    };

    let records = packetize_video_access_unit(
        VideoFramePacketizeOptions {
            stream_id: "muninn.raven.av.rudp",
            session_id: "session-1",
            codec: "h264",
            frame_id: 9,
            pts_ticks: 27_000,
            duration_ticks: 3_000,
            timebase_num: 1,
            timebase_den: 90_000,
            deadline_ticks: 28_800,
            max_payload_bytes: 2,
        },
        &access_unit,
    )?;

    assert_eq!(records.len(), 3);
    assert_eq!(records[0].chunk_index, 0);
    assert_eq!(records[0].chunk_count, 3);
    assert_eq!(records[0].dependency_frame_id, Some(8));
    assert_eq!(records[2].payload, vec![5]);
    Ok(())
}

#[test]
fn builds_video_parity_shards_for_burst_loss_recovery() -> Result<()> {
    let access_unit = VideoAccessUnit {
        bytes: (1_u8..=40).collect(),
        keyframe: false,
    };
    let records = packetize_video_access_unit(
        VideoFramePacketizeOptions {
            stream_id: "muninn.raven.av.rudp",
            session_id: "session-1",
            codec: "h264",
            frame_id: 9,
            pts_ticks: 27_000,
            duration_ticks: 3_000,
            timebase_num: 1,
            timebase_den: 90_000,
            deadline_ticks: 28_800,
            max_payload_bytes: 2,
        },
        &access_unit,
    )?;

    let parity = build_video_parity_shards(&records, &accepted(records.len()))?;

    assert_eq!(records.len(), 20);
    assert_eq!(parity.len(), 16);
    assert!(
        parity.iter().enumerate().all(
            |(index, shard)| shard.parity_index == index as u16 && shard.parity_count == 16
        )
    );
    assert!(parity.iter().all(|shard| shard.chunk_payload_bytes == 2));

    let mut recovered_tail = Vec::new();
    for missing_index in 16_u16..20 {
        let shard = parity
            .iter()
            .find(|shard| shard.parity_index == missing_index % shard.parity_count)
            .expect("tail chunk stripe exists");
        let mut recovered = shard.payload.clone();
        for chunk in records.iter().filter(|chunk| {
            chunk.chunk_index != missing_index
                && chunk.chunk_index % shard.parity_count == shard.parity_index
        }) {
            for (offset, byte) in chunk.payload.iter().enumerate() {
                recovered[offset] ^= *byte;
            }
        }
        recovered.truncate(records[missing_index as usize].payload.len());
        recovered_tail.extend(recovered);
    }
    let expected_tail: Vec<u8> = records[16..20]
        .iter()
        .flat_map(|record| record.payload.iter().copied())
        .collect();
    assert_eq!(recovered_tail, expected_tail);
    Ok(())
}

#[test]
fn packetizes_annex_b_stream_into_timed_video_records() -> Result<()> {
    let mut stream = Vec::new();
    stream.extend_from_slice(&start_code());
    stream.extend_from_slice(&[0x65, 0x80]);
    stream.extend_from_slice(&start_code());
    stream.extend_from_slice(&[0x41, 0x80]);

    let records = packetize_video_annex_b_stream(
        VideoAnnexBStreamPacketizeOptions {
            stream_id: "muninn.raven.av.rudp",
            session_id: "session-1",
            codec: "avc",
            first_frame_id: 9,
            first_pts_ticks: 27_000,
            frame_duration_ticks: 3_000,
            timebase_num: 1,
            timebase_den: 90_000,
            deadline_delay_ticks: 1_800,
            max_payload_bytes: 16,
        },
        &stream,
    )?;

    assert_eq!(records.len(), 2);
    assert_eq!(records[0].frame_id, 9);
    assert_eq!(records[0].pts_ticks, 27_000);
    assert_eq!(records[0].deadline_ticks, 28_800);
    assert!(records[0].keyframe);
    assert_eq!(records[1].frame_id, 10);
    assert_eq!(records[1].pts_ticks, 30_000);
    assert_eq!(records[1].deadline_ticks, 31_800);
    assert_eq!(records[1].dependency_frame_id, Some(9));
    assert_eq!(records[1].codec, "avc");
    Ok(())
}

#[test]
fn packetizes_non_reference_h264_p_frames_without_dependency() -> Result<()> {
    let mut stream = Vec::new();
    stream.extend_from_slice(&start_code());
    stream.extend_from_slice(&[0x65, 0x80]);
    stream.extend_from_slice(&start_code());
    stream.extend_from_slice(&[0x01, 0x80]);

    let records = packetize_video_annex_b_stream(
        VideoAnnexBStreamPacketizeOptions {
            stream_id: "muninn.raven.av.rudp",
            session_id: "session-1",
            codec: "h264",
            first_frame_id: 9,
            first_pts_ticks: 27_000,
            frame_duration_ticks: 3_000,
            timebase_num: 1,
            timebase_den: 90_000,
            deadline_delay_ticks: 1_800,
            max_payload_bytes: 16,
        },
        &stream,
    )?;

    assert_eq!(records.len(), 2);
    assert!(records[0].keyframe);
    assert_eq!(records[0].dependency_frame_id, None);
    assert!(!records[1].keyframe);
    assert_eq!(records[1].dependency_frame_id, None);
    Ok(())
}

#[test]
fn rejects_negative_annex_b_stream_deadline_delay() {
    let error = packetize_video_annex_b_stream(
        VideoAnnexBStreamPacketizeOptions {
            stream_id: "muninn.raven.av.rudp",
            session_id: "session-1",
            codec: "h264",
            first_frame_id: 9,
            first_pts_ticks: 27_000,
            frame_duration_ticks: 3_000,
            timebase_num: 1,
            timebase_den: 90_000,
            deadline_delay_ticks: -1,
            max_payload_bytes: 4,
        },
        &[0, 0, 0, 1, 0x65, 0x80],
    )
    .unwrap_err();

    assert!(
        error.message().contains("deadline_delay_ticks must be non-negative")
    );
}

#[test]
fn rejects_zero_duration_video_access_units() {
    let access_unit = VideoAccessUnit {
        bytes: vec![1, 2, 3],
        keyframe: true,
    };

    let error = packetize_video_access_unit(
        VideoFramePacketizeOptions {
            stream_id: "muninn.raven.av.rudp",
            session_id: "session-1",
            codec: "h264",
            frame_id: 9,
            pts_ticks: 27_000,
            duration_ticks: 0,
            timebase_num: 1,
            timebase_den: 90_000,
            deadline_ticks: 28_800,
            max_payload_bytes: 2,
        },
        &access_unit,
    )
    .unwrap_err();

    assert!(
        error.message().contains("video duration_ticks must be greater than zero")
    );
}

#[test]
fn rejects_video_deadline_before_pts() {
    let access_unit = VideoAccessUnit {
        bytes: vec![1, 2, 3],
        keyframe: true,
    };

    let error = packetize_video_access_unit(
        VideoFramePacketizeOptions {
            stream_id: "muninn.raven.av.rudp",
            session_id: "session-1",
            codec: "h264",
            frame_id: 9,
            pts_ticks: 27_000,
            duration_ticks: 3_000,
            timebase_num: 1,
            timebase_den: 90_000,
            deadline_ticks: 26_999,
            max_payload_bytes: 2,
        },
        &access_unit,
    )
    .unwrap_err();

    assert!(
        error.message().contains("video deadline_ticks must not precede pts_ticks")
    );
}
