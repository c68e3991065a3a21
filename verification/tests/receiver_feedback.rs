use muninn_daemon::error::MediaError;
use muninn_daemon::feedback::{build_receiver_feedback, ReceiverFeedbackOptions};

type Result<T> = std::result::Result<T, MediaError>;

/// A chunk key as the media wire layer writes it.
fn video_chunk_feedback_key(frame_id: u64, chunk_index: u16) -> String {
    format!("{frame_id}:{chunk_index}")
}

/// Stands in for the media wire layer: sorts the keys and drops repetitions, and refuses one
/// whose first half is no number.
fn normalize(keys: &[String]) -> std::result::Result<Vec<String>, String> {
    let mut parsed: Vec<(u64, String)> = Vec::new();
    for key in keys {
        let frame = key.split(':').next().unwrap_or("");
        let frame_id = frame
            .parse::<u64>()
            .map_err(|_| format!("video chunk key frame_id is no number: {key}"))?;
        parsed.push((frame_id, key.clone()));
    }
    parsed.sort();
    parsed.dedup();
    Ok(parsed.into_iter().map(|(_, key)| key).collect())
}

#[test]
fn builds_receiver_feedback_with_sorted_unique_damage_lists() -> Result<()> {
    let draft = build_receiver_feedback(ReceiverFeedbackOptions {
        stream_id: "muninn.raven.av.rudp",
        session_id: "session-1",
        receiver_id: "starfire.obs",
        highest_decodable_frame_id: Some(40),
        missing_frame_ids: vec![43, 42, 43],
        missing_video_chunk_keys: vec![
            video_chunk_feedback_key(43, 2),
            video_chunk_feedback_key(42, 1),
            video_chunk_feedback_key(42, 1),
        ],
        late_frame_ids: vec![39, 39, 38],
        requested_keyframe: false,
        jitter_us: 700,
        decode_queue_us: 2_000,
        observed_at: "2026-06-18T00:00:00Z",
    })?;
    let normalized = normalize(&draft.chunk_keys);
    let feedback = draft.with_chunk_keys(normalized)?;

    assert_eq!(feedback.missing_frame_ids, vec![42, 43]);
    assert_eq!(feedback.missing_video_chunk_keys, vec!["42:1", "43:2"]);
    assert_eq!(feedback.late_frame_ids, vec![38, 39]);
    assert!(feedback.requested_keyframe);
    Ok(())
}

#[test]
fn rejects_negative_receiver_feedback_timing() {
    let error = build_receiver_feedback(ReceiverFeedbackOptions {
        stream_id: "muninn.raven.av.rudp",
        session_id: "session-1",
        receiver_id: "starfire.obs",
        highest_decodable_frame_id: Some(40),
        missing_frame_ids: Vec::new(),
        missing_video_chunk_keys: Vec::new(),
        late_frame_ids: Vec::new(),
        requested_keyframe: false,
        jitter_us: -1,
        decode_queue_us: 2_000,
        observed_at: "2026-06-18T00:00:00Z",
    })
    .unwrap_err();

    assert!(error.message().contains("jitter_us"));
}

#[test]
fn rejects_malformed_receiver_feedback_chunk_keys() {
    let draft = build_receiver_feedback(ReceiverFeedbackOptions {
        stream_id: "muninn.raven.av.rudp",
        session_id: "session-1",
        receiver_id: "starfire.obs",
        highest_decodable_frame_id: Some(40),
        missing_frame_ids: Vec::new(),
        missing_video_chunk_keys: vec!["frame:chunk".to_string()],
        late_frame_ids: Vec::new(),
        requested_keyframe: false,
        jitter_us: 0,
        decode_queue_us: 2_000,
        observed_at: "2026-06-18T00:00:00Z",
    })
    .unwrap();
    let normalized = normalize(&draft.chunk_keys);
    let error = draft.with_chunk_keys(normalized).unwrap_err();

    assert!(error.message().contains("frame_id"));
}
