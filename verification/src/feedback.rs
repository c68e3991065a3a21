//! Receiver feedback: what a receiver reports of a stream.

use vstd::prelude::*;

use crate::error::{MediaError, MediaFault, Refusal};
use crate::ordered;
use crate::ordered::rising_unique;
use crate::records;
use crate::records::{Feedback, GameCultMediaReceiverFeedbackRecord};

verus! {

/// What a receiver has seen of a stream.
pub struct ReceiverFeedbackOptions<'a> {
    pub stream_id: &'a str,
    pub session_id: &'a str,
    pub receiver_id: &'a str,
    pub highest_decodable_frame_id: Option<u64>,
    pub missing_frame_ids: Vec<u64>,
    pub missing_video_chunk_keys: Vec<String>,
    pub late_frame_ids: Vec<u64>,
    pub requested_keyframe: bool,
    pub jitter_us: i64,
    pub decode_queue_us: i64,
    pub observed_at: &'a str,
}

/// The first rule that a report breaks.
pub open spec fn feedback_refusal(options: ReceiverFeedbackOptions<'_>) -> Option<Refusal> {
    if options.stream_id@.len() == 0 {
        Some(Refusal::StreamIdEmpty)
    } else if options.session_id@.len() == 0 {
        Some(Refusal::SessionIdEmpty)
    } else if options.receiver_id@.len() == 0 {
        Some(Refusal::ReceiverIdEmpty)
    } else if options.observed_at@.len() == 0 {
        Some(Refusal::ObservedAtEmpty)
    } else if options.jitter_us < 0 {
        Some(Refusal::JitterNegative)
    } else if options.decode_queue_us < 0 {
        Some(Refusal::DecodeQueueNegative)
    } else {
        None
    }
}

/// A report whose chunk keys the media wire layer has yet to normalize.
#[derive(Debug, PartialEq, Eq)]
pub struct ReceiverFeedbackDraft {
    /// The chunk keys as they were reported.
    pub chunk_keys: Vec<String>,
    /// The report without its chunk keys.
    pub record: GameCultMediaReceiverFeedbackRecord,
}

/// Whether `report` is the report for `options`, still without chunk keys: the damage
/// lists are in rising order and free of repetitions, and a keyframe is requested where
/// the receiver asks for one or misses a frame.
pub open spec fn reports(options: ReceiverFeedbackOptions<'_>, report: Feedback) -> bool {
    &&& report.stream_id == options.stream_id@
    &&& report.session_id == options.session_id@
    &&& report.receiver_id == options.receiver_id@
    &&& report.highest_decodable_frame_id == options.highest_decodable_frame_id
    &&& ordered::is_rising_of(report.missing_frame_ids, options.missing_frame_ids@)
    &&& ordered::is_rising_of(report.late_frame_ids, options.late_frame_ids@)
    &&& report.requested_keyframe == (options.requested_keyframe
        || options.missing_frame_ids@.len() > 0)
    &&& report.jitter_us == options.jitter_us
    &&& report.decode_queue_us == options.decode_queue_us
    &&& report.observed_at == options.observed_at@
    &&& report.missing_video_chunk_keys == Seq::<Seq<char>>::empty()
}

/// `report` with normalized chunk keys. A missing chunk asks for a keyframe.
pub open spec fn with_keys(report: Feedback, keys: Seq<Seq<char>>) -> Feedback {
    Feedback {
        missing_video_chunk_keys: keys,
        requested_keyframe: report.requested_keyframe || keys.len() > 0,
        ..report
    }
}

/// Drafts a receiver's report.
pub fn build_receiver_feedback(options: ReceiverFeedbackOptions<'_>) -> (outcome: Result<
    ReceiverFeedbackDraft,
    MediaError,
>)
    ensures
        match outcome {
            Ok(draft) => {
                &&& feedback_refusal(options) is None
                &&& reports(options, draft.record@)
                &&& draft.chunk_keys@ == options.missing_video_chunk_keys@
                &&& draft.record.stream_id@ == options.stream_id@
                &&& draft.record.session_id@ == options.session_id@
                &&& draft.record.receiver_id@ == options.receiver_id@
                &&& draft.record.highest_decodable_frame_id == options.highest_decodable_frame_id
                &&& draft.record.jitter_us == options.jitter_us
                &&& draft.record.decode_queue_us == options.decode_queue_us
                &&& draft.record.observed_at@ == options.observed_at@
                &&& forall|i: int, j: int|
                    0 <= i < j < draft.record.missing_frame_ids@.len()
                        ==> #[trigger] draft.record.missing_frame_ids@[i]
                        < #[trigger] draft.record.missing_frame_ids@[j]
                &&& forall|id: u64| #[trigger]
                    draft.record.missing_frame_ids@.contains(id)
                        <==> options.missing_frame_ids@.contains(id)
                &&& forall|i: int, j: int|
                    0 <= i < j < draft.record.late_frame_ids@.len()
                        ==> #[trigger] draft.record.late_frame_ids@[i]
                        < #[trigger] draft.record.late_frame_ids@[j]
                &&& forall|id: u64| #[trigger]
                    draft.record.late_frame_ids@.contains(id)
                        <==> options.late_frame_ids@.contains(id)
                &&& draft.record.requested_keyframe <==> options.requested_keyframe
                    || options.missing_frame_ids@.len() > 0
            },
            Err(error) => feedback_refusal(options) is Some && error@ == MediaFault::Refused(
                feedback_refusal(options)->0,
            ),
        },
        outcome is Ok <==> {
            &&& options.stream_id@.len() > 0
            &&& options.session_id@.len() > 0
            &&& options.receiver_id@.len() > 0
            &&& options.observed_at@.len() > 0
            &&& options.jitter_us >= 0
            &&& options.decode_queue_us >= 0
        },
{
    if options.stream_id.is_empty() {
        return Err(MediaError::Refused(Refusal::StreamIdEmpty));
    }
    if options.session_id.is_empty() {
        return Err(MediaError::Refused(Refusal::SessionIdEmpty));
    }
    if options.receiver_id.is_empty() {
        return Err(MediaError::Refused(Refusal::ReceiverIdEmpty));
    }
    if options.observed_at.is_empty() {
        return Err(MediaError::Refused(Refusal::ObservedAtEmpty));
    }
    if options.jitter_us < 0 {
        return Err(MediaError::Refused(Refusal::JitterNegative));
    }
    if options.decode_queue_us < 0 {
        return Err(MediaError::Refused(Refusal::DecodeQueueNegative));
    }
    let missing_frame_ids = rising_unique(&options.missing_frame_ids);
    let late_frame_ids = rising_unique(&options.late_frame_ids);
    let requested_keyframe = options.requested_keyframe || missing_frame_ids.len() > 0;
    let record = GameCultMediaReceiverFeedbackRecord {
        stream_id: options.stream_id.to_owned(),
        session_id: options.session_id.to_owned(),
        receiver_id: options.receiver_id.to_owned(),
        highest_decodable_frame_id: options.highest_decodable_frame_id,
        missing_frame_ids,
        late_frame_ids,
        requested_keyframe,
        jitter_us: options.jitter_us,
        decode_queue_us: options.decode_queue_us,
        observed_at: options.observed_at.to_owned(),
        missing_video_chunk_keys: Vec::new(),
    };
    assert(record@.missing_video_chunk_keys =~= Seq::<Seq<char>>::empty());
    Ok(ReceiverFeedbackDraft { chunk_keys: options.missing_video_chunk_keys, record })
}

impl ReceiverFeedbackDraft {
    /// The report, given what the media wire layer makes of its chunk keys.
    pub fn with_chunk_keys(self, normalized: Result<Vec<String>, String>) -> (outcome: Result<
        GameCultMediaReceiverFeedbackRecord,
        MediaError,
    >)
        ensures
            match outcome {
                Ok(record) => normalized is Ok && record@ == with_keys(
                    self.record@,
                    records::text_views(normalized->Ok_0@),
                ),
                Err(error) => normalized is Err && error@ == MediaFault::Wire(
                    normalized->Err_0@,
                ),
            },
            outcome matches Ok(record) ==> {
                &&& record.stream_id == self.record.stream_id
                &&& record.session_id == self.record.session_id
                &&& record.receiver_id == self.record.receiver_id
                &&& record.highest_decodable_frame_id == self.record.highest_decodable_frame_id
                &&& record.missing_frame_ids == self.record.missing_frame_ids
                &&& record.late_frame_ids == self.record.late_frame_ids
                &&& record.jitter_us == self.record.jitter_us
                &&& record.decode_queue_us == self.record.decode_queue_us
                &&& record.observed_at == self.record.observed_at
                &&& record.missing_video_chunk_keys == normalized->Ok_0
                &&& record.requested_keyframe <==> self.record.requested_keyframe
                    || normalized->Ok_0@.len() > 0
            },
    {
        match normalized {
            Ok(keys) => {
                let mut record = self.record;
                record.requested_keyframe = record.requested_keyframe || keys.len() > 0;
                record.missing_video_chunk_keys = keys;
                Ok(record)
            },
            Err(text) => Err(MediaError::Wire(text)),
        }
    }
}

/// A report asks for a keyframe exactly where the receiver does, or where it lists a
/// missing frame or a missing chunk.
pub proof fn law_damage_requests_a_keyframe(
    options: ReceiverFeedbackOptions<'_>,
    report: Feedback,
    keys: Seq<Seq<char>>,
)
    requires
        reports(options, report),
    ensures
        with_keys(report, keys).requested_keyframe <==> {
            ||| options.requested_keyframe
            ||| with_keys(report, keys).missing_frame_ids.len() > 0
            ||| with_keys(report, keys).missing_video_chunk_keys.len() > 0
        },
{
    let ids = report.missing_frame_ids;
    if ids.len() > 0 {
        assert(ids.contains(ids[0]));
    }
    if options.missing_frame_ids@.len() > 0 {
        assert(options.missing_frame_ids@.contains(options.missing_frame_ids@[0]));
    }
}

/// The finished report says what the receiver gave: whose report of which stream it is, how
/// far the receiver can decode, its jitter, its decode queue and when it looked. Missing and
/// late frames are those that the receiver listed, in rising order and each once.
pub proof fn law_reports_say_what_the_receiver_gave(
    options: ReceiverFeedbackOptions<'_>,
    report: Feedback,
    keys: Seq<Seq<char>>,
)
    requires
        reports(options, report),
    ensures
        ({
            let finished = with_keys(report, keys);
            &&& finished.stream_id == options.stream_id@
            &&& finished.session_id == options.session_id@
            &&& finished.receiver_id == options.receiver_id@
            &&& finished.highest_decodable_frame_id == options.highest_decodable_frame_id
            &&& finished.jitter_us == options.jitter_us
            &&& finished.decode_queue_us == options.decode_queue_us
            &&& finished.observed_at == options.observed_at@
            &&& finished.missing_video_chunk_keys == keys
            &&& forall|i: int, j: int|
                0 <= i < j < finished.missing_frame_ids.len()
                    ==> #[trigger] finished.missing_frame_ids[i]
                    < #[trigger] finished.missing_frame_ids[j]
            &&& forall|id: u64| #[trigger]
                finished.missing_frame_ids.contains(id) <==> options.missing_frame_ids@.contains(id)
            &&& forall|i: int, j: int|
                0 <= i < j < finished.late_frame_ids.len() ==> #[trigger] finished.late_frame_ids[i]
                    < #[trigger] finished.late_frame_ids[j]
            &&& forall|id: u64| #[trigger]
                finished.late_frame_ids.contains(id) <==> options.late_frame_ids@.contains(id)
            &&& finished.requested_keyframe <==> {
                ||| options.requested_keyframe
                ||| options.missing_frame_ids@.len() > 0
                ||| keys.len() > 0
            }
        }),
{
}

/// A report is drawn up exactly where it names a stream, a session, a receiver and a time,
/// and neither jitter nor decode queue is negative. Otherwise the first of these that fails
/// is told.
pub proof fn law_what_is_refused_a_report(options: ReceiverFeedbackOptions<'_>)
    ensures
        feedback_refusal(options) == if options.stream_id@.len() == 0 {
            Some(Refusal::StreamIdEmpty)
        } else if options.session_id@.len() == 0 {
            Some(Refusal::SessionIdEmpty)
        } else if options.receiver_id@.len() == 0 {
            Some(Refusal::ReceiverIdEmpty)
        } else if options.observed_at@.len() == 0 {
            Some(Refusal::ObservedAtEmpty)
        } else if options.jitter_us < 0 {
            Some(Refusal::JitterNegative)
        } else if options.decode_queue_us < 0 {
            Some(Refusal::DecodeQueueNegative)
        } else {
            None
        },
{
}

} // verus!
