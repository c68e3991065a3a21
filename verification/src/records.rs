//! The media records that travel on the wire.

use vstd::prelude::*;
use vstd::slice::slice_to_vec;

verus! {

/// One chunk of a video access unit.
#[derive(Debug, PartialEq, Eq)]
pub struct GameCultMediaVideoAccessUnitRecord {
    pub stream_id: String,
    pub session_id: String,
    pub frame_id: u64,
    pub codec: String,
    pub pts_ticks: i64,
    pub duration_ticks: u32,
    pub timebase_num: u32,
    pub timebase_den: u32,
    pub keyframe: bool,
    pub dependency_frame_id: Option<u64>,
    pub deadline_ticks: i64,
    pub chunk_index: u16,
    pub chunk_count: u16,
    pub payload: Vec<u8>,
}

/// What all chunks and parity shards of one frame have in common.
#[verifier::ext_equal]
pub struct FrameMeta {
    pub stream_id: Seq<char>,
    pub session_id: Seq<char>,
    pub frame_id: u64,
    pub codec: Seq<char>,
    pub pts_ticks: i64,
    pub duration_ticks: u32,
    pub timebase_num: u32,
    pub timebase_den: u32,
    pub keyframe: bool,
    pub dependency_frame_id: Option<u64>,
    pub deadline_ticks: i64,
    pub chunk_count: u16,
}

/// What a video record holds.
#[verifier::ext_equal]
pub struct VideoChunk {
    pub meta: FrameMeta,
    pub chunk_index: u16,
    pub payload: Seq<u8>,
}

impl View for GameCultMediaVideoAccessUnitRecord {
    type V = VideoChunk;

    open spec fn view(&self) -> VideoChunk {
        VideoChunk {
            meta: FrameMeta {
                stream_id: self.stream_id@,
                session_id: self.session_id@,
                frame_id: self.frame_id,
                codec: self.codec@,
                pts_ticks: self.pts_ticks,
                duration_ticks: self.duration_ticks,
                timebase_num: self.timebase_num,
                timebase_den: self.timebase_den,
                keyframe: self.keyframe,
                dependency_frame_id: self.dependency_frame_id,
                deadline_ticks: self.deadline_ticks,
                chunk_count: self.chunk_count,
            },
            chunk_index: self.chunk_index,
            payload: self.payload@,
        }
    }
}

impl Clone for GameCultMediaVideoAccessUnitRecord {
    fn clone(&self) -> (copy: Self)
        ensures
            copy@ == self@,
    {
        GameCultMediaVideoAccessUnitRecord {
            stream_id: self.stream_id.clone(),
            session_id: self.session_id.clone(),
            frame_id: self.frame_id,
            codec: self.codec.clone(),
            pts_ticks: self.pts_ticks,
            duration_ticks: self.duration_ticks,
            timebase_num: self.timebase_num,
            timebase_den: self.timebase_den,
            keyframe: self.keyframe,
            dependency_frame_id: self.dependency_frame_id,
            deadline_ticks: self.deadline_ticks,
            chunk_index: self.chunk_index,
            chunk_count: self.chunk_count,
            payload: slice_to_vec(self.payload.as_slice()),
        }
    }
}

/// What the video records of `records` hold.
pub open spec fn chunk_views(records: Seq<GameCultMediaVideoAccessUnitRecord>) -> Seq<VideoChunk> {
    Seq::new(records.len(), |i: int| records[i]@)
}

/// The exclusive or of one stripe of a frame's chunks.
#[derive(Debug, PartialEq, Eq)]
pub struct GameCultMediaVideoParityShardRecord {
    pub stream_id: String,
    pub session_id: String,
    pub frame_id: u64,
    pub codec: String,
    pub pts_ticks: i64,
    pub duration_ticks: u32,
    pub timebase_num: u32,
    pub timebase_den: u32,
    pub keyframe: bool,
    pub dependency_frame_id: Option<u64>,
    pub deadline_ticks: i64,
    pub chunk_count: u16,
    pub parity_index: u16,
    pub parity_count: u16,
    pub chunk_payload_bytes: u32,
    pub last_chunk_payload_bytes: u32,
    pub payload: Vec<u8>,
}

/// What a parity record holds.
#[verifier::ext_equal]
pub struct ParityShard {
    pub meta: FrameMeta,
    pub parity_index: u16,
    pub parity_count: u16,
    pub chunk_payload_bytes: u32,
    pub last_chunk_payload_bytes: u32,
    pub payload: Seq<u8>,
}

impl View for GameCultMediaVideoParityShardRecord {
    type V = ParityShard;

    open spec fn view(&self) -> ParityShard {
        ParityShard {
            meta: FrameMeta {
                stream_id: self.stream_id@,
                session_id: self.session_id@,
                frame_id: self.frame_id,
                codec: self.codec@,
                pts_ticks: self.pts_ticks,
                duration_ticks: self.duration_ticks,
                timebase_num: self.timebase_num,
                timebase_den: self.timebase_den,
                keyframe: self.keyframe,
                dependency_frame_id: self.dependency_frame_id,
                deadline_ticks: self.deadline_ticks,
                chunk_count: self.chunk_count,
            },
            parity_index: self.parity_index,
            parity_count: self.parity_count,
            chunk_payload_bytes: self.chunk_payload_bytes,
            last_chunk_payload_bytes: self.last_chunk_payload_bytes,
            payload: self.payload@,
        }
    }
}

impl Clone for GameCultMediaVideoParityShardRecord {
    fn clone(&self) -> (copy: Self)
        ensures
            copy@ == self@,
    {
        GameCultMediaVideoParityShardRecord {
            stream_id: self.stream_id.clone(),
            session_id: self.session_id.clone(),
            frame_id: self.frame_id,
            codec: self.codec.clone(),
            pts_ticks: self.pts_ticks,
            duration_ticks: self.duration_ticks,
            timebase_num: self.timebase_num,
            timebase_den: self.timebase_den,
            keyframe: self.keyframe,
            dependency_frame_id: self.dependency_frame_id,
            deadline_ticks: self.deadline_ticks,
            chunk_count: self.chunk_count,
            parity_index: self.parity_index,
            parity_count: self.parity_count,
            chunk_payload_bytes: self.chunk_payload_bytes,
            last_chunk_payload_bytes: self.last_chunk_payload_bytes,
            payload: slice_to_vec(self.payload.as_slice()),
        }
    }
}

/// What the parity records of `records` hold.
pub open spec fn shard_views(records: Seq<GameCultMediaVideoParityShardRecord>) -> Seq<
    ParityShard,
> {
    Seq::new(records.len(), |i: int| records[i]@)
}

/// One packet of an audio stream.
#[derive(Debug, PartialEq, Eq)]
pub struct GameCultMediaAudioPacketRecord {
    pub stream_id: String,
    pub session_id: String,
    pub packet_id: u64,
    pub codec: String,
    pub pts_ticks: i64,
    pub duration_ticks: u32,
    pub timebase_num: u32,
    pub timebase_den: u32,
    pub deadline_ticks: i64,
    pub payload: Vec<u8>,
}

/// What an audio record holds.
#[verifier::ext_equal]
pub struct AudioPacket {
    pub stream_id: Seq<char>,
    pub session_id: Seq<char>,
    pub packet_id: u64,
    pub codec: Seq<char>,
    pub pts_ticks: i64,
    pub duration_ticks: u32,
    pub timebase_num: u32,
    pub timebase_den: u32,
    pub deadline_ticks: i64,
    pub payload: Seq<u8>,
}

impl View for GameCultMediaAudioPacketRecord {
    type V = AudioPacket;

    open spec fn view(&self) -> AudioPacket {
        AudioPacket {
            stream_id: self.stream_id@,
            session_id: self.session_id@,
            packet_id: self.packet_id,
            codec: self.codec@,
            pts_ticks: self.pts_ticks,
            duration_ticks: self.duration_ticks,
            timebase_num: self.timebase_num,
            timebase_den: self.timebase_den,
            deadline_ticks: self.deadline_ticks,
            payload: self.payload@,
        }
    }
}

impl Clone for GameCultMediaAudioPacketRecord {
    fn clone(&self) -> (copy: Self)
        ensures
            copy@ == self@,
    {
        GameCultMediaAudioPacketRecord {
            stream_id: self.stream_id.clone(),
            session_id: self.session_id.clone(),
            packet_id: self.packet_id,
            codec: self.codec.clone(),
            pts_ticks: self.pts_ticks,
            duration_ticks: self.duration_ticks,
            timebase_num: self.timebase_num,
            timebase_den: self.timebase_den,
            deadline_ticks: self.deadline_ticks,
            payload: slice_to_vec(self.payload.as_slice()),
        }
    }
}

/// What the audio records of `records` hold.
pub open spec fn packet_views(records: Seq<GameCultMediaAudioPacketRecord>) -> Seq<AudioPacket> {
    Seq::new(records.len(), |i: int| records[i]@)
}

/// What a receiver reports of a stream.
#[derive(Debug, PartialEq, Eq)]
pub struct GameCultMediaReceiverFeedbackRecord {
    pub stream_id: String,
    pub session_id: String,
    pub receiver_id: String,
    pub highest_decodable_frame_id: Option<u64>,
    pub missing_frame_ids: Vec<u64>,
    pub late_frame_ids: Vec<u64>,
    pub requested_keyframe: bool,
    pub jitter_us: i64,
    pub decode_queue_us: i64,
    pub observed_at: String,
    pub missing_video_chunk_keys: Vec<String>,
}

/// What a feedback record holds.
#[verifier::ext_equal]
pub struct Feedback {
    pub stream_id: Seq<char>,
    pub session_id: Seq<char>,
    pub receiver_id: Seq<char>,
    pub highest_decodable_frame_id: Option<u64>,
    pub missing_frame_ids: Seq<u64>,
    pub late_frame_ids: Seq<u64>,
    pub requested_keyframe: bool,
    pub jitter_us: i64,
    pub decode_queue_us: i64,
    pub observed_at: Seq<char>,
    pub missing_video_chunk_keys: Seq<Seq<char>>,
}

/// The characters of the strings of `texts`.
pub open spec fn text_views(texts: Seq<String>) -> Seq<Seq<char>> {
    Seq::new(texts.len(), |i: int| texts[i]@)
}

impl View for GameCultMediaReceiverFeedbackRecord {
    type V = Feedback;

    open spec fn view(&self) -> Feedback {
        Feedback {
            stream_id: self.stream_id@,
            session_id: self.session_id@,
            receiver_id: self.receiver_id@,
            highest_decodable_frame_id: self.highest_decodable_frame_id,
            missing_frame_ids: self.missing_frame_ids@,
            late_frame_ids: self.late_frame_ids@,
            requested_keyframe: self.requested_keyframe,
            jitter_us: self.jitter_us,
            decode_queue_us: self.decode_queue_us,
            observed_at: self.observed_at@,
            missing_video_chunk_keys: text_views(self.missing_video_chunk_keys@),
        }
    }
}

/// Copies a list of strings.
pub fn copy_texts(texts: &Vec<String>) -> (copy: Vec<String>)
    ensures
        text_views(copy@) == text_views(texts@),
{
    let mut copy: Vec<String> = Vec::new();
    let mut i: usize = 0;
    while i < texts.len()
        invariant
            i <= texts@.len(),
            copy@ =~= texts@.take(i as int),
        decreases texts@.len() - i,
    {
        copy.push(texts[i].clone());
        i = i + 1;
    }
    assert(text_views(copy@) =~= text_views(texts@));
    copy
}

impl Clone for GameCultMediaReceiverFeedbackRecord {
    fn clone(&self) -> (copy: Self)
        ensures
            copy@ == self@,
    {
        GameCultMediaReceiverFeedbackRecord {
            stream_id: self.stream_id.clone(),
            session_id: self.session_id.clone(),
            receiver_id: self.receiver_id.clone(),
            highest_decodable_frame_id: self.highest_decodable_frame_id,
            missing_frame_ids: slice_to_vec(self.missing_frame_ids.as_slice()),
            late_frame_ids: slice_to_vec(self.late_frame_ids.as_slice()),
            requested_keyframe: self.requested_keyframe,
            jitter_us: self.jitter_us,
            decode_queue_us: self.decode_queue_us,
            observed_at: self.observed_at.clone(),
            missing_video_chunk_keys: copy_texts(&self.missing_video_chunk_keys),
        }
    }
}

/// A record of any kind, as it is handed to the wire.
#[derive(Debug, PartialEq, Eq)]
pub enum GameCultMediaWireRecord {
    Video(GameCultMediaVideoAccessUnitRecord),
    VideoParity(GameCultMediaVideoParityShardRecord),
    Audio(GameCultMediaAudioPacketRecord),
    Feedback(GameCultMediaReceiverFeedbackRecord),
}

/// What a wire record holds.
#[verifier::ext_equal]
pub enum WireItem {
    Video(VideoChunk),
    VideoParity(ParityShard),
    Audio(AudioPacket),
    Feedback(Feedback),
}

impl View for GameCultMediaWireRecord {
    type V = WireItem;

    open spec fn view(&self) -> WireItem {
        match self {
            GameCultMediaWireRecord::Video(record) => WireItem::Video(record@),
            GameCultMediaWireRecord::VideoParity(record) => WireItem::VideoParity(record@),
            GameCultMediaWireRecord::Audio(record) => WireItem::Audio(record@),
            GameCultMediaWireRecord::Feedback(record) => WireItem::Feedback(record@),
        }
    }
}

impl Clone for GameCultMediaWireRecord {
    fn clone(&self) -> (copy: Self)
        ensures
            copy@ == self@,
    {
        match self {
            GameCultMediaWireRecord::Video(record) => {
                GameCultMediaWireRecord::Video(record.clone())
            },
            GameCultMediaWireRecord::VideoParity(record) => {
                GameCultMediaWireRecord::VideoParity(record.clone())
            },
            GameCultMediaWireRecord::Audio(record) => {
                GameCultMediaWireRecord::Audio(record.clone())
            },
            GameCultMediaWireRecord::Feedback(record) => {
                GameCultMediaWireRecord::Feedback(record.clone())
            },
        }
    }
}

/// What the wire records of `records` hold.
pub open spec fn item_views(records: Seq<GameCultMediaWireRecord>) -> Seq<WireItem> {
    Seq::new(records.len(), |i: int| records[i]@)
}

// Laws

/// The view of a video record shows each of its fields.
pub proof fn law_video_records_show_their_fields(record: GameCultMediaVideoAccessUnitRecord)
    ensures
        record@.meta.stream_id == record.stream_id@,
        record@.meta.session_id == record.session_id@,
        record@.meta.frame_id == record.frame_id,
        record@.meta.codec == record.codec@,
        record@.meta.pts_ticks == record.pts_ticks,
        record@.meta.duration_ticks == record.duration_ticks,
        record@.meta.timebase_num == record.timebase_num,
        record@.meta.timebase_den == record.timebase_den,
        record@.meta.keyframe == record.keyframe,
        record@.meta.dependency_frame_id == record.dependency_frame_id,
        record@.meta.deadline_ticks == record.deadline_ticks,
        record@.meta.chunk_count == record.chunk_count,
        record@.chunk_index == record.chunk_index,
        record@.payload == record.payload@,
{
}

/// The view of a parity record shows each of its fields.
pub proof fn law_parity_records_show_their_fields(record: GameCultMediaVideoParityShardRecord)
    ensures
        record@.meta.stream_id == record.stream_id@,
        record@.meta.session_id == record.session_id@,
        record@.meta.frame_id == record.frame_id,
        record@.meta.codec == record.codec@,
        record@.meta.pts_ticks == record.pts_ticks,
        record@.meta.duration_ticks == record.duration_ticks,
        record@.meta.timebase_num == record.timebase_num,
        record@.meta.timebase_den == record.timebase_den,
        record@.meta.keyframe == record.keyframe,
        record@.meta.dependency_frame_id == record.dependency_frame_id,
        record@.meta.deadline_ticks == record.deadline_ticks,
        record@.meta.chunk_count == record.chunk_count,
        record@.parity_index == record.parity_index,
        record@.parity_count == record.parity_count,
        record@.chunk_payload_bytes == record.chunk_payload_bytes,
        record@.last_chunk_payload_bytes == record.last_chunk_payload_bytes,
        record@.payload == record.payload@,
{
}

/// The view of an audio record shows each of its fields.
pub proof fn law_audio_records_show_their_fields(record: GameCultMediaAudioPacketRecord)
    ensures
        record@.stream_id == record.stream_id@,
        record@.session_id == record.session_id@,
        record@.packet_id == record.packet_id,
        record@.codec == record.codec@,
        record@.pts_ticks == record.pts_ticks,
        record@.duration_ticks == record.duration_ticks,
        record@.timebase_num == record.timebase_num,
        record@.timebase_den == record.timebase_den,
        record@.deadline_ticks == record.deadline_ticks,
        record@.payload == record.payload@,
{
}

/// The view of a feedback record shows each of its fields.
pub proof fn law_feedback_records_show_their_fields(record: GameCultMediaReceiverFeedbackRecord)
    ensures
        record@.stream_id == record.stream_id@,
        record@.session_id == record.session_id@,
        record@.receiver_id == record.receiver_id@,
        record@.highest_decodable_frame_id == record.highest_decodable_frame_id,
        record@.missing_frame_ids == record.missing_frame_ids@,
        record@.late_frame_ids == record.late_frame_ids@,
        record@.requested_keyframe == record.requested_keyframe,
        record@.jitter_us == record.jitter_us,
        record@.decode_queue_us == record.decode_queue_us,
        record@.observed_at == record.observed_at@,
        record@.missing_video_chunk_keys.len() == record.missing_video_chunk_keys@.len(),
        forall|i: int|
            0 <= i < record.missing_video_chunk_keys@.len()
                ==> #[trigger] record@.missing_video_chunk_keys[i]
                == record.missing_video_chunk_keys@[i]@,
{
}

/// The view of a wire record shows its kind and what it holds, and views of lists show what
/// they list, in order.
pub proof fn law_wire_records_show_what_they_hold(
    video: Seq<GameCultMediaVideoAccessUnitRecord>,
    parity: Seq<GameCultMediaVideoParityShardRecord>,
    audio: Seq<GameCultMediaAudioPacketRecord>,
    wire: Seq<GameCultMediaWireRecord>,
)
    ensures
        chunk_views(video).len() == video.len(),
        forall|i: int| 0 <= i < video.len() ==> #[trigger] chunk_views(video)[i] == video[i]@,
        shard_views(parity).len() == parity.len(),
        forall|i: int| 0 <= i < parity.len() ==> #[trigger] shard_views(parity)[i] == parity[i]@,
        packet_views(audio).len() == audio.len(),
        forall|i: int| 0 <= i < audio.len() ==> #[trigger] packet_views(audio)[i] == audio[i]@,
        item_views(wire).len() == wire.len(),
        forall|i: int|
            0 <= i < wire.len() ==> #[trigger] item_views(wire)[i] == match wire[i] {
                GameCultMediaWireRecord::Video(record) => WireItem::Video(record@),
                GameCultMediaWireRecord::VideoParity(record) => WireItem::VideoParity(record@),
                GameCultMediaWireRecord::Audio(record) => WireItem::Audio(record@),
                GameCultMediaWireRecord::Feedback(record) => WireItem::Feedback(record@),
            },
{
}

} // verus!
