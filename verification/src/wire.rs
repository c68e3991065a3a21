//! The way onto the wire: which records are handed to the media wire layer for encoding,
//! and which payloads its replies become.
//!
//! The media wire layer is asked twice for video: first what it says of each chunk, then
//! to encode the chunks and their parity. `VideoWireJob` stands between the two questions.

use vstd::prelude::*;
use vstd::slice::slice_subrange;

use crate::annexb::AccessUnit;
use crate::audio;
use crate::audio::{packetize_audio_packet, AudioPacketizeOptions};
use crate::error::{MediaError, MediaFault, Refusal};
use crate::parity;
use crate::parity::build_video_parity_shards;
use crate::records;
use crate::records::{
    AudioPacket, GameCultMediaVideoAccessUnitRecord, GameCultMediaVideoParityShardRecord,
    GameCultMediaWireRecord, ParityShard, VideoChunk, WireItem,
};
use crate::video;
use crate::video::{packetize_video_annex_b_stream, VideoAnnexBStreamPacketizeOptions};

verus! {

/// Muninn's producer name on the wire.
pub const MUNINN_MEDIA_PRODUCER: &'static str = "muninn";

/// How a whole Annex B stream goes onto the wire.
#[derive(Clone, Copy)]
pub struct VideoAnnexBStreamWireOptions<'a> {
    pub packetize: VideoAnnexBStreamPacketizeOptions<'a>,
    pub stored_at: &'a str,
    pub source_runtime_id: &'a str,
    pub source_role: &'a str,
}

/// How one audio packet goes onto the wire.
#[derive(Clone, Copy)]
pub struct AudioPacketWireOptions<'a> {
    pub packetize: AudioPacketizeOptions<'a>,
    pub stored_at: &'a str,
    pub source_runtime_id: &'a str,
    pub source_role: &'a str,
}

/// Where wire records come from.
#[derive(Debug, PartialEq, Eq)]
pub struct MediaWireProvenance {
    pub stored_at: String,
    pub runtime_id: String,
    pub role: String,
    pub producer: String,
}

/// What a `MediaWireProvenance` says.
#[verifier::ext_equal]
pub struct Provenance {
    pub stored_at: Seq<char>,
    pub runtime_id: Seq<char>,
    pub role: Seq<char>,
    pub producer: Seq<char>,
}

impl View for MediaWireProvenance {
    type V = Provenance;

    open spec fn view(&self) -> Provenance {
        Provenance {
            stored_at: self.stored_at@,
            runtime_id: self.runtime_id@,
            role: self.role@,
            producer: self.producer@,
        }
    }
}

/// Muninn's provenance.
pub open spec fn provenance_of(
    stored_at: Seq<char>,
    source_runtime_id: Seq<char>,
    source_role: Seq<char>,
) -> Provenance {
    Provenance {
        stored_at,
        runtime_id: source_runtime_id,
        role: source_role,
        producer: MUNINN_MEDIA_PRODUCER@,
    }
}

/// Says that Muninn is the producer.
pub fn muninn_provenance(stored_at: &str, source_runtime_id: &str, source_role: &str) -> (provenance:
    MediaWireProvenance)
    ensures
        provenance@ == provenance_of(stored_at@, source_runtime_id@, source_role@),
        provenance.stored_at@ == stored_at@,
        provenance.runtime_id@ == source_runtime_id@,
        provenance.role@ == source_role@,
        provenance.producer@ == "muninn"@,
{
    MediaWireProvenance {
        stored_at: stored_at.to_owned(),
        runtime_id: source_runtime_id.to_owned(),
        role: source_role.to_owned(),
        producer: MUNINN_MEDIA_PRODUCER.to_owned(),
    }
}

/// Records that the media wire layer is to encode, in order, with one provenance.
#[derive(Debug, PartialEq, Eq)]
pub struct MediaWireBatch {
    pub records: Vec<GameCultMediaWireRecord>,
    pub provenance: MediaWireProvenance,
}

/// What a `MediaWireBatch` holds.
#[verifier::ext_equal]
pub struct WireBatch {
    pub items: Seq<WireItem>,
    pub provenance: Provenance,
}

impl View for MediaWireBatch {
    type V = WireBatch;

    open spec fn view(&self) -> WireBatch {
        WireBatch { items: records::item_views(self.records@), provenance: self.provenance@ }
    }
}

/// A payload and the channel that it is sent on.
#[derive(Debug, PartialEq, Eq)]
pub struct MuninnMediaSendPayload {
    pub channel_id: &'static str,
    pub payload: Vec<u8>,
}

/// What a `MuninnMediaSendPayload` holds.
#[verifier::ext_equal]
pub struct SendPayload {
    pub channel_id: Seq<char>,
    pub payload: Seq<u8>,
}

impl View for MuninnMediaSendPayload {
    type V = SendPayload;

    open spec fn view(&self) -> SendPayload {
        SendPayload { channel_id: self.channel_id@, payload: self.payload@ }
    }
}

/// What the payloads of `payloads` hold.
pub open spec fn payload_views(payloads: Seq<MuninnMediaSendPayload>) -> Seq<SendPayload> {
    Seq::new(payloads.len(), |i: int| payloads[i]@)
}

/// The bytes of each of `payloads`.
pub open spec fn byte_views(payloads: Seq<Vec<u8>>) -> Seq<Seq<u8>> {
    Seq::new(payloads.len(), |i: int| payloads[i]@)
}

/// `payloads`, each pinned to `channel`.
pub open spec fn pinned(channel: Seq<char>, payloads: Seq<Seq<u8>>) -> Seq<SendPayload> {
    Seq::new(
        payloads.len(),
        |i: int| SendPayload { channel_id: channel, payload: payloads[i] },
    )
}

/// Pins one encoded record to the media channel.
pub fn wire_payload_to_media_send(media_channel: &'static str, payload: Vec<u8>) -> (send:
    MuninnMediaSendPayload)
    ensures
        send@ == (SendPayload { channel_id: media_channel@, payload: payload@ }),
        send.channel_id@ == media_channel@,
        send.payload == payload,
{
    MuninnMediaSendPayload { channel_id: media_channel, payload }
}

/// Pins encoded records to the media channel, in order.
pub fn wire_payloads_to_media_send(media_channel: &'static str, payloads: Vec<Vec<u8>>) -> (sends:
    Vec<MuninnMediaSendPayload>)
    ensures
        payload_views(sends@) == pinned(media_channel@, byte_views(payloads@)),
        sends@.len() == payloads@.len(),
        forall|i: int|
            #![trigger sends@[i]]
            0 <= i < sends@.len() ==> sends@[i].channel_id@ == media_channel@ && sends@[i].payload@
                == payloads@[i]@,
{
    let mut sends: Vec<MuninnMediaSendPayload> = Vec::new();
    let ghost all = payloads@;
    for payload in it: payloads
        invariant
            it.seq() == all,
            sends@.len() == it.index(),
            forall|i: int|
                0 <= i < sends@.len() ==> (#[trigger] sends@[i])@ == (SendPayload {
                    channel_id: media_channel@,
                    payload: all[i]@,
                }),
            forall|i: int|
                #![trigger sends@[i]]
                0 <= i < sends@.len() ==> sends@[i].channel_id@ == media_channel@
                    && sends@[i].payload@ == all[i]@,
    {
        sends.push(wire_payload_to_media_send(media_channel, payload));
    }
    assert(payload_views(sends@) =~= pinned(media_channel@, byte_views(all)));
    sends
}

// Replies of the encoder

/// What the encoder says where it first fails, from reply `from` on.
pub open spec fn first_failure(replies: Seq<Result<Vec<u8>, String>>, from: int) -> Option<
    Seq<char>,
>
    decreases replies.len() - from,
{
    if from >= replies.len() {
        None
    } else {
        match replies[from] {
            Err(text) => Some(text@),
            Ok(_) => first_failure(replies, from + 1),
        }
    }
}

/// What each of `replies` was encoded to.
pub open spec fn encoded_bytes(replies: Seq<Result<Vec<u8>, String>>) -> Seq<Seq<u8>> {
    Seq::new(replies.len(), |i: int| replies[i]->Ok_0@)
}

/// What the encoder's replies for `expected` records come to: all the encoded records, or
/// the first failure. Replies without a failure are owed one per record.
pub open spec fn collected(expected: usize, replies: Seq<Result<Vec<u8>, String>>) -> Result<
    Seq<Seq<u8>>,
    MediaFault,
> {
    match first_failure(replies, 0) {
        Some(text) => Err(MediaFault::Wire(text)),
        None => if replies.len() != expected {
            Err(
                MediaFault::Refused(
                    Refusal::ReplyCount { records: expected, replies: replies.len() as usize },
                ),
            )
        } else {
            Ok(encoded_bytes(replies))
        },
    }
}

/// Takes the encoded records out of the encoder's replies for `expected` records, or its
/// first failure.
pub fn collect_wire_payloads(
    expected: usize,
    replies: Vec<Result<Vec<u8>, String>>,
) -> (outcome: Result<Vec<Vec<u8>>, MediaError>)
    ensures
        collected(expected, replies@) == match outcome {
            Ok(payloads) => Ok::<Seq<Seq<u8>>, MediaFault>(byte_views(payloads@)),
            Err(error) => Err(error@),
        },
        outcome matches Ok(payloads) ==> {
            &&& payloads@.len() == replies@.len() == expected
            &&& forall|i: int|
                0 <= i < payloads@.len() ==> replies@[i] == Ok::<Vec<u8>, String>(
                    #[trigger] payloads@[i],
                )
        },
        outcome is Err ==> replies@.len() != expected || exists|i: int|
            0 <= i < replies@.len() && #[trigger] replies@[i] is Err,
{
    proof {
        lemma_first_failure(replies@, 0);
    }
    let mut payloads: Vec<Vec<u8>> = Vec::new();
    let ghost all = replies@;
    for reply in it: replies
        invariant
            it.seq() == all,
            payloads@.len() == it.index(),
            first_failure(all, 0) == first_failure(all, it.index() as int),
            forall|i: int|
                0 <= i < payloads@.len() ==> all[i] == Ok::<Vec<u8>, String>(
                    #[trigger] payloads@[i],
                ),
    {
        let payload = match reply {
            Ok(payload) => payload,
            Err(text) => {
                return Err(MediaError::Wire(text));
            },
        };
        payloads.push(payload);
    }
    if payloads.len() != expected {
        return Err(
            MediaError::Refused(Refusal::ReplyCount { records: expected, replies: payloads.len() }),
        );
    }
    assert(byte_views(payloads@) =~= encoded_bytes(all));
    Ok(payloads)
}

// Video

/// Whether two chunks belong to the same frame.
pub open spec fn same_frame(a: VideoChunk, b: VideoChunk) -> bool {
    a.meta.stream_id == b.meta.stream_id && a.meta.session_id == b.meta.session_id
        && a.meta.frame_id == b.meta.frame_id
}

/// How many chunks from `from` on, without a gap, belong to the frame of chunk `first`.
pub open spec fn frame_run(chunks: Seq<VideoChunk>, first: int, from: int) -> nat
    decreases chunks.len() - from,
{
    if from < chunks.len() && same_frame(chunks[from], chunks[first]) {
        1 + frame_run(chunks, first, from + 1)
    } else {
        0
    }
}

/// A run of chunks ends with the chunks.
pub proof fn lemma_frame_run_fits(chunks: Seq<VideoChunk>, first: int, from: int)
    requires
        from <= chunks.len(),
    ensures
        from + frame_run(chunks, first, from) <= chunks.len(),
    decreases chunks.len() - from,
{
    if from < chunks.len() && same_frame(chunks[from], chunks[first]) {
        lemma_frame_run_fits(chunks, first, from + 1);
    }
}

/// `chunks` as wire records.
pub open spec fn chunk_items(chunks: Seq<VideoChunk>) -> Seq<WireItem> {
    Seq::new(chunks.len(), |i: int| WireItem::Video(chunks[i]))
}

/// `shards` as wire records.
pub open spec fn shard_items(shards: Seq<ParityShard>) -> Seq<WireItem> {
    Seq::new(shards.len(), |i: int| WireItem::VideoParity(shards[i]))
}

/// What the chunks from `offset` on become on the wire: frame by frame its chunks and
/// behind them its parity; or the first fault.
pub open spec fn frames_with_parity(
    chunks: Seq<VideoChunk>,
    verdicts: Seq<Result<(), String>>,
    offset: int,
) -> Result<Seq<WireItem>, MediaFault>
    decreases chunks.len() - offset,
{
    if offset >= chunks.len() {
        Ok(Seq::empty())
    } else {
        let end = offset + 1 + frame_run(chunks, offset, offset + 1);
        proof {
            lemma_frame_run_fits(chunks, offset, offset + 1);
        }
        let frame = chunks.subrange(offset, end);
        match parity::parity_outcome(frame, verdicts.subrange(offset, end)) {
            Err(fault) => Err(fault),
            Ok(shards) => match frames_with_parity(chunks, verdicts, end) {
                Err(fault) => Err(fault),
                Ok(rest) => Ok(chunk_items(frame) + shard_items(shards) + rest),
            },
        }
    }
}

fn frame_end(chunks: &[GameCultMediaVideoAccessUnitRecord], offset: usize) -> (end: usize)
    requires
        offset < chunks@.len(),
    ensures
        end == offset + 1 + frame_run(
            records::chunk_views(chunks@),
            offset as int,
            offset + 1,
        ),
        offset < end <= chunks@.len(),
{
    let ghost views = records::chunk_views(chunks@);
    let first = &chunks[offset];
    let mut end: usize = offset + 1;
    while end < chunks.len() && chunks[end].stream_id == first.stream_id && chunks[end].session_id
        == first.session_id && chunks[end].frame_id == first.frame_id
        invariant
            offset < end <= chunks@.len(),
            first@ == views[offset as int],
            views == records::chunk_views(chunks@),
            frame_run(views, offset as int, offset + 1) == (end - offset - 1) + frame_run(
                views,
                offset as int,
                end as int,
            ),
        decreases chunks@.len() - end,
    {
        assert(views[end as int] == chunks@[end as int]@);
        end = end + 1;
    }
    proof {
        if end < chunks@.len() {
            assert(views[end as int] == chunks@[end as int]@);
        }
    }
    end
}

fn push_chunks(
    out: &mut Vec<GameCultMediaWireRecord>,
    chunks: &[GameCultMediaVideoAccessUnitRecord],
)
    ensures
        records::item_views(final(out)@) == records::item_views(old(out)@) + chunk_items(
            records::chunk_views(chunks@),
        ),
{
    let ghost before = out@;
    let mut i: usize = 0;
    while i < chunks.len()
        invariant
            i <= chunks@.len(),
            records::item_views(out@) =~= records::item_views(before) + chunk_items(
                records::chunk_views(chunks@).take(i as int),
            ),
        decreases chunks@.len() - i,
    {
        let ghost earlier = out@;
        let record = GameCultMediaWireRecord::Video(chunks[i].clone());
        out.push(record);
        assert(records::item_views(out@) =~= records::item_views(earlier).push(record@));
        assert(chunk_items(records::chunk_views(chunks@).take(i + 1)) =~= chunk_items(
            records::chunk_views(chunks@).take(i as int),
        ).push(record@));
        i = i + 1;
    }
    assert(records::chunk_views(chunks@).take(chunks@.len() as int) =~= records::chunk_views(
        chunks@,
    ));
}

fn push_shards(
    out: &mut Vec<GameCultMediaWireRecord>,
    shards: Vec<GameCultMediaVideoParityShardRecord>,
)
    ensures
        records::item_views(final(out)@) == records::item_views(old(out)@) + shard_items(
            records::shard_views(shards@),
        ),
{
    let ghost before = out@;
    let ghost all = shards@;
    for shard in it: shards
        invariant
            it.seq() == all,
            records::item_views(out@) =~= records::item_views(before) + shard_items(
                records::shard_views(all).take(it.index() as int),
            ),
    {
        let ghost earlier = out@;
        let record = GameCultMediaWireRecord::VideoParity(shard);
        out.push(record);
        assert(records::item_views(out@) =~= records::item_views(earlier).push(record@));
        assert(shard_items(records::shard_views(all).take(it.index() + 1)) =~= shard_items(
            records::shard_views(all).take(it.index() as int),
        ).push(record@));
    }
    assert(records::shard_views(all).take(all.len() as int) =~= records::shard_views(all));
}

/// Puts the parity of each frame behind its chunks, given what the media wire layer says
/// of each chunk.
pub fn video_wire_records_with_parity(
    chunks: &[GameCultMediaVideoAccessUnitRecord],
    verdicts: &[Result<(), String>],
) -> (outcome: Result<Vec<GameCultMediaWireRecord>, MediaError>)
    requires
        chunks@.len() == verdicts@.len(),
    ensures
        frames_with_parity(records::chunk_views(chunks@), verdicts@, 0) == match outcome {
            Ok(wire_records) => Ok::<Seq<WireItem>, MediaFault>(
                records::item_views(wire_records@),
            ),
            Err(error) => Err(error@),
        },
{
    let ghost views = records::chunk_views(chunks@);
    let mut wire_records: Vec<GameCultMediaWireRecord> = Vec::new();
    let mut offset: usize = 0;
    proof {
        if let Ok(rest) = frames_with_parity(views, verdicts@, 0) {
            assert(records::item_views(wire_records@) + rest =~= rest);
        }
    }
    while offset < chunks.len()
        invariant
            offset <= chunks@.len() == verdicts@.len(),
            views == records::chunk_views(chunks@),
            frames_with_parity(views, verdicts@, 0) == match frames_with_parity(
                views,
                verdicts@,
                offset as int,
            ) {
                Ok(rest) => Ok::<Seq<WireItem>, MediaFault>(
                    records::item_views(wire_records@) + rest,
                ),
                Err(fault) => Err(fault),
            },
        decreases chunks@.len() - offset,
    {
        let end: usize = frame_end(chunks, offset);
        let frame = slice_subrange(chunks, offset, end);
        let frame_verdicts = slice_subrange(verdicts, offset, end);
        assert(records::chunk_views(frame@) =~= views.subrange(offset as int, end as int));
        let ghost before = records::item_views(wire_records@);
        push_chunks(&mut wire_records, frame);
        let shards = match build_video_parity_shards(frame, frame_verdicts) {
            Ok(shards) => shards,
            Err(error) => {
                return Err(error);
            },
        };
        let ghost behind = records::shard_views(shards@);
        push_shards(&mut wire_records, shards);
        proof {
            if let Ok(rest) = frames_with_parity(views, verdicts@, end as int) {
                assert(before + (chunk_items(records::chunk_views(frame@)) + shard_items(behind)
                    + rest) =~= records::item_views(wire_records@) + rest);
            }
        }
        offset = end;
    }
    proof {
        assert(records::item_views(wire_records@) + Seq::<WireItem>::empty()
            =~= records::item_views(wire_records@));
    }
    Ok(wire_records)
}

/// Hands records to the media wire layer for encoding, in order.
pub fn encode_media_wire_records(
    records: Vec<GameCultMediaWireRecord>,
    stored_at: &str,
    source_runtime_id: &str,
    source_role: &str,
) -> (batch: MediaWireBatch)
    ensures
        batch@ == (WireBatch {
            items: records::item_views(records@),
            provenance: provenance_of(stored_at@, source_runtime_id@, source_role@),
        }),
        batch.records == records,
        batch.provenance.stored_at@ == stored_at@,
        batch.provenance.runtime_id@ == source_runtime_id@,
        batch.provenance.role@ == source_role@,
        batch.provenance.producer@ == "muninn"@,
{
    MediaWireBatch {
        records,
        provenance: muninn_provenance(stored_at, source_runtime_id, source_role),
    }
}

/// Video chunks on their way onto the wire, of which the media wire layer has yet to say
/// what it thinks.
#[derive(Debug, PartialEq, Eq)]
pub struct VideoWireJob {
    pub chunks: Vec<GameCultMediaVideoAccessUnitRecord>,
    pub stored_at: String,
    pub source_runtime_id: String,
    pub source_role: String,
}

/// What a `VideoWireJob` holds.
#[verifier::ext_equal]
pub struct WireJob {
    pub chunks: Seq<VideoChunk>,
    pub stored_at: Seq<char>,
    pub source_runtime_id: Seq<char>,
    pub source_role: Seq<char>,
}

impl View for VideoWireJob {
    type V = WireJob;

    open spec fn view(&self) -> WireJob {
        WireJob {
            chunks: records::chunk_views(self.chunks@),
            stored_at: self.stored_at@,
            source_runtime_id: self.source_runtime_id@,
            source_role: self.source_role@,
        }
    }
}

/// What a job comes to once the media wire layer has spoken of each chunk.
pub open spec fn job_outcome(job: WireJob, verdicts: Seq<Result<(), String>>) -> Result<
    WireBatch,
    MediaFault,
> {
    match frames_with_parity(job.chunks, verdicts, 0) {
        Err(fault) => Err(fault),
        Ok(items) => Ok(
            WireBatch {
                items,
                provenance: provenance_of(job.stored_at, job.source_runtime_id, job.source_role),
            },
        ),
    }
}

impl VideoWireJob {
    /// The records to encode, given what the media wire layer says of each chunk.
    pub fn wire_batch(&self, verdicts: &[Result<(), String>]) -> (outcome: Result<
        MediaWireBatch,
        MediaError,
    >)
        requires
            verdicts@.len() == self.chunks@.len(),
        ensures
            job_outcome(self@, verdicts@) == match outcome {
                Ok(batch) => Ok::<WireBatch, MediaFault>(batch@),
                Err(error) => Err(error@),
            },
    {
        match video_wire_records_with_parity(self.chunks.as_slice(), verdicts) {
            Ok(wire_records) => Ok(
                encode_media_wire_records(
                    wire_records,
                    self.stored_at.as_str(),
                    self.source_runtime_id.as_str(),
                    self.source_role.as_str(),
                ),
            ),
            Err(error) => Err(error),
        }
    }
}

/// Packetizes an Annex B stream for the wire.
pub fn encode_video_annex_b_stream_wire_records(
    options: VideoAnnexBStreamWireOptions<'_>,
    input: &[u8],
) -> (outcome: Result<VideoWireJob, MediaError>)
    ensures
        match outcome {
            Ok(job) => {
                &&& video::packetize_stream(options.packetize@, input@) == Ok::<
                    Seq<VideoChunk>,
                    MediaFault,
                >(job@.chunks)
                &&& job@.stored_at == options.stored_at@
                &&& job@.source_runtime_id == options.source_runtime_id@
                &&& job@.source_role == options.source_role@
            },
            Err(error) => video::packetize_stream(options.packetize@, input@) == Err::<
                Seq<VideoChunk>,
                MediaFault,
            >(error@),
        },
{
    match packetize_video_annex_b_stream(options.packetize, input) {
        Ok(chunks) => Ok(
            VideoWireJob {
                chunks,
                stored_at: options.stored_at.to_owned(),
                source_runtime_id: options.source_runtime_id.to_owned(),
                source_role: options.source_role.to_owned(),
            },
        ),
        Err(error) => Err(error),
    }
}

/// What the encoder's replies for `expected` records become on a channel.
pub open spec fn sent(
    channel: Seq<char>,
    expected: usize,
    replies: Seq<Result<Vec<u8>, String>>,
) -> Result<Seq<SendPayload>, MediaFault> {
    match collected(expected, replies) {
        Err(fault) => Err(fault),
        Ok(payloads) => Ok(pinned(channel, payloads)),
    }
}

/// Pins what `expected` records were encoded to to the media channel.
pub fn send_payloads(
    media_channel: &'static str,
    expected: usize,
    replies: Vec<Result<Vec<u8>, String>>,
) -> (outcome: Result<Vec<MuninnMediaSendPayload>, MediaError>)
    ensures
        sent(media_channel@, expected, replies@) == match outcome {
            Ok(payloads) => Ok::<Seq<SendPayload>, MediaFault>(payload_views(payloads@)),
            Err(error) => Err(error@),
        },
        outcome matches Ok(payloads) ==> {
            &&& payloads@.len() == replies@.len() == expected
            &&& forall|i: int|
                #![trigger payloads@[i]]
                #![trigger replies@[i]]
                0 <= i < payloads@.len() ==> {
                    &&& replies@[i] is Ok
                    &&& payloads@[i].payload@ == replies@[i]->Ok_0@
                    &&& payloads@[i].channel_id@ == media_channel@
                }
        },
        outcome is Err ==> replies@.len() != expected || exists|i: int|
            0 <= i < replies@.len() && #[trigger] replies@[i] is Err,
{
    let ghost given = replies@;
    match collect_wire_payloads(expected, replies) {
        Ok(payloads) => {
            let ghost bytes = payloads@;
            let sends = wire_payloads_to_media_send(media_channel, payloads);
            assert forall|i: int|
                #![trigger sends@[i]]
                #![trigger given[i]]
                0 <= i < sends@.len() implies {
                &&& given[i] is Ok
                &&& sends@[i].payload@ == given[i]->Ok_0@
                &&& sends@[i].channel_id@ == media_channel@
            } by {
                assert(given[i] == Ok::<Vec<u8>, String>(bytes[i]));
            }
            Ok(sends)
        },
        Err(error) => Err(error),
    }
}

/// Pins the encoded records of a stream to the media channel: one for each record of
/// `batch`.
pub fn video_annex_b_stream_send_payloads(
    media_channel: &'static str,
    batch: &MediaWireBatch,
    replies: Vec<Result<Vec<u8>, String>>,
) -> (outcome: Result<Vec<MuninnMediaSendPayload>, MediaError>)
    ensures
        sent(media_channel@, batch@.items.len() as usize, replies@) == match outcome {
            Ok(payloads) => Ok::<Seq<SendPayload>, MediaFault>(payload_views(payloads@)),
            Err(error) => Err(error@),
        },
        outcome matches Ok(payloads) ==> {
            &&& payloads@.len() == replies@.len() == batch.records@.len()
            &&& forall|i: int|
                #![trigger payloads@[i]]
                #![trigger replies@[i]]
                0 <= i < payloads@.len() ==> {
                    &&& replies@[i] is Ok
                    &&& payloads@[i].payload@ == replies@[i]->Ok_0@
                    &&& payloads@[i].channel_id@ == media_channel@
                }
        },
        outcome is Err ==> replies@.len() != batch.records@.len() || exists|i: int|
            0 <= i < replies@.len() && #[trigger] replies@[i] is Err,
{
    send_payloads(media_channel, batch.records.len(), replies)
}

/// How many records a frame of `chunks` chunks goes onto the wire as: its chunks and, where
/// it has more than one, a parity shard per stripe.
pub open spec fn frame_records(chunks: nat) -> nat {
    if chunks <= 1 {
        chunks
    } else if chunks < parity::MUNINN_VIDEO_PARITY_STRIPES {
        chunks + chunks
    } else {
        chunks + parity::MUNINN_VIDEO_PARITY_STRIPES as nat
    }
}

/// Counts the records that a frame of `chunks` chunks goes onto the wire as.
pub fn frame_record_count(chunks: u16) -> (count: usize)
    ensures
        count == frame_records(chunks as nat),
{
    let all: usize = chunks as usize;
    if chunks <= 1 {
        all
    } else if chunks < parity::MUNINN_VIDEO_PARITY_STRIPES {
        all + all
    } else {
        all + parity::MUNINN_VIDEO_PARITY_STRIPES as usize
    }
}

// Audio

/// Makes an audio packet for the wire.
pub fn encode_audio_packet_wire_record(options: AudioPacketWireOptions<'_>, payload: &[u8]) -> (
outcome: Result<MediaWireBatch, MediaError>)
    ensures
        match outcome {
            Ok(batch) => {
                &&& audio::packetize_payload(options.packetize@, payload@) is Ok
                &&& batch@ == (WireBatch {
                    items: seq![
                        WireItem::Audio(
                            audio::packetize_payload(options.packetize@, payload@)->Ok_0,
                        ),
                    ],
                    provenance: provenance_of(
                        options.stored_at@,
                        options.source_runtime_id@,
                        options.source_role@,
                    ),
                })
            },
            Err(error) => audio::packetize_payload(options.packetize@, payload@) == Err::<
                AudioPacket,
                MediaFault,
            >(error@),
        },
{
    match packetize_audio_packet(options.packetize, payload) {
        Ok(packet) => {
            let mut wire_records: Vec<GameCultMediaWireRecord> = Vec::new();
            let ghost view = packet@;
            wire_records.push(GameCultMediaWireRecord::Audio(packet));
            assert(records::item_views(wire_records@) =~= seq![WireItem::Audio(view)]);
            Ok(
                encode_media_wire_records(
                    wire_records,
                    options.stored_at,
                    options.source_runtime_id,
                    options.source_role,
                ),
            )
        },
        Err(error) => Err(error),
    }
}

/// Pins an encoded audio packet to the media channel.
pub fn audio_packet_send_payload(
    media_channel: &'static str,
    reply: Result<Vec<u8>, String>,
) -> (outcome: Result<MuninnMediaSendPayload, MediaError>)
    ensures
        match outcome {
            Ok(send) => reply is Ok && send@ == (SendPayload {
                channel_id: media_channel@,
                payload: reply->Ok_0@,
            }) && send.channel_id@ == media_channel@ && send.payload@ == reply->Ok_0@,
            Err(error) => reply is Err && error@ == MediaFault::Wire(reply->Err_0@),
        },
{
    match reply {
        Ok(payload) => Ok(wire_payload_to_media_send(media_channel, payload)),
        Err(text) => Err(MediaError::Wire(text)),
    }
}

// Laws

proof fn lemma_one_frame(chunks: Seq<VideoChunk>, from: int)
    requires
        0 < from <= chunks.len(),
        forall|i: int| 0 <= i < chunks.len() ==> same_frame(#[trigger] chunks[i], chunks[0]),
    ensures
        from + frame_run(chunks, 0, from) == chunks.len(),
    decreases chunks.len() - from,
{
    if from < chunks.len() {
        assert(same_frame(chunks[from], chunks[0]));
        lemma_one_frame(chunks, from + 1);
    }
}

/// A frame goes onto the wire as its chunks, in order, followed by its parity.
pub proof fn law_parity_follows_the_frame(
    chunks: Seq<VideoChunk>,
    verdicts: Seq<Result<(), String>>,
)
    requires
        chunks.len() > 0,
        verdicts.len() == chunks.len(),
        forall|i: int| 0 <= i < chunks.len() ==> same_frame(#[trigger] chunks[i], chunks[0]),
    ensures
        frames_with_parity(chunks, verdicts, 0) == match parity::parity_outcome(chunks, verdicts) {
            Err(fault) => Err::<Seq<WireItem>, MediaFault>(fault),
            Ok(shards) => Ok(chunk_items(chunks) + shard_items(shards)),
        },
{
    lemma_one_frame(chunks, 1);
    assert(chunks.subrange(0, chunks.len() as int) =~= chunks);
    assert(verdicts.subrange(0, chunks.len() as int) =~= verdicts);
    assert(frames_with_parity(chunks, verdicts, chunks.len() as int) == Ok::<
        Seq<WireItem>,
        MediaFault,
    >(Seq::empty()));
    if let Ok(shards) = parity::parity_outcome(chunks, verdicts) {
        assert(chunk_items(chunks) + shard_items(shards) + Seq::<WireItem>::empty() =~= chunk_items(
            chunks,
        ) + shard_items(shards));
    }
}

proof fn lemma_run_behind(a: Seq<VideoChunk>, b: Seq<VideoChunk>, first: int, from: int)
    requires
        0 <= first < b.len(),
        0 <= from <= b.len(),
    ensures
        frame_run(a + b, a.len() + first, a.len() + from) == frame_run(b, first, from),
    decreases b.len() - from,
{
    if from < b.len() {
        assert((a + b)[a.len() + from] == b[from]);
        assert((a + b)[a.len() + first] == b[first]);
        lemma_run_behind(a, b, first, from + 1);
    }
}

proof fn lemma_run_in_front(a: Seq<VideoChunk>, b: Seq<VideoChunk>, first: int, from: int)
    requires
        0 <= first < from <= a.len(),
        b.len() > 0,
        !same_frame(a.last(), b[0]),
        from == a.len() ==> same_frame(a.last(), a[first]),
    ensures
        frame_run(a + b, first, from) == frame_run(a, first, from),
    decreases a.len() - from,
{
    assert((a + b)[first] == a[first]);
    if from < a.len() {
        assert((a + b)[from] == a[from]);
        if same_frame(a[from], a[first]) {
            lemma_run_in_front(a, b, first, from + 1);
        }
    } else {
        assert((a + b)[from] == b[0]);
    }
}

/// What two outcomes come to one behind the other.
pub open spec fn in_turn(
    first: Result<Seq<WireItem>, MediaFault>,
    second: Result<Seq<WireItem>, MediaFault>,
) -> Result<Seq<WireItem>, MediaFault> {
    match first {
        Err(fault) => Err(fault),
        Ok(items) => match second {
            Err(fault) => Err(fault),
            Ok(more) => Ok(items + more),
        },
    }
}

proof fn lemma_frames_behind(
    a: Seq<VideoChunk>,
    b: Seq<VideoChunk>,
    a_verdicts: Seq<Result<(), String>>,
    b_verdicts: Seq<Result<(), String>>,
    offset: int,
)
    requires
        a.len() == a_verdicts.len(),
        b.len() == b_verdicts.len(),
        0 <= offset,
    ensures
        frames_with_parity(a + b, a_verdicts + b_verdicts, a.len() + offset) == frames_with_parity(
            b,
            b_verdicts,
            offset,
        ),
    decreases b.len() - offset,
{
    if offset < b.len() {
        let end = offset + 1 + frame_run(b, offset, offset + 1);
        lemma_frame_run_fits(b, offset, offset + 1);
        lemma_run_behind(a, b, offset, offset + 1);
        assert((a + b).subrange(a.len() + offset, a.len() + end) =~= b.subrange(offset, end));
        assert((a_verdicts + b_verdicts).subrange(a.len() + offset, a.len() + end)
            =~= b_verdicts.subrange(offset, end));
        lemma_frames_behind(a, b, a_verdicts, b_verdicts, end);
    }
}

proof fn lemma_frames_in_front(
    a: Seq<VideoChunk>,
    b: Seq<VideoChunk>,
    a_verdicts: Seq<Result<(), String>>,
    b_verdicts: Seq<Result<(), String>>,
    offset: int,
)
    requires
        a.len() == a_verdicts.len(),
        b.len() == b_verdicts.len(),
        a.len() > 0,
        b.len() > 0,
        !same_frame(a.last(), b[0]),
        0 <= offset <= a.len(),
    ensures
        frames_with_parity(a + b, a_verdicts + b_verdicts, offset) == in_turn(
            frames_with_parity(a, a_verdicts, offset),
            frames_with_parity(b, b_verdicts, 0),
        ),
    decreases a.len() - offset,
{
    let rest = frames_with_parity(b, b_verdicts, 0);
    if offset < a.len() {
        let end = offset + 1 + frame_run(a, offset, offset + 1);
        lemma_frame_run_fits(a, offset, offset + 1);
        lemma_run_in_front(a, b, offset, offset + 1);
        assert((a + b).subrange(offset, end) =~= a.subrange(offset, end));
        assert((a_verdicts + b_verdicts).subrange(offset, end) =~= a_verdicts.subrange(
            offset,
            end,
        ));
        lemma_frames_in_front(a, b, a_verdicts, b_verdicts, end);
        let frame = a.subrange(offset, end);
        if let Ok(shards) = parity::parity_outcome(frame, a_verdicts.subrange(offset, end)) {
            if let Ok(more) = frames_with_parity(a, a_verdicts, end) {
                if let Ok(items) = rest {
                    assert(chunk_items(frame) + shard_items(shards) + (more + items)
                        =~= chunk_items(frame) + shard_items(shards) + more + items);
                }
            }
        }
    } else {
        lemma_frames_behind(a, b, a_verdicts, b_verdicts, 0);
        if let Ok(items) = rest {
            assert(Seq::<WireItem>::empty() + items =~= items);
        }
    }
}

/// Frames go onto the wire one by one: chunks that end one frame, with chunks of another
/// frame behind them, become the records that each of the two become, one behind the
/// other, or the fault of the first that has one.
pub proof fn law_frames_go_one_by_one(
    a: Seq<VideoChunk>,
    b: Seq<VideoChunk>,
    a_verdicts: Seq<Result<(), String>>,
    b_verdicts: Seq<Result<(), String>>,
)
    requires
        a.len() == a_verdicts.len(),
        b.len() == b_verdicts.len(),
        a.len() > 0,
        b.len() > 0,
        !same_frame(a.last(), b[0]),
    ensures
        frames_with_parity(a + b, a_verdicts + b_verdicts, 0) == in_turn(
            frames_with_parity(a, a_verdicts, 0),
            frames_with_parity(b, b_verdicts, 0),
        ),
{
    lemma_frames_in_front(a, b, a_verdicts, b_verdicts, 0);
}

/// A packetized access unit goes onto the wire as as many records as its number of chunks
/// says, whatever the media wire layer says of the chunks, unless a fault keeps it off.
pub proof fn law_frames_have_their_records(
    options: video::FrameOptions,
    unit: AccessUnit,
    verdicts: Seq<Result<(), String>>,
)
    requires
        video::packetize_frame(options, unit) is Ok,
        verdicts.len() == video::packetize_frame(options, unit)->Ok_0.len(),
        frames_with_parity(video::packetize_frame(options, unit)->Ok_0, verdicts, 0) is Ok,
    ensures
        frames_with_parity(
            video::packetize_frame(options, unit)->Ok_0,
            verdicts,
            0,
        )->Ok_0.len() == frame_records(video::packetize_frame(options, unit)->Ok_0.len()),
{
    let chunks = video::packetize_frame(options, unit)->Ok_0;
    video::lemma_chunks_needed(unit.bytes.len(), options.max_payload_bytes as nat);
    law_parity_follows_the_frame(chunks, verdicts);
    if chunks.len() > 1 {
        video::lemma_packetized_stripes_filled(options, unit);
        parity::law_one_shard_per_stripe(
            chunks,
            parity::stripes_for(chunks[0].meta.chunk_count) as nat,
        );
    }
}

/// Replies without a failure, one per record, become one payload each, in order, all on the
/// channel; with a failure they become nothing but the first one; and without a failure but
/// not one per record, nothing but a refusal.
pub proof fn law_replies_become_payloads(
    channel: Seq<char>,
    expected: usize,
    replies: Seq<Result<Vec<u8>, String>>,
)
    ensures
        match sent(channel, expected, replies) {
            Ok(payloads) => {
                &&& payloads.len() == replies.len() == expected
                &&& forall|i: int|
                    #![trigger payloads[i]]
                    #![trigger replies[i]]
                    0 <= i < payloads.len() ==> {
                        &&& replies[i] is Ok
                        &&& payloads[i].payload == replies[i]->Ok_0@
                        &&& payloads[i].channel_id == channel
                    }
            },
            Err(MediaFault::Refused(refusal)) => {
                &&& replies.len() != expected
                &&& refusal == (Refusal::ReplyCount {
                    records: expected,
                    replies: replies.len() as usize,
                })
                &&& forall|i: int| 0 <= i < replies.len() ==> #[trigger] replies[i] is Ok
            },
            Err(fault) => exists|k: int|
                #![trigger replies[k]]
                {
                    &&& 0 <= k < replies.len()
                    &&& replies[k] is Err
                    &&& fault == MediaFault::Wire(replies[k]->Err_0@)
                    &&& forall|i: int| 0 <= i < k ==> #[trigger] replies[i] is Ok
                },
        },
{
    lemma_first_failure(replies, 0);
}

proof fn lemma_first_failure(replies: Seq<Result<Vec<u8>, String>>, from: int)
    requires
        0 <= from <= replies.len(),
    ensures
        match first_failure(replies, from) {
            None => forall|i: int| from <= i < replies.len() ==> #[trigger] replies[i] is Ok,
            Some(text) => exists|k: int|
                #![trigger replies[k]]
                {
                    &&& from <= k < replies.len()
                    &&& replies[k] is Err
                    &&& text == replies[k]->Err_0@
                    &&& forall|i: int| from <= i < k ==> #[trigger] replies[i] is Ok
                },
        },
    decreases replies.len() - from,
{
    if from < replies.len() {
        if replies[from] is Ok {
            lemma_first_failure(replies, from + 1);
            if first_failure(replies, from + 1) is Some {
                let text = first_failure(replies, from + 1)->0;
                let k = choose|k: int|
                    #![trigger replies[k]]
                    {
                        &&& from + 1 <= k < replies.len()
                        &&& replies[k] is Err
                        &&& text == replies[k]->Err_0@
                        &&& forall|i: int| from + 1 <= i < k ==> #[trigger] replies[i] is Ok
                    };
                assert(replies[k] is Err);
            }
        } else {
            assert(replies[from] is Err);
        }
    }
}

/// Views of what goes to and comes from the media wire layer show what it holds.
pub proof fn law_wire_values_show_their_fields(
    provenance: MediaWireProvenance,
    batch: MediaWireBatch,
    send: MuninnMediaSendPayload,
    job: VideoWireJob,
)
    ensures
        provenance@.stored_at == provenance.stored_at@,
        provenance@.runtime_id == provenance.runtime_id@,
        provenance@.role == provenance.role@,
        provenance@.producer == provenance.producer@,
        batch@.provenance == batch.provenance@,
        batch@.items.len() == batch.records@.len(),
        forall|i: int|
            0 <= i < batch.records@.len() ==> #[trigger] batch@.items[i] == batch.records@[i]@,
        send@.channel_id == send.channel_id@,
        send@.payload == send.payload@,
        job@.stored_at == job.stored_at@,
        job@.source_runtime_id == job.source_runtime_id@,
        job@.source_role == job.source_role@,
        job@.chunks.len() == job.chunks@.len(),
        forall|i: int|
            0 <= i < job.chunks@.len() ==> #[trigger] job@.chunks[i] == job.chunks@[i]@,
{
}

/// What a job comes to: what its chunks become on the wire, from Muninn, with the job's
/// time, runtime and role; or what keeps them off.
pub proof fn law_jobs_say_where_they_come_from(job: WireJob, verdicts: Seq<Result<(), String>>)
    ensures
        match job_outcome(job, verdicts) {
            Ok(batch) => {
                &&& frames_with_parity(job.chunks, verdicts, 0) == Ok::<Seq<WireItem>, MediaFault>(
                    batch.items,
                )
                &&& batch.provenance.stored_at == job.stored_at
                &&& batch.provenance.runtime_id == job.source_runtime_id
                &&& batch.provenance.role == job.source_role
                &&& batch.provenance.producer == "muninn"@
            },
            Err(fault) => frames_with_parity(job.chunks, verdicts, 0) == Err::<
                Seq<WireItem>,
                MediaFault,
            >(fault),
        },
{
}

/// A frame goes onto the wire as its chunks, in order, and behind them its parity, and the
/// next frame follows. Chunks make one frame as long as stream, session and frame id stay
/// the same.
pub proof fn law_the_order_on_the_wire(
    frame: Seq<VideoChunk>,
    rest: Seq<VideoChunk>,
    frame_verdicts: Seq<Result<(), String>>,
    rest_verdicts: Seq<Result<(), String>>,
)
    requires
        frame.len() > 0,
        frame_verdicts.len() == frame.len(),
        rest_verdicts.len() == rest.len(),
        forall|i: int|
            0 <= i < frame.len() ==> {
                &&& (#[trigger] frame[i]).meta.stream_id == frame[0].meta.stream_id
                &&& frame[i].meta.session_id == frame[0].meta.session_id
                &&& frame[i].meta.frame_id == frame[0].meta.frame_id
            },
        rest.len() > 0 ==> {
            ||| rest[0].meta.stream_id != frame[0].meta.stream_id
            ||| rest[0].meta.session_id != frame[0].meta.session_id
            ||| rest[0].meta.frame_id != frame[0].meta.frame_id
        },
    ensures
        ({
            let parity = parity::parity_outcome(frame, frame_verdicts);
            let behind = frames_with_parity(rest, rest_verdicts, 0);
            let outcome = frames_with_parity(frame + rest, frame_verdicts + rest_verdicts, 0);
            &&& outcome is Ok <==> parity is Ok && behind is Ok
            &&& outcome is Err ==> outcome->Err_0 == if parity is Err {
                parity->Err_0
            } else {
                behind->Err_0
            }
            &&& outcome is Ok ==> {
                let items = outcome->Ok_0;
                let n = frame.len();
                let m = parity->Ok_0.len();
                &&& items.len() == n + m + behind->Ok_0.len()
                &&& forall|i: int| 0 <= i < n ==> #[trigger] items[i] == WireItem::Video(frame[i])
                &&& forall|i: int|
                    n <= i < n + m ==> #[trigger] items[i] == WireItem::VideoParity(
                        parity->Ok_0[i - n],
                    )
                &&& forall|i: int|
                    n + m <= i < items.len() ==> #[trigger] items[i] == behind->Ok_0[i - n - m]
            }
        }),
        frames_with_parity(Seq::empty(), Seq::empty(), 0) == Ok::<Seq<WireItem>, MediaFault>(
            Seq::empty(),
        ),
{
    assert forall|i: int| 0 <= i < frame.len() implies same_frame(#[trigger] frame[i], frame[0]) by {
        assert(frame[i].meta.stream_id == frame[0].meta.stream_id);
    }
    law_parity_follows_the_frame(frame, frame_verdicts);
    if rest.len() > 0 {
        assert(same_frame(frame[frame.len() - 1], frame[0]));
        law_frames_go_one_by_one(frame, rest, frame_verdicts, rest_verdicts);
    } else {
        assert(frame + rest =~= frame);
        assert(frame_verdicts + rest_verdicts =~= frame_verdicts);
        assert(frames_with_parity(rest, rest_verdicts, 0) == Ok::<Seq<WireItem>, MediaFault>(
            Seq::empty(),
        ));
    }
}

/// How many records a frame becomes: its one chunk, or all its chunks and a shard for each of
/// them, of which there are 16 at most.
pub proof fn law_how_many_records_a_frame_becomes(chunks: nat)
    ensures
        chunks <= 1 ==> frame_records(chunks) == chunks,
        1 < chunks <= 16 ==> frame_records(chunks) == 2 * chunks,
        chunks >= 16 ==> frame_records(chunks) == chunks + 16,
{
}

} // verus!
