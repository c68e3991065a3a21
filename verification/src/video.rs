//! Packetizing video: access units become chunks, streams become timed frames.

use vstd::arithmetic::div_mod;
use vstd::arithmetic::mul;
use vstd::prelude::*;
use vstd::slice::{slice_subrange, slice_to_vec};

use crate::annexb;
use crate::annexb::{
    access_unit_references_previous_frame, video_annex_b_access_units, AccessUnit, VideoAccessUnit,
};
use crate::codec;
use crate::codec::{VideoCodec, VideoFamily};
use crate::error::{MediaError, MediaFault, Refusal};
use crate::parity;
use crate::records;
use crate::records::{FrameMeta, GameCultMediaVideoAccessUnitRecord, VideoChunk};

verus! {

/// How one access unit is packetized.
#[derive(Clone, Copy)]
pub struct VideoFramePacketizeOptions<'a> {
    pub stream_id: &'a str,
    pub session_id: &'a str,
    pub codec: &'a str,
    pub frame_id: u64,
    pub pts_ticks: i64,
    pub duration_ticks: u32,
    pub timebase_num: u32,
    pub timebase_den: u32,
    pub deadline_ticks: i64,
    pub max_payload_bytes: usize,
}

/// What `VideoFramePacketizeOptions` say.
#[verifier::ext_equal]
pub struct FrameOptions {
    pub stream_id: Seq<char>,
    pub session_id: Seq<char>,
    pub codec: Seq<char>,
    pub frame_id: u64,
    pub pts_ticks: i64,
    pub duration_ticks: u32,
    pub timebase_num: u32,
    pub timebase_den: u32,
    pub deadline_ticks: i64,
    pub max_payload_bytes: usize,
}

impl View for VideoFramePacketizeOptions<'_> {
    type V = FrameOptions;

    open spec fn view(&self) -> FrameOptions {
        FrameOptions {
            stream_id: self.stream_id@,
            session_id: self.session_id@,
            codec: self.codec@,
            frame_id: self.frame_id,
            pts_ticks: self.pts_ticks,
            duration_ticks: self.duration_ticks,
            timebase_num: self.timebase_num,
            timebase_den: self.timebase_den,
            deadline_ticks: self.deadline_ticks,
            max_payload_bytes: self.max_payload_bytes,
        }
    }
}

/// How a whole Annex B stream is packetized.
#[derive(Clone, Copy)]
pub struct VideoAnnexBStreamPacketizeOptions<'a> {
    pub stream_id: &'a str,
    pub session_id: &'a str,
    pub codec: &'a str,
    pub first_frame_id: u64,
    pub first_pts_ticks: i64,
    pub frame_duration_ticks: u32,
    pub timebase_num: u32,
    pub timebase_den: u32,
    pub deadline_delay_ticks: i64,
    pub max_payload_bytes: usize,
}

/// What `VideoAnnexBStreamPacketizeOptions` say.
#[verifier::ext_equal]
pub struct StreamOptions {
    pub stream_id: Seq<char>,
    pub session_id: Seq<char>,
    pub codec: Seq<char>,
    pub first_frame_id: u64,
    pub first_pts_ticks: i64,
    pub frame_duration_ticks: u32,
    pub timebase_num: u32,
    pub timebase_den: u32,
    pub deadline_delay_ticks: i64,
    pub max_payload_bytes: usize,
}

impl View for VideoAnnexBStreamPacketizeOptions<'_> {
    type V = StreamOptions;

    open spec fn view(&self) -> StreamOptions {
        StreamOptions {
            stream_id: self.stream_id@,
            session_id: self.session_id@,
            codec: self.codec@,
            first_frame_id: self.first_frame_id,
            first_pts_ticks: self.first_pts_ticks,
            frame_duration_ticks: self.frame_duration_ticks,
            timebase_num: self.timebase_num,
            timebase_den: self.timebase_den,
            deadline_delay_ticks: self.deadline_delay_ticks,
            max_payload_bytes: self.max_payload_bytes,
        }
    }
}

// One access unit

/// How many chunks of at most `max` bytes `len` bytes take.
pub open spec fn chunks_needed(len: nat, max: nat) -> nat {
    ((len + max - 1) / (max as int)) as nat
}

/// The bytes of chunk `i`.
pub open spec fn chunk_payload(bytes: Seq<u8>, max: nat, i: int) -> Seq<u8> {
    bytes.subrange(
        i * max,
        if (i + 1) * max < bytes.len() {
            (i + 1) * max
        } else {
            bytes.len() as int
        },
    )
}

/// The first rule that packetizing an access unit breaks.
pub open spec fn frame_refusal(options: FrameOptions, unit: AccessUnit) -> Option<Refusal> {
    if options.stream_id.len() == 0 {
        Some(Refusal::StreamIdEmpty)
    } else if options.session_id.len() == 0 {
        Some(Refusal::SessionIdEmpty)
    } else if options.codec.len() == 0 {
        Some(Refusal::CodecEmpty)
    } else if options.timebase_num == 0 || options.timebase_den == 0 {
        Some(Refusal::VideoTimebaseZero)
    } else if options.duration_ticks == 0 {
        Some(Refusal::VideoDurationZero)
    } else if options.deadline_ticks < options.pts_ticks {
        Some(Refusal::VideoDeadlineBeforePts)
    } else if options.max_payload_bytes == 0 {
        Some(Refusal::MaxPayloadZero)
    } else if unit.bytes.len() == 0 {
        Some(Refusal::AccessUnitEmpty)
    } else if chunks_needed(unit.bytes.len(), options.max_payload_bytes as nat) > u16::MAX {
        Some(Refusal::TooManyChunks)
    } else {
        None
    }
}

/// The frame that an access unit depends on: the one before it, where it refers back.
pub open spec fn dependency(options: FrameOptions, unit: AccessUnit) -> Option<u64> {
    if annexb::refers_back(options.codec, unit) && options.frame_id > 0 {
        Some((options.frame_id - 1) as u64)
    } else {
        None
    }
}

/// What all chunks of an access unit have in common.
pub open spec fn frame_meta(options: FrameOptions, unit: AccessUnit) -> FrameMeta {
    FrameMeta {
        stream_id: options.stream_id,
        session_id: options.session_id,
        frame_id: options.frame_id,
        codec: options.codec,
        pts_ticks: options.pts_ticks,
        duration_ticks: options.duration_ticks,
        timebase_num: options.timebase_num,
        timebase_den: options.timebase_den,
        keyframe: unit.keyframe,
        dependency_frame_id: dependency(options, unit),
        deadline_ticks: options.deadline_ticks,
        chunk_count: chunks_needed(unit.bytes.len(), options.max_payload_bytes as nat) as u16,
    }
}

/// The chunks of an access unit.
pub open spec fn frame_chunks(options: FrameOptions, unit: AccessUnit) -> Seq<VideoChunk> {
    let max = options.max_payload_bytes as nat;
    Seq::new(
        chunks_needed(unit.bytes.len(), max),
        |i: int|
            VideoChunk {
                meta: frame_meta(options, unit),
                chunk_index: i as u16,
                payload: chunk_payload(unit.bytes, max, i),
            },
    )
}

/// What packetizing an access unit comes to.
pub open spec fn packetize_frame(options: FrameOptions, unit: AccessUnit) -> Result<
    Seq<VideoChunk>,
    MediaFault,
> {
    match frame_refusal(options, unit) {
        Some(refusal) => Err(MediaFault::Refused(refusal)),
        None => Ok(frame_chunks(options, unit)),
    }
}

/// `n` chunks take the bytes in, and `n - 1` do not.
pub proof fn lemma_chunks_needed(len: nat, max: nat)
    requires
        max > 0,
        len > 0,
    ensures
        chunks_needed(len, max) > 0,
        (chunks_needed(len, max) - 1) * max < len,
        len <= chunks_needed(len, max) * max,
{
    let total = len + max - 1;
    let n = total / (max as int);
    div_mod::lemma_fundamental_div_mod(total, max as int);
    let r = total % (max as int);
    assert(0 <= r < max);
    assert(n * max == max * n) by (nonlinear_arith);
    assert((n - 1) * max == n * max - max) by (nonlinear_arith);
    if n <= 0 {
        assert(n * max <= 0) by (nonlinear_arith)
            requires
                n <= 0,
                max > 0,
        ;
    }
}

proof fn lemma_chunk_starts_inside(len: nat, max: nat, i: int)
    requires
        max > 0,
        len > 0,
        0 <= i < chunks_needed(len, max),
    ensures
        0 <= i * max < len,
{
    lemma_chunks_needed(len, max);
    mul::lemma_mul_inequality(i, chunks_needed(len, max) - 1, max as int);
    mul::lemma_mul_nonnegative(i, max as int);
}

fn count_chunks(len: usize, max: usize) -> (count: usize)
    requires
        max > 0,
        len > 0,
    ensures
        count == chunks_needed(len as nat, max as nat),
{
    let whole: usize = len / max;
    let rest: usize = len % max;
    proof {
        div_mod::lemma_fundamental_div_mod(len as int, max as int);
        let total = len + max - 1;
        assert(whole * max == max * whole) by (nonlinear_arith);
        if rest == 0 {
            div_mod::lemma_fundamental_div_mod_converse(
                total,
                max as int,
                whole as int,
                max - 1,
            );
        } else {
            assert((whole + 1) * max == whole * max + max) by (nonlinear_arith);
            div_mod::lemma_fundamental_div_mod_converse(
                total,
                max as int,
                whole + 1,
                rest - 1,
            );
        }
        if rest > 0 {
            assert(whole <= whole * max) by (nonlinear_arith)
                requires
                    max > 0,
                    whole >= 0,
            ;
        }
    }
    if rest == 0 {
        whole
    } else {
        whole + 1
    }
}

fn frame_rule_broken(options: &VideoFramePacketizeOptions<'_>, unit: &VideoAccessUnit) -> (broken:
    Option<Refusal>)
    ensures
        broken == frame_refusal(options@, unit@),
{
    if options.stream_id.is_empty() {
        return Some(Refusal::StreamIdEmpty);
    }
    if options.session_id.is_empty() {
        return Some(Refusal::SessionIdEmpty);
    }
    if options.codec.is_empty() {
        return Some(Refusal::CodecEmpty);
    }
    if options.timebase_num == 0 || options.timebase_den == 0 {
        return Some(Refusal::VideoTimebaseZero);
    }
    if options.duration_ticks == 0 {
        return Some(Refusal::VideoDurationZero);
    }
    if options.deadline_ticks < options.pts_ticks {
        return Some(Refusal::VideoDeadlineBeforePts);
    }
    if options.max_payload_bytes == 0 {
        return Some(Refusal::MaxPayloadZero);
    }
    if unit.bytes.len() == 0 {
        return Some(Refusal::AccessUnitEmpty);
    }
    if count_chunks(unit.bytes.len(), options.max_payload_bytes) > u16::MAX as usize {
        return Some(Refusal::TooManyChunks);
    }
    None
}

/// Cuts an access unit into chunks.
pub fn packetize_video_access_unit(
    options: VideoFramePacketizeOptions<'_>,
    access_unit: &VideoAccessUnit,
) -> (outcome: Result<Vec<GameCultMediaVideoAccessUnitRecord>, MediaError>)
    ensures
        packetize_frame(options@, access_unit@) == match outcome {
            Ok(chunks) => Ok::<Seq<VideoChunk>, MediaFault>(records::chunk_views(chunks@)),
            Err(error) => Err(error@),
        },
        outcome is Ok <==> {
            &&& options.stream_id@.len() > 0
            &&& options.session_id@.len() > 0
            &&& options.codec@.len() > 0
            &&& options.timebase_num > 0
            &&& options.timebase_den > 0
            &&& options.duration_ticks > 0
            &&& options.pts_ticks <= options.deadline_ticks
            &&& 0 < access_unit.bytes@.len() <= 65535 * options.max_payload_bytes
        },
        outcome matches Ok(chunks) ==> forall|i: int|
            #![trigger chunks@[i]]
            0 <= i < chunks@.len() ==> {
                &&& chunks@[i].stream_id@ == options.stream_id@
                &&& chunks@[i].session_id@ == options.session_id@
                &&& chunks@[i].frame_id == options.frame_id
                &&& chunks@[i].codec@ == options.codec@
                &&& chunks@[i].pts_ticks == options.pts_ticks
                &&& chunks@[i].duration_ticks == options.duration_ticks
                &&& chunks@[i].timebase_num == options.timebase_num
                &&& chunks@[i].timebase_den == options.timebase_den
                &&& chunks@[i].keyframe == access_unit.keyframe
                &&& chunks@[i].deadline_ticks == options.deadline_ticks
                &&& chunks@[i].chunk_index == i
                &&& chunks@[i].chunk_count == chunks@.len()
            },
{
    proof {
        law_what_can_be_packetized(options@, access_unit@);
    }
    if let Some(refusal) = frame_rule_broken(&options, access_unit) {
        return Err(MediaError::Refused(refusal));
    }
    let total: usize = access_unit.bytes.len();
    let max: usize = options.max_payload_bytes;
    let count: usize = count_chunks(total, max);
    let refers_back = access_unit_references_previous_frame(options.codec, access_unit);
    let dependency_frame_id: Option<u64> = if refers_back && options.frame_id > 0 {
        Some(options.frame_id - 1)
    } else {
        None
    };
    let ghost expected = frame_chunks(options@, access_unit@);
    let mut chunks: Vec<GameCultMediaVideoAccessUnitRecord> = Vec::with_capacity(count);
    let mut start: usize = 0;
    let mut index: usize = 0;
    assert(records::chunk_views(chunks@) =~= expected.take(0));
    while index < count
        invariant
            index <= count <= u16::MAX,
            total == access_unit.bytes@.len(),
            total > 0,
            max == options.max_payload_bytes,
            max > 0,
            count == chunks_needed(total as nat, max as nat),
            index < count ==> start == index * max,
            dependency_frame_id == dependency(options@, access_unit@),
            expected == frame_chunks(options@, access_unit@),
            records::chunk_views(chunks@) == expected.take(index as int),
        decreases count - index,
    {
        proof {
            lemma_chunk_starts_inside(total as nat, max as nat, index as int);
            assert((index + 1) * max == index * max + max) by (nonlinear_arith);
            if index + 1 < count {
                lemma_chunk_starts_inside(total as nat, max as nat, index + 1);
            }
        }
        let end: usize = if total - start > max {
            start + max
        } else {
            total
        };
        let chunk = GameCultMediaVideoAccessUnitRecord {
            stream_id: options.stream_id.to_owned(),
            session_id: options.session_id.to_owned(),
            frame_id: options.frame_id,
            codec: options.codec.to_owned(),
            pts_ticks: options.pts_ticks,
            duration_ticks: options.duration_ticks,
            timebase_num: options.timebase_num,
            timebase_den: options.timebase_den,
            keyframe: access_unit.keyframe,
            dependency_frame_id,
            deadline_ticks: options.deadline_ticks,
            chunk_index: index as u16,
            chunk_count: count as u16,
            payload: slice_to_vec(slice_subrange(access_unit.bytes.as_slice(), start, end)),
        };
        let ghost before = chunks@;
        assert(chunk@ =~= expected[index as int]);
        chunks.push(chunk);
        assert(records::chunk_views(chunks@) =~= records::chunk_views(before).push(chunk@));
        assert(expected.take(index + 1) =~= expected.take(index as int).push(
            expected[index as int],
        ));
        start = end;
        index = index + 1;
    }
    assert(expected.take(count as int) =~= expected);
    proof {
        assert forall|i: int| #![trigger chunks@[i]] 0 <= i < chunks@.len() implies {
            &&& chunks@[i].stream_id@ == options.stream_id@
            &&& chunks@[i].session_id@ == options.session_id@
            &&& chunks@[i].frame_id == options.frame_id
            &&& chunks@[i].codec@ == options.codec@
            &&& chunks@[i].pts_ticks == options.pts_ticks
            &&& chunks@[i].duration_ticks == options.duration_ticks
            &&& chunks@[i].timebase_num == options.timebase_num
            &&& chunks@[i].timebase_den == options.timebase_den
            &&& chunks@[i].keyframe == access_unit.keyframe
            &&& chunks@[i].deadline_ticks == options.deadline_ticks
            &&& chunks@[i].chunk_index == i
            &&& chunks@[i].chunk_count == chunks@.len()
        } by {
            assert(records::chunk_views(chunks@)[i] == chunks@[i]@);
        }
    }
    Ok(chunks)
}

// Whole streams

/// How frame `k` of a stream is packetized: ids count up by one and times by the frame
/// duration, as far as they can be represented.
pub open spec fn stream_frame(options: StreamOptions, k: int) -> Result<FrameOptions, Refusal> {
    let pts_offset = k * options.frame_duration_ticks;
    let pts = options.first_pts_ticks + pts_offset;
    if options.first_frame_id + k > u64::MAX {
        Err(Refusal::VideoFrameIdOverflow)
    } else if pts_offset > i64::MAX || pts > i64::MAX {
        Err(Refusal::VideoPtsOverflow)
    } else if pts + options.deadline_delay_ticks > i64::MAX {
        Err(Refusal::VideoDeadlineOverflow)
    } else {
        Ok(
            FrameOptions {
                stream_id: options.stream_id,
                session_id: options.session_id,
                codec: options.codec,
                frame_id: (options.first_frame_id + k) as u64,
                pts_ticks: pts as i64,
                duration_ticks: options.frame_duration_ticks,
                timebase_num: options.timebase_num,
                timebase_den: options.timebase_den,
                deadline_ticks: (pts + options.deadline_delay_ticks) as i64,
                max_payload_bytes: options.max_payload_bytes,
            },
        )
    }
}

/// What packetizing access unit `k` of a stream comes to.
pub open spec fn packetize_unit(options: StreamOptions, units: Seq<AccessUnit>, k: int) -> Result<
    Seq<VideoChunk>,
    MediaFault,
> {
    match stream_frame(options, k) {
        Err(refusal) => Err(MediaFault::Refused(refusal)),
        Ok(frame) => packetize_frame(frame, units[k]),
    }
}

/// What packetizing the first `n` access units of a stream comes to: their chunks one
/// behind the other, or the first fault.
pub open spec fn packetize_units(options: StreamOptions, units: Seq<AccessUnit>, n: nat) -> Result<
    Seq<VideoChunk>,
    MediaFault,
>
    decreases n,
{
    if n == 0 {
        Ok(Seq::empty())
    } else {
        match packetize_units(options, units, (n - 1) as nat) {
            Err(fault) => Err(fault),
            Ok(before) => match packetize_unit(options, units, n - 1) {
                Err(fault) => Err(fault),
                Ok(chunks) => Ok(before + chunks),
            },
        }
    }
}

/// What packetizing a stream comes to.
pub open spec fn packetize_stream(options: StreamOptions, input: Seq<u8>) -> Result<
    Seq<VideoChunk>,
    MediaFault,
> {
    if options.frame_duration_ticks == 0 {
        Err(MediaFault::Refused(Refusal::FrameDurationZero))
    } else if options.deadline_delay_ticks < 0 {
        Err(MediaFault::Refused(Refusal::DeadlineDelayNegative))
    } else {
        match annexb::split_named(options.codec, input) {
            Err(fault) => Err(fault),
            Ok(units) => packetize_units(options, units, units.len()),
        }
    }
}

fn frame_of_stream<'a>(
    options: &VideoAnnexBStreamPacketizeOptions<'a>,
    k: usize,
) -> (outcome: Result<VideoFramePacketizeOptions<'a>, Refusal>)
    requires
        options.frame_duration_ticks > 0,
        options.deadline_delay_ticks >= 0,
    ensures
        stream_frame(options@, k as int) == match outcome {
            Ok(frame) => Ok::<FrameOptions, Refusal>(frame@),
            Err(refusal) => Err(refusal),
        },
{
    let duration: i64 = options.frame_duration_ticks as i64;
    proof {
        assert(k <= k * options.frame_duration_ticks) by (nonlinear_arith)
            requires
                options.frame_duration_ticks > 0,
        ;
    }
    let frame_id: u64 = match options.first_frame_id.checked_add(k as u64) {
        Some(frame_id) => frame_id,
        None => {
            return Err(Refusal::VideoFrameIdOverflow);
        },
    };
    if k as u64 > i64::MAX as u64 {
        return Err(Refusal::VideoPtsOverflow);
    }
    let pts_offset: i64 = match (k as i64).checked_mul(duration) {
        Some(pts_offset) => pts_offset,
        None => {
            return Err(Refusal::VideoPtsOverflow);
        },
    };
    let pts_ticks: i64 = match options.first_pts_ticks.checked_add(pts_offset) {
        Some(pts_ticks) => pts_ticks,
        None => {
            return Err(Refusal::VideoPtsOverflow);
        },
    };
    let deadline_ticks: i64 = match pts_ticks.checked_add(options.deadline_delay_ticks) {
        Some(deadline_ticks) => deadline_ticks,
        None => {
            return Err(Refusal::VideoDeadlineOverflow);
        },
    };
    Ok(
        VideoFramePacketizeOptions {
            stream_id: options.stream_id,
            session_id: options.session_id,
            codec: options.codec,
            frame_id,
            pts_ticks,
            duration_ticks: options.frame_duration_ticks,
            timebase_num: options.timebase_num,
            timebase_den: options.timebase_den,
            deadline_ticks,
            max_payload_bytes: options.max_payload_bytes,
        },
    )
}

/// What the records of a packetized stream say is what its options say.
proof fn lemma_stream_records(
    options: VideoAnnexBStreamPacketizeOptions<'_>,
    input: Seq<u8>,
    all: Seq<GameCultMediaVideoAccessUnitRecord>,
)
    requires
        packetize_stream(options@, input) == Ok::<Seq<VideoChunk>, MediaFault>(
            records::chunk_views(all),
        ),
    ensures
        forall|i: int|
            #![trigger all[i]]
            0 <= i < all.len() ==> {
                &&& all[i].stream_id@ == options.stream_id@
                &&& all[i].session_id@ == options.session_id@
                &&& all[i].codec@ == options.codec@
                &&& all[i].frame_id >= options.first_frame_id
                &&& all[i].pts_ticks == options.first_pts_ticks + (all[i].frame_id
                    - options.first_frame_id) * options.frame_duration_ticks
                &&& all[i].duration_ticks == options.frame_duration_ticks
                &&& all[i].timebase_num == options.timebase_num
                &&& all[i].timebase_den == options.timebase_den
                &&& all[i].deadline_ticks == all[i].pts_ticks + options.deadline_delay_ticks
                &&& all[i].payload@.len() <= options.max_payload_bytes
            },
{
    let units = annexb::split_named(options@.codec, input)->Ok_0;
    law_stream_chunks_are_in_step(options@, input);
    assert forall|i: int| #![trigger all[i]] 0 <= i < all.len() implies {
        &&& all[i].stream_id@ == options.stream_id@
        &&& all[i].session_id@ == options.session_id@
        &&& all[i].codec@ == options.codec@
        &&& all[i].frame_id >= options.first_frame_id
        &&& all[i].pts_ticks == options.first_pts_ticks + (all[i].frame_id
            - options.first_frame_id) * options.frame_duration_ticks
        &&& all[i].duration_ticks == options.frame_duration_ticks
        &&& all[i].timebase_num == options.timebase_num
        &&& all[i].timebase_den == options.timebase_den
        &&& all[i].deadline_ticks == all[i].pts_ticks + options.deadline_delay_ticks
        &&& all[i].payload@.len() <= options.max_payload_bytes
    } by {
        let chunk = records::chunk_views(all)[i];
        assert(chunk == all[i]@);
        lemma_chunk_fits(options@, units, units.len(), chunk);
    }
}

proof fn lemma_chunk_fits(
    options: StreamOptions,
    units: Seq<AccessUnit>,
    n: nat,
    chunk: VideoChunk,
)
    requires
        chunk_in_step(options, units, n, chunk),
    ensures
        chunk.payload.len() <= options.max_payload_bytes,
        chunk.meta.frame_id >= options.first_frame_id,
{
    let count = chunk.meta.chunk_count as int;
    let max = options.max_payload_bytes as int;
    assert(count * max == (count - 1) * max + max) by (nonlinear_arith);
    if chunk.chunk_index + 1 == count {
        assert(chunk.chunk_index * max == (count - 1) * max);
    }
}

proof fn lemma_fault_stays(options: StreamOptions, units: Seq<AccessUnit>, k: nat, n: nat)
    requires
        k <= n,
        packetize_units(options, units, k) is Err,
    ensures
        packetize_units(options, units, n) == packetize_units(options, units, k),
    decreases n,
{
    if k < n {
        lemma_fault_stays(options, units, k, (n - 1) as nat);
    }
}

/// Splits an Annex B stream into access units and cuts each into chunks.
pub fn packetize_video_annex_b_stream(
    options: VideoAnnexBStreamPacketizeOptions<'_>,
    input: &[u8],
) -> (outcome: Result<Vec<GameCultMediaVideoAccessUnitRecord>, MediaError>)
    ensures
        packetize_stream(options@, input@) == match outcome {
            Ok(chunks) => Ok::<Seq<VideoChunk>, MediaFault>(records::chunk_views(chunks@)),
            Err(error) => Err(error@),
        },
        outcome matches Ok(chunks) ==> forall|i: int|
            #![trigger chunks@[i]]
            0 <= i < chunks@.len() ==> {
                &&& chunks@[i].stream_id@ == options.stream_id@
                &&& chunks@[i].session_id@ == options.session_id@
                &&& chunks@[i].codec@ == options.codec@
                &&& chunks@[i].frame_id >= options.first_frame_id
                &&& chunks@[i].pts_ticks == options.first_pts_ticks + (chunks@[i].frame_id
                    - options.first_frame_id) * options.frame_duration_ticks
                &&& chunks@[i].duration_ticks == options.frame_duration_ticks
                &&& chunks@[i].timebase_num == options.timebase_num
                &&& chunks@[i].timebase_den == options.timebase_den
                &&& chunks@[i].deadline_ticks == chunks@[i].pts_ticks
                    + options.deadline_delay_ticks
                &&& chunks@[i].payload@.len() <= options.max_payload_bytes
            },
{
    if options.frame_duration_ticks == 0 {
        return Err(MediaError::Refused(Refusal::FrameDurationZero));
    }
    if options.deadline_delay_ticks < 0 {
        return Err(MediaError::Refused(Refusal::DeadlineDelayNegative));
    }
    let access_units = match video_annex_b_access_units(options.codec, input) {
        Ok(access_units) => access_units,
        Err(error) => {
            return Err(error);
        },
    };
    let ghost units = annexb::unit_views(access_units@);
    let mut all: Vec<GameCultMediaVideoAccessUnitRecord> = Vec::new();
    assert(records::chunk_views(all@) =~= Seq::<VideoChunk>::empty());
    let mut k: usize = 0;
    while k < access_units.len()
        invariant
            k <= access_units@.len(),
            units == annexb::unit_views(access_units@),
            options.frame_duration_ticks > 0,
            options.deadline_delay_ticks >= 0,
            packetize_stream(options@, input@) == packetize_units(options@, units, units.len()),
            packetize_units(options@, units, k as nat) == Ok::<Seq<VideoChunk>, MediaFault>(
                records::chunk_views(all@),
            ),
        decreases access_units@.len() - k,
    {
        assert(units[k as int] == access_units@[k as int]@);
        let frame = match frame_of_stream(&options, k) {
            Ok(frame) => frame,
            Err(refusal) => {
                proof {
                    lemma_fault_stays(options@, units, (k + 1) as nat, units.len());
                }
                return Err(MediaError::Refused(refusal));
            },
        };
        let mut chunks = match packetize_video_access_unit(frame, &access_units[k]) {
            Ok(chunks) => chunks,
            Err(error) => {
                proof {
                    lemma_fault_stays(options@, units, (k + 1) as nat, units.len());
                }
                return Err(error);
            },
        };
        let ghost before = all@;
        let ghost added = chunks@;
        all.append(&mut chunks);
        assert(records::chunk_views(all@) =~= records::chunk_views(before) + records::chunk_views(
            added,
        ));
        k = k + 1;
    }
    proof {
        lemma_stream_records(options, input@, all@);
    }
    Ok(all)
}

// Laws

/// The payloads of the first `n` chunks, one behind the other.
pub open spec fn joined_payloads(chunks: Seq<VideoChunk>, n: nat) -> Seq<u8>
    decreases n,
{
    if n == 0 {
        Seq::empty()
    } else {
        joined_payloads(chunks, (n - 1) as nat) + chunks[n - 1].payload
    }
}

proof fn lemma_chunk_sizes(options: FrameOptions, unit: AccessUnit)
    requires
        frame_refusal(options, unit) is None,
    ensures
        forall|i: int|
            #![trigger frame_chunks(options, unit)[i]]
            0 <= i < frame_chunks(options, unit).len() ==> {
                let payload = frame_chunks(options, unit)[i].payload;
                &&& 0 < payload.len() <= options.max_payload_bytes
                &&& i + 1 < frame_chunks(options, unit).len() ==> payload.len()
                    == options.max_payload_bytes
            },
{
    let chunks = frame_chunks(options, unit);
    let max = options.max_payload_bytes as nat;
    let len = unit.bytes.len();
    assert forall|i: int| #![trigger chunks[i]] 0 <= i < chunks.len() implies {
        let payload = chunks[i].payload;
        &&& 0 < payload.len() <= max
        &&& i + 1 < chunks.len() ==> payload.len() == max
    } by {
        lemma_chunk_starts_inside(len, max, i);
        assert((i + 1) * max == i * max + max) by (nonlinear_arith);
        if i + 1 < chunks.len() {
            lemma_chunk_starts_inside(len, max, i + 1);
        }
    }
}

proof fn lemma_joined_payloads(options: FrameOptions, unit: AccessUnit, n: nat)
    requires
        frame_refusal(options, unit) is None,
        n <= frame_chunks(options, unit).len(),
    ensures
        joined_payloads(frame_chunks(options, unit), n) == unit.bytes.take(
            if n * options.max_payload_bytes < unit.bytes.len() {
                n * options.max_payload_bytes
            } else {
                unit.bytes.len() as int
            },
        ),
    decreases n,
{
    let chunks = frame_chunks(options, unit);
    let max = options.max_payload_bytes as nat;
    let bytes = unit.bytes;
    if n == 0 {
        assert(0 * max == 0) by (nonlinear_arith);
        assert(bytes.take(0) =~= Seq::<u8>::empty());
    } else {
        lemma_joined_payloads(options, unit, (n - 1) as nat);
        lemma_chunk_starts_inside(bytes.len(), max, n - 1);
        assert(n * max == (n - 1) * max + max) by (nonlinear_arith);
        assert(chunks[n - 1].payload == chunk_payload(bytes, max, n - 1));
        let end: int = if n * max < bytes.len() {
            (n * max) as int
        } else {
            bytes.len() as int
        };
        assert(bytes.take(end) =~= bytes.take((n - 1) * max) + bytes.subrange(
            (n - 1) * max,
            end,
        ));
    }
}

/// An access unit can be packetized exactly where the options name a stream, a session and
/// a codec, give a timebase and a duration without a zero and a deadline that is not before
/// the presentation time, and the access unit holds between one byte and what 65535 chunks
/// can take. Otherwise the first of these that fails is told.
pub proof fn law_what_can_be_packetized(options: FrameOptions, unit: AccessUnit)
    ensures
        packetize_frame(options, unit) is Ok <==> {
            &&& options.stream_id.len() > 0
            &&& options.session_id.len() > 0
            &&& options.codec.len() > 0
            &&& options.timebase_num > 0
            &&& options.timebase_den > 0
            &&& options.duration_ticks > 0
            &&& options.pts_ticks <= options.deadline_ticks
            &&& 0 < unit.bytes.len() <= 65535 * options.max_payload_bytes
        },
        packetize_frame(options, unit) matches Err(fault) ==> fault == MediaFault::Refused(
            if options.stream_id.len() == 0 {
                Refusal::StreamIdEmpty
            } else if options.session_id.len() == 0 {
                Refusal::SessionIdEmpty
            } else if options.codec.len() == 0 {
                Refusal::CodecEmpty
            } else if options.timebase_num == 0 || options.timebase_den == 0 {
                Refusal::VideoTimebaseZero
            } else if options.duration_ticks == 0 {
                Refusal::VideoDurationZero
            } else if options.deadline_ticks < options.pts_ticks {
                Refusal::VideoDeadlineBeforePts
            } else if options.max_payload_bytes == 0 {
                Refusal::MaxPayloadZero
            } else if unit.bytes.len() == 0 {
                Refusal::AccessUnitEmpty
            } else {
                Refusal::TooManyChunks
            },
        ),
{
    let max = options.max_payload_bytes as nat;
    let len = unit.bytes.len();
    if max > 0 && len > 0 {
        lemma_chunks_needed(len, max);
        let n = chunks_needed(len, max);
        if n <= 65535 {
            mul::lemma_mul_inequality(n as int, 65535, max as int);
        } else {
            mul::lemma_mul_inequality(65535, n - 1, max as int);
        }
    }
}

/// Every chunk of a packetized access unit carries what the options say of the frame, and
/// whether it is a keyframe. Chunk `i` holds the bytes from `i` times the chunk size on: a
/// whole chunk of them, or what is left.
pub proof fn law_chunks_carry_the_options(options: FrameOptions, unit: AccessUnit, i: int)
    requires
        packetize_frame(options, unit) is Ok,
        0 <= i < packetize_frame(options, unit)->Ok_0.len(),
    ensures
        ({
            let chunks = packetize_frame(options, unit)->Ok_0;
            let chunk = chunks[i];
            let max = options.max_payload_bytes;
            &&& chunk.meta.stream_id == options.stream_id
            &&& chunk.meta.session_id == options.session_id
            &&& chunk.meta.frame_id == options.frame_id
            &&& chunk.meta.codec == options.codec
            &&& chunk.meta.pts_ticks == options.pts_ticks
            &&& chunk.meta.duration_ticks == options.duration_ticks
            &&& chunk.meta.timebase_num == options.timebase_num
            &&& chunk.meta.timebase_den == options.timebase_den
            &&& chunk.meta.deadline_ticks == options.deadline_ticks
            &&& chunk.meta.keyframe == unit.keyframe
            &&& chunk.meta.chunk_count == chunks.len()
            &&& chunk.chunk_index == i
            &&& (chunks.len() - 1) * max < unit.bytes.len() <= chunks.len() * max
            &&& chunk.payload.len() == if i + 1 < chunks.len() {
                max as int
            } else {
                unit.bytes.len() - i * max
            }
            &&& forall|o: int|
                0 <= o < chunk.payload.len() ==> #[trigger] chunk.payload[o] == unit.bytes[i * max
                    + o]
        }),
{
    let chunks = frame_chunks(options, unit);
    let max = options.max_payload_bytes as nat;
    law_chunks_join_to_the_access_unit(options, unit);
    lemma_chunks_needed(unit.bytes.len(), max);
    lemma_chunk_starts_inside(unit.bytes.len(), max, i);
    assert(chunks[i].payload == chunk_payload(unit.bytes, max, i));
    assert((i + 1) * max == i * max + max) by (nonlinear_arith);
    if i + 1 < chunks.len() {
        lemma_chunk_starts_inside(unit.bytes.len(), max, i + 1);
    } else {
        assert(chunks.len() * max == (i + 1) * max);
    }
}

/// Packetizing loses nothing: the chunks of an access unit are numbered from zero, agree
/// on the frame, hold between one and `max_payload_bytes` bytes each, all but the last
/// exactly that many, and their payloads, one behind the other, are the access unit.
pub proof fn law_chunks_join_to_the_access_unit(options: FrameOptions, unit: AccessUnit)
    requires
        packetize_frame(options, unit) is Ok,
    ensures
        ({
            let chunks = packetize_frame(options, unit)->Ok_0;
            &&& 0 < chunks.len() <= u16::MAX
            &&& joined_payloads(chunks, chunks.len()) == unit.bytes
            &&& forall|i: int|
                #![trigger chunks[i]]
                0 <= i < chunks.len() ==> {
                    &&& chunks[i].meta == frame_meta(options, unit)
                    &&& chunks[i].meta.chunk_count == chunks.len()
                    &&& chunks[i].chunk_index == i
                    &&& 0 < chunks[i].payload.len() <= options.max_payload_bytes
                    &&& i + 1 < chunks.len() ==> chunks[i].payload.len()
                        == options.max_payload_bytes
                }
        }),
{
    let chunks = frame_chunks(options, unit);
    let max = options.max_payload_bytes as nat;
    lemma_chunks_needed(unit.bytes.len(), max);
    lemma_joined_payloads(options, unit, chunks.len());
    lemma_chunk_sizes(options, unit);
    assert(unit.bytes.take(unit.bytes.len() as int) =~= unit.bytes);
}

proof fn lemma_packetized_places(options: FrameOptions, unit: AccessUnit, i: int)
    requires
        frame_refusal(options, unit) is None,
        0 <= i < frame_chunks(options, unit).len(),
    ensures
        parity::has_index(frame_chunks(options, unit), i),
        parity::payload_at(frame_chunks(options, unit), i)
            == frame_chunks(options, unit)[i].payload,
{
    let chunks = frame_chunks(options, unit);
    assert(chunks[i].chunk_index == i);
    let j = choose|j: int| 0 <= j < chunks.len() && (#[trigger] chunks[j]).chunk_index == i;
    assert(chunks[j].chunk_index == j as u16);
}

proof fn lemma_packetized_no_fault(
    options: FrameOptions,
    unit: AccessUnit,
    verdicts: Seq<Result<(), String>>,
    from: int,
)
    requires
        frame_refusal(options, unit) is None,
        0 <= from,
        forall|i: int| 0 <= i < frame_chunks(options, unit).len() ==> #[trigger] verdicts[i] is Ok,
    ensures
        parity::first_chunk_fault(frame_chunks(options, unit), verdicts, from) is None,
    decreases frame_chunks(options, unit).len() - from,
{
    let chunks = frame_chunks(options, unit);
    if from < chunks.len() {
        lemma_packetized_no_fault(options, unit, verdicts, from + 1);
        assert(verdicts[from] is Ok);
        assert(chunks[from].chunk_index == from as u16);
        assert forall|j: int| 0 <= j < from implies (#[trigger] chunks[j]).chunk_index
            != chunks[from].chunk_index by {
            assert(chunks[j].chunk_index == j as u16);
        }
    }
}

proof fn lemma_packetized_none_missing(options: FrameOptions, unit: AccessUnit, from: int)
    requires
        frame_refusal(options, unit) is None,
        0 <= from,
    ensures
        parity::first_missing(
            frame_chunks(options, unit),
            from,
            frame_chunks(options, unit).len() as int,
        ) is None,
    decreases frame_chunks(options, unit).len() - from,
{
    if from < frame_chunks(options, unit).len() {
        lemma_packetized_none_missing(options, unit, from + 1);
        lemma_packetized_places(options, unit, from);
    }
}

proof fn lemma_packetized_longest(options: FrameOptions, unit: AccessUnit, upto: nat)
    requires
        frame_refusal(options, unit) is None,
        frame_chunks(options, unit).len() > 1,
        upto <= frame_chunks(options, unit).len(),
    ensures
        parity::stripe_len(frame_chunks(options, unit), 0, 1, upto) == if upto == 0 {
            0
        } else {
            options.max_payload_bytes as nat
        },
    decreases upto,
{
    if upto > 0 {
        let chunks = frame_chunks(options, unit);
        lemma_packetized_longest(options, unit, (upto - 1) as nat);
        lemma_packetized_places(options, unit, upto - 1);
        lemma_chunk_sizes(options, unit);
        assert(chunks[upto - 1].payload.len() <= options.max_payload_bytes);
        assert((upto - 1) % 1 == 0);
    }
}

/// No stripe of a packetized access unit of more than one chunk is empty.
pub proof fn lemma_packetized_stripes_filled(options: FrameOptions, unit: AccessUnit)
    requires
        packetize_frame(options, unit) is Ok,
        packetize_frame(options, unit)->Ok_0.len() > 1,
    ensures
        ({
            let chunks = packetize_frame(options, unit)->Ok_0;
            &&& chunks[0].meta.chunk_count == chunks.len()
            &&& forall|stripe: int|
                0 <= stripe < parity::stripes_for(chunks[0].meta.chunk_count)
                    ==> #[trigger] parity::stripe_payload(chunks, stripe).len() > 0
        }),
{
    let chunks = frame_chunks(options, unit);
    law_chunks_join_to_the_access_unit(options, unit);
    let stripes = parity::stripes_for(chunks[0].meta.chunk_count);
    assert forall|stripe: int| 0 <= stripe < stripes implies #[trigger] parity::stripe_payload(
        chunks,
        stripe,
    ).len() > 0 by {
        lemma_packetized_places(options, unit, stripe);
        assert(chunks[stripe].payload.len() > 0);
        div_mod::lemma_small_mod(stripe as nat, stripes as nat);
        parity::lemma_stripe_covers(chunks, stripe, stripes as int, chunks.len(), stripe);
    }
}

/// A packetized access unit of more than one chunk has one shard per stripe, numbered from
/// zero, wherever the media wire layer passes its chunks.
pub proof fn law_packetized_frames_have_all_shards(
    options: FrameOptions,
    unit: AccessUnit,
    verdicts: Seq<Result<(), String>>,
)
    requires
        packetize_frame(options, unit) is Ok,
        packetize_frame(options, unit)->Ok_0.len() > 1,
        options.max_payload_bytes <= u32::MAX,
        verdicts.len() == packetize_frame(options, unit)->Ok_0.len(),
        forall|i: int| 0 <= i < verdicts.len() ==> #[trigger] verdicts[i] is Ok,
    ensures
        parity::parity_outcome(packetize_frame(options, unit)->Ok_0, verdicts) is Ok,
        ({
            let shards = parity::parity_outcome(
                packetize_frame(options, unit)->Ok_0,
                verdicts,
            )->Ok_0;
            &&& shards.len() == parity::stripes_for(verdicts.len() as u16)
            &&& forall|i: int|
                #![trigger shards[i]]
                0 <= i < shards.len() ==> {
                    &&& shards[i].parity_index == i
                    &&& shards[i].parity_count == shards.len()
                    &&& shards[i].meta == frame_meta(options, unit)
                    &&& shards[i].chunk_payload_bytes == options.max_payload_bytes
                }
        }),
{
    let chunks = frame_chunks(options, unit);
    law_chunks_join_to_the_access_unit(options, unit);
    assert(chunks[0].meta.chunk_count == chunks.len());
    lemma_packetized_no_fault(options, unit, verdicts, 0);
    lemma_packetized_none_missing(options, unit, 0);
    lemma_packetized_longest(options, unit, chunks.len());
    lemma_packetized_places(options, unit, chunks.len() - 1);
    assert(chunks[chunks.len() - 1].payload.len() <= u32::MAX);
    assert(verdicts[0] is Ok);
    let stripes = parity::stripes_for(chunks[0].meta.chunk_count);
    lemma_packetized_stripes_filled(options, unit);
    parity::law_one_shard_per_stripe(chunks, stripes as nat);
    let shards = parity::parity_outcome(chunks, verdicts)->Ok_0;
    assert forall|i: int| #![trigger shards[i]] 0 <= i < shards.len() implies {
        &&& shards[i].parity_index == i
        &&& shards[i].parity_count == shards.len()
        &&& shards[i].meta == frame_meta(options, unit)
        &&& shards[i].chunk_payload_bytes == options.max_payload_bytes
    } by {
        assert(shards[i] == parity::stripe_shard(chunks, i));
    }
}

/// The length of chunk `lost` as a shard of its frame tells it.
pub open spec fn told_len(shard: records::ParityShard, lost: int) -> nat {
    if lost == shard.meta.chunk_count - 1 {
        shard.last_chunk_payload_bytes as nat
    } else {
        shard.chunk_payload_bytes as nat
    }
}

/// A packetized access unit of more than one chunk gets its parity wherever the media wire
/// layer passes its chunks, and survives a burst: each chunk out of a run of lost chunks
/// no longer than the number of stripes comes back in full from one of the shards and
/// what was received outside the run.
pub proof fn law_packetized_frames_survive_bursts(
    options: FrameOptions,
    unit: AccessUnit,
    verdicts: Seq<Result<(), String>>,
    received: Seq<VideoChunk>,
    burst: int,
    lost: int,
)
    requires
        packetize_frame(options, unit) is Ok,
        packetize_frame(options, unit)->Ok_0.len() > 1,
        options.max_payload_bytes <= u32::MAX,
        verdicts.len() == packetize_frame(options, unit)->Ok_0.len(),
        forall|i: int| 0 <= i < verdicts.len() ==> #[trigger] verdicts[i] is Ok,
        0 <= lost < verdicts.len(),
        burst <= lost < burst + parity::stripes_for(verdicts.len() as u16),
        forall|index: int|
            0 <= index < verdicts.len() && !(burst <= index < burst + parity::stripes_for(
                verdicts.len() as u16,
            )) ==> #[trigger] parity::payload_at(received, index) == packetize_frame(
                options,
                unit,
            )->Ok_0[index].payload,
    ensures
        parity::parity_outcome(packetize_frame(options, unit)->Ok_0, verdicts) is Ok,
        exists|k: int|
            #![trigger parity::parity_outcome(
                packetize_frame(options, unit)->Ok_0,
                verdicts,
            )->Ok_0[k]]
            {
                let chunks = packetize_frame(options, unit)->Ok_0;
                let shards = parity::parity_outcome(chunks, verdicts)->Ok_0;
                &&& 0 <= k < shards.len()
                &&& shards[k].parity_index == lost % (shards[k].parity_count as int)
                &&& parity::recovered(shards[k], received, lost, told_len(shards[k], lost))
                    == chunks[lost].payload
            },
{
    let chunks = frame_chunks(options, unit);
    law_chunks_join_to_the_access_unit(options, unit);
    assert(chunks[0].meta.chunk_count == chunks.len());
    lemma_packetized_no_fault(options, unit, verdicts, 0);
    lemma_packetized_none_missing(options, unit, 0);
    lemma_packetized_longest(options, unit, chunks.len());
    lemma_packetized_places(options, unit, chunks.len() - 1);
    assert(chunks[chunks.len() - 1].payload.len() <= u32::MAX);
    assert(verdicts[0] is Ok);
    assert(parity::parity_outcome(chunks, verdicts) is Ok);
    lemma_packetized_places(options, unit, lost);
    assert(chunks[lost].payload.len() > 0);
    assert forall|index: int|
        0 <= index < chunks.len() && !(burst <= index < burst + parity::stripes_for(
            chunks[0].meta.chunk_count,
        )) implies #[trigger] parity::payload_at(received, index) == parity::payload_at(
        chunks,
        index,
    ) by {
        lemma_packetized_places(options, unit, index);
    }
    parity::law_burst_loss_recovery(chunks, verdicts, received, burst, lost);
    let stripe = lost % (parity::stripes_for(chunks[0].meta.chunk_count) as int);
    let shard = parity::stripe_shard(chunks, stripe);
    let shards = parity::parity_outcome(chunks, verdicts)->Ok_0;
    let k = choose|k: int| 0 <= k < shards.len() && shards[k] == shard;
    assert(shards[k] == shard);
    assert(told_len(shard, lost) == chunks[lost].payload.len());
}

proof fn lemma_units_evenly_timed(
    options: StreamOptions,
    units: Seq<AccessUnit>,
    n: nat,
    i: int,
)
    requires
        options.deadline_delay_ticks >= 0,
        packetize_units(options, units, n) is Ok,
        0 <= i < packetize_units(options, units, n)->Ok_0.len(),
    ensures
        ({
            let chunk = packetize_units(options, units, n)->Ok_0[i];
            let k = chunk.meta.frame_id - options.first_frame_id;
            &&& 0 <= k < n
            &&& chunk.meta.pts_ticks == options.first_pts_ticks + k * options.frame_duration_ticks
            &&& chunk.meta.deadline_ticks == chunk.meta.pts_ticks + options.deadline_delay_ticks
            &&& chunk.meta.keyframe == units[k].keyframe
        }),
    decreases n,
{
    if n > 0 {
        let before = packetize_units(options, units, (n - 1) as nat)->Ok_0;
        if i < before.len() {
            lemma_units_evenly_timed(options, units, (n - 1) as nat, i);
        } else {
            assert(0 <= (n - 1) * options.frame_duration_ticks) by (nonlinear_arith)
                requires
                    n > 0,
            ;
        }
    }
}

/// The frames of a packetized stream are timed evenly: a chunk's presentation time lies
/// as many frame durations after the first as its frame id lies after the first id, and
/// its deadline lies the deadline delay after that.
pub proof fn law_stream_is_evenly_timed(options: StreamOptions, input: Seq<u8>, i: int)
    requires
        packetize_stream(options, input) is Ok,
        0 <= i < packetize_stream(options, input)->Ok_0.len(),
    ensures
        ({
            let chunk = packetize_stream(options, input)->Ok_0[i];
            let units = annexb::split_named(options.codec, input)->Ok_0;
            let k = chunk.meta.frame_id - options.first_frame_id;
            &&& 0 <= k < units.len()
            &&& chunk.meta.pts_ticks == options.first_pts_ticks + k * options.frame_duration_ticks
            &&& chunk.meta.deadline_ticks == chunk.meta.pts_ticks + options.deadline_delay_ticks
            &&& chunk.meta.keyframe == units[k].keyframe
        }),
{
    let units = annexb::split_named(options.codec, input)->Ok_0;
    lemma_units_evenly_timed(options, units, units.len(), i);
}

proof fn lemma_joined_of_first(a: Seq<VideoChunk>, b: Seq<VideoChunk>, n: nat)
    requires
        n <= a.len(),
    ensures
        joined_payloads(a + b, n) == joined_payloads(a, n),
    decreases n,
{
    if n > 0 {
        lemma_joined_of_first(a, b, (n - 1) as nat);
        assert((a + b)[n - 1] == a[n - 1]);
    }
}

proof fn lemma_joined_in_two(a: Seq<VideoChunk>, b: Seq<VideoChunk>, n: nat)
    requires
        n <= b.len(),
    ensures
        joined_payloads(a + b, a.len() + n) == joined_payloads(a, a.len()) + joined_payloads(b, n),
    decreases n,
{
    let head = joined_payloads(a, a.len());
    if n == 0 {
        lemma_joined_of_first(a, b, a.len());
        assert(head + joined_payloads(b, 0) =~= head);
    } else {
        let before = (n - 1) as nat;
        lemma_joined_in_two(a, b, before);
        assert((a + b)[a.len() + n - 1] == b[n - 1]);
        assert((a.len() + n - 1) as nat == a.len() + before);
        assert(head + joined_payloads(b, before) + b[n - 1].payload =~= head + joined_payloads(
            b,
            n,
        ));
    }
}

proof fn lemma_units_lose_nothing(options: StreamOptions, units: Seq<AccessUnit>, n: nat)
    requires
        packetize_units(options, units, n) is Ok,
    ensures
        ({
            let chunks = packetize_units(options, units, n)->Ok_0;
            joined_payloads(chunks, chunks.len()) == annexb::joined(units, n)
        }),
    decreases n,
{
    if n > 0 {
        lemma_units_lose_nothing(options, units, (n - 1) as nat);
        let before = packetize_units(options, units, (n - 1) as nat)->Ok_0;
        let frame = stream_frame(options, n - 1)->Ok_0;
        let chunks = packetize_frame(frame, units[n - 1])->Ok_0;
        law_chunks_join_to_the_access_unit(frame, units[n - 1]);
        lemma_joined_in_two(before, chunks, chunks.len());
    }
}

/// Packetizing a stream loses nothing: the payloads of all its chunks, one behind the
/// other, are its access units; and where every start code is followed by a NAL unit with
/// a complete header, they are the stream from its first start code on.
pub proof fn law_stream_loses_nothing(
    options: StreamOptions,
    family: VideoFamily,
    input: Seq<u8>,
)
    requires
        packetize_stream(options, input) is Ok,
        codec::named_codec(options.codec) == Some(
            match family {
                VideoFamily::H264 => VideoCodec::H264,
                VideoFamily::H265 => VideoCodec::H265,
            },
        ),
    ensures
        ({
            let chunks = packetize_stream(options, input)->Ok_0;
            let units = annexb::stream_units(family, input);
            &&& joined_payloads(chunks, chunks.len()) == annexb::joined(units, units.len())
            &&& annexb::stream_nals(family, input).len() == annexb::start_codes(input, 0).len()
                ==> joined_payloads(chunks, chunks.len()) == input.skip(
                annexb::start_codes(input, 0)[0],
            )
        }),
{
    let units = annexb::stream_units(family, input);
    lemma_units_lose_nothing(options, units, units.len());
    if annexb::stream_nals(family, input).len() == annexb::start_codes(input, 0).len() {
        annexb::law_units_join_to_the_stream(family, input);
    }
}

/// Access unit `k` of a stream can be packetized exactly where its id and its times can be
/// represented and the frame itself can be packetized. Otherwise the first of these that
/// fails is told.
pub proof fn law_what_unit_of_a_stream_can_be_packetized(
    options: StreamOptions,
    units: Seq<AccessUnit>,
    k: int,
)
    requires
        0 <= k < units.len(),
        options.frame_duration_ticks > 0,
        options.deadline_delay_ticks >= 0,
    ensures
        packetize_unit(options, units, k) is Ok <==> {
            &&& options.first_frame_id + k <= 0xffff_ffff_ffff_ffff
            &&& k * options.frame_duration_ticks <= 0x7fff_ffff_ffff_ffff
            &&& options.first_pts_ticks + k * options.frame_duration_ticks
                + options.deadline_delay_ticks <= 0x7fff_ffff_ffff_ffff
            &&& options.stream_id.len() > 0
            &&& options.session_id.len() > 0
            &&& options.codec.len() > 0
            &&& options.timebase_num > 0
            &&& options.timebase_den > 0
            &&& 0 < units[k].bytes.len() <= 65535 * options.max_payload_bytes
        },
        packetize_unit(options, units, k) is Err && (options.first_frame_id + k
            > 0xffff_ffff_ffff_ffff || k * options.frame_duration_ticks > 0x7fff_ffff_ffff_ffff
            || options.first_pts_ticks + k * options.frame_duration_ticks
            + options.deadline_delay_ticks > 0x7fff_ffff_ffff_ffff) ==> packetize_unit(
            options,
            units,
            k,
        )->Err_0 == MediaFault::Refused(
            if options.first_frame_id + k > 0xffff_ffff_ffff_ffff {
                Refusal::VideoFrameIdOverflow
            } else if k * options.frame_duration_ticks > 0x7fff_ffff_ffff_ffff
                || options.first_pts_ticks + k * options.frame_duration_ticks
                > 0x7fff_ffff_ffff_ffff {
                Refusal::VideoPtsOverflow
            } else {
                Refusal::VideoDeadlineOverflow
            },
        ),
{
    mul::lemma_mul_nonnegative(k, options.frame_duration_ticks as int);
    if stream_frame(options, k) is Ok {
        law_what_can_be_packetized(stream_frame(options, k)->Ok_0, units[k]);
    }
}

proof fn lemma_first_fault(options: StreamOptions, units: Seq<AccessUnit>, n: nat)
    requires
        n <= units.len(),
    ensures
        packetize_units(options, units, n) is Ok <==> forall|k: int|
            0 <= k < n ==> #[trigger] packetize_unit(options, units, k) is Ok,
        packetize_units(options, units, n) matches Err(fault) ==> exists|k: int|
            {
                &&& 0 <= k < n
                &&& #[trigger] packetize_unit(options, units, k) == Err::<
                    Seq<VideoChunk>,
                    MediaFault,
                >(fault)
                &&& forall|i: int| 0 <= i < k ==> #[trigger] packetize_unit(options, units, i) is Ok
            },
    decreases n,
{
    if n > 0 {
        lemma_first_fault(options, units, (n - 1) as nat);
        if packetize_units(options, units, (n - 1) as nat) is Err {
            let fault = packetize_units(options, units, (n - 1) as nat)->Err_0;
            let k = choose|k: int|
                {
                    &&& 0 <= k < n - 1
                    &&& #[trigger] packetize_unit(options, units, k) == Err::<
                        Seq<VideoChunk>,
                        MediaFault,
                    >(fault)
                    &&& forall|i: int|
                        0 <= i < k ==> #[trigger] packetize_unit(options, units, i) is Ok
                };
            assert(packetize_unit(options, units, k) is Err);
        } else {
            assert(packetize_unit(options, units, n - 1) is Ok || packetize_unit(
                options,
                units,
                n - 1,
            ) is Err);
        }
    }
}

/// A stream can be packetized exactly where the frame duration is not zero, the deadline
/// delay is not negative, the stream splits and each of its access units can be packetized.
/// Otherwise the first of these that fails is told, of the access units the first.
pub proof fn law_what_stream_can_be_packetized(options: StreamOptions, input: Seq<u8>)
    ensures
        ({
            let split = annexb::split_named(options.codec, input);
            let outcome = packetize_stream(options, input);
            &&& outcome is Ok <==> {
                &&& options.frame_duration_ticks > 0
                &&& options.deadline_delay_ticks >= 0
                &&& split is Ok
                &&& forall|k: int|
                    0 <= k < split->Ok_0.len() ==> #[trigger] packetize_unit(
                        options,
                        split->Ok_0,
                        k,
                    ) is Ok
            }
            &&& options.frame_duration_ticks == 0 ==> outcome == Err::<
                Seq<VideoChunk>,
                MediaFault,
            >(MediaFault::Refused(Refusal::FrameDurationZero))
            &&& options.frame_duration_ticks > 0 && options.deadline_delay_ticks < 0 ==> outcome
                == Err::<Seq<VideoChunk>, MediaFault>(
                MediaFault::Refused(Refusal::DeadlineDelayNegative),
            )
            &&& options.frame_duration_ticks > 0 && options.deadline_delay_ticks >= 0 && split
                is Err ==> outcome == Err::<Seq<VideoChunk>, MediaFault>(split->Err_0)
            &&& options.frame_duration_ticks > 0 && options.deadline_delay_ticks >= 0 && split
                is Ok && outcome is Err ==> exists|k: int|
                {
                    &&& 0 <= k < split->Ok_0.len()
                    &&& #[trigger] packetize_unit(options, split->Ok_0, k) == outcome
                    &&& forall|i: int|
                        0 <= i < k ==> #[trigger] packetize_unit(options, split->Ok_0, i) is Ok
                }
        }),
{
    if annexb::split_named(options.codec, input) is Ok {
        let units = annexb::split_named(options.codec, input)->Ok_0;
        lemma_first_fault(options, units, units.len());
    }
}

/// Whether a chunk carries what the options say and a stretch of one of the first `n` access
/// units: of the one as far behind the first as its frame id is behind the first id.
pub open spec fn chunk_in_step(
    options: StreamOptions,
    units: Seq<AccessUnit>,
    n: nat,
    chunk: VideoChunk,
) -> bool {
    let max = options.max_payload_bytes;
    let k = chunk.meta.frame_id - options.first_frame_id;
    let count = chunk.meta.chunk_count;
    let index = chunk.chunk_index;
    &&& 0 <= k < n
    &&& chunk.meta.stream_id == options.stream_id
    &&& chunk.meta.session_id == options.session_id
    &&& chunk.meta.codec == options.codec
    &&& chunk.meta.pts_ticks == options.first_pts_ticks + k * options.frame_duration_ticks
    &&& chunk.meta.duration_ticks == options.frame_duration_ticks
    &&& chunk.meta.timebase_num == options.timebase_num
    &&& chunk.meta.timebase_den == options.timebase_den
    &&& chunk.meta.deadline_ticks == chunk.meta.pts_ticks + options.deadline_delay_ticks
    &&& chunk.meta.keyframe == units[k].keyframe
    &&& (count - 1) * max < units[k].bytes.len() <= count * max
    &&& index < count
    &&& chunk.payload.len() == if index + 1 < count {
        max as int
    } else {
        units[k].bytes.len() - index * max
    }
    &&& forall|o: int|
        0 <= o < chunk.payload.len() ==> #[trigger] chunk.payload[o] == units[k].bytes[index * max
            + o]
}

/// Whether `next` is the chunk behind `here`: the next one of the same frame, or behind the
/// last one of it the first one of the next frame.
pub open spec fn chunk_follows(here: VideoChunk, next: VideoChunk) -> bool {
    if here.chunk_index + 1 < here.meta.chunk_count {
        next.meta == here.meta && next.chunk_index == here.chunk_index + 1
    } else {
        next.meta.frame_id == here.meta.frame_id + 1 && next.chunk_index == 0
    }
}

/// What holds of the chunks of the first `n` access units of a stream: each carries what
/// the options say and a stretch of its access unit, and they come frame by frame, each
/// frame's chunks in order and none left out.
pub open spec fn chunks_in_step(
    options: StreamOptions,
    units: Seq<AccessUnit>,
    n: nat,
    chunks: Seq<VideoChunk>,
) -> bool {
    &&& forall|i: int|
        0 <= i < chunks.len() ==> chunk_in_step(options, units, n, #[trigger] chunks[i])
    &&& forall|i: int|
        #![trigger chunks[i]]
        0 <= i < chunks.len() - 1 ==> chunk_follows(chunks[i], chunks[i + 1])
    &&& n > 0 ==> {
        &&& chunks.len() > 0
        &&& chunks[0].meta.frame_id == options.first_frame_id
        &&& chunks[0].chunk_index == 0
        &&& chunks.last().meta.frame_id == options.first_frame_id + n - 1
        &&& chunks.last().chunk_index + 1 == chunks.last().meta.chunk_count
    }
}

proof fn lemma_frame_in_step(options: StreamOptions, units: Seq<AccessUnit>, n: nat)
    requires
        0 < n <= units.len(),
        options.deadline_delay_ticks >= 0,
        packetize_unit(options, units, n - 1) is Ok,
    ensures
        ({
            let added = packetize_unit(options, units, n - 1)->Ok_0;
            &&& added.len() > 0
            &&& added.len() == added[0].meta.chunk_count
            &&& forall|i: int|
                0 <= i < added.len() ==> {
                    &&& chunk_in_step(options, units, n, #[trigger] added[i])
                    &&& added[i].meta == added[0].meta
                    &&& added[i].chunk_index == i
                    &&& added[i].meta.frame_id == options.first_frame_id + n - 1
                }
        }),
{
    let k = n - 1;
    let frame = stream_frame(options, k)->Ok_0;
    let added = packetize_unit(options, units, k)->Ok_0;
    mul::lemma_mul_nonnegative(k, options.frame_duration_ticks as int);
    law_chunks_join_to_the_access_unit(frame, units[k]);
    assert forall|i: int| 0 <= i < added.len() implies {
        &&& chunk_in_step(options, units, n, #[trigger] added[i])
        &&& added[i].meta == added[0].meta
        &&& added[i].chunk_index == i
        &&& added[i].meta.frame_id == options.first_frame_id + n - 1
    } by {
        law_chunks_carry_the_options(frame, units[k], i);
        assert(added[i].meta == frame_meta(frame, units[k]));
        assert(added[0].meta == frame_meta(frame, units[k]));
    }
}

proof fn lemma_units_in_step(options: StreamOptions, units: Seq<AccessUnit>, n: nat)
    requires
        n <= units.len(),
        options.deadline_delay_ticks >= 0,
        packetize_units(options, units, n) is Ok,
    ensures
        chunks_in_step(options, units, n, packetize_units(options, units, n)->Ok_0),
        n == 0 ==> packetize_units(options, units, n)->Ok_0.len() == 0,
    decreases n,
{
    if n > 0 {
        let k = n - 1;
        lemma_units_in_step(options, units, k as nat);
        lemma_frame_in_step(options, units, n);
        let before = packetize_units(options, units, k as nat)->Ok_0;
        let added = packetize_unit(options, units, k)->Ok_0;
        let chunks = packetize_units(options, units, n)->Ok_0;
        assert(chunks == before + added);
        assert forall|i: int| 0 <= i < chunks.len() implies chunk_in_step(
            options,
            units,
            n,
            #[trigger] chunks[i],
        ) by {
            if i < before.len() {
                assert(chunks[i] == before[i]);
                assert(chunk_in_step(options, units, k as nat, before[i]));
            } else {
                assert(chunks[i] == added[i - before.len()]);
            }
        }
        assert forall|i: int| #![trigger chunks[i]] 0 <= i < chunks.len() - 1 implies chunk_follows(
            chunks[i],
            chunks[i + 1],
        ) by {
            if i + 1 < before.len() {
                assert(chunks[i] == before[i]);
                assert(chunks[i + 1] == before[i + 1]);
            } else if i + 1 == before.len() {
                assert(chunks[i] == before.last());
                assert(chunks[i + 1] == added[0]);
            } else {
                assert(chunks[i] == added[i - before.len()]);
                assert(chunks[i + 1] == added[i + 1 - before.len()]);
            }
        }
        assert(chunks.last() == added[added.len() - 1]);
        if k > 0 {
            assert(chunks[0] == before[0]);
        } else {
            assert(chunks[0] == added[0]);
        }
    }
}

/// The chunks of a packetized stream come frame by frame, with ids that count up from the
/// first, evenly timed, each with what the options say and its stretch of its access unit;
/// and every access unit is there in full.
pub proof fn law_stream_chunks_are_in_step(options: StreamOptions, input: Seq<u8>)
    requires
        packetize_stream(options, input) is Ok,
    ensures
        ({
            let units = annexb::split_named(options.codec, input)->Ok_0;
            chunks_in_step(options, units, units.len(), packetize_stream(options, input)->Ok_0)
        }),
{
    let units = annexb::split_named(options.codec, input)->Ok_0;
    lemma_units_in_step(options, units, units.len());
}

/// The views of options show each of their fields.
pub proof fn law_options_show_their_fields(
    frame: VideoFramePacketizeOptions<'_>,
    stream: VideoAnnexBStreamPacketizeOptions<'_>,
)
    ensures
        frame@.stream_id == frame.stream_id@,
        frame@.session_id == frame.session_id@,
        frame@.codec == frame.codec@,
        frame@.frame_id == frame.frame_id,
        frame@.pts_ticks == frame.pts_ticks,
        frame@.duration_ticks == frame.duration_ticks,
        frame@.timebase_num == frame.timebase_num,
        frame@.timebase_den == frame.timebase_den,
        frame@.deadline_ticks == frame.deadline_ticks,
        frame@.max_payload_bytes == frame.max_payload_bytes,
        stream@.stream_id == stream.stream_id@,
        stream@.session_id == stream.session_id@,
        stream@.codec == stream.codec@,
        stream@.first_frame_id == stream.first_frame_id,
        stream@.first_pts_ticks == stream.first_pts_ticks,
        stream@.frame_duration_ticks == stream.frame_duration_ticks,
        stream@.timebase_num == stream.timebase_num,
        stream@.timebase_den == stream.timebase_den,
        stream@.deadline_delay_ticks == stream.deadline_delay_ticks,
        stream@.max_payload_bytes == stream.max_payload_bytes,
{
}

} // verus!
