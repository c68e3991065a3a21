//! Parity shards: exclusive ors of a frame's chunks, from which lost chunks come back.

use std::collections::BTreeMap;

use vstd::arithmetic::div_mod;
use vstd::prelude::*;

use crate::error::{MediaError, MediaFault, Refusal};
use crate::records;
use crate::records::{
    GameCultMediaVideoAccessUnitRecord, GameCultMediaVideoParityShardRecord, ParityShard,
    VideoChunk,
};

verus! {

/// Over how many stripes the chunks of a frame are spread at most.
pub const MUNINN_VIDEO_PARITY_STRIPES: u16 = 16;

/// What is wrong with chunk `i`, given what the media wire layer says of each chunk and
/// the chunks before it.
pub open spec fn chunk_fault(
    chunks: Seq<VideoChunk>,
    verdicts: Seq<Result<(), String>>,
    i: int,
) -> Option<MediaFault> {
    if verdicts[i] is Err {
        Some(MediaFault::Wire(verdicts[i]->Err_0@))
    } else if chunks[i].meta != chunks[0].meta {
        Some(MediaFault::Refused(Refusal::ParityMixedMetadata))
    } else if exists|j: int| 0 <= j < i && (#[trigger] chunks[j]).chunk_index
        == chunks[i].chunk_index {
        Some(MediaFault::Refused(Refusal::ParityDuplicateChunk(chunks[i].chunk_index)))
    } else {
        None
    }
}

/// What is wrong with the first bad chunk at or after `from`.
pub open spec fn first_chunk_fault(
    chunks: Seq<VideoChunk>,
    verdicts: Seq<Result<(), String>>,
    from: int,
) -> Option<MediaFault>
    decreases chunks.len() - from,
{
    if from >= chunks.len() {
        None
    } else if chunk_fault(chunks, verdicts, from) is Some {
        chunk_fault(chunks, verdicts, from)
    } else {
        first_chunk_fault(chunks, verdicts, from + 1)
    }
}

/// Whether a chunk carries `index`.
pub open spec fn has_index(chunks: Seq<VideoChunk>, index: int) -> bool {
    exists|j: int| 0 <= j < chunks.len() && (#[trigger] chunks[j]).chunk_index == index
}

/// The smallest index, from `from` on and below `count`, that no chunk carries.
pub open spec fn first_missing(chunks: Seq<VideoChunk>, from: int, count: int) -> Option<int>
    decreases count - from,
{
    if from >= count {
        None
    } else if !has_index(chunks, from) {
        Some(from)
    } else {
        first_missing(chunks, from + 1, count)
    }
}

/// The payload of the chunk that carries `index`.
pub open spec fn payload_at(chunks: Seq<VideoChunk>, index: int) -> Seq<u8> {
    chunks[choose|j: int|
        0 <= j < chunks.len() && (#[trigger] chunks[j]).chunk_index == index].payload
}

/// The length of the longest payload with an index below `upto` in stripe `stripe` of
/// `stripes`: that of the indexes that leave `stripe` when divided by `stripes`.
pub open spec fn stripe_len(chunks: Seq<VideoChunk>, stripe: int, stripes: int, upto: nat) -> nat
    decreases upto,
{
    if upto == 0 {
        0
    } else {
        let before = stripe_len(chunks, stripe, stripes, (upto - 1) as nat);
        let len = payload_at(chunks, upto - 1).len();
        if (upto - 1) % stripes == stripe && len > before {
            len
        } else {
            before
        }
    }
}

/// The exclusive or of the bytes at `offset` of the payloads of a stripe with an index
/// below `upto`. A payload that ends before `offset` counts as zero there.
pub open spec fn stripe_byte(
    chunks: Seq<VideoChunk>,
    stripe: int,
    stripes: int,
    offset: int,
    upto: nat,
) -> u8
    decreases upto,
{
    if upto == 0 {
        0
    } else {
        let before = stripe_byte(chunks, stripe, stripes, offset, (upto - 1) as nat);
        let payload = payload_at(chunks, upto - 1);
        if (upto - 1) % stripes == stripe && offset < payload.len() {
            before ^ payload[offset]
        } else {
            before
        }
    }
}

/// The number of stripes of a frame of `count` chunks.
pub open spec fn stripes_for(count: u16) -> u16 {
    if count < MUNINN_VIDEO_PARITY_STRIPES {
        count
    } else {
        MUNINN_VIDEO_PARITY_STRIPES
    }
}

/// The parity of one stripe of a complete frame.
pub open spec fn stripe_payload(chunks: Seq<VideoChunk>, stripe: int) -> Seq<u8> {
    let count = chunks[0].meta.chunk_count;
    let stripes = stripes_for(count) as int;
    Seq::new(
        stripe_len(chunks, stripe, stripes, count as nat),
        |offset: int| stripe_byte(chunks, stripe, stripes, offset, count as nat),
    )
}

/// The shard of one stripe of a complete frame.
pub open spec fn stripe_shard(chunks: Seq<VideoChunk>, stripe: int) -> ParityShard {
    let meta = chunks[0].meta;
    ParityShard {
        meta,
        parity_index: stripe as u16,
        parity_count: stripes_for(meta.chunk_count),
        chunk_payload_bytes: stripe_len(chunks, 0, 1, meta.chunk_count as nat) as u32,
        last_chunk_payload_bytes: payload_at(chunks, meta.chunk_count - 1).len() as u32,
        payload: stripe_payload(chunks, stripe),
    }
}

/// The shards of the first `k` stripes, without those that would be empty.
pub open spec fn frame_shards(chunks: Seq<VideoChunk>, k: nat) -> Seq<ParityShard>
    decreases k,
{
    if k == 0 {
        Seq::empty()
    } else {
        let before = frame_shards(chunks, (k - 1) as nat);
        if stripe_payload(chunks, k - 1).len() == 0 {
            before
        } else {
            before.push(stripe_shard(chunks, k - 1))
        }
    }
}

/// What building the parity of a frame comes to, given what the media wire layer says
/// of each chunk.
pub open spec fn parity_outcome(
    chunks: Seq<VideoChunk>,
    verdicts: Seq<Result<(), String>>,
) -> Result<Seq<ParityShard>, MediaFault> {
    let count = chunks[0].meta.chunk_count;
    if chunks.len() <= 1 {
        Ok(Seq::empty())
    } else if verdicts[0] is Err {
        Err(MediaFault::Wire(verdicts[0]->Err_0@))
    } else if chunks.len() != count {
        Err(
            MediaFault::Refused(
                Refusal::ParityIncomplete { expected: count, received: chunks.len() as usize },
            ),
        )
    } else if let Some(fault) = first_chunk_fault(chunks, verdicts, 0) {
        Err(fault)
    } else if let Some(index) = first_missing(chunks, 0, count as int) {
        Err(MediaFault::Refused(Refusal::ParityMissingChunk(index as u16)))
    } else if payload_at(chunks, count - 1).len() > u32::MAX {
        Err(MediaFault::Refused(Refusal::ParityLastChunkTooLong))
    } else if stripe_len(chunks, 0, 1, count as nat) > u32::MAX {
        Err(MediaFault::Refused(Refusal::ParityChunkTooLong))
    } else {
        Ok(frame_shards(chunks, stripes_for(count) as nat))
    }
}

/// Whether `places` holds, for each index that the first `n` chunks carry, the chunk
/// that carries it.
pub open spec fn are_places(chunks: Seq<VideoChunk>, n: int, places: Map<u16, usize>) -> bool {
    &&& forall|j: int|
        #![trigger chunks[j]]
        0 <= j < n ==> places.contains_key(chunks[j].chunk_index) && places[chunks[j].chunk_index]
            == j
    &&& forall|index: u16| #[trigger]
        places.contains_key(index) ==> places[index] < n && chunks[places[index] as int].chunk_index
            == index
}

proof fn lemma_place(chunks: Seq<VideoChunk>, places: Map<u16, usize>, index: u16)
    requires
        are_places(chunks, chunks.len() as int, places),
    ensures
        places.contains_key(index) <==> has_index(chunks, index as int),
        places.contains_key(index) ==> payload_at(chunks, index as int)
            == chunks[places[index] as int].payload,
{
    if places.contains_key(index) {
        assert(chunks[places[index] as int].chunk_index == index);
        assert(has_index(chunks, index as int));
        let j = choose|j: int|
            0 <= j < chunks.len() && (#[trigger] chunks[j]).chunk_index == index as int;
        assert(places[chunks[j].chunk_index] == j);
    } else if has_index(chunks, index as int) {
        let j = choose|j: int|
            0 <= j < chunks.len() && (#[trigger] chunks[j]).chunk_index == index as int;
        assert(places.contains_key(chunks[j].chunk_index));
    }
}

proof fn lemma_between_strides(stripe: int, stripes: int, at: int, k: int)
    requires
        0 <= stripe < stripes,
        0 <= at,
        at % stripes == stripe,
        at < k < at + stripes,
    ensures
        k % stripes != stripe,
{
    let q = at / stripes;
    let d = k - at;
    div_mod::lemma_fundamental_div_mod(at, stripes);
    assert(stripes * q == q * stripes) by (nonlinear_arith);
    if stripe + d < stripes {
        div_mod::lemma_fundamental_div_mod_converse(k, stripes, q, stripe + d);
    } else {
        assert((q + 1) * stripes == q * stripes + stripes) by (nonlinear_arith);
        div_mod::lemma_fundamental_div_mod_converse(k, stripes, q + 1, stripe + d - stripes);
    }
}

proof fn lemma_next_stride(stripe: int, stripes: int, at: int)
    requires
        0 <= stripe < stripes,
        0 <= at,
        at % stripes == stripe,
    ensures
        (at + stripes) % stripes == stripe,
{
    let q = at / stripes;
    div_mod::lemma_fundamental_div_mod(at, stripes);
    assert((q + 1) * stripes + stripe == stripes * q + stripe + stripes) by (nonlinear_arith);
    div_mod::lemma_fundamental_div_mod_converse(at + stripes, stripes, q + 1, stripe);
}

/// Indexes outside a stripe change nothing in it.
proof fn lemma_skip(chunks: Seq<VideoChunk>, stripe: int, stripes: int, a: nat, b: nat)
    requires
        a <= b,
        forall|k: int| a <= k < b ==> #[trigger] (k % stripes) != stripe,
    ensures
        stripe_len(chunks, stripe, stripes, b) == stripe_len(chunks, stripe, stripes, a),
        forall|offset: int| #[trigger]
            stripe_byte(chunks, stripe, stripes, offset, b) == stripe_byte(
                chunks,
                stripe,
                stripes,
                offset,
                a,
            ),
    decreases b - a,
{
    if a < b {
        lemma_skip(chunks, stripe, stripes, a, (b - 1) as nat);
        assert((b - 1) % stripes != stripe);
        assert forall|offset: int| #[trigger]
            stripe_byte(chunks, stripe, stripes, offset, b) == stripe_byte(
                chunks,
                stripe,
                stripes,
                offset,
                a,
            ) by {
            assert(stripe_byte(chunks, stripe, stripes, offset, b) == stripe_byte(
                chunks,
                stripe,
                stripes,
                offset,
                (b - 1) as nat,
            ));
        }
    }
}

/// One stride further: the chunk at `at` counts, the ones up to the next stride do not.
proof fn lemma_stride(chunks: Seq<VideoChunk>, stripe: int, stripes: int, at: nat, to: nat)
    requires
        0 <= stripe < stripes,
        at % (stripes as nat) == stripe,
        at < to <= at + stripes,
    ensures
        stripe_len(chunks, stripe, stripes, to) == stripe_len(chunks, stripe, stripes, at + 1),
        forall|offset: int| #[trigger]
            stripe_byte(chunks, stripe, stripes, offset, to) == stripe_byte(
                chunks,
                stripe,
                stripes,
                offset,
                at + 1,
            ),
{
    assert forall|k: int| at + 1 <= k < to implies #[trigger] (k % stripes) != stripe by {
        lemma_between_strides(stripe, stripes, at as int, k);
    }
    lemma_skip(chunks, stripe, stripes, at + 1, to);
}

/// Before the first index of a stripe the stripe is empty.
proof fn lemma_before_stripe(chunks: Seq<VideoChunk>, stripe: int, stripes: int, upto: nat)
    requires
        0 <= stripe < stripes,
        upto <= stripe,
    ensures
        stripe_len(chunks, stripe, stripes, upto) == 0,
        forall|offset: int| #[trigger]
            stripe_byte(chunks, stripe, stripes, offset, upto) == 0,
{
    assert forall|k: int| 0 <= k < upto implies #[trigger] (k % stripes) != stripe by {
        div_mod::lemma_small_mod(k as nat, stripes as nat);
    }
    lemma_skip(chunks, stripe, stripes, 0, upto);
}

/// A stripe is as long as each of its chunks.
pub proof fn lemma_stripe_covers(
    chunks: Seq<VideoChunk>,
    stripe: int,
    stripes: int,
    upto: nat,
    index: int,
)
    requires
        0 <= index < upto,
        index % stripes == stripe,
    ensures
        payload_at(chunks, index).len() <= stripe_len(chunks, stripe, stripes, upto),
    decreases upto,
{
    if index < upto - 1 {
        lemma_stripe_covers(chunks, stripe, stripes, (upto - 1) as nat, index);
    }
}

fn stripe_count(count: u16) -> (stripes: u16)
    ensures
        stripes == stripes_for(count),
{
    if count < MUNINN_VIDEO_PARITY_STRIPES {
        count
    } else {
        MUNINN_VIDEO_PARITY_STRIPES
    }
}

/// Whether two chunks belong to the same frame and agree on it.
fn same_meta(
    a: &GameCultMediaVideoAccessUnitRecord,
    b: &GameCultMediaVideoAccessUnitRecord,
) -> (same: bool)
    ensures
        same == (a@.meta == b@.meta),
{
    let same = a.stream_id == b.stream_id && a.session_id == b.session_id && a.frame_id
        == b.frame_id && a.codec == b.codec && a.pts_ticks == b.pts_ticks && a.duration_ticks
        == b.duration_ticks && a.timebase_num == b.timebase_num && a.timebase_den == b.timebase_den
        && a.keyframe == b.keyframe && a.dependency_frame_id == b.dependency_frame_id
        && a.deadline_ticks == b.deadline_ticks && a.chunk_count == b.chunk_count;
    same
}

/// Finds the place of every chunk, or what is wrong with the first bad one.
fn index_chunks(
    chunks: &[GameCultMediaVideoAccessUnitRecord],
    verdicts: &[Result<(), String>],
) -> (outcome: Result<BTreeMap<u16, usize>, MediaError>)
    requires
        chunks@.len() == verdicts@.len(),
        chunks@.len() > 0,
    ensures
        match outcome {
            Ok(places) => {
                &&& first_chunk_fault(records::chunk_views(chunks@), verdicts@, 0) is None
                &&& are_places(records::chunk_views(chunks@), chunks@.len() as int, places@)
            },
            Err(error) => first_chunk_fault(records::chunk_views(chunks@), verdicts@, 0) == Some(
                error@,
            ),
        },
{
    let ghost views = records::chunk_views(chunks@);
    let mut places: BTreeMap<u16, usize> = BTreeMap::new();
    let mut i: usize = 0;
    while i < chunks.len()
        invariant
            i <= chunks@.len() == verdicts@.len(),
            chunks@.len() > 0,
            views == records::chunk_views(chunks@),
            are_places(views, i as int, places@),
            first_chunk_fault(views, verdicts@, 0) == first_chunk_fault(
                views,
                verdicts@,
                i as int,
            ),
        decreases chunks@.len() - i,
    {
        if let Err(text) = &verdicts[i] {
            return Err(MediaError::Wire(text.clone()));
        }
        assert(views[i as int] == chunks@[i as int]@);
        assert(views[0] == chunks@[0]@);
        if !same_meta(&chunks[i], &chunks[0]) {
            return Err(MediaError::Refused(Refusal::ParityMixedMetadata));
        }
        let index: u16 = chunks[i].chunk_index;
        let ghost before = places@;
        let taken = places.insert(index, i).is_some();
        if taken {
            assert(before.contains_key(index));
            assert(views[before[index] as int].chunk_index == views[i as int].chunk_index);
            return Err(MediaError::Refused(Refusal::ParityDuplicateChunk(index)));
        }
        assert(chunk_fault(views, verdicts@, i as int) is None) by {
            assert forall|j: int| 0 <= j < i implies (#[trigger] views[j]).chunk_index
                != views[i as int].chunk_index by {
                assert(before.contains_key(views[j].chunk_index));
            }
        }
        i = i + 1;
    }
    Ok(places)
}

/// The payload of the chunk that carries `index`.
fn payload_of<'a>(
    chunks: &'a [GameCultMediaVideoAccessUnitRecord],
    places: &BTreeMap<u16, usize>,
    index: u16,
) -> (payload: Option<&'a Vec<u8>>)
    requires
        are_places(records::chunk_views(chunks@), chunks@.len() as int, places@),
    ensures
        match payload {
            Some(bytes) => {
                &&& has_index(records::chunk_views(chunks@), index as int)
                &&& bytes@ == payload_at(records::chunk_views(chunks@), index as int)
            },
            None => !has_index(records::chunk_views(chunks@), index as int),
        },
{
    proof {
        lemma_place(records::chunk_views(chunks@), places@, index);
    }
    match places.get(&index) {
        Some(place) => Some(&chunks[*place].payload),
        None => None,
    }
}

/// The length of a stripe of a frame in which no index is missing.
fn stripe_length(
    chunks: &[GameCultMediaVideoAccessUnitRecord],
    places: &BTreeMap<u16, usize>,
    stripe: u16,
    stripes: u16,
    count: u16,
) -> (len: usize)
    requires
        are_places(records::chunk_views(chunks@), chunks@.len() as int, places@),
        stripe < stripes <= MUNINN_VIDEO_PARITY_STRIPES,
        stripes <= count,
        forall|index: int|
            0 <= index < count ==> #[trigger] has_index(records::chunk_views(chunks@), index),
    ensures
        len == stripe_len(
            records::chunk_views(chunks@),
            stripe as int,
            stripes as int,
            count as nat,
        ),
{
    let ghost views = records::chunk_views(chunks@);
    let stride: u32 = stripes as u32;
    let total: u32 = count as u32;
    let mut len: usize = 0;
    let mut index: u32 = stripe as u32;
    proof {
        div_mod::lemma_small_mod(stripe as nat, stripes as nat);
        lemma_before_stripe(views, stripe as int, stripes as int, stripe as nat);
    }
    while index < total
        invariant
            views == records::chunk_views(chunks@),
            are_places(views, chunks@.len() as int, places@),
            stripe < stripes <= MUNINN_VIDEO_PARITY_STRIPES,
            stride == stripes,
            total == count,
            index <= total + stripes,
            index % stride == stripe,
            forall|i: int| 0 <= i < count ==> #[trigger] has_index(views, i),
            len == stripe_len(
                views,
                stripe as int,
                stripes as int,
                if index < total {
                    index as nat
                } else {
                    total as nat
                },
            ),
        decreases total + stripes - index,
    {
        assert(has_index(views, index as int));
        if let Some(payload) = payload_of(chunks, places, index as u16) {
            if payload.len() > len {
                len = payload.len();
            }
        }
        proof {
            let next = index as int + stripes as int;
            lemma_next_stride(stripe as int, stripes as int, index as int);
            let to = if next < total {
                next as nat
            } else {
                total as nat
            };
            lemma_stride(views, stripe as int, stripes as int, index as nat, to);
        }
        index = index + stride;
    }
    len
}

/// The parity of a stripe of a frame in which no index is missing.
fn stripe_parity(
    chunks: &[GameCultMediaVideoAccessUnitRecord],
    places: &BTreeMap<u16, usize>,
    stripe: u16,
    stripes: u16,
    count: u16,
    len: usize,
) -> (parity: Vec<u8>)
    requires
        are_places(records::chunk_views(chunks@), chunks@.len() as int, places@),
        stripe < stripes <= MUNINN_VIDEO_PARITY_STRIPES,
        stripes <= count,
        forall|index: int|
            0 <= index < count ==> #[trigger] has_index(records::chunk_views(chunks@), index),
        len == stripe_len(
            records::chunk_views(chunks@),
            stripe as int,
            stripes as int,
            count as nat,
        ),
    ensures
        parity@ == Seq::new(
            len as nat,
            |offset: int|
                stripe_byte(
                    records::chunk_views(chunks@),
                    stripe as int,
                    stripes as int,
                    offset,
                    count as nat,
                ),
        ),
{
    let ghost views = records::chunk_views(chunks@);
    let stride: u32 = stripes as u32;
    let total: u32 = count as u32;
    let mut parity: Vec<u8> = vec![0u8; len];
    let mut index: u32 = stripe as u32;
    proof {
        div_mod::lemma_small_mod(stripe as nat, stripes as nat);
        lemma_before_stripe(views, stripe as int, stripes as int, stripe as nat);
    }
    while index < total
        invariant
            views == records::chunk_views(chunks@),
            are_places(views, chunks@.len() as int, places@),
            stripe < stripes <= MUNINN_VIDEO_PARITY_STRIPES,
            stride == stripes,
            total == count,
            index <= total + stripes,
            index % stride == stripe,
            forall|i: int| 0 <= i < count ==> #[trigger] has_index(views, i),
            parity@.len() == len,
            len == stripe_len(views, stripe as int, stripes as int, count as nat),
            forall|offset: int|
                0 <= offset < len ==> #[trigger] parity@[offset] == stripe_byte(
                    views,
                    stripe as int,
                    stripes as int,
                    offset,
                    if index < total {
                        index as nat
                    } else {
                        total as nat
                    },
                ),
        decreases total + stripes - index,
    {
        assert(has_index(views, index as int));
        let ghost at = index as nat;
        if let Some(payload) = payload_of(chunks, places, index as u16) {
            proof {
                lemma_stripe_covers(
                    views,
                    stripe as int,
                    stripes as int,
                    count as nat,
                    index as int,
                );
            }
            let mut offset: usize = 0;
            while offset < payload.len()
                invariant
                    offset <= payload@.len() <= len == parity@.len(),
                    payload@ == payload_at(views, at as int),
                    at % (stripes as nat) == stripe,
                    forall|o: int|
                        0 <= o < offset ==> #[trigger] parity@[o] == stripe_byte(
                            views,
                            stripe as int,
                            stripes as int,
                            o,
                            at + 1,
                        ),
                    forall|o: int|
                        offset <= o < len ==> #[trigger] parity@[o] == stripe_byte(
                            views,
                            stripe as int,
                            stripes as int,
                            o,
                            at,
                        ),
                decreases payload@.len() - offset,
            {
                let byte: u8 = parity[offset] ^ payload[offset];
                parity.set(offset, byte);
                offset = offset + 1;
            }
            assert forall|o: int| 0 <= o < len implies #[trigger] parity@[o] == stripe_byte(
                views,
                stripe as int,
                stripes as int,
                o,
                at + 1,
            ) by {}
        }
        proof {
            let next = index as int + stripes as int;
            lemma_next_stride(stripe as int, stripes as int, index as int);
            let to = if next < total {
                next as nat
            } else {
                total as nat
            };
            lemma_stride(views, stripe as int, stripes as int, index as nat, to);
        }
        index = index + stride;
    }
    assert(parity@ =~= Seq::new(
        len as nat,
        |offset: int|
            stripe_byte(views, stripe as int, stripes as int, offset, count as nat),
    ));
    parity
}

proof fn lemma_none_missing(chunks: Seq<VideoChunk>, from: int, count: int)
    requires
        first_missing(chunks, from, count) is None,
    ensures
        forall|index: int| from <= index < count ==> #[trigger] has_index(chunks, index),
    decreases count - from,
{
    if from < count {
        lemma_none_missing(chunks, from + 1, count);
    }
}

/// Checks that no index of a frame is missing and measures its longest and its last
/// payload.
fn measure_frame(
    chunks: &[GameCultMediaVideoAccessUnitRecord],
    places: &BTreeMap<u16, usize>,
    count: u16,
) -> (outcome: Result<(usize, usize), u16>)
    requires
        are_places(records::chunk_views(chunks@), chunks@.len() as int, places@),
        count > 0,
    ensures
        match outcome {
            Ok((longest, last)) => {
                let views = records::chunk_views(chunks@);
                &&& first_missing(views, 0, count as int) is None
                &&& longest == stripe_len(views, 0, 1, count as nat)
                &&& last == payload_at(views, count - 1).len()
            },
            Err(index) => first_missing(records::chunk_views(chunks@), 0, count as int) == Some(
                index as int,
            ),
        },
{
    let ghost views = records::chunk_views(chunks@);
    let mut longest: usize = 0;
    let mut last: usize = 0;
    let mut index: u16 = 0;
    while index < count
        invariant
            index <= count,
            views == records::chunk_views(chunks@),
            are_places(views, chunks@.len() as int, places@),
            first_missing(views, 0, count as int) == first_missing(
                views,
                index as int,
                count as int,
            ),
            longest == stripe_len(views, 0, 1, index as nat),
            index > 0 ==> last == payload_at(views, index - 1).len(),
        decreases count - index,
    {
        match payload_of(chunks, places, index) {
            Some(payload) => {
                if payload.len() > longest {
                    longest = payload.len();
                }
                last = payload.len();
            },
            None => {
                return Err(index);
            },
        }
        assert(index as int % 1 == 0);
        index = index + 1;
    }
    Ok((longest, last))
}

/// Builds the parity shards of a frame, given what the media wire layer says of each
/// chunk. A frame of one chunk has none.
pub fn build_video_parity_shards(
    chunks: &[GameCultMediaVideoAccessUnitRecord],
    verdicts: &[Result<(), String>],
) -> (outcome: Result<Vec<GameCultMediaVideoParityShardRecord>, MediaError>)
    requires
        chunks@.len() == verdicts@.len(),
    ensures
        parity_outcome(records::chunk_views(chunks@), verdicts@) == match outcome {
            Ok(shards) => Ok::<Seq<ParityShard>, MediaFault>(records::shard_views(shards@)),
            Err(error) => Err(error@),
        },
        outcome matches Ok(shards) ==> {
            &&& chunks@.len() <= 1 ==> shards@.len() == 0
            &&& shards@.len() <= 16
            &&& forall|i: int|
                #![trigger shards@[i]]
                0 <= i < shards@.len() ==> {
                    &&& shards@[i].stream_id@ == chunks@[0].stream_id@
                    &&& shards@[i].session_id@ == chunks@[0].session_id@
                    &&& shards@[i].frame_id == chunks@[0].frame_id
                    &&& shards@[i].codec@ == chunks@[0].codec@
                    &&& shards@[i].pts_ticks == chunks@[0].pts_ticks
                    &&& shards@[i].duration_ticks == chunks@[0].duration_ticks
                    &&& shards@[i].timebase_num == chunks@[0].timebase_num
                    &&& shards@[i].timebase_den == chunks@[0].timebase_den
                    &&& shards@[i].keyframe == chunks@[0].keyframe
                    &&& shards@[i].dependency_frame_id == chunks@[0].dependency_frame_id
                    &&& shards@[i].deadline_ticks == chunks@[0].deadline_ticks
                    &&& shards@[i].chunk_count == chunks@.len()
                    &&& shards@[i].parity_index < shards@[i].parity_count
                    &&& shards@[i].parity_count == sixteen_or(chunks@.len())
                }
        },
{
    let ghost views = records::chunk_views(chunks@);
    if chunks.len() <= 1 {
        let none: Vec<GameCultMediaVideoParityShardRecord> = Vec::new();
        assert(records::shard_views(none@) =~= Seq::<ParityShard>::empty());
        return Ok(none);
    }
    let first = &chunks[0];
    assert(views[0] == first@);
    if let Err(text) = &verdicts[0] {
        return Err(MediaError::Wire(text.clone()));
    }
    let count: u16 = first.chunk_count;
    if chunks.len() != count as usize {
        return Err(
            MediaError::Refused(
                Refusal::ParityIncomplete { expected: count, received: chunks.len() },
            ),
        );
    }
    let places = match index_chunks(chunks, verdicts) {
        Ok(places) => places,
        Err(error) => {
            return Err(error);
        },
    };
    let (longest, last) = match measure_frame(chunks, &places, count) {
        Ok(measured) => measured,
        Err(index) => {
            return Err(MediaError::Refused(Refusal::ParityMissingChunk(index)));
        },
    };
    if last > u32::MAX as usize {
        return Err(MediaError::Refused(Refusal::ParityLastChunkTooLong));
    }
    if longest > u32::MAX as usize {
        return Err(MediaError::Refused(Refusal::ParityChunkTooLong));
    }
    proof {
        lemma_none_missing(views, 0, count as int);
    }
    let stripes: u16 = stripe_count(count);
    let mut shards: Vec<GameCultMediaVideoParityShardRecord> = Vec::with_capacity(
        stripes as usize,
    );
    let mut stripe: u16 = 0;
    assert(records::shard_views(shards@) =~= frame_shards(views, 0));
    while stripe < stripes
        invariant
            stripe <= stripes <= MUNINN_VIDEO_PARITY_STRIPES,
            stripes <= count,
            stripes == stripes_for(count),
            views == records::chunk_views(chunks@),
            views[0] == first@,
            first.chunk_count == count,
            are_places(views, chunks@.len() as int, places@),
            forall|index: int| 0 <= index < count ==> #[trigger] has_index(views, index),
            longest == stripe_len(views, 0, 1, count as nat),
            last == payload_at(views, count - 1).len(),
            longest <= u32::MAX,
            last <= u32::MAX,
            records::shard_views(shards@) == frame_shards(views, stripe as nat),
        decreases stripes - stripe,
    {
        let len: usize = stripe_length(chunks, &places, stripe, stripes, count);
        if len > 0 {
            let parity = stripe_parity(chunks, &places, stripe, stripes, count, len);
            let ghost before = shards@;
            let shard = GameCultMediaVideoParityShardRecord {
                stream_id: first.stream_id.clone(),
                session_id: first.session_id.clone(),
                frame_id: first.frame_id,
                codec: first.codec.clone(),
                pts_ticks: first.pts_ticks,
                duration_ticks: first.duration_ticks,
                timebase_num: first.timebase_num,
                timebase_den: first.timebase_den,
                keyframe: first.keyframe,
                dependency_frame_id: first.dependency_frame_id,
                deadline_ticks: first.deadline_ticks,
                chunk_count: first.chunk_count,
                parity_index: stripe,
                parity_count: stripes,
                chunk_payload_bytes: longest as u32,
                last_chunk_payload_bytes: last as u32,
                payload: parity,
            };
            assert(shard@ =~= stripe_shard(views, stripe as int));
            shards.push(shard);
            assert(records::shard_views(shards@) =~= records::shard_views(before).push(shard@));
        }
        stripe = stripe + 1;
    }
    proof {
        assert(parity_outcome(views, verdicts@) is Ok);
        lemma_shards_in_order(views, stripes as nat);
        assert forall|i: int| #![trigger shards@[i]] 0 <= i < shards@.len() implies {
            &&& shards@[i].stream_id@ == chunks@[0].stream_id@
            &&& shards@[i].session_id@ == chunks@[0].session_id@
            &&& shards@[i].frame_id == chunks@[0].frame_id
            &&& shards@[i].codec@ == chunks@[0].codec@
            &&& shards@[i].pts_ticks == chunks@[0].pts_ticks
            &&& shards@[i].duration_ticks == chunks@[0].duration_ticks
            &&& shards@[i].timebase_num == chunks@[0].timebase_num
            &&& shards@[i].timebase_den == chunks@[0].timebase_den
            &&& shards@[i].keyframe == chunks@[0].keyframe
            &&& shards@[i].dependency_frame_id == chunks@[0].dependency_frame_id
            &&& shards@[i].deadline_ticks == chunks@[0].deadline_ticks
            &&& shards@[i].chunk_count == chunks@.len()
            &&& shards@[i].parity_index < shards@[i].parity_count
            &&& shards@[i].parity_count == sixteen_or(chunks@.len())
        } by {
            assert(records::shard_views(shards@)[i] == shards@[i]@);
            law_what_shards_say(views, verdicts@, i);
        }
    }
    Ok(shards)
}

// Laws

/// `stripe_byte` without the chunk that carries `lost`.
pub open spec fn others_byte(
    received: Seq<VideoChunk>,
    stripe: int,
    stripes: int,
    offset: int,
    upto: nat,
    lost: int,
) -> u8
    decreases upto,
{
    if upto == 0 {
        0
    } else {
        let before = others_byte(received, stripe, stripes, offset, (upto - 1) as nat, lost);
        let payload = payload_at(received, upto - 1);
        if upto - 1 != lost && (upto - 1) % stripes == stripe && offset < payload.len() {
            before ^ payload[offset]
        } else {
            before
        }
    }
}

/// The first `len` bytes of chunk `lost` as a shard and the received chunks give them.
pub open spec fn recovered(
    shard: ParityShard,
    received: Seq<VideoChunk>,
    lost: int,
    len: nat,
) -> Seq<u8> {
    Seq::new(
        len,
        |offset: int|
            shard.payload[offset] ^ others_byte(
                received,
                shard.parity_index as int,
                shard.parity_count as int,
                offset,
                shard.meta.chunk_count as nat,
                lost,
            ),
    )
}

proof fn lemma_xor_of_stripe(
    chunks: Seq<VideoChunk>,
    received: Seq<VideoChunk>,
    stripe: int,
    stripes: int,
    offset: int,
    upto: nat,
    lost: int,
)
    requires
        0 <= offset < payload_at(chunks, lost).len(),
        lost % stripes == stripe,
        0 <= lost,
        forall|index: int|
            0 <= index < upto && index != lost && #[trigger] (index % stripes) == stripe
                ==> payload_at(received, index) == payload_at(chunks, index),
    ensures
        stripe_byte(chunks, stripe, stripes, offset, upto) ^ others_byte(
            received,
            stripe,
            stripes,
            offset,
            upto,
            lost,
        ) == if lost < upto {
            payload_at(chunks, lost)[offset]
        } else {
            0
        },
    decreases upto,
{
    if upto == 0 {
        assert(0u8 ^ 0u8 == 0u8) by (bit_vector);
    } else {
        let before = (upto - 1) as nat;
        lemma_xor_of_stripe(chunks, received, stripe, stripes, offset, before, lost);
        let a = stripe_byte(chunks, stripe, stripes, offset, before);
        let b = others_byte(received, stripe, stripes, offset, before, lost);
        if before == lost {
            let c = payload_at(chunks, lost)[offset];
            assert((a ^ c) ^ b == c) by (bit_vector)
                requires
                    a ^ b == 0u8,
            ;
        } else if before as int % stripes == stripe {
            let payload = payload_at(chunks, before as int);
            if offset < payload.len() {
                let c = payload[offset];
                assert((a ^ c) ^ (b ^ c) == a ^ b) by (bit_vector);
            }
        }
    }
}

proof fn lemma_shard_present(chunks: Seq<VideoChunk>, k: nat, stripe: int)
    requires
        0 <= stripe < k,
        stripe_payload(chunks, stripe).len() > 0,
    ensures
        frame_shards(chunks, k).contains(stripe_shard(chunks, stripe)),
    decreases k,
{
    let before = frame_shards(chunks, (k - 1) as nat);
    let shards = frame_shards(chunks, k);
    let shard = stripe_shard(chunks, stripe);
    if stripe == k - 1 {
        assert(shards.last() == shard);
    } else {
        lemma_shard_present(chunks, (k - 1) as nat, stripe);
        let i = choose|i: int| 0 <= i < before.len() && before[i] == shard;
        assert(shards[i] == shard);
    }
}

/// A burst of lost chunks no longer than the number of stripes costs nothing: for every
/// chunk of the burst that holds bytes, the frame's shards have one from which, together
/// with what was received outside the burst, its payload comes back.
pub proof fn law_burst_loss_recovery(
    chunks: Seq<VideoChunk>,
    verdicts: Seq<Result<(), String>>,
    received: Seq<VideoChunk>,
    burst: int,
    lost: int,
)
    requires
        chunks.len() > 1,
        parity_outcome(chunks, verdicts) is Ok,
        0 <= lost < chunks.len(),
        burst <= lost < burst + stripes_for(chunks[0].meta.chunk_count),
        forall|index: int|
            0 <= index < chunks.len() && !(burst <= index < burst + stripes_for(
                chunks[0].meta.chunk_count,
            )) ==> #[trigger] payload_at(received, index) == payload_at(chunks, index),
        payload_at(chunks, lost).len() > 0,
    ensures
        ({
            let stripe = lost % (stripes_for(chunks[0].meta.chunk_count) as int);
            &&& parity_outcome(chunks, verdicts)->Ok_0.contains(stripe_shard(chunks, stripe))
            &&& recovered(
                stripe_shard(chunks, stripe),
                received,
                lost,
                payload_at(chunks, lost).len(),
            ) == payload_at(chunks, lost)
        }),
{
    let count = chunks[0].meta.chunk_count;
    let stripes = stripes_for(count) as int;
    let stripe = lost % stripes;
    let payload = payload_at(chunks, lost);
    let shard = stripe_shard(chunks, stripe);
    lemma_stripe_covers(chunks, stripe, stripes, count as nat, lost);
    lemma_shard_present(chunks, stripes as nat, stripe);
    assert forall|index: int|
        0 <= index < count && index != lost && #[trigger] (index % stripes)
            == stripe implies payload_at(received, index) == payload_at(chunks, index) by {
        if burst <= index < burst + stripes {
            if index < lost {
                lemma_between_strides(stripe, stripes, index, lost);
            } else {
                lemma_between_strides(stripe, stripes, lost, index);
            }
        }
    }
    assert forall|offset: int| 0 <= offset < payload.len() implies #[trigger] recovered(
        shard,
        received,
        lost,
        payload.len(),
    )[offset] == payload[offset] by {
        lemma_xor_of_stripe(chunks, received, stripe, stripes, offset, count as nat, lost);
        assert(shard.payload[offset] == stripe_byte(
            chunks,
            stripe,
            stripes,
            offset,
            count as nat,
        ));
    }
    assert(recovered(shard, received, lost, payload.len()) =~= payload);
}

/// Where no stripe is empty, there is one shard per stripe, in order.
pub proof fn law_one_shard_per_stripe(chunks: Seq<VideoChunk>, k: nat)
    requires
        forall|stripe: int|
            0 <= stripe < k ==> #[trigger] stripe_payload(chunks, stripe).len() > 0,
    ensures
        frame_shards(chunks, k).len() == k,
        forall|stripe: int|
            0 <= stripe < k ==> #[trigger] frame_shards(chunks, k)[stripe] == stripe_shard(
                chunks,
                stripe,
            ),
    decreases k,
{
    if k > 0 {
        law_one_shard_per_stripe(chunks, (k - 1) as nat);
        assert(stripe_payload(chunks, k - 1).len() > 0);
    }
}

proof fn lemma_stripe_by_payloads(
    a: Seq<VideoChunk>,
    b: Seq<VideoChunk>,
    stripe: int,
    stripes: int,
    offset: int,
    upto: nat,
)
    requires
        forall|index: int| 0 <= index < upto ==> #[trigger] payload_at(a, index) == payload_at(
            b,
            index,
        ),
    ensures
        stripe_len(a, stripe, stripes, upto) == stripe_len(b, stripe, stripes, upto),
        stripe_byte(a, stripe, stripes, offset, upto) == stripe_byte(
            b,
            stripe,
            stripes,
            offset,
            upto,
        ),
    decreases upto,
{
    if upto > 0 {
        lemma_stripe_by_payloads(a, b, stripe, stripes, offset, (upto - 1) as nat);
        assert(payload_at(a, upto - 1) == payload_at(b, upto - 1));
    }
}

proof fn lemma_shards_by_payloads(a: Seq<VideoChunk>, b: Seq<VideoChunk>, k: nat)
    requires
        a[0].meta == b[0].meta,
        a[0].meta.chunk_count > 0,
        forall|index: int|
            0 <= index < a[0].meta.chunk_count ==> #[trigger] payload_at(a, index) == payload_at(
                b,
                index,
            ),
    ensures
        frame_shards(a, k) == frame_shards(b, k),
    decreases k,
{
    if k > 0 {
        let count = a[0].meta.chunk_count;
        let stripes = stripes_for(count) as int;
        lemma_shards_by_payloads(a, b, (k - 1) as nat);
        assert forall|offset: int| #[trigger]
            stripe_byte(a, k - 1, stripes, offset, count as nat) == stripe_byte(
                b,
                k - 1,
                stripes,
                offset,
                count as nat,
            ) by {
            lemma_stripe_by_payloads(a, b, k - 1, stripes, offset, count as nat);
        }
        lemma_stripe_by_payloads(a, b, k - 1, stripes, 0, count as nat);
        lemma_stripe_by_payloads(a, b, 0, 1, 0, count as nat);
        assert(payload_at(a, count - 1) == payload_at(b, count - 1));
        assert(stripe_payload(a, k - 1) =~= stripe_payload(b, k - 1));
    }
}

/// The order in which the chunks of a frame are handed over makes no difference to its
/// parity: what counts is which payload each index has.
pub proof fn law_chunk_order_makes_no_difference(
    a: Seq<VideoChunk>,
    b: Seq<VideoChunk>,
    verdicts_a: Seq<Result<(), String>>,
    verdicts_b: Seq<Result<(), String>>,
)
    requires
        a.len() > 1,
        b.len() > 1,
        a[0].meta == b[0].meta,
        parity_outcome(a, verdicts_a) is Ok,
        parity_outcome(b, verdicts_b) is Ok,
        forall|index: int|
            0 <= index < a.len() ==> #[trigger] payload_at(a, index) == payload_at(b, index),
    ensures
        parity_outcome(a, verdicts_a) == parity_outcome(b, verdicts_b),
{
    lemma_shards_by_payloads(a, b, stripes_for(a[0].meta.chunk_count) as nat);
}

/// Where no two chunks carry the same index, the payload of an index is that of the chunk
/// that carries it.
pub proof fn law_indexes_tell_chunks_apart(chunks: Seq<VideoChunk>, j: int)
    requires
        0 <= j < chunks.len(),
        forall|a: int, b: int|
            #![trigger chunks[a], chunks[b]]
            0 <= a < b < chunks.len() ==> chunks[a].chunk_index != chunks[b].chunk_index,
    ensures
        payload_at(chunks, chunks[j].chunk_index as int) == chunks[j].payload,
{
    let index = chunks[j].chunk_index;
    let k = choose|k: int| 0 <= k < chunks.len() && (#[trigger] chunks[k]).chunk_index == index;
    assert(chunks[k].chunk_index == chunks[j].chunk_index);
}

proof fn lemma_no_fault(
    chunks: Seq<VideoChunk>,
    verdicts: Seq<Result<(), String>>,
    from: int,
)
    requires
        0 <= from,
    ensures
        first_chunk_fault(chunks, verdicts, from) is None <==> forall|i: int|
            from <= i < chunks.len() ==> {
                &&& #[trigger] verdicts[i] is Ok
                &&& chunks[i].meta == chunks[0].meta
                &&& forall|j: int|
                    0 <= j < i ==> (#[trigger] chunks[j]).chunk_index != chunks[i].chunk_index
            },
    decreases chunks.len() - from,
{
    if from < chunks.len() {
        lemma_no_fault(chunks, verdicts, from + 1);
        assert(verdicts[from] is Ok || verdicts[from] is Err);
    }
}

proof fn lemma_missing(chunks: Seq<VideoChunk>, from: int, count: int)
    ensures
        first_missing(chunks, from, count) is None <==> forall|index: int|
            from <= index < count ==> #[trigger] has_index(chunks, index),
    decreases count - from,
{
    if from < count {
        lemma_missing(chunks, from + 1, count);
        assert(has_index(chunks, from) || !has_index(chunks, from));
    }
}

proof fn lemma_longest(chunks: Seq<VideoChunk>, stripe: int, stripes: int, upto: nat)
    requires
        stripes > 0,
    ensures
        forall|index: int|
            0 <= index < upto && #[trigger] (index % stripes) == stripe ==> payload_at(
                chunks,
                index,
            ).len() <= stripe_len(chunks, stripe, stripes, upto),
        stripe_len(chunks, stripe, stripes, upto) > 0 ==> exists|index: int|
            0 <= index < upto && #[trigger] (index % stripes) == stripe && payload_at(
                chunks,
                index,
            ).len() == stripe_len(chunks, stripe, stripes, upto),
    decreases upto,
{
    if upto > 0 {
        lemma_longest(chunks, stripe, stripes, (upto - 1) as nat);
        let before = stripe_len(chunks, stripe, stripes, (upto - 1) as nat);
        let now = stripe_len(chunks, stripe, stripes, upto);
        assert(((upto - 1) % stripes) == (upto - 1) as int % stripes);
        if now > 0 && now == before {
            let index = choose|index: int|
                0 <= index < upto - 1 && #[trigger] (index % stripes) == stripe && payload_at(
                    chunks,
                    index,
                ).len() == before;
            assert(index % stripes == stripe);
        }
    }
}

/// Whether the media wire layer passes all chunks, they agree on the frame, and no two of
/// them carry the same index.
pub open spec fn all_agree(chunks: Seq<VideoChunk>, verdicts: Seq<Result<(), String>>) -> bool {
    forall|i: int|
        0 <= i < chunks.len() ==> {
            &&& #[trigger] verdicts[i] is Ok
            &&& chunks[i].meta == chunks[0].meta
            &&& forall|j: int|
                0 <= j < i ==> (#[trigger] chunks[j]).chunk_index != chunks[i].chunk_index
        }
}

/// Whether each index from zero on is there, with a payload whose length can be counted in
/// 32 bits.
pub open spec fn all_there(chunks: Seq<VideoChunk>) -> bool {
    forall|index: int|
        0 <= index < chunks.len() ==> {
            &&& (#[trigger] payload_at(chunks, index)).len() <= 0xffff_ffff
            &&& exists|j: int|
                0 <= j < chunks.len() && (#[trigger] chunks[j]).chunk_index == index
        }
}

/// A frame of at most one chunk has no parity. Any other has one exactly where the media
/// wire layer passes all its chunks, there are as many as the chunks say, they agree on the
/// frame, each index from zero on is there once, and no payload is too long to be counted.
pub proof fn law_what_has_parity(chunks: Seq<VideoChunk>, verdicts: Seq<Result<(), String>>)
    ensures
        chunks.len() <= 1 ==> parity_outcome(chunks, verdicts) == Ok::<
            Seq<ParityShard>,
            MediaFault,
        >(Seq::empty()),
        chunks.len() > 1 ==> (parity_outcome(chunks, verdicts) is Ok <==> {
            &&& chunks.len() == chunks[0].meta.chunk_count
            &&& all_agree(chunks, verdicts)
            &&& all_there(chunks)
        }),
        chunks.len() > 1 && verdicts[0] is Err ==> parity_outcome(chunks, verdicts) == Err::<
            Seq<ParityShard>,
            MediaFault,
        >(MediaFault::Wire(verdicts[0]->Err_0@)),
        chunks.len() > 1 && verdicts[0] is Ok && chunks.len() != chunks[0].meta.chunk_count
            ==> parity_outcome(chunks, verdicts) == Err::<Seq<ParityShard>, MediaFault>(
            MediaFault::Refused(
                Refusal::ParityIncomplete {
                    expected: chunks[0].meta.chunk_count,
                    received: chunks.len() as usize,
                },
            ),
        ),
{
    if chunks.len() > 1 && chunks.len() == chunks[0].meta.chunk_count {
        let count = chunks[0].meta.chunk_count as int;
        lemma_no_fault(chunks, verdicts, 0);
        assert(first_chunk_fault(chunks, verdicts, 0) is None <==> all_agree(chunks, verdicts));
        if all_agree(chunks, verdicts) {
            assert(verdicts[0] is Ok);
        }
        lemma_missing(chunks, 0, count);
        lemma_longest(chunks, 0, 1, count as nat);
        let longest = stripe_len(chunks, 0, 1, count as nat);
        assert forall|index: int| 0 <= index < count implies (#[trigger] payload_at(
            chunks,
            index,
        )).len() <= longest by {
            assert(index % 1 == 0);
        }
        assert(payload_at(chunks, count - 1).len() <= longest);
        if first_missing(chunks, 0, count) is None && longest <= 0xffff_ffff {
            assert forall|index: int| 0 <= index < chunks.len() implies {
                &&& (#[trigger] payload_at(chunks, index)).len() <= 0xffff_ffff
                &&& exists|j: int|
                    0 <= j < chunks.len() && (#[trigger] chunks[j]).chunk_index == index
            } by {
                assert(has_index(chunks, index));
            }
        }
        if all_there(chunks) {
            assert forall|index: int| 0 <= index < count implies #[trigger] has_index(
                chunks,
                index,
            ) by {
                assert(payload_at(chunks, index).len() <= 0xffff_ffff);
            }
            if longest > 0 {
                let index = choose|index: int|
                    0 <= index < count && #[trigger] (index % 1) == 0 && payload_at(
                        chunks,
                        index,
                    ).len() == longest;
                assert(payload_at(chunks, index).len() == longest);
            }
        }
    }
}

/// How many stripes a frame has: 16, or as many as it has chunks where these are fewer.
pub open spec fn sixteen_or(count: nat) -> int {
    if count < 16 {
        count as int
    } else {
        16
    }
}

proof fn lemma_shards_in_order(chunks: Seq<VideoChunk>, k: nat)
    requires
        k <= u16::MAX,
    ensures
        ({
            let shards = frame_shards(chunks, k);
            &&& shards.len() <= k
            &&& forall|i: int|
                0 <= i < shards.len() ==> {
                    &&& (#[trigger] shards[i]).parity_index < k
                    &&& shards[i] == stripe_shard(chunks, shards[i].parity_index as int)
                    &&& shards[i].payload.len() > 0
                }
            &&& forall|i: int, j: int|
                0 <= i < j < shards.len() ==> (#[trigger] shards[i]).parity_index < (
                #[trigger] shards[j]).parity_index
        }),
    decreases k,
{
    if k > 0 {
        lemma_shards_in_order(chunks, (k - 1) as nat);
    }
}

/// What the shards of a frame say: all of them what its chunks say of the frame. There is
/// one for each of 16 stripes, or of as many as there are chunks where these are fewer,
/// but for stripes without a byte; they are numbered by their stripes, and each is as long
/// as the longest payload whose index leaves its number when divided by the stripes.
pub proof fn law_what_shards_say(
    chunks: Seq<VideoChunk>,
    verdicts: Seq<Result<(), String>>,
    i: int,
)
    requires
        chunks.len() > 1,
        parity_outcome(chunks, verdicts) is Ok,
    ensures
        ({
            let shards = parity_outcome(chunks, verdicts)->Ok_0;
            let count = chunks.len() as int;
            let stripes = sixteen_or(chunks.len());
            &&& forall|j: int|
                #![trigger payload_at(chunks, j)]
                0 <= j < count && payload_at(chunks, j).len() > 0 ==> exists|k: int|
                    0 <= k < shards.len() && (#[trigger] shards[k]).parity_index == j % stripes
            &&& 0 <= i < shards.len() ==> {
                let shard = shards[i];
                &&& shard.meta.stream_id == chunks[0].meta.stream_id
                &&& shard.meta.session_id == chunks[0].meta.session_id
                &&& shard.meta.frame_id == chunks[0].meta.frame_id
                &&& shard.meta.codec == chunks[0].meta.codec
                &&& shard.meta.pts_ticks == chunks[0].meta.pts_ticks
                &&& shard.meta.duration_ticks == chunks[0].meta.duration_ticks
                &&& shard.meta.timebase_num == chunks[0].meta.timebase_num
                &&& shard.meta.timebase_den == chunks[0].meta.timebase_den
                &&& shard.meta.keyframe == chunks[0].meta.keyframe
                &&& shard.meta.dependency_frame_id == chunks[0].meta.dependency_frame_id
                &&& shard.meta.deadline_ticks == chunks[0].meta.deadline_ticks
                &&& shard.meta.chunk_count == chunks[0].meta.chunk_count
                &&& shard.meta.chunk_count == count
                &&& shard.parity_count == stripes
                &&& shard.parity_index < stripes
                &&& forall|j: int|
                    0 <= j < i ==> (#[trigger] shards[j]).parity_index < shard.parity_index
                &&& shard.payload.len() > 0
                &&& forall|j: int|
                    0 <= j < count && #[trigger] (j % stripes) == shard.parity_index ==> payload_at(
                        chunks,
                        j,
                    ).len() <= shard.payload.len()
                &&& exists|j: int|
                    0 <= j < count && #[trigger] (j % stripes) == shard.parity_index && payload_at(
                        chunks,
                        j,
                    ).len() == shard.payload.len()
                &&& forall|j: int|
                    0 <= j < count ==> (#[trigger] payload_at(chunks, j)).len()
                        <= shard.chunk_payload_bytes
                &&& exists|j: int|
                    0 <= j < count && (#[trigger] payload_at(chunks, j)).len()
                        == shard.chunk_payload_bytes
                &&& shard.last_chunk_payload_bytes == payload_at(chunks, count - 1).len()
            }
        }),
{
    let shards = parity_outcome(chunks, verdicts)->Ok_0;
    let count = chunks.len() as int;
    let stripes = sixteen_or(chunks.len());
    law_what_has_parity(chunks, verdicts);
    assert(stripes == stripes_for(chunks[0].meta.chunk_count));
    lemma_shards_in_order(chunks, stripes as nat);
    assert forall|j: int|
        #![trigger payload_at(chunks, j)]
        0 <= j < count && payload_at(chunks, j).len() > 0 implies exists|k: int|
        0 <= k < shards.len() && (#[trigger] shards[k]).parity_index == j % stripes by {
        let stripe = j % stripes;
        lemma_longest(chunks, stripe, stripes, count as nat);
        assert(j % stripes == stripe);
        lemma_shard_present(chunks, stripes as nat, stripe);
        let k = choose|k: int| 0 <= k < shards.len() && shards[k] == stripe_shard(chunks, stripe);
        assert(shards[k].parity_index == stripe);
    }
    if 0 <= i < shards.len() {
        let shard = shards[i];
        let stripe = shard.parity_index as int;
        assert(shard == stripe_shard(chunks, stripe));
        lemma_longest(chunks, stripe, stripes, count as nat);
        lemma_longest(chunks, 0, 1, count as nat);
        let longest = stripe_len(chunks, 0, 1, count as nat);
        assert forall|j: int| 0 <= j < count implies (#[trigger] payload_at(chunks, j)).len()
            <= longest by {
            assert(j % 1 == 0);
        }
        let long = choose|j: int|
            0 <= j < count && #[trigger] (j % stripes) == stripe && payload_at(chunks, j).len()
                == shard.payload.len();
        assert(payload_at(chunks, long).len() <= longest);
        let index = choose|index: int|
            0 <= index < count && #[trigger] (index % 1) == 0 && payload_at(chunks, index).len()
                == longest;
        assert(payload_at(chunks, index).len() == longest);
    }
}

/// A burst of up to 16 lost chunks, or of all of fewer, costs nothing: each chunk of it that
/// holds bytes comes back from the shard whose number its index leaves, and from what was
/// received outside the burst.
pub proof fn law_sixteen_lost_chunks_come_back(
    chunks: Seq<VideoChunk>,
    verdicts: Seq<Result<(), String>>,
    received: Seq<VideoChunk>,
    burst: int,
    lost: int,
)
    requires
        chunks.len() > 1,
        parity_outcome(chunks, verdicts) is Ok,
        0 <= lost < chunks.len(),
        burst <= lost < burst + sixteen_or(chunks.len()),
        forall|index: int|
            0 <= index < chunks.len() && !(burst <= index < burst + sixteen_or(chunks.len())) ==> #[trigger] payload_at(received, index) == payload_at(chunks, index),
        payload_at(chunks, lost).len() > 0,
    ensures
        ({
            let shards = parity_outcome(chunks, verdicts)->Ok_0;
            let stripes = sixteen_or(chunks.len());
            exists|k: int|
                #![trigger shards[k]]
                {
                    &&& 0 <= k < shards.len()
                    &&& shards[k].parity_index == lost % stripes
                    &&& shards[k].parity_count == stripes
                    &&& recovered(shards[k], received, lost, payload_at(chunks, lost).len())
                        == payload_at(chunks, lost)
                }
        }),
{
    let shards = parity_outcome(chunks, verdicts)->Ok_0;
    let stripes = sixteen_or(chunks.len());
    law_what_has_parity(chunks, verdicts);
    assert(stripes == stripes_for(chunks[0].meta.chunk_count));
    law_burst_loss_recovery(chunks, verdicts, received, burst, lost);
    let shard = stripe_shard(chunks, lost % stripes);
    let k = choose|k: int| 0 <= k < shards.len() && shards[k] == shard;
    assert(shards[k] == shard);
}

proof fn lemma_first_fault(
    chunks: Seq<VideoChunk>,
    verdicts: Seq<Result<(), String>>,
    from: int,
    i: int,
)
    requires
        0 <= from <= i < chunks.len(),
        forall|k: int| from <= k < i ==> #[trigger] chunk_fault(chunks, verdicts, k) is None,
        chunk_fault(chunks, verdicts, i) is Some,
    ensures
        first_chunk_fault(chunks, verdicts, from) == chunk_fault(chunks, verdicts, i),
    decreases i - from,
{
    if from < i {
        assert(chunk_fault(chunks, verdicts, from) is None);
        lemma_first_fault(chunks, verdicts, from + 1, i);
    }
}

proof fn lemma_first_missing(chunks: Seq<VideoChunk>, from: int, index: int, count: int)
    requires
        0 <= from <= index < count,
        forall|k: int| from <= k < index ==> #[trigger] has_index(chunks, k),
        !has_index(chunks, index),
    ensures
        first_missing(chunks, from, count) == Some(index),
    decreases index - from,
{
    if from < index {
        assert(has_index(chunks, from));
        lemma_first_missing(chunks, from + 1, index, count);
    }
}

/// The first chunk that the media wire layer does not pass, that says something else of the
/// frame than the first chunk, or whose index a chunk before it carries, keeps a frame from
/// having parity, and that is told.
pub proof fn law_the_first_bad_chunk_is_told(
    chunks: Seq<VideoChunk>,
    verdicts: Seq<Result<(), String>>,
    i: int,
)
    requires
        chunks.len() > 1,
        chunks.len() == chunks[0].meta.chunk_count,
        verdicts[0] is Ok,
        0 <= i < chunks.len(),
        forall|k: int|
            0 <= k < i ==> {
                &&& #[trigger] verdicts[k] is Ok
                &&& chunks[k].meta == chunks[0].meta
                &&& forall|j: int|
                    0 <= j < k ==> (#[trigger] chunks[j]).chunk_index != chunks[k].chunk_index
            },
    ensures
        verdicts[i] is Err ==> parity_outcome(chunks, verdicts) == Err::<
            Seq<ParityShard>,
            MediaFault,
        >(MediaFault::Wire(verdicts[i]->Err_0@)),
        verdicts[i] is Ok && chunks[i].meta != chunks[0].meta ==> parity_outcome(chunks, verdicts)
            == Err::<Seq<ParityShard>, MediaFault>(
            MediaFault::Refused(Refusal::ParityMixedMetadata),
        ),
        verdicts[i] is Ok && chunks[i].meta == chunks[0].meta && (exists|j: int|
            0 <= j < i && (#[trigger] chunks[j]).chunk_index == chunks[i].chunk_index)
            ==> parity_outcome(chunks, verdicts) == Err::<Seq<ParityShard>, MediaFault>(
            MediaFault::Refused(Refusal::ParityDuplicateChunk(chunks[i].chunk_index)),
        ),
{
    assert forall|k: int| 0 <= k < i implies #[trigger] chunk_fault(
        chunks,
        verdicts,
        k,
    ) is None by {
        assert(verdicts[k] is Ok);
    }
    if chunk_fault(chunks, verdicts, i) is Some {
        lemma_first_fault(chunks, verdicts, 0, i);
    }
}

/// Of a frame whose chunks agree, the first index that no chunk carries is told; and where
/// none is missing but a payload is too long to be counted, that is told, of the last chunk
/// first.
pub proof fn law_missing_and_overlong_chunks_are_told(
    chunks: Seq<VideoChunk>,
    verdicts: Seq<Result<(), String>>,
    index: int,
)
    requires
        chunks.len() > 1,
        chunks.len() == chunks[0].meta.chunk_count,
        all_agree(chunks, verdicts),
        0 <= index <= chunks.len(),
        forall|k: int| 0 <= k < index ==> #[trigger] has_index(chunks, k),
        index < chunks.len() ==> forall|j: int|
            0 <= j < chunks.len() ==> (#[trigger] chunks[j]).chunk_index != index,
    ensures
        index < chunks.len() ==> parity_outcome(chunks, verdicts) == Err::<
            Seq<ParityShard>,
            MediaFault,
        >(MediaFault::Refused(Refusal::ParityMissingChunk(index as u16))),
        index == chunks.len() && payload_at(chunks, chunks.len() - 1).len() > 0xffff_ffff
            ==> parity_outcome(chunks, verdicts) == Err::<Seq<ParityShard>, MediaFault>(
            MediaFault::Refused(Refusal::ParityLastChunkTooLong),
        ),
        index == chunks.len() && payload_at(chunks, chunks.len() - 1).len() <= 0xffff_ffff
            && parity_outcome(chunks, verdicts) is Err ==> parity_outcome(chunks, verdicts)
            == Err::<Seq<ParityShard>, MediaFault>(
            MediaFault::Refused(Refusal::ParityChunkTooLong),
        ),
{
    lemma_no_fault(chunks, verdicts, 0);
    assert(verdicts[0] is Ok);
    assert(first_chunk_fault(chunks, verdicts, 0) is None);
    if index < chunks.len() {
        lemma_first_missing(chunks, 0, index, chunks.len() as int);
    } else {
        lemma_missing(chunks, 0, chunks.len() as int);
    }
}

} // verus!
