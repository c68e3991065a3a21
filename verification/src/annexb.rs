//! Annex B byte streams: start codes, NAL units and the access units that they form.

use vstd::prelude::*;
use vstd::slice::{slice_subrange, slice_to_vec};

use crate::bits;
use crate::bits::{h264_ebsp_to_rbsp, read_unsigned_exp_golomb};
use crate::codec;
use crate::codec::{normalized_video_codec, VideoCodec, VideoFamily};
use crate::error::{MediaError, MediaFault, Refusal};
use crate::pictures;

verus! {

/// One coded picture with what belongs to it, as it stood in the stream.
#[derive(Debug, PartialEq, Eq)]
pub struct VideoAccessUnit {
    pub bytes: Vec<u8>,
    pub keyframe: bool,
}

/// What a `VideoAccessUnit` holds.
#[verifier::ext_equal]
pub struct AccessUnit {
    pub bytes: Seq<u8>,
    pub keyframe: bool,
}

impl View for VideoAccessUnit {
    type V = AccessUnit;

    open spec fn view(&self) -> AccessUnit {
        AccessUnit { bytes: self.bytes@, keyframe: self.keyframe }
    }
}

impl Clone for VideoAccessUnit {
    fn clone(&self) -> (copy: Self)
        ensures
            copy@ == self@,
    {
        VideoAccessUnit { bytes: slice_to_vec(self.bytes.as_slice()), keyframe: self.keyframe }
    }
}

/// What the access units of `units` hold.
pub open spec fn unit_views(units: Seq<VideoAccessUnit>) -> Seq<AccessUnit> {
    Seq::new(units.len(), |i: int| units[i]@)
}

// Start codes

/// The length of the start code at byte `i`, or zero where there is none.
pub open spec fn start_code_len(input: Seq<u8>, i: int) -> int {
    if 0 <= i && i + 3 <= input.len() && input[i] == 0 && input[i + 1] == 0 && input[i + 2] == 1 {
        3
    } else if 0 <= i && i + 4 <= input.len() && input[i] == 0 && input[i + 1] == 0 && input[i + 2]
        == 0 && input[i + 3] == 1 {
        4
    } else {
        0
    }
}

/// Where the first start code at or after byte `from` stands.
pub open spec fn next_start_code(input: Seq<u8>, from: int) -> Option<int>
    decreases input.len() - from,
{
    if from + 3 > input.len() {
        None
    } else if start_code_len(input, from) > 0 {
        Some(from)
    } else {
        next_start_code(input, from + 1)
    }
}

/// Where the start codes from byte `from` on stand, each looked for behind the one
/// before it.
pub open spec fn start_codes(input: Seq<u8>, from: int) -> Seq<int>
    decreases input.len() - from,
{
    if from + 3 > input.len() {
        Seq::empty()
    } else if start_code_len(input, from) > 0 {
        seq![from] + start_codes(input, from + start_code_len(input, from))
    } else {
        start_codes(input, from + 1)
    }
}

/// Finds the first start code at or after byte `from`: its place and its length.
pub fn find_annex_b_start_code(input: &[u8], from: usize) -> (found: Option<(usize, usize)>)
    ensures
        match found {
            Some((start, prefix_len)) => {
                &&& from <= start
                &&& next_start_code(input@, from as int) == Some(start as int)
                &&& prefix_len == start_code_len(input@, start as int)
                &&& prefix_len > 0
            },
            None => next_start_code(input@, from as int) is None,
        },
        match found {
            Some((start, prefix_len)) => {
                &&& from <= start
                &&& start + prefix_len <= input@.len()
                &&& prefix_len == 3 || prefix_len == 4
                &&& input@[start as int] == 0
                &&& input@[start + 1] == 0
                &&& prefix_len == 4 ==> input@[start + 2] == 0
                &&& input@[start + prefix_len - 1] == 1
                &&& forall|q: int| from <= q < start ==> !#[trigger] pictures::code_at(input@, q)
            },
            None => forall|q: int| from <= q ==> !#[trigger] pictures::code_at(input@, q),
        },
        start_codes(input@, from as int) == match found {
            Some((start, prefix_len)) => seq![start as int] + start_codes(
                input@,
                start + prefix_len,
            ),
            None => Seq::empty(),
        },
{
    let mut index: usize = from;
    while index < input.len() && input.len() - index >= 3
        invariant
            from <= index,
            forall|q: int| from <= q < index ==> !#[trigger] pictures::code_at(input@, q),
            next_start_code(input@, from as int) == next_start_code(input@, index as int),
            start_codes(input@, from as int) == start_codes(input@, index as int),
        decreases input@.len() - index,
    {
        if input[index] == 0 && input[index + 1] == 0 {
            if input[index + 2] == 1 {
                return Some((index, 3));
            }
            if input.len() - index >= 4 && input[index + 2] == 0 && input[index + 3] == 1 {
                return Some((index, 4));
            }
        }
        index = index + 1;
    }
    None
}

// NAL units

/// Where a NAL unit stands: its start code at `start`, its payload from `payload_start`
/// up to `end`.
pub struct NalSpan {
    pub start: int,
    pub payload_start: int,
    pub end: int,
}

/// What stands between start code `k` and the next one, or the end of the input.
pub open spec fn span_at(input: Seq<u8>, codes: Seq<int>, k: int) -> NalSpan {
    NalSpan {
        start: codes[k],
        payload_start: codes[k] + start_code_len(input, codes[k]),
        end: if k + 1 < codes.len() {
            codes[k + 1]
        } else {
            input.len() as int
        },
    }
}

/// The bytes of a NAL unit behind its start code.
pub open spec fn span_payload(input: Seq<u8>, span: NalSpan) -> Seq<u8> {
    input.subrange(span.payload_start, span.end)
}

/// The length of the NAL unit header of a family.
pub open spec fn nal_header_len(family: VideoFamily) -> int {
    match family {
        VideoFamily::H264 => 1,
        VideoFamily::H265 => 2,
    }
}

/// The type that the header of a NAL payload gives, where the header is complete.
pub open spec fn nal_type(family: VideoFamily, payload: Seq<u8>) -> Option<u8> {
    if payload.len() < nal_header_len(family) {
        None
    } else {
        match family {
            VideoFamily::H264 => Some(payload[0] & 0x1f),
            VideoFamily::H265 => Some((payload[0] >> 1) & 0x3f),
        }
    }
}

/// The NAL units behind the first `k` start codes: those with a complete header.
pub open spec fn nal_spans(
    family: VideoFamily,
    input: Seq<u8>,
    codes: Seq<int>,
    k: nat,
) -> Seq<NalSpan>
    decreases k,
{
    if k == 0 {
        Seq::empty()
    } else {
        let before = nal_spans(family, input, codes, (k - 1) as nat);
        let span = span_at(input, codes, k - 1);
        if span.payload_start < span.end && nal_type(family, span_payload(input, span)) is Some {
            before.push(span)
        } else {
            before
        }
    }
}

/// The NAL units of a stream.
pub open spec fn stream_nals(family: VideoFamily, input: Seq<u8>) -> Seq<NalSpan> {
    let codes = start_codes(input, 0);
    nal_spans(family, input, codes, codes.len())
}

/// Whether a NAL type is that of coded slice data.
pub open spec fn is_vcl(family: VideoFamily, nal_type: u8) -> bool {
    match family {
        VideoFamily::H264 => 1 <= nal_type <= 5,
        VideoFamily::H265 => nal_type <= 31,
    }
}

/// Whether a NAL type makes its access unit a random access point.
pub open spec fn is_random_access(family: VideoFamily, nal_type: u8) -> bool {
    match family {
        VideoFamily::H264 => nal_type == 5,
        VideoFamily::H265 => 16 <= nal_type <= 21,
    }
}

/// Whether a NAL type is that of an access unit delimiter.
pub open spec fn is_delimiter(family: VideoFamily, nal_type: u8) -> bool {
    match family {
        VideoFamily::H264 => nal_type == 9,
        VideoFamily::H265 => nal_type == 35,
    }
}

/// Whether a NAL type, once slice data has gone before, belongs to the next picture:
/// parameter sets and SEI of H.265.
pub open spec fn is_leading(family: VideoFamily, nal_type: u8) -> bool {
    match family {
        VideoFamily::H264 => false,
        VideoFamily::H265 => 32 <= nal_type <= 34 || nal_type == 39 || nal_type == 40,
    }
}

/// The address of the first macroblock of an H.264 slice.
pub open spec fn first_mb(payload: Seq<u8>) -> Option<nat> {
    if payload.len() < 2 {
        None
    } else {
        bits::exp_golomb(bits::rbsp(payload.skip(1)))
    }
}

/// Whether an H.265 slice segment is the first of its picture.
pub open spec fn first_segment(payload: Seq<u8>) -> Option<bool> {
    if payload.len() < 3 {
        None
    } else {
        let header = bits::rbsp(payload.skip(2));
        if header.len() == 0 {
            None
        } else {
            Some(header[0] & 0x80 != 0)
        }
    }
}

/// Whether a slice is the first of its picture, as far as its header tells.
pub open spec fn is_first_slice(family: VideoFamily, payload: Seq<u8>) -> bool {
    match family {
        VideoFamily::H264 => first_mb(payload) == Some(0nat),
        VideoFamily::H265 => first_segment(payload) == Some(true),
    }
}

/// The type of a NAL unit of the stream.
pub open spec fn span_type(family: VideoFamily, input: Seq<u8>, span: NalSpan) -> u8 {
    nal_type(family, span_payload(input, span)).unwrap()
}

// Access units

/// Whether one of the NAL units `a..b` carries slice data.
pub open spec fn has_vcl(
    family: VideoFamily,
    input: Seq<u8>,
    nals: Seq<NalSpan>,
    a: int,
    b: int,
) -> bool {
    exists|i: int| a <= i < b && is_vcl(family, span_type(family, input, #[trigger] nals[i]))
}

/// Whether one of the NAL units `a..b` is a random access point.
pub open spec fn has_random_access(
    family: VideoFamily,
    input: Seq<u8>,
    nals: Seq<NalSpan>,
    a: int,
    b: int,
) -> bool {
    exists|i: int|
        a <= i < b && is_random_access(family, span_type(family, input, #[trigger] nals[i]))
}

/// Whether NAL unit `k` begins an access unit, where the one before it began at NAL
/// unit `a`: a delimiter does; the first slice of a picture, and what leads a picture
/// in, do once slice data has gone before.
pub open spec fn opens_unit(
    family: VideoFamily,
    input: Seq<u8>,
    nals: Seq<NalSpan>,
    a: int,
    k: int,
) -> bool {
    let kind = span_type(family, input, nals[k]);
    if is_delimiter(family, kind) {
        true
    } else if is_vcl(family, kind) {
        has_vcl(family, input, nals, a, k) && is_first_slice(family, span_payload(input, nals[k]))
    } else {
        has_vcl(family, input, nals, a, k) && is_leading(family, kind)
    }
}

/// The NAL units among the first `k` that begin an access unit.
pub open spec fn unit_heads(
    family: VideoFamily,
    input: Seq<u8>,
    nals: Seq<NalSpan>,
    k: nat,
) -> Seq<int>
    decreases k,
{
    if k == 0 {
        Seq::empty()
    } else {
        let before = unit_heads(family, input, nals, (k - 1) as nat);
        if before.len() == 0 || opens_unit(family, input, nals, before.last(), k - 1) {
            before.push(k - 1)
        } else {
            before
        }
    }
}

/// The access unit made of the NAL units `a..b`.
pub open spec fn unit_of(
    family: VideoFamily,
    input: Seq<u8>,
    nals: Seq<NalSpan>,
    a: int,
    b: int,
) -> AccessUnit {
    AccessUnit {
        bytes: input.subrange(nals[a].start, nals[b - 1].end),
        keyframe: has_random_access(family, input, nals, a, b),
    }
}

/// Where the access unit that NAL unit `heads[j]` begins ends, out of `n` NAL units.
pub open spec fn unit_stop(heads: Seq<int>, n: int, j: int) -> int {
    if j + 1 < heads.len() {
        heads[j + 1]
    } else {
        n
    }
}

/// The access units of a stream.
pub open spec fn stream_units(family: VideoFamily, input: Seq<u8>) -> Seq<AccessUnit> {
    let nals = stream_nals(family, input);
    let heads = unit_heads(family, input, nals, nals.len());
    Seq::new(
        heads.len(),
        |j: int|
            unit_of(family, input, nals, heads[j], unit_stop(heads, nals.len() as int, j)),
    )
}

/// What splitting a stream of a family comes to.
pub open spec fn split_stream(family: VideoFamily, input: Seq<u8>) -> Result<
    Seq<AccessUnit>,
    MediaFault,
> {
    if start_codes(input, 0).len() == 0 {
        Err(MediaFault::Refused(Refusal::NoStartCodes(family)))
    } else if stream_nals(family, input).len() == 0 {
        Err(MediaFault::Refused(Refusal::NoNalPayloads(family)))
    } else {
        Ok(stream_units(family, input))
    }
}

/// What splitting a stream with a codec name comes to.
pub open spec fn split_named(codec: Seq<char>, input: Seq<u8>) -> Result<
    Seq<AccessUnit>,
    MediaFault,
> {
    match codec::named_codec(codec) {
        Some(VideoCodec::H264) => split_stream(VideoFamily::H264, input),
        Some(VideoCodec::H265) => split_stream(VideoFamily::H265, input),
        Some(VideoCodec::Av1) => Err(MediaFault::Refused(Refusal::Av1IsNotAnnexB)),
        None => Err(MediaFault::UnsupportedCodec(codec)),
    }
}

/// A NAL unit found in a stream.
#[derive(Clone, Copy)]
pub struct NalUnit {
    pub start: usize,
    pub payload_start: usize,
    pub end: usize,
    pub nal_type: u8,
}

/// Whether `found` is the NAL units `nals` of `input`.
pub open spec fn are_nals(
    family: VideoFamily,
    input: Seq<u8>,
    nals: Seq<NalSpan>,
    found: Seq<NalUnit>,
) -> bool {
    &&& found.len() == nals.len()
    &&& forall|i: int|
        #![trigger found[i]]
        0 <= i < found.len() ==> {
            &&& found[i].start == nals[i].start
            &&& found[i].payload_start == nals[i].payload_start
            &&& found[i].end == nals[i].end
            &&& found[i].nal_type == span_type(family, input, nals[i])
        }
}

/// Start codes stand apart and inside the input.
pub open spec fn codes_apart(input: Seq<u8>, from: int, codes: Seq<int>) -> bool {
    &&& forall|i: int|
        #![trigger codes[i]]
        0 <= i < codes.len() ==> {
            &&& from <= codes[i]
            &&& start_code_len(input, codes[i]) > 0
            &&& codes[i] + start_code_len(input, codes[i]) <= input.len()
        }
    &&& forall|i: int, j: int|
        #![trigger codes[i], codes[j]]
        0 <= i < j < codes.len() ==> codes[i] + start_code_len(input, codes[i]) <= codes[j]
}

/// Start codes stand apart and inside the input.
pub proof fn lemma_codes_apart(input: Seq<u8>, from: int)
    requires
        0 <= from,
    ensures
        codes_apart(input, from, start_codes(input, from)),
    decreases input.len() - from,
{
    if from + 3 <= input.len() {
        let width = start_code_len(input, from);
        if width > 0 {
            lemma_codes_apart(input, from + width);
            let rest = start_codes(input, from + width);
            let codes = start_codes(input, from);
            assert(codes =~= seq![from] + rest);
            assert forall|i: int| #![trigger codes[i]] 0 <= i < codes.len() implies {
                &&& from <= codes[i]
                &&& start_code_len(input, codes[i]) > 0
                &&& codes[i] + start_code_len(input, codes[i]) <= input.len()
            } by {
                if i > 0 {
                    assert(codes[i] == rest[i - 1]);
                }
            }
            assert forall|i: int, j: int|
                #![trigger codes[i], codes[j]]
                0 <= i < j < codes.len() implies codes[i] + start_code_len(input, codes[i])
                <= codes[j] by {
                assert(codes[j] == rest[j - 1]);
                if i > 0 {
                    assert(codes[i] == rest[i - 1]);
                }
            }
        } else {
            lemma_codes_apart(input, from + 1);
        }
    }
}

/// NAL units stand apart and inside the input, each with a complete header.
pub open spec fn spans_apart(family: VideoFamily, input: Seq<u8>, spans: Seq<NalSpan>) -> bool {
    &&& forall|i: int|
        #![trigger spans[i]]
        0 <= i < spans.len() ==> {
            &&& 0 <= spans[i].start < spans[i].payload_start < spans[i].end <= input.len()
            &&& spans[i].payload_start == spans[i].start + start_code_len(input, spans[i].start)
            &&& nal_type(family, span_payload(input, spans[i])) is Some
        }
    &&& forall|i: int, j: int|
        #![trigger spans[i], spans[j]]
        0 <= i < j < spans.len() ==> spans[i].end <= spans[j].start
}

proof fn lemma_spans_apart(family: VideoFamily, input: Seq<u8>, codes: Seq<int>, k: nat)
    requires
        codes_apart(input, 0, codes),
        k <= codes.len(),
    ensures
        spans_apart(family, input, nal_spans(family, input, codes, k)),
        forall|i: int|
            #![trigger nal_spans(family, input, codes, k)[i]]
            0 <= i < nal_spans(family, input, codes, k).len() ==> nal_spans(
                family,
                input,
                codes,
                k,
            )[i].end <= if k < codes.len() {
                codes[k as int]
            } else {
                input.len() as int
            },
    decreases k,
{
    if k > 0 {
        lemma_spans_apart(family, input, codes, (k - 1) as nat);
        let before = nal_spans(family, input, codes, (k - 1) as nat);
        let spans = nal_spans(family, input, codes, k);
        let span = span_at(input, codes, k - 1);
        assert(codes[k - 1] <= input.len());
        if k < codes.len() {
            assert(codes[k - 1] + start_code_len(input, codes[k - 1]) <= codes[k as int]);
        }
        assert forall|i: int| 0 <= i < spans.len() implies #[trigger] spans[i].end <= span.end by {
            if i < before.len() {
                assert(spans[i] == before[i]);
            }
        }
        assert forall|i: int, j: int|
            #![trigger spans[i], spans[j]]
            0 <= i < j < spans.len() implies spans[i].end <= spans[j].start by {
            assert(spans[i] == before[i]);
            if j < before.len() {
                assert(spans[j] == before[j]);
            }
        }
        assert forall|i: int| #![trigger spans[i]] 0 <= i < spans.len() implies {
            &&& 0 <= spans[i].start < spans[i].payload_start < spans[i].end <= input.len()
            &&& spans[i].payload_start == spans[i].start + start_code_len(input, spans[i].start)
            &&& nal_type(family, span_payload(input, spans[i])) is Some
        } by {
            if i < before.len() {
                assert(spans[i] == before[i]);
            }
        }
    }
}

/// The NAL units of a stream stand apart and inside it.
pub proof fn lemma_stream_nals_apart(family: VideoFamily, input: Seq<u8>)
    ensures
        spans_apart(family, input, stream_nals(family, input)),
{
    lemma_codes_apart(input, 0);
    let codes = start_codes(input, 0);
    lemma_spans_apart(family, input, codes, codes.len());
}

/// The type in the header of an H.264 NAL payload.
pub fn h264_nal_type(payload: &[u8]) -> (kind: Option<u8>)
    ensures
        kind == nal_type(VideoFamily::H264, payload@),
        kind == if payload@.len() == 0 {
            None
        } else {
            Some(payload@[0] & 0x1f)
        },
{
    if payload.len() == 0 {
        None
    } else {
        Some(payload[0] & 0x1f)
    }
}

/// The type in the header of an H.265 NAL payload.
pub fn h265_nal_type(payload: &[u8]) -> (kind: Option<u8>)
    ensures
        kind == nal_type(VideoFamily::H265, payload@),
        kind == if payload@.len() < 2 {
            None
        } else {
            Some((payload@[0] >> 1) & 0x3f)
        },
{
    if payload.len() < 2 {
        None
    } else {
        Some((payload[0] >> 1) & 0x3f)
    }
}

fn family_nal_type(family: VideoFamily, payload: &[u8]) -> (kind: Option<u8>)
    ensures
        kind == nal_type(family, payload@),
{
    match family {
        VideoFamily::H264 => h264_nal_type(payload),
        VideoFamily::H265 => h265_nal_type(payload),
    }
}

/// Finds the NAL units of a stream.
pub fn annex_b_nal_units(input: &[u8], family: VideoFamily) -> (outcome: Result<
    Vec<NalUnit>,
    MediaError,
>)
    ensures
        match outcome {
            Ok(nal_units) => {
                &&& split_stream(family, input@) is Ok
                &&& are_nals(family, input@, stream_nals(family, input@), nal_units@)
                &&& nal_units@.len() > 0
            },
            Err(error) => split_stream(family, input@) == Err::<Seq<AccessUnit>, MediaFault>(
                error@,
            ),
        },
{
    let total: usize = input.len();
    let mut starts: Vec<(usize, usize)> = Vec::new();
    let mut offset: usize = 0;
    let ghost codes = start_codes(input@, 0);
    let mut found = find_annex_b_start_code(input, offset);
    assert(codes =~= starts@.map_values(|s: (usize, usize)| s.0 as int) + start_codes(input@, 0));
    while found.is_some()
        invariant
            offset <= input@.len() == total,
            codes == start_codes(input@, 0),
            starts@.len() <= offset,
            codes =~= starts@.map_values(|s: (usize, usize)| s.0 as int) + start_codes(
                input@,
                offset as int,
            ),
            forall|i: int|
                0 <= i < starts@.len() ==> (#[trigger] starts@[i]).1 == start_code_len(
                    input@,
                    starts@[i].0 as int,
                ),
            match found {
                Some((start, prefix_len)) => {
                    &&& offset <= start
                    &&& prefix_len == start_code_len(input@, start as int)
                    &&& prefix_len > 0
                },
                None => true,
            },
            start_codes(input@, offset as int) == match found {
                Some((start, prefix_len)) => seq![start as int] + start_codes(
                    input@,
                    start + prefix_len,
                ),
                None => Seq::empty(),
            },
        decreases input@.len() + if found is Some { 1int } else { 0 } - offset,
    {
        if let Some((start, prefix_len)) = found {
            let ghost before = starts@;
            starts.push((start, prefix_len));
            offset = start + prefix_len;
            found = find_annex_b_start_code(input, offset);
            assert(starts@.map_values(|s: (usize, usize)| s.0 as int) =~= before.map_values(
                |s: (usize, usize)| s.0 as int,
            ) + seq![start as int]);
        }
    }
    assert(codes =~= starts@.map_values(|s: (usize, usize)| s.0 as int));
    if starts.len() == 0 {
        return Err(MediaError::Refused(Refusal::NoStartCodes(family)));
    }
    proof {
        lemma_codes_apart(input@, 0);
    }
    let mut nal_units: Vec<NalUnit> = Vec::new();
    let mut index: usize = 0;
    while index < starts.len()
        invariant
            index <= starts@.len(),
            total == input@.len(),
            starts@.len() == codes.len(),
            codes == start_codes(input@, 0),
            codes_apart(input@, 0, codes),
            forall|i: int|
                0 <= i < starts@.len() ==> {
                    &&& (#[trigger] starts@[i]).0 == codes[i]
                    &&& starts@[i].1 == start_code_len(input@, codes[i])
                },
            are_nals(family, input@, nal_spans(family, input@, codes, index as nat), nal_units@),
        decreases starts@.len() - index,
    {
        let (start, prefix_len) = starts[index];
        let ghost span = span_at(input@, codes, index as int);
        assert(codes[index as int] + start_code_len(input@, codes[index as int]) <= input@.len());
        let payload_start: usize = start + prefix_len;
        let end: usize = if index + 1 < starts.len() {
            assert(codes[index as int] <= codes[index + 1]);
            starts[index + 1].0
        } else {
            total
        };
        assert(span.start == start && span.payload_start == payload_start && span.end == end);
        assert(0 <= codes[index as int]);
        if payload_start < end {
            if index + 1 < starts.len() {
                assert(codes[index + 1] <= input@.len());
            }
            let payload = slice_subrange(input, payload_start, end);
            if let Some(nal_type) = family_nal_type(family, payload) {
                nal_units.push(NalUnit { start, payload_start, end, nal_type });
            }
        }
        index = index + 1;
    }
    if nal_units.len() == 0 {
        return Err(MediaError::Refused(Refusal::NoNalPayloads(family)));
    }
    Ok(nal_units)
}

/// Whether an H.264 NAL type is that of coded slice data.
pub fn is_h264_vcl_nal(nal_type: u8) -> (b: bool)
    ensures
        b == is_vcl(VideoFamily::H264, nal_type),
        b <==> nal_type == 1 || nal_type == 2 || nal_type == 3 || nal_type == 4 || nal_type == 5,
{
    1 <= nal_type && nal_type <= 5
}

/// Whether an H.265 NAL type is that of coded slice data.
pub fn is_h265_vcl_nal(nal_type: u8) -> (b: bool)
    ensures
        b == is_vcl(VideoFamily::H265, nal_type),
        b <==> 0 <= nal_type < 32,
{
    nal_type <= 31
}

/// Whether an H.265 NAL type is that of a random access picture.
pub fn is_h265_irap_nal(nal_type: u8) -> (b: bool)
    ensures
        b == is_random_access(VideoFamily::H265, nal_type),
        b <==> nal_type == 16 || nal_type == 17 || nal_type == 18 || nal_type == 19 || nal_type
            == 20 || nal_type == 21,
{
    16 <= nal_type && nal_type <= 21
}

/// Whether an H.265 NAL type leads the next picture in.
pub fn is_h265_pre_vcl_boundary_nal(nal_type: u8) -> (b: bool)
    ensures
        b == is_leading(VideoFamily::H265, nal_type),
        b <==> nal_type == 32 || nal_type == 33 || nal_type == 34 || nal_type == 39 || nal_type
            == 40,
{
    (32 <= nal_type && nal_type <= 34) || nal_type == 39 || nal_type == 40
}

/// Reads the address of the first macroblock of an H.264 slice.
pub fn h264_first_mb_in_slice(nal_payload: &[u8]) -> (address: Option<u64>)
    ensures
        match address {
            Some(mb) => first_mb(nal_payload@) == Some(mb as nat),
            None => first_mb(nal_payload@) is None,
        },
{
    if nal_payload.len() < 2 {
        return None;
    }
    let header = h264_ebsp_to_rbsp(slice_subrange(nal_payload, 1, nal_payload.len()));
    assert(nal_payload@.subrange(1, nal_payload@.len() as int) =~= nal_payload@.skip(1));
    read_unsigned_exp_golomb(header.as_slice())
}

/// Reads whether an H.265 slice segment is the first of its picture.
pub fn h265_first_slice_segment_in_pic(nal_payload: &[u8]) -> (first: Option<bool>)
    ensures
        first == first_segment(nal_payload@),
{
    if nal_payload.len() < 3 {
        return None;
    }
    let header = h264_ebsp_to_rbsp(slice_subrange(nal_payload, 2, nal_payload.len()));
    assert(nal_payload@.subrange(2, nal_payload@.len() as int) =~= nal_payload@.skip(2));
    if header.len() == 0 {
        None
    } else {
        Some(header[0] & 0x80 != 0)
    }
}

/// Whether a NAL unit begins an access unit, given whether one is open and whether it
/// holds slice data already.
fn starts_new_unit(
    family: VideoFamily,
    nal_type: u8,
    payload: &[u8],
    open: bool,
    has_vcl: bool,
) -> (b: bool)
    ensures
        b == if is_delimiter(family, nal_type) {
            open
        } else if is_vcl(family, nal_type) {
            has_vcl && is_first_slice(family, payload@)
        } else {
            has_vcl && is_leading(family, nal_type)
        },
{
    match family {
        VideoFamily::H264 => {
            if nal_type == 9 {
                open
            } else if is_h264_vcl_nal(nal_type) {
                has_vcl && match h264_first_mb_in_slice(payload) {
                    Some(mb) => mb == 0,
                    None => false,
                }
            } else {
                false
            }
        },
        VideoFamily::H265 => {
            if nal_type == 35 {
                open
            } else if is_h265_vcl_nal(nal_type) {
                has_vcl && match h265_first_slice_segment_in_pic(payload) {
                    Some(first) => first,
                    None => false,
                }
            } else {
                has_vcl && is_h265_pre_vcl_boundary_nal(nal_type)
            }
        },
    }
}

fn family_vcl(family: VideoFamily, nal_type: u8) -> (b: bool)
    ensures
        b == is_vcl(family, nal_type),
{
    match family {
        VideoFamily::H264 => is_h264_vcl_nal(nal_type),
        VideoFamily::H265 => is_h265_vcl_nal(nal_type),
    }
}

fn family_random_access(family: VideoFamily, nal_type: u8) -> (b: bool)
    ensures
        b == is_random_access(family, nal_type),
{
    match family {
        VideoFamily::H264 => nal_type == 5,
        VideoFamily::H265 => is_h265_irap_nal(nal_type),
    }
}

/// The heads of access units rise, from the first NAL unit on.
pub open spec fn heads_rise(heads: Seq<int>, k: int) -> bool {
    &&& k > 0 ==> heads.len() > 0 && heads[0] == 0
    &&& forall|i: int| #![trigger heads[i]] 0 <= i < heads.len() ==> 0 <= heads[i] < k
    &&& forall|i: int, j: int|
        #![trigger heads[i], heads[j]]
        0 <= i < j < heads.len() ==> heads[i] < heads[j]
}

/// The heads of access units rise.
pub proof fn lemma_heads_rise(family: VideoFamily, input: Seq<u8>, nals: Seq<NalSpan>, k: nat)
    ensures
        heads_rise(unit_heads(family, input, nals, k), k as int),
    decreases k,
{
    if k > 0 {
        lemma_heads_rise(family, input, nals, (k - 1) as nat);
    }
}

fn annex_b_access_units(family: VideoFamily, input: &[u8]) -> (outcome: Result<
    Vec<VideoAccessUnit>,
    MediaError,
>)
    ensures
        split_stream(family, input@) == match outcome {
            Ok(units) => Ok::<Seq<AccessUnit>, MediaFault>(unit_views(units@)),
            Err(error) => Err(error@),
        },
{
    let nal_units = match annex_b_nal_units(input, family) {
        Ok(nal_units) => nal_units,
        Err(error) => {
            return Err(error);
        },
    };
    let ghost nals = stream_nals(family, input@);
    let mut access_units: Vec<VideoAccessUnit> = Vec::new();
    let mut current_start: Option<usize> = None;
    let mut current_end: usize = 0;
    let mut current_has_vcl: bool = false;
    let mut current_keyframe: bool = false;
    proof {
        lemma_stream_nals_apart(family, input@);
    }
    let mut k: usize = 0;
    while k < nal_units.len()
        invariant
            k <= nal_units@.len(),
            nals == stream_nals(family, input@),
            are_nals(family, input@, nals, nal_units@),
            spans_apart(family, input@, nals),
            k == 0 ==> current_start is None && !current_has_vcl && !current_keyframe
                && access_units@.len() == 0,
            k > 0 ==> {
                let heads = unit_heads(family, input@, nals, k as nat);
                &&& heads.len() == access_units@.len() + 1
                &&& current_start matches Some(start) && start == nals[heads.last()].start
                &&& current_end == nals[k - 1].end
                &&& current_has_vcl == has_vcl(family, input@, nals, heads.last(), k as int)
                &&& current_keyframe == has_random_access(
                    family,
                    input@,
                    nals,
                    heads.last(),
                    k as int,
                )
                &&& forall|j: int|
                    0 <= j < access_units@.len() ==> (#[trigger] access_units@[j])@ == unit_of(
                        family,
                        input@,
                        nals,
                        heads[j],
                        heads[j + 1],
                    )
            },
        decreases nal_units@.len() - k,
    {
        let nal = nal_units[k];
        let ghost before = unit_heads(family, input@, nals, k as nat);
        let ghost heads = unit_heads(family, input@, nals, (k + 1) as nat);
        let ghost closed = access_units@;
        proof {
            lemma_heads_rise(family, input@, nals, k as nat);
            lemma_heads_rise(family, input@, nals, (k + 1) as nat);
            assert(nals[k as int].start == nal.start);
            assert(nal.nal_type == span_type(family, input@, nals[k as int]));
        }
        let payload = slice_subrange(input, nal.payload_start, nal.end);
        let starts_new = starts_new_unit(
            family,
            nal.nal_type,
            payload,
            current_start.is_some(),
            current_has_vcl,
        );
        if starts_new {
            if let Some(start) = current_start {
                assert(nals[before.last()].start <= nals[k - 1].end) by {
                    if before.last() < k - 1 {
                        assert(nals[before.last()].end <= nals[k - 1].start);
                    }
                }
                assert(nals[k - 1].end <= input@.len());
                assert(0 <= nals[before.last()].start);
                access_units.push(
                    VideoAccessUnit {
                        bytes: slice_to_vec(slice_subrange(input, start, current_end)),
                        keyframe: current_keyframe,
                    },
                );
                assert(heads =~= before.push(k as int));
            }
            current_start = None;
            current_has_vcl = false;
            current_keyframe = false;
        }
        let ghost fresh = current_start is None;
        if current_start.is_none() {
            current_start = Some(nal.start);
            assert(!has_vcl(family, input@, nals, k as int, k as int));
        }
        current_end = nal.end;
        let ghost head = heads.last();
        assert(fresh ==> head == k);
        assert(!fresh ==> heads =~= before);
        assert(has_vcl(family, input@, nals, head, k + 1) == (has_vcl(
            family,
            input@,
            nals,
            head,
            k as int,
        ) || is_vcl(family, nal.nal_type))) by {
            if is_vcl(family, nal.nal_type) {
                assert(is_vcl(family, span_type(family, input@, nals[k as int])));
            }
        }
        assert(has_random_access(family, input@, nals, head, k + 1) == (has_random_access(
            family,
            input@,
            nals,
            head,
            k as int,
        ) || is_random_access(family, nal.nal_type))) by {
            if is_random_access(family, nal.nal_type) {
                assert(is_random_access(family, span_type(family, input@, nals[k as int])));
            }
        }
        if family_vcl(family, nal.nal_type) {
            current_has_vcl = true;
        }
        if family_random_access(family, nal.nal_type) {
            current_keyframe = true;
        }
        assert forall|j: int| 0 <= j < access_units@.len() implies (
        #[trigger] access_units@[j])@ == unit_of(
            family,
            input@,
            nals,
            heads[j],
            heads[j + 1],
        ) by {
            if j < closed.len() {
                assert(access_units@[j] == closed[j]);
            }
        }
        k = k + 1;
    }
    let ghost heads = unit_heads(family, input@, nals, nals.len());
    proof {
        lemma_heads_rise(family, input@, nals, nals.len());
        assert(nals[heads.last()].start <= nals[nals.len() - 1].end) by {
            if heads.last() < nals.len() - 1 {
                assert(nals[heads.last()].end <= nals[nals.len() - 1].start);
            }
        }
        assert(nals[nals.len() - 1].end <= input@.len());
        assert(0 <= nals[heads.last()].start);
    }
    let ghost closed = access_units@;
    if let Some(start) = current_start {
        access_units.push(
            VideoAccessUnit {
                bytes: slice_to_vec(slice_subrange(input, start, current_end)),
                keyframe: current_keyframe,
            },
        );
    }
    proof {
        let units = stream_units(family, input@);
        assert forall|j: int| 0 <= j < units.len() implies #[trigger] units[j]
            == access_units@[j]@ by {
            if j < closed.len() {
                assert(access_units@[j] == closed[j]);
            }
        }
        assert(units =~= unit_views(access_units@));
    }
    Ok(access_units)
}

/// Splits an H.264 Annex B stream into access units.
pub fn h264_annex_b_access_units(input: &[u8]) -> (outcome: Result<
    Vec<VideoAccessUnit>,
    MediaError,
>)
    ensures
        split_stream(VideoFamily::H264, input@) == match outcome {
            Ok(units) => Ok::<Seq<AccessUnit>, MediaFault>(unit_views(units@)),
            Err(error) => Err(error@),
        },
        outcome matches Ok(units) ==> forall|j: int|
            0 <= j < units@.len() ==> ((#[trigger] units@[j]).keyframe <==> exists|h: int|
                {
                    &&& 3 <= h < units@[j].bytes@.len()
                    &&& units@[j].bytes@[h - 3] == 0
                    &&& units@[j].bytes@[h - 2] == 0
                    &&& units@[j].bytes@[h - 1] == 1
                    &&& #[trigger] units@[j].bytes@[h] & 0x1f == 5
                }),
        outcome is Ok <==> exists|h: int| #[trigger] pictures::h264_header_at(input@, h),
{
    let outcome = annex_b_access_units(VideoFamily::H264, input);
    proof {
        pictures::law_what_splits(input@);
        if outcome is Ok {
            let units = outcome->Ok_0;
            assert forall|j: int| 0 <= j < units@.len() implies ((
            #[trigger] units@[j]).keyframe <==> exists|h: int|
                {
                    &&& 3 <= h < units@[j].bytes@.len()
                    &&& units@[j].bytes@[h - 3] == 0
                    &&& units@[j].bytes@[h - 2] == 0
                    &&& units@[j].bytes@[h - 1] == 1
                    &&& #[trigger] units@[j].bytes@[h] & 0x1f == 5
                }) by {
                pictures::law_h264_keyframes(input@, j);
                assert(unit_views(units@)[j] == units@[j]@);
                assert(split_stream(VideoFamily::H264, input@)->Ok_0[j].bytes == units@[j].bytes@);
            }
        }
    }
    outcome
}

/// Splits an H.265 Annex B stream into access units.
pub fn h265_annex_b_access_units(input: &[u8]) -> (outcome: Result<
    Vec<VideoAccessUnit>,
    MediaError,
>)
    ensures
        split_stream(VideoFamily::H265, input@) == match outcome {
            Ok(units) => Ok::<Seq<AccessUnit>, MediaFault>(unit_views(units@)),
            Err(error) => Err(error@),
        },
        outcome matches Ok(units) ==> forall|j: int|
            0 <= j < units@.len() ==> ((#[trigger] units@[j]).keyframe <==> exists|h: int|
                {
                    &&& 3 <= h && h + 1 < units@[j].bytes@.len()
                    &&& units@[j].bytes@[h - 3] == 0
                    &&& units@[j].bytes@[h - 2] == 0
                    &&& units@[j].bytes@[h - 1] == 1
                    &&& !pictures::code_at(units@[j].bytes@, h + 1)
                    &&& 16 <= (#[trigger] units@[j].bytes@[h] >> 1) & 0x3f <= 21
                }),
        outcome is Ok <==> exists|h: int| #[trigger] pictures::h265_header_at(input@, h),
{
    let outcome = annex_b_access_units(VideoFamily::H265, input);
    proof {
        pictures::law_what_splits(input@);
        if outcome is Ok {
            let units = outcome->Ok_0;
            assert forall|j: int| 0 <= j < units@.len() implies ((
            #[trigger] units@[j]).keyframe <==> exists|h: int|
                {
                    &&& 3 <= h && h + 1 < units@[j].bytes@.len()
                    &&& units@[j].bytes@[h - 3] == 0
                    &&& units@[j].bytes@[h - 2] == 0
                    &&& units@[j].bytes@[h - 1] == 1
                    &&& !pictures::code_at(units@[j].bytes@, h + 1)
                    &&& 16 <= (#[trigger] units@[j].bytes@[h] >> 1) & 0x3f <= 21
                }) by {
                pictures::law_h265_keyframes(input@, j);
                assert(unit_views(units@)[j] == units@[j]@);
                assert(split_stream(VideoFamily::H265, input@)->Ok_0[j].bytes == units@[j].bytes@);
            }
        }
    }
    outcome
}

/// Splits an Annex B stream of the codec that `codec` names into access units.
pub fn video_annex_b_access_units(codec: &str, input: &[u8]) -> (outcome: Result<
    Vec<VideoAccessUnit>,
    MediaError,
>)
    ensures
        split_named(codec@, input@) == match outcome {
            Ok(units) => Ok::<Seq<AccessUnit>, MediaFault>(unit_views(units@)),
            Err(error) => Err(error@),
        },
{
    match normalized_video_codec(codec) {
        Some(VideoCodec::H264) => h264_annex_b_access_units(input),
        Some(VideoCodec::H265) => h265_annex_b_access_units(input),
        Some(VideoCodec::Av1) => Err(MediaError::Refused(Refusal::Av1IsNotAnnexB)),
        None => Err(MediaError::UnsupportedCodec(codec.to_owned())),
    }
}

// References between access units

/// The `nal_ref_idc` field of an H.264 NAL header.
pub open spec fn ref_idc(payload: Seq<u8>) -> u8 {
    if payload.len() == 0 {
        0
    } else {
        (payload[0] >> 5) & 0x03
    }
}

/// Whether some slice of an H.264 stream may be referred to by other pictures.
pub open spec fn has_reference_slice(input: Seq<u8>) -> bool {
    let nals = stream_nals(VideoFamily::H264, input);
    exists|i: int|
        0 <= i < nals.len() && is_vcl(
            VideoFamily::H264,
            span_type(VideoFamily::H264, input, #[trigger] nals[i]),
        ) && ref_idc(span_payload(input, nals[i])) > 0
}

/// Whether an access unit is taken to refer to the frame before it: a keyframe does
/// not, nor does an H.264 unit all of whose slices are disposable.
pub open spec fn refers_back(codec: Seq<char>, unit: AccessUnit) -> bool {
    !unit.keyframe && (codec::named_codec(codec) == Some(VideoCodec::H264) && split_stream(
        VideoFamily::H264,
        unit.bytes,
    ) is Ok ==> has_reference_slice(unit.bytes))
}

/// Reads the `nal_ref_idc` field of an H.264 NAL header.
pub fn h264_nal_ref_idc(payload: &[u8]) -> (idc: u8)
    ensures
        idc == ref_idc(payload@),
        payload@.len() > 0 ==> idc == (payload@[0] >> 5) & 0x03,
        payload@.len() == 0 ==> idc == 0,
{
    if payload.len() == 0 {
        0
    } else {
        (payload[0] >> 5) & 0x03
    }
}

/// Whether some slice of an H.264 access unit may be referred to by other pictures.
pub fn h264_access_unit_has_reference_vcl(input: &[u8]) -> (outcome: Result<bool, MediaError>)
    ensures
        match outcome {
            Ok(b) => {
                &&& split_stream(VideoFamily::H264, input@) is Ok
                &&& b == has_reference_slice(input@)
            },
            Err(error) => split_stream(VideoFamily::H264, input@) == Err::<
                Seq<AccessUnit>,
                MediaFault,
            >(error@),
        },
{
    let nal_units = match annex_b_nal_units(input, VideoFamily::H264) {
        Ok(nal_units) => nal_units,
        Err(error) => {
            return Err(error);
        },
    };
    let ghost nals = stream_nals(VideoFamily::H264, input@);
    proof {
        lemma_stream_nals_apart(VideoFamily::H264, input@);
    }
    let mut k: usize = 0;
    while k < nal_units.len()
        invariant
            k <= nal_units@.len(),
            nals == stream_nals(VideoFamily::H264, input@),
            are_nals(VideoFamily::H264, input@, nals, nal_units@),
            spans_apart(VideoFamily::H264, input@, nals),
            split_stream(VideoFamily::H264, input@) is Ok,
            forall|i: int|
                0 <= i < k ==> !(is_vcl(
                    VideoFamily::H264,
                    span_type(VideoFamily::H264, input@, #[trigger] nals[i]),
                ) && ref_idc(span_payload(input@, nals[i])) > 0),
        decreases nal_units@.len() - k,
    {
        let nal = nal_units[k];
        assert(nals[k as int].start == nal.start);
        let payload = slice_subrange(input, nal.payload_start, nal.end);
        if is_h264_vcl_nal(nal.nal_type) && h264_nal_ref_idc(payload) > 0 {
            return Ok(true);
        }
        k = k + 1;
    }
    Ok(false)
}

/// Whether an access unit is taken to refer to the frame before it.
pub fn access_unit_references_previous_frame(codec: &str, access_unit: &VideoAccessUnit) -> (b:
    bool)
    ensures
        b == refers_back(codec@, access_unit@),
{
    if access_unit.keyframe {
        return false;
    }
    match normalized_video_codec(codec) {
        Some(VideoCodec::H264) => match h264_access_unit_has_reference_vcl(
            access_unit.bytes.as_slice(),
        ) {
            Ok(b) => b,
            Err(_) => true,
        },
        _ => true,
    }
}

// Laws

/// The bytes of the first `n` units, one behind the other.
pub open spec fn joined(units: Seq<AccessUnit>, n: nat) -> Seq<u8>
    decreases n,
{
    if n == 0 {
        Seq::empty()
    } else {
        joined(units, (n - 1) as nat) + units[n - 1].bytes
    }
}

/// Where in the stream access unit `j` begins.
pub open spec fn unit_begin(family: VideoFamily, input: Seq<u8>, j: int) -> int {
    let nals = stream_nals(family, input);
    nals[unit_heads(family, input, nals, nals.len())[j]].start
}

/// Where in the stream access unit `j` ends.
pub open spec fn unit_end(family: VideoFamily, input: Seq<u8>, j: int) -> int {
    let nals = stream_nals(family, input);
    let heads = unit_heads(family, input, nals, nals.len());
    nals[unit_stop(heads, nals.len() as int, j) - 1].end
}

/// Splitting gives at least one access unit. Each is a stretch of the stream that begins
/// with a start code, and they follow one another without overlap.
pub proof fn law_units_are_disjoint_stretches(family: VideoFamily, input: Seq<u8>)
    requires
        split_stream(family, input) is Ok,
    ensures
        stream_units(family, input).len() > 0,
        forall|j: int|
            #![trigger stream_units(family, input)[j]]
            0 <= j < stream_units(family, input).len() ==> {
                let unit = stream_units(family, input)[j];
                &&& 0 <= unit_begin(family, input, j) < unit_end(family, input, j) <= input.len()
                &&& unit.bytes == input.subrange(
                    unit_begin(family, input, j),
                    unit_end(family, input, j),
                )
                &&& start_code_len(unit.bytes, 0) > 0
            },
        forall|i: int, j: int|
            0 <= i < j < stream_units(family, input).len() ==> #[trigger] unit_end(
                family,
                input,
                i,
            ) <= #[trigger] unit_begin(family, input, j),
{
    let nals = stream_nals(family, input);
    let heads = unit_heads(family, input, nals, nals.len());
    lemma_stream_nals_apart(family, input);
    lemma_heads_rise(family, input, nals, nals.len());
    let units = stream_units(family, input);
    assert forall|j: int| #![trigger units[j]] 0 <= j < units.len() implies {
        let unit = units[j];
        &&& 0 <= unit_begin(family, input, j) < unit_end(family, input, j) <= input.len()
        &&& unit.bytes == input.subrange(unit_begin(family, input, j), unit_end(family, input, j))
        &&& start_code_len(unit.bytes, 0) > 0
    } by {
        let a = heads[j];
        let b = unit_stop(heads, nals.len() as int, j) - 1;
        if j + 1 < heads.len() {
            assert(heads[j] < heads[j + 1]);
        }
        assert(nals[a].payload_start < nals[a].end);
        if a < b {
            assert(nals[a].end <= nals[b].start);
            assert(nals[b].start < nals[b].end);
        }
        let unit = units[j];
        assert(unit.bytes.len() > start_code_len(input, nals[a].start));
        assert(nals[b].end <= input.len());
        assert(unit.bytes[0] == input[nals[a].start]);
        assert(unit.bytes[1] == input[nals[a].start + 1]);
        assert(unit.bytes[2] == input[nals[a].start + 2]);
        if start_code_len(input, nals[a].start) == 4 {
            assert(unit.bytes[3] == input[nals[a].start + 3]);
        }
    }
    assert forall|i: int, j: int| 0 <= i < j < units.len() implies #[trigger] unit_end(
        family,
        input,
        i,
    ) <= #[trigger] unit_begin(family, input, j) by {
        let b = unit_stop(heads, nals.len() as int, i) - 1;
        assert(heads[i] < heads[i + 1]);
        if i + 1 < j {
            assert(heads[i + 1] < heads[j]);
        }
        assert(nals[b].end <= nals[heads[j]].start);
    }
}

/// The first `n` access units together are no longer than what they were taken from.
pub proof fn lemma_joined_len(family: VideoFamily, input: Seq<u8>, n: nat)
    requires
        split_stream(family, input) is Ok,
        n <= stream_units(family, input).len(),
    ensures
        joined(stream_units(family, input), n).len() <= if n == 0 {
            0
        } else {
            unit_end(family, input, n - 1)
        },
        joined(stream_units(family, input), n).len() <= input.len(),
    decreases n,
{
    if n > 0 {
        lemma_joined_len(family, input, (n - 1) as nat);
        law_units_are_disjoint_stretches(family, input);
        let units = stream_units(family, input);
        assert(units[n - 1].bytes.len() == unit_end(family, input, n - 1) - unit_begin(
            family,
            input,
            n - 1,
        ));
        if n > 1 {
            assert(unit_end(family, input, n - 2) <= unit_begin(family, input, n - 1));
        }
    }
}

/// Lists of access units that begin alike join alike.
pub proof fn lemma_joined_of_prefix(units: Seq<AccessUnit>, more: Seq<AccessUnit>, n: nat)
    requires
        n <= units.len() <= more.len(),
        forall|i: int| 0 <= i < units.len() ==> #[trigger] units[i] == more[i],
    ensures
        joined(units, n) == joined(more, n),
    decreases n,
{
    if n > 0 {
        lemma_joined_of_prefix(units, more, (n - 1) as nat);
        assert(units[n - 1] == more[n - 1]);
    }
}

/// Where no start code lacks its NAL unit, the NAL units are those behind the start codes.
pub proof fn lemma_all_kept(family: VideoFamily, input: Seq<u8>, codes: Seq<int>, k: nat)
    requires
        nal_spans(family, input, codes, k).len() == k,
    ensures
        forall|i: int|
            0 <= i < k ==> #[trigger] nal_spans(family, input, codes, k)[i] == span_at(
                input,
                codes,
                i,
            ),
    decreases k,
{
    if k > 0 {
        lemma_kept_bound(family, input, codes, (k - 1) as nat);
        lemma_all_kept(family, input, codes, (k - 1) as nat);
    }
}

/// There are no more NAL units than start codes.
pub proof fn lemma_kept_bound(family: VideoFamily, input: Seq<u8>, codes: Seq<int>, k: nat)
    ensures
        nal_spans(family, input, codes, k).len() <= k,
    decreases k,
{
    if k > 0 {
        lemma_kept_bound(family, input, codes, (k - 1) as nat);
    }
}

/// Where no start code lacks its NAL unit, the first access units join to the stream up to
/// the end of the last of them.
pub proof fn lemma_joined_prefix(family: VideoFamily, input: Seq<u8>, n: nat)
    requires
        split_stream(family, input) is Ok,
        stream_nals(family, input).len() == start_codes(input, 0).len(),
        0 < n <= stream_units(family, input).len(),
    ensures
        joined(stream_units(family, input), n) == input.subrange(
            start_codes(input, 0)[0],
            unit_end(family, input, n - 1),
        ),
    decreases n,
{
    let codes = start_codes(input, 0);
    let nals = stream_nals(family, input);
    let heads = unit_heads(family, input, nals, nals.len());
    let units = stream_units(family, input);
    law_units_are_disjoint_stretches(family, input);
    lemma_all_kept(family, input, codes, codes.len());
    lemma_heads_rise(family, input, nals, nals.len());
    assert(units[n - 1].bytes == input.subrange(
        unit_begin(family, input, n - 1),
        unit_end(family, input, n - 1),
    ));
    assert(nals[0] == span_at(input, codes, 0));
    assert(unit_begin(family, input, 0) == codes[0]);
    if n == 1 {
        assert(joined(units, 0) =~= Seq::<u8>::empty());
        assert(joined(units, 1) =~= units[0].bytes);
    } else {
        lemma_joined_prefix(family, input, (n - 1) as nat);
        let b = heads[n - 1];
        assert(heads[n - 2] < b);
        assert(nals[b - 1] == span_at(input, codes, b - 1));
        assert(nals[b] == span_at(input, codes, b));
        assert(unit_end(family, input, n - 2) == unit_begin(family, input, n - 1));
        assert(codes[0] <= unit_end(family, input, n - 2)) by {
            assert(units[n - 2].bytes.len() > 0);
            if n > 2 {
                assert(unit_end(family, input, 0) <= unit_begin(family, input, n - 2));
                assert(units[0].bytes.len() > 0);
            }
        }
        let middle = unit_end(family, input, n - 2);
        let end = unit_end(family, input, n - 1);
        assert(units[0].bytes.len() > 0);
        assert(0 <= codes[0] <= middle <= end <= input.len());
        assert(joined(units, n) == input.subrange(codes[0], middle) + input.subrange(middle, end));
        assert(joined(units, n) =~= input.subrange(codes[0], end));
    }
}

/// Where every start code is followed by a NAL unit with a complete header, splitting
/// loses nothing: the access units, one behind the other, are the stream from its first
/// start code on.
pub proof fn law_units_join_to_the_stream(family: VideoFamily, input: Seq<u8>)
    requires
        split_stream(family, input) is Ok,
        stream_nals(family, input).len() == start_codes(input, 0).len(),
    ensures
        joined(stream_units(family, input), stream_units(family, input).len()) == input.skip(
            start_codes(input, 0)[0],
        ),
{
    let codes = start_codes(input, 0);
    let units = stream_units(family, input);
    let n = units.len();
    law_units_are_disjoint_stretches(family, input);
    lemma_joined_prefix(family, input, n);
    lemma_all_kept(family, input, codes, codes.len());
    let nals = stream_nals(family, input);
    assert(nals[nals.len() - 1] == span_at(input, codes, codes.len() - 1));
    lemma_codes_apart(input, 0);
    assert(0 <= codes[0] <= input.len());
    assert(input.subrange(codes[0], input.len() as int) =~= input.skip(codes[0]));
}

/// The view of an access unit shows its bytes and whether it is a keyframe, and the view of
/// a list shows what it lists, in order.
pub proof fn law_units_show_their_fields(units: Seq<VideoAccessUnit>)
    ensures
        unit_views(units).len() == units.len(),
        forall|j: int|
            #![trigger unit_views(units)[j]]
            #![trigger units[j]]
            0 <= j < units.len() ==> {
                &&& unit_views(units)[j].bytes == units[j].bytes@
                &&& unit_views(units)[j].keyframe == units[j].keyframe
            },
{
}

} // verus!
