//! What the bytes of a stream say of its access units: where they begin and end, and which
//! are keyframes.

use vstd::prelude::*;

use crate::annexb;
use crate::annexb::{AccessUnit, NalSpan};
use crate::codec;
use crate::codec::{VideoCodec, VideoFamily};
use crate::error::{MediaFault, Refusal};
use crate::splitting;
use crate::video;
use crate::video::FrameOptions;

verus! {

// NAL headers

/// Whether the bytes at `q` are a start code: two or three zeros and a one.
pub open spec fn code_at(bytes: Seq<u8>, q: int) -> bool {
    ||| 0 <= q && q + 2 < bytes.len() && bytes[q] == 0 && bytes[q + 1] == 0 && bytes[q + 2] == 1
    ||| 0 <= q && q + 3 < bytes.len() && bytes[q] == 0 && bytes[q + 1] == 0 && bytes[q + 2] == 0
        && bytes[q + 3] == 1
}

/// Whether an H.264 NAL header stands at `h`: one byte, behind a start code and not itself
/// the beginning of one.
pub open spec fn h264_header_at(bytes: Seq<u8>, h: int) -> bool {
    &&& 3 <= h < bytes.len()
    &&& bytes[h - 3] == 0 && bytes[h - 2] == 0 && bytes[h - 1] == 1
    &&& !code_at(bytes, h)
}

/// Whether an H.265 NAL header stands at `h`: two bytes, behind a start code and neither of
/// them the beginning of one.
pub open spec fn h265_header_at(bytes: Seq<u8>, h: int) -> bool {
    &&& 3 <= h && h + 1 < bytes.len()
    &&& bytes[h - 3] == 0 && bytes[h - 2] == 0 && bytes[h - 1] == 1
    &&& !code_at(bytes, h)
    &&& !code_at(bytes, h + 1)
}

spec fn header_at(family: VideoFamily, bytes: Seq<u8>, h: int) -> bool {
    match family {
        VideoFamily::H264 => h264_header_at(bytes, h),
        VideoFamily::H265 => h265_header_at(bytes, h),
    }
}

spec fn kind_at(family: VideoFamily, bytes: Seq<u8>, h: int) -> u8 {
    match family {
        VideoFamily::H264 => bytes[h] & 0x1f,
        VideoFamily::H265 => (bytes[h] >> 1) & 0x3f,
    }
}

proof fn lemma_codes_alike(bytes: Seq<u8>, q: int)
    ensures
        code_at(bytes, q) <==> annexb::start_code_len(bytes, q) > 0,
{
}

/// Every start code is found: the bytes 0, 0, 1 at `p` are the end of one.
proof fn lemma_every_code(input: Seq<u8>, from: int, p: int) -> (k: int)
    requires
        0 <= from <= p,
        p + 3 <= input.len(),
        input[p] == 0 && input[p + 1] == 0 && input[p + 2] == 1,
    ensures
        0 <= k < annexb::start_codes(input, from).len(),
        annexb::start_codes(input, from)[k] + annexb::start_code_len(
            input,
            annexb::start_codes(input, from)[k],
        ) == p + 3,
    decreases input.len() - from,
{
    let width = annexb::start_code_len(input, from);
    let codes = annexb::start_codes(input, from);
    if width > 0 {
        let rest = annexb::start_codes(input, from + width);
        assert(codes =~= seq![from] + rest);
        if from + width == p + 3 {
            0
        } else {
            assert(from + width <= p);
            let k = lemma_every_code(input, from + width, p);
            assert(codes[k + 1] == rest[k]);
            k + 1
        }
    } else {
        assert(from != p);
        lemma_every_code(input, from + 1, p)
    }
}

/// The first start code from `from` on is the first place that looks like one.
proof fn lemma_first_code(input: Seq<u8>, from: int)
    requires
        0 <= from,
    ensures
        ({
            let codes = annexb::start_codes(input, from);
            &&& forall|q: int|
                from <= q && (codes.len() > 0 ==> q < codes[0]) ==> !#[trigger] code_at(input, q)
            &&& codes.len() > 0 ==> from <= codes[0] && code_at(input, codes[0])
        }),
    decreases input.len() - from,
{
    let codes = annexb::start_codes(input, from);
    if from + 3 <= input.len() {
        let width = annexb::start_code_len(input, from);
        lemma_codes_alike(input, from);
        if width > 0 {
            assert(codes[0] == from);
        } else {
            lemma_first_code(input, from + 1);
            assert forall|q: int|
                from <= q && (codes.len() > 0 ==> q < codes[0]) implies !#[trigger] code_at(
                input,
                q,
            ) by {
                if q > from {
                    assert(from + 1 <= q);
                }
            }
        }
    }
}

/// Behind start code `k` the start codes go on as if they were looked for from there.
proof fn lemma_codes_go_on(input: Seq<u8>, from: int, k: int)
    requires
        0 <= from,
        0 <= k < annexb::start_codes(input, from).len(),
    ensures
        ({
            let codes = annexb::start_codes(input, from);
            codes.skip(k + 1) == annexb::start_codes(
                input,
                codes[k] + annexb::start_code_len(input, codes[k]),
            )
        }),
    decreases input.len() - from,
{
    let codes = annexb::start_codes(input, from);
    let width = annexb::start_code_len(input, from);
    if width > 0 {
        let rest = annexb::start_codes(input, from + width);
        assert(codes =~= seq![from] + rest);
        if k == 0 {
            assert(codes.skip(1) =~= rest);
        } else {
            lemma_codes_go_on(input, from + width, k - 1);
            assert(codes[k] == rest[k - 1]);
            assert(codes.skip(k + 1) =~= rest.skip(k));
        }
    } else {
        lemma_codes_go_on(input, from + 1, k);
    }
}

spec fn is_kept(family: VideoFamily, input: Seq<u8>, codes: Seq<int>, c: int) -> bool {
    let span = annexb::span_at(input, codes, c);
    span.payload_start < span.end && annexb::nal_type(
        family,
        annexb::span_payload(input, span),
    ) is Some
}

/// A start code has a NAL unit behind it exactly where a header stands there.
proof fn lemma_kept_where_headed(family: VideoFamily, input: Seq<u8>, c: int)
    requires
        0 <= c < annexb::start_codes(input, 0).len(),
    ensures
        ({
            let codes = annexb::start_codes(input, 0);
            let span = annexb::span_at(input, codes, c);
            let h = span.payload_start;
            &&& is_kept(family, input, codes, c) <==> header_at(family, input, h)
            &&& is_kept(family, input, codes, c) ==> kind_at(family, input, h)
                == annexb::span_type(family, input, span)
            &&& h <= span.end <= input.len()
            &&& span.end < input.len() ==> code_at(input, span.end)
            &&& forall|q: int| h <= q < span.end ==> !#[trigger] code_at(input, q)
        }),
{
    let codes = annexb::start_codes(input, 0);
    let span = annexb::span_at(input, codes, c);
    let h = span.payload_start;
    annexb::lemma_codes_apart(input, 0);
    assert(codes[c] + annexb::start_code_len(input, codes[c]) <= input.len());
    lemma_codes_go_on(input, 0, c);
    let rest = annexb::start_codes(input, h);
    lemma_first_code(input, h);
    if c + 1 < codes.len() {
        assert(rest[0] == codes[c + 1]);
        assert(codes[c + 1] + annexb::start_code_len(input, codes[c + 1]) <= input.len());
        assert(code_at(input, span.end));
    } else {
        assert(rest.len() == 0);
        assert(span.end == input.len());
    }
    let width = annexb::start_code_len(input, codes[c]);
    assert(input[h - 3] == 0 && input[h - 2] == 0 && input[h - 1] == 1);
    let payload = annexb::span_payload(input, span);
    if h < span.end {
        assert(payload[0] == input[h]);
    }
    assert forall|q: int| h <= q < span.end implies !#[trigger] code_at(input, q) by {}
    if is_kept(family, input, codes, c) {
        assert(!code_at(input, h));
        if family == VideoFamily::H265 {
            assert(!code_at(input, h + 1));
        }
    }
    if header_at(family, input, h) {
        assert(h < span.end) by {
            if span.end == h {
                assert(code_at(input, h) || h == input.len());
            }
        }
        if family == VideoFamily::H265 {
            assert(h + 1 < span.end) by {
                if span.end == h + 1 {
                    assert(code_at(input, h + 1) || h + 1 == input.len());
                }
            }
        }
    }
}

proof fn lemma_spans_of_codes(
    family: VideoFamily,
    input: Seq<u8>,
    codes: Seq<int>,
    n: nat,
)
    ensures
        ({
            let spans = annexb::nal_spans(family, input, codes, n);
            &&& forall|i: int|
                0 <= i < spans.len() ==> exists|c: int|
                    0 <= c < n && is_kept(family, input, codes, c) && #[trigger] spans[i]
                        == #[trigger] annexb::span_at(input, codes, c)
            &&& forall|c: int|
                0 <= c < n && #[trigger] is_kept(family, input, codes, c) ==> spans.contains(
                    annexb::span_at(input, codes, c),
                )
        }),
    decreases n,
{
    if n > 0 {
        lemma_spans_of_codes(family, input, codes, (n - 1) as nat);
        let before = annexb::nal_spans(family, input, codes, (n - 1) as nat);
        let spans = annexb::nal_spans(family, input, codes, n);
        assert forall|i: int| 0 <= i < spans.len() implies exists|c: int|
            0 <= c < n && is_kept(family, input, codes, c) && #[trigger] spans[i]
                == #[trigger] annexb::span_at(input, codes, c) by {
            if i < before.len() {
                assert(spans[i] == before[i]);
                let c = choose|c: int|
                    0 <= c < n - 1 && is_kept(family, input, codes, c) && before[i]
                        == #[trigger] annexb::span_at(input, codes, c);
                assert(spans[i] == annexb::span_at(input, codes, c));
            } else {
                assert(is_kept(family, input, codes, n - 1));
                assert(spans[i] == annexb::span_at(input, codes, n - 1));
            }
        }
        assert forall|c: int| 0 <= c < n && #[trigger] is_kept(
            family,
            input,
            codes,
            c,
        ) implies spans.contains(annexb::span_at(input, codes, c)) by {
            if c < n - 1 {
                let i = choose|i: int|
                    0 <= i < before.len() && before[i] == annexb::span_at(input, codes, c);
                assert(spans[i] == before[i]);
            } else {
                assert(spans.last() == annexb::span_at(input, codes, c));
            }
        }
    }
}

/// What stands behind a NAL unit: the next start code, or nothing.
spec fn ends_well(input: Seq<u8>, span: NalSpan) -> bool {
    &&& span.end < input.len() ==> code_at(input, span.end)
    &&& forall|q: int| span.payload_start <= q < span.end ==> !#[trigger] code_at(input, q)
}

/// The NAL units of a stream stand exactly where the headers do.
proof fn lemma_nals_are_headers(family: VideoFamily, input: Seq<u8>)
    ensures
        ({
            let nals = annexb::stream_nals(family, input);
            &&& forall|k: int|
                0 <= k < nals.len() ==> {
                    &&& header_at(family, input, (#[trigger] nals[k]).payload_start)
                    &&& kind_at(family, input, nals[k].payload_start) == annexb::span_type(
                        family,
                        input,
                        nals[k],
                    )
                    &&& ends_well(input, nals[k])
                }
            &&& forall|h: int| #[trigger]
                header_at(family, input, h) ==> exists|k: int|
                    0 <= k < nals.len() && (#[trigger] nals[k]).payload_start == h
        }),
{
    let codes = annexb::start_codes(input, 0);
    let nals = annexb::stream_nals(family, input);
    lemma_spans_of_codes(family, input, codes, codes.len());
    assert forall|k: int| 0 <= k < nals.len() implies {
        &&& header_at(family, input, (#[trigger] nals[k]).payload_start)
        &&& kind_at(family, input, nals[k].payload_start) == annexb::span_type(
            family,
            input,
            nals[k],
        )
        &&& ends_well(input, nals[k])
    } by {
        let c = choose|c: int|
            0 <= c < codes.len() && is_kept(family, input, codes, c) && nals[k]
                == #[trigger] annexb::span_at(input, codes, c);
        lemma_kept_where_headed(family, input, c);
    }
    assert forall|h: int| #[trigger] header_at(family, input, h) implies exists|k: int|
        0 <= k < nals.len() && (#[trigger] nals[k]).payload_start == h by {
        let c = lemma_every_code(input, 0, h - 3);
        lemma_kept_where_headed(family, input, c);
        assert(annexb::span_at(input, codes, c).payload_start == h);
        assert(is_kept(family, input, codes, c));
        let k = choose|k: int|
            0 <= k < nals.len() && nals[k] == annexb::span_at(input, codes, c);
        assert(nals[k].payload_start == h);
    }
}

// Access units

/// Where the bytes of access unit `j` stand, and which NAL units they hold.
spec fn unit_range(family: VideoFamily, input: Seq<u8>, j: int) -> (int, int) {
    let nals = annexb::stream_nals(family, input);
    let heads = annexb::unit_heads(family, input, nals, nals.len());
    (heads[j], annexb::unit_stop(heads, nals.len() as int, j))
}

/// The headers in the bytes of an access unit are those of its NAL units.
proof fn lemma_unit_headers(family: VideoFamily, input: Seq<u8>, j: int)
    requires
        0 <= j < annexb::stream_units(family, input).len(),
    ensures
        ({
            let nals = annexb::stream_nals(family, input);
            let (a, b) = unit_range(family, input, j);
            let bytes = annexb::stream_units(family, input)[j].bytes;
            let s = nals[a].start;
            &&& 0 <= a < b <= nals.len()
            &&& bytes == input.subrange(s, nals[b - 1].end)
            &&& forall|k: int|
                a <= k < b ==> {
                    &&& header_at(family, bytes, (#[trigger] nals[k]).payload_start - s)
                    &&& kind_at(family, bytes, nals[k].payload_start - s) == annexb::span_type(
                        family,
                        input,
                        nals[k],
                    )
                }
            &&& forall|h: int| #[trigger]
                header_at(family, bytes, h) ==> exists|k: int|
                    a <= k < b && (#[trigger] nals[k]).payload_start == s + h
        }),
{
    let nals = annexb::stream_nals(family, input);
    let heads = annexb::unit_heads(family, input, nals, nals.len());
    let (a, b) = unit_range(family, input, j);
    let bytes = annexb::stream_units(family, input)[j].bytes;
    annexb::lemma_heads_rise(family, input, nals, nals.len());
    annexb::lemma_stream_nals_apart(family, input);
    if j + 1 < heads.len() {
        assert(heads[j] < heads[j + 1]);
    }
    let s = nals[a].start;
    let e = nals[b - 1].end;
    assert(0 <= s);
    assert(e <= input.len());
    assert(bytes == input.subrange(s, e));
    lemma_nals_are_headers(family, input);
    assert forall|k: int| a <= k < b implies {
        &&& header_at(family, bytes, (#[trigger] nals[k]).payload_start - s)
        &&& kind_at(family, bytes, nals[k].payload_start - s) == annexb::span_type(
            family,
            input,
            nals[k],
        )
    } by {
        let h = nals[k].payload_start;
        if a < k {
            assert(nals[a].end <= nals[k].start);
        }
        if k < b - 1 {
            assert(nals[k].end <= nals[b - 1].start);
        }
        assert(s <= nals[k].start && nals[k].end <= e);
        assert(h - 3 >= s);
        assert(header_at(family, input, h));
        assert(annexb::span_payload(input, nals[k]).len() >= annexb::nal_header_len(family));
        assert(bytes[h - s - 3] == input[h - 3]);
        assert(bytes[h - s - 2] == input[h - 2]);
        assert(bytes[h - s - 1] == input[h - 1]);
        assert(bytes[h - s] == input[h]);
        if code_at(bytes, h - s) {
            lemma_codes_of_part(input, s, e, h);
        }
        if family == VideoFamily::H265 && code_at(bytes, h + 1 - s) {
            lemma_codes_of_part(input, s, e, h + 1);
        }
    }
    assert forall|h: int| #[trigger] header_at(family, bytes, h) implies exists|k: int|
        a <= k < b && (#[trigger] nals[k]).payload_start == s + h by {
        lemma_header_of_part(family, input, s, e, h, b - 1);
        let k = choose|k: int| 0 <= k < nals.len() && (#[trigger] nals[k]).payload_start == s + h;
        if k < a {
            assert(nals[k].end <= nals[a].start);
        }
        if k >= b {
            assert(nals[b - 1].end <= nals[k].start);
        }
        assert(a <= k < b);
    }
}

/// A start code in a part of a stream is one of the stream.
proof fn lemma_codes_of_part(input: Seq<u8>, s: int, e: int, q: int)
    requires
        0 <= s <= q,
        s <= e <= input.len(),
        code_at(input.subrange(s, e), q - s),
    ensures
        code_at(input, q),
{
    let part = input.subrange(s, e);
    assert(part[q - s] == input[q]);
    assert(part[q - s + 1] == input[q + 1]);
    assert(part[q - s + 2] == input[q + 2]);
    if q - s + 3 < part.len() {
        assert(part[q - s + 3] == input[q + 3]);
    }
}

/// A header in a part of a stream that ends with a NAL unit is one of the stream.
proof fn lemma_header_of_part(
    family: VideoFamily,
    input: Seq<u8>,
    s: int,
    e: int,
    h: int,
    last: int,
)
    requires
        0 <= s <= e <= input.len(),
        0 <= last < annexb::stream_nals(family, input).len(),
        e == annexb::stream_nals(family, input)[last].end,
        header_at(family, input.subrange(s, e), h),
    ensures
        header_at(family, input, s + h),
{
    let part = input.subrange(s, e);
    let nals = annexb::stream_nals(family, input);
    annexb::lemma_stream_nals_apart(family, input);
    lemma_nals_are_headers(family, input);
    let place = s + h;
    assert(part[h - 3] == input[place - 3]);
    assert(part[h - 2] == input[place - 2]);
    assert(part[h - 1] == input[place - 1]);
    assert(ends_well(input, nals[last]));
    assert(nals[last].payload_start < e);
    if code_at(input, place) {
        lemma_no_code_cut(family, input, s, e, place, last);
    }
    if family == VideoFamily::H265 && code_at(input, place + 1) {
        lemma_no_code_cut(family, input, s, e, place + 1, last);
    }
}

/// No start code of a stream reaches over the end of a NAL unit.
proof fn lemma_no_code_cut(
    family: VideoFamily,
    input: Seq<u8>,
    s: int,
    e: int,
    q: int,
    last: int,
)
    requires
        0 <= s <= q < e <= input.len(),
        0 <= last < annexb::stream_nals(family, input).len(),
        e == annexb::stream_nals(family, input)[last].end,
        code_at(input, q),
    ensures
        code_at(input.subrange(s, e), q - s),
{
    let part = input.subrange(s, e);
    let nals = annexb::stream_nals(family, input);
    annexb::lemma_stream_nals_apart(family, input);
    lemma_nals_are_headers(family, input);
    let h = nals[last].payload_start;
    assert(ends_well(input, nals[last]));
    assert(header_at(family, input, h));
    if q >= h {
        assert(!code_at(input, q));
    } else {
        assert(q + 2 < e && (q + 3 < e || input[q + 2] == 1)) by {
            assert(input[h - 1] == 1);
        }
    }
    assert(part[q - s] == input[q]);
    assert(part[q - s + 1] == input[q + 1]);
    assert(part[q - s + 2] == input[q + 2]);
    if q + 3 < e {
        assert(part[q - s + 3] == input[q + 3]);
    }
}

// Keyframes

proof fn lemma_keyframes(family: VideoFamily, input: Seq<u8>, j: int)
    requires
        0 <= j < annexb::stream_units(family, input).len(),
    ensures
        ({
            let unit = annexb::stream_units(family, input)[j];
            unit.keyframe <==> exists|h: int| #[trigger]
                header_at(family, unit.bytes, h) && annexb::is_random_access(
                    family,
                    kind_at(family, unit.bytes, h),
                )
        }),
{
    let nals = annexb::stream_nals(family, input);
    let (a, b) = unit_range(family, input, j);
    let unit = annexb::stream_units(family, input)[j];
    let s = nals[a].start;
    lemma_unit_headers(family, input, j);
    if unit.keyframe {
        let k = choose|k: int|
            a <= k < b && annexb::is_random_access(
                family,
                annexb::span_type(family, input, #[trigger] nals[k]),
            );
        assert(header_at(family, unit.bytes, nals[k].payload_start - s));
    }
    if exists|h: int| #[trigger]
        header_at(family, unit.bytes, h) && annexb::is_random_access(
            family,
            kind_at(family, unit.bytes, h),
        ) {
        let h = choose|h: int| #[trigger]
            header_at(family, unit.bytes, h) && annexb::is_random_access(
                family,
                kind_at(family, unit.bytes, h),
            );
        let k = choose|k: int| a <= k < b && (#[trigger] nals[k]).payload_start == s + h;
        assert(nals[k].payload_start - s == h);
        assert(annexb::is_random_access(family, annexb::span_type(family, input, nals[k])));
    }
}

/// An H.264 access unit is a keyframe exactly where one of its NAL units is of type 5: where
/// the bytes 0, 0, 1 are followed by a byte whose low five bits are 5.
pub proof fn law_h264_keyframes(input: Seq<u8>, j: int)
    requires
        annexb::split_stream(VideoFamily::H264, input) is Ok,
        0 <= j < annexb::split_stream(VideoFamily::H264, input)->Ok_0.len(),
    ensures
        ({
            let unit = annexb::split_stream(VideoFamily::H264, input)->Ok_0[j];
            let bytes = unit.bytes;
            unit.keyframe <==> exists|h: int|
                {
                    &&& 3 <= h < bytes.len()
                    &&& bytes[h - 3] == 0 && bytes[h - 2] == 0 && bytes[h - 1] == 1
                    &&& #[trigger] bytes[h] & 0x1f == 5
                }
        }),
{
    let unit = annexb::split_stream(VideoFamily::H264, input)->Ok_0[j];
    let bytes = unit.bytes;
    lemma_keyframes(VideoFamily::H264, input, j);
    if unit.keyframe {
        let h = choose|h: int| #[trigger]
            header_at(VideoFamily::H264, bytes, h) && annexb::is_random_access(
                VideoFamily::H264,
                kind_at(VideoFamily::H264, bytes, h),
            );
        assert(bytes[h] & 0x1f == 5);
    }
    if exists|h: int|
        {
            &&& 3 <= h < bytes.len()
            &&& bytes[h - 3] == 0 && bytes[h - 2] == 0 && bytes[h - 1] == 1
            &&& #[trigger] bytes[h] & 0x1f == 5
        } {
        let h = choose|h: int|
            {
                &&& 3 <= h < bytes.len()
                &&& bytes[h - 3] == 0 && bytes[h - 2] == 0 && bytes[h - 1] == 1
                &&& #[trigger] bytes[h] & 0x1f == 5
            };
        assert(0u8 & 0x1f != 5) by (bit_vector);
        assert(!code_at(bytes, h));
        assert(header_at(VideoFamily::H264, bytes, h));
    }
}

/// An H.265 access unit is a keyframe exactly where one of its NAL units has a type from 16
/// to 21: where the bytes 0, 0, 1 are followed by a header of two bytes, bits 1 to 6 of the
/// first of which are one of these.
pub proof fn law_h265_keyframes(input: Seq<u8>, j: int)
    requires
        annexb::split_stream(VideoFamily::H265, input) is Ok,
        0 <= j < annexb::split_stream(VideoFamily::H265, input)->Ok_0.len(),
    ensures
        ({
            let unit = annexb::split_stream(VideoFamily::H265, input)->Ok_0[j];
            let bytes = unit.bytes;
            unit.keyframe <==> exists|h: int|
                {
                    &&& 3 <= h && h + 1 < bytes.len()
                    &&& bytes[h - 3] == 0 && bytes[h - 2] == 0 && bytes[h - 1] == 1
                    &&& !code_at(bytes, h + 1)
                    &&& 16 <= (#[trigger] bytes[h] >> 1) & 0x3f <= 21
                }
        }),
{
    let unit = annexb::split_stream(VideoFamily::H265, input)->Ok_0[j];
    let bytes = unit.bytes;
    lemma_keyframes(VideoFamily::H265, input, j);
    if unit.keyframe {
        let h = choose|h: int| #[trigger]
            header_at(VideoFamily::H265, bytes, h) && annexb::is_random_access(
                VideoFamily::H265,
                kind_at(VideoFamily::H265, bytes, h),
            );
        assert(16 <= (bytes[h] >> 1) & 0x3f <= 21);
    }
    if exists|h: int|
        {
            &&& 3 <= h && h + 1 < bytes.len()
            &&& bytes[h - 3] == 0 && bytes[h - 2] == 0 && bytes[h - 1] == 1
            &&& !code_at(bytes, h + 1)
            &&& 16 <= (#[trigger] bytes[h] >> 1) & 0x3f <= 21
        } {
        let h = choose|h: int|
            {
                &&& 3 <= h && h + 1 < bytes.len()
                &&& bytes[h - 3] == 0 && bytes[h - 2] == 0 && bytes[h - 1] == 1
                &&& !code_at(bytes, h + 1)
                &&& 16 <= (#[trigger] bytes[h] >> 1) & 0x3f <= 21
            };
        assert((0u8 >> 1) & 0x3f < 16) by (bit_vector);
        assert(!code_at(bytes, h));
        assert(header_at(VideoFamily::H265, bytes, h));
    }
}

// Where access units begin

proof fn lemma_heads_open(family: VideoFamily, input: Seq<u8>, nals: Seq<NalSpan>, n: nat)
    ensures
        ({
            let heads = annexb::unit_heads(family, input, nals, n);
            &&& forall|j: int|
                0 < j < heads.len() ==> annexb::opens_unit(
                    family,
                    input,
                    nals,
                    heads[j - 1],
                    #[trigger] heads[j],
                )
            &&& forall|j: int, k: int|
                0 <= j < heads.len() && heads[j] < k < annexb::unit_stop(heads, n as int, j)
                    ==> !#[trigger] annexb::opens_unit(family, input, nals, heads[j], k)
        }),
    decreases n,
{
    if n > 0 {
        lemma_heads_open(family, input, nals, (n - 1) as nat);
        annexb::lemma_heads_rise(family, input, nals, (n - 1) as nat);
        let before = annexb::unit_heads(family, input, nals, (n - 1) as nat);
        let heads = annexb::unit_heads(family, input, nals, n);
        assert forall|j: int, k: int|
            0 <= j < heads.len() && heads[j] < k < annexb::unit_stop(
                heads,
                n as int,
                j,
            ) implies !#[trigger] annexb::opens_unit(family, input, nals, heads[j], k) by {
            if j < before.len() {
                assert(heads[j] == before[j]);
                if j + 1 < before.len() {
                    assert(heads[j + 1] == before[j + 1]);
                }
                if k < annexb::unit_stop(before, n - 1, j) {
                    assert(!annexb::opens_unit(family, input, nals, before[j], k));
                }
            }
        }
        assert forall|j: int| 0 < j < heads.len() implies annexb::opens_unit(
            family,
            input,
            nals,
            heads[j - 1],
            #[trigger] heads[j],
        ) by {
            if j < before.len() {
                assert(heads[j] == before[j]);
                assert(heads[j - 1] == before[j - 1]);
            }
        }
    }
}

spec fn slice_bit(family: VideoFamily, bytes: Seq<u8>, h: int) -> bool {
    match family {
        VideoFamily::H264 => h + 1 < bytes.len() && bytes[h + 1] & 0x80 != 0,
        VideoFamily::H265 => h + 2 < bytes.len() && bytes[h + 2] & 0x80 != 0,
    }
}

proof fn lemma_slice_bit(family: VideoFamily, input: Seq<u8>, s: int, e: int, span: NalSpan)
    requires
        0 <= s <= span.payload_start <= span.end <= e <= input.len(),
        span.payload_start + annexb::nal_header_len(family) <= span.end,
        span.end < input.len() ==> input[span.end] == 0,
    ensures
        annexb::is_first_slice(family, annexb::span_payload(input, span)) <==> slice_bit(
            family,
            input.subrange(s, e),
            span.payload_start - s,
        ),
{
    let payload = annexb::span_payload(input, span);
    let bytes = input.subrange(s, e);
    let h = span.payload_start;
    let width = annexb::nal_header_len(family);
    splitting::law_first_slices_begin_with_a_one_bit(family, payload);
    let first = annexb::is_first_slice(family, payload);
    assert(first <==> payload.len() > width && payload[width] & 0x80 != 0);
    if h + width < e {
        assert(bytes[h - s + width] == input[h + width]);
        if h + width < span.end {
            assert(payload[width] == input[h + width]);
        } else {
            assert(input[h + width] == 0);
            assert(0u8 & 0x80 == 0) by (bit_vector);
        }
    }
}

/// Whether a slice is the first of its picture is told by the bit behind its header.
proof fn lemma_slice_bits(family: VideoFamily, input: Seq<u8>, j: int, k: int)
    requires
        0 <= j < annexb::stream_units(family, input).len(),
        unit_range(family, input, j).0 <= k < unit_range(family, input, j).1,
    ensures
        ({
            let nals = annexb::stream_nals(family, input);
            let s = nals[unit_range(family, input, j).0].start;
            annexb::is_first_slice(family, annexb::span_payload(input, nals[k])) <==> slice_bit(
                family,
                annexb::stream_units(family, input)[j].bytes,
                nals[k].payload_start - s,
            )
        }),
{
    let nals = annexb::stream_nals(family, input);
    let (a, b) = unit_range(family, input, j);
    lemma_unit_headers(family, input, j);
    annexb::lemma_stream_nals_apart(family, input);
    lemma_nals_are_headers(family, input);
    let s = nals[a].start;
    let e = nals[b - 1].end;
    if a < k {
        assert(nals[a].end <= nals[k].start);
    }
    if k < b - 1 {
        assert(nals[k].end <= nals[b - 1].start);
    }
    assert(nals[k].payload_start < nals[k].end <= e <= input.len());
    assert(annexb::span_payload(input, nals[k]).len() == nals[k].end - nals[k].payload_start);
    assert(annexb::nal_type(family, annexb::span_payload(input, nals[k])) is Some);
    assert(ends_well(input, nals[k]));
    lemma_slice_bit(family, input, s, e, nals[k]);
}

/// The first header of an access unit stands behind its first start code.
proof fn lemma_first_header(family: VideoFamily, input: Seq<u8>, j: int)
    requires
        0 <= j < annexb::stream_units(family, input).len(),
    ensures
        ({
            let nals = annexb::stream_nals(family, input);
            let a = unit_range(family, input, j).0;
            let bytes = annexb::stream_units(family, input)[j].bytes;
            nals[a].payload_start - nals[a].start == if bytes[2] == 1 {
                3int
            } else {
                4int
            }
        }),
{
    let nals = annexb::stream_nals(family, input);
    let a = unit_range(family, input, j).0;
    lemma_unit_headers(family, input, j);
    annexb::lemma_stream_nals_apart(family, input);
    let s = nals[a].start;
    let bytes = annexb::stream_units(family, input)[j].bytes;
    assert(nals[a].payload_start == s + annexb::start_code_len(input, s));
    assert(header_at(family, bytes, nals[a].payload_start - s));
    assert(bytes[2] == input[s + 2]);
}

proof fn lemma_inside(family: VideoFamily, input: Seq<u8>, j: int, g: int, h: int)
    requires
        0 <= j < annexb::stream_units(family, input).len(),
        g < h,
        header_at(family, annexb::stream_units(family, input)[j].bytes, g),
        header_at(family, annexb::stream_units(family, input)[j].bytes, h),
    ensures
        ({
            let bytes = annexb::stream_units(family, input)[j].bytes;
            let kind = kind_at(family, bytes, h);
            &&& !annexb::is_delimiter(family, kind)
            &&& annexb::is_vcl(family, kind_at(family, bytes, g)) ==> {
                &&& !(annexb::is_vcl(family, kind) && slice_bit(family, bytes, h))
                &&& !annexb::is_vcl(family, kind) ==> !annexb::is_leading(family, kind)
            }
        }),
{
    let nals = annexb::stream_nals(family, input);
    let heads = annexb::unit_heads(family, input, nals, nals.len());
    let (a, b) = unit_range(family, input, j);
    let s = nals[a].start;
    lemma_unit_headers(family, input, j);
    annexb::lemma_stream_nals_apart(family, input);
    let k = choose|k: int| a <= k < b && (#[trigger] nals[k]).payload_start == s + g;
    let l = choose|l: int| a <= l < b && (#[trigger] nals[l]).payload_start == s + h;
    assert(k < l) by {
        if l < k {
            assert(nals[l].end <= nals[k].start);
            assert(nals[l].payload_start < nals[l].end);
            assert(nals[k].start < nals[k].payload_start);
        }
    }
    lemma_heads_open(family, input, nals, nals.len());
    assert(!annexb::opens_unit(family, input, nals, heads[j], l));
    lemma_slice_bits(family, input, j, l);
    assert(nals[l].payload_start - s == h);
    assert(nals[k].payload_start - s == g);
    let bytes = annexb::stream_units(family, input)[j].bytes;
    if annexb::is_vcl(family, kind_at(family, bytes, g)) {
        assert(annexb::is_vcl(family, annexb::span_type(family, input, nals[k])));
        assert(annexb::has_vcl(family, input, nals, a, l));
    }
}

proof fn lemma_begin(family: VideoFamily, input: Seq<u8>, j: int)
    requires
        0 <= j < annexb::stream_units(family, input).len(),
    ensures
        ({
            let units = annexb::stream_units(family, input);
            let bytes = units[j].bytes;
            let before = units[j - 1].bytes;
            let h: int = if bytes[2] == 1 {
                3
            } else {
                4
            };
            let kind = kind_at(family, bytes, h);
            &&& header_at(family, bytes, h)
            &&& j > 0 && !annexb::is_delimiter(family, kind) ==> {
                &&& exists|g: int| #[trigger]
                    header_at(family, before, g) && annexb::is_vcl(
                        family,
                        kind_at(family, before, g),
                    )
                &&& if annexb::is_vcl(family, kind) {
                    slice_bit(family, bytes, h)
                } else {
                    annexb::is_leading(family, kind)
                }
            }
        }),
{
    let units = annexb::stream_units(family, input);
    let nals = annexb::stream_nals(family, input);
    let heads = annexb::unit_heads(family, input, nals, nals.len());
    let (a, b) = unit_range(family, input, j);
    let s = nals[a].start;
    lemma_unit_headers(family, input, j);
    lemma_first_header(family, input, j);
    assert(header_at(family, units[j].bytes, nals[a].payload_start - s));
    lemma_slice_bits(family, input, j, a);
    if j > 0 {
        lemma_heads_open(family, input, nals, nals.len());
        assert(annexb::opens_unit(family, input, nals, heads[j - 1], heads[j]));
        let kind = annexb::span_type(family, input, nals[a]);
        if !annexb::is_delimiter(family, kind) {
            lemma_unit_headers(family, input, j - 1);
            let (c, d) = unit_range(family, input, j - 1);
            let k = choose|k: int|
                c <= k < a && annexb::is_vcl(
                    family,
                    annexb::span_type(family, input, #[trigger] nals[k]),
                );
            assert(d == a);
            let before = units[j - 1].bytes;
            assert(header_at(family, before, nals[k].payload_start - nals[c].start));
        }
    }
}

/// Inside an H.264 access unit nothing begins another one: of two NAL units of it the later
/// one is no delimiter (type 9), and where the earlier one is slice data (types 1 to 5) the
/// later one is no slice whose first bit behind the header is set.
pub proof fn law_h264_units_hold_one_picture(input: Seq<u8>, j: int, g: int, h: int)
    requires
        annexb::split_stream(VideoFamily::H264, input) is Ok,
        0 <= j < annexb::split_stream(VideoFamily::H264, input)->Ok_0.len(),
        g < h,
        h264_header_at(annexb::split_stream(VideoFamily::H264, input)->Ok_0[j].bytes, g),
        h264_header_at(annexb::split_stream(VideoFamily::H264, input)->Ok_0[j].bytes, h),
    ensures
        ({
            let bytes = annexb::split_stream(VideoFamily::H264, input)->Ok_0[j].bytes;
            &&& bytes[h] & 0x1f != 9
            &&& 1 <= bytes[g] & 0x1f <= 5 && 1 <= bytes[h] & 0x1f <= 5 && h + 1 < bytes.len() ==> bytes[h + 1] & 0x80
                == 0
        }),
{
    lemma_inside(VideoFamily::H264, input, j, g, h);
}

/// An H.264 access unit begins with a NAL unit; and where it is not the first one, for one
/// of two reasons: that NAL unit is a delimiter (type 9), or it is slice data (types 1 to 5)
/// whose first bit behind the header is set, and the access unit before has slice data.
pub proof fn law_h264_units_begin_with_a_picture(input: Seq<u8>, j: int)
    requires
        annexb::split_stream(VideoFamily::H264, input) is Ok,
        0 <= j < annexb::split_stream(VideoFamily::H264, input)->Ok_0.len(),
    ensures
        ({
            let units = annexb::split_stream(VideoFamily::H264, input)->Ok_0;
            let bytes = units[j].bytes;
            let before = units[j - 1].bytes;
            let h: int = if bytes[2] == 1 {
                3
            } else {
                4
            };
            &&& h264_header_at(bytes, h)
            &&& code_at(bytes, 0)
            &&& j > 0 ==> {
                ||| bytes[h] & 0x1f == 9
                ||| {
                    &&& exists|g: int| #[trigger] h264_header_at(before, g) && 1 <= before[g] & 0x1f <= 5
                    &&& {
                        ||| 1 <= bytes[h] & 0x1f <= 5 && h + 1 < bytes.len() && bytes[h + 1] & 0x80 != 0
                    }
                }
            }
        }),
{
    let units = annexb::split_stream(VideoFamily::H264, input)->Ok_0;
    let bytes = units[j].bytes;
    let h: int = if bytes[2] == 1 {
        3
    } else {
        4
    };
    annexb::law_units_are_disjoint_stretches(VideoFamily::H264, input);
    lemma_begin(VideoFamily::H264, input, j);
    lemma_codes_alike(bytes, 0);
    if j > 0 && bytes[h] & 0x1f != 9 {
        let before = units[j - 1].bytes;
        let g = choose|g: int| #[trigger]
            header_at(VideoFamily::H264, before, g) && annexb::is_vcl(VideoFamily::H264, kind_at(VideoFamily::H264, before, g));
        assert(h264_header_at(before, g) && 1 <= before[g] & 0x1f <= 5);
    }
}

/// Inside an H.265 access unit nothing begins another one: of two NAL units of it the later
/// one is no delimiter (type 35), and where the earlier one is slice data (types 0 to 31) the
/// later one is neither a slice whose first bit behind the header is set nor a parameter set
/// or SEI (types 32 to 34, 39 and 40).
pub proof fn law_h265_units_hold_one_picture(input: Seq<u8>, j: int, g: int, h: int)
    requires
        annexb::split_stream(VideoFamily::H265, input) is Ok,
        0 <= j < annexb::split_stream(VideoFamily::H265, input)->Ok_0.len(),
        g < h,
        h265_header_at(annexb::split_stream(VideoFamily::H265, input)->Ok_0[j].bytes, g),
        h265_header_at(annexb::split_stream(VideoFamily::H265, input)->Ok_0[j].bytes, h),
    ensures
        ({
            let bytes = annexb::split_stream(VideoFamily::H265, input)->Ok_0[j].bytes;
            &&& (bytes[h] >> 1) & 0x3f != 35
            &&& (bytes[g] >> 1) & 0x3f <= 31 && (bytes[h] >> 1) & 0x3f <= 31 && h + 2 < bytes.len() ==> bytes[h + 2] & 0x80
                == 0
            &&& (bytes[g] >> 1) & 0x3f <= 31 ==> !(32 <= (bytes[h] >> 1) & 0x3f <= 34 || (bytes[h] >> 1) & 0x3f == 39 || (bytes[h] >> 1) & 0x3f == 40)
        }),
{
    lemma_inside(VideoFamily::H265, input, j, g, h);
}

/// An H.265 access unit begins with a NAL unit; and where it is not the first one, for one
/// of two reasons: that NAL unit is a delimiter (type 35); or it is slice data (types 0 to
/// 31) whose first bit behind the header is set, a parameter set or SEI (types 32 to 34, 39
/// and 40), and the access unit before has slice data.
pub proof fn law_h265_units_begin_with_a_picture(input: Seq<u8>, j: int)
    requires
        annexb::split_stream(VideoFamily::H265, input) is Ok,
        0 <= j < annexb::split_stream(VideoFamily::H265, input)->Ok_0.len(),
    ensures
        ({
            let units = annexb::split_stream(VideoFamily::H265, input)->Ok_0;
            let bytes = units[j].bytes;
            let before = units[j - 1].bytes;
            let h: int = if bytes[2] == 1 {
                3
            } else {
                4
            };
            &&& h265_header_at(bytes, h)
            &&& code_at(bytes, 0)
            &&& j > 0 ==> {
                ||| (bytes[h] >> 1) & 0x3f == 35
                ||| {
                    &&& exists|g: int| #[trigger] h265_header_at(before, g) && (before[g] >> 1) & 0x3f <= 31
                    &&& {
                        ||| (bytes[h] >> 1) & 0x3f <= 31 && h + 2 < bytes.len() && bytes[h + 2] & 0x80 != 0
                        ||| 32 <= (bytes[h] >> 1) & 0x3f <= 34 || (bytes[h] >> 1) & 0x3f == 39 || (bytes[h] >> 1) & 0x3f == 40
                    }
                }
            }
        }),
{
    let units = annexb::split_stream(VideoFamily::H265, input)->Ok_0;
    let bytes = units[j].bytes;
    let h: int = if bytes[2] == 1 {
        3
    } else {
        4
    };
    annexb::law_units_are_disjoint_stretches(VideoFamily::H265, input);
    lemma_begin(VideoFamily::H265, input, j);
    lemma_codes_alike(bytes, 0);
    if j > 0 && (bytes[h] >> 1) & 0x3f != 35 {
        let before = units[j - 1].bytes;
        let g = choose|g: int| #[trigger]
            header_at(VideoFamily::H265, before, g) && annexb::is_vcl(VideoFamily::H265, kind_at(VideoFamily::H265, before, g));
        assert(h265_header_at(before, g) && (before[g] >> 1) & 0x3f <= 31);
    }
}

/// Every NAL unit of a stream is in one of its access units. An access unit ends where the
/// next start code or the stream does, and its last start code has a NAL unit behind it.
proof fn lemma_units_cover(family: VideoFamily, input: Seq<u8>)
    requires
        annexb::split_stream(family, input) is Ok,
    ensures
        ({
            let units = annexb::stream_units(family, input);
            &&& forall|h: int| #[trigger]
                header_at(family, input, h) ==> exists|j: int|
                    0 <= j < units.len() && #[trigger] annexb::unit_begin(family, input, j) + 3 <= h
                        < annexb::unit_end(family, input, j)
            &&& forall|j: int|
                0 <= j < units.len() ==> {
                    let end = #[trigger] annexb::unit_end(family, input, j);
                    end == input.len() || code_at(input, end)
                }
            &&& forall|j: int, q: int|
                0 <= j < units.len() && #[trigger] code_at(units[j].bytes, q) ==> exists|h: int|
                    q < h && #[trigger] header_at(family, units[j].bytes, h)
        }),
{
    let units = annexb::stream_units(family, input);
    let nals = annexb::stream_nals(family, input);
    let heads = annexb::unit_heads(family, input, nals, nals.len());
    annexb::lemma_stream_nals_apart(family, input);
    annexb::lemma_heads_rise(family, input, nals, nals.len());
    lemma_nals_are_headers(family, input);
    assert forall|h: int| #[trigger] header_at(family, input, h) implies exists|j: int|
        0 <= j < units.len() && #[trigger] annexb::unit_begin(family, input, j) + 3 <= h
            < annexb::unit_end(family, input, j) by {
        let k = choose|k: int| 0 <= k < nals.len() && (#[trigger] nals[k]).payload_start == h;
        let j = lemma_unit_of_nal(heads, nals.len() as int, k);
        let a = heads[j];
        let b = annexb::unit_stop(heads, nals.len() as int, j);
        if a < k {
            assert(nals[a].end <= nals[k].start);
        }
        if k < b - 1 {
            assert(nals[k].end <= nals[b - 1].start);
        }
        assert(annexb::unit_begin(family, input, j) == nals[a].start);
        assert(annexb::unit_end(family, input, j) == nals[b - 1].end);
        assert(nals[b - 1].start < nals[b - 1].end);
    }
    assert forall|j: int| 0 <= j < units.len() implies {
        let end = #[trigger] annexb::unit_end(family, input, j);
        end == input.len() || code_at(input, end)
    } by {
        lemma_unit_headers(family, input, j);
        let b = unit_range(family, input, j).1;
        assert(ends_well(input, nals[b - 1]));
        assert(nals[b - 1].end <= input.len());
    }
    assert forall|j: int, q: int|
        0 <= j < units.len() && #[trigger] code_at(units[j].bytes, q) implies exists|h: int|
        q < h && #[trigger] header_at(family, units[j].bytes, h) by {
        lemma_unit_headers(family, input, j);
        let (a, b) = unit_range(family, input, j);
        let s = nals[a].start;
        lemma_codes_of_part(input, s, nals[b - 1].end, s + q);
        assert(ends_well(input, nals[b - 1]));
        let h = nals[b - 1].payload_start - s;
        assert(q < h);
        assert(header_at(family, units[j].bytes, h));
    }
}

proof fn lemma_unit_of_nal(heads: Seq<int>, n: int, k: int) -> (j: int)
    requires
        annexb::heads_rise(heads, n),
        0 <= k < n,
    ensures
        0 <= j < heads.len(),
        heads[j] <= k < annexb::unit_stop(heads, n, j),
{
    let j = lemma_last_head(heads, k, heads.len() as int - 1);
    j
}

proof fn lemma_last_head(heads: Seq<int>, k: int, from: int) -> (j: int)
    requires
        0 <= from < heads.len(),
        heads[0] <= k,
        from + 1 < heads.len() ==> k < heads[from + 1],
    ensures
        0 <= j <= from,
        heads[j] <= k,
        j + 1 < heads.len() ==> k < heads[j + 1],
    decreases from,
{
    if heads[from] <= k {
        from
    } else {
        lemma_last_head(heads, k, from - 1)
    }
}

/// Whether access unit `j` is a stretch of the stream that ends where the stream or a start
/// code does, before the next access unit begins.
pub open spec fn stands_apart(
    family: VideoFamily,
    input: Seq<u8>,
    units: Seq<AccessUnit>,
    j: int,
) -> bool {
    let begin = annexb::unit_begin(family, input, j);
    let end = annexb::unit_end(family, input, j);
    &&& 0 <= begin < end <= input.len()
    &&& units[j].bytes == input.subrange(begin, end)
    &&& end == input.len() || code_at(input, end)
    &&& j + 1 < units.len() ==> end <= annexb::unit_begin(family, input, j + 1)
}

/// Every NAL unit of an H.264 stream is in one of its access units, which are stretches of
/// the stream, one behind the other. Each ends where the stream or the NAL unit before the
/// next start code does: behind its last start code stands a NAL unit.
pub proof fn law_h264_units_leave_no_nal_out(input: Seq<u8>)
    requires
        annexb::split_stream(VideoFamily::H264, input) is Ok,
    ensures
        ({
            let units = annexb::split_stream(VideoFamily::H264, input)->Ok_0;
            &&& units.len() > 0
            &&& forall|h: int| #[trigger]
                h264_header_at(input, h) ==> exists|j: int|
                    0 <= j < units.len() && #[trigger] annexb::unit_begin(
                        VideoFamily::H264,
                        input,
                        j,
                    ) + 3 <= h < annexb::unit_end(VideoFamily::H264, input, j)
            &&& forall|j: int|
                0 <= j < units.len() ==> #[trigger] stands_apart(
                    VideoFamily::H264,
                    input,
                    units,
                    j,
                )
            &&& forall|j: int, q: int|
                0 <= j < units.len() && #[trigger] code_at(units[j].bytes, q) ==> exists|h: int|
                    q < h && #[trigger] h264_header_at(units[j].bytes, h)
        }),
{
    let units = annexb::split_stream(VideoFamily::H264, input)->Ok_0;
    lemma_units_cover(VideoFamily::H264, input);
    annexb::law_units_are_disjoint_stretches(VideoFamily::H264, input);
    assert forall|j: int| 0 <= j < units.len() implies #[trigger] stands_apart(
        VideoFamily::H264,
        input,
        units,
        j,
    ) by {
        assert(units[j] == annexb::stream_units(VideoFamily::H264, input)[j]);
        let end = annexb::unit_end(VideoFamily::H264, input, j);
        assert(end == input.len() || code_at(input, end));
        if j + 1 < units.len() {
            assert(end <= annexb::unit_begin(VideoFamily::H264, input, j + 1));
        }
    }
    assert forall|h: int| #[trigger] h264_header_at(input, h) implies exists|j: int|
        0 <= j < units.len() && #[trigger] annexb::unit_begin(VideoFamily::H264, input, j) + 3 <= h
            < annexb::unit_end(VideoFamily::H264, input, j) by {
        assert(header_at(VideoFamily::H264, input, h));
    }
    assert forall|j: int, q: int|
        0 <= j < units.len() && #[trigger] code_at(units[j].bytes, q) implies exists|h: int|
        q < h && #[trigger] h264_header_at(units[j].bytes, h) by {
        let h = choose|h: int|
            q < h && #[trigger] header_at(VideoFamily::H264, units[j].bytes, h);
        assert(h264_header_at(units[j].bytes, h));
    }
}

/// Every NAL unit of an H.265 stream is in one of its access units, which are stretches of
/// the stream, one behind the other. Each ends where the stream or the NAL unit before the
/// next start code does: behind its last start code stands a NAL unit.
pub proof fn law_h265_units_leave_no_nal_out(input: Seq<u8>)
    requires
        annexb::split_stream(VideoFamily::H265, input) is Ok,
    ensures
        ({
            let units = annexb::split_stream(VideoFamily::H265, input)->Ok_0;
            &&& units.len() > 0
            &&& forall|h: int| #[trigger]
                h265_header_at(input, h) ==> exists|j: int|
                    0 <= j < units.len() && #[trigger] annexb::unit_begin(
                        VideoFamily::H265,
                        input,
                        j,
                    ) + 3 <= h < annexb::unit_end(VideoFamily::H265, input, j)
            &&& forall|j: int|
                0 <= j < units.len() ==> #[trigger] stands_apart(
                    VideoFamily::H265,
                    input,
                    units,
                    j,
                )
            &&& forall|j: int, q: int|
                0 <= j < units.len() && #[trigger] code_at(units[j].bytes, q) ==> exists|h: int|
                    q < h && #[trigger] h265_header_at(units[j].bytes, h)
        }),
{
    let units = annexb::split_stream(VideoFamily::H265, input)->Ok_0;
    lemma_units_cover(VideoFamily::H265, input);
    annexb::law_units_are_disjoint_stretches(VideoFamily::H265, input);
    assert forall|j: int| 0 <= j < units.len() implies #[trigger] stands_apart(
        VideoFamily::H265,
        input,
        units,
        j,
    ) by {
        assert(units[j] == annexb::stream_units(VideoFamily::H265, input)[j]);
        let end = annexb::unit_end(VideoFamily::H265, input, j);
        assert(end == input.len() || code_at(input, end));
        if j + 1 < units.len() {
            assert(end <= annexb::unit_begin(VideoFamily::H265, input, j + 1));
        }
    }
    assert forall|h: int| #[trigger] h265_header_at(input, h) implies exists|j: int|
        0 <= j < units.len() && #[trigger] annexb::unit_begin(VideoFamily::H265, input, j) + 3 <= h
            < annexb::unit_end(VideoFamily::H265, input, j) by {
        assert(header_at(VideoFamily::H265, input, h));
    }
    assert forall|j: int, q: int|
        0 <= j < units.len() && #[trigger] code_at(units[j].bytes, q) implies exists|h: int|
        q < h && #[trigger] h265_header_at(units[j].bytes, h) by {
        let h = choose|h: int|
            q < h && #[trigger] header_at(VideoFamily::H265, units[j].bytes, h);
        assert(h265_header_at(units[j].bytes, h));
    }
}

/// A stream splits exactly where a NAL header stands in it. Without one it is refused: for
/// its start codes where the bytes 0, 0, 1 are nowhere in it, else for its NAL units.
pub proof fn law_what_splits(input: Seq<u8>)
    ensures
        annexb::split_stream(VideoFamily::H264, input) is Ok <==> exists|h: int| #[trigger]
            h264_header_at(input, h),
        annexb::split_stream(VideoFamily::H265, input) is Ok <==> exists|h: int| #[trigger]
            h265_header_at(input, h),
        forall|family: VideoFamily| #[trigger]
            annexb::split_stream(family, input) is Err ==> annexb::split_stream(family, input)
                == Err::<Seq<AccessUnit>, MediaFault>(
                MediaFault::Refused(
                    if exists|p: int|
                        0 <= p && p + 2 < input.len() && #[trigger] input[p] == 0 && input[p + 1]
                            == 0 && input[p + 2] == 1 {
                        Refusal::NoNalPayloads(family)
                    } else {
                        Refusal::NoStartCodes(family)
                    },
                ),
            ),
{
    let codes = annexb::start_codes(input, 0);
    annexb::lemma_codes_apart(input, 0);
    let coded = exists|p: int|
        0 <= p && p + 2 < input.len() && #[trigger] input[p] == 0 && input[p + 1] == 0 && input[p
            + 2] == 1;
    if codes.len() > 0 {
        let at = codes[0];
        let width = annexb::start_code_len(input, at);
        let p = at + width - 3;
        assert(input[p] == 0 && input[p + 1] == 0 && input[p + 2] == 1);
    }
    if coded {
        let p = choose|p: int|
            0 <= p && p + 2 < input.len() && #[trigger] input[p] == 0 && input[p + 1] == 0
                && input[p + 2] == 1;
        let k = lemma_every_code(input, 0, p);
    }
    assert(coded <==> codes.len() > 0);
    lemma_splits(VideoFamily::H264, input);
    lemma_splits(VideoFamily::H265, input);
    if exists|h: int| #[trigger] header_at(VideoFamily::H264, input, h) {
        let h = choose|h: int| #[trigger] header_at(VideoFamily::H264, input, h);
        assert(h264_header_at(input, h));
    }
    if exists|h: int| #[trigger] h264_header_at(input, h) {
        let h = choose|h: int| #[trigger] h264_header_at(input, h);
        assert(header_at(VideoFamily::H264, input, h));
    }
    if exists|h: int| #[trigger] header_at(VideoFamily::H265, input, h) {
        let h = choose|h: int| #[trigger] header_at(VideoFamily::H265, input, h);
        assert(h265_header_at(input, h));
    }
    if exists|h: int| #[trigger] h265_header_at(input, h) {
        let h = choose|h: int| #[trigger] h265_header_at(input, h);
        assert(header_at(VideoFamily::H265, input, h));
    }
}

proof fn lemma_splits(family: VideoFamily, input: Seq<u8>)
    ensures
        annexb::split_stream(family, input) is Ok <==> exists|h: int| #[trigger]
            header_at(family, input, h),
{
    let nals = annexb::stream_nals(family, input);
    let codes = annexb::start_codes(input, 0);
    lemma_nals_are_headers(family, input);
    if nals.len() > 0 {
        assert(header_at(family, input, nals[0].payload_start));
    }
    if annexb::split_stream(family, input) is Err && codes.len() == 0 {
        assert(nals.len() == 0);
    }
}

/// The codec name says how a stream is split: H.264 and H.265 each in their own way, AV1 and
/// unknown names not at all.
pub proof fn law_the_codec_says_how_to_split(codec: Seq<char>, input: Seq<u8>)
    ensures
        annexb::split_named(codec, input) == match codec::named_codec(codec) {
            Some(VideoCodec::H264) => annexb::split_stream(VideoFamily::H264, input),
            Some(VideoCodec::H265) => annexb::split_stream(VideoFamily::H265, input),
            Some(VideoCodec::Av1) => Err::<Seq<AccessUnit>, MediaFault>(
                MediaFault::Refused(Refusal::Av1IsNotAnnexB),
            ),
            None => Err(MediaFault::UnsupportedCodec(codec)),
        },
{
}

// What frames depend on

/// Whether the bytes hold an H.264 NAL unit of slice data (types 1 to 5) that other pictures
/// may refer to: one with a bit set above its type, below the top bit.
pub open spec fn holds_reference(bytes: Seq<u8>) -> bool {
    exists|h: int| #[trigger]
        h264_header_at(bytes, h) && 1 <= bytes[h] & 0x1f <= 5 && bytes[h] & 0x60 != 0
}

/// A frame depends on the frame before it, unless it is a keyframe, the first frame of all,
/// or an H.264 access unit none of whose slices other pictures may refer to.
pub proof fn law_what_frames_depend_on(options: FrameOptions, unit: AccessUnit, i: int)
    requires
        video::packetize_frame(options, unit) is Ok,
        0 <= i < video::packetize_frame(options, unit)->Ok_0.len(),
    ensures
        ({
            let dependency = video::packetize_frame(
                options,
                unit,
            )->Ok_0[i].meta.dependency_frame_id;
            let disposable = codec::named_codec(options.codec) == Some(VideoCodec::H264) && (
            exists|h: int| #[trigger] h264_header_at(unit.bytes, h)) && !holds_reference(
                unit.bytes,
            );
            dependency == if unit.keyframe || options.frame_id == 0 || disposable {
                None::<u64>
            } else {
                Some((options.frame_id - 1) as u64)
            }
        }),
{
    let bytes = unit.bytes;
    let nals = annexb::stream_nals(VideoFamily::H264, bytes);
    lemma_nals_are_headers(VideoFamily::H264, bytes);
    annexb::lemma_stream_nals_apart(VideoFamily::H264, bytes);
    law_what_splits(bytes);
    assert(annexb::has_reference_slice(bytes) <==> holds_reference(bytes)) by {
        if annexb::has_reference_slice(bytes) {
            let k = choose|k: int| #![trigger nals[k]]
                0 <= k < nals.len() && annexb::is_vcl(
                    VideoFamily::H264,
                    annexb::span_type(VideoFamily::H264, bytes, nals[k]),
                ) && annexb::ref_idc(annexb::span_payload(bytes, nals[k])) > 0;
            let h = nals[k].payload_start;
            assert(header_at(VideoFamily::H264, bytes, h));
            assert(annexb::span_payload(bytes, nals[k])[0] == bytes[h]);
            let byte = bytes[h];
            assert((byte >> 5) & 0x03 > 0 ==> byte & 0x60 != 0) by (bit_vector);
            assert(h264_header_at(bytes, h));
        }
        if holds_reference(bytes) {
            let h = choose|h: int| #[trigger]
                h264_header_at(bytes, h) && 1 <= bytes[h] & 0x1f <= 5 && bytes[h] & 0x60 != 0;
            assert(header_at(VideoFamily::H264, bytes, h));
            let k = choose|k: int| 0 <= k < nals.len() && (#[trigger] nals[k]).payload_start == h;
            assert(annexb::span_payload(bytes, nals[k])[0] == bytes[h]);
            let byte = bytes[h];
            assert(byte & 0x60 != 0 ==> (byte >> 5) & 0x03 > 0) by (bit_vector);
            assert(annexb::ref_idc(annexb::span_payload(bytes, nals[k])) > 0);
        }
    }
}

} // verus!
