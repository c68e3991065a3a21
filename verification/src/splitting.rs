//! How splitting behaves where streams are joined or cut.

use vstd::prelude::*;

use crate::annexb;
use crate::annexb::{AccessUnit, NalSpan};
use crate::bits;
use crate::codec::VideoFamily;
use crate::error::MediaFault;

verus! {

/// Whether a stream has a start code, and behind each of them a NAL unit with a complete
/// header.
pub open spec fn is_whole(family: VideoFamily, input: Seq<u8>) -> bool {
    &&& annexb::start_codes(input, 0).len() > 0
    &&& annexb::stream_nals(family, input).len() == annexb::start_codes(input, 0).len()
}

/// `places`, each further on by `by`.
pub open spec fn moved(places: Seq<int>, by: int) -> Seq<int> {
    Seq::new(places.len(), |i: int| places[i] + by)
}

// Start codes

proof fn lemma_codes_of_tail(input: Seq<u8>, s: int, from: int)
    requires
        0 <= s <= input.len(),
        0 <= from,
    ensures
        annexb::start_codes(input, s + from) == moved(
            annexb::start_codes(input.skip(s), from),
            s,
        ),
    decreases input.len() - s - from,
{
    let tail = input.skip(s);
    let codes = annexb::start_codes(input, s + from);
    let moved_codes = moved(annexb::start_codes(tail, from), s);
    if from + 3 <= tail.len() {
        let width = annexb::start_code_len(tail, from);
        assert(width == annexb::start_code_len(input, s + from)) by {
            assert(tail[from] == input[s + from]);
            assert(tail[from + 1] == input[s + from + 1]);
            assert(tail[from + 2] == input[s + from + 2]);
            if from + 4 <= tail.len() {
                assert(tail[from + 3] == input[s + from + 3]);
            }
        }
        if width > 0 {
            lemma_codes_of_tail(input, s, from + width);
            assert(codes =~= moved_codes);
        } else {
            lemma_codes_of_tail(input, s, from + 1);
        }
    } else {
        assert(codes =~= moved_codes);
    }
}

proof fn lemma_codes_behind(input: Seq<u8>, from: int, h: int)
    requires
        0 <= from,
        0 <= h < annexb::start_codes(input, from).len(),
    ensures
        annexb::start_codes(input, annexb::start_codes(input, from)[h]) == annexb::start_codes(
            input,
            from,
        ).skip(h),
    decreases input.len() - from,
{
    let codes = annexb::start_codes(input, from);
    let width = annexb::start_code_len(input, from);
    if width > 0 {
        let rest = annexb::start_codes(input, from + width);
        if h == 0 {
            assert(codes.skip(0) =~= codes);
        } else {
            lemma_codes_behind(input, from + width, h - 1);
            assert(codes[h] == rest[h - 1]);
            assert(codes.skip(h) =~= rest.skip(h - 1));
        }
    } else {
        lemma_codes_behind(input, from + 1, h);
    }
}

/// The start codes of the first `n` bytes are the first start codes; the next one is not
/// complete within these bytes.
proof fn lemma_codes_of_head(input: Seq<u8>, n: int, from: int)
    requires
        0 <= n <= input.len(),
        0 <= from,
    ensures
        ({
            let head = annexb::start_codes(input.take(n), from);
            let codes = annexb::start_codes(input, from);
            &&& head.len() <= codes.len()
            &&& forall|i: int| 0 <= i < head.len() ==> #[trigger] head[i] == codes[i]
            &&& head.len() < codes.len() ==> codes[head.len() as int] + annexb::start_code_len(
                input,
                codes[head.len() as int],
            ) > n
        }),
    decreases input.len() - from,
{
    let first = input.take(n);
    let head = annexb::start_codes(first, from);
    let codes = annexb::start_codes(input, from);
    if from + 3 > n {
        annexb::lemma_codes_apart(input, from);
        if codes.len() > 0 {
            assert(codes[0] >= from);
        }
    } else {
        let width = annexb::start_code_len(input, from);
        assert(first[from] == input[from]);
        assert(first[from + 1] == input[from + 1]);
        assert(first[from + 2] == input[from + 2]);
        if from + 4 <= n {
            assert(first[from + 3] == input[from + 3]);
        }
        if annexb::start_code_len(first, from) > 0 {
            assert(annexb::start_code_len(first, from) == width);
            lemma_codes_of_head(input, n, from + width);
            let rest = annexb::start_codes(input, from + width);
            let head_rest = annexb::start_codes(first, from + width);
            assert(head =~= seq![from] + head_rest);
            assert(codes =~= seq![from] + rest);
            assert forall|i: int| 0 <= i < head.len() implies #[trigger] head[i] == codes[i] by {
                if i > 0 {
                    assert(head[i] == head_rest[i - 1]);
                    assert(codes[i] == rest[i - 1]);
                }
            }
            if head.len() < codes.len() {
                assert(codes[head.len() as int] == rest[head_rest.len() as int]);
            }
        } else if width > 0 {
            assert(from + 4 > n);
            assert(annexb::start_codes(first, from + 1) =~= Seq::<int>::empty());
            assert(head =~= Seq::<int>::empty());
            assert(codes[0] == from);
        } else {
            lemma_codes_of_head(input, n, from + 1);
        }
    }
}

// Heads of access units

/// Whether the NAL units `a..b` of `y`, and those `d` further on of `x`, carry the same.
pub open spec fn alike(
    x: Seq<u8>,
    x_nals: Seq<NalSpan>,
    d: int,
    y: Seq<u8>,
    y_nals: Seq<NalSpan>,
    a: int,
    b: int,
) -> bool {
    forall|t: int|
        #![trigger y_nals[t]]
        #![trigger x_nals[t + d]]
        a <= t < b ==> annexb::span_payload(x, x_nals[t + d]) == annexb::span_payload(y, y_nals[t])
}

proof fn lemma_alike_vcl(
    family: VideoFamily,
    x: Seq<u8>,
    x_nals: Seq<NalSpan>,
    d: int,
    y: Seq<u8>,
    y_nals: Seq<NalSpan>,
    a: int,
    b: int,
)
    requires
        alike(x, x_nals, d, y, y_nals, a, b),
    ensures
        annexb::has_vcl(family, x, x_nals, a + d, b + d) == annexb::has_vcl(
            family,
            y,
            y_nals,
            a,
            b,
        ),
        annexb::has_random_access(family, x, x_nals, a + d, b + d) == annexb::has_random_access(
            family,
            y,
            y_nals,
            a,
            b,
        ),
{
    assert forall|i: int| a + d <= i < b + d implies annexb::span_type(
        family,
        x,
        #[trigger] x_nals[i],
    ) == annexb::span_type(family, y, y_nals[i - d]) by {
        assert(x_nals[i] == x_nals[(i - d) + d]);
        assert(annexb::span_payload(x, x_nals[(i - d) + d]) == annexb::span_payload(
            y,
            y_nals[i - d],
        ));
    }
    assert forall|t: int| a <= t < b implies annexb::span_type(family, y, #[trigger] y_nals[t])
        == annexb::span_type(family, x, x_nals[t + d]) by {
        assert(annexb::span_payload(x, x_nals[t + d]) == annexb::span_payload(y, y_nals[t]));
    }
    if annexb::has_vcl(family, x, x_nals, a + d, b + d) {
        let i = choose|i: int|
            a + d <= i < b + d && annexb::is_vcl(
                family,
                annexb::span_type(family, x, #[trigger] x_nals[i]),
            );
        assert(annexb::is_vcl(family, annexb::span_type(family, y, y_nals[i - d])));
    }
    if annexb::has_vcl(family, y, y_nals, a, b) {
        let t = choose|t: int|
            a <= t < b && annexb::is_vcl(
                family,
                annexb::span_type(family, y, #[trigger] y_nals[t]),
            );
        assert(annexb::is_vcl(family, annexb::span_type(family, x, x_nals[t + d])));
    }
    if annexb::has_random_access(family, x, x_nals, a + d, b + d) {
        let i = choose|i: int|
            a + d <= i < b + d && annexb::is_random_access(
                family,
                annexb::span_type(family, x, #[trigger] x_nals[i]),
            );
        assert(annexb::is_random_access(family, annexb::span_type(family, y, y_nals[i - d])));
    }
    if annexb::has_random_access(family, y, y_nals, a, b) {
        let t = choose|t: int|
            a <= t < b && annexb::is_random_access(
                family,
                annexb::span_type(family, y, #[trigger] y_nals[t]),
            );
        assert(annexb::is_random_access(family, annexb::span_type(family, x, x_nals[t + d])));
    }
}

/// NAL units that carry the same begin access units alike.
proof fn lemma_heads_alike(
    family: VideoFamily,
    x: Seq<u8>,
    x_nals: Seq<NalSpan>,
    y: Seq<u8>,
    y_nals: Seq<NalSpan>,
    k: nat,
)
    requires
        alike(x, x_nals, 0, y, y_nals, 0, k as int),
    ensures
        annexb::unit_heads(family, x, x_nals, k) == annexb::unit_heads(family, y, y_nals, k),
    decreases k,
{
    if k > 0 {
        lemma_heads_alike(family, x, x_nals, y, y_nals, (k - 1) as nat);
        let before = annexb::unit_heads(family, y, y_nals, (k - 1) as nat);
        annexb::lemma_heads_rise(family, y, y_nals, (k - 1) as nat);
        if before.len() > 0 {
            lemma_alike_vcl(family, x, x_nals, 0, y, y_nals, before.last(), k - 1);
            assert(annexb::span_payload(x, x_nals[k - 1 + 0]) == annexb::span_payload(
                y,
                y_nals[k - 1],
            ));
        }
    }
}

/// From a NAL unit on that begins an access unit, the heads are those of the rest taken
/// by itself.
proof fn lemma_heads_of_rest(
    family: VideoFamily,
    x: Seq<u8>,
    x_nals: Seq<NalSpan>,
    h: nat,
    y: Seq<u8>,
    y_nals: Seq<NalSpan>,
    k: nat,
)
    requires
        k > 0,
        alike(x, x_nals, h as int, y, y_nals, 0, k as int),
        annexb::unit_heads(family, x, x_nals, h + 1) == annexb::unit_heads(
            family,
            x,
            x_nals,
            h,
        ).push(h as int),
    ensures
        annexb::unit_heads(family, x, x_nals, h + k) == annexb::unit_heads(family, x, x_nals, h)
            + moved(annexb::unit_heads(family, y, y_nals, k), h as int),
    decreases k,
{
    let first = annexb::unit_heads(family, x, x_nals, h);
    let heads = annexb::unit_heads(family, x, x_nals, h + k);
    let rest = annexb::unit_heads(family, y, y_nals, k);
    if k == 1 {
        assert(annexb::unit_heads(family, y, y_nals, 0) =~= Seq::<int>::empty());
        assert(rest =~= seq![0int]);
        assert(heads =~= first + moved(rest, h as int));
    } else {
        let j = (k - 1) as nat;
        lemma_heads_of_rest(family, x, x_nals, h, y, y_nals, j);
        annexb::lemma_heads_rise(family, y, y_nals, j);
        let before = annexb::unit_heads(family, y, y_nals, j);
        let heads_before = annexb::unit_heads(family, x, x_nals, h + j);
        assert((h + k - 1) as nat == h + j);
        assert(heads_before.last() == before.last() + h);
        lemma_alike_vcl(family, x, x_nals, h as int, y, y_nals, before.last(), j as int);
        assert(annexb::span_payload(x, x_nals[j + h as int]) == annexb::span_payload(
            y,
            y_nals[j as int],
        ));
        assert(annexb::opens_unit(family, x, x_nals, heads_before.last(), h + k - 1)
            == annexb::opens_unit(family, y, y_nals, before.last(), k - 1));
        assert(heads =~= first + moved(rest, h as int));
    }
}

proof fn lemma_heads_extend(
    family: VideoFamily,
    input: Seq<u8>,
    nals: Seq<NalSpan>,
    k: nat,
    n: nat,
)
    requires
        k <= n,
    ensures
        annexb::unit_heads(family, input, nals, k).len() <= annexb::unit_heads(
            family,
            input,
            nals,
            n,
        ).len(),
        forall|i: int|
            0 <= i < annexb::unit_heads(family, input, nals, k).len()
                ==> #[trigger] annexb::unit_heads(family, input, nals, k)[i] == annexb::unit_heads(
                family,
                input,
                nals,
                n,
            )[i],
    decreases n,
{
    if k < n {
        lemma_heads_extend(family, input, nals, k, (n - 1) as nat);
    }
}

// First slices

/// The removal of emulation-prevention bytes keeps the first byte.
proof fn lemma_rbsp_first(payload: Seq<u8>)
    requires
        payload.len() > 0,
    ensures
        bits::rbsp(payload).len() > 0,
        bits::rbsp(payload)[0] == payload[0],
    decreases payload.len(),
{
    if payload.len() == 1 {
        assert(bits::rbsp(payload.drop_last()) =~= Seq::<u8>::empty());
    } else {
        lemma_rbsp_first(payload.drop_last());
    }
}

/// A slice is the first of its picture exactly where the bit behind its NAL header is set.
pub proof fn law_first_slices_begin_with_a_one_bit(family: VideoFamily, payload: Seq<u8>)
    ensures
        annexb::is_first_slice(family, payload) <==> {
            let h = annexb::nal_header_len(family);
            payload.len() > h && payload[h] & 0x80 != 0
        },
{
    let h = annexb::nal_header_len(family);
    if payload.len() > h {
        let rest = payload.skip(h);
        lemma_rbsp_first(rest);
        assert(rest[0] == payload[h]);
        let content = bits::rbsp(rest);
        let byte = content[0];
        if family == VideoFamily::H264 {
            bits::law_zero_is_a_single_one_bit(content);
            assert(bits::bit_at(content, 0) == (byte >> 7u8) & 1);
            assert((byte >> 7u8) & 1 == 1 <==> byte & 0x80 != 0) by (bit_vector);
        }
    }
}

/// Bytes that are missing at the end of a NAL unit, or zeros that stand behind it, make no
/// first slice out of one that is none.
proof fn lemma_first_slice_survives(family: VideoFamily, part: Seq<u8>, payload: Seq<u8>)
    requires
        forall|i: int|
            0 <= i < part.len() && i < payload.len() ==> #[trigger] part[i] == payload[i],
        forall|i: int| payload.len() <= i < part.len() ==> #[trigger] part[i] == 0,
        annexb::is_first_slice(family, part),
    ensures
        annexb::is_first_slice(family, payload),
{
    law_first_slices_begin_with_a_one_bit(family, part);
    law_first_slices_begin_with_a_one_bit(family, payload);
    let h = annexb::nal_header_len(family);
    if payload.len() <= h {
        assert(part[h] == 0);
        assert(0u8 & 0x80 == 0) by (bit_vector);
    }
}

// Access units

/// The access units of two streams whose first `c` NAL units stand at the same places in
/// the same bytes agree, as far as they are made of these.
proof fn lemma_first_units(
    family: VideoFamily,
    x: Seq<u8>,
    y: Seq<u8>,
    n: int,
    c: int,
    j: int,
)
    requires
        0 <= n <= x.len(),
        n <= y.len(),
        x.take(n) == y.take(n),
        0 <= c <= annexb::stream_nals(family, x).len(),
        c <= annexb::stream_nals(family, y).len(),
        forall|i: int|
            0 <= i < c ==> {
                &&& #[trigger] annexb::stream_nals(family, x)[i] == annexb::stream_nals(
                    family,
                    y,
                )[i]
                &&& annexb::stream_nals(family, x)[i].end <= n
            },
        0 <= j <= annexb::stream_units(family, x).len(),
        j <= annexb::stream_units(family, y).len(),
        ({
            let x_nals = annexb::stream_nals(family, x);
            let y_nals = annexb::stream_nals(family, y);
            let x_heads = annexb::unit_heads(family, x, x_nals, x_nals.len());
            let y_heads = annexb::unit_heads(family, y, y_nals, y_nals.len());
            forall|i: int|
                #![trigger x_heads[i]]
                0 <= i < j ==> {
                    &&& x_heads[i] == y_heads[i]
                    &&& annexb::unit_stop(x_heads, x_nals.len() as int, i) == annexb::unit_stop(
                        y_heads,
                        y_nals.len() as int,
                        i,
                    )
                    &&& annexb::unit_stop(x_heads, x_nals.len() as int, i) <= c
                }
        }),
    ensures
        forall|i: int|
            0 <= i < j ==> #[trigger] annexb::stream_units(family, x)[i] == annexb::stream_units(
                family,
                y,
            )[i],
{
    let x_nals = annexb::stream_nals(family, x);
    let y_nals = annexb::stream_nals(family, y);
    let x_heads = annexb::unit_heads(family, x, x_nals, x_nals.len());
    let y_heads = annexb::unit_heads(family, y, y_nals, y_nals.len());
    let x_units = annexb::stream_units(family, x);
    let y_units = annexb::stream_units(family, y);
    annexb::lemma_stream_nals_apart(family, x);
    annexb::lemma_heads_rise(family, x, x_nals, x_nals.len());
    assert forall|k: int| 0 <= k < n implies #[trigger] x[k] == y[k] by {
        assert(x.take(n)[k] == x[k]);
        assert(y.take(n)[k] == y[k]);
    }
    assert forall|i: int| 0 <= i < j implies #[trigger] x_units[i] == y_units[i] by {
        let a = x_heads[i];
        let b = annexb::unit_stop(x_heads, x_nals.len() as int, i);
        if i + 1 < x_heads.len() {
            assert(x_heads[i] < x_heads[i + 1]);
        }
        assert(x_nals[a] == y_nals[a]);
        assert(x_nals[b - 1] == y_nals[b - 1]);
        assert(x_nals[a].start <= x_nals[b - 1].end) by {
            if a < b - 1 {
                assert(x_nals[a].end <= x_nals[b - 1].start);
            }
        }
        assert(0 <= x_nals[a].start);
        assert(x.subrange(x_nals[a].start, x_nals[b - 1].end) =~= y.subrange(
            x_nals[a].start,
            x_nals[b - 1].end,
        ));
        assert(alike(x, x_nals, 0, y, y_nals, a, b)) by {
            assert forall|t: int| a <= t < b implies annexb::span_payload(x, x_nals[t + 0])
                == annexb::span_payload(y, #[trigger] y_nals[t]) by {
                assert(x_nals[t] == y_nals[t]);
                assert(x_nals[t].payload_start <= x_nals[t].end);
                assert(annexb::span_payload(x, x_nals[t]) =~= annexb::span_payload(y, y_nals[t]));
            }
        }
        lemma_alike_vcl(family, x, x_nals, 0, y, y_nals, a, b);
        assert(x_units[i] == annexb::unit_of(family, x, x_nals, a, b));
        assert(y_units[i] == annexb::unit_of(family, y, y_nals, a, b));
    }
}

/// Whether the NAL units of `x` from number `h` on are those of the bytes behind byte `s`.
pub open spec fn rests(family: VideoFamily, x: Seq<u8>, s: int, h: nat) -> bool {
    let y = x.skip(s);
    let x_nals = annexb::stream_nals(family, x);
    let y_nals = annexb::stream_nals(family, y);
    &&& 0 <= s <= x.len()
    &&& y_nals.len() > 0
    &&& x_nals.len() == h + y_nals.len()
    &&& forall|t: int|
        #![trigger y_nals[t]]
        #![trigger x_nals[t + h]]
        0 <= t < y_nals.len() ==> {
            &&& x_nals[t + h].start == y_nals[t].start + s
            &&& x_nals[t + h].payload_start == y_nals[t].payload_start + s
            &&& x_nals[t + h].end == y_nals[t].end + s
        }
}

/// From an access unit's first NAL unit on, the access units are those of the bytes from
/// there on.
proof fn lemma_units_of_rest(family: VideoFamily, x: Seq<u8>, s: int, h: nat)
    requires
        rests(family, x, s, h),
        ({
            let nals = annexb::stream_nals(family, x);
            annexb::unit_heads(family, x, nals, h + 1) == annexb::unit_heads(
                family,
                x,
                nals,
                h,
            ).push(h as int)
        }),
    ensures
        ({
            let nals = annexb::stream_nals(family, x);
            let j = annexb::unit_heads(family, x, nals, h).len();
            let rest = annexb::stream_units(family, x.skip(s));
            &&& annexb::stream_units(family, x).len() == j + rest.len()
            &&& annexb::stream_units(family, x).skip(j as int) == rest
            &&& annexb::unit_heads(family, x, nals, nals.len()) == annexb::unit_heads(
                family,
                x,
                nals,
                h,
            ) + moved(
                annexb::unit_heads(
                    family,
                    x.skip(s),
                    annexb::stream_nals(family, x.skip(s)),
                    annexb::stream_nals(family, x.skip(s)).len(),
                ),
                h as int,
            )
        }),
{
    let y = x.skip(s);
    let x_nals = annexb::stream_nals(family, x);
    let y_nals = annexb::stream_nals(family, y);
    let k = y_nals.len();
    annexb::lemma_stream_nals_apart(family, y);
    annexb::lemma_heads_rise(family, y, y_nals, k);
    assert forall|t: int|
        #![trigger y_nals[t]]
        #![trigger x_nals[t + h]]
        0 <= t < k implies annexb::span_payload(x, x_nals[t + h]) == annexb::span_payload(
        y,
        y_nals[t],
    ) by {
        assert(y_nals[t].payload_start <= y_nals[t].end <= y.len());
        assert(x_nals[t + h].payload_start == y_nals[t].payload_start + s);
        assert(annexb::span_payload(x, x_nals[t + h]) =~= annexb::span_payload(y, y_nals[t]));
    }
    assert(alike(x, x_nals, h as int, y, y_nals, 0, k as int));
    lemma_heads_of_rest(family, x, x_nals, h, y, y_nals, k);
    let first = annexb::unit_heads(family, x, x_nals, h);
    let x_heads = annexb::unit_heads(family, x, x_nals, x_nals.len());
    let y_heads = annexb::unit_heads(family, y, y_nals, k);
    let j = first.len();
    let x_units = annexb::stream_units(family, x);
    let y_units = annexb::stream_units(family, y);
    assert forall|i: int| 0 <= i < y_units.len() implies #[trigger] x_units.skip(j as int)[i]
        == y_units[i] by {
        let a = y_heads[i];
        let b = annexb::unit_stop(y_heads, k as int, i);
        assert(x_heads[j + i] == a + h);
        if i + 1 < y_heads.len() {
            assert(y_heads[i] < y_heads[i + 1]);
            assert(x_heads[j + i + 1] == y_heads[i + 1] + h);
        }
        assert(annexb::unit_stop(x_heads, x_nals.len() as int, j + i) == b + h);
        assert(x_nals[a + h].start == y_nals[a].start + s);
        assert(x_nals[(b - 1) + h].end == y_nals[b - 1].end + s);
        assert(y_nals[a].start <= y_nals[b - 1].end) by {
            if a < b - 1 {
                assert(y_nals[a].end <= y_nals[b - 1].start);
            }
        }
        assert(x.subrange(x_nals[a + h].start, x_nals[(b - 1) + h].end) =~= y.subrange(
            y_nals[a].start,
            y_nals[b - 1].end,
        ));
        lemma_alike_vcl(family, x, x_nals, h as int, y, y_nals, a, b);
        assert(x_units[j + i] == annexb::unit_of(family, x, x_nals, a + h, b + h));
        assert(y_units[i] == annexb::unit_of(family, y, y_nals, a, b));
    }
    assert(x_units.skip(j as int) =~= y_units);
}

// Streams cut at a start code

proof fn lemma_rest_kept(family: VideoFamily, input: Seq<u8>, h: int, k: nat)
    requires
        is_whole(family, input),
        0 <= h < annexb::start_codes(input, 0).len(),
        k <= annexb::start_codes(input, 0).len() - h,
    ensures
        ({
            let s = annexb::start_codes(input, 0)[h];
            let rest = input.skip(s);
            let rest_codes = annexb::start_codes(rest, 0);
            &&& rest_codes.len() == annexb::start_codes(input, 0).len() - h
            &&& annexb::nal_spans(family, rest, rest_codes, k).len() == k
            &&& forall|i: int|
                #![trigger annexb::span_at(rest, rest_codes, i)]
                0 <= i < rest_codes.len() ==> {
                    let span = annexb::span_at(rest, rest_codes, i);
                    let whole = annexb::stream_nals(family, input)[i + h];
                    &&& whole.start == span.start + s
                    &&& whole.payload_start == span.payload_start + s
                    &&& whole.end == span.end + s
                }
        }),
    decreases k,
{
    let codes = annexb::start_codes(input, 0);
    let nals = annexb::stream_nals(family, input);
    let s = codes[h];
    let rest = input.skip(s);
    let rest_codes = annexb::start_codes(rest, 0);
    annexb::lemma_codes_apart(input, 0);
    annexb::lemma_all_kept(family, input, codes, codes.len());
    annexb::lemma_stream_nals_apart(family, input);
    assert(0 <= s <= input.len());
    lemma_codes_of_tail(input, s, 0);
    lemma_codes_behind(input, 0, h);
    assert(moved(rest_codes, s) == codes.skip(h));
    annexb::lemma_codes_apart(rest, 0);
    assert forall|i: int|
        #![trigger annexb::span_at(rest, rest_codes, i)]
        0 <= i < rest_codes.len() implies {
        let span = annexb::span_at(rest, rest_codes, i);
        let whole = nals[i + h];
        &&& whole.start == span.start + s
        &&& whole.payload_start == span.payload_start + s
        &&& whole.end == span.end + s
    } by {
        assert(nals[i + h] == annexb::span_at(input, codes, i + h));
        assert(moved(rest_codes, s)[i] == codes.skip(h)[i]);
        assert(codes[i + h] == rest_codes[i] + s);
        if i + 1 < rest_codes.len() {
            assert(moved(rest_codes, s)[i + 1] == codes.skip(h)[i + 1]);
        }
        let at = rest_codes[i];
        assert(annexb::start_code_len(rest, at) == annexb::start_code_len(input, at + s)) by {
            assert(at + annexb::start_code_len(rest, at) <= rest.len());
            assert(rest[at] == input[at + s]);
            assert(rest[at + 1] == input[at + s + 1]);
            assert(rest[at + 2] == input[at + s + 2]);
            if at + 4 <= rest.len() {
                assert(rest[at + 3] == input[at + s + 3]);
            }
        }
    }
    if k > 0 {
        lemma_rest_kept(family, input, h, (k - 1) as nat);
        let span = annexb::span_at(rest, rest_codes, k - 1);
        let whole = nals[k - 1 + h];
        assert(whole.payload_start == span.payload_start + s);
        assert(whole.payload_start < whole.end <= input.len());
        assert(rest_codes[k - 1] >= 0);
        assert(annexb::span_payload(rest, span) =~= annexb::span_payload(input, whole));
        assert(annexb::nal_type(family, annexb::span_payload(input, whole)) is Some);
    }
}

/// What is left of a whole stream from a start code on is whole, and holds the NAL units
/// from there on.
pub proof fn lemma_rest_is_whole(family: VideoFamily, input: Seq<u8>, h: int)
    requires
        is_whole(family, input),
        0 <= h < annexb::start_codes(input, 0).len(),
    ensures
        ({
            let s = annexb::start_codes(input, 0)[h];
            &&& rests(family, input, s, h as nat)
            &&& is_whole(family, input.skip(s))
            &&& annexb::start_codes(input.skip(s), 0)[0] == 0
        }),
{
    let codes = annexb::start_codes(input, 0);
    let n = (codes.len() - h) as nat;
    let s = codes[h];
    let rest = input.skip(s);
    let rest_codes = annexb::start_codes(rest, 0);
    lemma_rest_kept(family, input, h, n);
    annexb::lemma_all_kept(family, rest, rest_codes, n);
    annexb::lemma_codes_apart(input, 0);
    annexb::lemma_all_kept(family, input, codes, codes.len());
    let x_nals = annexb::stream_nals(family, input);
    let y_nals = annexb::stream_nals(family, rest);
    assert forall|t: int|
        #![trigger y_nals[t]]
        #![trigger x_nals[t + h]]
        0 <= t < y_nals.len() implies {
        &&& x_nals[t + h].start == y_nals[t].start + s
        &&& x_nals[t + h].payload_start == y_nals[t].payload_start + s
        &&& x_nals[t + h].end == y_nals[t].end + s
    } by {
        assert(y_nals[t] == annexb::span_at(rest, rest_codes, t));
    }
    assert(annexb::span_at(rest, rest_codes, 0).start == rest_codes[0]);
    assert(x_nals[0 + h] == annexb::span_at(input, codes, h));
}

/// A head of access units was the last of the heads when it was found.
proof fn lemma_head_opens(
    family: VideoFamily,
    input: Seq<u8>,
    nals: Seq<NalSpan>,
    n: nat,
    j: int,
)
    requires
        0 <= j < annexb::unit_heads(family, input, nals, n).len(),
    ensures
        ({
            let h = annexb::unit_heads(family, input, nals, n)[j];
            &&& 0 <= h < n
            &&& annexb::unit_heads(family, input, nals, h as nat).len() == j
            &&& annexb::unit_heads(family, input, nals, (h + 1) as nat) == annexb::unit_heads(
                family,
                input,
                nals,
                h as nat,
            ).push(h)
        }),
    decreases n,
{
    if n > 0 {
        let before = annexb::unit_heads(family, input, nals, (n - 1) as nat);
        if j < before.len() {
            lemma_head_opens(family, input, nals, (n - 1) as nat, j);
        }
    }
}

/// A whole stream, cut in front of an access unit, splits as it does in one: what is cut
/// off splits into the access units from there on.
pub proof fn law_rest_splits_alike(family: VideoFamily, input: Seq<u8>, j: int)
    requires
        is_whole(family, input),
        0 <= j < annexb::stream_units(family, input).len(),
    ensures
        ({
            let rest = input.skip(annexb::unit_begin(family, input, j));
            &&& annexb::split_stream(family, rest) is Ok
            &&& is_whole(family, rest)
            &&& annexb::start_codes(rest, 0)[0] == 0
            &&& annexb::stream_units(family, rest) == annexb::stream_units(family, input).skip(j)
        }),
{
    let nals = annexb::stream_nals(family, input);
    let codes = annexb::start_codes(input, 0);
    let heads = annexb::unit_heads(family, input, nals, nals.len());
    let h = heads[j];
    lemma_head_opens(family, input, nals, nals.len(), j);
    annexb::lemma_all_kept(family, input, codes, codes.len());
    assert(nals[h] == annexb::span_at(input, codes, h));
    lemma_rest_is_whole(family, input, h);
    lemma_units_of_rest(family, input, codes[h], h as nat);
}

// Streams joined

/// `spans`, each further on by `by`.
pub open spec fn spans_moved(spans: Seq<NalSpan>, by: int) -> Seq<NalSpan> {
    Seq::new(
        spans.len(),
        |i: int|
            NalSpan {
                start: spans[i].start + by,
                payload_start: spans[i].payload_start + by,
                end: spans[i].end + by,
            },
    )
}

proof fn lemma_joined_codes(a: Seq<u8>, b: Seq<u8>, from: int)
    requires
        a.len() > 0,
        a.last() != 0,
        0 <= from <= a.len(),
    ensures
        annexb::start_codes(a + b, from) == annexb::start_codes(a, from) + moved(
            annexb::start_codes(b, 0),
            a.len() as int,
        ),
    decreases a.len() - from,
{
    let w = a + b;
    let behind = moved(annexb::start_codes(b, 0), a.len() as int);
    if from == a.len() {
        assert(w.skip(a.len() as int) =~= b);
        lemma_codes_of_tail(w, a.len() as int, 0);
        assert(annexb::start_codes(a, from) + behind =~= behind);
    } else {
        assert(w[a.len() - 1] == a.last());
        assert(w[from] == a[from]);
        if from + 3 > a.len() {
            assert(annexb::start_code_len(w, from) == 0);
            lemma_joined_codes(a, b, from + 1);
            assert(annexb::start_codes(a, from) =~= annexb::start_codes(a, from + 1));
            if from + 3 > w.len() {
                assert(annexb::start_codes(b, 0) =~= Seq::<int>::empty());
                assert(annexb::start_codes(a, from) + behind =~= Seq::<int>::empty());
            }
        } else {
            assert(w[from + 1] == a[from + 1]);
            assert(w[from + 2] == a[from + 2]);
            if from + 4 <= a.len() {
                assert(w[from + 3] == a[from + 3]);
            } else {
                assert(a[from + 2] == a.last());
            }
            let width = annexb::start_code_len(w, from);
            assert(width == annexb::start_code_len(a, from));
            if width > 0 {
                lemma_joined_codes(a, b, from + width);
                assert(seq![from] + (annexb::start_codes(a, from + width) + behind) =~= seq![from]
                    + annexb::start_codes(a, from + width) + behind);
            } else {
                lemma_joined_codes(a, b, from + 1);
            }
        }
    }
}

proof fn lemma_joined_spans(family: VideoFamily, a: Seq<u8>, b: Seq<u8>, k: nat)
    requires
        a.len() > 0,
        a.last() != 0,
        annexb::start_codes(b, 0).len() > 0,
        annexb::start_codes(b, 0)[0] == 0,
        k <= annexb::start_codes(a, 0).len() + annexb::start_codes(b, 0).len(),
    ensures
        ({
            let a_codes = annexb::start_codes(a, 0);
            let b_codes = annexb::start_codes(b, 0);
            annexb::nal_spans(family, a + b, annexb::start_codes(a + b, 0), k) == if k
                <= a_codes.len() {
                annexb::nal_spans(family, a, a_codes, k)
            } else {
                annexb::nal_spans(family, a, a_codes, a_codes.len()) + spans_moved(
                    annexb::nal_spans(family, b, b_codes, (k - a_codes.len()) as nat),
                    a.len() as int,
                )
            }
        }),
    decreases k,
{
    let w = a + b;
    let a_codes = annexb::start_codes(a, 0);
    let b_codes = annexb::start_codes(b, 0);
    let codes = annexb::start_codes(w, 0);
    let n = a.len() as int;
    lemma_joined_codes(a, b, 0);
    annexb::lemma_codes_apart(a, 0);
    annexb::lemma_codes_apart(b, 0);
    if k > 0 {
        lemma_joined_spans(family, a, b, (k - 1) as nat);
        let span = annexb::span_at(w, codes, k - 1);
        if k <= a_codes.len() {
            let own = annexb::span_at(a, a_codes, k - 1);
            let at = a_codes[k - 1];
            assert(codes[k - 1] == at);
            assert(annexb::start_code_len(w, at) == annexb::start_code_len(a, at)) by {
                assert(at + annexb::start_code_len(a, at) <= a.len());
                assert(w[at] == a[at] && w[at + 1] == a[at + 1] && w[at + 2] == a[at + 2]);
                if at + 4 <= a.len() {
                    assert(w[at + 3] == a[at + 3]);
                }
            }
            if k < a_codes.len() {
                assert(codes[k as int] == a_codes[k as int]);
                assert(a_codes[k as int] <= a.len());
            } else {
                assert(codes[k as int] == moved(b_codes, n)[0]);
            }
            assert(span == own);
            if own.payload_start < own.end {
                assert(annexb::span_payload(w, span) =~= annexb::span_payload(a, own));
            }
        } else {
            let i = k - 1 - a_codes.len();
            let own = annexb::span_at(b, b_codes, i);
            let at = b_codes[i];
            assert(codes[k - 1] == moved(b_codes, n)[i]);
            assert(annexb::start_code_len(w, at + n) == annexb::start_code_len(b, at)) by {
                assert(at + annexb::start_code_len(b, at) <= b.len());
                assert(w[at + n] == b[at] && w[at + n + 1] == b[at + 1] && w[at + n + 2] == b[at
                    + 2]);
                if at + 4 <= b.len() {
                    assert(w[at + n + 3] == b[at + 3]);
                }
            }
            if i + 1 < b_codes.len() {
                assert(codes[k as int] == moved(b_codes, n)[i + 1]);
                assert(b_codes[i + 1] <= b.len());
            }
            assert(span.start == own.start + n);
            assert(span.payload_start == own.payload_start + n);
            assert(span.end == own.end + n);
            if own.payload_start < own.end {
                assert(annexb::span_payload(w, span) =~= annexb::span_payload(b, own));
            }
            let first = annexb::nal_spans(family, a, a_codes, a_codes.len());
            let spans = annexb::nal_spans(family, b, b_codes, i as nat);
            let more = annexb::nal_spans(family, b, b_codes, (i + 1) as nat);
            if i == 0 {
                assert(spans_moved(spans, n) =~= Seq::<NalSpan>::empty());
                assert(first + spans_moved(spans, n) =~= first);
            }
            assert(annexb::nal_spans(family, w, codes, (k - 1) as nat) == first + spans_moved(
                spans,
                n,
            ));
            if own.payload_start < own.end && annexb::nal_type(
                family,
                annexb::span_payload(b, own),
            ) is Some {
                assert(spans_moved(more, n) =~= spans_moved(spans, n).push(span));
                assert((first + spans_moved(spans, n)).push(span) =~= first + spans_moved(more, n));
            }
        }
    }
}

/// Whether two streams can be told apart when joined: the first does not end in a zero
/// byte, and the second begins with an access unit delimiter.
pub open spec fn joins(family: VideoFamily, a: Seq<u8>, b: Seq<u8>) -> bool {
    &&& annexb::split_stream(family, a) is Ok
    &&& annexb::split_stream(family, b) is Ok
    &&& a.last() != 0
    &&& annexb::stream_nals(family, b)[0].start == 0
    &&& annexb::is_delimiter(
        family,
        annexb::span_type(family, b, annexb::stream_nals(family, b)[0]),
    )
}

proof fn lemma_joined_nals(family: VideoFamily, a: Seq<u8>, b: Seq<u8>)
    requires
        joins(family, a, b),
    ensures
        annexb::start_codes(a + b, 0).len() > 0,
        annexb::stream_nals(family, a + b) == annexb::stream_nals(family, a) + spans_moved(
            annexb::stream_nals(family, b),
            a.len() as int,
        ),
{
    let a_codes = annexb::start_codes(a, 0);
    let b_codes = annexb::start_codes(b, 0);
    annexb::lemma_codes_apart(a, 0);
    annexb::lemma_codes_apart(b, 0);
    lemma_spans_stand_at_codes(family, b, b_codes, b_codes.len(), 0);
    assert(a_codes[0] + annexb::start_code_len(a, a_codes[0]) <= a.len());
    lemma_joined_codes(a, b, 0);
    lemma_joined_spans(family, a, b, a_codes.len() + b_codes.len());
}

proof fn lemma_joined_heads(family: VideoFamily, a: Seq<u8>, b: Seq<u8>)
    requires
        joins(family, a, b),
    ensures
        ({
            let w = a + b;
            let a_nals = annexb::stream_nals(family, a);
            let nals = annexb::stream_nals(family, w);
            let h = a_nals.len();
            &&& rests(family, w, a.len() as int, h)
            &&& annexb::unit_heads(family, w, nals, h) == annexb::unit_heads(family, a, a_nals, h)
            &&& annexb::unit_heads(family, w, nals, h + 1) == annexb::unit_heads(
                family,
                w,
                nals,
                h,
            ).push(h as int)
        }),
{
    let w = a + b;
    let n = a.len() as int;
    let a_nals = annexb::stream_nals(family, a);
    let b_nals = annexb::stream_nals(family, b);
    let nals = annexb::stream_nals(family, w);
    let h = a_nals.len();
    lemma_joined_nals(family, a, b);
    annexb::lemma_stream_nals_apart(family, a);
    annexb::lemma_stream_nals_apart(family, b);
    assert(w.skip(n) =~= b);
    assert forall|t: int|
        #![trigger b_nals[t]]
        #![trigger nals[t + h]]
        0 <= t < b_nals.len() implies {
        &&& nals[t + h].start == b_nals[t].start + n
        &&& nals[t + h].payload_start == b_nals[t].payload_start + n
        &&& nals[t + h].end == b_nals[t].end + n
    } by {
        assert(nals[t + h] == spans_moved(b_nals, n)[t]);
    }
    assert(alike(w, nals, 0, a, a_nals, 0, h as int)) by {
        assert forall|t: int|
            #![trigger a_nals[t]]
            #![trigger nals[t + 0]]
            0 <= t < h implies annexb::span_payload(w, nals[t + 0]) == annexb::span_payload(
            a,
            a_nals[t],
        ) by {
            assert(nals[t] == a_nals[t]);
            assert(a_nals[t].payload_start <= a_nals[t].end <= a.len());
            assert(annexb::span_payload(w, nals[t]) =~= annexb::span_payload(a, a_nals[t]));
        }
    }
    lemma_heads_alike(family, w, nals, a, a_nals, h);
    assert(annexb::span_payload(w, nals[h as int]) =~= annexb::span_payload(b, b_nals[0])) by {
        assert(nals[h as int] == spans_moved(b_nals, n)[0]);
        assert(b_nals[0].payload_start <= b_nals[0].end <= b.len());
    }
}

/// Splitting distributes over joining, where the first stream does not end in a zero byte
/// and the second begins with an access unit delimiter: both together split into the
/// access units of the first, followed by those of the second.
pub proof fn law_splitting_distributes(family: VideoFamily, a: Seq<u8>, b: Seq<u8>)
    requires
        joins(family, a, b),
    ensures
        annexb::split_stream(family, a + b) == Ok::<Seq<AccessUnit>, MediaFault>(
            annexb::stream_units(family, a) + annexb::stream_units(family, b),
        ),
{
    let w = a + b;
    let n = a.len() as int;
    let a_nals = annexb::stream_nals(family, a);
    let nals = annexb::stream_nals(family, w);
    let h = a_nals.len();
    assert(w.skip(n) =~= b);
    lemma_joined_nals(family, a, b);
    lemma_joined_heads(family, a, b);
    lemma_units_of_rest(family, w, n, h);
    annexb::lemma_stream_nals_apart(family, a);
    let b_nals = annexb::stream_nals(family, b);
    let a_heads = annexb::unit_heads(family, a, a_nals, h);
    let b_heads = annexb::unit_heads(family, b, b_nals, b_nals.len());
    let heads = annexb::unit_heads(family, w, nals, nals.len());
    annexb::lemma_heads_rise(family, a, a_nals, h);
    annexb::lemma_heads_rise(family, b, b_nals, b_nals.len());
    let j = a_heads.len() as int;
    assert(heads[j] == b_heads[0] + h);
    assert(w.take(n) =~= a.take(n));
    assert forall|i: int| #![trigger heads[i]] 0 <= i < j implies {
        &&& heads[i] == a_heads[i]
        &&& annexb::unit_stop(heads, nals.len() as int, i) == annexb::unit_stop(
            a_heads,
            h as int,
            i,
        )
        &&& annexb::unit_stop(heads, nals.len() as int, i) <= h
    } by {
        if i + 1 < j {
            assert(heads[i + 1] == a_heads[i + 1]);
        }
    }
    assert forall|i: int| 0 <= i < h implies {
        &&& #[trigger] nals[i] == a_nals[i]
        &&& nals[i].end <= n
    } by {
        assert(a_nals[i].end <= a.len());
    }
    lemma_first_units(family, w, a, n, h as int, j);
    let units = annexb::stream_units(family, w);
    let a_units = annexb::stream_units(family, a);
    let b_units = annexb::stream_units(family, b);
    assert forall|i: int| 0 <= i < units.len() implies #[trigger] units[i] == (a_units
        + b_units)[i] by {
        if i >= j {
            assert(units[i] == units.skip(j)[i - j]);
        }
    }
    assert(units =~= a_units + b_units);
}

/// NAL units stand at the first start code or behind it.
proof fn lemma_spans_stand_at_codes(
    family: VideoFamily,
    input: Seq<u8>,
    codes: Seq<int>,
    k: nat,
    i: int,
)
    requires
        annexb::codes_apart(input, 0, codes),
        k <= codes.len(),
        0 <= i < annexb::nal_spans(family, input, codes, k).len(),
    ensures
        codes.len() > 0,
        0 <= codes[0] <= annexb::nal_spans(family, input, codes, k)[i].start,
    decreases k,
{
    let before = annexb::nal_spans(family, input, codes, (k - 1) as nat);
    if i < before.len() {
        lemma_spans_stand_at_codes(family, input, codes, (k - 1) as nat, i);
    } else {
        assert(codes[0] <= codes[k - 1]);
    }
}

/// Splitting H.264 streams distributes over joining them, where the first does not end in
/// a zero byte and the second begins with the start code and the type of an access unit
/// delimiter.
pub proof fn law_h264_splitting_distributes(a: Seq<u8>, b: Seq<u8>)
    requires
        annexb::split_stream(VideoFamily::H264, a) is Ok,
        annexb::split_stream(VideoFamily::H264, b) is Ok,
        a.last() != 0,
        b.len() >= 5,
        b.take(5) == seq![0u8, 0, 0, 1, 9],
    ensures
        annexb::split_stream(VideoFamily::H264, a + b) == Ok::<Seq<AccessUnit>, MediaFault>(
            annexb::stream_units(VideoFamily::H264, a) + annexb::stream_units(
                VideoFamily::H264,
                b,
            ),
        ),
{
    let family = VideoFamily::H264;
    let start = b.take(5);
    assert(b[0] == start[0] && b[1] == start[1] && b[2] == start[2] && b[3] == start[3] && b[4]
        == start[4]);
    let codes = annexb::start_codes(b, 0);
    let rest = annexb::start_codes(b, 4);
    annexb::lemma_codes_apart(b, 4);
    assert(codes == seq![0int] + rest);
    assert(annexb::start_code_len(b, 4) == 0);
    if rest.len() > 0 {
        assert(rest[0] > 4);
        assert(codes[1] == rest[0]);
    }
    let span = annexb::span_at(b, codes, 0);
    annexb::lemma_codes_apart(b, 0);
    if codes.len() > 1 {
        assert(codes[1] <= b.len());
    }
    assert(annexb::span_payload(b, span)[0] == 9);
    assert(9u8 & 0x1f == 9) by (bit_vector);
    assert(annexb::nal_spans(family, b, codes, 0) =~= Seq::<NalSpan>::empty());
    assert(annexb::nal_spans(family, b, codes, 1) =~= seq![span]);
    lemma_spans_extend(family, b, codes, 1, codes.len());
    assert(annexb::nal_spans(family, b, codes, 1)[0] == span);
    law_splitting_distributes(family, a, b);
}

proof fn lemma_spans_extend(
    family: VideoFamily,
    input: Seq<u8>,
    codes: Seq<int>,
    k: nat,
    n: nat,
)
    requires
        k <= n,
    ensures
        annexb::nal_spans(family, input, codes, k).len() <= annexb::nal_spans(
            family,
            input,
            codes,
            n,
        ).len(),
        forall|i: int|
            0 <= i < annexb::nal_spans(family, input, codes, k).len()
                ==> #[trigger] annexb::nal_spans(family, input, codes, k)[i] == annexb::nal_spans(
                family,
                input,
                codes,
                n,
            )[i],
    decreases n,
{
    if k < n {
        lemma_spans_extend(family, input, codes, k, (n - 1) as nat);
    }
}

// Streams cut anywhere

proof fn lemma_first_kept(family: VideoFamily, input: Seq<u8>, codes: Seq<int>, k: nat, n: nat)
    requires
        k <= n,
        annexb::nal_spans(family, input, codes, n).len() == n,
    ensures
        annexb::nal_spans(family, input, codes, k).len() == k,
    decreases n,
{
    if k < n {
        annexb::lemma_kept_bound(family, input, codes, (n - 1) as nat);
        lemma_first_kept(family, input, codes, k, (n - 1) as nat);
    }
}

/// The NAL units of the first `n` bytes, but for the last start code's, are the first NAL
/// units.
proof fn lemma_head_spans(family: VideoFamily, input: Seq<u8>, n: int, k: nat)
    requires
        0 <= n <= input.len(),
        k < annexb::start_codes(input.take(n), 0).len(),
    ensures
        annexb::nal_spans(family, input.take(n), annexb::start_codes(input.take(n), 0), k)
            == annexb::nal_spans(family, input, annexb::start_codes(input, 0), k),
        forall|i: int|
            #![trigger annexb::nal_spans(family, input, annexb::start_codes(input, 0), k)[i]]
            0 <= i < annexb::nal_spans(family, input, annexb::start_codes(input, 0), k).len()
                ==> annexb::nal_spans(family, input, annexb::start_codes(input, 0), k)[i].end <= n,
    decreases k,
{
    if k > 0 {
        let head = input.take(n);
        let head_codes = annexb::start_codes(head, 0);
        let codes = annexb::start_codes(input, 0);
        lemma_head_spans(family, input, n, (k - 1) as nat);
        lemma_codes_of_head(input, n, 0);
        annexb::lemma_codes_apart(head, 0);
        let at = head_codes[k - 1];
        assert(codes[k - 1] == at);
        assert(head_codes[k as int] == codes[k as int]);
        assert(at + annexb::start_code_len(head, at) <= head_codes[k as int]);
        assert(head_codes[k as int] <= head.len());
        assert(annexb::start_code_len(head, at) == annexb::start_code_len(input, at)) by {
            assert(head[at] == input[at] && head[at + 1] == input[at + 1] && head[at + 2]
                == input[at + 2]);
            if at + 4 <= n {
                assert(head[at + 3] == input[at + 3]);
            }
        }
        let span = annexb::span_at(head, head_codes, k - 1);
        assert(span == annexb::span_at(input, codes, k - 1));
        assert(annexb::span_payload(head, span) =~= annexb::span_payload(input, span));
        let before = annexb::nal_spans(family, input, codes, (k - 1) as nat);
        let spans = annexb::nal_spans(family, input, codes, k);
        assert forall|i: int| #![trigger spans[i]] 0 <= i < spans.len() implies spans[i].end
            <= n by {
            if i < before.len() {
                assert(spans[i] == before[i]);
            }
        }
    }
}

/// What a cut inside a NAL unit leaves of it begins an access unit only where the NAL unit
/// does.
proof fn lemma_cut_nal(family: VideoFamily, input: Seq<u8>, n: int, c: int)
    requires
        is_whole(family, input),
        0 <= n <= input.len(),
        c + 1 == annexb::start_codes(input.take(n), 0).len(),
        0 <= c,
        annexb::span_at(input.take(n), annexb::start_codes(input.take(n), 0), c).payload_start < n,
    ensures
        ({
            let part = annexb::span_payload(
                input.take(n),
                annexb::span_at(input.take(n), annexb::start_codes(input.take(n), 0), c),
            );
            let payload = annexb::span_payload(input, annexb::stream_nals(family, input)[c]);
            &&& part.len() > 0
            &&& payload.len() > 0
            &&& part[0] == payload[0]
            &&& annexb::is_first_slice(family, part) ==> annexb::is_first_slice(family, payload)
        }),
{
    let head = input.take(n);
    let head_codes = annexb::start_codes(head, 0);
    let codes = annexb::start_codes(input, 0);
    lemma_codes_of_head(input, n, 0);
    annexb::lemma_codes_apart(head, 0);
    annexb::lemma_codes_apart(input, 0);
    annexb::lemma_all_kept(family, input, codes, codes.len());
    annexb::lemma_stream_nals_apart(family, input);
    let at = head_codes[c];
    assert(codes[c] == at);
    assert(annexb::start_code_len(head, at) == annexb::start_code_len(input, at)) by {
        assert(at + annexb::start_code_len(head, at) <= n);
        assert(head[at] == input[at] && head[at + 1] == input[at + 1] && head[at + 2] == input[at
            + 2]);
        if at + 4 <= n {
            assert(head[at + 3] == input[at + 3]);
        }
    }
    let cut = annexb::span_at(head, head_codes, c);
    let span = annexb::stream_nals(family, input)[c];
    assert(span == annexb::span_at(input, codes, c));
    assert(0 <= at && cut.payload_start == span.payload_start);
    let part = annexb::span_payload(head, cut);
    let payload = annexb::span_payload(input, span);
    assert forall|i: int| 0 <= i < part.len() && i < payload.len() implies #[trigger] part[i]
        == payload[i] by {
        assert(head[cut.payload_start + i] == input[cut.payload_start + i]);
    }
    assert forall|i: int| payload.len() <= i < part.len() implies #[trigger] part[i] == 0 by {
        let q = cut.payload_start + i;
        assert(head[q] == input[q]);
        assert(c + 1 < codes.len());
        let next = codes[c + 1];
        assert(annexb::start_code_len(input, next) > 0);
        assert(next <= q < next + annexb::start_code_len(input, next) - 1);
    }
    assert(part[0] == payload[0]);
    if annexb::is_first_slice(family, part) {
        lemma_first_slice_survives(family, part, payload);
    }
}

/// The heads of the first `n` bytes of a whole stream are its first heads.
proof fn lemma_head_heads(family: VideoFamily, input: Seq<u8>, n: int)
    requires
        is_whole(family, input),
        0 <= n <= input.len(),
        annexb::split_stream(family, input.take(n)) is Ok,
    ensures
        ({
            let head = input.take(n);
            let head_nals = annexb::stream_nals(family, head);
            let nals = annexb::stream_nals(family, input);
            let head_heads = annexb::unit_heads(family, head, head_nals, head_nals.len());
            let heads = annexb::unit_heads(family, input, nals, nals.len());
            let c = annexb::start_codes(head, 0).len() - 1;
            &&& c <= head_nals.len() <= c + 1
            &&& c < nals.len()
            &&& 0 < head_heads.len() <= heads.len()
            &&& forall|i: int|
                0 <= i < head_heads.len() ==> #[trigger] head_heads[i] == heads[i]
            &&& forall|i: int|
                0 <= i < c ==> {
                    &&& #[trigger] head_nals[i] == nals[i]
                    &&& head_nals[i].end <= n
                }
        }),
{
    let head = input.take(n);
    let head_codes = annexb::start_codes(head, 0);
    let codes = annexb::start_codes(input, 0);
    let head_nals = annexb::stream_nals(family, head);
    let nals = annexb::stream_nals(family, input);
    let c = (head_codes.len() - 1) as nat;
    lemma_codes_of_head(input, n, 0);
    lemma_head_spans(family, input, n, c);
    lemma_first_kept(family, input, codes, c, codes.len());
    lemma_spans_extend(family, input, codes, c, codes.len());
    let first = annexb::nal_spans(family, input, codes, c);
    let cut = annexb::span_at(head, head_codes, c as int);
    assert(head_nals == first || head_nals == first.push(cut));
    assert forall|i: int| 0 <= i < c implies {
        &&& #[trigger] head_nals[i] == nals[i]
        &&& head_nals[i].end <= n
    } by {
        assert(first[i] == nals[i]);
        assert(head_nals[i] == first[i]);
    }
    annexb::lemma_stream_nals_apart(family, head);
    assert(alike(input, nals, 0, head, head_nals, 0, c as int)) by {
        assert forall|t: int|
            #![trigger head_nals[t]]
            #![trigger nals[t + 0]]
            0 <= t < c implies annexb::span_payload(input, nals[t + 0]) == annexb::span_payload(
            head,
            head_nals[t],
        ) by {
            assert(head_nals[t] == nals[t]);
            assert(annexb::span_payload(input, nals[t]) =~= annexb::span_payload(
                head,
                head_nals[t],
            ));
        }
    }
    lemma_heads_alike(family, input, nals, head, head_nals, c);
    let common = annexb::unit_heads(family, input, nals, c);
    annexb::lemma_heads_rise(family, input, nals, c);
    annexb::lemma_heads_rise(family, head, head_nals, head_nals.len());
    let head_heads = annexb::unit_heads(family, head, head_nals, head_nals.len());
    if head_nals.len() == c + 1 {
        assert(head_nals[c as int] == cut);
        assert(annexb::unit_heads(family, head, head_nals, c) == common);
        if common.len() > 0 && annexb::opens_unit(
            family,
            head,
            head_nals,
            common.last(),
            c as int,
        ) {
            lemma_cut_nal(family, input, n, c as int);
            lemma_alike_vcl(family, input, nals, 0, head, head_nals, common.last(), c as int);
            annexb::lemma_stream_nals_apart(family, input);
            assert(nals[c as int].start >= 0);
            assert(annexb::opens_unit(family, input, nals, common.last(), c as int));
        }
        if head_heads.len() > common.len() {
            assert(annexb::unit_heads(family, input, nals, c + 1) == head_heads);
            lemma_heads_extend(family, input, nals, c + 1, nals.len());
        } else {
            assert(head_heads == common);
            lemma_heads_extend(family, input, nals, c, nals.len());
        }
    } else {
        assert(head_heads == common);
        lemma_heads_extend(family, input, nals, c, nals.len());
    }
}

/// A whole stream that begins with a start code, cut anywhere: all access units but the
/// last that come before the cut are its first access units, and the next one begins
/// behind them.
pub proof fn law_head_splits_alike(family: VideoFamily, input: Seq<u8>, n: int)
    requires
        is_whole(family, input),
        annexb::start_codes(input, 0)[0] == 0,
        0 <= n <= input.len(),
        annexb::split_stream(family, input.take(n)) is Ok,
    ensures
        ({
            let units = annexb::stream_units(family, input);
            let head_units = annexb::stream_units(family, input.take(n));
            let j = head_units.len() - 1;
            &&& 0 <= j < units.len()
            &&& head_units.take(j) == units.take(j)
            &&& annexb::joined(head_units, j as nat).len() == annexb::unit_begin(
                family,
                input,
                j,
            )
        }),
{
    let head = input.take(n);
    let head_nals = annexb::stream_nals(family, head);
    let nals = annexb::stream_nals(family, input);
    let head_heads = annexb::unit_heads(family, head, head_nals, head_nals.len());
    let heads = annexb::unit_heads(family, input, nals, nals.len());
    let codes = annexb::start_codes(input, 0);
    let c = annexb::start_codes(head, 0).len() - 1;
    let units = annexb::stream_units(family, input);
    let head_units = annexb::stream_units(family, head);
    lemma_head_heads(family, input, n);
    annexb::lemma_heads_rise(family, head, head_nals, head_nals.len());
    annexb::lemma_heads_rise(family, input, nals, nals.len());
    let j = head_units.len() - 1;
    assert(head.take(n) =~= input.take(n));
    assert forall|i: int| #![trigger head_heads[i]] 0 <= i < j implies {
        &&& head_heads[i] == heads[i]
        &&& annexb::unit_stop(head_heads, head_nals.len() as int, i) == annexb::unit_stop(
            heads,
            nals.len() as int,
            i,
        )
        &&& annexb::unit_stop(head_heads, head_nals.len() as int, i) <= c
    } by {
        assert(head_heads[i + 1] == heads[i + 1]);
    }
    lemma_first_units(family, head, input, n, c, j);
    assert(head_units.take(j) =~= units.take(j));
    assert forall|i: int| 0 <= i < head_units.take(j).len() implies #[trigger] head_units.take(
        j,
    )[i] == units[i] by {
        assert(head_units[i] == units[i]);
    }
    annexb::lemma_joined_of_prefix(head_units.take(j), units, j as nat);
    annexb::lemma_joined_of_prefix(head_units.take(j), head_units, j as nat);
    annexb::lemma_all_kept(family, input, codes, codes.len());
    let h = heads[j];
    assert(nals[h] == annexb::span_at(input, codes, h));
    if j > 0 {
        annexb::lemma_joined_prefix(family, input, j as nat);
        annexb::law_units_are_disjoint_stretches(family, input);
        assert(heads[j - 1] < heads[j]);
        assert(nals[h - 1] == annexb::span_at(input, codes, h - 1));
        assert(annexb::unit_end(family, input, j - 1) == annexb::unit_begin(family, input, j));
        assert(units[j - 1].bytes.len() > 0);
    } else {
        assert(h == 0);
    }
}

} // verus!
