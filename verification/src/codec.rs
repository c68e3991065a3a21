//! Video codec names.

use vstd::prelude::*;

use crate::text;
use crate::text::{fold, spells};

verus! {

/// The Annex B video families whose access units can be told apart.
#[derive(Clone, Copy, Debug, PartialEq, Eq, Structural)]
pub enum VideoFamily {
    H264,
    H265,
}

/// A video codec that a stream can name.
#[derive(Clone, Copy, Debug, PartialEq, Eq, Structural)]
pub enum VideoCodec {
    H264,
    H265,
    Av1,
}

/// The codec that a trimmed, lower-case name stands for.
pub open spec fn codec_of_name(name: Seq<char>) -> Option<VideoCodec> {
    if name == "h264"@ || name == "h.264"@ || name == "avc"@ || name == "avc1"@ || name
        == "video/avc"@ {
        Some(VideoCodec::H264)
    } else if name == "h265"@ || name == "h.265"@ || name == "hevc"@ || name == "hev1"@ || name
        == "hvc1"@ || name == "video/hevc"@ {
        Some(VideoCodec::H265)
    } else if name == "av1"@ || name == "av01"@ || name == "video/av1"@ {
        Some(VideoCodec::Av1)
    } else {
        None
    }
}

/// The codec that `codec` names, whatever white space surrounds it and whichever case
/// its ASCII letters have.
pub open spec fn named_codec(codec: Seq<char>) -> Option<VideoCodec> {
    codec_of_name(text::folded(codec))
}

/// Tells which codec a codec name stands for.
pub fn normalized_video_codec(codec: &str) -> (named: Option<VideoCodec>)
    ensures
        named == named_codec(codec@),
{
    let name = fold(codec);
    if spells(&name, "h264") || spells(&name, "h.264") || spells(&name, "avc") || spells(
        &name,
        "avc1",
    ) || spells(&name, "video/avc") {
        Some(VideoCodec::H264)
    } else if spells(&name, "h265") || spells(&name, "h.265") || spells(&name, "hevc") || spells(
        &name,
        "hev1",
    ) || spells(&name, "hvc1") || spells(&name, "video/hevc") {
        Some(VideoCodec::H265)
    } else if spells(&name, "av1") || spells(&name, "av01") || spells(&name, "video/av1") {
        Some(VideoCodec::Av1)
    } else {
        None
    }
}

/// A codec name stands for the same codec whatever white space surrounds it and whichever
/// case its ASCII letters have.
pub proof fn law_codec_names_ignore_case_and_white_space(
    before: Seq<char>,
    a: Seq<char>,
    b: Seq<char>,
    after: Seq<char>,
)
    requires
        text::is_blank(before),
        text::is_blank(after),
        text::same_but_case(a, b),
    ensures
        named_codec(before + a + after) == named_codec(b),
{
    text::law_folding_ignores_surrounding_white_space(before, a, after);
    text::law_folding_ignores_case(a, b);
}

/// A name with nothing in it names no codec.
pub proof fn lemma_named_codecs_are_not_empty(codec: Seq<char>)
    requires
        named_codec(codec) is Some,
    ensures
        codec.len() > 0,
{
    reveal_strlit("h264");
    reveal_strlit("h.264");
    reveal_strlit("avc");
    reveal_strlit("avc1");
    reveal_strlit("video/avc");
    reveal_strlit("h265");
    reveal_strlit("h.265");
    reveal_strlit("hevc");
    reveal_strlit("hev1");
    reveal_strlit("hvc1");
    reveal_strlit("video/hevc");
    reveal_strlit("av1");
    reveal_strlit("av01");
    reveal_strlit("video/av1");
    if codec.len() == 0 {
        assert(text::folded(codec).len() == 0);
    }
}

/// Whether a character is one of those that Unicode calls white space.
pub open spec fn is_blank_code(c: char) -> bool {
    let code = c as u32;
    ||| code == 9 || code == 10 || code == 11 || code == 12 || code == 13
    ||| code == 32
    ||| code == 133
    ||| code == 160
    ||| code == 5760
    ||| 8192 <= code <= 8202
    ||| code == 8232 || code == 8233
    ||| code == 8239
    ||| code == 8287
    ||| code == 12288
}

/// A codec name says what stands between the white space around it, with the letters `A` to
/// `Z` taken as `a` to `z`: one of five names of H.264, six of H.265 or three of AV1. Any
/// other name, and a name of white space only, names no codec.
pub proof fn law_the_names_of_the_codecs(codec: Seq<char>, a: int, b: int)
    requires
        0 <= a <= b <= codec.len(),
        forall|i: int|
            0 <= i < codec.len() && !(a <= i < b) ==> is_blank_code(#[trigger] codec[i]),
        a < b ==> !is_blank_code(codec[a]) && !is_blank_code(codec[b - 1]),
    ensures
        ({
            let name = Seq::new(
                (b - a) as nat,
                |i: int|
                    if 65 <= codec[a + i] as u32 <= 90 {
                        ((codec[a + i] as u8) + 32u8) as char
                    } else {
                        codec[a + i]
                    },
            );
            named_codec(codec) == if name == seq!['h', '2', '6', '4']
            || name == seq!['h', '.', '2', '6', '4']
            || name == seq!['a', 'v', 'c']
            || name == seq!['a', 'v', 'c', '1']
            || name == seq!['v', 'i', 'd', 'e', 'o', '/', 'a', 'v', 'c'] {
                Some(VideoCodec::H264)
            } else if name == seq!['h', '2', '6', '5']
            || name == seq!['h', '.', '2', '6', '5']
            || name == seq!['h', 'e', 'v', 'c']
            || name == seq!['h', 'e', 'v', '1']
            || name == seq!['h', 'v', 'c', '1']
            || name == seq!['v', 'i', 'd', 'e', 'o', '/', 'h', 'e', 'v', 'c'] {
                Some(VideoCodec::H265)
            } else if name == seq!['a', 'v', '1']
            || name == seq!['a', 'v', '0', '1']
            || name == seq!['v', 'i', 'd', 'e', 'o', '/', 'a', 'v', '1'] {
                Some(VideoCodec::Av1)
            } else {
                None
            }
        }),
{
    let name = Seq::new(
        (b - a) as nat,
        |i: int|
            if 65 <= codec[a + i] as u32 <= 90 {
                ((codec[a + i] as u8) + 32u8) as char
            } else {
                codec[a + i]
            },
    );
    let before = codec.take(a);
    let middle = codec.subrange(a, b);
    let after = codec.skip(b);
    assert(codec =~= before + middle + after);
    assert forall|i: int| 0 <= i < before.len() implies text::is_white_space(#[trigger] before[i]) by {
        assert(is_blank_code(codec[i]));
    }
    assert forall|i: int| 0 <= i < after.len() implies text::is_white_space(#[trigger] after[i]) by {
        assert(is_blank_code(codec[b + i]));
    }
    text::law_folding_ignores_surrounding_white_space(before, middle, after);
    if a < b {
        assert(!text::is_white_space(middle[0]));
        assert(!text::is_white_space(middle.last()));
        assert(text::trim_start(middle) == middle);
        assert(text::trim_end(middle) == middle);
    } else {
        assert(text::trim_start(middle) == middle);
        assert(text::trim_end(middle) == middle);
    }
    assert(text::folded(codec) =~= name);
    reveal_strlit("h264");
    reveal_strlit("h.264");
    reveal_strlit("avc");
    reveal_strlit("avc1");
    reveal_strlit("video/avc");
    reveal_strlit("h265");
    reveal_strlit("h.265");
    reveal_strlit("hevc");
    reveal_strlit("hev1");
    reveal_strlit("hvc1");
    reveal_strlit("video/hevc");
    reveal_strlit("av1");
    reveal_strlit("av01");
    reveal_strlit("video/av1");
    assert("h264"@ =~= seq!['h', '2', '6', '4']);
    assert("h.264"@ =~= seq!['h', '.', '2', '6', '4']);
    assert("avc"@ =~= seq!['a', 'v', 'c']);
    assert("avc1"@ =~= seq!['a', 'v', 'c', '1']);
    assert("video/avc"@ =~= seq!['v', 'i', 'd', 'e', 'o', '/', 'a', 'v', 'c']);
    assert("h265"@ =~= seq!['h', '2', '6', '5']);
    assert("h.265"@ =~= seq!['h', '.', '2', '6', '5']);
    assert("hevc"@ =~= seq!['h', 'e', 'v', 'c']);
    assert("hev1"@ =~= seq!['h', 'e', 'v', '1']);
    assert("hvc1"@ =~= seq!['h', 'v', 'c', '1']);
    assert("video/hevc"@ =~= seq!['v', 'i', 'd', 'e', 'o', '/', 'h', 'e', 'v', 'c']);
    assert("av1"@ =~= seq!['a', 'v', '1']);
    assert("av01"@ =~= seq!['a', 'v', '0', '1']);
    assert("video/av1"@ =~= seq!['v', 'i', 'd', 'e', 'o', '/', 'a', 'v', '1']);
}

} // verus!
