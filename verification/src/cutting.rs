//! Streams that reach a sender in pieces: how a stream is cut into pushes makes no
//! difference to what is sent of it, and what is sent is what packetizing the whole stream
//! gives.

use vstd::prelude::*;

use crate::annexb;
use crate::annexb::AccessUnit;
use crate::codec;
use crate::codec::{VideoCodec, VideoFamily};
use crate::error::MediaFault;
use crate::records;
use crate::splitting;
use crate::video;
use crate::video_sender;
use crate::video_sender::{VideoRun, VideoSender, VideoStep};
use crate::wire;

verus! {

// Pending bytes

/// The access units that a push gives out of `pending`: those that are complete.
pub open spec fn given(family: VideoFamily, pending: Seq<u8>) -> Seq<AccessUnit> {
    match annexb::split_stream(family, pending) {
        Ok(units) => video_sender::complete_units(units, false),
        Err(_) => Seq::empty(),
    }
}

/// What a push leaves of `pending` once the access units that it gave out are sent.
pub open spec fn left(family: VideoFamily, pending: Seq<u8>) -> Seq<u8> {
    pending.skip(annexb::joined(given(family, pending), given(family, pending).len()).len() as int)
}

/// The cut of a stream into pieces makes no difference: of a stream that begins with a
/// start code and whose start codes are all followed by complete NAL units, a first piece
/// and then a second one, put behind what the first one left, give out the access units
/// that both give out in one, and leave the same bytes. The cut may fall anywhere, inside a
/// NAL unit or a start code too.
pub proof fn law_pieces_give_the_same_units(family: VideoFamily, a: Seq<u8>, b: Seq<u8>)
    requires
        splitting::is_whole(family, a + b),
        annexb::start_codes(a + b, 0)[0] == 0,
    ensures
        given(family, a) + given(family, left(family, a) + b) == given(family, a + b),
        left(family, left(family, a) + b) == left(family, a + b),
        splitting::is_whole(family, left(family, a) + b),
        annexb::start_codes(left(family, a) + b, 0)[0] == 0,
{
    let w = a + b;
    let units = annexb::stream_units(family, w);
    assert(w.take(a.len() as int) =~= a);
    if annexb::split_stream(family, a) is Ok {
        splitting::law_head_splits_alike(family, w, a.len() as int);
        let head_units = annexb::stream_units(family, a);
        let j = head_units.len() - 1;
        assert(given(family, a) =~= head_units.take(j));
        annexb::lemma_joined_of_prefix(given(family, a), head_units, j as nat);
        annexb::lemma_joined_len(family, a, j as nat);
        let begin = annexb::unit_begin(family, w, j);
        assert(left(family, a) + b =~= w.skip(begin));
        splitting::law_rest_splits_alike(family, w, j);
        let rest = w.skip(begin);
        assert(given(family, a) + given(family, rest) =~= given(family, w));
        video_sender::law_last_frame_waits(family, w);
        video_sender::law_last_frame_waits(family, rest);
        assert(annexb::stream_units(family, rest).last() == units.last());
    } else {
        assert(left(family, a) =~= a);
        assert(given(family, a) + given(family, w) =~= given(family, w));
    }
}

/// At the end of a stream nothing is lost or given out twice: the access units that a push
/// gives out, and behind them those of what it leaves, are all access units of the stream.
pub proof fn law_the_rest_is_the_last_unit(family: VideoFamily, pending: Seq<u8>)
    requires
        splitting::is_whole(family, pending),
        annexb::start_codes(pending, 0)[0] == 0,
    ensures
        annexb::split_stream(family, left(family, pending)) is Ok,
        given(family, pending) + annexb::stream_units(family, left(family, pending))
            == annexb::stream_units(family, pending),
        splitting::is_whole(family, left(family, pending)),
        annexb::start_codes(left(family, pending), 0)[0] == 0,
        annexb::stream_units(family, left(family, pending)).len() == 1,
{
    let units = annexb::stream_units(family, pending);
    let j = units.len() - 1;
    assert(pending.take(pending.len() as int) =~= pending);
    splitting::law_head_splits_alike(family, pending, pending.len() as int);
    splitting::law_rest_splits_alike(family, pending, j);
    assert(given(family, pending) =~= units.take(j));
    annexb::lemma_joined_of_prefix(given(family, pending), units, j as nat);
    assert(units.take(j) + units.skip(j) =~= units);
}

// Runs one after the other

proof fn lemma_ok_before(
    outcome: (Result<VideoStep, MediaFault>, VideoSender),
    channel: Seq<char>,
    replies: Seq<Seq<Result<Vec<u8>, String>>>,
    k: nat,
    n: nat,
)
    requires
        k <= n,
        video_sender::replied(outcome, channel, replies, n).0 is Ok,
    ensures
        video_sender::replied(outcome, channel, replies, k).0 is Ok,
    decreases n,
{
    if k < n {
        lemma_ok_before(outcome, channel, replies, k, (n - 1) as nat);
    }
}

proof fn lemma_replied_further(
    outcome: (Result<VideoStep, MediaFault>, VideoSender),
    channel: Seq<char>,
    first: Seq<Seq<Result<Vec<u8>, String>>>,
    second: Seq<Seq<Result<Vec<u8>, String>>>,
    k: nat,
)
    requires
        k <= second.len(),
    ensures
        video_sender::replied(outcome, channel, first + second, first.len() + k)
            == video_sender::replied(
            video_sender::replied(outcome, channel, first + second, first.len()),
            channel,
            second,
            k,
        ),
    decreases k,
{
    if k > 0 {
        lemma_replied_further(outcome, channel, first, second, (k - 1) as nat);
        assert((first.len() + k - 1) as nat == first.len() + (k - 1) as nat);
        assert((first + second)[first.len() + k - 1] == second[k - 1]);
    }
}

/// Where the run of `s` stands when it has gone through access units as the run of `t` has
/// through its first `k`.
spec fn shadow(
    s: VideoSender,
    t: VideoSender,
    channel: Seq<char>,
    replies: Seq<Seq<Result<Vec<u8>, String>>>,
    k: nat,
) -> VideoSender {
    let now = video_sender::after(t, channel, replies, k).1;
    VideoSender {
        config: s.config,
        pending: s.pending,
        next_frame_id: now.next_frame_id,
        next_pts_ticks: now.next_pts_ticks,
        run: Some(
            VideoRun {
                encoded: s.run->0.encoded + k,
                awaited: 0,
                payloads: s.run->0.payloads + video_sender::all_sent(channel, replies, k),
                ..s.run->0
            },
        ),
    }
}

/// A run of `s` that has yet to give out the access units of `t` does so as `t` does.
proof fn lemma_shadow(
    s: VideoSender,
    t: VideoSender,
    channel: Seq<char>,
    longer: Seq<Seq<Result<Vec<u8>, String>>>,
    replies: Seq<Seq<Result<Vec<u8>, String>>>,
    k: nat,
)
    requires
        video_sender::run_begins(t),
        s.run is Some,
        s.config == t.config,
        s.next_frame_id == t.next_frame_id,
        s.next_pts_ticks == t.next_pts_ticks,
        s.run->0.stored_at == t.run->0.stored_at,
        s.run->0.encoded + t.run->0.units.len() <= s.run->0.units.len(),
        forall|i: int|
            0 <= i < t.run->0.units.len() ==> s.run->0.units[s.run->0.encoded + i]
                == #[trigger] t.run->0.units[i],
        k <= t.run->0.units.len(),
        k <= replies.len() <= longer.len(),
        forall|i: int| 0 <= i < replies.len() ==> #[trigger] longer[i] == replies[i],
        video_sender::after(t, channel, replies, k).0 is Ok,
    ensures
        video_sender::after(s, channel, longer, k) == video_sender::step(
            shadow(s, t, channel, replies, k),
        ),
        k < t.run->0.units.len() ==> video_sender::after(s, channel, longer, k).0
            == video_sender::after(t, channel, replies, k).0,
    decreases k,
{
    let run = t.run->0;
    let now = shadow(s, t, channel, replies, k);
    video_sender::law_run(t, channel, replies, k);
    if k == 0 {
        assert(now.run->0.payloads =~= s.run->0.payloads);
        assert(now == (VideoSender {
            run: Some(VideoRun { awaited: 0, ..s.run->0 }),
            ..s
        }));
        assert(video_sender::step(now) == video_sender::step(s));
    } else {
        lemma_ok_before(video_sender::step(t), channel, replies, (k - 1) as nat, k);
        lemma_shadow(s, t, channel, longer, replies, (k - 1) as nat);
        video_sender::law_run(t, channel, replies, (k - 1) as nat);
        let early = shadow(s, t, channel, replies, (k - 1) as nat);
        assert(longer[k - 1] == replies[k - 1]);
        assert(s.run->0.units[s.run->0.encoded + (k - 1)] == run.units[k - 1]);
        assert(now.run->0.payloads =~= early.run->0.payloads + wire::pinned(
            channel,
            wire::encoded_bytes(replies[k - 1]),
        ));
    }
    if k < run.units.len() {
        assert(s.run->0.units[(s.run->0.encoded + k) as int] == run.units[k as int]);
    }
}

/// Whether the runs of `t` and `u` are, one behind the other, the run of `s`.
spec fn in_two(s: VideoSender, t: VideoSender, u: VideoSender) -> bool {
    &&& video_sender::run_begins(s)
    &&& video_sender::run_begins(t)
    &&& video_sender::run_begins(u)
    &&& s.config == t.config
    &&& s.config == u.config
    &&& s.next_frame_id == t.next_frame_id
    &&& s.next_pts_ticks == t.next_pts_ticks
    &&& s.run->0.stored_at == t.run->0.stored_at
    &&& s.run->0.stored_at == u.run->0.stored_at
    &&& s.run->0.units == t.run->0.units + u.run->0.units
}

proof fn lemma_two_runs(
    s: VideoSender,
    t: VideoSender,
    u: VideoSender,
    channel: Seq<char>,
    first: Seq<Seq<Result<Vec<u8>, String>>>,
    second: Seq<Seq<Result<Vec<u8>, String>>>,
)
    requires
        in_two(s, t, u),
        first.len() == t.run->0.units.len(),
        second.len() == u.run->0.units.len(),
        video_sender::after(t, channel, first, first.len()).0 is Ok,
        u.next_frame_id == video_sender::after(t, channel, first, first.len()).1.next_frame_id,
        u.next_pts_ticks == video_sender::after(t, channel, first, first.len()).1.next_pts_ticks,
        video_sender::after(u, channel, second, second.len()).0 is Ok,
    ensures
        ({
            let all = first + second;
            let (last, now) = video_sender::after(s, channel, all, all.len());
            let (last_u, now_u) = video_sender::after(u, channel, second, second.len());
            &&& last == Ok::<VideoStep, MediaFault>(
                VideoStep::Done(
                    video_sender::all_sent(channel, first, first.len()) + video_sender::all_sent(
                        channel,
                        second,
                        second.len(),
                    ),
                ),
            )
            &&& now == (VideoSender {
                pending: s.pending.skip(
                    annexb::joined(s.run->0.units, s.run->0.units.len()).len() as int,
                ),
                ..now_u
            })
            &&& forall|k: nat|
                k < first.len() ==> #[trigger] video_sender::after(s, channel, all, k).0
                    == video_sender::after(t, channel, first, k).0
            &&& forall|k: nat|
                k < second.len() ==> video_sender::after(s, channel, all, first.len() + k).0
                    == #[trigger] video_sender::after(u, channel, second, k).0
        }),
{
    let all = first + second;
    let n = first.len();
    let begun_t = video_sender::step(t);
    let begun_u = video_sender::step(u);
    assert(forall|i: int| 0 <= i < n ==> #[trigger] all[i] == first[i]);
    assert forall|k: nat| k <= n implies {
        &&& #[trigger] video_sender::after(s, channel, all, k) == video_sender::step(
            shadow(s, t, channel, first, k),
        )
        &&& k < n ==> video_sender::after(s, channel, all, k).0 == video_sender::after(
            t,
            channel,
            first,
            k,
        ).0
    } by {
        lemma_ok_before(begun_t, channel, first, k, n);
        lemma_shadow(s, t, channel, all, first, k);
    }
    let middle = shadow(s, t, channel, first, n);
    assert(video_sender::after(s, channel, all, n) == video_sender::step(middle));
    video_sender::law_run(t, channel, first, n);
    assert forall|i: int| 0 <= i < u.run->0.units.len() implies middle.run->0.units[n + i]
        == #[trigger] u.run->0.units[i] by {}
    assert forall|k: nat| k <= second.len() implies {
        &&& video_sender::after(s, channel, all, n + k) == video_sender::step(
            shadow(middle, u, channel, second, k),
        )
        &&& k < second.len() ==> video_sender::after(s, channel, all, n + k).0
            == #[trigger] video_sender::after(u, channel, second, k).0
    } by {
        lemma_ok_before(begun_u, channel, second, k, second.len());
        lemma_shadow(middle, u, channel, second, second, k);
        lemma_replied_further(video_sender::step(s), channel, first, second, k);
    }
    let k = second.len();
    video_sender::law_run(u, channel, second, k);
    assert(video_sender::after(u, channel, second, k).0 is Ok);
    assert(video_sender::after(s, channel, all, n + k) == video_sender::step(
        shadow(middle, u, channel, second, k),
    ));
    assert(middle.run->0.payloads =~= video_sender::all_sent(channel, first, n));
    assert(all.len() == n + k);
}

// Sending in pieces

/// The family of the stream of a sender that is in order.
pub open spec fn family_of(sender: VideoSender) -> VideoFamily {
    if codec::named_codec(sender.config.codec) == Some(VideoCodec::H264) {
        VideoFamily::H264
    } else {
        VideoFamily::H265
    }
}

/// A push and its whole run, given the encoder's replies for one frame after the other.
pub open spec fn push_run(
    sender: VideoSender,
    stored_at: Seq<char>,
    bytes: Seq<u8>,
    channel: Seq<char>,
    replies: Seq<Seq<Result<Vec<u8>, String>>>,
) -> (Result<VideoStep, MediaFault>, VideoSender) {
    video_sender::replied(
        video_sender::pushed(sender, stored_at, bytes),
        channel,
        replies,
        replies.len(),
    )
}

/// A finish and its whole run, given the encoder's replies for one frame after the other.
pub open spec fn finish_run(
    sender: VideoSender,
    stored_at: Seq<char>,
    channel: Seq<char>,
    replies: Seq<Seq<Result<Vec<u8>, String>>>,
) -> (Result<VideoStep, MediaFault>, VideoSender) {
    video_sender::replied(
        video_sender::begin(sender, stored_at, true),
        channel,
        replies,
        replies.len(),
    )
}

/// `sender` at the beginning of a run that gives `units` out of `pending`.
spec fn run_of(
    sender: VideoSender,
    pending: Seq<u8>,
    units: Seq<AccessUnit>,
    stored_at: Seq<char>,
) -> VideoSender {
    VideoSender {
        pending,
        run: Some(
            VideoRun {
                units,
                encoded: 0,
                awaited: 0,
                payloads: Seq::empty(),
                stored_at,
            },
        ),
        ..sender
    }
}

/// A run begins as the step of its sender, also where it has nothing to give out.
proof fn lemma_begin_steps(sender: VideoSender, stored_at: Seq<char>, flush_last: bool)
    requires
        video_sender::in_order(sender),
        stored_at.len() > 0,
    ensures
        ({
            let family = family_of(sender);
            let units = match annexb::split_stream(family, sender.pending) {
                Ok(units) => video_sender::complete_units(units, flush_last),
                Err(_) => Seq::empty(),
            };
            let begun = run_of(sender, sender.pending, units, stored_at);
            &&& video_sender::begin(sender, stored_at, flush_last) == video_sender::step(begun)
            &&& video_sender::run_begins(begun)
        }),
{
    let family = family_of(sender);
    let pending = sender.pending;
    assert(annexb::split_named(sender.config.codec, pending) == annexb::split_stream(
        family,
        pending,
    ));
    if annexb::split_stream(family, pending) is Ok {
        video_sender::lemma_complete_units_fit(sender.config.codec, pending, flush_last);
    }
    if pending.len() == 0 {
        annexb::lemma_codes_apart(pending, 0);
        if annexb::start_codes(pending, 0).len() > 0 {
            assert(annexb::start_codes(pending, 0)[0] >= 0);
        }
    }
    assert(pending.skip(0) =~= pending);
    assert(annexb::joined(Seq::<AccessUnit>::empty(), 0) =~= Seq::<u8>::empty());
}

proof fn lemma_settled(
    outcome: (Result<VideoStep, MediaFault>, VideoSender),
    channel: Seq<char>,
    replies: Seq<Seq<Result<Vec<u8>, String>>>,
    k: nat,
)
    requires
        !(outcome.0 is Ok && outcome.0->Ok_0 is Frame),
    ensures
        video_sender::replied(outcome, channel, replies, k) == outcome,
    decreases k,
{
    if k > 0 {
        lemma_settled(outcome, channel, replies, (k - 1) as nat);
    }
}

/// A push whose run does not fail begins with the step of its sender.
proof fn lemma_push_steps(
    sender: VideoSender,
    stored_at: Seq<char>,
    bytes: Seq<u8>,
    channel: Seq<char>,
    replies: Seq<Seq<Result<Vec<u8>, String>>>,
)
    requires
        video_sender::in_order(sender),
        push_run(sender, stored_at, bytes, channel, replies).0 is Ok,
    ensures
        ({
            let pending = sender.pending + bytes;
            let begun = run_of(sender, pending, given(family_of(sender), pending), stored_at);
            &&& stored_at.len() > 0
            &&& pending.len() <= sender.config.max_pending_bytes
            &&& video_sender::pushed(sender, stored_at, bytes) == video_sender::step(begun)
            &&& video_sender::run_begins(begun)
        }),
{
    let first = video_sender::pushed(sender, stored_at, bytes);
    if first.0 is Err {
        lemma_settled(first, channel, replies, replies.len());
    }
    let filled = VideoSender { pending: sender.pending + bytes, run: None, ..sender };
    lemma_begin_steps(filled, stored_at, false);
}

/// How a stream is cut into pushes makes no difference. Two pushes whose runs do not fail
/// give out the frames, hand out the payloads and leave the sender as one push of the same
/// bytes does, given the same replies of the encoder; and that push does not fail either,
/// as long as the bytes may be pending at once.
pub proof fn law_cuts_make_no_difference(
    sender: VideoSender,
    stored_at: Seq<char>,
    a: Seq<u8>,
    b: Seq<u8>,
    channel: Seq<char>,
    first: Seq<Seq<Result<Vec<u8>, String>>>,
    second: Seq<Seq<Result<Vec<u8>, String>>>,
)
    requires
        video_sender::in_order(sender),
        splitting::is_whole(family_of(sender), sender.pending + a + b),
        annexb::start_codes(sender.pending + a + b, 0)[0] == 0,
        (sender.pending + a + b).len() <= sender.config.max_pending_bytes,
        first.len() == given(family_of(sender), sender.pending + a).len(),
        second.len() == given(
            family_of(sender),
            left(family_of(sender), sender.pending + a) + b,
        ).len(),
        push_run(sender, stored_at, a, channel, first).0 is Ok,
        push_run(
            push_run(sender, stored_at, a, channel, first).1,
            stored_at,
            b,
            channel,
            second,
        ).0 is Ok,
    ensures
        ({
            let (one, between) = push_run(sender, stored_at, a, channel, first);
            let (two, behind) = push_run(between, stored_at, b, channel, second);
            let (both, end) = push_run(sender, stored_at, a + b, channel, first + second);
            let parts = video_sender::pushed(sender, stored_at, a);
            let parts_more = video_sender::pushed(between, stored_at, b);
            let whole = video_sender::pushed(sender, stored_at, a + b);
            &&& one->Ok_0 is Done
            &&& two->Ok_0 is Done
            &&& both == Ok::<VideoStep, MediaFault>(
                VideoStep::Done(one->Ok_0->Done_0 + two->Ok_0->Done_0),
            )
            &&& end == behind
            &&& end.run is None
            &&& forall|k: nat|
                k < first.len() ==> #[trigger] video_sender::replied(
                    whole,
                    channel,
                    first + second,
                    k,
                ).0 == video_sender::replied(parts, channel, first, k).0
            &&& forall|k: nat|
                k < second.len() ==> video_sender::replied(
                    whole,
                    channel,
                    first + second,
                    first.len() + k,
                ).0 == #[trigger] video_sender::replied(parts_more, channel, second, k).0
        }),
{
    let family = family_of(sender);
    let held = sender.pending + a;
    assert(sender.pending + (a + b) =~= held + b);
    law_pieces_give_the_same_units(family, held, b);
    let t = run_of(sender, held, given(family, held), stored_at);
    lemma_push_steps(sender, stored_at, a, channel, first);
    video_sender::law_run(t, channel, first, first.len());
    let between = push_run(sender, stored_at, a, channel, first).1;
    assert(between.pending == left(family, held));
    let u = run_of(between, between.pending + b, given(family, between.pending + b), stored_at);
    lemma_push_steps(between, stored_at, b, channel, second);
    video_sender::law_run(u, channel, second, second.len());
    let filled = VideoSender { pending: held + b, run: None, ..sender };
    lemma_begin_steps(filled, stored_at, false);
    let s = run_of(sender, held + b, given(family, held + b), stored_at);
    assert(video_sender::pushed(sender, stored_at, a + b) == video_sender::step(s));
    lemma_two_runs(s, t, u, channel, first, second);
    let (two, behind) = push_run(between, stored_at, b, channel, second);
    let (both, end) = push_run(sender, stored_at, a + b, channel, first + second);
    assert(end.pending == left(family, held + b));
    assert(behind.pending == left(family, between.pending + b));
    assert(behind.run is None);
    assert(end == behind);
    assert forall|k: nat| k < first.len() implies #[trigger] video_sender::replied(
        video_sender::pushed(sender, stored_at, a + b),
        channel,
        first + second,
        k,
    ).0 == video_sender::replied(
        video_sender::pushed(sender, stored_at, a),
        channel,
        first,
        k,
    ).0 by {
        assert(video_sender::after(s, channel, first + second, k).0 == video_sender::after(
            t,
            channel,
            first,
            k,
        ).0);
    }
    assert forall|k: nat| k < second.len() implies video_sender::replied(
        video_sender::pushed(sender, stored_at, a + b),
        channel,
        first + second,
        first.len() + k,
    ).0 == #[trigger] video_sender::replied(
        video_sender::pushed(between, stored_at, b),
        channel,
        second,
        k,
    ).0 by {
        assert(video_sender::after(s, channel, first + second, first.len() + k).0
            == video_sender::after(u, channel, second, k).0);
    }
}

// Sending whole streams

/// The chunks of the first `k` frames that a run gives out, one frame behind the other.
pub open spec fn chunks_given(
    outcome: (Result<VideoStep, MediaFault>, VideoSender),
    channel: Seq<char>,
    replies: Seq<Seq<Result<Vec<u8>, String>>>,
    k: nat,
) -> Seq<records::VideoChunk>
    decreases k,
{
    if k == 0 {
        Seq::empty()
    } else {
        chunks_given(outcome, channel, replies, (k - 1) as nat) + video_sender::replied(
            outcome,
            channel,
            replies,
            (k - 1) as nat,
        ).0->Ok_0->Frame_0.chunks
    }
}

/// The first `k` frames of a run are those of its access units packetized as a stream.
pub proof fn law_runs_give_the_packetized_stream(
    sender: VideoSender,
    channel: Seq<char>,
    replies: Seq<Seq<Result<Vec<u8>, String>>>,
    k: nat,
)
    requires
        video_sender::run_begins(sender),
        k <= sender.run->0.units.len(),
        video_sender::after(sender, channel, replies, k).0 is Ok,
        (k - 1) * sender.config.frame_duration_ticks <= i64::MAX,
    ensures
        video::packetize_units(
            video_sender::stream_options(sender),
            sender.run->0.units,
            k,
        ) == Ok::<Seq<records::VideoChunk>, MediaFault>(
            chunks_given(video_sender::step(sender), channel, replies, k),
        ),
    decreases k,
{
    if k > 0 {
        let duration = sender.config.frame_duration_ticks;
        let before = (k - 1) as nat;
        assert((before - 1) * duration <= before * duration) by (nonlinear_arith);
        lemma_ok_before(video_sender::step(sender), channel, replies, before, k);
        law_runs_give_the_packetized_stream(sender, channel, replies, before);
        video_sender::law_run(sender, channel, replies, before);
        let options = video_sender::stream_options(sender);
        assert(video::stream_frame(options, before as int) is Ok) by {
            let now = video_sender::after(sender, channel, replies, before).1;
            assert(before as int * options.frame_duration_ticks == before * duration);
        }
        let now = video_sender::after(sender, channel, replies, before).1;
        assert(video_sender::next_frame(now)->Ok_0 =~= video::stream_frame(
            options,
            before as int,
        )->Ok_0);
        assert(video::packetize_unit(options, sender.run->0.units, before as int) is Ok);
        video_sender::law_run_agrees_with_stream(sender, channel, replies, before);
    }
}

/// Runs that give out alike give out the same chunks.
proof fn lemma_chunks_alike(
    s: (Result<VideoStep, MediaFault>, VideoSender),
    t: (Result<VideoStep, MediaFault>, VideoSender),
    channel: Seq<char>,
    all: Seq<Seq<Result<Vec<u8>, String>>>,
    replies: Seq<Seq<Result<Vec<u8>, String>>>,
    n: nat,
    k: nat,
)
    requires
        forall|i: nat|
            i < k ==> video_sender::replied(s, channel, all, n + i).0
                == #[trigger] video_sender::replied(t, channel, replies, i).0,
    ensures
        chunks_given(s, channel, all, n + k) == chunks_given(s, channel, all, n) + chunks_given(
            t,
            channel,
            replies,
            k,
        ),
    decreases k,
{
    let early = chunks_given(s, channel, all, n);
    if k == 0 {
        assert(early + chunks_given(t, channel, replies, 0) =~= early);
    } else {
        let before = (k - 1) as nat;
        lemma_chunks_alike(s, t, channel, all, replies, n, before);
        assert((n + k - 1) as nat == n + before);
        assert(video_sender::replied(s, channel, all, n + before).0 == video_sender::replied(
            t,
            channel,
            replies,
            before,
        ).0);
        let more = video_sender::replied(t, channel, replies, before).0->Ok_0->Frame_0.chunks;
        assert(early + (chunks_given(t, channel, replies, before) + more) =~= early
            + chunks_given(t, channel, replies, before) + more);
    }
}

/// Whether `sender` sends a whole stream with a push of its last bytes and a finish: the
/// stream begins with a start code, its start codes are all followed by complete NAL units,
/// the encoder's replies are there for every frame, and neither run fails.
pub open spec fn sends_whole(
    sender: VideoSender,
    stored_at: Seq<char>,
    bytes: Seq<u8>,
    channel: Seq<char>,
    first: Seq<Seq<Result<Vec<u8>, String>>>,
    second: Seq<Seq<Result<Vec<u8>, String>>>,
) -> bool {
    let family = family_of(sender);
    let w = sender.pending + bytes;
    let (one, between) = push_run(sender, stored_at, bytes, channel, first);
    &&& video_sender::in_order(sender)
    &&& splitting::is_whole(family, w)
    &&& annexb::start_codes(w, 0)[0] == 0
    &&& first.len() + 1 == annexb::stream_units(family, w).len()
    &&& second.len() == 1
    &&& one is Ok
    &&& finish_run(between, stored_at, channel, second).0 is Ok
}

/// A push of a whole stream and a finish are one run through all of its access units.
proof fn lemma_whole_run(
    sender: VideoSender,
    stored_at: Seq<char>,
    bytes: Seq<u8>,
    channel: Seq<char>,
    first: Seq<Seq<Result<Vec<u8>, String>>>,
    second: Seq<Seq<Result<Vec<u8>, String>>>,
)
    requires
        sends_whole(sender, stored_at, bytes, channel, first, second),
    ensures
        ({
            let family = family_of(sender);
            let w = sender.pending + bytes;
            let (one, between) = push_run(sender, stored_at, bytes, channel, first);
            let (two, end) = finish_run(between, stored_at, channel, second);
            let s = run_of(sender, w, annexb::stream_units(family, w), stored_at);
            let all = first + second;
            &&& video_sender::run_begins(s)
            &&& video_sender::after(s, channel, all, first.len() + 1).0 is Ok
            &&& one == Ok::<VideoStep, MediaFault>(
                VideoStep::Done(video_sender::all_sent(channel, first, first.len())),
            )
            &&& two == Ok::<VideoStep, MediaFault>(
                VideoStep::Done(video_sender::all_sent(channel, second, 1)),
            )
            &&& one->Ok_0->Done_0 + two->Ok_0->Done_0 == video_sender::all_sent(
                channel,
                all,
                first.len() + 1,
            )
            &&& end.next_frame_id == sender.next_frame_id + first.len() + 1
            &&& end.pending == Seq::<u8>::empty()
            &&& end.run is None
            &&& forall|k: nat|
                k < first.len() ==> video_sender::after(s, channel, all, k).0
                    == #[trigger] video_sender::replied(
                    video_sender::pushed(sender, stored_at, bytes),
                    channel,
                    first,
                    k,
                ).0
            &&& forall|k: nat|
                k < 1 ==> video_sender::after(s, channel, all, first.len() + k).0
                    == #[trigger] video_sender::replied(
                    video_sender::begin(between, stored_at, true),
                    channel,
                    second,
                    k,
                ).0
        }),
{
    let family = family_of(sender);
    let w = sender.pending + bytes;
    let units = annexb::stream_units(family, w);
    let n = first.len();
    let all = first + second;
    law_the_rest_is_the_last_unit(family, w);
    let t = run_of(sender, w, given(family, w), stored_at);
    lemma_push_steps(sender, stored_at, bytes, channel, first);
    assert(given(family, w).len() == n);
    video_sender::law_run(t, channel, first, n);
    let between = push_run(sender, stored_at, bytes, channel, first).1;
    assert(between.pending == left(family, w));
    lemma_begin_steps(between, stored_at, true);
    let last_units = annexb::stream_units(family, between.pending);
    let u = run_of(between, between.pending, last_units, stored_at);
    assert(video_sender::begin(between, stored_at, true) == video_sender::step(u));
    video_sender::law_run(u, channel, second, 1);
    let filled = VideoSender { pending: w, run: None, ..sender };
    lemma_begin_steps(filled, stored_at, true);
    let s = run_of(sender, w, units, stored_at);
    lemma_two_runs(s, t, u, channel, first, second);
    assert(all.len() == n + 1);
    video_sender::law_run(s, channel, all, n + 1);
    video_sender::law_last_frame_waits(family, between.pending);
    assert forall|k: nat| k < n implies video_sender::after(s, channel, all, k).0
        == #[trigger] video_sender::replied(
        video_sender::pushed(sender, stored_at, bytes),
        channel,
        first,
        k,
    ).0 by {
        assert(video_sender::after(s, channel, all, k).0 == video_sender::after(
            t,
            channel,
            first,
            k,
        ).0);
    }
    assert forall|k: nat| k < 1 implies video_sender::after(s, channel, all, n + k).0
        == #[trigger] video_sender::replied(
        video_sender::begin(between, stored_at, true),
        channel,
        second,
        k,
    ).0 by {
        assert(video_sender::after(s, channel, all, n + k).0 == video_sender::after(
            u,
            channel,
            second,
            k,
        ).0);
    }
}

/// A push of a stream and a finish send the whole stream: where their runs do not fail, the
/// chunks of their frames, one behind the other, are those of the packetized stream, every
/// access unit has had its frame id, the payloads are what all the frames were encoded to,
/// in order, and nothing is left pending.
pub proof fn law_push_and_finish_send_the_stream(
    sender: VideoSender,
    stored_at: Seq<char>,
    bytes: Seq<u8>,
    channel: Seq<char>,
    first: Seq<Seq<Result<Vec<u8>, String>>>,
    second: Seq<Seq<Result<Vec<u8>, String>>>,
)
    requires
        sends_whole(sender, stored_at, bytes, channel, first, second),
        first.len() * sender.config.frame_duration_ticks <= i64::MAX,
    ensures
        ({
            let (one, between) = push_run(sender, stored_at, bytes, channel, first);
            let (two, end) = finish_run(between, stored_at, channel, second);
            let early = chunks_given(
                video_sender::pushed(sender, stored_at, bytes),
                channel,
                first,
                first.len(),
            );
            let late = chunks_given(
                video_sender::begin(between, stored_at, true),
                channel,
                second,
                1,
            );
            &&& video::packetize_stream(
                video_sender::stream_options(sender),
                sender.pending + bytes,
            ) == Ok::<Seq<records::VideoChunk>, MediaFault>(early + late)
            &&& one->Ok_0 is Done
            &&& two->Ok_0 is Done
            &&& one->Ok_0->Done_0 + two->Ok_0->Done_0 == video_sender::all_sent(
                channel,
                first + second,
                first.len() + 1,
            )
            &&& end.next_frame_id == sender.next_frame_id + first.len() + 1
            &&& end.pending == Seq::<u8>::empty()
            &&& end.run is None
        }),
{
    let family = family_of(sender);
    let w = sender.pending + bytes;
    let n = first.len();
    let all = first + second;
    let between = push_run(sender, stored_at, bytes, channel, first).1;
    let s = run_of(sender, w, annexb::stream_units(family, w), stored_at);
    let begun_t = video_sender::pushed(sender, stored_at, bytes);
    let begun_u = video_sender::begin(between, stored_at, true);
    lemma_whole_run(sender, stored_at, bytes, channel, first, second);
    law_runs_give_the_packetized_stream(s, channel, all, n + 1);
    assert(video_sender::stream_options(s) == video_sender::stream_options(sender));
    lemma_chunks_alike(video_sender::step(s), begun_t, channel, all, first, 0, n);
    lemma_chunks_alike(video_sender::step(s), begun_u, channel, all, second, n, 1);
    let early = chunks_given(begun_t, channel, first, n);
    assert(chunks_given(video_sender::step(s), channel, all, 0) + early =~= early);
}

// Onto the wire

/// The first `k` of `lists`, one behind the other.
pub open spec fn flattened<T>(lists: Seq<Seq<T>>, k: nat) -> Seq<T>
    decreases k,
{
    if k == 0 {
        Seq::empty()
    } else {
        flattened(lists, (k - 1) as nat) + lists[k - 1]
    }
}

/// What the first `k` frames that a run gives out become on the wire, one frame behind the
/// other, where the media wire layer says `verdicts` of their chunks; or the first fault.
pub open spec fn records_given(
    outcome: (Result<VideoStep, MediaFault>, VideoSender),
    channel: Seq<char>,
    replies: Seq<Seq<Result<Vec<u8>, String>>>,
    verdicts: Seq<Seq<Result<(), String>>>,
    k: nat,
) -> Result<Seq<records::WireItem>, MediaFault>
    decreases k,
{
    if k == 0 {
        Ok(Seq::empty())
    } else {
        wire::in_turn(
            records_given(outcome, channel, replies, verdicts, (k - 1) as nat),
            wire::frames_with_parity(
                video_sender::replied(
                    outcome,
                    channel,
                    replies,
                    (k - 1) as nat,
                ).0->Ok_0->Frame_0.chunks,
                verdicts[k - 1],
                0,
            ),
        )
    }
}

/// Whether there is a verdict for each chunk of the first `k` frames that a run gives out.
pub open spec fn all_judged(
    outcome: (Result<VideoStep, MediaFault>, VideoSender),
    channel: Seq<char>,
    replies: Seq<Seq<Result<Vec<u8>, String>>>,
    verdicts: Seq<Seq<Result<(), String>>>,
    k: nat,
) -> bool {
    forall|i: int|
        0 <= i < k ==> (#[trigger] verdicts[i]).len() == video_sender::replied(
            outcome,
            channel,
            replies,
            i as nat,
        ).0->Ok_0->Frame_0.chunks.len()
}

/// Frames that a run gives out go onto the wire as their chunks together would: frame by
/// frame, each frame's chunks and behind them its parity. One reply of the encoder stands
/// for each record.
pub proof fn law_runs_put_their_chunks_on_the_wire(
    sender: VideoSender,
    channel: Seq<char>,
    replies: Seq<Seq<Result<Vec<u8>, String>>>,
    verdicts: Seq<Seq<Result<(), String>>>,
    k: nat,
)
    requires
        video_sender::run_begins(sender),
        k <= sender.run->0.units.len(),
        video_sender::after(sender, channel, replies, k).0 is Ok,
        all_judged(video_sender::step(sender), channel, replies, verdicts, k),
    ensures
        ({
            let begun = video_sender::step(sender);
            let chunks = chunks_given(begun, channel, replies, k);
            let items = records_given(begun, channel, replies, verdicts, k);
            &&& wire::frames_with_parity(chunks, flattened(verdicts, k), 0) == items
            &&& items is Ok ==> items->Ok_0.len() == flattened(replies, k).len()
            &&& chunks.len() == flattened(verdicts, k).len()
            &&& k > 0 ==> chunks.len() > 0
            &&& k > 0 ==> chunks.last().meta.frame_id == sender.next_frame_id + k - 1
        }),
    decreases k,
{
    let begun = video_sender::step(sender);
    if k > 0 {
        let before = (k - 1) as nat;
        lemma_ok_before(begun, channel, replies, before, k);
        assert(all_judged(begun, channel, replies, verdicts, before));
        law_runs_put_their_chunks_on_the_wire(sender, channel, replies, verdicts, before);
        video_sender::law_run(sender, channel, replies, before);
        video_sender::law_run(sender, channel, replies, k);
        let (last, now) = video_sender::after(sender, channel, replies, before);
        let options = video_sender::next_frame(now)->Ok_0;
        let unit = sender.run->0.units[before as int];
        let frame = last->Ok_0->Frame_0.chunks;
        assert(frame == video::frame_chunks(options, unit));
        video::lemma_chunks_needed(unit.bytes.len(), options.max_payload_bytes as nat);
        let early = chunks_given(begun, channel, replies, before);
        let early_verdicts = flattened(verdicts, before);
        assert(verdicts[k - 1].len() == frame.len());
        let more = wire::frames_with_parity(frame, verdicts[k - 1], 0);
        if more is Ok {
            wire::law_frames_have_their_records(options, unit, verdicts[k - 1]);
        }
        if k == 1 {
            assert(early + frame =~= frame);
            assert(early_verdicts + verdicts[k - 1] =~= verdicts[k - 1]);
            if more is Ok {
                assert(Seq::<records::WireItem>::empty() + more->Ok_0 =~= more->Ok_0);
            }
        } else {
            assert(!wire::same_frame(early.last(), frame[0]));
            wire::law_frames_go_one_by_one(early, frame, early_verdicts, verdicts[k - 1]);
        }
        assert((early + frame).last() == frame.last());
    }
}

proof fn lemma_flattened_payloads(
    channel: Seq<char>,
    replies: Seq<Seq<Result<Vec<u8>, String>>>,
    k: nat,
)
    ensures
        wire::pinned(channel, wire::encoded_bytes(flattened(replies, k)))
            == video_sender::all_sent(channel, replies, k),
    decreases k,
{
    if k > 0 {
        lemma_flattened_payloads(channel, replies, (k - 1) as nat);
        let early = flattened(replies, (k - 1) as nat);
        assert(wire::pinned(channel, wire::encoded_bytes(early + replies[k - 1]))
            =~= wire::pinned(channel, wire::encoded_bytes(early)) + wire::pinned(
            channel,
            wire::encoded_bytes(replies[k - 1]),
        ));
    } else {
        assert(wire::pinned(channel, wire::encoded_bytes(flattened(replies, 0)))
            =~= Seq::<wire::SendPayload>::empty());
    }
}

proof fn lemma_flattened_ok(
    sender: VideoSender,
    channel: Seq<char>,
    replies: Seq<Seq<Result<Vec<u8>, String>>>,
    k: nat,
)
    requires
        video_sender::run_begins(sender),
        k <= sender.run->0.units.len(),
        video_sender::after(sender, channel, replies, k).0 is Ok,
    ensures
        forall|i: int|
            0 <= i < flattened(replies, k).len() ==> #[trigger] flattened(replies, k)[i] is Ok,
    decreases k,
{
    if k > 0 {
        let before = (k - 1) as nat;
        lemma_ok_before(video_sender::step(sender), channel, replies, before, k);
        lemma_flattened_ok(sender, channel, replies, before);
        video_sender::law_run(sender, channel, replies, k);
        let early = flattened(replies, before);
        let all = flattened(replies, k);
        assert forall|i: int| 0 <= i < all.len() implies #[trigger] all[i] is Ok by {
            if i < early.len() {
                assert(all[i] == early[i]);
            } else {
                assert(all[i] == replies[k - 1][i - early.len()]);
            }
        }
    }
}

/// A push of a stream and a finish send what the whole stream would be sent as: the
/// packetized stream, with its parity, becomes as many records as the frames of both runs
/// together, and the same replies of the encoder become the same payloads.
pub proof fn law_push_and_finish_send_what_the_stream_becomes(
    sender: VideoSender,
    stored_at: Seq<char>,
    bytes: Seq<u8>,
    channel: Seq<char>,
    first: Seq<Seq<Result<Vec<u8>, String>>>,
    second: Seq<Seq<Result<Vec<u8>, String>>>,
    verdicts: Seq<Seq<Result<(), String>>>,
)
    requires
        sends_whole(sender, stored_at, bytes, channel, first, second),
        first.len() * sender.config.frame_duration_ticks <= i64::MAX,
        all_judged(
            video_sender::pushed(sender, stored_at, bytes),
            channel,
            first,
            verdicts,
            first.len(),
        ),
        all_judged(
            video_sender::begin(
                push_run(sender, stored_at, bytes, channel, first).1,
                stored_at,
                true,
            ),
            channel,
            second,
            verdicts.skip(first.len() as int),
            1,
        ),
        verdicts.len() == first.len() + 1,
        flattened(first + second, first.len() + 1).len() <= usize::MAX,
    ensures
        ({
            let (one, between) = push_run(sender, stored_at, bytes, channel, first);
            let two = finish_run(between, stored_at, channel, second).0;
            let chunks = video::packetize_stream(
                video_sender::stream_options(sender),
                sender.pending + bytes,
            )->Ok_0;
            let n = first.len() + 1;
            let items = wire::frames_with_parity(chunks, flattened(verdicts, n), 0);
            items is Ok ==> wire::sent(
                channel,
                items->Ok_0.len() as usize,
                flattened(first + second, n),
            ) == Ok::<Seq<wire::SendPayload>, MediaFault>(
                one->Ok_0->Done_0 + two->Ok_0->Done_0,
            )
        }),
{
    let w = sender.pending + bytes;
    let n = first.len();
    let all = first + second;
    let between = push_run(sender, stored_at, bytes, channel, first).1;
    let s = run_of(sender, w, annexb::stream_units(family_of(sender), w), stored_at);
    let begun = video_sender::step(s);
    let begun_t = video_sender::pushed(sender, stored_at, bytes);
    let begun_u = video_sender::begin(between, stored_at, true);
    lemma_whole_run(sender, stored_at, bytes, channel, first, second);
    law_runs_give_the_packetized_stream(s, channel, all, n + 1);
    assert(video_sender::stream_options(s) == video_sender::stream_options(sender));
    assert(all_judged(begun, channel, all, verdicts, n + 1)) by {
        assert forall|i: int| 0 <= i < n + 1 implies (#[trigger] verdicts[i]).len()
            == video_sender::replied(begun, channel, all, i as nat).0->Ok_0->Frame_0.chunks.len() by {
            if i < n {
                assert(video_sender::replied(begun_t, channel, first, i as nat).0
                    == video_sender::after(s, channel, all, i as nat).0);
            } else {
                assert(video_sender::replied(begun_u, channel, second, 0).0
                    == video_sender::after(s, channel, all, n + 0).0);
                assert(verdicts.skip(n as int)[0] == verdicts[i]);
            }
        }
    }
    law_runs_put_their_chunks_on_the_wire(s, channel, all, verdicts, n + 1);
    lemma_flattened_payloads(channel, all, n + 1);
    lemma_flattened_ok(s, channel, all, n + 1);
    let together = flattened(all, n + 1);
    wire::law_replies_become_payloads(channel, together.len() as usize, together);
}

} // verus!
