//! PCM streams that reach a sender in pieces: how a stream is cut into pushes makes no
//! difference to what is sent of it.

use vstd::arithmetic::div_mod;
use vstd::prelude::*;

use crate::audio_sender;
use crate::audio_sender::{AudioRun, AudioSender, AudioStep};
use crate::error::MediaFault;
use crate::wire::SendPayload;

verus! {

// Runs one after the other

proof fn lemma_ok_before(
    outcome: (Result<AudioStep, MediaFault>, AudioSender),
    channel: Seq<char>,
    replies: Seq<Result<Vec<u8>, String>>,
    k: nat,
    n: nat,
)
    requires
        k <= n,
        audio_sender::replied(outcome, channel, replies, n).0 is Ok,
    ensures
        audio_sender::replied(outcome, channel, replies, k).0 is Ok,
    decreases n,
{
    if k < n {
        lemma_ok_before(outcome, channel, replies, k, (n - 1) as nat);
    }
}

proof fn lemma_replied_further(
    outcome: (Result<AudioStep, MediaFault>, AudioSender),
    channel: Seq<char>,
    first: Seq<Result<Vec<u8>, String>>,
    second: Seq<Result<Vec<u8>, String>>,
    k: nat,
)
    requires
        k <= second.len(),
    ensures
        audio_sender::replied(outcome, channel, first + second, first.len() + k)
            == audio_sender::replied(
            audio_sender::replied(outcome, channel, first + second, first.len()),
            channel,
            second,
            k,
        ),
    decreases k,
{
    if k > 0 {
        lemma_replied_further(outcome, channel, first, second, (k - 1) as nat);
        assert((first.len() + k - 1) as nat == first.len() + (k - 1) as nat);
        assert((first + second)[first.len() + k - 1] == second[k - 1]);
    }
}

/// Where the run of `s` stands when it has gone through packets as the run of `t` has
/// through its first `k`.
spec fn shadow(
    s: AudioSender,
    t: AudioSender,
    channel: Seq<char>,
    replies: Seq<Result<Vec<u8>, String>>,
    k: nat,
) -> AudioSender {
    let now = audio_sender::after(t, channel, replies, k).1;
    AudioSender {
        config: s.config,
        pending: s.pending,
        next_packet_id: now.next_packet_id,
        next_pts_ticks: now.next_pts_ticks,
        run: Some(
            AudioRun {
                encoded: s.run->0.encoded + k,
                payloads: s.run->0.payloads + audio_sender::all_sent(channel, replies, k),
                ..s.run->0
            },
        ),
    }
}

/// Whether the run of `s` has yet to give out the packets of `t`.
spec fn holds_packets(s: AudioSender, t: AudioSender) -> bool {
    let size = audio_sender::packet_bytes(s.config);
    &&& audio_sender::run_begins(t)
    &&& s.run is Some
    &&& s.config == t.config
    &&& s.next_packet_id == t.next_packet_id
    &&& s.next_pts_ticks == t.next_pts_ticks
    &&& s.run->0.stored_at == t.run->0.stored_at
    &&& s.run->0.encoded + t.run->0.packets <= s.run->0.packets
    &&& forall|i: int|
        0 <= i < t.run->0.packets ==> audio_sender::packet_payload(
            s.pending,
            size,
            s.run->0.encoded + i,
        ) == #[trigger] audio_sender::packet_payload(t.pending, size, i)
}

/// A run of `s` that has yet to give out the packets of `t` does so as `t` does.
proof fn lemma_shadow(
    s: AudioSender,
    t: AudioSender,
    channel: Seq<char>,
    longer: Seq<Result<Vec<u8>, String>>,
    replies: Seq<Result<Vec<u8>, String>>,
    k: nat,
)
    requires
        holds_packets(s, t),
        k <= t.run->0.packets,
        k <= replies.len() <= longer.len(),
        forall|i: int| 0 <= i < replies.len() ==> #[trigger] longer[i] == replies[i],
        audio_sender::after(t, channel, replies, k).0 is Ok,
    ensures
        audio_sender::after(s, channel, longer, k) == audio_sender::step(
            shadow(s, t, channel, replies, k),
        ),
        k < t.run->0.packets ==> audio_sender::after(s, channel, longer, k).0
            == audio_sender::after(t, channel, replies, k).0,
    decreases k,
{
    let run = t.run->0;
    let size = audio_sender::packet_bytes(s.config);
    let now = shadow(s, t, channel, replies, k);
    audio_sender::law_run(t, channel, replies, k);
    if k == 0 {
        assert(now.run->0.payloads =~= s.run->0.payloads);
        assert(now == s);
    } else {
        lemma_ok_before(audio_sender::step(t), channel, replies, (k - 1) as nat, k);
        lemma_shadow(s, t, channel, longer, replies, (k - 1) as nat);
        audio_sender::law_run(t, channel, replies, (k - 1) as nat);
        let early = shadow(s, t, channel, replies, (k - 1) as nat);
        assert(longer[k - 1] == replies[k - 1]);
        assert(audio_sender::packet_payload(s.pending, size, s.run->0.encoded + (k - 1))
            == audio_sender::packet_payload(t.pending, size, k - 1));
        assert(now.run->0.payloads =~= early.run->0.payloads.push(
            SendPayload { channel_id: channel, payload: replies[k - 1]->Ok_0@ },
        ));
    }
    if k < run.packets {
        assert(audio_sender::packet_payload(s.pending, size, s.run->0.encoded + (k as int))
            == audio_sender::packet_payload(t.pending, size, k as int));
    }
}

// Sending in pieces

/// A push and its whole run, given the encoder's replies for one packet after the other.
pub open spec fn push_run(
    sender: AudioSender,
    stored_at: Seq<char>,
    bytes: Seq<u8>,
    channel: Seq<char>,
    replies: Seq<Result<Vec<u8>, String>>,
) -> (Result<AudioStep, MediaFault>, AudioSender) {
    audio_sender::replied(
        audio_sender::pushed(sender, stored_at, bytes),
        channel,
        replies,
        replies.len(),
    )
}

/// How many packets `pending` bytes fill.
pub open spec fn packets_in(sender: AudioSender, pending: Seq<u8>) -> nat {
    pending.len() / audio_sender::packet_bytes(sender.config)
}

/// What packets leave of `pending` bytes.
pub open spec fn left(sender: AudioSender, pending: Seq<u8>) -> Seq<u8> {
    pending.skip(
        (packets_in(sender, pending) * audio_sender::packet_bytes(sender.config)) as int,
    )
}

/// `sender` at the beginning of a run that gives the packets of `pending` out.
spec fn run_of(sender: AudioSender, pending: Seq<u8>, stored_at: Seq<char>) -> AudioSender {
    AudioSender {
        pending,
        run: Some(
            AudioRun {
                packets: packets_in(sender, pending),
                encoded: 0,
                payloads: Seq::empty(),
                stored_at,
                finishing: false,
            },
        ),
        ..sender
    }
}

proof fn lemma_settled(
    outcome: (Result<AudioStep, MediaFault>, AudioSender),
    channel: Seq<char>,
    replies: Seq<Result<Vec<u8>, String>>,
    k: nat,
)
    requires
        !(outcome.0 is Ok && outcome.0->Ok_0 is Packet),
    ensures
        audio_sender::replied(outcome, channel, replies, k) == outcome,
    decreases k,
{
    if k > 0 {
        lemma_settled(outcome, channel, replies, (k - 1) as nat);
    }
}

/// A run begins as the step of its sender, also where it has nothing to give out.
proof fn lemma_begin_steps(sender: AudioSender, stored_at: Seq<char>, bytes: Seq<u8>)
    requires
        audio_sender::in_order(sender),
        stored_at.len() > 0,
        audio_sender::packet_bytes(sender.config) <= usize::MAX,
        sender.pending.len() + bytes.len() <= sender.config.max_pending_bytes,
    ensures
        audio_sender::pushed(sender, stored_at, bytes) == audio_sender::step(
            run_of(sender, sender.pending + bytes, stored_at),
        ),
        audio_sender::run_begins(run_of(sender, sender.pending + bytes, stored_at)),
{
    let size = audio_sender::packet_bytes(sender.config);
    let pending = sender.pending + bytes;
    let n = packets_in(sender, pending);
    audio_sender::lemma_packets_hold_bytes(sender.config);
    div_mod::lemma_fundamental_div_mod(pending.len() as int, size as int);
    assert(n * size == size * n) by (nonlinear_arith);
    if n == 0 {
        assert(0 * size == 0) by (nonlinear_arith);
        assert(pending.skip(0) =~= pending);
    }
}

proof fn lemma_push_steps(
    sender: AudioSender,
    stored_at: Seq<char>,
    bytes: Seq<u8>,
    channel: Seq<char>,
    replies: Seq<Result<Vec<u8>, String>>,
)
    requires
        audio_sender::in_order(sender),
        push_run(sender, stored_at, bytes, channel, replies).0 is Ok,
    ensures
        stored_at.len() > 0,
        audio_sender::packet_bytes(sender.config) <= usize::MAX,
        audio_sender::pushed(sender, stored_at, bytes) == audio_sender::step(
            run_of(sender, sender.pending + bytes, stored_at),
        ),
        audio_sender::run_begins(run_of(sender, sender.pending + bytes, stored_at)),
{
    let first = audio_sender::pushed(sender, stored_at, bytes);
    if first.0 is Err {
        lemma_settled(first, channel, replies, replies.len());
    }
    lemma_begin_steps(sender, stored_at, bytes);
}

/// How samples are cut into pushes makes no difference. Two pushes whose runs do not fail
/// give out the packets, hand out the payloads and leave the sender as one push of the same
/// bytes does, given the same replies of the encoder; and that push does not fail either,
/// as long as the bytes may be pending at once. One payload is handed out for each packet
/// that the bytes fill.
pub proof fn law_cuts_make_no_difference(
    sender: AudioSender,
    stored_at: Seq<char>,
    a: Seq<u8>,
    b: Seq<u8>,
    channel: Seq<char>,
    first: Seq<Result<Vec<u8>, String>>,
    second: Seq<Result<Vec<u8>, String>>,
)
    requires
        audio_sender::in_order(sender),
        (sender.pending + a + b).len() <= sender.config.max_pending_bytes,
        first.len() == packets_in(sender, sender.pending + a),
        second.len() == packets_in(sender, left(sender, sender.pending + a) + b),
        push_run(sender, stored_at, a, channel, first).0 is Ok,
        push_run(
            push_run(sender, stored_at, a, channel, first).1,
            stored_at,
            b,
            channel,
            second,
        ).0 is Ok,
    ensures
        ({
            let (one, between) = push_run(sender, stored_at, a, channel, first);
            let (two, behind) = push_run(between, stored_at, b, channel, second);
            let (both, end) = push_run(sender, stored_at, a + b, channel, first + second);
            let parts = audio_sender::pushed(sender, stored_at, a);
            let parts_more = audio_sender::pushed(between, stored_at, b);
            let whole = audio_sender::pushed(sender, stored_at, a + b);
            &&& one->Ok_0 is Done
            &&& two->Ok_0 is Done
            &&& both == Ok::<AudioStep, MediaFault>(
                AudioStep::Done(one->Ok_0->Done_0 + two->Ok_0->Done_0),
            )
            &&& both->Ok_0->Done_0.len() == packets_in(sender, sender.pending + a + b)
            &&& end == behind
            &&& end.run is None
            &&& end.pending == left(sender, sender.pending + a + b)
            &&& forall|k: nat|
                k < first.len() ==> #[trigger] audio_sender::replied(
                    whole,
                    channel,
                    first + second,
                    k,
                ).0 == audio_sender::replied(parts, channel, first, k).0
            &&& forall|k: nat|
                k < second.len() ==> audio_sender::replied(
                    whole,
                    channel,
                    first + second,
                    first.len() + k,
                ).0 == #[trigger] audio_sender::replied(parts_more, channel, second, k).0
        }),
{
    let size = audio_sender::packet_bytes(sender.config);
    let held = sender.pending + a;
    let all = first + second;
    let n = first.len();
    audio_sender::lemma_packets_hold_bytes(sender.config);
    assert(sender.pending + (a + b) =~= held + b);
    audio_sender::law_pieces_make_no_difference(held, b, size);
    let t = run_of(sender, held, stored_at);
    lemma_push_steps(sender, stored_at, a, channel, first);
    audio_sender::law_run(t, channel, first, n);
    let between = push_run(sender, stored_at, a, channel, first).1;
    assert(between.pending == left(sender, held));
    let u = run_of(between, between.pending + b, stored_at);
    lemma_push_steps(between, stored_at, b, channel, second);
    audio_sender::law_run(u, channel, second, second.len());
    let s = run_of(sender, held + b, stored_at);
    lemma_begin_steps(sender, stored_at, a + b);
    assert forall|i: int| 0 <= i < t.run->0.packets implies audio_sender::packet_payload(
        s.pending,
        size,
        s.run->0.encoded + i,
    ) == #[trigger] audio_sender::packet_payload(t.pending, size, i) by {
        assert(audio_sender::packet_payload(s.pending, size, i) == audio_sender::packet_payload(
            t.pending,
            size,
            i,
        ));
    }
    assert(forall|i: int| 0 <= i < n ==> #[trigger] all[i] == first[i]);
    let whole = audio_sender::pushed(sender, stored_at, a + b);
    let parts = audio_sender::pushed(sender, stored_at, a);
    let parts_more = audio_sender::pushed(between, stored_at, b);
    assert forall|k: nat| k < n implies #[trigger] audio_sender::replied(whole, channel, all, k).0
        == audio_sender::replied(parts, channel, first, k).0 by {
        lemma_ok_before(parts, channel, first, k, n);
        lemma_shadow(s, t, channel, all, first, k);
    }
    lemma_shadow(s, t, channel, all, first, n);
    let middle = shadow(s, t, channel, first, n);
    assert(audio_sender::after(s, channel, all, n) == audio_sender::step(middle));
    assert(holds_packets(middle, u)) by {
        assert forall|i: int| 0 <= i < u.run->0.packets implies audio_sender::packet_payload(
            middle.pending,
            size,
            n + i,
        ) == #[trigger] audio_sender::packet_payload(u.pending, size, i) by {}
    }
    assert forall|k: nat| k < second.len() implies audio_sender::replied(
        whole,
        channel,
        all,
        n + k,
    ).0 == #[trigger] audio_sender::replied(parts_more, channel, second, k).0 by {
        lemma_ok_before(parts_more, channel, second, k, second.len());
        lemma_shadow(middle, u, channel, second, second, k);
        lemma_replied_further(whole, channel, first, second, k);
    }
    let m = second.len();
    lemma_shadow(middle, u, channel, second, second, m);
    lemma_replied_further(whole, channel, first, second, m);
    assert(all.len() == n + m);
    let last = shadow(middle, u, channel, second, m);
    assert(audio_sender::replied(whole, channel, all, n + m) == audio_sender::step(last));
    assert(last.run->0.payloads =~= audio_sender::all_sent(channel, first, n)
        + audio_sender::all_sent(channel, second, m));
    assert(push_run(sender, stored_at, a + b, channel, all).1 == push_run(
        between,
        stored_at,
        b,
        channel,
        second,
    ).1);
}

} // verus!
