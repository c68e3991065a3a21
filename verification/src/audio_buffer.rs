//! The audio packet buffer: takes packets in as they arrive and gives them out in order.

use std::collections::BTreeMap;

use vstd::prelude::*;

use crate::error::{MediaError, MediaFault, Refusal};
use crate::ordered;
use crate::ordered::rising_keys;
use crate::records;
use crate::records::{AudioPacket, GameCultMediaAudioPacketRecord};

verus! {

/// What all packets of one buffer have in common.
#[verifier::ext_equal]
pub struct StreamIdentity {
    pub stream_id: Seq<char>,
    pub session_id: Seq<char>,
    pub codec: Seq<char>,
    pub timebase_num: u32,
    pub timebase_den: u32,
}

/// What an `AudioPacketBuffer` holds.
#[verifier::ext_equal]
pub struct PacketBuffer {
    pub identity: Option<StreamIdentity>,
    pub next_packet_id: Option<u64>,
    pub emitted_any: bool,
    pub packets: Map<u64, AudioPacket>,
}

/// The stream that a packet belongs to.
pub open spec fn identity_of(packet: AudioPacket) -> StreamIdentity {
    StreamIdentity {
        stream_id: packet.stream_id,
        session_id: packet.session_id,
        codec: packet.codec,
        timebase_num: packet.timebase_num,
        timebase_den: packet.timebase_den,
    }
}

/// The rule of the buffer's stream that a packet breaks first.
pub open spec fn stream_refusal(buffer: PacketBuffer, packet: AudioPacket) -> Option<Refusal> {
    if packet.stream_id.len() == 0 {
        Some(Refusal::BufferStreamIdEmpty)
    } else if packet.session_id.len() == 0 {
        Some(Refusal::BufferSessionIdEmpty)
    } else if packet.codec.len() == 0 {
        Some(Refusal::BufferCodecEmpty)
    } else if packet.timebase_num == 0 || packet.timebase_den == 0 {
        Some(Refusal::BufferTimebaseZero)
    } else if buffer.identity is Some && buffer.identity != Some(identity_of(packet)) {
        Some(Refusal::BufferMixedMetadata)
    } else {
        None
    }
}

/// A buffer that has seen a packet of its stream: the first one says which stream it is.
pub open spec fn acquainted(buffer: PacketBuffer, packet: AudioPacket) -> PacketBuffer {
    PacketBuffer { identity: Some(identity_of(packet)), ..buffer }
}

/// What taking a packet in comes to, and the buffer behind it. Until a packet has been
/// given out, an earlier packet moves the place where giving out begins.
pub open spec fn inserted(buffer: PacketBuffer, packet: AudioPacket) -> (
    Result<(), Refusal>,
    PacketBuffer,
) {
    let known = acquainted(buffer, packet);
    let id = packet.packet_id;
    if let Some(refusal) = stream_refusal(buffer, packet) {
        (Err(refusal), buffer)
    } else if packet.payload.len() == 0 {
        (Err(Refusal::BufferPayloadEmpty), known)
    } else if buffer.packets.contains_key(id) {
        (Err(Refusal::BufferDuplicatePacket(id)), known)
    } else {
        let taken = PacketBuffer { packets: buffer.packets.insert(id, packet), ..known };
        match buffer.next_packet_id {
            None => (Ok(()), PacketBuffer { next_packet_id: Some(id), ..taken }),
            Some(next) => if id >= next {
                (Ok(()), taken)
            } else if !buffer.emitted_any {
                (Ok(()), PacketBuffer { next_packet_id: Some(id), ..taken })
            } else {
                (
                    Err(Refusal::BufferStalePacket { packet_id: id, next_packet_id: next }),
                    known,
                )
            },
        }
    }
}

/// How many packets the buffer holds from id `from` on without a gap.
pub open spec fn ready_count(packets: Map<u64, AudioPacket>, from: int) -> nat
    decreases u64::MAX + 1 - from,
{
    if 0 <= from <= u64::MAX && packets.contains_key(from as u64) {
        1 + ready_count(packets, from + 1)
    } else {
        0
    }
}

/// The packets with the ids from `from` on that can be given out, in order.
pub open spec fn ready_packets(packets: Map<u64, AudioPacket>, from: u64) -> Seq<AudioPacket> {
    Seq::new(ready_count(packets, from as int), |i: int| packets[(from + i) as u64])
}

/// `packets` without the `count` ids from `from` on.
pub open spec fn without(packets: Map<u64, AudioPacket>, from: int, count: nat) -> Map<
    u64,
    AudioPacket,
> {
    Map::new(
        |id: u64| packets.contains_key(id) && !(from <= id < from + count),
        |id: u64| packets[id],
    )
}

/// The buffer after it has given out what is ready: the ids behind the last one come next,
/// as far as there are any.
pub open spec fn popped(buffer: PacketBuffer) -> PacketBuffer {
    match buffer.next_packet_id {
        None => buffer,
        Some(next) => {
            let count = ready_count(buffer.packets, next as int);
            PacketBuffer {
                next_packet_id: Some(
                    if next + count > u64::MAX {
                        u64::MAX
                    } else {
                        (next + count) as u64
                    },
                ),
                emitted_any: buffer.emitted_any || count > 0,
                packets: without(buffer.packets, next as int, count),
                ..buffer
            }
        },
    }
}

/// Whether the packet with id `id` is past its deadline.
pub open spec fn is_late(packets: Map<u64, AudioPacket>, now_ticks: i64, id: u64) -> bool {
    packets.contains_key(id) && packets[id].deadline_ticks <= now_ticks
}

/// `packets` without those that are past their deadline.
pub open spec fn in_time(packets: Map<u64, AudioPacket>, now_ticks: i64) -> Map<u64, AudioPacket> {
    Map::new(
        |id: u64| packets.contains_key(id) && !is_late(packets, now_ticks, id),
        |id: u64| packets[id],
    )
}

/// Whether `next` is where giving out goes on, in a buffer that held `packets` before
/// those past their deadline were dropped and was waiting for `before`: at the same place,
/// or, where that very packet was dropped, at the smallest id that is left.
pub open spec fn goes_on_at(
    packets: Map<u64, AudioPacket>,
    now_ticks: i64,
    before: Option<u64>,
    next: Option<u64>,
) -> bool {
    let left = in_time(packets, now_ticks);
    if before is Some && is_late(packets, now_ticks, before->0) {
        match next {
            Some(id) => {
                &&& left.contains_key(id)
                &&& forall|other: u64| #[trigger] left.contains_key(other) ==> id <= other
            },
            None => forall|other: u64| !#[trigger] left.contains_key(other),
        }
    } else {
        next == before
    }
}

/// The stream that a buffer's packets belong to.
struct AudioStreamIdentity {
    stream_id: String,
    session_id: String,
    codec: String,
    timebase_num: u32,
    timebase_den: u32,
}

impl AudioStreamIdentity {
    spec fn model(self) -> StreamIdentity {
        StreamIdentity {
            stream_id: self.stream_id@,
            session_id: self.session_id@,
            codec: self.codec@,
            timebase_num: self.timebase_num,
            timebase_den: self.timebase_den,
        }
    }
}

/// Audio packets that wait to be given out in order.
pub struct AudioPacketBuffer {
    identity: Option<AudioStreamIdentity>,
    next_packet_id: Option<u64>,
    emitted_any: bool,
    packets: BTreeMap<u64, GameCultMediaAudioPacketRecord>,
}

impl View for AudioPacketBuffer {
    type V = PacketBuffer;

    closed spec fn view(&self) -> PacketBuffer {
        PacketBuffer {
            identity: match self.identity {
                Some(identity) => Some(identity.model()),
                None => None,
            },
            next_packet_id: self.next_packet_id,
            emitted_any: self.emitted_any,
            packets: self.packets@.map_values(|record: GameCultMediaAudioPacketRecord| record@),
        }
    }
}

/// A buffer that has seen nothing yet.
pub open spec fn empty_buffer() -> PacketBuffer {
    PacketBuffer {
        identity: None,
        next_packet_id: None,
        emitted_any: false,
        packets: Map::empty(),
    }
}

impl Default for AudioPacketBuffer {
    fn default() -> (buffer: Self)
        ensures
            buffer@ == empty_buffer(),
            buffer@.identity is None,
            buffer@.next_packet_id is None,
            !buffer@.emitted_any,
            buffer@.packets == Map::<u64, AudioPacket>::empty(),
    {
        let buffer = AudioPacketBuffer {
            identity: None,
            next_packet_id: None,
            emitted_any: false,
            packets: BTreeMap::new(),
        };
        assert(buffer@.packets =~= Map::<u64, AudioPacket>::empty());
        buffer
    }
}

/// A success or a refusal as the model has it.
pub open spec fn outcome_view(outcome: Result<(), MediaError>) -> Result<(), MediaFault> {
    match outcome {
        Ok(_) => Ok(()),
        Err(error) => Err(error@),
    }
}

/// A refusal as an error.
pub open spec fn refused(outcome: Result<(), Refusal>) -> Result<(), MediaFault> {
    match outcome {
        Ok(_) => Ok(()),
        Err(refusal) => Err(MediaFault::Refused(refusal)),
    }
}

impl AudioPacketBuffer {
    /// Checks that a packet belongs to the buffer's stream. The first packet says which
    /// stream that is.
    fn require_matching_audio_stream(&mut self, packet: &GameCultMediaAudioPacketRecord) -> (outcome:
        Result<(), Refusal>)
        ensures
            match outcome {
                Ok(_) => {
                    &&& stream_refusal(old(self)@, packet@) is None
                    &&& final(self)@ == acquainted(old(self)@, packet@)
                },
                Err(refusal) => {
                    &&& stream_refusal(old(self)@, packet@) == Some(refusal)
                    &&& final(self)@ == old(self)@
                },
            },
            final(self).packets == old(self).packets,
    {
        if packet.stream_id.as_str().is_empty() {
            return Err(Refusal::BufferStreamIdEmpty);
        }
        if packet.session_id.as_str().is_empty() {
            return Err(Refusal::BufferSessionIdEmpty);
        }
        if packet.codec.as_str().is_empty() {
            return Err(Refusal::BufferCodecEmpty);
        }
        if packet.timebase_num == 0 || packet.timebase_den == 0 {
            return Err(Refusal::BufferTimebaseZero);
        }
        if let Some(identity) = &self.identity {
            let same = identity.stream_id == packet.stream_id && identity.session_id
                == packet.session_id && identity.codec == packet.codec && identity.timebase_num
                == packet.timebase_num && identity.timebase_den == packet.timebase_den;
            if !same {
                return Err(Refusal::BufferMixedMetadata);
            }
            return Ok(());
        }
        self.identity = Some(
            AudioStreamIdentity {
                stream_id: packet.stream_id.clone(),
                session_id: packet.session_id.clone(),
                codec: packet.codec.clone(),
                timebase_num: packet.timebase_num,
                timebase_den: packet.timebase_den,
            },
        );
        Ok(())
    }

    /// Takes a packet in.
    pub fn insert(&mut self, packet: GameCultMediaAudioPacketRecord) -> (outcome: Result<
        (),
        MediaError,
    >)
        ensures
            outcome_view(outcome) == refused(inserted(old(self)@, packet@).0),
            final(self)@ == inserted(old(self)@, packet@).1,
            match outcome {
                Ok(_) => inserted(old(self)@, packet@).0 is Ok,
                Err(error) => inserted(old(self)@, packet@).0 is Err && error
                    == MediaError::Refused(inserted(old(self)@, packet@).0->Err_0),
            },
    {
        if let Err(refusal) = self.require_matching_audio_stream(&packet) {
            return Err(MediaError::Refused(refusal));
        }
        if packet.payload.len() == 0 {
            return Err(MediaError::Refused(Refusal::BufferPayloadEmpty));
        }
        let packet_id: u64 = packet.packet_id;
        if self.packets.contains_key(&packet_id) {
            return Err(MediaError::Refused(Refusal::BufferDuplicatePacket(packet_id)));
        }
        match self.next_packet_id {
            None => {
                self.next_packet_id = Some(packet_id);
            },
            Some(next_packet_id) => {
                if packet_id < next_packet_id {
                    if self.emitted_any {
                        return Err(
                            MediaError::Refused(
                                Refusal::BufferStalePacket { packet_id, next_packet_id },
                            ),
                        );
                    }
                    self.next_packet_id = Some(packet_id);
                }
            },
        }
        let ghost before = self.packets@;
        let ghost view = packet@;
        let _ = self.packets.insert(packet_id, packet);
        assert(self@.packets =~= before.map_values(
            |record: GameCultMediaAudioPacketRecord| record@,
        ).insert(packet_id, view));
        Ok(())
    }

    /// Gives out the packets that are next, as far as they have come without a gap.
    pub fn pop_ready_packets(&mut self) -> (ready: Vec<GameCultMediaAudioPacketRecord>)
        ensures
            final(self)@ == popped(old(self)@),
            records::packet_views(ready@) == match old(self)@.next_packet_id {
                Some(next) => ready_packets(old(self)@.packets, next),
                None => Seq::empty(),
            },
    {
        let mut ready: Vec<GameCultMediaAudioPacketRecord> = Vec::new();
        let first: u64 = match self.next_packet_id {
            Some(first) => first,
            None => {
                assert(records::packet_views(ready@) =~= Seq::<AudioPacket>::empty());
                return ready;
            },
        };
        let ghost all = self@.packets;
        let mut next: u64 = first;
        assert(all =~= without(all, first as int, 0));
        loop
            invariant_except_break
                self@ == (PacketBuffer {
                    packets: without(all, first as int, ready@.len()),
                    ..old(self)@
                }),
                next == if first + ready@.len() > u64::MAX {
                    u64::MAX
                } else {
                    (first + ready@.len()) as u64
                },
                first + ready@.len() <= u64::MAX + 1,
                ready_count(all, first as int) == ready@.len() + ready_count(
                    all,
                    first + ready@.len(),
                ),
                forall|i: int|
                    0 <= i < ready@.len() ==> (#[trigger] ready@[i])@ == all[(first + i) as u64],
            invariant
                all == old(self)@.packets,
                old(self)@.next_packet_id == Some(first),
            ensures
                self@ == (PacketBuffer {
                    packets: without(all, first as int, ready@.len()),
                    ..old(self)@
                }),
                ready@.len() == ready_count(all, first as int),
                next == if first + ready@.len() > u64::MAX {
                    u64::MAX
                } else {
                    (first + ready@.len()) as u64
                },
                forall|i: int|
                    0 <= i < ready@.len() ==> (#[trigger] ready@[i])@ == all[(first + i) as u64],
            decreases u64::MAX + 1 - first - ready@.len(),
        {
            let ghost earlier = self@.packets;
            let ghost inner = self.packets@;
            match self.packets.remove(&next) {
                Some(packet) => {
                    proof {
                        assert(earlier.contains_key(next));
                        assert(first + ready@.len() <= u64::MAX);
                        assert(earlier == without(all, first as int, ready@.len()));
                        assert(packet == inner[next]);
                        assert(earlier[next] == packet@);
                        assert(packet@ == all[next]);
                        assert(self.packets@ =~= inner.remove(next));
                        assert(self@.packets =~= earlier.remove(next));
                        assert(earlier.remove(next) =~= without(
                            all,
                            first as int,
                            ready@.len() + 1,
                        ));
                    }
                    ready.push(packet);
                    next = if next == u64::MAX {
                        next
                    } else {
                        next + 1
                    };
                },
                None => {
                    proof {
                        assert(!earlier.contains_key(next));
                        assert(self@.packets =~= earlier);
                        if first + ready@.len() <= u64::MAX {
                            assert(!all.contains_key(next));
                        }
                    }
                    break;
                },
            }
        }
        if ready.len() > 0 {
            self.emitted_any = true;
        }
        self.next_packet_id = Some(next);
        assert(records::packet_views(ready@) =~= ready_packets(all, first));
        ready
    }

    /// Drops the packets that are past their deadline and tells their ids, in rising order.
    pub fn expire_late_packets(&mut self, now_ticks: i64) -> (expired: Vec<u64>)
        ensures
            ordered::rising(expired@),
            forall|id: u64| #[trigger]
                expired@.contains(id) <==> is_late(old(self)@.packets, now_ticks, id),
            final(self)@.identity == old(self)@.identity,
            final(self)@.emitted_any == old(self)@.emitted_any,
            final(self)@.packets == in_time(old(self)@.packets, now_ticks),
            goes_on_at(
                old(self)@.packets,
                now_ticks,
                old(self)@.next_packet_id,
                final(self)@.next_packet_id,
            ),
            forall|i: int, j: int|
                0 <= i < j < expired@.len() ==> #[trigger] expired@[i] < #[trigger] expired@[j],
            forall|id: u64| #[trigger]
                expired@.contains(id) <==> old(self)@.packets.contains_key(id) && old(
                    self,
                )@.packets[id].deadline_ticks <= now_ticks,
    {
        let ids = rising_keys(&self.packets);
        let ghost all = self@.packets;
        let ghost inner = self.packets@;
        let mut expired: Vec<u64> = Vec::new();
        let mut left: Vec<u64> = Vec::new();
        let mut i: usize = 0;
        while i < ids.len()
            invariant
                i <= ids@.len(),
                ordered::rising(ids@),
                all == old(self)@.packets,
                inner == old(self).packets@,
                forall|id: u64| #[trigger] ids@.contains(id) <==> inner.contains_key(id),
                all == inner.map_values(|record: GameCultMediaAudioPacketRecord| record@),
                self.identity == old(self).identity,
                self.next_packet_id == old(self).next_packet_id,
                self.emitted_any == old(self).emitted_any,
                forall|id: u64| #[trigger]
                    self.packets@.contains_key(id) <==> inner.contains_key(id)
                        && !expired@.contains(id),
                forall|id: u64| #[trigger]
                    self.packets@.contains_key(id) ==> self.packets@[id] == inner[id],
                ordered::rising(expired@),
                ordered::rising(left@),
                forall|k: int|
                    #![trigger expired@[k]]
                    0 <= k < expired@.len() ==> {
                        &&& is_late(all, now_ticks, expired@[k])
                        &&& exists|j: int| 0 <= j < i && #[trigger] ids@[j] == expired@[k]
                    },
                forall|k: int|
                    #![trigger left@[k]]
                    0 <= k < left@.len() ==> {
                        &&& inner.contains_key(left@[k])
                        &&& !is_late(all, now_ticks, left@[k])
                        &&& exists|j: int| 0 <= j < i && #[trigger] ids@[j] == left@[k]
                    },
                forall|j: int|
                    #![trigger ids@[j]]
                    0 <= j < i ==> if is_late(all, now_ticks, ids@[j]) {
                        expired@.contains(ids@[j])
                    } else {
                        left@.contains(ids@[j])
                    },
            decreases ids@.len() - i,
        {
            let id: u64 = ids[i];
            assert(ids@.contains(id));
            let ghost expired_before = expired@;
            let ghost left_before = left@;
            let late = match self.packets.get(&id) {
                Some(packet) => packet.deadline_ticks <= now_ticks,
                None => false,
            };
            proof {
                if expired_before.contains(id) {
                    let k = choose|k: int| 0 <= k < expired_before.len() && expired_before[k] == id;
                    let j = choose|j: int| 0 <= j < i && #[trigger] ids@[j] == expired_before[k];
                    assert(ids@[j] < ids@[i as int]);
                }
                assert(self.packets@.contains_key(id));
                assert(late == is_late(all, now_ticks, id));
            }
            if late {
                let _ = self.packets.remove(&id);
                expired.push(id);
            } else {
                left.push(id);
            }
            proof {
                assert forall|n: u64|
                    (expired_before.contains(n) ==> #[trigger] expired@.contains(n)) && (
                    expired@.contains(n) && n != id ==> expired_before.contains(n)) by {
                    if expired_before.contains(n) {
                        let k = choose|k: int|
                            0 <= k < expired_before.len() && expired_before[k] == n;
                        assert(expired@[k] == n);
                    }
                    if expired@.contains(n) && n != id {
                        let k = choose|k: int| 0 <= k < expired@.len() && expired@[k] == n;
                        assert(expired_before[k] == n);
                    }
                }
                assert forall|n: u64| left_before.contains(n) implies #[trigger] left@.contains(
                    n,
                ) by {
                    let k = choose|k: int| 0 <= k < left_before.len() && left_before[k] == n;
                    assert(left@[k] == n);
                }
                if late {
                    assert(expired@[expired@.len() - 1] == id);
                } else {
                    assert(left@[left@.len() - 1] == id);
                }
                assert forall|k: int| #![trigger expired@[k]] 0 <= k < expired@.len() implies {
                    &&& is_late(all, now_ticks, expired@[k])
                    &&& exists|j: int| 0 <= j < i + 1 && #[trigger] ids@[j] == expired@[k]
                } by {
                    if k < expired_before.len() {
                        assert(expired@[k] == expired_before[k]);
                    } else {
                        assert(ids@[i as int] == expired@[k]);
                    }
                }
                assert forall|k: int| #![trigger left@[k]] 0 <= k < left@.len() implies {
                    &&& inner.contains_key(left@[k])
                    &&& !is_late(all, now_ticks, left@[k])
                    &&& exists|j: int| 0 <= j < i + 1 && #[trigger] ids@[j] == left@[k]
                } by {
                    if k < left_before.len() {
                        assert(left@[k] == left_before[k]);
                    } else {
                        assert(ids@[i as int] == left@[k]);
                    }
                }
                assert forall|a: int, b: int|
                    #![trigger expired@[a], expired@[b]]
                    0 <= a < b < expired@.len() implies expired@[a] < expired@[b] by {
                    assert(expired@[a] == expired_before[a]);
                    if b < expired_before.len() {
                        assert(expired@[b] == expired_before[b]);
                    } else {
                        let j = choose|j: int| 0 <= j < i && #[trigger] ids@[j]
                            == expired_before[a];
                        assert(ids@[j] < ids@[i as int]);
                    }
                }
                assert forall|a: int, b: int|
                    #![trigger left@[a], left@[b]]
                    0 <= a < b < left@.len() implies left@[a] < left@[b] by {
                    assert(left@[a] == left_before[a]);
                    if b < left_before.len() {
                        assert(left@[b] == left_before[b]);
                    } else {
                        let j = choose|j: int| 0 <= j < i && #[trigger] ids@[j] == left_before[a];
                        assert(ids@[j] < ids@[i as int]);
                    }
                }
            }
            i = i + 1;
        }
        proof {
            assert forall|id: u64| #[trigger]
                expired@.contains(id) <==> is_late(all, now_ticks, id) by {
                if expired@.contains(id) {
                    let k = choose|k: int| 0 <= k < expired@.len() && expired@[k] == id;
                    assert(is_late(all, now_ticks, expired@[k]));
                }
                if is_late(all, now_ticks, id) {
                    assert(ids@.contains(id));
                    let j = choose|j: int| 0 <= j < ids@.len() && ids@[j] == id;
                    assert(expired@.contains(ids@[j]));
                }
            }
            assert(self@.packets =~= in_time(all, now_ticks));
        }
        if let Some(next_packet_id) = self.next_packet_id {
            let mut k: usize = 0;
            let mut dropped = false;
            while k < expired.len()
                invariant
                    k <= expired@.len(),
                    dropped <==> exists|j: int|
                        0 <= j < k && #[trigger] expired@[j] == next_packet_id,
                decreases expired@.len() - k,
            {
                if expired[k] == next_packet_id {
                    dropped = true;
                }
                k = k + 1;
            }
            assert(dropped <==> expired@.contains(next_packet_id));
            if dropped {
                self.next_packet_id = if left.len() > 0 {
                    Some(left[0])
                } else {
                    None
                };
                proof {
                    let still = in_time(all, now_ticks);
                    assert forall|other: u64| #[trigger] still.contains_key(other) implies left@.len()
                        > 0 && left@[0] <= other by {
                        assert(ids@.contains(other));
                        let j = choose|j: int| 0 <= j < ids@.len() && ids@[j] == other;
                        assert(left@.contains(ids@[j]));
                        let m = choose|m: int| 0 <= m < left@.len() && left@[m] == other;
                        assert(left@[0] <= left@[m]);
                    }
                    if left@.len() > 0 {
                        assert(still.contains_key(left@[0]));
                    }
                }
            }
        }
        expired
    }

    /// How many packets wait.
    pub fn pending_packet_count(&self) -> (count: usize)
        ensures
            count == self@.packets.len(),
    {
        assert(self@.packets.dom() =~= self.packets@.dom());
        self.packets.len()
    }
}

// Laws

/// What holds of every buffer: it holds nothing before the place where giving out goes on,
/// packets of one stream only, each under its own id and with a payload; and until a packet
/// has been given out, the one at that place is there.
pub open spec fn orderly(buffer: PacketBuffer) -> bool {
    &&& forall|id: u64| #[trigger]
        buffer.packets.contains_key(id) ==> {
            &&& buffer.next_packet_id is Some
            &&& buffer.next_packet_id->0 <= id
            &&& buffer.packets[id].packet_id == id
            &&& buffer.packets[id].payload.len() > 0
            &&& buffer.identity == Some(identity_of(buffer.packets[id]))
        }
    &&& !buffer.emitted_any && buffer.next_packet_id is Some ==> buffer.packets.contains_key(
        buffer.next_packet_id->0,
    )
}

/// A buffer begins orderly and stays so, whether a packet comes in or packets are given
/// out.
pub proof fn law_buffers_stay_orderly(buffer: PacketBuffer, packet: AudioPacket)
    requires
        orderly(buffer),
    ensures
        orderly(empty_buffer()),
        orderly(inserted(buffer, packet).1),
        orderly(popped(buffer)),
{
    if buffer.next_packet_id is Some {
        let next = buffer.next_packet_id->0;
        let count = ready_count(buffer.packets, next as int);
        let after = popped(buffer);
        lemma_ready_count_fits(buffer.packets, next as int);
        assert forall|id: u64| #[trigger] after.packets.contains_key(id) implies {
            &&& after.next_packet_id is Some
            &&& after.next_packet_id->0 <= id
            &&& after.packets[id].packet_id == id
            &&& after.packets[id].payload.len() > 0
            &&& after.identity == Some(identity_of(after.packets[id]))
        } by {
            assert(buffer.packets.contains_key(id));
            assert(id >= next + count);
        }
        if !buffer.emitted_any {
            assert(count > 0);
        }
    }
}

/// A buffer stays orderly when packets past their deadline are dropped.
pub proof fn law_buffers_stay_orderly_when_packets_expire(
    buffer: PacketBuffer,
    now_ticks: i64,
    next: Option<u64>,
)
    requires
        orderly(buffer),
        goes_on_at(buffer.packets, now_ticks, buffer.next_packet_id, next),
    ensures
        orderly(
            PacketBuffer {
                next_packet_id: next,
                packets: in_time(buffer.packets, now_ticks),
                ..buffer
            },
        ),
{
    let left = in_time(buffer.packets, now_ticks);
    assert forall|id: u64| #[trigger] left.contains_key(id) implies {
        &&& next is Some
        &&& next->0 <= id
        &&& left[id].packet_id == id
        &&& left[id].payload.len() > 0
        &&& buffer.identity == Some(identity_of(left[id]))
    } by {
        assert(buffer.packets.contains_key(id));
    }
}

proof fn lemma_ready_count_fits(packets: Map<u64, AudioPacket>, from: int)
    requires
        0 <= from <= u64::MAX + 1,
    ensures
        from + ready_count(packets, from) <= u64::MAX + 1,
        forall|id: int|
            from <= id < from + ready_count(packets, from) ==> #[trigger] packets.contains_key(
                id as u64,
            ),
    decreases u64::MAX + 1 - from,
{
    if from <= u64::MAX && packets.contains_key(from as u64) {
        lemma_ready_count_fits(packets, from + 1);
    }
}

/// Packets are given out in order and without a gap: their ids count up by one from the
/// place where giving out goes on, and the id behind the last of them is not there yet.
pub proof fn law_packets_come_out_in_order(buffer: PacketBuffer, i: int)
    requires
        orderly(buffer),
        buffer.next_packet_id is Some,
        0 <= i < ready_packets(buffer.packets, buffer.next_packet_id->0).len(),
    ensures
        ready_packets(buffer.packets, buffer.next_packet_id->0)[i].packet_id
            == buffer.next_packet_id->0 + i,
        !popped(buffer).packets.contains_key(popped(buffer).next_packet_id->0),
{
    let next = buffer.next_packet_id->0;
    lemma_ready_count_fits(buffer.packets, next as int);
    assert(buffer.packets.contains_key((next + i) as u64));
    lemma_run_ends(buffer.packets, next as int);
}

proof fn lemma_run_ends(packets: Map<u64, AudioPacket>, from: int)
    requires
        0 <= from <= u64::MAX + 1,
    ensures
        from + ready_count(packets, from) <= u64::MAX ==> !packets.contains_key(
            (from + ready_count(packets, from)) as u64,
        ),
    decreases u64::MAX + 1 - from,
{
    if from <= u64::MAX && packets.contains_key(from as u64) {
        lemma_run_ends(packets, from + 1);
    }
}

/// The first packet with a complete stream description pins a buffer to its stream, for
/// good: neither packets that come in nor packets that are given out change it, a packet of
/// another stream is refused and leaves the buffer as it was, and a packet that is taken in
/// belongs to that stream.
pub proof fn law_the_stream_stays_pinned(buffer: PacketBuffer, packet: AudioPacket)
    ensures
        buffer.identity is Some ==> inserted(buffer, packet).1.identity == buffer.identity,
        popped(buffer).identity == buffer.identity,
        inserted(buffer, packet).0 is Ok ==> inserted(buffer, packet).1.identity == Some(
            identity_of(packet),
        ),
        stream_refusal(buffer, packet) is None ==> inserted(buffer, packet).1.identity == Some(
            identity_of(packet),
        ),
        stream_refusal(buffer, packet) is Some ==> inserted(buffer, packet) == (
            Err::<(), Refusal>(stream_refusal(buffer, packet)->0),
            buffer,
        ),
        buffer.identity is Some && buffer.identity != Some(identity_of(packet))
            ==> stream_refusal(buffer, packet) is Some,
{
}

/// Once packets have been given out, nothing from before the place where giving out goes
/// on gets in again.
pub proof fn law_stale_packets_stay_out(buffer: PacketBuffer, packet: AudioPacket)
    requires
        orderly(buffer),
        buffer.emitted_any,
        buffer.next_packet_id is Some,
        packet.packet_id < buffer.next_packet_id->0,
    ensures
        inserted(buffer, packet).0 is Err,
        inserted(buffer, packet).1.packets == buffer.packets,
        inserted(buffer, packet).1.next_packet_id == buffer.next_packet_id,
{
}

/// Until a packet has been given out, the order in which two packets of one stream arrive
/// makes no difference.
pub proof fn law_arrival_order_does_not_matter(
    buffer: PacketBuffer,
    first: AudioPacket,
    second: AudioPacket,
)
    requires
        orderly(buffer),
        !buffer.emitted_any,
        first.packet_id != second.packet_id,
        identity_of(first) == identity_of(second),
        inserted(buffer, first).0 is Ok,
        inserted(buffer, second).0 is Ok,
    ensures
        inserted(inserted(buffer, first).1, second).0 is Ok,
        inserted(inserted(buffer, second).1, first).0 is Ok,
        inserted(inserted(buffer, first).1, second).1 == inserted(
            inserted(buffer, second).1,
            first,
        ).1,
{
    let a = inserted(inserted(buffer, first).1, second).1;
    let b = inserted(inserted(buffer, second).1, first).1;
    assert(a.packets =~= b.packets);
    assert(a =~= b);
}

/// Whether a buffer is pinned to another stream than a packet's.
pub open spec fn is_of_another_stream(buffer: PacketBuffer, packet: AudioPacket) -> bool {
    buffer.identity matches Some(identity) && {
        ||| identity.stream_id != packet.stream_id
        ||| identity.session_id != packet.session_id
        ||| identity.codec != packet.codec
        ||| identity.timebase_num != packet.timebase_num
        ||| identity.timebase_den != packet.timebase_den
    }
}

/// A packet is taken in exactly where it names its stream, session and codec, has a timebase
/// without a zero, is of the buffer's stream, holds bytes, has an id that is not there yet
/// and does not come behind its turn. Otherwise the first of these that fails is told, and
/// no packet comes or goes.
pub proof fn law_what_is_taken_in(buffer: PacketBuffer, packet: AudioPacket)
    ensures
        ({
            let id = packet.packet_id;
            let (outcome, now) = inserted(buffer, packet);
            let too_late = buffer.emitted_any && buffer.next_packet_id is Some && id
                < buffer.next_packet_id->0;
            &&& outcome == if packet.stream_id.len() == 0 {
                Err::<(), Refusal>(Refusal::BufferStreamIdEmpty)
            } else if packet.session_id.len() == 0 {
                Err(Refusal::BufferSessionIdEmpty)
            } else if packet.codec.len() == 0 {
                Err(Refusal::BufferCodecEmpty)
            } else if packet.timebase_num == 0 || packet.timebase_den == 0 {
                Err(Refusal::BufferTimebaseZero)
            } else if is_of_another_stream(buffer, packet) {
                Err(Refusal::BufferMixedMetadata)
            } else if packet.payload.len() == 0 {
                Err(Refusal::BufferPayloadEmpty)
            } else if buffer.packets.contains_key(id) {
                Err(Refusal::BufferDuplicatePacket(id))
            } else if too_late {
                Err(
                    Refusal::BufferStalePacket {
                        packet_id: id,
                        next_packet_id: buffer.next_packet_id->0,
                    },
                )
            } else {
                Ok(())
            }
            &&& now.emitted_any == buffer.emitted_any
            &&& outcome is Err ==> now.packets == buffer.packets && now.next_packet_id
                == buffer.next_packet_id
            &&& outcome is Ok ==> {
                &&& now.packets == buffer.packets.insert(id, packet)
                &&& now.next_packet_id == if buffer.next_packet_id is Some && buffer.next_packet_id->0
                    <= id {
                    buffer.next_packet_id
                } else {
                    Some(id)
                }
                &&& now.identity is Some
                &&& now.identity->0.stream_id == packet.stream_id
                &&& now.identity->0.session_id == packet.session_id
                &&& now.identity->0.codec == packet.codec
                &&& now.identity->0.timebase_num == packet.timebase_num
                &&& now.identity->0.timebase_den == packet.timebase_den
            }
        }),
{
    if buffer.identity is Some && !is_of_another_stream(buffer, packet) {
        assert(buffer.identity->0 =~= identity_of(packet));
    }
}

/// The packets given out are those from the place where giving out goes on, one id after the
/// other, up to the first that is not there. They leave the buffer, all others stay, and
/// giving out goes on behind them; a buffer that never took one in gives out nothing.
pub proof fn law_what_is_given_out(buffer: PacketBuffer, next: u64)
    requires
        buffer.next_packet_id == Some(next),
    ensures
        ({
            let ready = ready_packets(buffer.packets, next);
            let count = ready.len();
            let now = popped(buffer);
            &&& forall|i: int|
                0 <= i < count ==> {
                    &&& buffer.packets.contains_key((next + i) as u64)
                    &&& #[trigger] ready[i] == buffer.packets[(next + i) as u64]
                }
            &&& next + count <= 0x1_0000_0000_0000_0000
            &&& next + count < 0x1_0000_0000_0000_0000 ==> !buffer.packets.contains_key(
                (next + count) as u64,
            )
            &&& now.next_packet_id == Some(
                if next + count < 0x1_0000_0000_0000_0000 {
                    (next + count) as u64
                } else {
                    0xffff_ffff_ffff_ffff
                },
            )
            &&& now.emitted_any <==> buffer.emitted_any || count > 0
            &&& now.identity == buffer.identity
            &&& forall|id: u64| #[trigger]
                now.packets.contains_key(id) <==> buffer.packets.contains_key(id) && !(next <= id
                    < next + count)
            &&& forall|id: u64| #[trigger]
                now.packets.contains_key(id) ==> now.packets[id] == buffer.packets[id]
        }),
{
    lemma_ready_count_fits(buffer.packets, next as int);
    lemma_run_ends(buffer.packets, next as int);
    let ready = ready_packets(buffer.packets, next);
    assert forall|i: int| 0 <= i < ready.len() implies {
        &&& buffer.packets.contains_key((next + i) as u64)
        &&& #[trigger] ready[i] == buffer.packets[(next + i) as u64]
    } by {
        let id = next + i;
        assert(buffer.packets.contains_key(id as u64));
    }
}

/// A packet is late exactly where its deadline is not after now. Late packets leave the
/// buffer and all others stay; and where the packet that was to be given out next is late,
/// giving out goes on at the smallest id that is left, if any is.
pub proof fn law_what_expires(
    packets: Map<u64, AudioPacket>,
    now_ticks: i64,
    before: Option<u64>,
    next: Option<u64>,
)
    requires
        goes_on_at(packets, now_ticks, before, next),
    ensures
        forall|id: u64| #[trigger]
            is_late(packets, now_ticks, id) <==> packets.contains_key(id)
                && packets[id].deadline_ticks <= now_ticks,
        forall|id: u64| #[trigger]
            in_time(packets, now_ticks).contains_key(id) <==> packets.contains_key(id)
                && packets[id].deadline_ticks > now_ticks,
        forall|id: u64| #[trigger]
            in_time(packets, now_ticks).contains_key(id) ==> in_time(packets, now_ticks)[id]
                == packets[id],
        !(before is Some && packets.contains_key(before->0) && packets[before->0].deadline_ticks
            <= now_ticks) ==> next == before,
        before is Some && packets.contains_key(before->0) && packets[before->0].deadline_ticks
            <= now_ticks ==> match next {
            Some(id) => {
                &&& packets.contains_key(id)
                &&& packets[id].deadline_ticks > now_ticks
                &&& forall|other: u64| #[trigger]
                    packets.contains_key(other) && packets[other].deadline_ticks > now_ticks ==> id
                        <= other
            },
            None => forall|other: u64| #[trigger]
                packets.contains_key(other) ==> packets[other].deadline_ticks <= now_ticks,
        },
{
    let left = in_time(packets, now_ticks);
    assert forall|other: u64| #[trigger] packets.contains_key(other) implies left.contains_key(
        other,
    ) == (packets[other].deadline_ticks > now_ticks) by {}
}

} // verus!
