//! Packetizing audio.

use vstd::prelude::*;
use vstd::slice::slice_to_vec;

use crate::error::{MediaError, MediaFault, Refusal};
use crate::records::{AudioPacket, GameCultMediaAudioPacketRecord};

verus! {

/// How one audio packet is made.
#[derive(Clone, Copy)]
pub struct AudioPacketizeOptions<'a> {
    pub stream_id: &'a str,
    pub session_id: &'a str,
    pub codec: &'a str,
    pub packet_id: u64,
    pub pts_ticks: i64,
    pub duration_ticks: u32,
    pub timebase_num: u32,
    pub timebase_den: u32,
    pub deadline_ticks: i64,
}

/// What `AudioPacketizeOptions` say.
#[verifier::ext_equal]
pub struct PacketOptions {
    pub stream_id: Seq<char>,
    pub session_id: Seq<char>,
    pub codec: Seq<char>,
    pub packet_id: u64,
    pub pts_ticks: i64,
    pub duration_ticks: u32,
    pub timebase_num: u32,
    pub timebase_den: u32,
    pub deadline_ticks: i64,
}

impl View for AudioPacketizeOptions<'_> {
    type V = PacketOptions;

    open spec fn view(&self) -> PacketOptions {
        PacketOptions {
            stream_id: self.stream_id@,
            session_id: self.session_id@,
            codec: self.codec@,
            packet_id: self.packet_id,
            pts_ticks: self.pts_ticks,
            duration_ticks: self.duration_ticks,
            timebase_num: self.timebase_num,
            timebase_den: self.timebase_den,
            deadline_ticks: self.deadline_ticks,
        }
    }
}

/// The first rule that making an audio packet breaks.
pub open spec fn packet_refusal(options: PacketOptions, payload: Seq<u8>) -> Option<Refusal> {
    if options.stream_id.len() == 0 {
        Some(Refusal::StreamIdEmpty)
    } else if options.session_id.len() == 0 {
        Some(Refusal::SessionIdEmpty)
    } else if options.codec.len() == 0 {
        Some(Refusal::CodecEmpty)
    } else if options.timebase_num == 0 || options.timebase_den == 0 {
        Some(Refusal::AudioTimebaseZero)
    } else if options.duration_ticks == 0 {
        Some(Refusal::AudioDurationZero)
    } else if options.deadline_ticks < options.pts_ticks {
        Some(Refusal::AudioDeadlineBeforePts)
    } else if payload.len() == 0 {
        Some(Refusal::AudioPayloadEmpty)
    } else {
        None
    }
}

/// The packet that carries `payload`.
pub open spec fn packet_of(options: PacketOptions, payload: Seq<u8>) -> AudioPacket {
    AudioPacket {
        stream_id: options.stream_id,
        session_id: options.session_id,
        packet_id: options.packet_id,
        codec: options.codec,
        pts_ticks: options.pts_ticks,
        duration_ticks: options.duration_ticks,
        timebase_num: options.timebase_num,
        timebase_den: options.timebase_den,
        deadline_ticks: options.deadline_ticks,
        payload,
    }
}

/// What making an audio packet comes to.
pub open spec fn packetize_payload(options: PacketOptions, payload: Seq<u8>) -> Result<
    AudioPacket,
    MediaFault,
> {
    match packet_refusal(options, payload) {
        Some(refusal) => Err(MediaFault::Refused(refusal)),
        None => Ok(packet_of(options, payload)),
    }
}

/// Makes an audio packet out of a payload.
pub fn packetize_audio_packet(options: AudioPacketizeOptions<'_>, payload: &[u8]) -> (outcome:
    Result<GameCultMediaAudioPacketRecord, MediaError>)
    ensures
        packetize_payload(options@, payload@) == match outcome {
            Ok(packet) => Ok::<AudioPacket, MediaFault>(packet@),
            Err(error) => Err(error@),
        },
        outcome is Ok <==> {
            &&& options.stream_id@.len() > 0
            &&& options.session_id@.len() > 0
            &&& options.codec@.len() > 0
            &&& options.timebase_num > 0
            &&& options.timebase_den > 0
            &&& options.duration_ticks > 0
            &&& options.pts_ticks <= options.deadline_ticks
            &&& payload@.len() > 0
        },
        outcome matches Ok(packet) ==> {
            &&& packet.stream_id@ == options.stream_id@
            &&& packet.session_id@ == options.session_id@
            &&& packet.codec@ == options.codec@
            &&& packet.packet_id == options.packet_id
            &&& packet.pts_ticks == options.pts_ticks
            &&& packet.duration_ticks == options.duration_ticks
            &&& packet.timebase_num == options.timebase_num
            &&& packet.timebase_den == options.timebase_den
            &&& packet.deadline_ticks == options.deadline_ticks
            &&& packet.payload@ == payload@
        },
{
    if options.stream_id.is_empty() {
        return Err(MediaError::Refused(Refusal::StreamIdEmpty));
    }
    if options.session_id.is_empty() {
        return Err(MediaError::Refused(Refusal::SessionIdEmpty));
    }
    if options.codec.is_empty() {
        return Err(MediaError::Refused(Refusal::CodecEmpty));
    }
    if options.timebase_num == 0 || options.timebase_den == 0 {
        return Err(MediaError::Refused(Refusal::AudioTimebaseZero));
    }
    if options.duration_ticks == 0 {
        return Err(MediaError::Refused(Refusal::AudioDurationZero));
    }
    if options.deadline_ticks < options.pts_ticks {
        return Err(MediaError::Refused(Refusal::AudioDeadlineBeforePts));
    }
    if payload.len() == 0 {
        return Err(MediaError::Refused(Refusal::AudioPayloadEmpty));
    }
    Ok(
        GameCultMediaAudioPacketRecord {
            stream_id: options.stream_id.to_owned(),
            session_id: options.session_id.to_owned(),
            packet_id: options.packet_id,
            codec: options.codec.to_owned(),
            pts_ticks: options.pts_ticks,
            duration_ticks: options.duration_ticks,
            timebase_num: options.timebase_num,
            timebase_den: options.timebase_den,
            deadline_ticks: options.deadline_ticks,
            payload: slice_to_vec(payload),
        },
    )
}

// Laws

/// A payload can be made a packet exactly where the options name a stream, a session and a
/// codec, give a timebase and a duration without a zero and a deadline that is not before
/// the presentation time, and the payload is not empty. Otherwise the first of these that
/// fails is told.
pub proof fn law_what_can_be_made_a_packet(options: PacketOptions, payload: Seq<u8>)
    ensures
        packetize_payload(options, payload) is Ok <==> {
            &&& options.stream_id.len() > 0
            &&& options.session_id.len() > 0
            &&& options.codec.len() > 0
            &&& options.timebase_num > 0
            &&& options.timebase_den > 0
            &&& options.duration_ticks > 0
            &&& options.pts_ticks <= options.deadline_ticks
            &&& payload.len() > 0
        },
        packetize_payload(options, payload) matches Err(fault) ==> fault == MediaFault::Refused(
            if options.stream_id.len() == 0 {
                Refusal::StreamIdEmpty
            } else if options.session_id.len() == 0 {
                Refusal::SessionIdEmpty
            } else if options.codec.len() == 0 {
                Refusal::CodecEmpty
            } else if options.timebase_num == 0 || options.timebase_den == 0 {
                Refusal::AudioTimebaseZero
            } else if options.duration_ticks == 0 {
                Refusal::AudioDurationZero
            } else if options.deadline_ticks < options.pts_ticks {
                Refusal::AudioDeadlineBeforePts
            } else {
                Refusal::AudioPayloadEmpty
            },
        ),
{
}

/// A packet carries what the options say, and the payload.
pub proof fn law_packets_carry_the_options(options: PacketOptions, payload: Seq<u8>)
    requires
        packetize_payload(options, payload) is Ok,
    ensures
        ({
            let packet = packetize_payload(options, payload)->Ok_0;
            &&& packet.stream_id == options.stream_id
            &&& packet.session_id == options.session_id
            &&& packet.codec == options.codec
            &&& packet.packet_id == options.packet_id
            &&& packet.pts_ticks == options.pts_ticks
            &&& packet.duration_ticks == options.duration_ticks
            &&& packet.timebase_num == options.timebase_num
            &&& packet.timebase_den == options.timebase_den
            &&& packet.deadline_ticks == options.deadline_ticks
            &&& packet.payload == payload
        }),
{
}

/// The view of options shows each of their fields.
pub proof fn law_options_show_their_fields(options: AudioPacketizeOptions<'_>)
    ensures
        options@.stream_id == options.stream_id@,
        options@.session_id == options.session_id@,
        options@.codec == options.codec@,
        options@.packet_id == options.packet_id,
        options@.pts_ticks == options.pts_ticks,
        options@.duration_ticks == options.duration_ticks,
        options@.timebase_num == options.timebase_num,
        options@.timebase_den == options.timebase_den,
        options@.deadline_ticks == options.deadline_ticks,
{
}

} // verus!
