//! Muninn's media packetizer and runtime presence.
//!
//! Annex B video is split into access units, cut into chunks and given parity; PCM audio is
//! cut into packets; received audio is put in order; receivers' reports are drawn up. What
//! goes onto the wire is encoded by the media wire layer, which the caller holds: this crate
//! says what is handed to it and what its replies become.

pub mod annexb;
pub mod audio;
pub mod audio_buffer;
pub mod audio_sender;
pub mod bits;
pub mod codec;
pub mod cutting;
pub mod error;
pub mod feedback;
pub mod idunn_presence;
pub mod media_packetizer;
pub mod ordered;
pub mod parity;
pub mod pcm_pieces;
pub mod pictures;
pub mod records;
pub mod splitting;
pub mod text;
pub mod video;
pub mod video_sender;
pub mod wire;
