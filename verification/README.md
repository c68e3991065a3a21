# Muninn media

Muninn captures screen and audio on one host and sends them to its peers. This crate is the
part in between: it turns encoded video and PCM audio into the records that travel on the
wire, puts received audio back in order, draws up receivers' reports, and decides what a
daemon that Idunn launched may say about itself. It is written in Verus: every function
states what it returns, and every function is proved to keep to it.

| module | what it holds |
|---|---|
| `text`, `bits`, `codec`, `ordered` | decimals and folding, Exp-Golomb codes, codec names, rising numbers |
| `error` | why a media operation failed, and the message for it |
| `annexb`, `splitting` | start codes, NAL units, access units; how pieces of a stream split |
| `records` | the records of the wire |
| `video` | access units become chunks, streams become timed frames |
| `parity` | exclusive ors of a frame's chunks, from which lost chunks come back |
| `wire` | which records are handed to the media wire layer, and what its replies become |
| `video_sender`, `audio_sender` | senders that take a stream as it comes |
| `cutting`, `pcm_pieces` | that it makes no difference how a stream is cut into pushes |
| `audio`, `audio_buffer` | audio packets, and the buffer that puts them in order |
| `feedback` | receivers' reports |
| `idunn_presence` | runtime presence |
| `media_packetizer` | the media modules' items under one name |

The media wire layer (CultNet) checks and encodes records. The library does not call it: a
function that needs its answer hands out what is to be asked and takes the answer in. The
caller in `app/` asks. Each module that states more than its functions' contracts ends with
laws: `law_burst_loss_recovery`, for one, says that a run of lost chunks no longer than the
number of stripes can be recovered. `splitting`, `cutting` and `pcm_pieces` hold nothing but
laws.
