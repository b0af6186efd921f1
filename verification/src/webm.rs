//! A muxer that wraps the buffered encoder and packs its frames into a
//! streamable container: a format header, a segment with its metadata and
//! one audio track, and clusters of timestamped frame blocks.

use vstd::prelude::*;
use crate::ebml::{
    be_bytes, concat_all, size_bytes, vint_capacity, EbmlBuilder, lemma_be_bytes_len,
    lemma_vint_width_minimal, lemma_vint_limit_values,
};
use crate::opus::{
    all_ok, convert_samples, count_kept, flush_frames, flush_length, frame_views,
    is_status_error, kept_frames, kept_marks, lemma_count_kept_prefix, lemma_drained_push,
    lemma_feed, lemma_initial_consistent, lemma_kept_concat, lemma_marks_count, lemma_push_split,
    pcm_samples, push_effect, push_outcome, silence, BufferedOpusEncoder, EncoderView,
    FrameCodec, OpusError, FRAME_SIZE, MAX_PACKET_SIZE,
};
use crate::ieee::{double_bits, double_bits_of, duration_bits, duration_bits_of};

verus! {

/// The audio sample rate, in samples per second.
pub const SAMPLE_RATE: u32 = 48000;

/// The duration of one frame, in milliseconds.
pub const FRAME_DURATION_MS: u32 = 20;

/// The time after which an open cluster is sealed, in milliseconds.
pub const CLUSTER_DURATION_MS: u32 = 1000;

/// The number of samples in one frame.
pub const SAMPLES_PER_FRAME: u64 = 960;

/// The length of a cluster's timestamp header, in bytes.
pub const CLUSTER_HEADER_SIZE: usize = 6;

/// The most bytes that one frame block can take.
pub const BLOCK_MAX: usize = 4013;

/// The most bytes that one sealed cluster can take.
pub const CLUSTER_MAX: usize = 200668;

// Identifiers of the container format's elements.
pub const ID_EBML: u32 = 0x1A45DFA3;

pub const ID_SEGMENT: u32 = 0x18538067;

pub const ID_EBML_VERSION: u16 = 0x4286;

pub const ID_EBML_READ_VERSION: u16 = 0x42F7;

pub const ID_EBML_MAX_ID_LENGTH: u16 = 0x42F2;

pub const ID_EBML_MAX_SIZE_LENGTH: u16 = 0x42F3;

pub const ID_DOC_TYPE: u16 = 0x4282;

pub const ID_DOC_TYPE_VERSION: u16 = 0x4287;

pub const ID_DOC_TYPE_READ_VERSION: u16 = 0x4285;

pub const ID_INFO: u32 = 0x1549A966;

pub const ID_TRACKS: u32 = 0x1654AE6B;

pub const ID_CLUSTER: u32 = 0x1F43B675;

pub const ID_TIMECODE_SCALE: u32 = 0x2AD7B1;

pub const ID_DURATION: u16 = 0x4489;

pub const ID_MUXING_APP: u16 = 0x4D80;

pub const ID_WRITING_APP: u16 = 0x5741;

pub const ID_TRACK_ENTRY: u8 = 0xAE;

pub const ID_TRACK_NUMBER: u8 = 0xD7;

pub const ID_TRACK_UID: u16 = 0x73C5;

pub const ID_TRACK_TYPE: u8 = 0x83;

pub const ID_FLAG_LACING: u8 = 0x9C;

pub const ID_LANGUAGE: u32 = 0x22B59C;

pub const ID_CODEC_ID: u8 = 0x86;

pub const ID_CODEC_PRIVATE: u16 = 0x63A2;

pub const ID_CODEC_DELAY: u16 = 0x56AA;

pub const ID_SEEK_PRE_ROLL: u16 = 0x56BB;

pub const ID_AUDIO: u8 = 0xE1;

pub const ID_CHANNELS: u8 = 0x9F;

pub const ID_SAMPLING_FREQUENCY: u8 = 0xB5;

pub const ID_BIT_DEPTH: u16 = 0x6264;

pub const ID_TIMESTAMP: u8 = 0xE7;

pub const ID_SIMPLE_BLOCK: u8 = 0xA3;

/// The timestamp header that opens a cluster starting at `start_ms`.
pub open spec fn cluster_header(start_ms: nat) -> Seq<u8> {
    seq![ID_TIMESTAMP] + size_bytes(4) + be_bytes(start_ms, 4)
}

/// The block that carries `frame` at `offset_ms` after its cluster's start:
/// the track number 1, the offset in two bytes, the flags of a frame that
/// decodes on its own, and the frame.
pub open spec fn frame_block(offset_ms: nat, frame: Seq<u8>) -> Seq<u8> {
    seq![ID_SIMPLE_BLOCK] + size_bytes((4 + frame.len()) as u64) + seq![0x81u8] + be_bytes(
        offset_ms,
        2,
    ) + seq![0x80u8] + frame
}

/// The sealed cluster element around the header and blocks in `body`.
pub open spec fn cluster_element(body: Seq<u8>) -> Seq<u8> {
    be_bytes(ID_CLUSTER as nat, 4) + size_bytes(body.len() as u64) + body
}

/// One element of the container format: its identifier in `id_width`
/// bytes, the size of its payload, and the payload.
pub open spec fn element(id: nat, id_width: nat, payload: Seq<u8>) -> Seq<u8> {
    be_bytes(id, id_width) + size_bytes(payload.len() as u64) + payload
}

/// The little-endian representation of `v` in exactly `n` bytes.
pub open spec fn le_bytes(v: nat, n: nat) -> Seq<u8>
    decreases n,
{
    if n == 0 {
        Seq::empty()
    } else {
        seq![(v % 256) as u8] + le_bytes(v / 256, (n - 1) as nat)
    }
}

/// The document type, `webm` in ASCII.
pub open spec fn doc_type() -> Seq<u8> {
    seq![0x77u8, 0x65u8, 0x62u8, 0x6Du8]
}

/// The name under which the muxer signs its output, `MuseVoice-0.1.0` in
/// ASCII.
pub open spec fn app_name() -> Seq<u8> {
    seq![
        0x4Du8,
        0x75u8,
        0x73u8,
        0x65u8,
        0x56u8,
        0x6Fu8,
        0x69u8,
        0x63u8,
        0x65u8,
        0x2Du8,
        0x30u8,
        0x2Eu8,
        0x31u8,
        0x2Eu8,
        0x30u8,
    ]
}

/// The track's language, `eng` in ASCII.
pub open spec fn language() -> Seq<u8> {
    seq![0x65u8, 0x6Eu8, 0x67u8]
}

/// The codec's identifier, `A_OPUS` in ASCII.
pub open spec fn codec_id() -> Seq<u8> {
    seq![0x41u8, 0x5Fu8, 0x4Fu8, 0x50u8, 0x55u8, 0x53u8]
}

/// The signature that opens the codec's header, `OpusHead` in ASCII.
pub open spec fn head_magic() -> Seq<u8> {
    seq![0x4Fu8, 0x70u8, 0x75u8, 0x73u8, 0x48u8, 0x65u8, 0x61u8, 0x64u8]
}

/// The codec's header of 19 bytes: the signature, version 1, one channel,
/// the pre-skip, the native sample rate, no gain, and the mapping family 0,
/// the numbers little-endian.
pub open spec fn opus_head(preskip: u16) -> Seq<u8> {
    head_magic() + seq![1u8, 1u8] + le_bytes(preskip as nat, 2) + le_bytes(SAMPLE_RATE as nat, 4)
        + seq![0u8, 0u8, 0u8]
}

/// The delay that the pre-skip stands for, in nanoseconds.
pub open spec fn codec_delay_ns(preskip: u16) -> nat {
    (preskip as nat * 1_000_000_000) / (SAMPLE_RATE as nat)
}

/// The body of the format header: version 1 to write and to read,
/// identifiers of at most 4 and sizes of at most 8 bytes, the document type
/// in its version 4, readable as version 2.
pub open spec fn ebml_header() -> Seq<u8> {
    element(ID_EBML_VERSION as nat, 2, seq![1u8]) + element(
        ID_EBML_READ_VERSION as nat,
        2,
        seq![1u8],
    ) + element(ID_EBML_MAX_ID_LENGTH as nat, 2, seq![4u8]) + element(
        ID_EBML_MAX_SIZE_LENGTH as nat,
        2,
        seq![8u8],
    ) + element(ID_DOC_TYPE as nat, 2, doc_type()) + element(
        ID_DOC_TYPE_VERSION as nat,
        2,
        seq![4u8],
    ) + element(ID_DOC_TYPE_READ_VERSION as nat, 2, seq![2u8])
}

/// The body of the metadata section: a time scale of one millisecond, the
/// duration of `samples` samples in milliseconds as a double, and the
/// muxer's name twice.
pub open spec fn info_body(samples: nat) -> Seq<u8> {
    element(ID_TIMECODE_SCALE as nat, 3, be_bytes(1_000_000, 4)) + element(
        ID_DURATION as nat,
        2,
        be_bytes(duration_bits_of(samples), 8),
    ) + element(ID_MUXING_APP as nat, 2, app_name()) + element(
        ID_WRITING_APP as nat,
        2,
        app_name(),
    )
}

/// The metadata section of a stream of `samples` samples.
pub open spec fn segment_info(samples: nat) -> Seq<u8> {
    element(ID_INFO as nat, 4, info_body(samples))
}

/// The body of the track's audio settings: one channel, the sample rate as
/// a double, and 16 bits per sample.
pub open spec fn audio_body() -> Seq<u8> {
    element(ID_CHANNELS as nat, 1, seq![1u8]) + element(
        ID_SAMPLING_FREQUENCY as nat,
        1,
        be_bytes(double_bits_of(SAMPLE_RATE as nat), 8),
    ) + element(ID_BIT_DEPTH as nat, 2, seq![16u8])
}

/// The body of the one track entry: track number 1 with a fixed identity,
/// no lacing, the language, the codec with its delay and a seek pre-roll of
/// 80 ms, the type "audio", the audio settings, and the codec's header.
pub open spec fn track_entry_body(preskip: u16) -> Seq<u8> {
    element(ID_TRACK_NUMBER as nat, 1, seq![1u8]) + element(
        ID_TRACK_UID as nat,
        2,
        be_bytes(0xDEAD_BEEF_1234_5678, 8),
    ) + element(ID_FLAG_LACING as nat, 1, seq![0u8]) + element(ID_LANGUAGE as nat, 3, language())
        + element(ID_CODEC_ID as nat, 1, codec_id()) + element(
        ID_CODEC_DELAY as nat,
        2,
        be_bytes(codec_delay_ns(preskip), 8),
    ) + element(ID_SEEK_PRE_ROLL as nat, 2, be_bytes(80_000_000, 4)) + element(
        ID_TRACK_TYPE as nat,
        1,
        seq![2u8],
    ) + element(ID_AUDIO as nat, 1, audio_body()) + element(
        ID_CODEC_PRIVATE as nat,
        2,
        opus_head(preskip),
    )
}

/// The tracks section, with its one track.
pub open spec fn tracks(preskip: u16) -> Seq<u8> {
    element(ID_TRACKS as nat, 4, element(ID_TRACK_ENTRY as nat, 1, track_entry_body(preskip)))
}

/// The complete file for the sealed clusters of `m`: the format header,
/// then the segment with the metadata, the tracks and the clusters.
pub open spec fn webm_file(m: MuxState, preskip: u16) -> Seq<u8> {
    element(ID_EBML as nat, 4, ebml_header()) + element(
        ID_SEGMENT as nat,
        4,
        segment_info(m.total_samples) + tracks(preskip) + concat_all(m.clusters),
    )
}

/// The muxer's own state as a mathematical value.
pub struct MuxState {
    /// The sealed clusters, in order.
    pub clusters: Seq<Seq<u8>>,
    /// The header and blocks of the open cluster.
    pub open: Seq<u8>,
    /// The time of all frames accepted so far, in milliseconds.
    pub timestamp_ms: nat,
    /// The time at which the open cluster starts, in milliseconds.
    pub cluster_start_ms: nat,
    /// The number of samples in all frames accepted so far.
    pub total_samples: nat,
}

impl MuxState {
    /// The state in which a new muxer starts: no cluster sealed, and a
    /// first cluster open at time zero.
    pub open spec fn initial() -> MuxState {
        MuxState {
            clusters: Seq::empty(),
            open: cluster_header(0),
            timestamp_ms: 0,
            cluster_start_ms: 0,
            total_samples: 0,
        }
    }

    /// The state with the open cluster sealed and a new one opened at the
    /// current time.
    pub open spec fn sealed(self) -> MuxState {
        MuxState {
            clusters: self.clusters.push(cluster_element(self.open)),
            open: cluster_header(self.timestamp_ms),
            cluster_start_ms: self.timestamp_ms,
            ..self
        }
    }

    /// The state after one frame that the codec accepted: if its encoded
    /// form `frame` was kept it joins the open cluster as a block; the time
    /// moves on by one frame either way; and once a second has passed since
    /// the cluster's start, the cluster is sealed.
    pub open spec fn tick(self, frame: Option<Seq<u8>>) -> MuxState {
        let written = MuxState {
            open: match frame {
                Some(bytes) => self.open + frame_block(
                    (self.timestamp_ms - self.cluster_start_ms) as nat,
                    bytes,
                ),
                None => self.open,
            },
            timestamp_ms: (self.timestamp_ms + FRAME_DURATION_MS) as nat,
            total_samples: (self.total_samples + SAMPLES_PER_FRAME) as nat,
            ..self
        };
        if written.timestamp_ms >= written.cluster_start_ms + CLUSTER_DURATION_MS {
            written.sealed()
        } else {
            written
        }
    }

    /// The state after a run of accepted frames: `marks` says of each, in
    /// order, whether its encoded form was kept, and `frames` holds the kept
    /// ones.
    pub open spec fn mux(self, marks: Seq<bool>, frames: Seq<Seq<u8>>) -> MuxState
        decreases marks.len(),
    {
        if marks.len() == 0 {
            self
        } else if marks.last() && frames.len() > 0 {
            self.mux(marks.drop_last(), frames.drop_last()).tick(Some(frames.last()))
        } else {
            self.mux(marks.drop_last(), frames).tick(None)
        }
    }

    /// The state after the end of the stream: the open cluster is sealed if
    /// it holds any block.
    pub open spec fn closed(self) -> MuxState {
        if self.open.len() > CLUSTER_HEADER_SIZE {
            self.sealed()
        } else {
            self
        }
    }

    /// What holds of the muxer between calls. The time is a whole number of
    /// frames and goes with the sample count; the open cluster is less than
    /// a second old and no larger than its blocks can make it; no sealed
    /// cluster is larger than a second of blocks can make it. Before the end
    /// of the stream a cluster is sealed for every full second, and the end
    /// seals at most one more.
    pub open spec fn wf(self, ended: bool) -> bool {
        &&& self.timestamp_ms <= u32::MAX
        &&& self.timestamp_ms % (FRAME_DURATION_MS as nat) == 0
        &&& self.cluster_start_ms % (FRAME_DURATION_MS as nat) == 0
        &&& self.cluster_start_ms <= self.timestamp_ms < self.cluster_start_ms
            + CLUSTER_DURATION_MS
        &&& self.total_samples == 48 * self.timestamp_ms
        &&& CLUSTER_HEADER_SIZE <= self.open.len() <= CLUSTER_HEADER_SIZE + BLOCK_MAX * ((
        self.timestamp_ms - self.cluster_start_ms) / (FRAME_DURATION_MS as int))
        &&& forall|i: int|
            0 <= i < self.clusters.len() ==> (#[trigger] self.clusters[i]).len() <= CLUSTER_MAX
        &&& if ended {
            self.clusters.len() * CLUSTER_DURATION_MS <= self.cluster_start_ms
                + CLUSTER_DURATION_MS
        } else {
            self.clusters.len() * CLUSTER_DURATION_MS == self.cluster_start_ms
        }
    }
}

/// The muxer as a mathematical value.
pub struct WriterView {
    /// The encoder inside the muxer.
    pub encoder: EncoderView,
    /// The clusters and the clock.
    pub mux: MuxState,
    /// Whether the stream has been ended.
    pub finalized: bool,
}

impl WriterView {
    /// What holds of the muxer between calls: the encoder holds no complete
    /// frame and no answer of the codec that has not been muxed, and the
    /// muxer's own state is as `MuxState::wf` says.
    pub open spec fn wf(self) -> bool {
        &&& self.encoder.wf()
        &&& self.encoder.taken == self.encoder.results.len()
        &&& self.encoder.ready.len() == 0
        &&& self.encoder.marks.len() == 0
        &&& self.mux.wf(self.finalized)
    }

    /// The state in which a new muxer starts, with an encoder at `bitrate`.
    pub open spec fn initial(bitrate: i32) -> WriterView {
        WriterView {
            encoder: EncoderView::initial(bitrate),
            mux: MuxState::initial(),
            finalized: false,
        }
    }

    /// Whether this is the state in which a new muxer starts, at whatever
    /// bitrate.
    pub open spec fn is_initial(self) -> bool {
        &&& self.encoder.is_initial()
        &&& self.mux == MuxState::initial()
        &&& !self.finalized
    }
}

/// The message of the error for a push after the end of the stream.
pub open spec fn message_push_after_end() -> Seq<char> {
    "Cannot add samples after finalize()"@
}

/// The message of the error for a second end of the stream.
pub open spec fn message_ended_twice() -> Seq<char> {
    "finalize() called twice"@
}

/// What a push of `samples` into the muxer does, from the state `before` to
/// the state `after` with the result `r`.
///
/// After the end of the stream the push is refused and changes nothing.
/// Else the samples go through the encoder as `push_effect` says. Where
/// the codec fails, the error is handed on and nothing is muxed. Else each
/// frame that the codec accepted moves the clock, each kept frame becomes a
/// block, and the encoder is left with nothing ready.
pub open spec fn mux_effect(
    before: WriterView,
    samples: Seq<i16>,
    after: WriterView,
    r: Result<(), OpusError>,
) -> bool {
    if before.finalized {
        &&& after == before
        &&& r matches Err(OpusError::WebmError(msg)) && msg@ == message_push_after_end()
    } else {
        let answers = after.encoder.results_since(before.encoder);
        &&& !after.finalized
        &&& match r {
            Ok(()) => {
                &&& after.encoder == before.encoder.append(samples).feed(answers).drained()
                &&& push_outcome(
                    answers,
                    (before.encoder.pending.len() + samples.len()) / FRAME_SIZE as nat,
                    r,
                )
                &&& after.mux == before.mux.mux(kept_marks(answers), kept_frames(answers))
                &&& after.wf()
            },
            Err(_) => {
                &&& push_effect(before.encoder, samples, after.encoder, r)
                &&& after.mux == before.mux
            },
        }
    }
}

/// What the end of the stream does to the muxer, from the state `before` to
/// the state `after` with the result `r`.
///
/// A second end is refused and changes nothing. Else the encoder is
/// flushed with silence as `push_effect` says. Where the codec fails, the
/// error is handed on, nothing is muxed and the stream is not ended. Else
/// what came out is muxed, the open cluster is sealed if it holds a block,
/// and the stream is ended.
pub open spec fn end_effect(
    before: WriterView,
    after: WriterView,
    r: Result<(), OpusError>,
) -> bool {
    if before.finalized {
        &&& after == before
        &&& r matches Err(OpusError::WebmError(msg)) && msg@ == message_ended_twice()
    } else {
        let answers = after.encoder.results_since(before.encoder);
        let padding = silence(flush_length(before.encoder.pending.len()));
        match r {
            Ok(()) => {
                &&& after.encoder == before.encoder.append(padding).feed(answers).drained()
                &&& push_outcome(answers, flush_frames(before.encoder.pending.len()), r)
                &&& after.mux == before.mux.mux(kept_marks(answers), kept_frames(answers)).closed()
                &&& after.finalized
                &&& after.wf()
            },
            Err(_) => {
                &&& push_effect(before.encoder, padding, after.encoder, r)
                &&& after.mux == before.mux
                &&& !after.finalized
            },
        }
    }
}

/// The file `bytes` is what the muxer gives at the end of a stream that
/// was in the state `before`, where the stream ended in the state `after`
/// and the codec reported the look-ahead `preskip`.
pub open spec fn finalize_result(
    before: WriterView,
    after: WriterView,
    preskip: u16,
    bytes: Seq<u8>,
) -> bool {
    &&& !before.finalized
    &&& end_effect(before, after, Ok(()))
    &&& bytes == webm_file(after.mux, preskip)
}

/// The file `bytes` is what the muxer gives at the end of a stream that
/// was in the state `before`: there are a state in which the stream ended
/// and a look-ahead reported by the codec, cut to 16 bits, for which
/// `finalize_result` holds.
#[verifier::opaque]
pub open spec fn finalized_from(before: WriterView, bytes: Seq<u8>) -> bool {
    exists|after: WriterView, preskip: u16| #[trigger]
        finalize_result(before, after, preskip, bytes)
}

/// A state and a look-ahead for which `finalize_result` holds show that
/// the file comes from the end of the stream.
pub proof fn lemma_finalized_from(
    before: WriterView,
    after: WriterView,
    preskip: u16,
    bytes: Seq<u8>,
)
    requires
        finalize_result(before, after, preskip, bytes),
    ensures
        finalized_from(before, bytes),
{
    reveal(finalized_from);
}

/// Whether the clock of a muxer in the state `w` can take the frames that
/// a push of `count` samples would complete.
pub open spec fn has_room_for(w: WriterView, count: nat) -> bool {
    w.mux.timestamp_ms + FRAME_DURATION_MS * ((w.encoder.pending.len() + count)
        / FRAME_SIZE as nat) <= u32::MAX
}

/// Whether the clock of a muxer in the state `w` can take the frames that
/// end the stream.
pub open spec fn can_end_for(w: WriterView) -> bool {
    w.mux.timestamp_ms + FRAME_DURATION_MS * flush_frames(w.encoder.pending.len()) <= u32::MAX
}

/// The number of bytes in the sealed clusters and the open one.
pub open spec fn buffered_bytes(m: MuxState) -> nat {
    concat_all(m.clusters).len() + m.open.len()
}

/// A muxer: it owns the encoder, the sealed clusters and the open one.
pub struct WebmWriter<C: FrameCodec> {
    encoder: BufferedOpusEncoder<C>,
    completed_clusters: Vec<Vec<u8>>,
    current_cluster_blocks: EbmlBuilder,
    current_timestamp_ms: u32,
    cluster_start_timestamp_ms: u32,
    total_samples_encoded: u64,
    finalized: bool,
}

impl<C: FrameCodec> View for WebmWriter<C> {
    type V = WriterView;

    closed spec fn view(&self) -> WriterView {
        WriterView {
            encoder: self.encoder@,
            mux: MuxState {
                clusters: frame_views(self.completed_clusters@),
                open: self.current_cluster_blocks@,
                timestamp_ms: self.current_timestamp_ms as nat,
                cluster_start_ms: self.cluster_start_timestamp_ms as nat,
                total_samples: self.total_samples_encoded as nat,
            },
            finalized: self.finalized,
        }
    }
}

impl<C: FrameCodec> WebmWriter<C> {
    /// Creates the encoder at the given bitrate and opens the first
    /// cluster. Where the encoder cannot be created, which is the codec's
    /// to say, no muxer exists, and the error is that of the codec's status
    /// code.
    pub fn new(bitrate: i32) -> (r: Result<Self, OpusError>)
        ensures
            r is Ok ==> r->Ok_0@ == WriterView::initial(bitrate) && r->Ok_0@.wf(),
            r is Err ==> is_status_error(r->Err_0),
    {
        match BufferedOpusEncoder::new(bitrate) {
            Ok(encoder) => Ok(Self::with_encoder(encoder)),
            Err(e) => Err(e),
        }
    }

    /// Makes a muxer around an encoder that has just been created, and opens
    /// the first cluster.
    pub fn with_encoder(encoder: BufferedOpusEncoder<C>) -> (writer: Self)
        requires
            encoder@.is_initial(),
        ensures
            writer@ == WriterView::initial(encoder@.controls[0].value),
            writer@.encoder == encoder@,
            writer@.wf(),
    {
        let mut writer = WebmWriter {
            encoder,
            completed_clusters: Vec::new(),
            current_cluster_blocks: EbmlBuilder::with_capacity(32768),
            current_timestamp_ms: 0,
            cluster_start_timestamp_ms: 0,
            total_samples_encoded: 0,
            finalized: false,
        };
        writer.init_cluster();
        proof {
            assert(writer@.mux.clusters =~= Seq::<Seq<u8>>::empty());
            lemma_initial_wf(encoder@.controls[0].value);
        }
        writer
    }

    /// Starts the open cluster afresh with its timestamp header.
    fn init_cluster(&mut self)
        ensures
            final(self)@ == (WriterView {
                mux: MuxState {
                    open: cluster_header(old(self)@.mux.cluster_start_ms),
                    ..old(self)@.mux
                },
                ..old(self)@
            }),
    {
        self.current_cluster_blocks.clear();
        self.current_cluster_blocks.u1(ID_TIMESTAMP).size(4).u4(self.cluster_start_timestamp_ms);
        proof {
            assert(self@.mux.open =~= cluster_header(old(self)@.mux.cluster_start_ms));
        }
    }

    /// Seals the open cluster into a cluster element and opens a new one at
    /// the current time.
    fn flush_cluster(&mut self)
        requires
            old(self)@.mux.open.len() <= CLUSTER_HEADER_SIZE + BLOCK_MAX * 50,
        ensures
            final(self)@ == (WriterView { mux: old(self)@.mux.sealed(), ..old(self)@ }),
    {
        let mut cluster = EbmlBuilder::new();
        cluster.u4(ID_CLUSTER).payload(&self.current_cluster_blocks);
        proof {
            assert(cluster@ =~= cluster_element(self@.mux.open));
        }
        self.completed_clusters.push(cluster.build());
        self.cluster_start_timestamp_ms = self.current_timestamp_ms;
        proof {
            assert(self@.mux.clusters =~= old(self)@.mux.clusters.push(
                cluster_element(old(self)@.mux.open),
            ));
        }
        self.init_cluster();
    }

    /// Moves the clock on by one frame and seals the open cluster once a
    /// second has passed since its start.
    fn advance_clock(&mut self)
        requires
            old(self)@.mux.timestamp_ms + FRAME_DURATION_MS <= u32::MAX,
            old(self)@.mux.total_samples == 48 * old(self)@.mux.timestamp_ms,
            old(self)@.mux.cluster_start_ms <= old(self)@.mux.timestamp_ms,
            old(self)@.mux.open.len() <= CLUSTER_HEADER_SIZE + BLOCK_MAX * 50,
        ensures
            final(self)@ == (WriterView {
                mux: {
                    let moved = MuxState {
                        timestamp_ms: (old(self)@.mux.timestamp_ms + FRAME_DURATION_MS) as nat,
                        total_samples: (old(self)@.mux.total_samples + SAMPLES_PER_FRAME) as nat,
                        ..old(self)@.mux
                    };
                    if moved.timestamp_ms >= moved.cluster_start_ms + CLUSTER_DURATION_MS {
                        moved.sealed()
                    } else {
                        moved
                    }
                },
                ..old(self)@
            }),
    {
        self.current_timestamp_ms = self.current_timestamp_ms + FRAME_DURATION_MS;
        self.total_samples_encoded = self.total_samples_encoded + SAMPLES_PER_FRAME;
        if self.current_timestamp_ms - self.cluster_start_timestamp_ms >= CLUSTER_DURATION_MS {
            self.flush_cluster();
        }
    }

    /// Appends the block for one encoded frame to the open cluster.
    fn append_block(&mut self, offset: u16, opus_data: &[u8])
        requires
            opus_data@.len() <= MAX_PACKET_SIZE,
        ensures
            final(self)@ == (WriterView {
                mux: MuxState {
                    open: old(self)@.mux.open + frame_block(offset as nat, opus_data@),
                    ..old(self)@.mux
                },
                ..old(self)@
            }),
    {
        let length: u64 = 4 + opus_data.len() as u64;
        let ghost before = self@.mux.open;
        self.current_cluster_blocks.u1(ID_SIMPLE_BLOCK).size(length).u1(0x81).u2(offset).u1(
            0x80,
        ).bytes(opus_data);
        proof {
            assert(self@.mux.open =~= before + frame_block(offset as nat, opus_data@));
        }
    }

    /// Writes one encoded frame into the open cluster as a block, stamped
    /// with the time since the cluster's start, and moves the clock on.
    fn write_opus_frame(&mut self, opus_data: &[u8])
        requires
            old(self)@.mux.wf(false),
            old(self)@.mux.timestamp_ms + FRAME_DURATION_MS <= u32::MAX,
            opus_data@.len() <= MAX_PACKET_SIZE,
        ensures
            final(self)@ == (WriterView {
                mux: old(self)@.mux.tick(Some(opus_data@)),
                ..old(self)@
            }),
            final(self)@.mux.wf(false),
    {
        let offset: u32 = self.current_timestamp_ms - self.cluster_start_timestamp_ms;
        proof {
            lemma_tick_wf(self@.mux, Some(opus_data@));
            lemma_frame_block_len(offset as nat, opus_data@);
        }
        self.append_block(offset as u16, opus_data);
        self.advance_clock();
    }

    /// Moves the clock on for a frame whose encoded form was dropped.
    fn skip_frame(&mut self)
        requires
            old(self)@.mux.wf(false),
            old(self)@.mux.timestamp_ms + FRAME_DURATION_MS <= u32::MAX,
        ensures
            final(self)@ == (WriterView { mux: old(self)@.mux.tick(None), ..old(self)@ }),
            final(self)@.mux.wf(false),
    {
        proof {
            lemma_tick_wf(self@.mux, None);
        }
        self.advance_clock();
    }

    /// Takes what the encoder has ready and muxes it: a block for each kept
    /// frame, and a step of the clock for each frame that the codec
    /// accepted.
    fn process_encoded_frames(&mut self)
        requires
            old(self)@.encoder.consistent(),
            old(self)@.mux.wf(false),
            old(self)@.mux.timestamp_ms + FRAME_DURATION_MS * old(self)@.encoder.marks.len()
                <= u32::MAX,
        ensures
            final(self)@ == (WriterView {
                encoder: old(self)@.encoder.drained(),
                mux: old(self)@.mux.mux(old(self)@.encoder.marks, old(self)@.encoder.ready),
                ..old(self)@
            }),
            final(self)@.mux.wf(false),
            final(self)@.encoder.consistent(),
    {
        let ghost before = self@;
        proof {
            lemma_marks_count(before.encoder.results.skip(before.encoder.taken as int));
        }
        let (frames, marks) = self.encoder.take_frames_with_marks();
        let ghost ready = frame_views(frames@);
        let mut i: usize = 0;
        let mut j: usize = 0;
        proof {
            assert(marks@.take(0) =~= Seq::<bool>::empty());
        }
        while i < marks.len()
            invariant
                0 <= i <= marks@.len(),
                j == count_kept(marks@.take(i as int)),
                j <= frames@.len(),
                j <= i,
                frames@.len() == count_kept(marks@),
                ready == frame_views(frames@),
                forall|k: int|
                    0 <= k < ready.len() ==> (#[trigger] ready[k]).len() <= MAX_PACKET_SIZE,
                before.mux.timestamp_ms + FRAME_DURATION_MS * marks@.len() <= u32::MAX,
                self@.mux.timestamp_ms == before.mux.timestamp_ms + FRAME_DURATION_MS * i,
                self@.mux == before.mux.mux(marks@.take(i as int), ready.take(j as int)),
                self@.mux.wf(false),
                self@.encoder == before.encoder.drained(),
                self@.finalized == before.finalized,
            decreases marks@.len() - i,
        {
            let ghost prev = self@.mux;
            proof {
                lemma_count_kept_prefix(marks@, i as int + 1);
                assert(marks@.take(i as int + 1).drop_last() =~= marks@.take(i as int));
                assert(FRAME_DURATION_MS * (i + 1) <= FRAME_DURATION_MS * marks@.len())
                    by (nonlinear_arith)
                    requires
                        i + 1 <= marks@.len(),
                ;
            }
            if marks[i] {
                proof {
                    assert(marks@.take(i as int + 1).last());
                    assert(j + 1 == count_kept(marks@.take(i as int + 1)));
                    assert(j < frames@.len());
                    assert(ready.take(j as int + 1).drop_last() =~= ready.take(j as int));
                    assert(ready[j as int] == frames@[j as int]@);
                }
                self.write_opus_frame(frames[j].as_slice());
                j = j + 1;
            } else {
                self.skip_frame();
            }
            i = i + 1;
        }
        proof {
            assert(marks@.take(i as int) =~= marks@);
            assert(ready.take(j as int) =~= ready);
        }
    }

    /// Pushes samples through the encoder and muxes every frame that comes
    /// out. After the end of the stream nothing is accepted. A failure of
    /// the codec ends the call before anything is muxed.
    pub fn add_samples(&mut self, samples: &[i16]) -> (r: Result<(), OpusError>)
        requires
            old(self)@.wf(),
            old(self)@.mux.timestamp_ms + FRAME_DURATION_MS * ((old(self)@.encoder.pending.len()
                + samples@.len()) / FRAME_SIZE as nat) <= u32::MAX,
        ensures
            mux_effect(old(self)@, samples@, final(self)@, r),
    {
        if self.finalized {
            return Err(OpusError::WebmError("Cannot add samples after finalize()".to_owned()));
        }
        match self.encoder.add_samples(samples) {
            Ok(()) => {},
            Err(e) => {
                return Err(e);
            },
        }
        proof {
            lemma_marks_count(self@.encoder.results_since(old(self)@.encoder));
            assert(old(self)@.encoder.marks + kept_marks(
                self@.encoder.results_since(old(self)@.encoder),
            ) =~= kept_marks(self@.encoder.results_since(old(self)@.encoder)));
            assert(old(self)@.encoder.ready + kept_frames(
                self@.encoder.results_since(old(self)@.encoder),
            ) =~= kept_frames(self@.encoder.results_since(old(self)@.encoder)));
            lemma_clock_room(
                old(self)@.mux.timestamp_ms,
                self@.encoder.marks.len(),
                (old(self)@.encoder.pending.len() + samples@.len()) / FRAME_SIZE as nat,
            );
        }
        let ghost pushed = self@.encoder;
        self.process_encoded_frames();
        proof {
            assert(self@.encoder.results_since(old(self)@.encoder) == pushed.results_since(
                old(self)@.encoder,
            ));
        }
        Ok(())
    }

    /// Builds the body of the format header.
    pub fn build_ebml_header() -> (header: EbmlBuilder)
        ensures
            header@ == ebml_header(),
    {
        let mut header = EbmlBuilder::new();
        let doc: [u8; 4] = [0x77, 0x65, 0x62, 0x6D];
        put_byte(&mut header, ID_EBML_VERSION as u32, 2, 1);
        put_byte(&mut header, ID_EBML_READ_VERSION as u32, 2, 1);
        put_byte(&mut header, ID_EBML_MAX_ID_LENGTH as u32, 2, 4);
        put_byte(&mut header, ID_EBML_MAX_SIZE_LENGTH as u32, 2, 8);
        put_element(&mut header, ID_DOC_TYPE as u32, 2, doc.as_slice());
        put_byte(&mut header, ID_DOC_TYPE_VERSION as u32, 2, 4);
        put_byte(&mut header, ID_DOC_TYPE_READ_VERSION as u32, 2, 2);
        proof {
            assert(doc@ =~= doc_type());
            assert(header@ =~= ebml_header());
        }
        header
    }

    /// Builds the metadata section for a stream of `samples` samples.
    pub fn build_segment_info(samples: u64) -> (info: EbmlBuilder)
        requires
            samples < 0x100_0000_0000,
        ensures
            info@ == segment_info(samples as nat),
    {
        let mut children = EbmlBuilder::new();
        let name: [u8; 15] = [
            0x4D,
            0x75,
            0x73,
            0x65,
            0x56,
            0x6F,
            0x69,
            0x63,
            0x65,
            0x2D,
            0x30,
            0x2E,
            0x31,
            0x2E,
            0x30,
        ];
        put_u4(&mut children, ID_TIMECODE_SCALE, 3, 1_000_000);
        put_u8(&mut children, ID_DURATION as u32, 2, duration_bits(samples));
        put_element(&mut children, ID_MUXING_APP as u32, 2, name.as_slice());
        put_element(&mut children, ID_WRITING_APP as u32, 2, name.as_slice());
        proof {
            assert(name@ =~= app_name());
            assert(children@ =~= info_body(samples as nat));
            lemma_info_body_len(samples as nat);
        }
        let mut info = EbmlBuilder::new();
        put_element(&mut info, ID_INFO, 4, children.as_slice());
        proof {
            assert(info@ =~= segment_info(samples as nat));
        }
        info
    }

    /// Builds the codec's header for the given pre-skip.
    pub fn build_opus_head(preskip: u16) -> (head: Vec<u8>)
        ensures
            head@ == opus_head(preskip),
            head@.len() == 19,
    {
        let mut head: Vec<u8> = Vec::with_capacity(19);
        head.push(0x4F);
        head.push(0x70);
        head.push(0x75);
        head.push(0x73);
        head.push(0x48);
        head.push(0x65);
        head.push(0x61);
        head.push(0x64);
        head.push(1);
        head.push(1);
        head.push((preskip % 256) as u8);
        head.push((preskip / 256) as u8);
        head.push((SAMPLE_RATE % 256) as u8);
        head.push(((SAMPLE_RATE / 0x100) % 256) as u8);
        head.push(((SAMPLE_RATE / 0x1_0000) % 256) as u8);
        head.push(((SAMPLE_RATE / 0x100_0000) % 256) as u8);
        head.push(0);
        head.push(0);
        head.push(0);
        proof {
            reveal_with_fuel(le_bytes, 5);
            assert(head@ =~= opus_head(preskip));
        }
        head
    }

    /// Builds the body of the track's audio settings.
    fn build_audio() -> (audio: EbmlBuilder)
        ensures
            audio@ == audio_body(),
    {
        let mut audio = EbmlBuilder::new();
        put_byte(&mut audio, ID_CHANNELS as u32, 1, 1);
        put_u8(&mut audio, ID_SAMPLING_FREQUENCY as u32, 1, double_bits(SAMPLE_RATE as u64));
        put_byte(&mut audio, ID_BIT_DEPTH as u32, 2, 16);
        proof {
            assert(audio@ =~= audio_body());
        }
        audio
    }

    /// Builds the body of the track entry for the given pre-skip.
    fn build_track_entry(preskip: u16) -> (entry: EbmlBuilder)
        ensures
            entry@ == track_entry_body(preskip),
    {
        let audio = Self::build_audio();
        let head = Self::build_opus_head(preskip);
        let lang: [u8; 3] = [0x65, 0x6E, 0x67];
        let codec: [u8; 6] = [0x41, 0x5F, 0x4F, 0x50, 0x55, 0x53];
        let delay: u64 = (preskip as u64) * 1_000_000_000 / (SAMPLE_RATE as u64);
        let mut entry = EbmlBuilder::new();
        proof {
            lemma_audio_body_len();
        }
        put_byte(&mut entry, ID_TRACK_NUMBER as u32, 1, 1);
        put_u8(&mut entry, ID_TRACK_UID as u32, 2, 0xDEAD_BEEF_1234_5678);
        put_byte(&mut entry, ID_FLAG_LACING as u32, 1, 0);
        put_element(&mut entry, ID_LANGUAGE, 3, lang.as_slice());
        put_element(&mut entry, ID_CODEC_ID as u32, 1, codec.as_slice());
        let ghost half = entry@;
        put_u8(&mut entry, ID_CODEC_DELAY as u32, 2, delay);
        put_u4(&mut entry, ID_SEEK_PRE_ROLL as u32, 2, 80_000_000);
        put_byte(&mut entry, ID_TRACK_TYPE as u32, 1, 2);
        put_element(&mut entry, ID_AUDIO as u32, 1, audio.as_slice());
        put_element(&mut entry, ID_CODEC_PRIVATE as u32, 2, head.as_slice());
        proof {
            assert(lang@ =~= language());
            assert(codec@ =~= codec_id());
            assert(entry@ =~= track_entry_body(preskip));
        }
        entry
    }

    /// Builds the tracks section for the given pre-skip.
    pub fn build_tracks(preskip: u16) -> (r: EbmlBuilder)
        ensures
            r@ == tracks(preskip),
    {
        let entry = Self::build_track_entry(preskip);
        proof {
            lemma_track_entry_len(preskip);
            lemma_element_len(ID_TRACK_ENTRY as nat, 1, track_entry_body(preskip));
        }
        let mut track = EbmlBuilder::new();
        put_element(&mut track, ID_TRACK_ENTRY as u32, 1, entry.as_slice());
        let mut all = EbmlBuilder::new();
        put_element(&mut all, ID_TRACKS, 4, track.as_slice());
        proof {
            assert(all@ =~= tracks(preskip));
        }
        all
    }

    /// Assembles the complete file from the sealed clusters: the format
    /// header, then the segment with the metadata, the tracks and the
    /// clusters.
    pub fn build_webm_file(&self, preskip: u16) -> (file: Vec<u8>)
        requires
            self@.mux.wf(self@.finalized),
        ensures
            file@ == webm_file(self@.mux, preskip),
    {
        let header = Self::build_ebml_header();
        let info = Self::build_segment_info(self.total_samples_encoded);
        let tracks_section = Self::build_tracks(preskip);
        let ghost clusters = self@.mux.clusters;
        let ghost duration = self@.mux.total_samples;
        let mut segment = EbmlBuilder::new();
        segment.bytes(info.as_slice()).bytes(tracks_section.as_slice());
        let mut i: usize = 0;
        proof {
            assert(clusters.take(0) =~= Seq::<Seq<u8>>::empty());
            assert(segment@ =~= segment_info(duration) + tracks(preskip) + concat_all(
                clusters.take(0),
            ));
        }
        while i < self.completed_clusters.len()
            invariant
                0 <= i <= self.completed_clusters@.len(),
                clusters == frame_views(self.completed_clusters@),
                segment@ == segment_info(duration) + tracks(preskip) + concat_all(
                    clusters.take(i as int),
                ),
            decreases self.completed_clusters@.len() - i,
        {
            proof {
                let pre = clusters.take(i as int + 1);
                assert(pre.drop_last() =~= clusters.take(i as int));
                assert(pre.last() == self.completed_clusters@[i as int]@);
                assert(concat_all(pre) == concat_all(pre.drop_last()) + pre.last());
            }
            let ghost grown = segment@ + self.completed_clusters@[i as int]@;
            segment.bytes(self.completed_clusters[i].as_slice());
            proof {
                assert(grown =~= segment_info(duration) + tracks(preskip) + concat_all(
                    clusters.take(i as int + 1),
                ));
            }
            i = i + 1;
        }
        proof {
            assert(clusters.take(i as int) =~= clusters);
            lemma_segment_len(self@.mux, self@.finalized, preskip);
            lemma_header_len();
        }
        let mut file = EbmlBuilder::new();
        put_element(&mut file, ID_EBML, 4, header.as_slice());
        put_element(&mut file, ID_SEGMENT, 4, segment.as_slice());
        proof {
            assert(file@ =~= webm_file(self@.mux, preskip));
        }
        file.build()
    }

    /// Pushes single-precision samples, given by their bit patterns, through
    /// the encoder and muxes every frame that comes out.
    pub fn add_samples_f32(&mut self, samples: &[u32]) -> (r: Result<(), OpusError>)
        requires
            old(self)@.wf(),
            old(self)@.mux.timestamp_ms + FRAME_DURATION_MS * ((old(self)@.encoder.pending.len()
                + samples@.len()) / FRAME_SIZE as nat) <= u32::MAX,
        ensures
            mux_effect(old(self)@, pcm_samples(samples@), final(self)@, r),
    {
        let pcm = convert_samples(samples);
        self.add_samples(pcm.as_slice())
    }

    /// Ends the stream: flushes the encoder, muxes what comes out, and seals
    /// the open cluster if it holds any block. Nothing can be pushed
    /// afterwards, and the stream cannot be ended again.
    pub fn end_stream(&mut self) -> (r: Result<(), OpusError>)
        requires
            old(self)@.wf(),
            old(self)@.mux.timestamp_ms + FRAME_DURATION_MS * flush_frames(
                old(self)@.encoder.pending.len(),
            ) <= u32::MAX,
        ensures
            end_effect(old(self)@, final(self)@, r),
            !old(self)@.finalized && r is Err ==> is_status_error(r->Err_0),
            r is Ok ==> r == Ok::<(), OpusError>(()),
            r is Ok ==> !old(self)@.finalized && final(self)@.finalized,
            r is Ok ==> final(self)@.mux.wf(true),
    {
        if self.finalized {
            return Err(OpusError::WebmError("finalize() called twice".to_owned()));
        }
        let ghost before = self@;
        match self.encoder.finalize() {
            Ok(()) => {},
            Err(e) => {
                return Err(e);
            },
        }
        proof {
            let answers = self@.encoder.results_since(before.encoder);
            lemma_marks_count(answers);
            assert(before.encoder.marks + kept_marks(answers) =~= kept_marks(answers));
            assert(before.encoder.ready + kept_frames(answers) =~= kept_frames(answers));
            lemma_clock_room(
                before.mux.timestamp_ms,
                self@.encoder.marks.len(),
                flush_frames(before.encoder.pending.len()),
            );
        }
        let ghost pushed = self@.encoder;
        self.process_encoded_frames();
        proof {
            assert(self@.encoder.results_since(before.encoder) == pushed.results_since(
                before.encoder,
            ));
            lemma_block_bound(self@.mux);
        }
        if self.current_cluster_blocks.len() > CLUSTER_HEADER_SIZE {
            proof {
                lemma_cluster_element_len(self@.mux.open);
                lemma_cluster_header_len(self@.mux.timestamp_ms);
                lemma_sealed_wf(self@.mux);
            }
            self.flush_cluster();
        }
        self.finalized = true;
        Ok(())
    }

    /// Ends the stream and assembles the file. The muxer is used up.
    pub fn finalize(self) -> (r: Result<Vec<u8>, OpusError>)
        requires
            self@.wf(),
            self@.mux.timestamp_ms + FRAME_DURATION_MS * flush_frames(self@.encoder.pending.len())
                <= u32::MAX,
        ensures
            self@.finalized ==> (r matches Err(OpusError::WebmError(msg)) && msg@
                == message_ended_twice()),
            !self@.finalized && r is Err ==> is_status_error(r->Err_0),
            r is Ok ==> finalized_from(self@, r->Ok_0@),
    {
        let ghost before = self@;
        let mut writer = self;
        let ended = writer.end_stream();
        let ghost after = writer@;
        match ended {
            Ok(()) => {},
            Err(e) => {
                return Err(e);
            },
        }
        proof {
            assert(ended == Ok::<(), OpusError>(()));
            assert(end_effect(before, after, Ok(())));
        }
        let preskip: i32 = match writer.encoder.get_preskip() {
            Ok(preskip) => preskip,
            Err(e) => {
                return Err(e);
            },
        };
        let short: u16 = #[verifier::truncate] (preskip as u16);
        let file = writer.build_webm_file(short);
        proof {
            assert(writer@ == after);
            assert(finalize_result(before, after, short, file@));
            lemma_finalized_from(before, after, short, file@);
        }
        Ok(file)
    }

    /// The number of bytes held in the sealed clusters and the open one; the
    /// largest `usize` where the number is larger.
    pub fn buffered_size(&self) -> (n: usize)
        requires
            self@.mux.wf(self@.finalized),
        ensures
            n == if buffered_bytes(self@.mux) <= usize::MAX {
                buffered_bytes(self@.mux)
            } else {
                usize::MAX as nat
            },
    {
        let ghost clusters = self@.mux.clusters;
        let mut total: u64 = 0;
        let mut i: usize = 0;
        proof {
            lemma_segment_len(self@.mux, self@.finalized, 0);
            lemma_block_bound(self@.mux);
        }
        while i < self.completed_clusters.len()
            invariant
                0 <= i <= self.completed_clusters@.len(),
                clusters == frame_views(self.completed_clusters@),
                concat_all(clusters).len() < vint_capacity(true),
                total == concat_all(clusters.take(i as int)).len(),
            decreases self.completed_clusters@.len() - i,
        {
            proof {
                let pre = clusters.take(i as int + 1);
                assert(pre.drop_last() =~= clusters.take(i as int));
                assert(pre.last() == self.completed_clusters@[i as int]@);
                assert(concat_all(pre) == concat_all(pre.drop_last()) + pre.last());
                crate::ebml::lemma_concat_all_prefix(clusters, i as int + 1);
                assert(pre =~= clusters.subrange(0, i as int + 1));
            }
            total = total + self.completed_clusters[i].len() as u64;
            i = i + 1;
        }
        proof {
            assert(clusters.take(i as int) =~= clusters);
        }
        total = total + self.current_cluster_blocks.len() as u64;
        if total > usize::MAX as u64 {
            usize::MAX
        } else {
            total as usize
        }
    }

    /// Whether the clock can take the frames that a push of `count` samples
    /// would complete.
    pub fn has_room(&self, count: usize) -> (b: bool)
        ensures
            b == has_room_for(self@, count as nat),
    {
        let frames: u128 = (self.encoder.buffered_samples() as u128 + count as u128) / (
        FRAME_SIZE as u128);
        self.current_timestamp_ms as u128 + (FRAME_DURATION_MS as u128) * frames <= u32::MAX as u128
    }

    /// Whether the clock can take the frames that end the stream.
    pub fn can_end(&self) -> (b: bool)
        ensures
            b == can_end_for(self@),
    {
        let frames: u32 = if self.encoder.buffered_samples() == 0 {
            2
        } else {
            3
        };
        self.current_timestamp_ms <= u32::MAX - FRAME_DURATION_MS * frames
    }

    /// Whether the stream has been ended.
    pub fn is_finalized(&self) -> (b: bool)
        ensures
            b == self@.finalized,
    {
        self.finalized
    }

    /// The time of all frames accepted so far, in milliseconds.
    pub fn current_timestamp_ms(&self) -> (t: u32)
        ensures
            t == self@.mux.timestamp_ms,
    {
        self.current_timestamp_ms
    }

    /// The number of sealed clusters.
    pub fn cluster_count(&self) -> (n: usize)
        ensures
            n == self@.mux.clusters.len(),
    {
        self.completed_clusters.len()
    }
}

/// A block takes at most `BLOCK_MAX` bytes for a frame of at most
/// `MAX_PACKET_SIZE` bytes.
pub proof fn lemma_frame_block_len(offset_ms: nat, frame: Seq<u8>)
    requires
        frame.len() <= MAX_PACKET_SIZE,
    ensures
        frame_block(offset_ms, frame).len() <= BLOCK_MAX,
        frame_block(offset_ms, frame).len() > frame.len(),
{
    lemma_vint_width_minimal((4 + frame.len()) as u64, true);
    lemma_be_bytes_len(offset_ms, 2);
}

/// A sealed cluster takes at most twelve bytes more than its body.
pub proof fn lemma_cluster_element_len(body: Seq<u8>)
    requires
        body.len() < vint_capacity(true),
    ensures
        body.len() < cluster_element(body).len() <= body.len() + 12,
{
    lemma_vint_width_minimal(body.len() as u64, true);
    lemma_be_bytes_len(ID_CLUSTER as nat, 4);
}

/// One more frame keeps the muxer's state as it should be, as long as the
/// clock has room for it and the frame is no longer than the codec was asked
/// for.
pub proof fn lemma_tick_wf(m: MuxState, frame: Option<Seq<u8>>)
    requires
        m.wf(false),
        m.timestamp_ms + FRAME_DURATION_MS <= u32::MAX,
        frame is Some ==> frame->Some_0.len() <= MAX_PACKET_SIZE,
    ensures
        m.tick(frame).wf(false),
        m.timestamp_ms - m.cluster_start_ms < 0x8000,
        m.open.len() + BLOCK_MAX <= CLUSTER_HEADER_SIZE + BLOCK_MAX * 50,
{
    let age = m.timestamp_ms - m.cluster_start_ms;
    assert(age % 20 == 0);
    assert((age + 20) / 20 == age / 20 + 1);
    assert(age / 20 < 50);
    assert(BLOCK_MAX * (age / 20) + BLOCK_MAX == BLOCK_MAX * (age / 20 + 1)) by (nonlinear_arith);
    assert(BLOCK_MAX * (age / 20 + 1) <= BLOCK_MAX * 50) by (nonlinear_arith)
        requires
            age / 20 + 1 <= 50,
    ;
    let grown = match frame {
        Some(bytes) => m.open + frame_block(age as nat, bytes),
        None => m.open,
    };
    if frame is Some {
        lemma_frame_block_len(age as nat, frame->Some_0);
    }
    assert(grown.len() <= CLUSTER_HEADER_SIZE + BLOCK_MAX * (age / 20 + 1));
    let after = m.tick(frame);
    if m.timestamp_ms + FRAME_DURATION_MS >= m.cluster_start_ms + CLUSTER_DURATION_MS {
        lemma_cluster_element_len(grown);
        lemma_cluster_header_len(after.cluster_start_ms);
        assert(after.clusters == m.clusters.push(cluster_element(grown)));
        assert(after.open.len() == CLUSTER_HEADER_SIZE);
        assert(after.timestamp_ms == after.cluster_start_ms);
        assert(BLOCK_MAX * 0 == 0);
        assert forall|i: int| 0 <= i < after.clusters.len() implies (
        #[trigger] after.clusters[i]).len() <= CLUSTER_MAX by {
            if i < m.clusters.len() {
                assert(after.clusters[i] == m.clusters[i]);
            }
        }
        assert((m.clusters.len() + 1) * CLUSTER_DURATION_MS == m.clusters.len()
            * CLUSTER_DURATION_MS + CLUSTER_DURATION_MS) by (nonlinear_arith);
        assert(after.wf(false));
    } else {
        assert(after.open == grown);
        assert(after.wf(false));
    }
}

/// The open cluster of a muxer in good state is no larger than the blocks
/// of a second can make it.
pub proof fn lemma_block_bound(m: MuxState)
    requires
        m.wf(false) || m.wf(true),
    ensures
        m.open.len() <= CLUSTER_HEADER_SIZE + BLOCK_MAX * 50,
{
    let age = m.timestamp_ms - m.cluster_start_ms;
    assert(age / 20 <= 50);
    assert(BLOCK_MAX * (age / 20) <= BLOCK_MAX * 50) by (nonlinear_arith)
        requires
            0 <= age / 20 <= 50,
    ;
}

/// Sealing the open cluster at the end of the stream leaves the muxer in
/// good state.
pub proof fn lemma_sealed_wf(m: MuxState)
    requires
        m.wf(false),
    ensures
        m.sealed().wf(true),
        m.wf(true),
{
    lemma_block_bound(m);
    lemma_cluster_element_len(m.open);
    lemma_cluster_header_len(m.timestamp_ms);
    let after = m.sealed();
    assert(BLOCK_MAX * 0 == 0);
    assert forall|i: int| 0 <= i < after.clusters.len() implies (#[trigger] after.clusters[i]).len()
        <= CLUSTER_MAX by {
        if i < m.clusters.len() {
            assert(after.clusters[i] == m.clusters[i]);
        }
    }
    assert((m.clusters.len() + 1) * CLUSTER_DURATION_MS == m.clusters.len() * CLUSTER_DURATION_MS
        + CLUSTER_DURATION_MS) by (nonlinear_arith);
}

/// A clock with room for `due` frames has room for any fewer.
pub proof fn lemma_clock_room(now: nat, count: nat, due: nat)
    requires
        count <= due,
        now + FRAME_DURATION_MS * due <= u32::MAX,
    ensures
        now + FRAME_DURATION_MS * count <= u32::MAX,
{
    assert(FRAME_DURATION_MS * count <= FRAME_DURATION_MS * due) by (nonlinear_arith)
        requires
            count <= due,
    ;
}

/// A cluster's timestamp header has six bytes.
pub proof fn lemma_cluster_header_len(start_ms: nat)
    ensures
        cluster_header(start_ms).len() == CLUSTER_HEADER_SIZE,
{
    lemma_vint_width_minimal(4, true);
    lemma_vint_limit_values();
    lemma_be_bytes_len(start_ms, 4);
    reveal_with_fuel(crate::ebml::vint_width_from, 2);
}

/// Appends `id` in `width` bytes, big-endian.
fn put_id(builder: &mut EbmlBuilder, id: u32, width: u8)
    requires
        1 <= width <= 4,
        width == 1 ==> id < 0x100,
        width == 2 ==> id < 0x1_0000,
        width == 3 ==> id < 0x100_0000,
    ensures
        final(builder)@ == old(builder)@ + be_bytes(id as nat, width as nat),
{
    reveal_with_fuel(be_bytes, 4);
    if width == 1 {
        builder.u1(id as u8);
        assert(builder@ =~= old(builder)@ + be_bytes(id as nat, 1));
    } else if width == 2 {
        builder.u2(id as u16);
    } else if width == 3 {
        builder.u2((id / 256) as u16).u1((id % 256) as u8);
        assert(builder@ =~= old(builder)@ + be_bytes(id as nat, 3));
    } else {
        builder.u4(id);
    }
}

/// Appends the element `id` with `payload` as its content.
fn put_element(builder: &mut EbmlBuilder, id: u32, width: u8, payload: &[u8])
    requires
        1 <= width <= 4,
        width == 1 ==> id < 0x100,
        width == 2 ==> id < 0x1_0000,
        width == 3 ==> id < 0x100_0000,
        payload@.len() < vint_capacity(true),
    ensures
        final(builder)@ == old(builder)@ + element(id as nat, width as nat, payload@),
{
    put_id(builder, id, width);
    builder.size(payload.len() as u64).bytes(payload);
    assert(builder@ =~= old(builder)@ + element(id as nat, width as nat, payload@));
}

/// Appends the element `id` with the one byte `value` as its content.
fn put_byte(builder: &mut EbmlBuilder, id: u32, width: u8, value: u8)
    requires
        1 <= width <= 4,
        width == 1 ==> id < 0x100,
        width == 2 ==> id < 0x1_0000,
        width == 3 ==> id < 0x100_0000,
    ensures
        final(builder)@ == old(builder)@ + element(id as nat, width as nat, seq![value]),
{
    put_id(builder, id, width);
    builder.size(1).u1(value);
    assert(builder@ =~= old(builder)@ + element(id as nat, width as nat, seq![value]));
}

/// Appends the element `id` with `value` as its content, big-endian in four
/// bytes.
fn put_u4(builder: &mut EbmlBuilder, id: u32, width: u8, value: u32)
    requires
        1 <= width <= 4,
        width == 1 ==> id < 0x100,
        width == 2 ==> id < 0x1_0000,
        width == 3 ==> id < 0x100_0000,
    ensures
        final(builder)@ == old(builder)@ + element(
            id as nat,
            width as nat,
            be_bytes(value as nat, 4),
        ),
{
    put_id(builder, id, width);
    builder.size(4).u4(value);
    proof {
        lemma_be_bytes_len(value as nat, 4);
        assert(builder@ =~= old(builder)@ + element(
            id as nat,
            width as nat,
            be_bytes(value as nat, 4),
        ));
    }
}

/// Appends the element `id` with `value` as its content, big-endian in
/// eight bytes.
fn put_u8(builder: &mut EbmlBuilder, id: u32, width: u8, value: u64)
    requires
        1 <= width <= 4,
        width == 1 ==> id < 0x100,
        width == 2 ==> id < 0x1_0000,
        width == 3 ==> id < 0x100_0000,
    ensures
        final(builder)@ == old(builder)@ + element(
            id as nat,
            width as nat,
            be_bytes(value as nat, 8),
        ),
{
    put_id(builder, id, width);
    builder.size(8).u8(value);
    proof {
        lemma_be_bytes_len(value as nat, 8);
        assert(builder@ =~= old(builder)@ + element(
            id as nat,
            width as nat,
            be_bytes(value as nat, 8),
        ));
    }
}

/// The format header's body takes at most 100 bytes.
pub proof fn lemma_header_len()
    ensures
        ebml_header().len() <= 100,
{
    lemma_element_len(ID_EBML_VERSION as nat, 2, seq![1u8]);
    lemma_element_len(ID_EBML_READ_VERSION as nat, 2, seq![1u8]);
    lemma_element_len(ID_EBML_MAX_ID_LENGTH as nat, 2, seq![4u8]);
    lemma_element_len(ID_EBML_MAX_SIZE_LENGTH as nat, 2, seq![8u8]);
    lemma_element_len(ID_DOC_TYPE as nat, 2, doc_type());
    lemma_element_len(ID_DOC_TYPE_VERSION as nat, 2, seq![4u8]);
    lemma_element_len(ID_DOC_TYPE_READ_VERSION as nat, 2, seq![2u8]);
}

/// Children of at most `max` bytes each take, one after the other, at most
/// `max` bytes times their number.
pub proof fn lemma_concat_all_bound(children: Seq<Seq<u8>>, max: nat)
    requires
        forall|i: int| 0 <= i < children.len() ==> (#[trigger] children[i]).len() <= max,
    ensures
        concat_all(children).len() <= children.len() * max,
    decreases children.len(),
{
    if children.len() > 0 {
        lemma_concat_all_bound(children.drop_last(), max);
        assert((children.len() - 1) * max + max == children.len() * max) by (nonlinear_arith);
    }
}

/// The segment of a muxer in good state is small enough for its size to be
/// written.
pub proof fn lemma_segment_len(m: MuxState, ended: bool, preskip: u16)
    requires
        m.wf(ended),
    ensures
        (segment_info(m.total_samples) + tracks(preskip) + concat_all(m.clusters)).len()
            < vint_capacity(true),
        m.total_samples < 0x100_0000_0000,
{
    let duration = m.total_samples;
    lemma_info_body_len(duration);
    lemma_element_len(ID_INFO as nat, 4, info_body(duration));
    lemma_track_entry_len(preskip);
    lemma_element_len(ID_TRACK_ENTRY as nat, 1, track_entry_body(preskip));
    lemma_element_len(
        ID_TRACKS as nat,
        4,
        element(ID_TRACK_ENTRY as nat, 1, track_entry_body(preskip)),
    );
    lemma_concat_all_bound(m.clusters, CLUSTER_MAX as nat);
    assert(m.clusters.len() <= 4_294_969) by (nonlinear_arith)
        requires
            m.clusters.len() * 1000 <= m.cluster_start_ms + 1000,
            m.cluster_start_ms <= 0xFFFF_FFFF,
    ;
    assert(m.clusters.len() * CLUSTER_MAX <= 4_294_969 * CLUSTER_MAX) by (nonlinear_arith)
        requires
            m.clusters.len() <= 4_294_969,
    ;
}

/// The body of the metadata section takes at most 100 bytes.
pub proof fn lemma_info_body_len(samples: nat)
    ensures
        info_body(samples).len() <= 100,
{
    lemma_be_bytes_len(1_000_000, 4);
    lemma_be_bytes_len(duration_bits_of(samples), 8);
    lemma_element_len(ID_TIMECODE_SCALE as nat, 3, be_bytes(1_000_000, 4));
    lemma_element_len(ID_DURATION as nat, 2, be_bytes(duration_bits_of(samples), 8));
    lemma_element_len(ID_MUXING_APP as nat, 2, app_name());
    lemma_element_len(ID_WRITING_APP as nat, 2, app_name());
}

/// The body of the track's audio settings takes at most 50 bytes.
pub proof fn lemma_audio_body_len()
    ensures
        audio_body().len() <= 50,
{
    lemma_be_bytes_len(double_bits_of(SAMPLE_RATE as nat), 8);
    lemma_element_len(ID_CHANNELS as nat, 1, seq![1u8]);
    lemma_element_len(
        ID_SAMPLING_FREQUENCY as nat,
        1,
        be_bytes(double_bits_of(SAMPLE_RATE as nat), 8),
    );
    lemma_element_len(ID_BIT_DEPTH as nat, 2, seq![16u8]);
}

/// The codec's header has 19 bytes.
pub proof fn lemma_opus_head_len(preskip: u16)
    ensures
        opus_head(preskip).len() == 19,
{
    reveal_with_fuel(le_bytes, 5);
    assert(le_bytes(preskip as nat, 2).len() == 2);
    assert(le_bytes(SAMPLE_RATE as nat, 4).len() == 4);
}

/// The codec's header has 19 bytes, and the body of the track entry takes
/// at most 250.
pub proof fn lemma_track_entry_len(preskip: u16)
    ensures
        opus_head(preskip).len() == 19,
        track_entry_body(preskip).len() <= 250,
{
    lemma_opus_head_len(preskip);
    lemma_audio_body_len();
    lemma_be_bytes_len(0xDEAD_BEEF_1234_5678, 8);
    lemma_be_bytes_len(codec_delay_ns(preskip), 8);
    lemma_be_bytes_len(80_000_000, 4);
    let e0 = element(ID_TRACK_NUMBER as nat, 1, seq![1u8]);
    let e1 = element(ID_TRACK_UID as nat, 2, be_bytes(0xDEAD_BEEF_1234_5678, 8));
    let e2 = element(ID_FLAG_LACING as nat, 1, seq![0u8]);
    let e3 = element(ID_LANGUAGE as nat, 3, language());
    let e4 = element(ID_CODEC_ID as nat, 1, codec_id());
    let e5 = element(ID_CODEC_DELAY as nat, 2, be_bytes(codec_delay_ns(preskip), 8));
    let e6 = element(ID_SEEK_PRE_ROLL as nat, 2, be_bytes(80_000_000, 4));
    let e7 = element(ID_TRACK_TYPE as nat, 1, seq![2u8]);
    let e8 = element(ID_AUDIO as nat, 1, audio_body());
    let e9 = element(ID_CODEC_PRIVATE as nat, 2, opus_head(preskip));
    lemma_element_len(ID_TRACK_NUMBER as nat, 1, seq![1u8]);
    lemma_element_len(ID_TRACK_UID as nat, 2, be_bytes(0xDEAD_BEEF_1234_5678, 8));
    lemma_element_len(ID_FLAG_LACING as nat, 1, seq![0u8]);
    lemma_element_len(ID_LANGUAGE as nat, 3, language());
    lemma_element_len(ID_CODEC_ID as nat, 1, codec_id());
    lemma_element_len(ID_CODEC_DELAY as nat, 2, be_bytes(codec_delay_ns(preskip), 8));
    lemma_element_len(ID_SEEK_PRE_ROLL as nat, 2, be_bytes(80_000_000, 4));
    lemma_element_len(ID_TRACK_TYPE as nat, 1, seq![2u8]);
    lemma_element_len(ID_AUDIO as nat, 1, audio_body());
    lemma_element_len(ID_CODEC_PRIVATE as nat, 2, opus_head(preskip));
    assert(e0.len() <= 10 && e1.len() <= 18 && e2.len() <= 10 && e3.len() <= 14 && e4.len() <= 15);
    assert(e5.len() <= 18 && e6.len() <= 14 && e7.len() <= 10 && e8.len() <= 59 && e9.len() <= 29);
    assert(track_entry_body(preskip) == e0 + e1 + e2 + e3 + e4 + e5 + e6 + e7 + e8 + e9);
}

/// An element takes at most its identifier, eight bytes of size and its
/// payload, and more than its payload.
pub proof fn lemma_element_len(id: nat, id_width: nat, payload: Seq<u8>)
    requires
        payload.len() < vint_capacity(true),
    ensures
        payload.len() < element(id, id_width, payload).len() <= id_width + 8 + payload.len(),
{
    lemma_vint_width_minimal(payload.len() as u64, true);
    lemma_be_bytes_len(id, id_width);
}

/// The bytes of the identifier that marks the container format.
pub proof fn lemma_magic_bytes()
    ensures
        be_bytes(ID_EBML as nat, 4) == seq![0x1Au8, 0x45u8, 0xDFu8, 0xA3u8],
{
    reveal_with_fuel(be_bytes, 5);
    assert(be_bytes(ID_EBML as nat, 4) =~= seq![0x1Au8, 0x45u8, 0xDFu8, 0xA3u8]);
}

/// Every file starts with the four bytes that mark the container format.
pub proof fn lemma_file_magic(m: MuxState, preskip: u16)
    ensures
        webm_file(m, preskip).len() >= 4,
        webm_file(m, preskip).take(4) == seq![0x1Au8, 0x45u8, 0xDFu8, 0xA3u8],
{
    lemma_magic_bytes();
    let magic = be_bytes(ID_EBML as nat, 4);
    let header = ebml_header();
    let first = element(ID_EBML as nat, 4, header);
    let second = element(
        ID_SEGMENT as nat,
        4,
        segment_info(m.total_samples) + tracks(preskip) + concat_all(m.clusters),
    );
    assert(first == magic + size_bytes(header.len() as u64) + header);
    assert(magic.len() == 4);
    assert(first.take(4) =~= magic);
    assert(webm_file(m, preskip) == first + second);
    assert((first + second).take(4) =~= first.take(4));
}

/// The codec's header has 19 bytes and carries the pre-skip in its bytes 10
/// and 11, low byte first; the track entry ends with the header as the
/// content of its codec-private element.
pub proof fn lemma_head_preskip(preskip: u16)
    ensures
        opus_head(preskip).len() == 19,
        opus_head(preskip)[10] + 256 * opus_head(preskip)[11] == preskip,
        track_entry_body(preskip).len() >= 19,
        track_entry_body(preskip).skip(track_entry_body(preskip).len() - 19) == opus_head(preskip),
{
    reveal_with_fuel(le_bytes, 5);
    let head = opus_head(preskip);
    assert(head.len() == 19);
    assert(head[10] == (preskip % 256) as u8);
    assert(head[11] == (preskip / 256) as u8);
    let body = track_entry_body(preskip);
    assert(body.skip(body.len() - 19) =~= head);
}

/// Before the end of the stream one cluster is sealed for each full second
/// of audio, so there is at least one after a second; and the open cluster
/// is less than a second old, so the time that a block carries, counted
/// from its cluster's start, fits 16 bits with a sign.
pub proof fn lemma_cluster_timing(m: MuxState)
    requires
        m.wf(false),
    ensures
        m.clusters.len() == m.timestamp_ms / (CLUSTER_DURATION_MS as nat),
        m.timestamp_ms >= CLUSTER_DURATION_MS ==> m.clusters.len() >= 1,
        0 <= m.timestamp_ms - m.cluster_start_ms < CLUSTER_DURATION_MS,
        m.timestamp_ms - m.cluster_start_ms <= i16::MAX,
{
    let n = m.clusters.len();
    assert(n * 1000 <= m.timestamp_ms < n * 1000 + 1000);
    assert(m.timestamp_ms / 1000 == n) by (nonlinear_arith)
        requires
            n * 1000 <= m.timestamp_ms < n * 1000 + 1000,
    ;
}

/// Muxing two runs of frames one after the other is muxing them as one
/// run.
pub proof fn lemma_mux_concat(
    m: MuxState,
    marks_a: Seq<bool>,
    frames_a: Seq<Seq<u8>>,
    marks_b: Seq<bool>,
    frames_b: Seq<Seq<u8>>,
)
    requires
        count_kept(marks_b) == frames_b.len(),
    ensures
        m.mux(marks_a, frames_a).mux(marks_b, frames_b) == m.mux(
            marks_a + marks_b,
            frames_a + frames_b,
        ),
    decreases marks_b.len(),
{
    if marks_b.len() == 0 {
        assert(marks_a + marks_b =~= marks_a);
        assert(frames_a + frames_b =~= frames_a);
    } else {
        let marks = marks_a + marks_b;
        let frames = frames_a + frames_b;
        assert(marks.drop_last() =~= marks_a + marks_b.drop_last());
        assert(marks.last() == marks_b.last());
        if marks_b.last() {
            assert(frames_b.len() > 0);
            assert(frames.drop_last() =~= frames_a + frames_b.drop_last());
            assert(frames.last() == frames_b.last());
            lemma_mux_concat(m, marks_a, frames_a, marks_b.drop_last(), frames_b.drop_last());
        } else {
            lemma_mux_concat(m, marks_a, frames_a, marks_b.drop_last(), frames_b);
        }
    }
}

/// Two pushes into the muxer, one after the other, leave it as one push of
/// all their samples does: how the samples are cut into pushes makes no
/// difference to the clusters.
pub proof fn lemma_mux_effect_concat(
    start: WriterView,
    first: Seq<i16>,
    middle: WriterView,
    second: Seq<i16>,
    end: WriterView,
)
    requires
        start.wf(),
        !start.finalized,
        mux_effect(start, first, middle, Ok(())),
        mux_effect(middle, second, end, Ok(())),
    ensures
        mux_effect(start, first + second, end, Ok(())),
{
    let e0 = start.encoder;
    let ra = middle.encoder.results_since(e0);
    let rb = end.encoder.results_since(middle.encoder);
    let na = ra.len();
    let nb = rb.len();
    let p = e0.pending.len();
    assert(na == (p + first.len()) / 960);
    lemma_feed(e0.append(first), ra);
    let fed = e0.append(first).feed(ra);
    assert(middle.encoder == fed.drained());
    assert(middle.encoder.pending.len() == p + first.len() - na * 960);
    assert(nb == (middle.encoder.pending.len() + second.len()) / 960);
    assert(na + nb == (p + first.len() + second.len()) / 960);
    assert((na + nb) * 960 <= p + first.len() + second.len());
    lemma_drained_push(fed, second, rb);
    lemma_push_split(e0, first, ra, second, rb);
    lemma_feed(fed.append(second), rb);
    lemma_feed(e0.append(first + second), ra + rb);
    assert((first + second).len() == first.len() + second.len());
    let all = end.encoder.results_since(e0);
    assert(end.encoder.results == e0.results + (ra + rb));
    assert(all =~= ra + rb);
    assert(all_ok(all));
    lemma_marks_count(rb);
    lemma_kept_concat(ra, rb);
    lemma_mux_concat(start.mux, kept_marks(ra), kept_frames(ra), kept_marks(rb), kept_frames(rb));
}

/// The state in which a muxer starts is a good state.
pub proof fn lemma_initial_wf(bitrate: i32)
    ensures
        WriterView::initial(bitrate).wf(),
        WriterView::initial(bitrate).is_initial(),
{
    lemma_cluster_header_len(0);
    lemma_initial_consistent(bitrate);
    assert(BLOCK_MAX * 0 == 0);
}

/// A push of no samples into a muxer in good state changes nothing.
pub proof fn lemma_mux_effect_nothing(w: WriterView)
    requires
        w.wf(),
        !w.finalized,
    ensures
        mux_effect(w, Seq::<i16>::empty(), w, Ok(())),
{
    let none = Seq::<Result<Seq<u8>, i32>>::empty();
    assert(w.encoder.results_since(w.encoder) =~= none);
    assert(w.encoder.pending + Seq::<i16>::empty() =~= w.encoder.pending);
    assert(w.encoder.accepted + Seq::<i16>::empty() =~= w.encoder.accepted);
    assert(w.encoder.ready =~= Seq::<Seq<u8>>::empty());
    assert(w.encoder.marks =~= Seq::<bool>::empty());
    assert(w.encoder.append(Seq::<i16>::empty()) == w.encoder);
    assert(w.encoder.drained() == w.encoder);
}

/// The muxer's own state as the codec's answers alone determine it: what
/// muxing all answers, from the start, gives; closed, once the stream has
/// ended.
pub open spec fn muxed_history(w: WriterView) -> MuxState {
    let m = MuxState::initial().mux(
        kept_marks(w.encoder.results),
        kept_frames(w.encoder.results),
    );
    if w.finalized {
        m.closed()
    } else {
        m
    }
}

/// A new muxer is in the state that its history, which is empty,
/// determines.
pub proof fn lemma_history_initial(bitrate: i32)
    ensures
        WriterView::initial(bitrate).mux == muxed_history(WriterView::initial(bitrate)),
{
}

/// A push leaves the muxer in the state that its history determines, if it
/// was in such a state before: the clusters depend on the codec's answers
/// alone, not on how the samples came in.
pub proof fn lemma_history_push(before: WriterView, samples: Seq<i16>, after: WriterView)
    requires
        !before.finalized,
        before.mux == muxed_history(before),
        mux_effect(before, samples, after, Ok(())),
    ensures
        after.mux == muxed_history(after),
{
    let answers = after.encoder.results_since(before.encoder);
    lemma_feed(before.encoder.append(samples), answers);
    assert(after.encoder.results == before.encoder.results + answers);
    lemma_marks_count(answers);
    lemma_kept_concat(before.encoder.results, answers);
    lemma_mux_concat(
        MuxState::initial(),
        kept_marks(before.encoder.results),
        kept_frames(before.encoder.results),
        kept_marks(answers),
        kept_frames(answers),
    );
}

/// The end of the stream leaves the muxer in the state that its history
/// determines, if it was in such a state before.
pub proof fn lemma_history_end(before: WriterView, after: WriterView)
    requires
        !before.finalized,
        before.mux == muxed_history(before),
        end_effect(before, after, Ok(())),
    ensures
        after.mux == muxed_history(after),
{
    let answers = after.encoder.results_since(before.encoder);
    let padding = silence(flush_length(before.encoder.pending.len()));
    lemma_feed(before.encoder.append(padding), answers);
    assert(after.encoder.results == before.encoder.results + answers);
    lemma_marks_count(answers);
    lemma_kept_concat(before.encoder.results, answers);
    lemma_mux_concat(
        MuxState::initial(),
        kept_marks(before.encoder.results),
        kept_frames(before.encoder.results),
        kept_marks(answers),
        kept_frames(answers),
    );
}

/// Muxing moves the clock on by one frame for each frame that the codec
/// accepted, kept or not.
pub proof fn lemma_mux_timestamp(m: MuxState, marks: Seq<bool>, frames: Seq<Seq<u8>>)
    ensures
        m.mux(marks, frames).timestamp_ms == m.timestamp_ms + FRAME_DURATION_MS * marks.len(),
    decreases marks.len(),
{
    if marks.len() > 0 {
        if marks.last() && frames.len() > 0 {
            lemma_mux_timestamp(m, marks.drop_last(), frames.drop_last());
        } else {
            lemma_mux_timestamp(m, marks.drop_last(), frames);
        }
        assert(FRAME_DURATION_MS * (marks.len() - 1) + FRAME_DURATION_MS == FRAME_DURATION_MS
            * marks.len()) by (nonlinear_arith);
    }
}

/// A successful push moves the clock on by one frame for each frame that
/// the samples complete, and leaves pending what does not fill a frame; so
/// the clock had room for the push, and has room for a further push exactly
/// if it had room for both as one.
pub proof fn lemma_mux_effect_clock(
    before: WriterView,
    samples: Seq<i16>,
    after: WriterView,
    count: nat,
)
    requires
        !before.finalized,
        mux_effect(before, samples, after, Ok(())),
    ensures
        after.mux.timestamp_ms == before.mux.timestamp_ms + FRAME_DURATION_MS * ((
        before.encoder.pending.len() + samples.len()) / FRAME_SIZE as nat),
        after.encoder.pending.len() == (before.encoder.pending.len() + samples.len())
            % FRAME_SIZE as nat,
        has_room_for(before, samples.len()),
        has_room_for(after, count) == has_room_for(before, samples.len() + count),
{
    let answers = after.encoder.results_since(before.encoder);
    let total = before.encoder.pending.len() + samples.len();
    lemma_feed(before.encoder.append(samples), answers);
    crate::opus::lemma_all_ok_marks(answers);
    lemma_mux_timestamp(before.mux, kept_marks(answers), kept_frames(answers));
    assert(answers.len() == total / 960);
    assert(after.encoder.pending.len() == total - 960 * (total / 960));
    assert((total % 960 + count) / 960 + total / 960 == (total + count) / 960);
    assert(FRAME_DURATION_MS * (total / 960) + FRAME_DURATION_MS * ((total % 960 + count) / 960)
        == FRAME_DURATION_MS * ((total + count) / 960)) by (nonlinear_arith)
        requires
            (total % 960 + count) / 960 + total / 960 == (total + count) / 960,
    ;
}

/// Room on the clock for a push is room for any shorter push.
pub proof fn lemma_room_monotone(w: WriterView, less: nat, more: nat)
    requires
        less <= more,
        has_room_for(w, more),
    ensures
        has_room_for(w, less),
{
    let p = w.encoder.pending.len();
    assert((p + less) / 960 <= (p + more) / 960);
    assert(FRAME_DURATION_MS * ((p + less) / 960) <= FRAME_DURATION_MS * ((p + more) / 960))
        by (nonlinear_arith)
        requires
            (p + less) / 960 <= (p + more) / 960,
    ;
}

/// The time that a block carries, counted from its cluster's start, is a
/// whole number of frames from 0 to 980 ms, so that it fits 16 bits with a
/// sign; the block of a kept frame is written with that time; and after the
/// frame the open cluster is again less than a second old.
pub proof fn lemma_tick_offset(m: MuxState, frame: Option<Seq<u8>>)
    requires
        m.wf(false),
        m.timestamp_ms + FRAME_DURATION_MS <= u32::MAX,
        frame is Some ==> frame->Some_0.len() <= MAX_PACKET_SIZE,
    ensures
        0 <= m.timestamp_ms - m.cluster_start_ms <= 980,
        (m.timestamp_ms - m.cluster_start_ms) % (FRAME_DURATION_MS as int) == 0,
        m.timestamp_ms - m.cluster_start_ms <= i16::MAX,
        m.tick(frame).timestamp_ms - m.tick(frame).cluster_start_ms < CLUSTER_DURATION_MS,
        m.tick(frame).timestamp_ms == m.timestamp_ms + FRAME_DURATION_MS,
        frame is Some && m.timestamp_ms + FRAME_DURATION_MS < m.cluster_start_ms
            + CLUSTER_DURATION_MS ==> m.tick(frame).open == m.open + frame_block(
            (m.timestamp_ms - m.cluster_start_ms) as nat,
            frame->Some_0,
        ),
        frame is Some && m.timestamp_ms + FRAME_DURATION_MS >= m.cluster_start_ms
            + CLUSTER_DURATION_MS ==> m.tick(frame).clusters.last() == cluster_element(
            m.open + frame_block((m.timestamp_ms - m.cluster_start_ms) as nat, frame->Some_0),
        ),
{
    lemma_tick_wf(m, frame);
    let age = m.timestamp_ms - m.cluster_start_ms;
    assert(age % 20 == 0);
    assert(age < 1000);
    assert(age <= 980);
}

} // verus!
