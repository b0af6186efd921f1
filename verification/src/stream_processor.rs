//! A streaming processor that takes samples at any rate in pushes of any
//! length, cuts them into chunks of a fixed size, resamples each chunk to
//! the codec's rate, and hands the result to the muxer.

use vstd::prelude::*;
use crate::opus::{
    flush_frames, is_status_error, lemma_feed, lemma_pcm_concat, pcm_samples, FrameCodec,
    OpusError, FRAME_SIZE,
};
use crate::webm::{
    buffered_bytes, can_end_for, finalized_from, has_room_for, lemma_initial_wf,
    lemma_mux_effect_clock, lemma_mux_effect_concat, lemma_mux_effect_nothing,
    lemma_room_monotone, mux_effect,
    WebmWriter, WriterView, FRAME_DURATION_MS,
};

verus! {

/// A resampler that takes chunks of a fixed size: the processor's second
/// collaborator. Samples are single-precision numbers, given by their bit
/// patterns.
pub trait ChunkResampler: Sized {
    /// Creates a resampler from `input_rate` to `target_rate` for one
    /// channel and chunks of `chunk_size` samples, or says why it cannot.
    /// The processor only ever asks for one where the rates differ, with a
    /// chunk size that is not zero.
    fn create(input_rate: u32, target_rate: u32, chunk_size: usize) -> Result<Self, String>
        requires
            input_rate != target_rate,
            chunk_size > 0,
    ;

    /// Resamples one full chunk.
    fn process(&mut self, chunk: &[u32]) -> Result<Vec<u32>, String>;

    /// Resamples a last chunk that is not full, or, given no chunk, hands
    /// out samples that the resampler still holds.
    fn process_partial(&mut self, chunk: Option<&[u32]>) -> Result<Vec<u32>, String>;
}

/// What can go wrong in the processor.
#[derive(Debug, Clone, PartialEq, Eq)]
pub enum ProcessorError {
    /// The resampler could not be created, or failed on a chunk.
    Resample(String),
    /// The codec or the muxer failed.
    Encode(OpusError),
    /// The muxer's clock, which counts milliseconds in 32 bits, is full.
    ClockFull,
}

/// The numbers that the processor reports of itself.
#[derive(Debug, Clone)]
pub struct ProcessorStats {
    /// The number of samples pushed so far.
    pub samples_received: usize,
    /// The number of samples handed to the muxer so far.
    pub samples_resampled: usize,
    /// The number of chunks handled so far.
    pub chunks_processed: usize,
    /// The number of samples waiting for a full chunk.
    pub buffer_fill: usize,
    /// The size of a chunk, in samples.
    pub buffer_capacity: usize,
    /// The number of bytes that the muxer holds.
    pub webm_buffer_size: usize,
}

impl ProcessorStats {
    /// How full the buffer is, in whole percent; 0 for a buffer without
    /// capacity.
    pub fn buffer_fill_pct(&self) -> (pct: u128)
        ensures
            pct == if self.buffer_capacity == 0 {
                0
            } else {
                self.buffer_fill * 100 / self.buffer_capacity as int
            },
    {
        if self.buffer_capacity == 0 {
            0
        } else {
            (self.buffer_fill as u128) * 100 / (self.buffer_capacity as u128)
        }
    }
}

/// The sum of two counts, or the largest count where the sum is larger.
pub open spec fn capped_sum(a: nat, b: nat) -> nat {
    if a + b <= usize::MAX {
        a + b
    } else {
        usize::MAX as nat
    }
}

/// Adds two counts, stopping at the largest count.
pub fn add_capped(a: usize, b: usize) -> (sum: usize)
    ensures
        sum == capped_sum(a as nat, b as nat),
{
    if a > usize::MAX - b {
        usize::MAX
    } else {
        a + b
    }
}

/// What the resampler is asked for in one call.
pub enum ResamplerInput {
    /// One full chunk, to resample.
    Chunk(Seq<u32>),
    /// A last chunk that is not full, to resample as it is.
    Partial(Seq<u32>),
    /// Nothing: the resampler is to hand out what it still holds.
    Drain,
}

/// One call of the resampler, with its answer.
pub struct ResamplerCall {
    /// What the resampler was given.
    pub input: ResamplerInput,
    /// What it gave back: samples, or the words of its failure.
    pub answer: Result<Seq<u32>, Seq<char>>,
}

/// What a resampler was made for.
pub struct ResamplerSetup {
    /// The rate at which samples come in, in samples per second.
    pub input_rate: u32,
    /// The rate to which samples are brought, in samples per second.
    pub target_rate: u32,
    /// The size of a chunk, in samples.
    pub chunk_size: nat,
}

/// A resampler's answer as a mathematical value.
pub open spec fn answer_view(answer: Result<Vec<u32>, String>) -> Result<Seq<u32>, Seq<char>> {
    match answer {
        Ok(samples) => Ok(samples@),
        Err(message) => Err(message@),
    }
}

/// The samples that one call of the resampler gave: none where it failed.
pub open spec fn output_of(call: ResamplerCall) -> Seq<u32> {
    match call.answer {
        Ok(samples) => samples,
        Err(_) => Seq::empty(),
    }
}

/// The samples that the calls of the resampler gave, one after the other.
pub open spec fn outputs_of(calls: Seq<ResamplerCall>) -> Seq<u32>
    decreases calls.len(),
{
    if calls.len() == 0 {
        Seq::empty()
    } else {
        outputs_of(calls.drop_last()) + output_of(calls.last())
    }
}

/// The processor as a mathematical value.
pub struct ProcessorView {
    /// Whether the input is at the target rate already and passes through
    /// as it is.
    pub bypass: bool,
    /// Samples waiting for a full chunk.
    pub pending: Seq<u32>,
    /// The size of a chunk, in samples.
    pub chunk_size: nat,
    /// The muxer inside the processor.
    pub writer: WriterView,
    /// The rate at which samples come in, in samples per second.
    pub input_rate: u32,
    /// The rate to which samples are brought, in samples per second.
    pub target_rate: u32,
    /// What the resampler was made for, where there is one.
    pub setup: Option<ResamplerSetup>,
    /// Every call of the resampler so far, in order.
    pub calls: Seq<ResamplerCall>,
    /// Every sample pushed so far, in order.
    pub received: Seq<u32>,
    /// Every sample handed to the muxer so far, in order.
    pub forwarded: Seq<u32>,
    /// The number of samples pushed so far.
    pub samples_received: nat,
    /// The number of samples handed to the muxer so far, stopping at the
    /// largest count.
    pub samples_resampled: nat,
    /// The number of chunks handled so far.
    pub chunks_processed: nat,
}

impl ProcessorView {
    /// What holds of the processor between calls: no full chunk is waiting,
    /// the muxer is in good state and open, and its encoder has accepted the
    /// PCM form of the samples handed on; the counts are those of the
    /// samples received and handed on, and every chunk handled took at least
    /// one of the samples received. In bypass mode there is no resampler,
    /// and the samples received are those handed on and then those waiting;
    /// else the resampler was made for the processor's rates and chunk size,
    /// and the samples handed on are those that it gave.
    pub open spec fn wf(self) -> bool {
        &&& self.chunk_size > 0
        &&& self.pending.len() < self.chunk_size
        &&& self.writer.wf()
        &&& !self.writer.finalized
        &&& self.writer.encoder.accepted == pcm_samples(self.forwarded)
        &&& self.samples_received == self.received.len()
        &&& self.samples_received <= usize::MAX
        &&& self.samples_resampled == capped_sum(self.forwarded.len(), 0)
        &&& self.chunks_processed + self.pending.len() <= self.samples_received
        &&& self.setup == self.setup_for()
        &&& self.bypass ==> self.forwarded + self.pending == self.received
        &&& self.bypass ==> self.calls.len() == 0
        &&& !self.bypass ==> self.forwarded == outputs_of(self.calls)
    }

    /// What the resampler of a processor with these rates and this chunk
    /// size is made for; nothing in bypass mode.
    pub open spec fn setup_for(self) -> Option<ResamplerSetup> {
        if self.bypass {
            None
        } else {
            Some(
                ResamplerSetup {
                    input_rate: self.input_rate,
                    target_rate: self.target_rate,
                    chunk_size: self.chunk_size,
                },
            )
        }
    }

    /// The samples handed to the muxer since the state `before`.
    pub open spec fn handed_since(self, before: ProcessorView) -> Seq<u32> {
        self.forwarded.skip(before.forwarded.len() as int)
    }

    /// The calls of the resampler since the state `before`.
    pub open spec fn calls_since(self, before: ProcessorView) -> Seq<ResamplerCall> {
        self.calls.skip(before.calls.len() as int)
    }
}

/// What handing `samples` to the muxer does, from the muxer's state
/// `before` to its state `after` with the result `r`. Where the clock has
/// no room for the samples, and only then, the step fails with `ClockFull`
/// and the muxer stays as it is; else the muxer takes a push of their PCM
/// form, and its failure, the error of a status code of the codec, is
/// handed on.
pub open spec fn forwarded_step(
    before: WriterView,
    samples: Seq<u32>,
    after: WriterView,
    r: Result<(), ProcessorError>,
) -> bool {
    match r {
        Ok(()) => {
            &&& has_room_for(before, samples.len())
            &&& mux_effect(before, pcm_samples(samples), after, Ok(()))
            &&& after.wf()
            &&& !after.finalized
        },
        Err(ProcessorError::ClockFull) => {
            &&& !has_room_for(before, samples.len())
            &&& after == before
        },
        Err(ProcessorError::Encode(e)) => {
            &&& has_room_for(before, samples.len())
            &&& mux_effect(before, pcm_samples(samples), after, Err(e))
            &&& is_status_error(e)
        },
        Err(ProcessorError::Resample(_)) => false,
    }
}

/// What the step after a call of the resampler does, from the state
/// `before` to the state `after` with the result `r`: the samples that the
/// resampler gave, or `passthrough` where there is no resampler, are
/// counted as handed on and go to the muxer as `forwarded_step` says; where
/// the resampler failed, nothing is handed on, the muxer stays as it is,
/// and the failure is handed on in the resampler's words.
pub open spec fn answered_step(
    before: ProcessorView,
    answer: Option<Result<Seq<u32>, Seq<char>>>,
    passthrough: Seq<u32>,
    after: ProcessorView,
    r: Result<(), ProcessorError>,
) -> bool {
    match answer {
        None => {
            &&& after.forwarded == before.forwarded + passthrough
            &&& forwarded_step(before.writer, passthrough, after.writer, r)
        },
        Some(Ok(output)) => {
            &&& after.forwarded == before.forwarded + output
            &&& forwarded_step(before.writer, output, after.writer, r)
        },
        Some(Err(message)) => {
            &&& after.forwarded == before.forwarded
            &&& after.writer == before.writer
            &&& r matches Err(ProcessorError::Resample(words)) && words@ == message
        },
    }
}

/// What one call of the resampler and the step after it do, from the state
/// `before` to the state `after` with the result `r`. With a resampler, the
/// call with `input` and its answer join the record, and the answer is
/// handled as `answered_step` says; in bypass mode the resampler is not
/// asked, and `passthrough` is handed on.
pub open spec fn called_step(
    before: ProcessorView,
    input: ResamplerInput,
    passthrough: Seq<u32>,
    after: ProcessorView,
    r: Result<(), ProcessorError>,
) -> bool {
    if before.bypass {
        &&& after.calls == before.calls
        &&& answered_step(before, None, passthrough, after, r)
    } else {
        &&& after.calls.len() == before.calls.len() + 1
        &&& after.calls == before.calls.push(after.calls.last())
        &&& after.calls.last().input == input
        &&& answered_step(before, Some(after.calls.last().answer), passthrough, after, r)
    }
}

/// The muxer has taken, in good order, everything handed on since the state
/// `before`: nothing handed on before is changed, the muxer is in good
/// state and open, it is as one push of the PCM form of those samples
/// leaves it, and its clock had room for them.
pub open spec fn taken_on(before: ProcessorView, after: ProcessorView) -> bool {
    &&& before.forwarded.len() <= after.forwarded.len()
    &&& after.forwarded.take(before.forwarded.len() as int) == before.forwarded
    &&& after.writer.wf()
    &&& !after.writer.finalized
    &&& has_room_for(before.writer, after.handed_since(before).len())
    &&& mux_effect(
        before.writer,
        pcm_samples(after.handed_since(before)),
        after.writer,
        Ok(()),
    )
}

/// A muxer in the state `start` took a push of `taken` and then failed on
/// a push of `last` with the error `e`, which left it in the state `end`.
pub open spec fn mux_failed(
    start: WriterView,
    taken: Seq<i16>,
    last: Seq<i16>,
    end: WriterView,
    e: OpusError,
) -> bool {
    exists|middle: WriterView| #[trigger]
        mux_effect(start, taken, middle, Ok(())) && mux_effect(middle, last, end, Err(e))
}

/// How a failure with the error `e` leaves the muxer, from the state
/// `before` to the state `after`, where the first `good` samples handed on
/// since `before` went in before the step that failed.
///
/// The failure is `ClockFull` exactly where the clock has no room for all
/// that was handed on. Then, and where the resampler failed, the muxer is
/// as one push of the `good` samples leaves it; where the muxer failed, it
/// took those and failed on the rest, with the error of a status code of
/// the codec.
pub open spec fn muxer_failure(
    before: ProcessorView,
    after: ProcessorView,
    good: nat,
    e: ProcessorError,
) -> bool {
    let added = after.handed_since(before);
    &&& before.forwarded.len() <= after.forwarded.len()
    &&& after.forwarded.take(before.forwarded.len() as int) == before.forwarded
    &&& good <= added.len()
    &&& (e is ClockFull) == !has_room_for(before.writer, added.len())
    &&& match e {
        ProcessorError::Resample(_) => {
            &&& good == added.len()
            &&& mux_effect(before.writer, pcm_samples(added), after.writer, Ok(()))
        },
        ProcessorError::ClockFull => mux_effect(
            before.writer,
            pcm_samples(added.take(good as int)),
            after.writer,
            Ok(()),
        ),
        ProcessorError::Encode(c) => {
            &&& is_status_error(c)
            &&& mux_failed(
                before.writer,
                pcm_samples(added.take(good as int)),
                pcm_samples(added.skip(good as int)),
                after.writer,
                c,
            )
        },
    }
}

/// The records of the state `after` continue those of the state `before`:
/// the rates, the chunk size and the resampler's setup are the same, the
/// calls of the resampler made before are unchanged, and the samples handed
/// on since are those that the calls made since gave; in bypass mode no
/// call is made.
pub open spec fn records_grow(before: ProcessorView, after: ProcessorView) -> bool {
    &&& after.bypass == before.bypass
    &&& after.chunk_size == before.chunk_size
    &&& after.input_rate == before.input_rate
    &&& after.target_rate == before.target_rate
    &&& after.setup == before.setup
    &&& before.calls.len() <= after.calls.len()
    &&& after.calls.take(before.calls.len() as int) == before.calls
    &&& before.forwarded.len() <= after.forwarded.len()
    &&& after.forwarded.take(before.forwarded.len() as int) == before.forwarded
    &&& before.bypass ==> after.calls == before.calls
    &&& !before.bypass ==> after.handed_since(before) == outputs_of(after.calls_since(before))
}

/// What can go wrong in which mode: the resampler fails only where there
/// is one, and the muxer only with the error of a status code of the
/// codec.
pub open spec fn failure_shape(bypass: bool, e: ProcessorError) -> bool {
    match e {
        ProcessorError::Resample(_) => !bypass,
        ProcessorError::Encode(c) => is_status_error(c),
        ProcessorError::ClockFull => true,
    }
}

/// The window of `chunk_size` samples at the place `index` of `total`.
pub open spec fn window(total: Seq<u32>, chunk_size: nat, index: int) -> Seq<u32> {
    total.subrange(index * chunk_size, index * chunk_size + chunk_size)
}

/// The calls `calls` hand the resampler the first windows of `total`, one
/// full chunk each and in order, and all but the last `failed` of them were
/// answered with samples.
pub open spec fn chunk_calls(
    calls: Seq<ResamplerCall>,
    total: Seq<u32>,
    chunk_size: nat,
    failed: nat,
) -> bool {
    &&& forall|i: int|
        0 <= i < calls.len() ==> (#[trigger] calls[i]).input == ResamplerInput::Chunk(
            window(total, chunk_size, i),
        )
    &&& forall|i: int| 0 <= i < calls.len() - failed ==> (#[trigger] calls[i]).answer is Ok
}

/// The calls `calls` are those of the end of a stream in which `pending`
/// was waiting: first, if samples were waiting, one call with them as a
/// partial chunk; then calls for what the resampler still holds, four at
/// most, each but the last answered with samples, for the last was either
/// answered with none or was the fourth. Every call but the last was
/// answered; where `ok`, the last was too.
pub open spec fn flush_calls(calls: Seq<ResamplerCall>, pending: Seq<u32>, ok: bool) -> bool {
    let head: int = if pending.len() > 0 {
        1
    } else {
        0
    };
    &&& head <= calls.len() <= head + DRAIN_ROUNDS
    &&& pending.len() > 0 ==> calls[0].input == ResamplerInput::Partial(pending)
    &&& forall|i: int| head <= i < calls.len() ==> (#[trigger] calls[i]).input is Drain
    &&& forall|i: int| 0 <= i < calls.len() - 1 ==> (#[trigger] calls[i]).answer is Ok
    &&& forall|i: int| head <= i < calls.len() - 1 ==> output_of(#[trigger] calls[i]).len() > 0
    &&& ok ==> {
        &&& calls.len() > head
        &&& calls.last().answer is Ok
        &&& calls.len() < head + DRAIN_ROUNDS ==> output_of(calls.last()).len() == 0
    }
    &&& !ok ==> calls.len() >= 1
}

/// Whether the clock of a muxer in the state `w` has room for a push of
/// `count` samples and then for the frames that end the stream.
pub open spec fn end_room(w: WriterView, count: nat) -> bool {
    let total = w.encoder.pending.len() + count;
    &&& has_room_for(w, count)
    &&& w.mux.timestamp_ms + FRAME_DURATION_MS * (total / FRAME_SIZE as nat) + FRAME_DURATION_MS
        * flush_frames(total % FRAME_SIZE as nat) <= u32::MAX
}

/// A streaming processor: it owns the resampler, unless the rates agree,
/// the samples that do not fill a chunk yet, and the muxer.
pub struct AudioStreamProcessor<R: ChunkResampler, C: FrameCodec> {
    resampler: Option<R>,
    input_buffer: Vec<u32>,
    resampler_chunk_size: usize,
    webm_writer: WebmWriter<C>,
    input_sample_rate: u32,
    target_sample_rate: u32,
    samples_received: usize,
    samples_resampled: usize,
    chunks_processed: usize,
    received: Ghost<Seq<u32>>,
    forwarded: Ghost<Seq<u32>>,
    calls: Ghost<Seq<ResamplerCall>>,
    setup: Ghost<Option<ResamplerSetup>>,
}

impl<R: ChunkResampler, C: FrameCodec> View for AudioStreamProcessor<R, C> {
    type V = ProcessorView;

    closed spec fn view(&self) -> ProcessorView {
        ProcessorView {
            bypass: self.resampler is None,
            pending: self.input_buffer@,
            chunk_size: self.resampler_chunk_size as nat,
            writer: self.webm_writer@,
            input_rate: self.input_sample_rate,
            target_rate: self.target_sample_rate,
            setup: self.setup@,
            calls: self.calls@,
            received: self.received@,
            forwarded: self.forwarded@,
            samples_received: self.samples_received as nat,
            samples_resampled: self.samples_resampled as nat,
            chunks_processed: self.chunks_processed as nat,
        }
    }
}

/// Turns a resampler's answer into the processor's result.
pub fn resample_result(answer: Result<Vec<u32>, String>) -> (r: Result<Vec<u32>, ProcessorError>)
    ensures
        match answer {
            Ok(samples) => r == Ok::<Vec<u32>, ProcessorError>(samples),
            Err(message) => r == Err::<Vec<u32>, ProcessorError>(
                ProcessorError::Resample(message),
            ),
        },
{
    match answer {
        Ok(samples) => Ok(samples),
        Err(message) => Err(ProcessorError::Resample(message)),
    }
}

/// Turns a muxer's answer into the processor's result.
pub fn encode_result<T>(answer: Result<T, OpusError>) -> (r: Result<T, ProcessorError>)
    ensures
        match answer {
            Ok(value) => r == Ok::<T, ProcessorError>(value),
            Err(e) => r == Err::<T, ProcessorError>(ProcessorError::Encode(e)),
        },
{
    match answer {
        Ok(value) => Ok(value),
        Err(e) => Err(ProcessorError::Encode(e)),
    }
}

impl<R: ChunkResampler, C: FrameCodec> AudioStreamProcessor<R, C> {
    /// Creates a processor from `input_sample_rate` to `target_sample_rate`
    /// with a muxer at `bitrate`. Where the two rates agree no resampler is
    /// made, and samples pass through as they are; else a resampler is made
    /// for the two rates and the chunk size. Where the resampler or the
    /// muxer cannot be created, which is theirs to say, no processor
    /// exists: the resampler can fail only where the rates differ, and the
    /// muxer only with the error of a status code of the codec.
    pub fn new(
        input_sample_rate: u32,
        target_sample_rate: u32,
        bitrate: i32,
        resampler_chunk_size: usize,
    ) -> (r: Result<Self, ProcessorError>)
        requires
            resampler_chunk_size > 0,
        ensures
            r is Ok ==> r->Ok_0@ == (ProcessorView {
                bypass: input_sample_rate == target_sample_rate,
                pending: Seq::empty(),
                chunk_size: resampler_chunk_size as nat,
                writer: WriterView::initial(bitrate),
                input_rate: input_sample_rate,
                target_rate: target_sample_rate,
                setup: if input_sample_rate == target_sample_rate {
                    None
                } else {
                    Some(
                        ResamplerSetup {
                            input_rate: input_sample_rate,
                            target_rate: target_sample_rate,
                            chunk_size: resampler_chunk_size as nat,
                        },
                    )
                },
                calls: Seq::empty(),
                received: Seq::empty(),
                forwarded: Seq::empty(),
                samples_received: 0,
                samples_resampled: 0,
                chunks_processed: 0,
            }) && r->Ok_0@.wf(),
            r matches Err(e) ==> failure_shape(input_sample_rate == target_sample_rate, e) && !(
            e is ClockFull),
    {
        let resampler: Option<R> = if input_sample_rate == target_sample_rate {
            None
        } else {
            match R::create(input_sample_rate, target_sample_rate, resampler_chunk_size) {
                Ok(resampler) => Some(resampler),
                Err(message) => {
                    return Err(ProcessorError::Resample(message));
                },
            }
        };
        let webm_writer = match WebmWriter::new(bitrate) {
            Ok(writer) => writer,
            Err(e) => {
                return Err(ProcessorError::Encode(e));
            },
        };
        Ok(
            Self::with_parts(
                resampler,
                webm_writer,
                input_sample_rate,
                target_sample_rate,
                resampler_chunk_size,
            ),
        )
    }

    /// Makes a processor around a muxer that has just been created and, for
    /// rates that differ, a resampler made for the two rates and the chunk
    /// size: without a resampler the processor is in bypass mode.
    pub fn with_parts(
        resampler: Option<R>,
        webm_writer: WebmWriter<C>,
        input_sample_rate: u32,
        target_sample_rate: u32,
        resampler_chunk_size: usize,
    ) -> (processor: Self)
        requires
            resampler_chunk_size > 0,
            webm_writer@.is_initial(),
        ensures
            processor@ == (ProcessorView {
                bypass: resampler is None,
                pending: Seq::empty(),
                chunk_size: resampler_chunk_size as nat,
                writer: webm_writer@,
                input_rate: input_sample_rate,
                target_rate: target_sample_rate,
                setup: if resampler is None {
                    None
                } else {
                    Some(
                        ResamplerSetup {
                            input_rate: input_sample_rate,
                            target_rate: target_sample_rate,
                            chunk_size: resampler_chunk_size as nat,
                        },
                    )
                },
                calls: Seq::empty(),
                received: Seq::empty(),
                forwarded: Seq::empty(),
                samples_received: 0,
                samples_resampled: 0,
                chunks_processed: 0,
            }),
            processor@.wf(),
    {
        proof {
            lemma_initial_wf(webm_writer@.encoder.controls[0].value);
        }
        let capacity: usize = if resampler_chunk_size <= MAX_RESERVED_CHUNK {
            resampler_chunk_size * 2
        } else {
            0
        };
        let ghost setup: Option<ResamplerSetup> = if resampler is None {
            None
        } else {
            Some(
                ResamplerSetup {
                    input_rate: input_sample_rate,
                    target_rate: target_sample_rate,
                    chunk_size: resampler_chunk_size as nat,
                },
            )
        };
        let processor = AudioStreamProcessor {
            resampler,
            input_buffer: Vec::with_capacity(capacity),
            resampler_chunk_size,
            webm_writer,
            input_sample_rate,
            target_sample_rate,
            samples_received: 0,
            samples_resampled: 0,
            chunks_processed: 0,
            received: Ghost(Seq::empty()),
            forwarded: Ghost(Seq::empty()),
            calls: Ghost(Seq::empty()),
            setup: Ghost(setup),
        };
        proof {
            assert(processor@.forwarded + processor@.pending =~= processor@.received);
            assert(pcm_samples(processor@.forwarded) =~= Seq::<i16>::empty());
            assert(processor@.forwarded =~= outputs_of(processor@.calls));
        }
        processor
    }

    /// Counts `samples` as handed on and hands them to the muxer, unless the
    /// muxer's clock has no room for them.
    fn forward(&mut self, samples: &[u32]) -> (r: Result<(), ProcessorError>)
        requires
            old(self)@.writer.wf(),
            !old(self)@.writer.finalized,
            old(self)@.samples_resampled == capped_sum(old(self)@.forwarded.len(), 0),
        ensures
            final(self)@ == (ProcessorView {
                writer: final(self)@.writer,
                forwarded: old(self)@.forwarded + samples@,
                samples_resampled: capped_sum(final(self)@.forwarded.len(), 0),
                ..old(self)@
            }),
            forwarded_step(old(self)@.writer, samples@, final(self)@.writer, r),
    {
        self.samples_resampled = add_capped(self.samples_resampled, samples.len());
        proof {
            self.forwarded@ = self.forwarded@ + samples@;
        }
        if !self.webm_writer.has_room(samples.len()) {
            return Err(ProcessorError::ClockFull);
        }
        match self.webm_writer.add_samples_f32(samples) {
            Ok(()) => Ok(()),
            Err(e) => Err(ProcessorError::Encode(e)),
        }
    }

    /// Hands on what the resampler gave for `chunk`, or `chunk` itself where
    /// there is no resampler.
    fn forward_answer(
        &mut self,
        resampled: Option<Result<Vec<u32>, String>>,
        chunk: &[u32],
    ) -> (r: Result<(), ProcessorError>)
        requires
            old(self)@.writer.wf(),
            !old(self)@.writer.finalized,
            old(self)@.samples_resampled == capped_sum(old(self)@.forwarded.len(), 0),
        ensures
            final(self)@ == (ProcessorView {
                writer: final(self)@.writer,
                forwarded: final(self)@.forwarded,
                samples_resampled: capped_sum(final(self)@.forwarded.len(), 0),
                ..old(self)@
            }),
            answered_step(
                old(self)@,
                match resampled {
                    Some(answer) => Some(answer_view(answer)),
                    None => None,
                },
                chunk@,
                final(self)@,
                r,
            ),
    {
        match resampled {
            Some(answer) => {
                match resample_result(answer) {
                    Ok(output) => self.forward(output.as_slice()),
                    Err(e) => Err(e),
                }
            },
            None => self.forward(chunk),
        }
    }

    /// Resamples one chunk, or passes it through in bypass mode, and hands
    /// the result to the muxer.
    fn process_chunk(&mut self, chunk: &[u32]) -> (r: Result<(), ProcessorError>)
        requires
            old(self)@.writer.wf(),
            !old(self)@.writer.finalized,
            old(self)@.samples_resampled == capped_sum(old(self)@.forwarded.len(), 0),
            old(self)@.chunks_processed < usize::MAX,
        ensures
            final(self)@ == (ProcessorView {
                writer: final(self)@.writer,
                forwarded: final(self)@.forwarded,
                calls: final(self)@.calls,
                samples_resampled: capped_sum(final(self)@.forwarded.len(), 0),
                chunks_processed: final(self)@.chunks_processed,
                ..old(self)@
            }),
            called_step(old(self)@, ResamplerInput::Chunk(chunk@), chunk@, final(self)@, r),
            r is Ok ==> final(self)@.chunks_processed == old(self)@.chunks_processed + 1,
            r is Err ==> final(self)@.chunks_processed == old(self)@.chunks_processed,
    {
        let resampled: Option<Result<Vec<u32>, String>> = match &mut self.resampler {
            Some(resampler) => Some(resampler.process(chunk)),
            None => None,
        };
        proof {
            if resampled is Some {
                self.calls@ = self.calls@.push(
                    ResamplerCall {
                        input: ResamplerInput::Chunk(chunk@),
                        answer: answer_view(resampled->Some_0),
                    },
                );
            }
        }
        let done = self.forward_answer(resampled, chunk);
        match done {
            Ok(()) => {},
            Err(e) => {
                return Err(e);
            },
        }
        self.chunks_processed = self.chunks_processed + 1;
        Ok(())
    }

    /// Takes `samples` in, then handles every full chunk that is waiting,
    /// first in first: each goes to the resampler, or passes through in
    /// bypass mode, and what comes of it goes to the muxer. Returns the
    /// number of samples in the chunks handled. A failure ends the push;
    /// what was done until then stays done.
    pub fn push_samples(&mut self, samples: &[u32]) -> (r: Result<usize, ProcessorError>)
        requires
            old(self)@.wf(),
            old(self)@.samples_received + samples@.len() <= usize::MAX,
        ensures
            push_result(old(self)@, samples@, final(self)@, r),
    {
        let ghost before = self@;
        let ghost total = before.pending + samples@;
        self.samples_received = self.samples_received + samples.len();
        proof {
            self.received@ = self.received@ + samples@;
        }
        let mut i: usize = 0;
        while i < samples.len()
            invariant
                0 <= i <= samples@.len(),
                self@ == (ProcessorView {
                    pending: before.pending + samples@.subrange(0, i as int),
                    samples_received: before.samples_received + samples@.len(),
                    received: before.received + samples@,
                    ..before
                }),
            decreases samples@.len() - i,
        {
            self.input_buffer.push(samples[i]);
            proof {
                assert(self@.pending =~= before.pending + samples@.subrange(0, i as int + 1));
            }
            i = i + 1;
        }
        proof {
            assert(samples@.subrange(0, i as int) =~= samples@);
            assert(total.skip(0) =~= total);
            assert(total.take(0) =~= Seq::<u32>::empty());
            lemma_taken_on_nothing(before, self@);
            lemma_records_same(before, self@);
            assert(self@.handed_since(before) =~= total.take(0));
        }
        let size = self.resampler_chunk_size;
        let mut processed: usize = 0;
        let ghost mut count: nat = 0;
        while self.input_buffer.len() >= size
            invariant
                before == old(self)@,
                before.wf(),
                total == before.pending + samples@,
                size == before.chunk_size,
                size > 0,
                processed == count * size,
                processed + self@.pending.len() == total.len(),
                self@.pending == total.skip(processed as int),
                self@.samples_received == before.samples_received + samples@.len(),
                self@.received == before.received + samples@,
                self@.chunks_processed == before.chunks_processed + count,
                self@.chunks_processed + self@.pending.len() <= self@.samples_received,
                self@.samples_resampled == capped_sum(self@.forwarded.len(), 0),
                taken_on(before, self@),
                records_grow(before, self@),
                before.bypass ==> self@.handed_since(before) == total.take(processed as int),
                !before.bypass ==> self@.calls_since(before).len() == count && chunk_calls(
                    self@.calls_since(before),
                    total,
                    size as nat,
                    0,
                ),
            decreases self@.pending.len(),
        {
            let rest = self.input_buffer.split_off(size);
            let mut chunk = rest;
            core::mem::swap(&mut self.input_buffer, &mut chunk);
            let ghost prev = self@;
            proof {
                assert(self@.pending =~= total.skip(processed + size));
                assert(chunk@ =~= window(total, size as nat, count as int));
                assert((count + 1) * size == count * size + size) by (nonlinear_arith);
                assert(total.take(processed as int) + chunk@ =~= total.take(processed + size));
                assert(taken_on(before, prev));
                assert(records_grow(before, prev));
            }
            let step = self.process_chunk(chunk.as_slice());
            proof {
                lemma_called_step(
                    before,
                    prev,
                    self@,
                    ResamplerInput::Chunk(chunk@),
                    chunk@,
                    step,
                );
                if !before.bypass {
                    lemma_chunk_calls_push(
                        prev.calls_since(before),
                        self@.calls.last(),
                        total,
                        size as nat,
                        step is Ok,
                    );
                }
            }
            match step {
                Ok(()) => {},
                Err(e) => {
                    proof {
                        assert(count < total.len() / (size as nat)) by (nonlinear_arith)
                            requires
                                (count + 1) * size <= total.len(),
                                size > 0,
                        ;
                    }
                    return Err(e);
                },
            }
            processed = processed + size;
            proof {
                count = count + 1;
            }
        }
        proof {
            assert(count == total.len() / (size as nat)) by (nonlinear_arith)
                requires
                    count * size + self@.pending.len() == total.len(),
                    self@.pending.len() < size,
                    size > 0,
            ;
            if self@.bypass {
                assert(total.take(processed as int) + total.skip(processed as int) =~= total);
                assert(self@.forwarded =~= before.forwarded + self@.handed_since(before));
                assert(self@.forwarded + self@.pending =~= before.forwarded + total);
                assert(before.forwarded + total =~= (before.forwarded + before.pending)
                    + samples@);
            }
            lemma_taken_on_accepted(before, self@);
            lemma_records_whole(before, self@);
        }
        Ok(processed)
    }

    /// Asks the resampler once for samples that it still holds and hands
    /// them on, unless there are none. Tells whether there were none.
    fn drain_once(&mut self) -> (r: Result<bool, ProcessorError>)
        requires
            !old(self)@.bypass,
            old(self)@.writer.wf(),
            !old(self)@.writer.finalized,
            old(self)@.samples_resampled == capped_sum(old(self)@.forwarded.len(), 0),
        ensures
            final(self)@ == (ProcessorView {
                writer: final(self)@.writer,
                forwarded: final(self)@.forwarded,
                calls: final(self)@.calls,
                samples_resampled: capped_sum(final(self)@.forwarded.len(), 0),
                ..old(self)@
            }),
            r matches Ok(true) ==> dry_call(old(self)@, final(self)@),
            !(r matches Ok(true)) ==> called_step(
                old(self)@,
                ResamplerInput::Drain,
                Seq::empty(),
                final(self)@,
                step_result(r),
            ),
            r matches Ok(false) ==> output_of(final(self)@.calls.last()).len() > 0,
    {
        let answer: Option<Result<Vec<u32>, String>> = match &mut self.resampler {
            Some(resampler) => Some(resampler.process_partial(None)),
            None => None,
        };
        match answer {
            Some(answer) => {
                proof {
                    self.calls@ = self.calls@.push(
                        ResamplerCall { input: ResamplerInput::Drain, answer: answer_view(answer) },
                    );
                }
                let dry = match &answer {
                    Ok(output) => output.len() == 0,
                    Err(_) => false,
                };
                if dry {
                    proof {
                        assert(output_of(self@.calls.last()) =~= Seq::<u32>::empty());
                    }
                    return Ok(true);
                }
                match self.forward_answer(Some(answer), &[]) {
                    Ok(()) => Ok(false),
                    Err(e) => Err(e),
                }
            },
            None => Ok(true),
        }
    }

    /// Hands on what is still waiting. With a resampler, the samples that do
    /// not fill a chunk go through it as a last, partial chunk, and it is
    /// then asked up to four times for samples that it still holds, until it
    /// has none. In bypass mode the waiting samples pass through as they are.
    pub fn flush(&mut self) -> (r: Result<(), ProcessorError>)
        requires
            old(self)@.wf(),
        ensures
            flush_result(old(self)@, final(self)@, r),
            r is Ok ==> r == Ok::<(), ProcessorError>(()),
    {
        let ghost before = self@;
        let mut held: Vec<u32> = Vec::new();
        core::mem::swap(&mut self.input_buffer, &mut held);
        proof {
            lemma_taken_on_nothing(before, self@);
            lemma_records_same(before, self@);
        }
        if held.len() > 0 {
            let ghost prev = self@;
            let resampled: Option<Result<Vec<u32>, String>> = match &mut self.resampler {
                Some(resampler) => Some(resampler.process_partial(Some(held.as_slice()))),
                None => None,
            };
            proof {
                if resampled is Some {
                    self.calls@ = self.calls@.push(
                        ResamplerCall {
                            input: ResamplerInput::Partial(held@),
                            answer: answer_view(resampled->Some_0),
                        },
                    );
                }
            }
            let step = self.forward_answer(resampled, held.as_slice());
            proof {
                assert(called_step(prev, ResamplerInput::Partial(held@), held@, self@, step));
                lemma_called_step(
                    before,
                    prev,
                    self@,
                    ResamplerInput::Partial(held@),
                    held@,
                    step,
                );
                if !before.bypass {
                    lemma_partial_first(self@.calls_since(before), before.pending, step is Ok);
                } else {
                    assert(Seq::<u32>::empty() + held@ =~= held@);
                }
            }
            match step {
                Ok(()) => {},
                Err(e) => {
                    return Err(e);
                },
            }
            self.chunks_processed = self.chunks_processed + 1;
        } else {
            proof {
                assert(before.pending =~= Seq::<u32>::empty());
                assert(self@.handed_since(before) =~= before.pending);
            }
        }
        if self.resampler.is_some() {
            let mut round: usize = 0;
            while round < DRAIN_ROUNDS
                invariant
                    0 <= round <= DRAIN_ROUNDS,
                    before == old(self)@,
                    before.wf(),
                    !before.bypass,
                    self@.samples_received == before.samples_received,
                    self@.received == before.received,
                    self@.pending.len() == 0,
                    self@.chunks_processed == before.chunks_processed + if before.pending.len()
                        > 0 {
                        1nat
                    } else {
                        0nat
                    },
                    self@.samples_resampled == capped_sum(self@.forwarded.len(), 0),
                    taken_on(before, self@),
                    records_grow(before, self@),
                    drains_so_far(self@.calls_since(before), before.pending, round as nat),
                decreases DRAIN_ROUNDS - round,
            {
                let ghost prev = self@;
                let step = self.drain_once();
                proof {
                    let calls = prev.calls_since(before);
                    let call = self@.calls.last();
                    if step matches Ok(true) {
                        lemma_dry_call(before, prev, self@);
                    } else {
                        lemma_called_step(
                            before,
                            prev,
                            self@,
                            ResamplerInput::Drain,
                            Seq::empty(),
                            step_result(step),
                        );
                    }
                    assert(self@.calls_since(before) == calls.push(call));
                    lemma_drain_more(calls, call, before.pending, round as nat);
                }
                match step {
                    Ok(dry) => {
                        if dry {
                            proof {
                                lemma_taken_on_accepted(before, self@);
                                lemma_records_whole(before, self@);
                            }
                            return Ok(());
                        }
                    },
                    Err(e) => {
                        return Err(e);
                    },
                }
                round = round + 1;
            }
            proof {
                lemma_drains_done(self@.calls_since(before), before.pending);
            }
        }
        proof {
            if self@.bypass {
                assert(self@.forwarded =~= before.forwarded + self@.handed_since(before));
                assert(self@.forwarded + self@.pending =~= self@.forwarded);
            }
            lemma_taken_on_accepted(before, self@);
            lemma_records_whole(before, self@);
        }
        Ok(())
    }

    /// Hands on what is still waiting, ends the stream and gives the file.
    /// The processor is used up. Whether the resampler and the codec do
    /// their part is theirs to say; the end fails with `ClockFull` exactly
    /// where the muxer's clock has no room, first for what is handed on and
    /// then for the frames that end the stream. In bypass mode the
    /// resampler is not asked, and the room that is needed is known
    /// beforehand.
    pub fn finalize(self) -> (r: Result<Vec<u8>, ProcessorError>)
        requires
            self@.wf(),
        ensures
            r is Ok ==> processed_file(self@, r->Ok_0@),
            r matches Err(e) ==> failure_shape(self@.bypass, e) && finalize_failure(self@, e),
            self@.bypass && r == Err::<Vec<u8>, ProcessorError>(ProcessorError::ClockFull)
                ==> !end_room(self@.writer, self@.pending.len()),
            self@.bypass && !end_room(self@.writer, self@.pending.len()) ==> r is Err,
            clock_blocks_flush(self@) ==> r == Err::<Vec<u8>, ProcessorError>(
                ProcessorError::ClockFull,
            ),
    {
        let ghost before = self@;
        let mut processor = self;
        let flushed = processor.flush();
        let ghost after = processor@;
        proof {
            lemma_bypass_end_room(before, after, flushed);
        }
        match flushed {
            Ok(()) => {},
            Err(e) => {
                proof {
                    lemma_finalize_failure(before, after, e);
                }
                return Err(e);
            },
        }
        if !processor.webm_writer.can_end() {
            proof {
                lemma_finalize_failure(before, after, ProcessorError::ClockFull);
            }
            return Err(ProcessorError::ClockFull);
        }
        match processor.webm_writer.finalize() {
            Ok(file) => {
                proof {
                    lemma_processed_file(before, after, file@);
                }
                Ok(file)
            },
            Err(e) => {
                proof {
                    lemma_finalize_failure(before, after, ProcessorError::Encode(e));
                }
                Err(ProcessorError::Encode(e))
            },
        }
    }

    /// The number of samples waiting for a full chunk, and the number of
    /// bytes that the muxer holds.
    pub fn buffer_stats(&self) -> (r: (usize, usize))
        requires
            self@.wf(),
        ensures
            r.0 == self@.pending.len(),
            r.1 == capped_sum(buffered_bytes(self@.writer.mux), 0),
    {
        (self.input_buffer.len(), self.webm_writer.buffered_size())
    }

    /// The numbers that the processor reports of itself.
    pub fn stats(&self) -> (r: ProcessorStats)
        requires
            self@.wf(),
        ensures
            r.samples_received == self@.samples_received,
            r.samples_resampled == self@.samples_resampled,
            r.chunks_processed == self@.chunks_processed,
            r.buffer_fill == self@.pending.len(),
            r.buffer_capacity == self@.chunk_size,
            r.webm_buffer_size == capped_sum(buffered_bytes(self@.writer.mux), 0),
    {
        ProcessorStats {
            samples_received: self.samples_received,
            samples_resampled: self.samples_resampled,
            chunks_processed: self.chunks_processed,
            buffer_fill: self.input_buffer.len(),
            buffer_capacity: self.resampler_chunk_size,
            webm_buffer_size: self.webm_writer.buffered_size(),
        }
    }
}


/// The samples that a run of calls gave, followed by one more call.
pub proof fn lemma_outputs_push(calls: Seq<ResamplerCall>, call: ResamplerCall)
    ensures
        outputs_of(calls.push(call)) == outputs_of(calls) + output_of(call),
{
    assert(calls.push(call).drop_last() =~= calls);
}

/// A state that differs from `before` in nothing that was handed on has
/// had everything taken.
pub proof fn lemma_taken_on_nothing(before: ProcessorView, after: ProcessorView)
    requires
        before.writer.wf(),
        !before.writer.finalized,
        after.writer == before.writer,
        after.forwarded == before.forwarded,
    ensures
        taken_on(before, after),
{
    lemma_mux_effect_nothing(before.writer);
    assert(after.handed_since(before) =~= Seq::<u32>::empty());
    assert(pcm_samples(Seq::<u32>::empty()) =~= Seq::<i16>::empty());
    assert(after.forwarded.take(before.forwarded.len() as int) =~= before.forwarded);
    lemma_room_monotone_zero(before.writer);
}

/// The clock of a muxer in good state has room for a push of nothing.
pub proof fn lemma_room_monotone_zero(w: WriterView)
    requires
        w.wf(),
    ensures
        has_room_for(w, 0),
{
    assert(w.encoder.pending.len() / 960 == 0);
    assert(FRAME_DURATION_MS * 0 == 0);
}

/// One more step of handing `block` to the muxer, after everything before
/// it was taken: where the step succeeds, everything is taken again; where
/// it fails, the failure is as `muxer_failure` says, with everything before
/// the block as the good part.
pub proof fn lemma_taken_on_step(
    before: ProcessorView,
    middle: ProcessorView,
    after: ProcessorView,
    block: Seq<u32>,
    r: Result<(), ProcessorError>,
)
    requires
        before.writer.wf(),
        !before.writer.finalized,
        taken_on(before, middle),
        after.forwarded == middle.forwarded + block,
        forwarded_step(middle.writer, block, after.writer, r),
    ensures
        r is Ok ==> taken_on(before, after),
        r matches Err(e) ==> muxer_failure(
            before,
            after,
            middle.handed_since(before).len(),
            e,
        ),
        after.handed_since(before) == middle.handed_since(before) + block,
{
    let a = before.forwarded.len() as int;
    let first = middle.handed_since(before);
    let added = after.handed_since(before);
    assert(added =~= first + block);
    assert(after.forwarded.take(a) =~= middle.forwarded.take(a));
    assert(added.take(first.len() as int) =~= first);
    assert(added.skip(first.len() as int) =~= block);
    lemma_pcm_concat(first, block);
    lemma_mux_effect_clock(before.writer, pcm_samples(first), middle.writer, block.len());
    match r {
        Ok(()) => {
            lemma_mux_effect_concat(
                before.writer,
                pcm_samples(first),
                middle.writer,
                pcm_samples(block),
                after.writer,
            );
        },
        Err(ProcessorError::Encode(c)) => {
            assert(mux_effect(before.writer, pcm_samples(first), middle.writer, Ok(()))
                && mux_effect(middle.writer, pcm_samples(block), after.writer, Err(c)));
        },
        Err(_) => {},
    }
}

/// A failure of the resampler, after everything before it was taken: the
/// muxer is as it was, and the clock had room for all that was handed on.
pub proof fn lemma_taken_on_resample_failure(
    before: ProcessorView,
    middle: ProcessorView,
    after: ProcessorView,
    e: ProcessorError,
)
    requires
        taken_on(before, middle),
        after.forwarded == middle.forwarded,
        after.writer == middle.writer,
        e is Resample,
    ensures
        muxer_failure(before, after, after.handed_since(before).len(), e),
{
}

/// Where the muxer has taken what was handed on, its encoder has accepted
/// the PCM form of everything handed on, if it had before.
pub proof fn lemma_taken_on_accepted(before: ProcessorView, after: ProcessorView)
    requires
        taken_on(before, after),
        !before.writer.finalized,
        before.writer.encoder.accepted == pcm_samples(before.forwarded),
    ensures
        after.writer.encoder.accepted == pcm_samples(after.forwarded),
{
    let added = after.handed_since(before);
    let answers = after.writer.encoder.results_since(before.writer.encoder);
    lemma_pcm_concat(before.forwarded, added);
    lemma_pcm_concat(added, Seq::<u32>::empty());
    lemma_feed(before.writer.encoder.append(pcm_samples(added)), answers);
    assert(before.forwarded + added =~= after.forwarded);
}

/// The samples that two runs of calls gave, one run after the other.
pub proof fn lemma_outputs_concat(first: Seq<ResamplerCall>, second: Seq<ResamplerCall>)
    ensures
        outputs_of(first + second) == outputs_of(first) + outputs_of(second),
    decreases second.len(),
{
    if second.len() == 0 {
        assert(first + second =~= first);
        assert(outputs_of(first) + outputs_of(second) =~= outputs_of(first));
    } else {
        lemma_outputs_concat(first, second.drop_last());
        assert((first + second).drop_last() =~= first + second.drop_last());
        assert((first + second).last() == second.last());
        assert(outputs_of(first) + (outputs_of(second.drop_last()) + output_of(second.last()))
            =~= (outputs_of(first) + outputs_of(second.drop_last())) + output_of(
            second.last(),
        ));
    }
}

/// Where the records of `after` continue those of `before`, and the
/// samples handed on before were those that the resampler gave, so are the
/// samples handed on after.
pub proof fn lemma_records_whole(before: ProcessorView, after: ProcessorView)
    requires
        records_grow(before, after),
        !before.bypass ==> before.forwarded == outputs_of(before.calls),
        before.bypass ==> before.calls.len() == 0,
    ensures
        !after.bypass ==> after.forwarded == outputs_of(after.calls),
        after.bypass ==> after.calls.len() == 0,
{
    if !before.bypass {
        let n = before.calls.len() as int;
        let m = before.forwarded.len() as int;
        lemma_outputs_concat(before.calls, after.calls_since(before));
        assert(after.calls =~= after.calls.take(n) + after.calls.skip(n));
        assert(after.forwarded =~= after.forwarded.take(m) + after.forwarded.skip(m));
    }
}

/// A state that differs from `before` in no record continues its records.
pub proof fn lemma_records_same(before: ProcessorView, after: ProcessorView)
    requires
        after.bypass == before.bypass,
        after.chunk_size == before.chunk_size,
        after.input_rate == before.input_rate,
        after.target_rate == before.target_rate,
        after.setup == before.setup,
        after.calls == before.calls,
        after.forwarded == before.forwarded,
    ensures
        records_grow(before, after),
{
    assert(after.calls.take(before.calls.len() as int) =~= before.calls);
    assert(after.forwarded.take(before.forwarded.len() as int) =~= before.forwarded);
    assert(after.calls_since(before) =~= Seq::<ResamplerCall>::empty());
    assert(after.handed_since(before) =~= Seq::<u32>::empty());
}

/// One more call of the resampler with the step after it, where everything
/// before was taken and the records were continued: the records are
/// continued again; where the step succeeds, everything is taken again;
/// where it fails, the failure is as `muxer_failure` says, with everything
/// handed on before the step as the good part.
pub proof fn lemma_called_step(
    before: ProcessorView,
    middle: ProcessorView,
    after: ProcessorView,
    input: ResamplerInput,
    passthrough: Seq<u32>,
    r: Result<(), ProcessorError>,
)
    requires
        before.writer.wf(),
        !before.writer.finalized,
        taken_on(before, middle),
        records_grow(before, middle),
        after.bypass == middle.bypass,
        after.chunk_size == middle.chunk_size,
        after.input_rate == middle.input_rate,
        after.target_rate == middle.target_rate,
        after.setup == middle.setup,
        called_step(middle, input, passthrough, after, r),
    ensures
        records_grow(before, after),
        r is Ok ==> taken_on(before, after),
        r matches Err(e) ==> muxer_failure(
            before,
            after,
            middle.handed_since(before).len(),
            e,
        ) && failure_shape(before.bypass, e),
        before.bypass ==> after.handed_since(before) == middle.handed_since(before) + passthrough,
        !before.bypass ==> {
            &&& after.calls_since(before) == middle.calls_since(before).push(after.calls.last())
            &&& after.calls.last().input == input
            &&& r is Ok ==> after.calls.last().answer is Ok
            &&& r matches Err(ProcessorError::Resample(words)) ==> after.calls.last().answer
                == Err::<Seq<u32>, Seq<char>>(words@)
            &&& r is Err && !(r->Err_0 is Resample) ==> after.calls.last().answer is Ok
            &&& middle.handed_since(before).len() == outputs_of(
                after.calls_since(before).drop_last(),
            ).len()
        },
{
    let a = before.forwarded.len() as int;
    let n = before.calls.len() as int;
    if before.bypass {
        lemma_taken_on_step(before, middle, after, passthrough, r);
        assert(after.calls.take(n) =~= before.calls);
        assert(after.forwarded.take(a) =~= middle.forwarded.take(a));
    } else {
        let call = after.calls.last();
        let earlier = middle.calls_since(before);
        assert(after.calls.take(n) =~= middle.calls.take(n));
        assert(after.calls_since(before) =~= earlier.push(call));
        assert(earlier.push(call).drop_last() =~= earlier);
        lemma_outputs_push(earlier, call);
        match call.answer {
            Ok(output) => {
                lemma_taken_on_step(before, middle, after, output, r);
            },
            Err(message) => {
                assert(after.forwarded.take(a) =~= middle.forwarded.take(a));
                assert(after.handed_since(before) =~= middle.handed_since(before));
                assert(middle.handed_since(before) + Seq::<u32>::empty()
                    =~= middle.handed_since(before));
                lemma_taken_on_resample_failure(before, middle, after, r->Err_0);
            },
        }
        assert(after.forwarded.take(a) =~= middle.forwarded.take(a));
    }
}

/// The number of samples, among those handed on since the state `before`,
/// that went in before the step that failed, where `handled` chunks were
/// handled before it: in bypass mode the samples of those chunks, else what
/// the resampler gave in all calls but the last.
pub open spec fn good_before_failure(
    before: ProcessorView,
    after: ProcessorView,
    handled: nat,
) -> nat {
    if before.bypass {
        handled * before.chunk_size
    } else {
        outputs_of(after.calls_since(before).drop_last()).len()
    }
}

/// What a push of `samples` into the processor does, from the state
/// `before` to the state `after` with the result `r`.
///
/// The samples count as received and join the waiting ones. Then the full
/// chunks are handled one by one, which are the windows of the queue in
/// order: each goes to the resampler, whose calls join the record, and what
/// the resampler gave, or the chunk itself in bypass mode, is handed to the
/// muxer. The push succeeds where every step did, and reports the samples
/// of all full chunks; then the muxer has taken everything handed on. A
/// failure is that of the first step that failed: the chunk that failed
/// and those before it are out of the queue, and the muxer is as
/// `muxer_failure` says.
pub open spec fn push_result(
    before: ProcessorView,
    samples: Seq<u32>,
    after: ProcessorView,
    r: Result<usize, ProcessorError>,
) -> bool {
    let total = before.pending + samples;
    let c = before.chunk_size;
    let handled = (after.chunks_processed - before.chunks_processed) as nat;
    let failed: nat = if r is Err {
        1
    } else {
        0
    };
    let calls = after.calls_since(before);
    &&& records_grow(before, after)
    &&& after.samples_received == before.samples_received + samples.len()
    &&& after.received == before.received + samples
    &&& after.chunks_processed >= before.chunks_processed
    &&& (handled + failed) * c <= total.len()
    &&& after.pending == total.skip(((handled + failed) * c) as int)
    &&& before.bypass ==> after.handed_since(before) == total.take(((handled + failed) * c) as int)
    &&& !before.bypass ==> calls.len() == handled + failed && chunk_calls(calls, total, c, failed)
    &&& match r {
        Ok(n) => {
            &&& handled == total.len() / c
            &&& n == handled * c
            &&& after.wf()
            &&& taken_on(before, after)
        },
        Err(e) => {
            &&& handled < total.len() / c
            &&& failure_shape(before.bypass, e)
            &&& muxer_failure(before, after, good_before_failure(before, after, handled), e)
            &&& !before.bypass ==> match e {
                ProcessorError::Resample(words) => calls.last().answer == Err::<
                    Seq<u32>,
                    Seq<char>,
                >(words@),
                _ => calls.last().answer is Ok,
            }
        },
    }
}

/// One more call with the next window keeps the calls those of the windows
/// in order.
pub proof fn lemma_chunk_calls_push(
    calls: Seq<ResamplerCall>,
    call: ResamplerCall,
    total: Seq<u32>,
    chunk_size: nat,
    ok: bool,
)
    requires
        chunk_calls(calls, total, chunk_size, 0),
        call.input == ResamplerInput::Chunk(window(total, chunk_size, calls.len() as int)),
        ok ==> call.answer is Ok,
    ensures
        chunk_calls(calls.push(call), total, chunk_size, 1),
        ok ==> chunk_calls(calls.push(call), total, chunk_size, 0),
{
    let more = calls.push(call);
    assert forall|i: int| 0 <= i < more.len() implies (#[trigger] more[i]).input
        == ResamplerInput::Chunk(window(total, chunk_size, i)) by {
        if i < calls.len() {
            assert(more[i] == calls[i]);
        }
    }
    assert forall|i: int| 0 <= i < more.len() - 1 implies (#[trigger] more[i]).answer is Ok by {
        assert(more[i] == calls[i]);
    }
}

/// The result of a step that also tells whether the resampler was dry,
/// without what it tells.
pub open spec fn step_result(r: Result<bool, ProcessorError>) -> Result<(), ProcessorError> {
    match r {
        Ok(_) => Ok(()),
        Err(e) => Err(e),
    }
}

/// The resampler was asked for what it still holds and had nothing: the
/// call joins the record, and nothing else changes.
pub open spec fn dry_call(before: ProcessorView, after: ProcessorView) -> bool {
    &&& after.calls.len() == before.calls.len() + 1
    &&& after.calls == before.calls.push(after.calls.last())
    &&& after.calls.last().input is Drain
    &&& after.calls.last().answer is Ok
    &&& output_of(after.calls.last()).len() == 0
    &&& after.forwarded == before.forwarded
    &&& after.writer == before.writer
}

/// The calls `calls` are those of the end of a stream in which `pending`
/// was waiting, as far as it has come after `round` calls for what the
/// resampler still holds, each of which was answered with samples.
pub open spec fn drains_so_far(calls: Seq<ResamplerCall>, pending: Seq<u32>, round: nat) -> bool {
    let head: int = if pending.len() > 0 {
        1
    } else {
        0
    };
    &&& calls.len() == head + round
    &&& pending.len() > 0 ==> calls[0].input == ResamplerInput::Partial(pending)
    &&& forall|i: int| head <= i < calls.len() ==> (#[trigger] calls[i]).input is Drain
    &&& forall|i: int| 0 <= i < calls.len() ==> (#[trigger] calls[i]).answer is Ok
    &&& forall|i: int| head <= i < calls.len() ==> output_of(#[trigger] calls[i]).len() > 0
}

/// What the flush does to the processor, from the state `before` to the
/// state `after` with the result `r`.
///
/// Nothing is received, and nothing is left waiting. With a resampler, the
/// samples that were waiting go to it as one partial chunk, and it is then
/// asked for what it still holds, as `flush_calls` says; what it gave is
/// handed to the muxer. In bypass mode the samples that were waiting are
/// handed to the muxer as they are. The flush succeeds where every step
/// did; then the muxer has taken everything handed on, and what was
/// waiting counts as one chunk more. A failure is that of the first step
/// that failed, and the muxer is as `muxer_failure` says.
pub open spec fn flush_result(
    before: ProcessorView,
    after: ProcessorView,
    r: Result<(), ProcessorError>,
) -> bool {
    let calls = after.calls_since(before);
    let one: nat = if before.pending.len() > 0 {
        1
    } else {
        0
    };
    &&& records_grow(before, after)
    &&& after.samples_received == before.samples_received
    &&& after.received == before.received
    &&& after.pending.len() == 0
    &&& before.chunks_processed <= after.chunks_processed <= before.chunks_processed + one
    &&& before.bypass ==> after.handed_since(before) == before.pending
    &&& !before.bypass ==> flush_calls(calls, before.pending, r is Ok)
    &&& match r {
        Ok(()) => {
            &&& after.chunks_processed == before.chunks_processed + one
            &&& after.wf()
            &&& taken_on(before, after)
            &&& after.bypass ==> after.forwarded == after.received
            &&& after.bypass ==> after.samples_resampled == after.samples_received
        },
        Err(e) => {
            &&& failure_shape(before.bypass, e)
            &&& muxer_failure(before, after, good_before_failure(before, after, 0), e)
            &&& !before.bypass ==> match e {
                ProcessorError::Resample(words) => calls.last().answer == Err::<
                    Seq<u32>,
                    Seq<char>,
                >(words@),
                _ => calls.last().answer is Ok,
            }
        },
    }
}

/// A call that found the resampler dry, after everything before it was
/// taken: the records are continued, and everything is taken still.
pub proof fn lemma_dry_call(before: ProcessorView, middle: ProcessorView, after: ProcessorView)
    requires
        taken_on(before, middle),
        records_grow(before, middle),
        !before.bypass,
        after.bypass == middle.bypass,
        after.chunk_size == middle.chunk_size,
        after.input_rate == middle.input_rate,
        after.target_rate == middle.target_rate,
        after.setup == middle.setup,
        dry_call(middle, after),
    ensures
        records_grow(before, after),
        taken_on(before, after),
        after.calls_since(before) == middle.calls_since(before).push(after.calls.last()),
{
    let n = before.calls.len() as int;
    let call = after.calls.last();
    let earlier = middle.calls_since(before);
    assert(after.calls.take(n) =~= middle.calls.take(n));
    assert(after.calls_since(before) =~= earlier.push(call));
    lemma_outputs_push(earlier, call);
    assert(output_of(call) =~= Seq::<u32>::empty());
    assert(outputs_of(earlier) + Seq::<u32>::empty() =~= outputs_of(earlier));
}

/// The first call of the end of a stream in which samples were waiting.
pub proof fn lemma_partial_first(calls: Seq<ResamplerCall>, pending: Seq<u32>, ok: bool)
    requires
        pending.len() > 0,
        calls.len() == 1,
        calls[0].input == ResamplerInput::Partial(pending),
        ok ==> calls[0].answer is Ok,
    ensures
        flush_calls(calls, pending, false),
        ok ==> drains_so_far(calls, pending, 0),
{
}

/// One more call for what the resampler still holds.
pub proof fn lemma_drain_more(
    calls: Seq<ResamplerCall>,
    call: ResamplerCall,
    pending: Seq<u32>,
    round: nat,
)
    requires
        drains_so_far(calls, pending, round),
        round < DRAIN_ROUNDS,
        call.input is Drain,
    ensures
        flush_calls(calls.push(call), pending, false),
        call.answer is Ok && output_of(call).len() == 0 ==> flush_calls(
            calls.push(call),
            pending,
            true,
        ),
        call.answer is Ok && output_of(call).len() > 0 ==> drains_so_far(
            calls.push(call),
            pending,
            round + 1,
        ),
{
    let more = calls.push(call);
    assert forall|i: int| 0 <= i < more.len() - 1 implies more[i] == calls[i] by {}
    if pending.len() > 0 {
        assert(more[0] == calls[0]);
    }
}

/// After four calls for what the resampler still holds, the end is done.
pub proof fn lemma_drains_done(calls: Seq<ResamplerCall>, pending: Seq<u32>)
    requires
        drains_so_far(calls, pending, DRAIN_ROUNDS as nat),
    ensures
        flush_calls(calls, pending, true),
{
}

/// Whether the end of the stream is decided by the clock alone: in bypass
/// mode samples are waiting, and the muxer's clock has no room for them.
pub open spec fn clock_blocks_flush(v: ProcessorView) -> bool {
    &&& v.bypass
    &&& v.pending.len() > 0
    &&& !has_room_for(v.writer, v.pending.len())
}

/// How the end of the stream fails with the error `e` once the flush has
/// left the muxer in the state `w`: with `ClockFull` exactly where the clock
/// has no room for the frames that end the stream, and else with the error
/// of a status code of the codec.
pub open spec fn end_failure(w: WriterView, e: ProcessorError) -> bool {
    match e {
        ProcessorError::ClockFull => !can_end_for(w),
        ProcessorError::Encode(c) => can_end_for(w) && is_status_error(c),
        ProcessorError::Resample(_) => false,
    }
}

/// The end of a processor in the state `before` fails with the error `e`
/// by way of the state `after`: either the flush fails with `e` and leaves
/// `after`, or the flush succeeds and leaves `after`, and the end of the
/// muxer's stream fails with `e`.
pub open spec fn finalize_failed_at(
    before: ProcessorView,
    after: ProcessorView,
    e: ProcessorError,
) -> bool {
    ||| flush_result(before, after, Err(e))
    ||| flush_result(before, after, Ok(())) && end_failure(after.writer, e)
}

/// The end of a processor in the state `before` fails with the error `e`:
/// there is a state by way of which it does, as `finalize_failed_at` says.
#[verifier::opaque]
pub open spec fn finalize_failure(before: ProcessorView, e: ProcessorError) -> bool {
    exists|after: ProcessorView| #[trigger] finalize_failed_at(before, after, e)
}

/// A state by way of which the end fails shows that it fails.
pub proof fn lemma_finalize_failure(before: ProcessorView, after: ProcessorView, e: ProcessorError)
    requires
        finalize_failed_at(before, after, e),
    ensures
        finalize_failure(before, e),
{
    reveal(finalize_failure);
}

/// `bytes` is the file that a processor in the state `before` gives at its
/// end: there is a state `after` that a successful flush leads to, as
/// `flush_result` says, in which the clock has room for the frames that end
/// the stream, and the muxer of that state ends its stream in `bytes`, as
/// `finalized_from` says.
#[verifier::opaque]
pub open spec fn processed_file(before: ProcessorView, bytes: Seq<u8>) -> bool {
    exists|after: ProcessorView| #[trigger]
        flush_result(before, after, Ok(())) && can_end_for(after.writer) && finalized_from(
            after.writer,
            bytes,
        )
}

/// A state after a successful flush whose muxer ends its stream in `bytes`
/// shows that `bytes` is the processor's file.
pub proof fn lemma_processed_file(before: ProcessorView, after: ProcessorView, bytes: Seq<u8>)
    requires
        flush_result(before, after, Ok(())),
        can_end_for(after.writer),
        finalized_from(after.writer, bytes),
    ensures
        processed_file(before, bytes),
{
    reveal(processed_file);
}

/// In bypass mode the room that the end of the stream needs on the clock is
/// known beforehand: a flush fails with `ClockFull` exactly where there is
/// no room for the samples waiting, and after a flush that succeeded there
/// is room for the frames that end the stream exactly where there was room
/// for both.
pub proof fn lemma_bypass_end_room(
    before: ProcessorView,
    after: ProcessorView,
    r: Result<(), ProcessorError>,
)
    requires
        before.wf(),
        flush_result(before, after, r),
    ensures
        before.bypass && r is Ok ==> can_end_for(after.writer) == end_room(
            before.writer,
            before.pending.len(),
        ),
        before.bypass && r == Err::<(), ProcessorError>(ProcessorError::ClockFull) ==> !end_room(
            before.writer,
            before.pending.len(),
        ),
        clock_blocks_flush(before) ==> r == Err::<(), ProcessorError>(ProcessorError::ClockFull),
{
    if before.bypass {
        lemma_pcm_concat(before.pending, Seq::<u32>::empty());
        match r {
            Ok(()) => {
                lemma_mux_effect_clock(
                    before.writer,
                    pcm_samples(after.handed_since(before)),
                    after.writer,
                    0,
                );
            },
            Err(e) => {},
        }
    }
}

/// In bypass mode the room that a push needs on the clock is known
/// beforehand, from the chunks that are due: the push fails with
/// `ClockFull` only where the clock has no room for all of them, it does
/// fail where that is so, and it fails with `ClockFull` where the clock has
/// no room even for the first.
pub proof fn lemma_bypass_push_clock(
    before: ProcessorView,
    samples: Seq<u32>,
    after: ProcessorView,
    r: Result<usize, ProcessorError>,
)
    requires
        before.wf(),
        before.bypass,
        push_result(before, samples, after, r),
    ensures
        ({
            let due = (before.pending.len() + samples.len()) / before.chunk_size;
            &&& r matches Err(ProcessorError::ClockFull) ==> !has_room_for(
                before.writer,
                due * before.chunk_size,
            )
            &&& !has_room_for(before.writer, due * before.chunk_size) ==> r is Err
            &&& due >= 1 && !has_room_for(before.writer, before.chunk_size) ==> r matches Err(
                ProcessorError::ClockFull,
            )
        }),
{
    let total = before.pending + samples;
    let c = before.chunk_size;
    let due = total.len() / c;
    let handled = (after.chunks_processed - before.chunks_processed) as nat;
    let added = after.handed_since(before);
    match r {
        Ok(n) => {
            assert(added.len() == due * c);
            if due >= 1 {
                assert(c <= due * c) by (nonlinear_arith)
                    requires
                        due >= 1,
                        c > 0,
                ;
                if has_room_for(before.writer, due * c) {
                    lemma_room_monotone(before.writer, c, due * c);
                }
            }
        },
        Err(e) => {
            assert((handled + 1) * c <= due * c) by (nonlinear_arith)
                requires
                    handled < due,
                    c > 0,
            ;
            assert(c <= (handled + 1) * c) by (nonlinear_arith)
                requires
                    c > 0,
            ;
            assert(added.len() == (handled + 1) * c);
            if has_room_for(before.writer, due * c) {
                lemma_room_monotone(before.writer, (handled + 1) * c, due * c);
            }
            if has_room_for(before.writer, (handled + 1) * c) {
                lemma_room_monotone(before.writer, c, (handled + 1) * c);
            }
        },
    }
}

/// In bypass mode, once nothing is waiting, the samples handed on are the
/// samples received, the two counts agree, and the encoder has accepted
/// the PCM form of the samples received.
pub proof fn lemma_bypass_accounting(v: ProcessorView)
    requires
        v.wf(),
        v.bypass,
        v.pending.len() == 0,
    ensures
        v.forwarded == v.received,
        v.samples_resampled == v.samples_received,
        v.writer.encoder.accepted == pcm_samples(v.received),
{
    assert(v.forwarded + v.pending =~= v.forwarded);
}

/// In bypass mode, at any time between calls, every sample received is
/// either waiting or was handed on, in that order: the count of samples
/// handed on and the queue's length make the count of samples received,
/// and the encoder has accepted the PCM form of the first samples
/// received, as many as were handed on.
pub proof fn lemma_bypass_between_calls(v: ProcessorView)
    requires
        v.wf(),
        v.bypass,
    ensures
        v.samples_resampled + v.pending.len() == v.samples_received,
        v.forwarded == v.received.take(v.samples_resampled as int),
        v.writer.encoder.accepted == pcm_samples(v.received.take(v.samples_resampled as int)),
{
    assert((v.forwarded + v.pending).take(v.forwarded.len() as int) =~= v.forwarded);
}

/// The largest chunk size for which room for two chunks is set aside when
/// the processor is made.
pub const MAX_RESERVED_CHUNK: usize = 0x10_0000;

/// The number of times that the resampler is asked, at the end of the
/// stream, for samples that it still holds.
pub const DRAIN_ROUNDS: usize = 4;

} // verus!
