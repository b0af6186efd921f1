//! A buffered frame encoder around a fixed-frame audio codec: it accepts
//! pushes of any length, hands the codec frames of exactly 960 samples, and
//! queues the encoded frames, leaving out the codec's near-silence markers.

use vstd::prelude::*;
use crate::ieee::{pcm_of_bits, pcm_from_bits};

verus! {

/// The codec's native sample rate, in samples per second.
pub const SAMPLE_RATE: i32 = 48000;

/// The number of samples in one codec frame: 20 ms at the native rate.
pub const FRAME_SIZE: usize = 960;

/// The largest encoded frame that the codec is asked for, in bytes.
pub const MAX_PACKET_SIZE: usize = 4000;

/// The codec's general-audio application mode.
pub const APPLICATION_AUDIO: i32 = 2049;

/// The longest encoded frame that counts as a near-silence marker.
pub const MARKER_SIZE: usize = 2;

/// What can go wrong in the encoder and in the container writer.
#[derive(Debug, Clone, PartialEq, Eq)]
pub enum OpusError {
    /// The codec was given an invalid argument.
    BadArg,
    /// The output buffer was too small.
    BufferTooSmall,
    /// The codec failed internally.
    InternalError,
    /// The packet was invalid.
    InvalidPacket,
    /// The feature is not implemented.
    Unimplemented,
    /// The codec was in an invalid state.
    InvalidState,
    /// Memory could not be allocated.
    AllocFail,
    /// A code outside the codec's documented set.
    Unknown(i32),
    /// The container writer was misused.
    WebmError(String),
    /// Input or output failed.
    IoError(String),
}

/// The error that stands for a codec status code.
pub open spec fn error_of_code(code: i32) -> OpusError {
    if code == -1 {
        OpusError::BadArg
    } else if code == -2 {
        OpusError::BufferTooSmall
    } else if code == -3 {
        OpusError::InternalError
    } else if code == -4 {
        OpusError::InvalidPacket
    } else if code == -5 {
        OpusError::Unimplemented
    } else if code == -6 {
        OpusError::InvalidState
    } else if code == -7 {
        OpusError::AllocFail
    } else {
        OpusError::Unknown(code)
    }
}

/// Whether `e` is the error of a status code of the codec, as against a
/// misuse of the container writer or a failure of input or output.
pub open spec fn is_status_error(e: OpusError) -> bool {
    exists|code: i32| e == #[trigger] error_of_code(code)
}

/// The result of a control call that the codec answered with `status`: zero
/// is success, anything else the error of that code.
pub open spec fn status_outcome(status: i32) -> Result<(), OpusError> {
    if status == 0 {
        Ok(())
    } else {
        Err(error_of_code(status))
    }
}

impl OpusError {
    /// Maps a codec status code to its error.
    pub fn from_code(code: i32) -> (e: Self)
        ensures
            e == error_of_code(code),
    {
        match code {
            -1 => OpusError::BadArg,
            -2 => OpusError::BufferTooSmall,
            -3 => OpusError::InternalError,
            -4 => OpusError::InvalidPacket,
            -5 => OpusError::Unimplemented,
            -6 => OpusError::InvalidState,
            -7 => OpusError::AllocFail,
            _ => OpusError::Unknown(code),
        }
    }

    /// Turns the status code of a codec control call into a result: zero is
    /// success, anything else the error of that code.
    pub fn check_status(code: i32) -> (r: Result<(), OpusError>)
        ensures
            r == status_outcome(code),
    {
        if code != 0 {
            Err(OpusError::from_code(code))
        } else {
            Ok(())
        }
    }
}

/// A codec with a fixed frame size: the native collaborator of the encoder.
/// Status codes are zero for success and negative for a failure.
pub trait FrameCodec: Sized {
    /// Creates a codec for the given rate, channel count and application
    /// mode, or gives the status code of the failure. The encoder only ever
    /// asks for one channel of general audio at the native rate.
    fn create(sample_rate: i32, channels: i32, application: i32) -> Result<Self, i32>
        requires
            sample_rate == SAMPLE_RATE,
            channels == 1,
            application == APPLICATION_AUDIO,
    ;

    /// Sets the target bitrate in bits per second; returns a status code.
    fn set_bitrate(&mut self, bitrate: i32) -> i32;

    /// Sets the complexity, 0 to 10; returns a status code.
    fn set_complexity(&mut self, complexity: i32) -> i32;

    /// The codec's look-ahead in samples, or a status code.
    fn lookahead(&self) -> Result<i32, i32>;

    /// Encodes one frame into at most `max_size` bytes, or gives the status
    /// code of the failure.
    fn encode(&mut self, frame: &[i16], max_size: usize) -> Result<Vec<u8>, i32>
        requires
            frame@.len() == FRAME_SIZE,
    ;
}

/// The status code for an answer that does not fit the space it was given.
pub const CODE_BUFFER_TOO_SMALL: i32 = -2;

/// A codec's answer as a mathematical value. An encoded frame longer than
/// the codec was asked for counts as the failure "buffer too small".
pub open spec fn result_view(result: Result<Vec<u8>, i32>) -> Result<Seq<u8>, i32> {
    match result {
        Ok(bytes) => if bytes@.len() <= MAX_PACKET_SIZE {
            Ok(bytes@)
        } else {
            Err(CODE_BUFFER_TOO_SMALL)
        },
        Err(code) => Err(code),
    }
}

/// What the encoder does with one answer of the codec: a failure is
/// reported under its code, a near-silence marker is dropped, and any other
/// frame is kept.
pub fn classify_output(result: Result<Vec<u8>, i32>) -> (r: Result<Option<Vec<u8>>, OpusError>)
    ensures
        match result_view(result) {
            Ok(bytes) => if bytes.len() > MARKER_SIZE {
                r is Ok && r->Ok_0 is Some && r->Ok_0->Some_0@ == bytes
            } else {
                r == Ok::<Option<Vec<u8>>, OpusError>(None)
            },
            Err(code) => r == Err::<Option<Vec<u8>>, OpusError>(error_of_code(code)),
        },
        result is Ok && r is Ok && r->Ok_0 is Some ==> r->Ok_0->Some_0 == result->Ok_0,
{
    match result {
        Ok(bytes) => {
            if bytes.len() > MAX_PACKET_SIZE {
                Err(OpusError::from_code(CODE_BUFFER_TOO_SMALL))
            } else if bytes.len() > MARKER_SIZE {
                Ok(Some(bytes))
            } else {
                Ok(None)
            }
        },
        Err(code) => Err(OpusError::from_code(code)),
    }
}

/// The frames among the codec's answers that the encoder keeps, in order:
/// the successful ones longer than a near-silence marker.
pub open spec fn kept_frames(results: Seq<Result<Seq<u8>, i32>>) -> Seq<Seq<u8>>
    decreases results.len(),
{
    if results.len() == 0 {
        Seq::empty()
    } else {
        let init = kept_frames(results.drop_last());
        match results.last() {
            Ok(bytes) => if bytes.len() > MARKER_SIZE {
                init.push(bytes)
            } else {
                init
            },
            Err(_) => init,
        }
    }
}

/// For each frame that the codec accepted, in order, whether its encoded
/// form was kept.
pub open spec fn kept_marks(results: Seq<Result<Seq<u8>, i32>>) -> Seq<bool>
    decreases results.len(),
{
    if results.len() == 0 {
        Seq::empty()
    } else {
        let init = kept_marks(results.drop_last());
        match results.last() {
            Ok(bytes) => init.push(bytes.len() > MARKER_SIZE),
            Err(_) => init,
        }
    }
}

/// Whether every answer is a success.
pub open spec fn all_ok(results: Seq<Result<Seq<u8>, i32>>) -> bool {
    forall|i: int| 0 <= i < results.len() ==> (#[trigger] results[i]) is Ok
}

/// The complete frames at the front of `samples`, in order.
pub open spec fn frames_of(samples: Seq<i16>) -> Seq<Seq<i16>> {
    Seq::new(
        (samples.len() / FRAME_SIZE as nat) as nat,
        |i: int| samples.subrange(FRAME_SIZE * i, FRAME_SIZE * i + FRAME_SIZE),
    )
}

/// A setting of the codec.
pub enum ControlRequest {
    /// The target bitrate, in bits per second.
    Bitrate,
    /// The complexity, from 0 to 10.
    Complexity,
}

/// One setting handed to the codec, with the codec's answer.
pub struct ControlCall {
    /// The setting.
    pub request: ControlRequest,
    /// The value handed to the codec.
    pub value: i32,
    /// The status code with which the codec answered: zero where it took
    /// the value.
    pub status: i32,
}

/// The value of the last call among `controls` in which the codec took a
/// value for `request`, if there is one.
pub open spec fn last_taken(controls: Seq<ControlCall>, request: ControlRequest) -> Option<i32>
    decreases controls.len(),
{
    if controls.len() == 0 {
        None
    } else if controls.last().request == request && controls.last().status == 0 {
        Some(controls.last().value)
    } else {
        last_taken(controls.drop_last(), request)
    }
}

/// The encoder as a mathematical value: its two queues, and a record of
/// everything that has passed between it and the codec.
pub struct EncoderView {
    /// Samples waiting for a complete frame.
    pub pending: Seq<i16>,
    /// Encoded frames that have not been taken yet.
    pub ready: Seq<Seq<u8>>,
    /// For each frame accepted by the codec since the last take, whether it
    /// was kept.
    pub marks: Seq<bool>,
    /// Every sample accepted so far, end-of-stream padding included, in
    /// order.
    pub accepted: Seq<i16>,
    /// Every frame handed to the codec, in order.
    pub submitted: Seq<Seq<i16>>,
    /// The codec's answer to each submitted frame.
    pub results: Seq<Result<Seq<u8>, i32>>,
    /// How many of the answers had come in at the last take.
    pub taken: nat,
    /// Every setting handed to the codec, with the codec's answer, in order.
    pub controls: Seq<ControlCall>,
}

impl EncoderView {
    /// The state in which a new encoder starts: nothing has passed through
    /// it, and the codec has taken `bitrate` as its bitrate.
    pub open spec fn initial(bitrate: i32) -> EncoderView {
        EncoderView {
            pending: Seq::empty(),
            ready: Seq::empty(),
            marks: Seq::empty(),
            accepted: Seq::empty(),
            submitted: Seq::empty(),
            results: Seq::empty(),
            taken: 0,
            controls: seq![
                ControlCall { request: ControlRequest::Bitrate, value: bitrate, status: 0 },
            ],
        }
    }

    /// Whether this is the state in which a new encoder starts, at whatever
    /// bitrate.
    pub open spec fn is_initial(self) -> bool {
        &&& self.controls.len() == 1
        &&& self == EncoderView::initial(self.controls[0].value)
    }

    /// The state after the codec was handed `value` for the setting
    /// `request` and answered with `status`.
    pub open spec fn control(
        self,
        request: ControlRequest,
        value: i32,
        status: i32,
    ) -> EncoderView {
        EncoderView { controls: self.controls.push(ControlCall { request, value, status }), ..self }
    }

    /// The bitrate that the codec works at: the last one that it took.
    pub open spec fn bitrate(self) -> Option<i32> {
        last_taken(self.controls, ControlRequest::Bitrate)
    }

    /// The complexity that the codec works at, if it was ever given one:
    /// the last one that it took.
    pub open spec fn complexity(self) -> Option<i32> {
        last_taken(self.controls, ControlRequest::Complexity)
    }

    /// The queues agree with the record: the frames submitted are the
    /// complete frames at the front of the samples accepted, each with its
    /// answer; the samples accepted after them are pending; and the ready
    /// frames are exactly the kept ones among the answers since the last
    /// take.
    pub open spec fn consistent(self) -> bool {
        &&& self.taken <= self.results.len()
        &&& self.submitted.len() == self.results.len()
        &&& self.results.len() * FRAME_SIZE <= self.accepted.len()
        &&& self.submitted == frames_of(self.accepted).take(self.results.len() as int)
        &&& self.pending == self.accepted.skip(self.results.len() * FRAME_SIZE)
        &&& self.ready == kept_frames(self.results.skip(self.taken as int))
        &&& self.marks == kept_marks(self.results.skip(self.taken as int))
        &&& forall|i: int|
            0 <= i < self.ready.len() ==> MARKER_SIZE < (#[trigger] self.ready[i]).len()
                <= MAX_PACKET_SIZE
    }

    /// Consistent, and no complete frame is waiting.
    pub open spec fn wf(self) -> bool {
        &&& self.consistent()
        &&& self.pending.len() < FRAME_SIZE
    }

    /// The state after `samples` were appended to the pending queue.
    pub open spec fn append(self, samples: Seq<i16>) -> EncoderView {
        EncoderView { pending: self.pending + samples, accepted: self.accepted + samples, ..self }
    }

    /// The state after the frame at the front of the pending queue went to
    /// the codec and came back as `result`.
    pub open spec fn step(self, result: Result<Seq<u8>, i32>) -> EncoderView {
        EncoderView {
            pending: self.pending.skip(FRAME_SIZE as int),
            ready: match result {
                Ok(bytes) => if bytes.len() > MARKER_SIZE {
                    self.ready.push(bytes)
                } else {
                    self.ready
                },
                Err(_) => self.ready,
            },
            marks: match result {
                Ok(bytes) => self.marks.push(bytes.len() > MARKER_SIZE),
                Err(_) => self.marks,
            },
            accepted: self.accepted,
            submitted: self.submitted.push(self.pending.take(FRAME_SIZE as int)),
            results: self.results.push(result),
            taken: self.taken,
            controls: self.controls,
        }
    }

    /// The state after one frame for each of `results` went to the codec.
    pub open spec fn feed(self, results: Seq<Result<Seq<u8>, i32>>) -> EncoderView
        decreases results.len(),
    {
        if results.len() == 0 {
            self
        } else {
            self.feed(results.drop_last()).step(results.last())
        }
    }

    /// The state after the ready frames were taken.
    pub open spec fn drained(self) -> EncoderView {
        EncoderView {
            ready: Seq::empty(),
            marks: Seq::empty(),
            taken: self.results.len(),
            ..self
        }
    }

    /// The answers that came in after the state `before`.
    pub open spec fn results_since(self, before: EncoderView) -> Seq<Result<Seq<u8>, i32>> {
        self.results.skip(before.results.len() as int)
    }
}

/// How the result of a push relates to the codec's answers during it, when
/// `due` complete frames were waiting: the codec is asked frame by frame
/// until the first failure, which ends the push with the error of its code.
pub open spec fn push_outcome(
    answers: Seq<Result<Seq<u8>, i32>>,
    due: nat,
    r: Result<(), OpusError>,
) -> bool {
    match r {
        Ok(()) => answers.len() == due && all_ok(answers),
        Err(e) => {
            &&& 0 < answers.len() <= due
            &&& all_ok(answers.drop_last())
            &&& answers.last() is Err
            &&& e == error_of_code(answers.last()->Err_0)
        },
    }
}

/// What a control call does, from the state `before` to the state `after`
/// with the result `r`: the codec is handed `value` for the setting
/// `request`, the call joins the record with the codec's answer, and the
/// result is that of the answer. Where the codec took the value, it is the
/// setting's value from then on; where it did not, the setting is as it was.
/// The other settings and the queues stay as they are.
pub open spec fn control_effect(
    before: EncoderView,
    request: ControlRequest,
    value: i32,
    after: EncoderView,
    r: Result<(), OpusError>,
) -> bool {
    &&& after.controls.len() == before.controls.len() + 1
    &&& after.controls.last().request == request
    &&& after.controls.last().value == value
    &&& after == before.control(request, value, after.controls.last().status)
    &&& r == status_outcome(after.controls.last().status)
    &&& last_taken(after.controls, request) == if r is Ok {
        Some(value)
    } else {
        last_taken(before.controls, request)
    }
    &&& forall|other: ControlRequest|
        other != request ==> #[trigger] last_taken(after.controls, other) == last_taken(
            before.controls,
            other,
        )
}

/// What a push of `samples` does, from the state `before` to the state
/// `after` with the result `r`: the samples join the pending queue, the
/// codec is asked for each complete frame in turn until it fails, each
/// answer is filed, and the result is that of `push_outcome`.
pub open spec fn push_effect(
    before: EncoderView,
    samples: Seq<i16>,
    after: EncoderView,
    r: Result<(), OpusError>,
) -> bool {
    let answers = after.results_since(before);
    &&& after.consistent()
    &&& after == before.append(samples).feed(answers)
    &&& push_outcome(answers, (before.pending.len() + samples.len()) / FRAME_SIZE as nat, r)
    &&& r is Ok ==> after.wf()
    &&& after.pending == (before.pending + samples).skip(answers.len() * FRAME_SIZE)
    &&& after.submitted == before.submitted + frames_of(before.pending + samples).take(
        answers.len() as int,
    )
    &&& after.results == before.results + answers
    &&& after.ready == before.ready + kept_frames(answers)
    &&& after.marks == before.marks + kept_marks(answers)
    &&& after.accepted == before.accepted + samples
    &&& after.controls == before.controls
    &&& after.taken == before.taken
}

/// The PCM samples for single-precision samples given by their bit patterns.
pub open spec fn pcm_samples(bits: Seq<u32>) -> Seq<i16> {
    Seq::new(bits.len(), |i: int| pcm_of_bits(bits[i]) as i16)
}

/// Converts single-precision samples, given by their bit patterns, to 16-bit
/// PCM.
pub fn convert_samples(samples: &[u32]) -> (pcm: Vec<i16>)
    ensures
        pcm@ == pcm_samples(samples@),
{
    let mut pcm: Vec<i16> = Vec::with_capacity(samples.len());
    let mut i: usize = 0;
    while i < samples.len()
        invariant
            0 <= i <= samples@.len(),
            pcm@ == pcm_samples(samples@.subrange(0, i as int)),
        decreases samples@.len() - i,
    {
        pcm.push(pcm_from_bits(samples[i]));
        proof {
            assert(pcm@ =~= pcm_samples(samples@.subrange(0, i as int + 1)));
        }
        i = i + 1;
    }
    proof {
        assert(samples@.subrange(0, i as int) =~= samples@);
    }
    pcm
}

/// `n` samples of silence.
pub open spec fn silence(n: nat) -> Seq<i16> {
    Seq::new(n, |i: int| 0i16)
}

/// The number of frames that end a stream in which `held` samples are
/// pending: two of silence, after the partial frame if there is one.
pub open spec fn flush_frames(held: nat) -> nat {
    if held == 0 {
        2
    } else {
        3
    }
}

/// The number of zero samples that end a stream in which `held` samples are
/// pending: what completes a partial frame, and two frames more.
pub open spec fn flush_length(held: nat) -> nat {
    if held == 0 {
        2 * FRAME_SIZE as nat
    } else {
        (3 * FRAME_SIZE - held) as nat
    }
}

/// Turns the codec's answer to a look-ahead query into the encoder's result:
/// the value as it is, or the error of the status code.
pub fn lookahead_result(answer: Result<i32, i32>) -> (r: Result<i32, OpusError>)
    ensures
        match answer {
            Ok(value) => r == Ok::<i32, OpusError>(value),
            Err(code) => r == Err::<i32, OpusError>(error_of_code(code)),
        },
{
    match answer {
        Ok(value) => Ok(value),
        Err(code) => Err(OpusError::from_code(code)),
    }
}

/// The part of the encoder's view that no executable field holds.
pub ghost struct EncoderLog {
    pub controls: Seq<ControlCall>,
    pub accepted: Seq<i16>,
    pub submitted: Seq<Seq<i16>>,
    pub results: Seq<Result<Seq<u8>, i32>>,
    pub taken: nat,
}

/// The contents of each of `frames`.
pub open spec fn frame_views(frames: Seq<Vec<u8>>) -> Seq<Seq<u8>> {
    Seq::new(frames.len(), |i: int| frames[i]@)
}

/// A buffered encoder: it owns the codec, a queue of samples that do not
/// fill a frame yet, and a queue of encoded frames ready to be taken.
pub struct BufferedOpusEncoder<C: FrameCodec> {
    codec: C,
    sample_buffer: Vec<i16>,
    encoded_frames: Vec<Vec<u8>>,
    frame_marks: Vec<bool>,
    log: Ghost<EncoderLog>,
}

impl<C: FrameCodec> View for BufferedOpusEncoder<C> {
    type V = EncoderView;

    closed spec fn view(&self) -> EncoderView {
        EncoderView {
            pending: self.sample_buffer@,
            ready: frame_views(self.encoded_frames@),
            marks: self.frame_marks@,
            accepted: self.log@.accepted,
            submitted: self.log@.submitted,
            results: self.log@.results,
            taken: self.log@.taken,
            controls: self.log@.controls,
        }
    }
}

impl<C: FrameCodec> BufferedOpusEncoder<C> {
    /// Creates the codec for mono audio at the native rate in general-audio
    /// mode and sets its bitrate. A failure of either step is reported under
    /// its status code, and no encoder exists then. Whether the two steps
    /// succeed is the codec's to say; where they do, the encoder is empty
    /// and the codec has taken `bitrate`.
    pub fn new(bitrate: i32) -> (r: Result<Self, OpusError>)
        ensures
            r is Ok ==> r->Ok_0@ == EncoderView::initial(bitrate) && r->Ok_0@.wf(),
            r is Err ==> is_status_error(r->Err_0),
    {
        let mut codec = match C::create(SAMPLE_RATE, 1, APPLICATION_AUDIO) {
            Ok(codec) => codec,
            Err(code) => {
                return Err(OpusError::from_code(code));
            },
        };
        let status = codec.set_bitrate(bitrate);
        Self::with_codec(codec, bitrate, status)
    }

    /// Makes an encoder around a codec that has just been created and handed
    /// `bitrate`, given the status with which the codec answered: the
    /// encoder, empty, where the status is zero, and else the error of the
    /// status.
    pub fn with_codec(codec: C, bitrate: i32, status: i32) -> (r: Result<Self, OpusError>)
        ensures
            status == 0 ==> r is Ok && r->Ok_0@ == EncoderView::initial(bitrate) && r->Ok_0@.wf(),
            status != 0 ==> r is Err && r->Err_0 == error_of_code(status),
    {
        match OpusError::check_status(status) {
            Ok(()) => {},
            Err(e) => {
                return Err(e);
            },
        }
        let encoder = BufferedOpusEncoder {
            codec,
            sample_buffer: Vec::with_capacity(FRAME_SIZE * 2),
            encoded_frames: Vec::new(),
            frame_marks: Vec::new(),
            log: Ghost(
                EncoderLog {
                    controls: seq![
                        ControlCall { request: ControlRequest::Bitrate, value: bitrate, status: 0 },
                    ],
                    accepted: Seq::empty(),
                    submitted: Seq::empty(),
                    results: Seq::empty(),
                    taken: 0,
                },
            ),
        };
        proof {
            lemma_initial_consistent(bitrate);
            assert(encoder@.ready =~= Seq::<Seq<u8>>::empty());
        }
        Ok(encoder)
    }

    /// Hands the frame at the front of the pending queue to the codec and
    /// files the answer.
    fn encode_front(&mut self) -> (r: Result<(), OpusError>)
        requires
            old(self)@.consistent(),
            old(self)@.pending.len() >= FRAME_SIZE,
        ensures
            final(self)@.results.len() == old(self)@.results.len() + 1,
            final(self)@ == old(self)@.step(final(self)@.results.last()),
            final(self)@.consistent(),
            match r {
                Ok(()) => final(self)@.results.last() is Ok,
                Err(e) => final(self)@.results.last() is Err && e == error_of_code(
                    final(self)@.results.last()->Err_0,
                ),
            },
    {
        let ghost before = self@;
        let rest = self.sample_buffer.split_off(FRAME_SIZE);
        let answer = self.codec.encode(self.sample_buffer.as_slice(), MAX_PACKET_SIZE);
        let ghost frame = self.sample_buffer@;
        let ghost result = result_view(answer);
        self.sample_buffer = rest;
        proof {
            let log = self.log@;
            self.log@ = EncoderLog {
                submitted: log.submitted.push(frame),
                results: log.results.push(result),
                ..log
            };
            assert(frame =~= before.pending.take(FRAME_SIZE as int));
            assert(self@.pending =~= before.pending.skip(FRAME_SIZE as int));
            lemma_step_consistent(before, result);
            let since = before.results.skip(before.taken as int);
            assert(self@.results.skip(before.taken as int) =~= since.push(result));
            assert(since.push(result).drop_last() =~= since);
        }
        match classify_output(answer) {
            Ok(Some(bytes)) => {
                self.encoded_frames.push(bytes);
                self.frame_marks.push(true);
                proof {
                    assert(self@.ready =~= before.ready.push(bytes@));
                }
                Ok(())
            },
            Ok(None) => {
                self.frame_marks.push(false);
                proof {
                    assert(self@.ready =~= before.ready);
                }
                Ok(())
            },
            Err(e) => {
                proof {
                    assert(self@.ready =~= before.ready);
                }
                Err(e)
            },
        }
    }

    /// Appends `samples` to the pending queue, then hands the codec every
    /// complete frame, first in first. The push ends at the first failure of
    /// the codec; what was done until then stays done.
    pub fn add_samples(&mut self, samples: &[i16]) -> (r: Result<(), OpusError>)
        requires
            old(self)@.consistent(),
        ensures
            push_effect(old(self)@, samples@, final(self)@, r),
    {
        let ghost before = self@;
        let mut i: usize = 0;
        while i < samples.len()
            invariant
                0 <= i <= samples@.len(),
                self@ == before.append(samples@.subrange(0, i as int)),
            decreases samples@.len() - i,
        {
            self.sample_buffer.push(samples[i]);
            proof {
                self.log@ = EncoderLog {
                    accepted: self.log@.accepted.push(samples@[i as int]),
                    ..self.log@
                };
                assert(self@.pending =~= before.pending + samples@.subrange(0, i as int + 1));
                assert(self@.accepted =~= before.accepted + samples@.subrange(0, i as int + 1));
            }
            i = i + 1;
        }
        let ghost start = before.append(samples@);
        proof {
            assert(samples@.subrange(0, i as int) =~= samples@);
            assert(self@.results_since(before) =~= Seq::<Result<Seq<u8>, i32>>::empty());
            lemma_append_consistent(before, samples@);
        }
        while self.sample_buffer.len() >= FRAME_SIZE
            invariant
                before == old(self)@,
                start == before.append(samples@),
                before.consistent(),
                self@.consistent(),
                self@.results.len() >= before.results.len(),
                self@ == start.feed(self@.results_since(before)),
                all_ok(self@.results_since(before)),
                self@.results_since(before).len() * FRAME_SIZE + self@.pending.len()
                    == start.pending.len(),
            decreases self@.pending.len(),
        {
            let ghost prev = self@;
            let step = self.encode_front();
            proof {
                let answers = self@.results_since(before);
                assert(answers =~= prev.results_since(before).push(self@.results.last()));
                assert(answers.drop_last() =~= prev.results_since(before));
                assert(answers.last() == self@.results.last());
                assert(start.feed(answers) == start.feed(answers.drop_last()).step(answers.last()));
                assert(answers.len() * FRAME_SIZE <= start.pending.len());
            }
            match step {
                Ok(()) => {},
                Err(e) => {
                    proof {
                        lemma_feed(start, self@.results_since(before));
                    }
                    return Err(e);
                },
            }
        }
        proof {
            lemma_feed(start, self@.results_since(before));
        }
        Ok(())
    }

    /// Pushes single-precision samples, given by their bit patterns: each is
    /// limited to the range from -1 to 1, scaled to 16 bits and pushed.
    pub fn add_samples_f32(&mut self, samples: &[u32]) -> (r: Result<(), OpusError>)
        requires
            old(self)@.consistent(),
        ensures
            push_effect(old(self)@, pcm_samples(samples@), final(self)@, r),
    {
        let pcm = convert_samples(samples);
        self.add_samples(pcm.as_slice())
    }

    /// Ends the stream: pads a partial frame with zeros to a complete one,
    /// then pushes two more frames of silence, which carry the last real
    /// audio out of the codec's look-ahead.
    pub fn finalize(&mut self) -> (r: Result<(), OpusError>)
        requires
            old(self)@.wf(),
        ensures
            push_effect(
                old(self)@,
                silence(flush_length(old(self)@.pending.len())),
                final(self)@,
                r,
            ),
            r is Ok ==> final(self)@.pending.len() == 0,
    {
        let held = self.sample_buffer.len();
        let count: usize = if held == 0 {
            2 * FRAME_SIZE
        } else {
            3 * FRAME_SIZE - held
        };
        let mut padding: Vec<i16> = Vec::with_capacity(count);
        let mut i: usize = 0;
        while i < count
            invariant
                0 <= i <= count,
                padding@ == silence(i as nat),
            decreases count - i,
        {
            padding.push(0);
            proof {
                assert(padding@ =~= silence((i + 1) as nat));
            }
            i = i + 1;
        }
        self.add_samples(padding.as_slice())
    }

    /// The codec's look-ahead in samples: what a decoder has to discard at
    /// the start of the stream. The value is the codec's to say; where the
    /// codec fails, the error is that of its status code.
    pub fn get_preskip(&self) -> (r: Result<i32, OpusError>)
        ensures
            r is Err ==> is_status_error(r->Err_0),
    {
        lookahead_result(self.codec.lookahead())
    }

    /// Hands out the ready frames and leaves the queue empty.
    pub fn take_frames(&mut self) -> (frames: Vec<Vec<u8>>)
        requires
            old(self)@.consistent(),
        ensures
            frame_views(frames@) == old(self)@.ready,
            final(self)@ == old(self)@.drained(),
            final(self)@.consistent(),
    {
        let (frames, _) = self.take_frames_with_marks();
        frames
    }

    /// Hands out the ready frames together with, for each frame that the
    /// codec accepted since the last take, whether it was kept; leaves both
    /// queues empty.
    pub fn take_frames_with_marks(&mut self) -> (r: (Vec<Vec<u8>>, Vec<bool>))
        requires
            old(self)@.consistent(),
        ensures
            frame_views(r.0@) == old(self)@.ready,
            r.1@ == old(self)@.marks,
            final(self)@ == old(self)@.drained(),
            final(self)@.consistent(),
    {
        let mut frames: Vec<Vec<u8>> = Vec::new();
        let mut marks: Vec<bool> = Vec::new();
        core::mem::swap(&mut self.encoded_frames, &mut frames);
        core::mem::swap(&mut self.frame_marks, &mut marks);
        proof {
            self.log@ = EncoderLog { taken: self.log@.results.len(), ..self.log@ };
            assert(self@.ready =~= Seq::<Seq<u8>>::empty());
            assert(self@.results.skip(self@.taken as int) =~= Seq::<
                Result<Seq<u8>, i32>,
            >::empty());
        }
        (frames, marks)
    }

    /// Sets the codec's target bitrate in bits per second: hands `bitrate`
    /// to the codec, files the call with the codec's answer, and succeeds
    /// where the codec took the value. The queues stay as they are.
    pub fn set_bitrate(&mut self, bitrate: i32) -> (r: Result<(), OpusError>)
        ensures
            control_effect(old(self)@, ControlRequest::Bitrate, bitrate, final(self)@, r),
    {
        let status = self.codec.set_bitrate(bitrate);
        proof {
            self.log@ = EncoderLog {
                controls: self.log@.controls.push(
                    ControlCall { request: ControlRequest::Bitrate, value: bitrate, status },
                ),
                ..self.log@
            };
            lemma_last_taken_push(old(self)@.controls, ControlRequest::Bitrate, bitrate, status);
        }
        OpusError::check_status(status)
    }

    /// Sets the codec's complexity, from 0 to 10: hands `complexity` to the
    /// codec, files the call with the codec's answer, and succeeds where the
    /// codec took the value. The queues stay as they are.
    pub fn set_complexity(&mut self, complexity: i32) -> (r: Result<(), OpusError>)
        ensures
            control_effect(old(self)@, ControlRequest::Complexity, complexity, final(self)@, r),
    {
        let status = self.codec.set_complexity(complexity);
        proof {
            self.log@ = EncoderLog {
                controls: self.log@.controls.push(
                    ControlCall { request: ControlRequest::Complexity, value: complexity, status },
                ),
                ..self.log@
            };
            lemma_last_taken_push(
                old(self)@.controls,
                ControlRequest::Complexity,
                complexity,
                status,
            );
        }
        OpusError::check_status(status)
    }

    /// The number of encoded frames ready to be taken.
    pub fn frame_count(&self) -> (n: usize)
        ensures
            n == self@.ready.len(),
    {
        self.encoded_frames.len()
    }

    /// The number of samples waiting for a complete frame.
    pub fn buffered_samples(&self) -> (n: usize)
        ensures
            n == self@.pending.len(),
    {
        self.sample_buffer.len()
    }
}

/// The kept frames of a run of answers that is followed by one more.
pub proof fn lemma_kept_push(results: Seq<Result<Seq<u8>, i32>>, last: Result<Seq<u8>, i32>)
    ensures
        kept_frames(results.push(last)) == match last {
            Ok(bytes) => if bytes.len() > MARKER_SIZE {
                kept_frames(results).push(bytes)
            } else {
                kept_frames(results)
            },
            Err(_) => kept_frames(results),
        },
        kept_marks(results.push(last)) == match last {
            Ok(bytes) => kept_marks(results).push(bytes.len() > MARKER_SIZE),
            Err(_) => kept_marks(results),
        },
{
    assert(results.push(last).drop_last() =~= results);
}

/// The kept frames and the marks of two runs of answers, one after the
/// other, are those of the first followed by those of the second.
pub proof fn lemma_kept_concat(a: Seq<Result<Seq<u8>, i32>>, b: Seq<Result<Seq<u8>, i32>>)
    ensures
        kept_frames(a + b) == kept_frames(a) + kept_frames(b),
        kept_marks(a + b) == kept_marks(a) + kept_marks(b),
    decreases b.len(),
{
    if b.len() == 0 {
        assert(a + b =~= a);
        assert(kept_frames(a) + kept_frames(b) =~= kept_frames(a));
        assert(kept_marks(a) + kept_marks(b) =~= kept_marks(a));
    } else {
        lemma_kept_concat(a, b.drop_last());
        assert((a + b).drop_last() =~= a + b.drop_last());
        assert((a + b).last() == b.last());
        assert(kept_frames(a) + kept_frames(b.drop_last()).push(b.last()->Ok_0) =~= (kept_frames(a)
            + kept_frames(b.drop_last())).push(b.last()->Ok_0));
        assert(kept_marks(a) + kept_marks(b.drop_last()).push(b.last()->Ok_0.len() > MARKER_SIZE)
            =~= (kept_marks(a) + kept_marks(b.drop_last())).push(
            b.last()->Ok_0.len() > MARKER_SIZE,
        ));
    }
}

/// What feeding does to each part of the state, when the pending queue
/// holds a complete frame for each answer: the frames leave the front of
/// the queue in order, the answers join the record, and the kept frames
/// join the ready queue.
pub proof fn lemma_feed(v: EncoderView, answers: Seq<Result<Seq<u8>, i32>>)
    requires
        answers.len() * FRAME_SIZE <= v.pending.len(),
    ensures
        v.feed(answers).pending == v.pending.skip(answers.len() * FRAME_SIZE),
        v.feed(answers).submitted == v.submitted + frames_of(v.pending).take(answers.len() as int),
        v.feed(answers).results == v.results + answers,
        v.feed(answers).ready == v.ready + kept_frames(answers),
        v.feed(answers).marks == v.marks + kept_marks(answers),
        v.feed(answers).accepted == v.accepted,
        v.feed(answers).controls == v.controls,
        v.feed(answers).taken == v.taken,
    decreases answers.len(),
{
    let n = answers.len() as int;
    let frames = frames_of(v.pending);
    if n == 0 {
        assert(v.pending.skip(0) =~= v.pending);
        assert(v.submitted + frames.take(0) =~= v.submitted);
        assert(v.results + answers =~= v.results);
        assert(v.ready + kept_frames(answers) =~= v.ready);
        assert(v.marks + kept_marks(answers) =~= v.marks);
    } else {
        let init = answers.drop_last();
        let last = answers.last();
        lemma_feed(v, init);
        lemma_kept_push(init, last);
        assert(init.push(last) =~= answers);
        let mid = v.feed(init);
        let end = mid.step(last);
        assert(end.pending =~= v.pending.skip(n * FRAME_SIZE));
        assert(mid.pending.take(FRAME_SIZE as int) =~= frames[n - 1]);
        assert(end.submitted =~= v.submitted + frames.take(n));
        assert(end.results =~= v.results + answers);
        assert(end.ready =~= v.ready + kept_frames(answers));
        assert(end.marks =~= v.marks + kept_marks(answers));
    }
}

/// While every pushed frame is encoded into more than a near-silence marker
/// and nothing has been taken, the frames ready are as many as the complete
/// frames among all samples pushed.
pub proof fn lemma_ready_count(v: EncoderView)
    requires
        v.wf(),
        v.taken == 0,
        forall|i: int|
            0 <= i < v.results.len() ==> match #[trigger] v.results[i] {
                Ok(bytes) => bytes.len() > MARKER_SIZE,
                Err(_) => false,
            },
    ensures
        v.ready.len() == v.accepted.len() / FRAME_SIZE as nat,
{
    assert(v.results.skip(0) =~= v.results);
    lemma_kept_all(v.results);
    assert(v.pending.len() == v.accepted.len() - v.results.len() * FRAME_SIZE);
}

/// Where every answer is a frame longer than a near-silence marker, every
/// frame is kept.
pub proof fn lemma_kept_all(results: Seq<Result<Seq<u8>, i32>>)
    requires
        forall|i: int|
            0 <= i < results.len() ==> match #[trigger] results[i] {
                Ok(bytes) => bytes.len() > MARKER_SIZE,
                Err(_) => false,
            },
    ensures
        kept_frames(results).len() == results.len(),
    decreases results.len(),
{
    if results.len() > 0 {
        lemma_kept_all(results.drop_last());
    }
}

/// A take leaves nothing to take: a second take, with no push between the
/// two, hands out no frame and changes nothing.
pub proof fn lemma_take_twice(v: EncoderView)
    ensures
        v.drained().ready == Seq::<Seq<u8>>::empty(),
        v.drained().drained() == v.drained(),
{
}

/// The number of `true` among `marks`.
pub open spec fn count_kept(marks: Seq<bool>) -> nat
    decreases marks.len(),
{
    if marks.len() == 0 {
        0
    } else {
        count_kept(marks.drop_last()) + if marks.last() {
            1nat
        } else {
            0nat
        }
    }
}

/// Among the marks of a run of answers there is one for each answer at
/// most, and as many say "kept" as there are kept frames.
pub proof fn lemma_marks_count(results: Seq<Result<Seq<u8>, i32>>)
    ensures
        kept_marks(results).len() <= results.len(),
        count_kept(kept_marks(results)) == kept_frames(results).len(),
    decreases results.len(),
{
    if results.len() > 0 {
        lemma_marks_count(results.drop_last());
        match results.last() {
            Ok(bytes) => {
                let init = kept_marks(results.drop_last());
                assert(init.push(bytes.len() > MARKER_SIZE).drop_last() =~= init);
            },
            Err(_) => {},
        }
    }
}

/// A prefix of a run of marks says "kept" no more often than the run.
pub proof fn lemma_count_kept_prefix(marks: Seq<bool>, n: int)
    requires
        0 <= n <= marks.len(),
    ensures
        count_kept(marks.take(n)) <= count_kept(marks),
    decreases marks.len(),
{
    if n < marks.len() {
        lemma_count_kept_prefix(marks.drop_last(), n);
        assert(marks.drop_last().take(n) =~= marks.take(n));
    } else {
        assert(marks.take(n) =~= marks);
    }
}

/// The complete frames of a queue stay what they are when more samples
/// follow, and the frames after the first `n` are those of the queue
/// without its first `n` frames.
pub proof fn lemma_frames_of_split(samples: Seq<i16>, more: Seq<i16>, n: nat)
    requires
        n * FRAME_SIZE <= samples.len(),
    ensures
        frames_of(samples + more).len() >= n,
        frames_of(samples).len() >= n,
        frames_of(samples + more).take(n as int) == frames_of(samples).take(n as int),
        frames_of(samples + more).skip(n as int) == frames_of(
            samples.skip(n * FRAME_SIZE) + more,
        ),
{
    let all = samples + more;
    let rest = samples.skip(n * FRAME_SIZE) + more;
    assert(rest.len() == all.len() - n * FRAME_SIZE);
    assert((all.len() - n * 960) / 960 == all.len() / 960 - n) by (nonlinear_arith)
        requires
            n * 960 <= all.len(),
    ;
    assert(samples.len() / 960 >= n) by (nonlinear_arith)
        requires
            n * 960 <= samples.len(),
    ;
    assert(all.len() / 960 >= n) by (nonlinear_arith)
        requires
            n * 960 <= all.len(),
    ;
    let a = frames_of(all).take(n as int);
    let b = frames_of(samples).take(n as int);
    assert forall|i: int| 0 <= i < n implies a[i] == b[i] by {
        assert(960 * i + 960 <= samples.len()) by (nonlinear_arith)
            requires
                0 <= i < n,
                n * 960 <= samples.len(),
        ;
        assert(all.subrange(960 * i, 960 * i + 960) =~= samples.subrange(960 * i, 960 * i + 960));
    }
    assert(a =~= b);
    let c = frames_of(all).skip(n as int);
    let d = frames_of(rest);
    assert(c.len() == d.len());
    assert forall|i: int| 0 <= i < c.len() implies c[i] == d[i] by {
        assert(960 * (i + n) + 960 <= all.len()) by (nonlinear_arith)
            requires
                0 <= i + n < all.len() / 960,
        ;
        assert(960 * (i + n) == 960 * i + n * 960) by (nonlinear_arith);
        assert(all.subrange(960 * (i + n), 960 * (i + n) + 960) =~= rest.subrange(
            960 * i,
            960 * i + 960,
        ));
    }
    assert(c =~= d);
}

/// Two pushes, one after the other, leave the encoder as one push of all
/// their samples does, when the codec gives the same answers: how the
/// samples are cut into pushes makes no difference.
pub proof fn lemma_push_split(
    v: EncoderView,
    first: Seq<i16>,
    first_answers: Seq<Result<Seq<u8>, i32>>,
    second: Seq<i16>,
    second_answers: Seq<Result<Seq<u8>, i32>>,
)
    requires
        first_answers.len() * FRAME_SIZE <= v.pending.len() + first.len(),
        (first_answers.len() + second_answers.len()) * FRAME_SIZE <= v.pending.len() + first.len()
            + second.len(),
    ensures
        v.append(first).feed(first_answers).append(second).feed(second_answers) == v.append(
            first + second,
        ).feed(first_answers + second_answers),
{
    let na = first_answers.len();
    let nb = second_answers.len();
    let queue = v.pending + first;
    let mid = v.append(first).feed(first_answers);
    lemma_feed(v.append(first), first_answers);
    assert(mid.pending.len() == queue.len() - na * 960);
    assert(nb * 960 <= mid.pending.len() + second.len()) by (nonlinear_arith)
        requires
            (na + nb) * 960 <= queue.len() + second.len(),
            mid.pending.len() == queue.len() - na * 960,
    ;
    lemma_feed(mid.append(second), second_answers);
    let left = mid.append(second).feed(second_answers);
    let whole = v.append(first + second);
    assert(whole.pending =~= queue + second);
    lemma_feed(whole, first_answers + second_answers);
    let right = whole.feed(first_answers + second_answers);
    lemma_kept_concat(first_answers, second_answers);
    lemma_frames_of_split(queue, second, na);
    assert(na * 960 + nb * 960 == (na + nb) * 960) by (nonlinear_arith);
    assert(left.pending =~= right.pending);
    assert(left.accepted =~= right.accepted);
    assert(left.results =~= right.results);
    assert(left.ready =~= right.ready);
    assert(left.marks =~= right.marks);
    let frames = frames_of(queue + second);
    assert(frames.take((na + nb) as int) =~= frames.take(na as int) + frames.skip(na as int).take(
        nb as int,
    ));
    assert(left.submitted =~= right.submitted);
}

/// A take before a push makes no difference to the state after the next
/// take.
pub proof fn lemma_drained_push(
    v: EncoderView,
    samples: Seq<i16>,
    answers: Seq<Result<Seq<u8>, i32>>,
)
    requires
        answers.len() * FRAME_SIZE <= v.pending.len() + samples.len(),
    ensures
        v.drained().append(samples).feed(answers).drained() == v.append(samples).feed(
            answers,
        ).drained(),
{
    lemma_feed(v.drained().append(samples), answers);
    lemma_feed(v.append(samples), answers);
}

/// The PCM samples of two runs of samples, one after the other, are those
/// of the first followed by those of the second.
pub proof fn lemma_pcm_concat(a: Seq<u32>, b: Seq<u32>)
    ensures
        pcm_samples(a + b) == pcm_samples(a) + pcm_samples(b),
        pcm_samples(a).len() == a.len(),
{
    assert(pcm_samples(a + b) =~= pcm_samples(a) + pcm_samples(b));
}

/// One more control call decides the setting's value where the codec took
/// it, and leaves the setting as it was where the codec did not; the other
/// settings it leaves as they were.
pub proof fn lemma_last_taken_push(
    controls: Seq<ControlCall>,
    request: ControlRequest,
    value: i32,
    status: i32,
)
    ensures
        last_taken(controls.push(ControlCall { request, value, status }), request) == if status
            == 0 {
            Some(value)
        } else {
            last_taken(controls, request)
        },
        forall|other: ControlRequest|
            other != request ==> #[trigger] last_taken(
                controls.push(ControlCall { request, value, status }),
                other,
            ) == last_taken(controls, other),
{
    let call = ControlCall { request, value, status };
    assert(controls.push(call).drop_last() =~= controls);
}

/// A new encoder works at the bitrate with which it was made.
pub proof fn lemma_initial_bitrate(bitrate: i32)
    ensures
        EncoderView::initial(bitrate).bitrate() == Some(bitrate),
        EncoderView::initial(bitrate).complexity() == None::<i32>,
{
    reveal_with_fuel(last_taken, 3);
}

/// The state in which an encoder starts is consistent.
pub proof fn lemma_initial_consistent(bitrate: i32)
    ensures
        EncoderView::initial(bitrate).wf(),
{
    let v = EncoderView::initial(bitrate);
    assert(v.results.skip(0) =~= Seq::<Result<Seq<u8>, i32>>::empty());
    assert(v.submitted =~= frames_of(v.accepted).take(0));
    assert(v.pending =~= v.accepted.skip(0));
}

/// More samples leave a consistent state consistent.
pub proof fn lemma_append_consistent(v: EncoderView, samples: Seq<i16>)
    requires
        v.consistent(),
    ensures
        v.append(samples).consistent(),
{
    let n = v.results.len();
    lemma_frames_of_split(v.accepted, samples, n);
    assert(v.pending + samples =~= (v.accepted + samples).skip(n * FRAME_SIZE));
}

/// One frame to the codec and its answer back leave the frames submitted
/// and the samples pending in step with the samples accepted.
pub proof fn lemma_step_consistent(v: EncoderView, result: Result<Seq<u8>, i32>)
    requires
        v.consistent(),
        v.pending.len() >= FRAME_SIZE,
    ensures
        v.step(result).results.len() * FRAME_SIZE <= v.accepted.len(),
        v.step(result).submitted == frames_of(v.accepted).take(v.results.len() as int + 1),
        v.step(result).pending == v.accepted.skip((v.results.len() + 1) * FRAME_SIZE),
{
    let n = v.results.len() as int;
    let frames = frames_of(v.accepted);
    assert(v.accepted.len() >= n * 960 + 960);
    assert(v.accepted.len() / 960 > n) by (nonlinear_arith)
        requires
            v.accepted.len() >= n * 960 + 960,
    ;
    assert(960 * n + 960 == (n + 1) * 960) by (nonlinear_arith);
    assert(v.pending.take(960) =~= v.accepted.subrange(960 * n, 960 * n + 960));
    assert(frames.take(n + 1) =~= frames.take(n).push(frames[n]));
    assert(v.pending.skip(960) =~= v.accepted.skip((n + 1) * 960));
}

/// Where every answer is a success, there is a mark for each.
pub proof fn lemma_all_ok_marks(results: Seq<Result<Seq<u8>, i32>>)
    requires
        all_ok(results),
    ensures
        kept_marks(results).len() == results.len(),
    decreases results.len(),
{
    if results.len() > 0 {
        assert(results.last() is Ok);
        lemma_all_ok_marks(results.drop_last());
    }
}

} // verus!
