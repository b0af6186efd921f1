use muse_lib::opus::{
    classify_output, lookahead_result, BufferedOpusEncoder, FrameCodec, OpusError,
    APPLICATION_AUDIO, FRAME_SIZE, MAX_PACKET_SIZE, SAMPLE_RATE,
};

/// A stand-in codec: every frame becomes a header byte and a digest of the
/// samples, so that nothing is ever as short as a near-silence marker.
struct ToyCodec {
    bitrate: i32,
    complexity: i32,
}

fn digest(frame: &[i16]) -> Vec<u8> {
    let mut sum: u32 = 0;
    for sample in frame {
        sum = sum.wrapping_mul(31).wrapping_add(*sample as u16 as u32);
    }
    let mut bytes = vec![0xF8];
    bytes.extend_from_slice(&sum.to_be_bytes());
    bytes
}

impl FrameCodec for ToyCodec {
    fn create(sample_rate: i32, channels: i32, application: i32) -> Result<Self, i32> {
        if sample_rate != 48000 || channels != 1 || application != 2049 {
            return Err(-1);
        }
        Ok(ToyCodec { bitrate: 0, complexity: 10 })
    }

    fn set_bitrate(&mut self, bitrate: i32) -> i32 {
        if bitrate < 500 || bitrate > 512000 {
            return -1;
        }
        self.bitrate = bitrate;
        0
    }

    fn set_complexity(&mut self, complexity: i32) -> i32 {
        if complexity < 0 || complexity > 10 {
            return -1;
        }
        self.complexity = complexity;
        0
    }

    fn lookahead(&self) -> Result<i32, i32> {
        Ok(312)
    }

    fn encode(&mut self, frame: &[i16], max_size: usize) -> Result<Vec<u8>, i32> {
        assert_eq!(frame.len(), 960);
        assert_eq!(max_size, 4000);
        Ok(digest(frame))
    }
}

/// A stand-in codec that answers silence with a one-byte marker.
struct QuietCodec;

impl FrameCodec for QuietCodec {
    fn create(_sample_rate: i32, _channels: i32, _application: i32) -> Result<Self, i32> {
        Ok(QuietCodec)
    }

    fn set_bitrate(&mut self, _bitrate: i32) -> i32 {
        0
    }

    fn set_complexity(&mut self, _complexity: i32) -> i32 {
        0
    }

    fn lookahead(&self) -> Result<i32, i32> {
        Ok(120)
    }

    fn encode(&mut self, frame: &[i16], _max_size: usize) -> Result<Vec<u8>, i32> {
        if frame.iter().all(|sample| *sample == 0) {
            Ok(vec![0xF8])
        } else if frame[0] == 1 {
            Ok(vec![0xF8, 0x00])
        } else {
            Ok(vec![0xF8, 0x01, 0x02])
        }
    }
}

/// A stand-in codec that cannot be created.
struct AbsentCodec;

impl FrameCodec for AbsentCodec {
    fn create(_sample_rate: i32, _channels: i32, _application: i32) -> Result<Self, i32> {
        Err(-7)
    }

    fn set_bitrate(&mut self, _bitrate: i32) -> i32 {
        0
    }

    fn set_complexity(&mut self, _complexity: i32) -> i32 {
        0
    }

    fn lookahead(&self) -> Result<i32, i32> {
        Err(-6)
    }

    fn encode(&mut self, _frame: &[i16], _max_size: usize) -> Result<Vec<u8>, i32> {
        Err(-6)
    }
}

/// A stand-in codec that fails on its third frame and on every control call
/// after creation, and that answers its second frame with too many bytes.
struct FaultyCodec {
    frames: usize,
    controls: usize,
}

impl FrameCodec for FaultyCodec {
    fn create(_sample_rate: i32, _channels: i32, _application: i32) -> Result<Self, i32> {
        Ok(FaultyCodec { frames: 0, controls: 0 })
    }

    fn set_bitrate(&mut self, _bitrate: i32) -> i32 {
        self.controls += 1;
        if self.controls > 1 {
            -5
        } else {
            0
        }
    }

    fn set_complexity(&mut self, _complexity: i32) -> i32 {
        -42
    }

    fn lookahead(&self) -> Result<i32, i32> {
        Err(-6)
    }

    fn encode(&mut self, _frame: &[i16], max_size: usize) -> Result<Vec<u8>, i32> {
        self.frames += 1;
        match self.frames {
            1 => Ok(vec![1, 2, 3, 4]),
            2 => Ok(vec![0; max_size]),
            3 => Err(-3),
            4 => Ok(vec![0; max_size + 1]),
            _ => Ok(vec![9, 9, 9]),
        }
    }
}

#[test]
fn test_encoder_creation() {
    let encoder = BufferedOpusEncoder::<ToyCodec>::new(64000);
    assert!(encoder.is_ok());
}

#[test]
fn test_encode_exact_frame() {
    let mut encoder = BufferedOpusEncoder::<ToyCodec>::new(64000).unwrap();
    let samples = vec![0i16; FRAME_SIZE];

    assert_eq!(encoder.frame_count(), 0);
    encoder.add_samples(&samples).unwrap();
    assert_eq!(encoder.frame_count(), 1);

    let frames = encoder.take_frames();
    assert_eq!(frames.len(), 1);
}

#[test]
fn opus_test_add_samples_f32() {
    let mut encoder = BufferedOpusEncoder::<ToyCodec>::new(64000).unwrap();
    let samples = vec![0.5f32.to_bits(); FRAME_SIZE];

    encoder.add_samples_f32(&samples).unwrap();
    assert_eq!(encoder.frame_count(), 1);

    let frames = encoder.take_frames();
    assert_eq!(frames.len(), 1);
}

#[test]
fn test_get_preskip() {
    let encoder = BufferedOpusEncoder::<ToyCodec>::new(64000).unwrap();
    let preskip = encoder.get_preskip().unwrap();
    // Preskip should be positive and reasonable (typically 312 for 48kHz)
    assert!(preskip > 0);
    assert!(preskip < 1000);
}

#[test]
fn test_encode_irregular_chunks() {
    let mut encoder = BufferedOpusEncoder::<ToyCodec>::new(64000).unwrap();

    // Add various sized chunks with non-zero values to avoid DTX
    encoder.add_samples(&vec![100i16; 300]).unwrap();
    assert_eq!(encoder.frame_count(), 0); // Not enough for a frame

    encoder.add_samples(&vec![200i16; 700]).unwrap();
    assert_eq!(encoder.frame_count(), 1); // 1000 samples: one frame, 40 buffered

    encoder.add_samples(&vec![300i16; 500]).unwrap();
    assert_eq!(encoder.frame_count(), 1); // 1500 samples: still one frame, 540 buffered

    encoder.add_samples(&vec![400i16; 500]).unwrap();
    assert_eq!(encoder.frame_count(), 2); // 2000 samples: two frames, 80 buffered
    assert_eq!(encoder.buffered_samples(), 80);
}

#[test]
fn test_finalize_with_remainder() {
    let mut encoder = BufferedOpusEncoder::<ToyCodec>::new(64000).unwrap();

    // Add samples that don't make a complete frame
    encoder.add_samples(&vec![0i16; 100]).unwrap();
    assert_eq!(encoder.frame_count(), 0);

    // Finalize should pad and encode the partial frame + 2 silent frames
    encoder.finalize().unwrap();
    assert_eq!(encoder.frame_count(), 3); // 1 partial + 2 silent
    assert_eq!(encoder.buffered_samples(), 0);
}

#[test]
fn test_take_frames_clears() {
    let mut encoder = BufferedOpusEncoder::<ToyCodec>::new(64000).unwrap();
    encoder.add_samples(&vec![0i16; FRAME_SIZE * 2]).unwrap();

    assert_eq!(encoder.frame_count(), 2);
    let frames = encoder.take_frames();
    assert_eq!(frames.len(), 2);
    assert_eq!(encoder.frame_count(), 0);
}

#[test]
fn frames_ready_are_the_complete_frames_pushed() {
    let mut encoder = BufferedOpusEncoder::<ToyCodec>::new(64000).unwrap();
    let pushes = [1usize, 959, 960, 2000, 7, 0, 4801, 33];
    let mut total = 0;
    for (index, length) in pushes.iter().enumerate() {
        encoder.add_samples(&vec![(index as i16 + 1) * 50; *length]).unwrap();
        total += length;
        assert_eq!(encoder.frame_count(), total / 960);
        assert_eq!(encoder.buffered_samples(), total % 960);
    }
}

#[test]
fn second_take_is_empty() {
    let mut encoder = BufferedOpusEncoder::<ToyCodec>::new(64000).unwrap();
    encoder.add_samples(&vec![5i16; 3000]).unwrap();
    let first = encoder.take_frames();
    assert_eq!(first.len(), 3);
    let second = encoder.take_frames();
    assert!(second.is_empty());
    assert_eq!(encoder.buffered_samples(), 120);
}

#[test]
fn frames_come_out_in_order_with_the_codec_s_bytes() {
    let mut encoder = BufferedOpusEncoder::<ToyCodec>::new(64000).unwrap();
    let mut samples = vec![11i16; 960];
    samples.extend(vec![22i16; 960]);
    encoder.add_samples(&samples[..1000]).unwrap();
    encoder.add_samples(&samples[1000..]).unwrap();
    let frames = encoder.take_frames();
    assert_eq!(frames.len(), 2);
    assert_eq!(frames[0], digest(&vec![11i16; 960]));
    assert_eq!(frames[1], digest(&vec![22i16; 960]));
}

#[test]
fn finalize_pads_with_zeros_and_flushes_two_frames() {
    let mut encoder = BufferedOpusEncoder::<ToyCodec>::new(64000).unwrap();
    encoder.add_samples(&vec![7i16; 100]).unwrap();
    encoder.finalize().unwrap();
    let frames = encoder.take_frames();
    let mut padded = vec![7i16; 100];
    padded.resize(960, 0);
    assert_eq!(frames.len(), 3);
    assert_eq!(frames[0], digest(&padded));
    assert_eq!(frames[1], digest(&vec![0i16; 960]));
    assert_eq!(frames[2], digest(&vec![0i16; 960]));
}

#[test]
fn finalize_without_remainder_gives_two_frames() {
    let mut encoder = BufferedOpusEncoder::<ToyCodec>::new(64000).unwrap();
    encoder.add_samples(&vec![7i16; 960]).unwrap();
    assert_eq!(encoder.take_frames().len(), 1);
    encoder.finalize().unwrap();
    assert_eq!(encoder.frame_count(), 2);
    assert_eq!(encoder.buffered_samples(), 0);
}

#[test]
fn near_silence_markers_are_dropped() {
    let mut encoder = BufferedOpusEncoder::<QuietCodec>::new(64000).unwrap();
    let mut samples = vec![0i16; 960];
    samples.extend(vec![1i16; 960]);
    samples.extend(vec![2i16; 960]);
    samples.extend(vec![0i16; 960]);
    encoder.add_samples(&samples).unwrap();
    assert_eq!(encoder.frame_count(), 1);
    let (frames, marks) = encoder.take_frames_with_marks();
    assert_eq!(frames, vec![vec![0xF8, 0x01, 0x02]]);
    assert_eq!(marks, vec![false, false, true, false]);
    let (frames, marks) = encoder.take_frames_with_marks();
    assert!(frames.is_empty());
    assert!(marks.is_empty());
}

#[test]
fn float_samples_are_scaled_and_cut() {
    let mut encoder = BufferedOpusEncoder::<ToyCodec>::new(64000).unwrap();
    let samples = vec![0.5f32.to_bits(); 960];
    encoder.add_samples_f32(&samples).unwrap();
    assert_eq!(encoder.take_frames(), vec![digest(&vec![16383i16; 960])]);
    let loud = vec![(-3.0f32).to_bits(); 960];
    encoder.add_samples_f32(&loud).unwrap();
    assert_eq!(encoder.take_frames(), vec![digest(&vec![-32767i16; 960])]);
}

#[test]
fn creation_reports_the_codec_s_failure() {
    match BufferedOpusEncoder::<AbsentCodec>::new(64000) {
        Err(e) => assert_eq!(e, OpusError::AllocFail),
        Ok(_) => panic!("an encoder without a codec"),
    }
    match BufferedOpusEncoder::<ToyCodec>::new(1) {
        Err(e) => assert_eq!(e, OpusError::BadArg),
        Ok(_) => panic!("an encoder with a bitrate that the codec refused"),
    }
}

#[test]
fn the_codec_is_created_for_mono_audio_at_the_native_rate() {
    assert_eq!(SAMPLE_RATE, 48000);
    assert_eq!(APPLICATION_AUDIO, 2049);
    assert_eq!(MAX_PACKET_SIZE, 4000);
    // ToyCodec refuses any other configuration.
    assert!(BufferedOpusEncoder::<ToyCodec>::new(64000).is_ok());
}

#[test]
fn a_failing_frame_ends_the_push() {
    let mut encoder = BufferedOpusEncoder::<FaultyCodec>::new(64000).unwrap();
    let result = encoder.add_samples(&vec![3i16; 960 * 4 + 10]);
    assert_eq!(result, Err(OpusError::InternalError));
    // Two frames were encoded, the third was taken and failed.
    assert_eq!(encoder.frame_count(), 2);
    assert_eq!(encoder.buffered_samples(), 970);
    let frames = encoder.take_frames();
    assert_eq!(frames[0], vec![1, 2, 3, 4]);
    assert_eq!(frames[1].len(), 4000);
    // The next frame comes back longer than was asked for.
    let result = encoder.add_samples(&[]);
    assert_eq!(result, Err(OpusError::BufferTooSmall));
    assert_eq!(encoder.frame_count(), 0);
    assert_eq!(encoder.buffered_samples(), 10);
}

#[test]
fn control_calls_report_their_status() {
    let mut encoder = BufferedOpusEncoder::<ToyCodec>::new(64000).unwrap();
    assert_eq!(encoder.set_bitrate(32000), Ok(()));
    assert_eq!(encoder.set_bitrate(0), Err(OpusError::BadArg));
    assert_eq!(encoder.set_complexity(5), Ok(()));
    assert_eq!(encoder.set_complexity(11), Err(OpusError::BadArg));
    let mut faulty = BufferedOpusEncoder::<FaultyCodec>::new(64000).unwrap();
    assert_eq!(faulty.set_bitrate(64000), Err(OpusError::Unimplemented));
    assert_eq!(faulty.set_complexity(3), Err(OpusError::Unknown(-42)));
    assert_eq!(faulty.get_preskip(), Err(OpusError::InvalidState));
}

#[test]
fn every_status_code_has_its_error() {
    assert_eq!(OpusError::from_code(-1), OpusError::BadArg);
    assert_eq!(OpusError::from_code(-2), OpusError::BufferTooSmall);
    assert_eq!(OpusError::from_code(-3), OpusError::InternalError);
    assert_eq!(OpusError::from_code(-4), OpusError::InvalidPacket);
    assert_eq!(OpusError::from_code(-5), OpusError::Unimplemented);
    assert_eq!(OpusError::from_code(-6), OpusError::InvalidState);
    assert_eq!(OpusError::from_code(-7), OpusError::AllocFail);
    assert_eq!(OpusError::from_code(-8), OpusError::Unknown(-8));
    assert_eq!(OpusError::from_code(0), OpusError::Unknown(0));
    assert_eq!(OpusError::from_code(17), OpusError::Unknown(17));
    assert_eq!(OpusError::check_status(0), Ok(()));
    assert_eq!(OpusError::check_status(-4), Err(OpusError::InvalidPacket));
    assert_eq!(OpusError::check_status(1), Err(OpusError::Unknown(1)));
}

#[test]
fn answers_are_sorted_into_kept_dropped_and_failed() {
    assert_eq!(classify_output(Ok(vec![1, 2, 3])), Ok(Some(vec![1, 2, 3])));
    assert_eq!(classify_output(Ok(vec![1, 2])), Ok(None));
    assert_eq!(classify_output(Ok(vec![])), Ok(None));
    assert_eq!(classify_output(Ok(vec![0; 4000])), Ok(Some(vec![0; 4000])));
    assert_eq!(classify_output(Ok(vec![0; 4001])), Err(OpusError::BufferTooSmall));
    assert_eq!(classify_output(Err(-6)), Err(OpusError::InvalidState));
    assert_eq!(lookahead_result(Ok(312)), Ok(312));
    assert_eq!(lookahead_result(Err(-1)), Err(OpusError::BadArg));
}

#[test]
fn an_encoder_is_made_where_the_bitrate_was_taken() {
    let codec = ToyCodec::create(SAMPLE_RATE, 1, APPLICATION_AUDIO).unwrap();
    let encoder = BufferedOpusEncoder::with_codec(codec, 64000, 0).unwrap();
    assert_eq!(encoder.frame_count(), 0);
    assert_eq!(encoder.buffered_samples(), 0);
    let codec = ToyCodec::create(SAMPLE_RATE, 1, APPLICATION_AUDIO).unwrap();
    match BufferedOpusEncoder::with_codec(codec, 64000, -6) {
        Err(e) => assert_eq!(e, OpusError::InvalidState),
        Ok(_) => panic!("an encoder after a refused bitrate"),
    }
    let codec = ToyCodec::create(SAMPLE_RATE, 1, APPLICATION_AUDIO).unwrap();
    match BufferedOpusEncoder::with_codec(codec, 64000, 3) {
        Err(e) => assert_eq!(e, OpusError::Unknown(3)),
        Ok(_) => panic!("an encoder after a refused bitrate"),
    }
}

#[test]
fn the_cut_of_pushes_makes_no_difference() {
    let samples: Vec<i16> = (0..5000).map(|index| (index * 7 % 2000) as i16).collect();
    let mut whole = BufferedOpusEncoder::<ToyCodec>::new(64000).unwrap();
    whole.add_samples(&samples).unwrap();
    let mut parts = BufferedOpusEncoder::<ToyCodec>::new(64000).unwrap();
    for part in samples.chunks(333) {
        parts.add_samples(part).unwrap();
    }
    assert_eq!(whole.buffered_samples(), parts.buffered_samples());
    assert_eq!(whole.take_frames(), parts.take_frames());
}
