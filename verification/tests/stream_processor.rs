use muse_lib::opus::FrameCodec;
use muse_lib::stream_processor::{
    add_capped, AudioStreamProcessor, ChunkResampler, ProcessorError, ProcessorStats,
};

/// A stand-in codec: every frame becomes three bytes.
struct ToyCodec;

impl FrameCodec for ToyCodec {
    fn create(_sample_rate: i32, _channels: i32, _application: i32) -> Result<Self, i32> {
        Ok(ToyCodec)
    }

    fn set_bitrate(&mut self, bitrate: i32) -> i32 {
        if bitrate <= 0 {
            -1
        } else {
            0
        }
    }

    fn set_complexity(&mut self, _complexity: i32) -> i32 {
        0
    }

    fn lookahead(&self) -> Result<i32, i32> {
        Ok(312)
    }

    fn encode(&mut self, _frame: &[i16], _max_size: usize) -> Result<Vec<u8>, i32> {
        Ok(vec![0xF8, 0xFF, 0xFE])
    }
}

/// A stand-in resampler that doubles the rate by repeating each sample and
/// holds the last four samples of its output back until it is asked for
/// them.
struct Doubler {
    chunk_size: usize,
    held: Vec<u32>,
}

impl Doubler {
    fn emit(&mut self, chunk: &[u32]) -> Vec<u32> {
        let mut all = std::mem::take(&mut self.held);
        for sample in chunk {
            all.push(*sample);
            all.push(*sample);
        }
        let keep = all.len().min(4);
        self.held = all.split_off(all.len() - keep);
        all
    }
}

impl ChunkResampler for Doubler {
    fn create(input_rate: u32, target_rate: u32, chunk_size: usize) -> Result<Self, String> {
        if target_rate != 2 * input_rate {
            return Err(format!("cannot resample {} to {}", input_rate, target_rate));
        }
        Ok(Doubler { chunk_size, held: Vec::new() })
    }

    fn process(&mut self, chunk: &[u32]) -> Result<Vec<u32>, String> {
        if chunk.len() != self.chunk_size {
            return Err("wrong chunk size".to_string());
        }
        if f32::from_bits(chunk[0]).is_nan() {
            return Err("not a number".to_string());
        }
        Ok(self.emit(chunk))
    }

    fn process_partial(&mut self, chunk: Option<&[u32]>) -> Result<Vec<u32>, String> {
        match chunk {
            Some(chunk) => Ok(self.emit(chunk)),
            None => Ok(std::mem::take(&mut self.held)),
        }
    }
}

type Processor = AudioStreamProcessor<Doubler, ToyCodec>;

fn find(haystack: &[u8], needle: &[u8]) -> Option<usize> {
    haystack.windows(needle.len()).position(|window| window == needle)
}

fn duration_of(data: &[u8]) -> f64 {
    let at = find(data, &[0x44, 0x89, 0x88]).unwrap();
    let mut bits = [0u8; 8];
    bits.copy_from_slice(&data[at + 3..at + 11]);
    f64::from_be_bytes(bits)
}

#[test]
fn a_new_processor_is_empty() {
    let processor = Processor::new(24000, 48000, 64000, 960).unwrap();
    let stats = processor.stats();
    assert_eq!(stats.samples_received, 0);
    assert_eq!(stats.samples_resampled, 0);
    assert_eq!(stats.chunks_processed, 0);
    assert_eq!(stats.buffer_fill, 0);
    assert_eq!(stats.buffer_capacity, 960);
    assert_eq!(stats.webm_buffer_size, 6);
    assert_eq!(processor.buffer_stats(), (0, 6));
}

#[test]
fn construction_failures_are_reported() {
    match Processor::new(44100, 48000, 64000, 960) {
        Err(ProcessorError::Resample(message)) => {
            assert_eq!(message, "cannot resample 44100 to 48000")
        }
        _ => panic!("a processor without a resampler"),
    }
    match Processor::new(24000, 48000, 0, 960) {
        Err(ProcessorError::Encode(e)) => assert_eq!(e, muse_lib::opus::OpusError::BadArg),
        _ => panic!("a processor without a muxer"),
    }
    // With equal rates no resampler is asked for.
    assert!(Processor::new(44100, 44100, 64000, 960).is_ok());
}

#[test]
fn pushes_are_cut_into_chunks() {
    let mut processor = Processor::new(24000, 48000, 64000, 100).unwrap();
    let silence = vec![0.0f32.to_bits(); 1000];
    assert_eq!(processor.push_samples(&silence[..99]), Ok(0));
    assert_eq!(processor.buffer_stats().0, 99);
    assert_eq!(processor.push_samples(&silence[..1]), Ok(100));
    assert_eq!(processor.buffer_stats().0, 0);
    assert_eq!(processor.push_samples(&silence[..250]), Ok(200));
    assert_eq!(processor.push_samples(&silence[..1000]), Ok(1000));
    assert_eq!(processor.push_samples(&[]), Ok(0));
    let stats = processor.stats();
    assert_eq!(stats.samples_received, 1350);
    assert_eq!(stats.chunks_processed, 13);
    assert_eq!(stats.buffer_fill, 50);
    // Twice the samples of 13 chunks, less the four that the resampler holds.
    assert_eq!(stats.samples_resampled, 2596);
    assert_eq!(stats.buffer_fill_pct(), 50);
}

#[test]
fn bypass_hands_on_every_sample() {
    let mut processor = Processor::new(48000, 48000, 64000, 960).unwrap();
    let tone = vec![0.25f32.to_bits(); 5000];
    assert_eq!(processor.push_samples(&tone), Ok(4800));
    let stats = processor.stats();
    assert_eq!(stats.samples_received, 5000);
    assert_eq!(stats.samples_resampled, 4800);
    assert_eq!(stats.buffer_fill, 200);
    assert_eq!(processor.flush(), Ok(()));
    let stats = processor.stats();
    assert_eq!(stats.samples_resampled, stats.samples_received);
    assert_eq!(stats.samples_resampled, 5000);
    assert_eq!(stats.chunks_processed, 6);
    assert_eq!(stats.buffer_fill, 0);
    let data = processor.finalize().unwrap();
    assert_eq!(&data[0..4], &[0x1A, 0x45, 0xDF, 0xA3]);
    // 5000 samples are five frames and a sixth, padded; two more end the stream.
    assert_eq!(duration_of(&data), (7680.0f64 / 48000.0) * 1000.0);
}

#[test]
fn the_resampler_is_drained_at_the_end() {
    let mut processor = Processor::new(24000, 48000, 64000, 960).unwrap();
    let tone = vec![0.25f32.to_bits(); 1000];
    assert_eq!(processor.push_samples(&tone), Ok(960));
    assert_eq!(processor.stats().samples_resampled, 1916);
    assert_eq!(processor.flush(), Ok(()));
    let stats = processor.stats();
    // The partial chunk, and then what the resampler held.
    assert_eq!(stats.samples_resampled, 2000);
    assert_eq!(stats.chunks_processed, 2);
    assert_eq!(stats.buffer_fill, 0);
}

#[test]
fn a_second_of_silence_end_to_end() {
    let mut processor = Processor::new(24000, 48000, 64000, 960).unwrap();
    let silence = vec![0.0f32.to_bits(); 24000];
    let mut pushed = 0;
    for part in silence.chunks(777) {
        pushed += processor.push_samples(part).unwrap();
    }
    assert_eq!(pushed, 24000);
    assert_eq!(processor.flush(), Ok(()));
    assert_eq!(processor.stats().samples_resampled, 48000);
    let data = processor.finalize().unwrap();
    assert!(!data.is_empty());
    assert_eq!(&data[0..4], &[0x1A, 0x45, 0xDF, 0xA3]);
    // Fifty frames of audio, and the two frames of silence that carry the
    // last audio out of the codec.
    assert_eq!(duration_of(&data), (49920.0f64 / 48000.0) * 1000.0);
    assert!((duration_of(&data) - 1040.0).abs() < 0.001);
}

#[test]
fn a_resampler_failure_ends_the_push() {
    let mut processor = Processor::new(24000, 48000, 64000, 10).unwrap();
    let mut samples = vec![0.5f32.to_bits(); 20];
    samples.extend(vec![f32::NAN.to_bits(); 10]);
    samples.extend(vec![0.5f32.to_bits(); 15]);
    match processor.push_samples(&samples) {
        Err(ProcessorError::Resample(message)) => assert_eq!(message, "not a number"),
        _ => panic!("a chunk that is not a number went through"),
    }
    let stats = processor.stats();
    assert_eq!(stats.samples_received, 45);
    assert_eq!(stats.chunks_processed, 2);
    assert_eq!(stats.buffer_fill, 15);
}

#[test]
fn counts_stop_at_the_largest() {
    assert_eq!(add_capped(2, 3), 5);
    assert_eq!(add_capped(usize::MAX, 0), usize::MAX);
    assert_eq!(add_capped(usize::MAX - 1, 1), usize::MAX);
    assert_eq!(add_capped(usize::MAX - 1, 2), usize::MAX);
    assert_eq!(add_capped(usize::MAX, usize::MAX), usize::MAX);
}

#[test]
fn fill_in_percent() {
    let stats = ProcessorStats {
        samples_received: 0,
        samples_resampled: 0,
        chunks_processed: 0,
        buffer_fill: 1,
        buffer_capacity: 3,
        webm_buffer_size: 0,
    };
    assert_eq!(stats.buffer_fill_pct(), 33);
    let none = ProcessorStats { buffer_capacity: 0, ..stats.clone() };
    assert_eq!(none.buffer_fill_pct(), 0);
}

#[test]
fn a_processor_without_a_resampler_passes_samples_through() {
    let writer = muse_lib::webm::WebmWriter::<ToyCodec>::new(64000).unwrap();
    let mut processor = Processor::with_parts(None, writer, 44100, 48000, 10);
    assert_eq!(processor.push_samples(&vec![0.5f32.to_bits(); 25]), Ok(20));
    let stats = processor.stats();
    assert_eq!(stats.samples_resampled, 20);
    assert_eq!(stats.chunks_processed, 2);
    let writer = muse_lib::webm::WebmWriter::<ToyCodec>::new(64000).unwrap();
    let doubler = Doubler::create(24000, 48000, 10).unwrap();
    let mut processor = Processor::with_parts(Some(doubler), writer, 24000, 48000, 10);
    assert_eq!(processor.push_samples(&vec![0.5f32.to_bits(); 25]), Ok(20));
    assert_eq!(processor.stats().samples_resampled, 36);
}

/// A stand-in resampler that writes down what it is asked for, gives each
/// chunk back as it is, and holds a number of samples for each of its first
/// drains.
struct Recorder {
    log: std::rc::Rc<std::cell::RefCell<Vec<String>>>,
    drains: Vec<usize>,
}

impl ChunkResampler for Recorder {
    fn create(_input_rate: u32, _target_rate: u32, _chunk_size: usize) -> Result<Self, String> {
        Err("made by hand only".to_string())
    }

    fn process(&mut self, chunk: &[u32]) -> Result<Vec<u32>, String> {
        self.log.borrow_mut().push(format!("chunk {:?}", chunk));
        Ok(chunk.to_vec())
    }

    fn process_partial(&mut self, chunk: Option<&[u32]>) -> Result<Vec<u32>, String> {
        match chunk {
            Some(chunk) => {
                self.log.borrow_mut().push(format!("partial {:?}", chunk));
                Ok(chunk.to_vec())
            }
            None => {
                self.log.borrow_mut().push("drain".to_string());
                if self.drains.is_empty() {
                    Ok(Vec::new())
                } else {
                    Ok(vec![0; self.drains.remove(0)])
                }
            }
        }
    }
}

fn recording(
    drains: Vec<usize>,
) -> (AudioStreamProcessor<Recorder, ToyCodec>, std::rc::Rc<std::cell::RefCell<Vec<String>>>) {
    let log = std::rc::Rc::new(std::cell::RefCell::new(Vec::new()));
    let writer = muse_lib::webm::WebmWriter::<ToyCodec>::new(64000).unwrap();
    let recorder = Recorder { log: log.clone(), drains };
    (AudioStreamProcessor::with_parts(Some(recorder), writer, 44100, 48000, 3), log)
}

#[test]
fn the_resampler_is_given_the_windows_of_the_queue_in_order() {
    let (mut processor, log) = recording(vec![]);
    assert_eq!(processor.push_samples(&[1, 2]), Ok(0));
    assert_eq!(processor.push_samples(&[3, 4, 5, 6, 7]), Ok(6));
    assert_eq!(processor.push_samples(&[8, 9, 10, 11]), Ok(3));
    assert_eq!(
        *log.borrow(),
        vec!["chunk [1, 2, 3]", "chunk [4, 5, 6]", "chunk [7, 8, 9]"]
    );
    let stats = processor.stats();
    assert_eq!(stats.samples_resampled, 9);
    assert_eq!(stats.chunks_processed, 3);
    assert_eq!(stats.buffer_fill, 2);
}

#[test]
fn the_end_is_one_partial_call_and_drains_until_one_is_empty() {
    let (mut processor, log) = recording(vec![5, 2]);
    assert_eq!(processor.push_samples(&[1, 2, 3, 4]), Ok(3));
    assert_eq!(processor.flush(), Ok(()));
    assert_eq!(
        *log.borrow(),
        vec!["chunk [1, 2, 3]", "partial [4]", "drain", "drain", "drain"]
    );
    let stats = processor.stats();
    // Three of the chunk, one of the partial chunk, five and two of the drains.
    assert_eq!(stats.samples_resampled, 11);
    assert_eq!(stats.chunks_processed, 2);
    assert_eq!(stats.buffer_fill, 0);
}

#[test]
fn the_end_asks_for_what_is_held_four_times_at_most() {
    let (mut processor, log) = recording(vec![1, 1, 1, 1, 1, 1]);
    assert_eq!(processor.flush(), Ok(()));
    assert_eq!(*log.borrow(), vec!["drain", "drain", "drain", "drain"]);
    assert_eq!(processor.stats().samples_resampled, 4);
    assert_eq!(processor.stats().chunks_processed, 0);
}

#[test]
fn everything_handed_on_reaches_the_muxer() {
    let (mut processor, _log) = recording(vec![100]);
    let samples = vec![0.5f32.to_bits(); 2000];
    assert_eq!(processor.push_samples(&samples), Ok(1998));
    // 1998 samples are two frames; 78 wait in the encoder.
    assert_eq!(processor.buffer_stats(), (2, 6 + 2 * 9));
    assert_eq!(processor.flush(), Ok(()));
    // 2000 and 100 samples are two frames; 180 wait in the encoder.
    assert_eq!(processor.stats().samples_resampled, 2100);
    let data = processor.finalize().unwrap();
    // The 180 make a third frame, padded; two more end the stream.
    assert_eq!(duration_of(&data), 100.0);
}
