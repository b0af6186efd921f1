use muse_lib::opus::{FrameCodec, OpusError};
use muse_lib::webm::WebmWriter;

/// A stand-in codec: every frame becomes three bytes and the low byte of
/// its first sample.
struct ToyCodec;

impl FrameCodec for ToyCodec {
    fn create(sample_rate: i32, channels: i32, application: i32) -> Result<Self, i32> {
        if sample_rate != 48000 || channels != 1 || application != 2049 {
            return Err(-1);
        }
        Ok(ToyCodec)
    }

    fn set_bitrate(&mut self, bitrate: i32) -> i32 {
        if bitrate < 500 {
            -1
        } else {
            0
        }
    }

    fn set_complexity(&mut self, _complexity: i32) -> i32 {
        0
    }

    fn lookahead(&self) -> Result<i32, i32> {
        Ok(312)
    }

    fn encode(&mut self, frame: &[i16], _max_size: usize) -> Result<Vec<u8>, i32> {
        Ok(vec![0xF8, 0xFF, 0xFE, frame[0] as u8])
    }
}

/// A stand-in codec that answers silence with a one-byte marker and fails
/// on a frame that starts with -1.
struct QuietCodec;

impl FrameCodec for QuietCodec {
    fn create(_sample_rate: i32, _channels: i32, _application: i32) -> Result<Self, i32> {
        Ok(QuietCodec)
    }

    fn set_bitrate(&mut self, _bitrate: i32) -> i32 {
        0
    }

    fn set_complexity(&mut self, _complexity: i32) -> i32 {
        0
    }

    fn lookahead(&self) -> Result<i32, i32> {
        Ok(0x1234_5678)
    }

    fn encode(&mut self, frame: &[i16], _max_size: usize) -> Result<Vec<u8>, i32> {
        if frame[0] == -1 {
            Err(-3)
        } else if frame.iter().all(|sample| *sample == 0) {
            Ok(vec![0xF8])
        } else {
            Ok(vec![0xAA, 0xBB, 0xCC])
        }
    }
}

/// A stand-in codec whose look-ahead cannot be read.
struct BlindCodec;

impl FrameCodec for BlindCodec {
    fn create(_sample_rate: i32, _channels: i32, _application: i32) -> Result<Self, i32> {
        Ok(BlindCodec)
    }

    fn set_bitrate(&mut self, _bitrate: i32) -> i32 {
        0
    }

    fn set_complexity(&mut self, _complexity: i32) -> i32 {
        0
    }

    fn lookahead(&self) -> Result<i32, i32> {
        Err(-5)
    }

    fn encode(&mut self, _frame: &[i16], _max_size: usize) -> Result<Vec<u8>, i32> {
        Ok(vec![1, 2, 3])
    }
}

fn find(haystack: &[u8], needle: &[u8]) -> Option<usize> {
    haystack.windows(needle.len()).position(|window| window == needle)
}

/// The clusters of a file: for each, its timestamp and, for each block, the
/// block's offset and frame.
fn clusters(data: &[u8]) -> Vec<(u32, Vec<(i16, Vec<u8>)>)> {
    let mut found = Vec::new();
    let mut at = find(data, &[0x1F, 0x43, 0xB6, 0x75]).unwrap_or(data.len());
    while at < data.len() {
        assert_eq!(&data[at..at + 4], &[0x1F, 0x43, 0xB6, 0x75]);
        let (size, width) = read_size(&data[at + 4..]);
        let body = &data[at + 4 + width..at + 4 + width + size];
        assert_eq!(&body[..2], &[0xE7, 0x84]);
        let start = u32::from_be_bytes([body[2], body[3], body[4], body[5]]);
        let mut blocks = Vec::new();
        let mut inner = 6;
        while inner < body.len() {
            assert_eq!(body[inner], 0xA3);
            let (length, w) = read_size(&body[inner + 1..]);
            let block = &body[inner + 1 + w..inner + 1 + w + length];
            assert_eq!(block[0], 0x81);
            assert_eq!(block[3], 0x80);
            let offset = i16::from_be_bytes([block[1], block[2]]);
            blocks.push((offset, block[4..].to_vec()));
            inner += 1 + w + length;
        }
        found.push((start, blocks));
        at += 4 + width + size;
    }
    found
}

fn read_size(data: &[u8]) -> (usize, usize) {
    let width = data[0].leading_zeros() as usize + 1;
    let mut value = (data[0] as usize) & (0xFF >> width);
    for byte in &data[1..width] {
        value = (value << 8) | *byte as usize;
    }
    (value, width)
}

/// The duration of `frames` frames in milliseconds, in double-precision
/// arithmetic.
fn duration_ms(frames: u64) -> f64 {
    ((frames * 960) as f64 / 48000.0) * 1000.0
}

fn duration_of(data: &[u8]) -> f64 {
    let at = find(data, &[0x44, 0x89, 0x88]).unwrap();
    let mut bits = [0u8; 8];
    bits.copy_from_slice(&data[at + 3..at + 11]);
    f64::from_be_bytes(bits)
}

#[test]
fn test_webm_writer_creation() {
    let writer = WebmWriter::<ToyCodec>::new(64000);
    assert!(writer.is_ok());
}

#[test]
fn test_add_samples_i16() {
    let mut writer = WebmWriter::<ToyCodec>::new(64000).unwrap();
    let samples = vec![0i16; 960];

    let result = writer.add_samples(&samples);
    assert!(result.is_ok());
    assert_eq!(writer.current_timestamp_ms(), 20);
}

#[test]
fn webm_test_add_samples_f32() {
    let mut writer = WebmWriter::<ToyCodec>::new(64000).unwrap();
    let samples = vec![0.0f32.to_bits(); 960];

    let result = writer.add_samples_f32(&samples);
    assert!(result.is_ok());
    assert_eq!(writer.current_timestamp_ms(), 20);
}

#[test]
fn test_clustering() {
    let mut writer = WebmWriter::<ToyCodec>::new(64000).unwrap();

    // Add ~2 seconds of audio (should create 2 clusters)
    for _ in 0..100 {
        writer.add_samples(&vec![0i16; 960]).unwrap();
    }

    // Should have at least 1 completed cluster
    assert!(writer.cluster_count() >= 1);
}

#[test]
fn test_finalize() {
    let mut writer = WebmWriter::<ToyCodec>::new(64000).unwrap();
    writer.add_samples(&vec![0i16; 960]).unwrap();

    let webm_data = writer.finalize();
    assert!(webm_data.is_ok());

    let data = webm_data.unwrap();
    // Check for EBML header magic
    assert_eq!(&data[0..4], &[0x1A, 0x45, 0xDF, 0xA3]);
}

#[test]
fn test_double_finalize_error() {
    let mut writer = WebmWriter::<ToyCodec>::new(64000).unwrap();
    writer.add_samples(&vec![0i16; 960]).unwrap();

    let _ = writer.finalize().unwrap();
}

#[test]
fn test_opus_head_structure() {
    let preskip = 312u16;
    let head = WebmWriter::<ToyCodec>::build_opus_head(preskip);

    assert_eq!(head.len(), 19);
    assert_eq!(&head[0..8], b"OpusHead");
    assert_eq!(head[8], 1); // Version
    assert_eq!(head[9], 1); // Channels
    assert_eq!(head[10], (preskip & 0xFF) as u8);
    assert_eq!(head[11], ((preskip >> 8) & 0xFF) as u8);
}

#[test]
fn opus_head_is_exact() {
    let head = WebmWriter::<ToyCodec>::build_opus_head(0xABCD);
    assert_eq!(
        head,
        vec![
            b'O', b'p', b'u', b's', b'H', b'e', b'a', b'd', 1, 1, 0xCD, 0xAB, 0x80, 0xBB, 0, 0,
            0, 0, 0
        ]
    );
}

#[test]
fn ebml_header_is_exact() {
    let header = WebmWriter::<ToyCodec>::build_ebml_header().build();
    assert_eq!(
        header,
        vec![
            0x42, 0x86, 0x81, 1, 0x42, 0xF7, 0x81, 1, 0x42, 0xF2, 0x81, 4, 0x42, 0xF3, 0x81, 8,
            0x42, 0x82, 0x84, b'w', b'e', b'b', b'm', 0x42, 0x87, 0x81, 4, 0x42, 0x85, 0x81, 2
        ]
    );
}

#[test]
fn segment_info_is_exact() {
    let info = WebmWriter::<ToyCodec>::build_segment_info(52 * 960).build();
    let mut expected = vec![0x15, 0x49, 0xA9, 0x66, 0xB7];
    expected.extend_from_slice(&[0x2A, 0xD7, 0xB1, 0x84, 0x00, 0x0F, 0x42, 0x40]);
    expected.extend_from_slice(&[0x44, 0x89, 0x88]);
    expected.extend_from_slice(&duration_ms(52).to_be_bytes());
    expected.extend_from_slice(&[0x4D, 0x80, 0x8F]);
    expected.extend_from_slice(b"MuseVoice-0.1.0");
    expected.extend_from_slice(&[0x57, 0x41, 0x8F]);
    expected.extend_from_slice(b"MuseVoice-0.1.0");
    assert_eq!(info, expected);
}

#[test]
fn tracks_are_exact() {
    let tracks = WebmWriter::<ToyCodec>::build_tracks(312).build();
    let mut audio = vec![0x9F, 0x81, 1, 0xB5, 0x88];
    audio.extend_from_slice(&48000.0f64.to_be_bytes());
    audio.extend_from_slice(&[0x62, 0x64, 0x81, 16]);
    let mut entry = vec![0xD7, 0x81, 1];
    entry.extend_from_slice(&[0x73, 0xC5, 0x88, 0xDE, 0xAD, 0xBE, 0xEF, 0x12, 0x34, 0x56, 0x78]);
    entry.extend_from_slice(&[0x9C, 0x81, 0]);
    entry.extend_from_slice(&[0x22, 0xB5, 0x9C, 0x83, b'e', b'n', b'g']);
    entry.extend_from_slice(&[0x86, 0x86, b'A', b'_', b'O', b'P', b'U', b'S']);
    entry.extend_from_slice(&[0x56, 0xAA, 0x88]);
    entry.extend_from_slice(&6_500_000u64.to_be_bytes());
    entry.extend_from_slice(&[0x56, 0xBB, 0x84]);
    entry.extend_from_slice(&80_000_000u32.to_be_bytes());
    entry.extend_from_slice(&[0x83, 0x81, 2]);
    entry.push(0xE1);
    entry.push(0x80 | audio.len() as u8);
    entry.extend_from_slice(&audio);
    entry.extend_from_slice(&[0x63, 0xA2, 0x93]);
    entry.extend_from_slice(&WebmWriter::<ToyCodec>::build_opus_head(312));
    let mut expected = vec![0x16, 0x54, 0xAE, 0x6B];
    expected.push(0x80 | (entry.len() + 2) as u8);
    expected.push(0xAE);
    expected.push(0x80 | entry.len() as u8);
    expected.extend_from_slice(&entry);
    assert_eq!(tracks, expected);
}

#[test]
fn one_frame_gives_one_cluster_of_three_blocks() {
    let mut writer = WebmWriter::<ToyCodec>::new(64000).unwrap();
    writer.add_samples(&vec![5i16; 960]).unwrap();
    assert_eq!(writer.cluster_count(), 0);
    assert_eq!(writer.buffered_size(), 6 + 10);
    let data = writer.finalize().unwrap();
    let found = clusters(&data);
    assert_eq!(
        found,
        vec![(
            0,
            vec![
                (0, vec![0xF8, 0xFF, 0xFE, 5]),
                (20, vec![0xF8, 0xFF, 0xFE, 0]),
                (40, vec![0xF8, 0xFF, 0xFE, 0]),
            ]
        )]
    );
    assert_eq!(duration_of(&data), duration_ms(3));
    // The file ends with its last cluster.
    let at = find(&data, &[0x1F, 0x43, 0xB6, 0x75]).unwrap();
    assert_eq!(data.len(), at + 4 + 1 + 6 + 3 * 10);
}

#[test]
fn the_whole_file_is_exact_for_an_empty_stream() {
    let writer = WebmWriter::<ToyCodec>::new(64000).unwrap();
    let data = writer.finalize().unwrap();
    let header = WebmWriter::<ToyCodec>::build_ebml_header().build();
    let info = WebmWriter::<ToyCodec>::build_segment_info(2 * 960).build();
    let tracks = WebmWriter::<ToyCodec>::build_tracks(312).build();
    let mut cluster = vec![0x1F, 0x43, 0xB6, 0x75, 0x80 | 26, 0xE7, 0x84, 0, 0, 0, 0];
    for offset in [0u8, 20] {
        cluster.extend_from_slice(&[0xA3, 0x88, 0x81, 0, offset, 0x80, 0xF8, 0xFF, 0xFE, 0]);
    }
    let mut expected = vec![0x1A, 0x45, 0xDF, 0xA3, 0x80 | header.len() as u8];
    expected.extend_from_slice(&header);
    expected.extend_from_slice(&[0x18, 0x53, 0x80, 0x67]);
    let segment = info.len() + tracks.len() + cluster.len();
    expected.extend_from_slice(&[0x40 | (segment >> 8) as u8, segment as u8]);
    expected.extend_from_slice(&info);
    expected.extend_from_slice(&tracks);
    expected.extend_from_slice(&cluster);
    assert_eq!(data, expected);
}

#[test]
fn a_cluster_is_sealed_every_second() {
    let mut writer = WebmWriter::<ToyCodec>::new(64000).unwrap();
    for frame in 0..49 {
        writer.add_samples(&vec![frame as i16; 960]).unwrap();
    }
    assert_eq!(writer.current_timestamp_ms(), 980);
    assert_eq!(writer.cluster_count(), 0);
    writer.add_samples(&vec![49i16; 960]).unwrap();
    assert_eq!(writer.current_timestamp_ms(), 1000);
    assert_eq!(writer.cluster_count(), 1);
    // A sealed cluster: identifier, size in three bytes, header, 50 blocks.
    assert_eq!(writer.buffered_size(), 4 + 2 + 6 + 50 * 10 + 6);
    writer.add_samples(&vec![50i16; 960 * 75]).unwrap();
    assert_eq!(writer.current_timestamp_ms(), 2500);
    assert_eq!(writer.cluster_count(), 2);
    let data = writer.finalize().unwrap();
    let found = clusters(&data);
    assert_eq!(found.len(), 3);
    assert_eq!(found[0].0, 0);
    assert_eq!(found[1].0, 1000);
    assert_eq!(found[2].0, 2000);
    assert_eq!(found[0].1.len(), 50);
    assert_eq!(found[1].1.len(), 50);
    assert_eq!(found[2].1.len(), 27);
    for (_, blocks) in &found {
        for (index, (offset, _)) in blocks.iter().enumerate() {
            assert_eq!(*offset as usize, index * 20);
            assert!(*offset >= 0 && *offset < 1000);
        }
    }
    assert_eq!(found[0].1[7].1, vec![0xF8, 0xFF, 0xFE, 7]);
    assert_eq!(duration_of(&data), duration_ms(127));
}

#[test]
fn dropped_frames_move_the_clock_and_write_no_block() {
    let mut writer = WebmWriter::<QuietCodec>::new(64000).unwrap();
    let mut samples = vec![9i16; 960];
    samples.extend(vec![0i16; 960 * 3]);
    samples.extend(vec![9i16; 960]);
    writer.add_samples(&samples).unwrap();
    assert_eq!(writer.current_timestamp_ms(), 100);
    assert_eq!(writer.buffered_size(), 6 + 2 * 9);
    let data = writer.finalize().unwrap();
    let found = clusters(&data);
    assert_eq!(
        found,
        vec![(0, vec![(0, vec![0xAA, 0xBB, 0xCC]), (80, vec![0xAA, 0xBB, 0xCC])])]
    );
    // The two frames of silence that end the stream count too.
    assert_eq!(duration_of(&data), duration_ms(7));
    assert_eq!(duration_of(&data), 140.0);
}

#[test]
fn a_silent_second_seals_a_cluster_without_blocks() {
    let mut writer = WebmWriter::<QuietCodec>::new(64000).unwrap();
    writer.add_samples(&vec![0i16; 960 * 50]).unwrap();
    assert_eq!(writer.cluster_count(), 1);
    assert_eq!(writer.current_timestamp_ms(), 1000);
    let data = writer.finalize().unwrap();
    let found = clusters(&data);
    // The open cluster holds no block at the end and is not sealed.
    assert_eq!(found, vec![(0, vec![])]);
}

#[test]
fn the_preskip_is_cut_to_sixteen_bits() {
    let writer = WebmWriter::<QuietCodec>::new(64000).unwrap();
    let data = writer.finalize().unwrap();
    let at = find(&data, b"OpusHead").unwrap();
    assert_eq!(&data[at + 10..at + 12], &[0x78, 0x56]);
    assert_eq!(&data[at - 3..at], &[0x63, 0xA2, 0x93]);
    let delay = find(&data, &[0x56, 0xAA, 0x88]).unwrap();
    let expected = 0x5678u64 * 1_000_000_000 / 48000;
    assert_eq!(&data[delay + 3..delay + 11], &expected.to_be_bytes());
}

#[test]
fn the_file_carries_the_codec_s_preskip() {
    let mut writer = WebmWriter::<ToyCodec>::new(64000).unwrap();
    writer.add_samples(&vec![1i16; 2000]).unwrap();
    let data = writer.finalize().unwrap();
    assert_eq!(&data[0..4], &[0x1A, 0x45, 0xDF, 0xA3]);
    let at = find(&data, b"OpusHead").unwrap();
    let head = &data[at..at + 19];
    assert_eq!(head, &WebmWriter::<ToyCodec>::build_opus_head(312)[..]);
    assert_eq!(u16::from_le_bytes([head[10], head[11]]), 312);
}

#[test]
fn nothing_is_accepted_after_the_end() {
    let mut writer = WebmWriter::<ToyCodec>::new(64000).unwrap();
    writer.add_samples(&vec![1i16; 500]).unwrap();
    assert!(!writer.is_finalized());
    assert_eq!(writer.end_stream(), Ok(()));
    assert!(writer.is_finalized());
    assert_eq!(writer.current_timestamp_ms(), 60);
    assert_eq!(writer.cluster_count(), 1);
    assert_eq!(
        writer.add_samples(&[1, 2, 3]),
        Err(OpusError::WebmError("Cannot add samples after finalize()".to_string()))
    );
    assert_eq!(
        writer.add_samples_f32(&[0]),
        Err(OpusError::WebmError("Cannot add samples after finalize()".to_string()))
    );
    assert_eq!(
        writer.end_stream(),
        Err(OpusError::WebmError("finalize() called twice".to_string()))
    );
    assert_eq!(
        writer.finalize(),
        Err(OpusError::WebmError("finalize() called twice".to_string()))
    );
}

#[test]
fn a_codec_failure_is_handed_on() {
    let mut writer = WebmWriter::<QuietCodec>::new(64000).unwrap();
    let mut samples = vec![9i16; 960];
    samples.extend(vec![-1i16; 960]);
    assert_eq!(writer.add_samples(&samples), Err(OpusError::InternalError));
    // Nothing was muxed.
    assert_eq!(writer.current_timestamp_ms(), 0);
    let blind = WebmWriter::<BlindCodec>::new(64000).unwrap();
    assert_eq!(blind.finalize(), Err(OpusError::Unimplemented));
}

#[test]
fn room_on_the_clock() {
    let mut writer = WebmWriter::<ToyCodec>::new(64000).unwrap();
    assert!(writer.has_room(0));
    assert!(writer.has_room(960 * 214_748_364));
    assert!(!writer.has_room(960 * 214_748_365));
    assert!(!writer.has_room(usize::MAX));
    assert!(writer.can_end());
    writer.add_samples(&vec![0i16; 500]).unwrap();
    assert!(writer.has_room(960 * 214_748_364 + 459));
    assert!(!writer.has_room(960 * 214_748_364 + 460));
}

#[test]
fn the_cut_of_pushes_makes_no_difference_to_the_file() {
    let samples: Vec<i16> = (0..100_000).map(|index| (index % 251) as i16).collect();
    let mut whole = WebmWriter::<ToyCodec>::new(64000).unwrap();
    whole.add_samples(&samples).unwrap();
    let mut parts = WebmWriter::<ToyCodec>::new(64000).unwrap();
    for part in samples.chunks(777) {
        parts.add_samples(part).unwrap();
    }
    assert_eq!(whole.current_timestamp_ms(), parts.current_timestamp_ms());
    assert_eq!(whole.cluster_count(), parts.cluster_count());
    assert_eq!(whole.buffered_size(), parts.buffered_size());
    assert_eq!(whole.finalize().unwrap(), parts.finalize().unwrap());
}

#[test]
fn a_muxer_is_made_around_a_new_encoder() {
    let encoder = muse_lib::opus::BufferedOpusEncoder::<ToyCodec>::new(64000).unwrap();
    let writer = WebmWriter::with_encoder(encoder);
    assert_eq!(writer.current_timestamp_ms(), 0);
    assert_eq!(writer.cluster_count(), 0);
    assert_eq!(writer.buffered_size(), 6);
    assert!(!writer.is_finalized());
}
