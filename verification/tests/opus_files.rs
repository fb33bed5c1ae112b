//! Opus files, with the packets of a real encoder.

use egui_clap_host::opus::{
    bitrates_kbps, bits_per_second, opus_head, opus_tags, OpusStream, DEFAULT_BITRATE_KBPS,
    FRAME_SIZE, MAX_PACKET, SAMPLE_RATE,
};
use ogg::reading::PacketReader;
use opus_rs::{Application, OpusEncoder};

fn sine(seconds: usize) -> Vec<f32> {
    let frames = SAMPLE_RATE as usize * seconds;
    let mut samples = Vec::with_capacity(frames * 2);
    for frame in 0..frames {
        let t = frame as f32 / SAMPLE_RATE as f32;
        samples.push((t * 440.0 * std::f32::consts::TAU).sin() * 0.5);
        samples.push((t * 660.0 * std::f32::consts::TAU).sin() * 0.5);
    }
    samples
}

fn encoded(samples: &[f32], channels: u16, rate: u32, kbps: u32) -> Result<Vec<u8>, String> {
    let mut stream = OpusStream::begin(samples.len(), channels, rate)?;
    let channels = channels as usize;
    let mut encoder = OpusEncoder::new(rate as i32, channels, Application::Audio)?;
    encoder.bitrate_bps = bits_per_second(kbps);
    let mut packet = vec![0u8; MAX_PACKET];
    while let Some((from, to)) = stream.next_frame() {
        let mut frame = samples[from..to].to_vec();
        frame.resize(FRAME_SIZE as usize * channels, 0.0);
        let length = encoder.encode(&frame, FRAME_SIZE as usize, &mut packet)?;
        stream.push_packet(packet[..length].to_vec())?;
    }
    Ok(stream.finish())
}

#[test]
fn writes_an_ogg_opus_stream() {
    let bytes = encoded(&sine(1), 2, SAMPLE_RATE, 128).expect("it can be written");
    assert_eq!(&bytes[..4], b"OggS");
    assert!(bytes.windows(8).any(|w| w == b"OpusHead"));
    assert!(bytes.windows(8).any(|w| w == b"OpusTags"));
}

#[test]
fn higher_bitrate_makes_a_bigger_file() {
    let samples = sine(1);
    let mut previous = 0;
    for kbps in bitrates_kbps() {
        let size = encoded(&samples, 2, SAMPLE_RATE, kbps).expect("it can be written").len();
        assert!(size > previous, "{kbps}: {size} <= {previous}");
        previous = size;
    }
}

#[test]
fn refuses_what_it_cannot_encode() {
    let samples = sine(1);
    assert!(encoded(&samples, 2, 44_100, 128).is_err());
    assert!(encoded(&samples, 3, SAMPLE_RATE, 128).is_err());
    assert!(encoded(&[], 2, SAMPLE_RATE, 128).is_err());
}

#[test]
fn output_size_is_in_the_expected_range() {
    let bytes = encoded(&sine(1), 2, SAMPLE_RATE, 128).expect("it can be written");
    assert!((12_000..24_000).contains(&bytes.len()), "{}", bytes.len());
}

/// The packets of a stream of which each packet is a single byte.
fn packets_of(samples: usize, channels: u16) -> Vec<(Vec<u8>, u64, bool)> {
    let mut stream = OpusStream::begin(samples, channels, SAMPLE_RATE).ok().unwrap();
    let mut number = 0u8;
    while stream.next_frame().is_some() {
        stream.push_packet(vec![number]).unwrap();
        number += 1;
    }
    let mut reader = PacketReader::new(std::io::Cursor::new(stream.finish()));
    let mut packets = Vec::new();
    while let Some(packet) = reader.read_packet().unwrap() {
        packets.push((packet.data.clone(), packet.absgp_page(), packet.last_in_stream()));
    }
    packets
}

#[test]
fn the_packets_come_back_as_they_were_given() {
    let packets = packets_of(3000, 2);
    assert_eq!(packets.len(), 4);
    assert_eq!(packets[0].0, opus_head(2));
    assert_eq!(packets[1].0, opus_tags());
    assert_eq!(packets[2].0, vec![0]);
    assert_eq!(packets[3].0, vec![1]);
}

#[test]
fn the_last_granule_is_the_length_and_what_is_skipped() {
    let packets = packets_of(3000, 2);
    let last = packets.last().unwrap();
    assert_eq!(last.1, 1500 + 312);
    assert!(last.2);
    assert!(!packets[2].2);

    assert_eq!(packets_of(1000, 1).last().unwrap().1, 1000 + 312);
}

#[test]
fn frames_cover_the_sound() {
    let mut stream = OpusStream::begin(4000, 2, SAMPLE_RATE).ok().unwrap();
    let mut at = 0;
    while let Some((from, to)) = stream.next_frame() {
        assert_eq!(from, at);
        assert!(to - from <= 1920);
        at = to;
        stream.push_packet(Vec::new()).unwrap();
    }
    assert_eq!(at, 4000);
}

#[test]
fn the_header_is_as_it_is_laid_down() {
    assert_eq!(
        opus_head(2),
        [b"OpusHead".to_vec(), vec![1, 2, 0x38, 0x01, 0x80, 0xbb, 0, 0, 0, 0, 0]].concat()
    );
    assert_eq!(&opus_tags()[..8], b"OpusTags");
    assert!(bitrates_kbps().contains(&DEFAULT_BITRATE_KBPS));
    assert_eq!(bits_per_second(96), 96_000);
}

#[test]
fn each_refusal_says_why() {
    let why = |samples, channels, rate| OpusStream::begin(samples, channels, rate).err().unwrap();
    assert!(why(10, 2, 44_100).contains("44100Hz"));
    assert!(why(10, 3, SAMPLE_RATE).contains("3ch"));
    assert_eq!(why(0, 2, SAMPLE_RATE), "書き出す音がありません");
}

#[test]
fn a_stream_has_no_packet_too_many() {
    // 960 samples and 312 that a decoder drops: two frames.
    let mut stream = OpusStream::begin(960, 1, SAMPLE_RATE).ok().unwrap();
    let mut count = 0;
    while stream.next_frame().is_some() {
        stream.push_packet(vec![1]).unwrap();
        count += 1;
    }
    assert_eq!(count, 2);
}
