use mediakit::frame::{Frame, Samples};
use mediakit::media::{MediaError, Timebase, WavFormat};
use mediakit::packet::Packet;
use mediakit::pcm::{PcmDecoder, PcmEncoder};
use mediakit::wav::{parse_wav_layout, WavReader, WavWriter, PACKET_FRAMES};

fn wav_bytes(channels: u16, sample_rate: u32, bits: u16, data: &[u8]) -> Vec<u8> {
    let mut wav = Vec::new();
    wav.extend_from_slice(b"RIFF");
    wav.extend_from_slice(&(36 + data.len() as u32).to_le_bytes());
    wav.extend_from_slice(b"WAVE");
    wav.extend_from_slice(b"fmt ");
    wav.extend_from_slice(&16u32.to_le_bytes());
    wav.extend_from_slice(&1u16.to_le_bytes());
    wav.extend_from_slice(&channels.to_le_bytes());
    wav.extend_from_slice(&sample_rate.to_le_bytes());
    let byte_rate = sample_rate * channels as u32 * bits as u32 / 8;
    wav.extend_from_slice(&byte_rate.to_le_bytes());
    let block_align = channels * bits / 8;
    wav.extend_from_slice(&block_align.to_le_bytes());
    wav.extend_from_slice(&bits.to_le_bytes());
    wav.extend_from_slice(b"data");
    wav.extend_from_slice(&(data.len() as u32).to_le_bytes());
    wav.extend_from_slice(data);
    wav
}

fn create_test_wav() -> Vec<u8> {
    let num_samples: u32 = 1024;
    let mut data = Vec::new();
    for i in 0..num_samples {
        let sample = ((i as f32 / num_samples as f32) * 16000.0) as i16;
        data.extend_from_slice(&sample.to_le_bytes());
    }
    wav_bytes(1, 44100, 16, &data)
}

fn create_stereo_wav() -> Vec<u8> {
    let mut data = Vec::new();
    for i in 0..256u32 {
        let left = (i as i16) * 100;
        let right = -(i as i16) * 100;
        data.extend_from_slice(&left.to_le_bytes());
        data.extend_from_slice(&right.to_le_bytes());
    }
    wav_bytes(2, 48000, 16, &data)
}

fn remux(input: &[u8]) -> Vec<u8> {
    let mut reader = WavReader::new(input.to_vec()).unwrap();
    let format = reader.format();
    let mut writer = WavWriter::new(format).unwrap();
    let mut decoder = PcmDecoder::new(format);
    let timebase = Timebase::new(1, format.sample_rate as i64).unwrap();
    let mut encoder = PcmEncoder::new(format, timebase);
    while let Some(packet) = reader.read_packet().unwrap() {
        if let Some(frame) = decoder.decode(packet).unwrap() {
            if let Some(pkt) = encoder.encode(frame).unwrap() {
                writer.write_packet(pkt).unwrap();
            }
        }
    }
    writer.finalize().unwrap();
    writer.into_output()
}

#[test]
fn test_wav_reader_format() {
    let reader = WavReader::new(create_test_wav()).unwrap();
    let format = reader.format();
    assert_eq!(format.sample_rate, 44100);
    assert_eq!(format.channels, 1);
    assert_eq!(format.bit_depth, 16);
}

#[test]
fn test_wav_reader_stereo() {
    let reader = WavReader::new(create_stereo_wav()).unwrap();
    let format = reader.format();
    assert_eq!(format.sample_rate, 48000);
    assert_eq!(format.channels, 2);
}

#[test]
fn test_wav_reader_read_packets() {
    let mut reader = WavReader::new(create_test_wav()).unwrap();
    let mut packet_count = 0;
    let mut total_bytes = 0;
    while let Some(packet) = reader.read_packet().unwrap() {
        packet_count += 1;
        total_bytes += packet.size();
    }
    assert!(packet_count > 0);
    assert_eq!(total_bytes, 2048);
}

#[test]
fn test_wav_reader_stream_count() {
    let reader = WavReader::new(create_test_wav()).unwrap();
    assert_eq!(reader.stream_count(), 1);
}

#[test]
fn test_wav_format_bytes_per_sample() {
    let format = WavFormat { channels: 2, sample_rate: 44100, bit_depth: 16 };
    assert_eq!(format.bytes_per_sample(), 2);
    assert_eq!(format.bytes_per_frame(), 4);
}

#[test]
fn test_wav_writer_basic() {
    let format = WavFormat { channels: 1, sample_rate: 44100, bit_depth: 16 };
    let mut writer = WavWriter::new(format).unwrap();
    let timebase = Timebase::new(1, 44100).unwrap();
    let packet = Packet::new(vec![0u8; 1024], 0, timebase);
    writer.write_packet(packet).unwrap();
    writer.finalize().unwrap();
    let out = writer.into_output();
    assert_eq!(out.len(), 44 + 1024);
    assert_eq!(&out[4..8], &(36u32 + 1024).to_le_bytes());
    assert_eq!(&out[40..44], &1024u32.to_le_bytes());
}

#[test]
fn test_wav_roundtrip() {
    let input = create_test_wav();
    let mut reader = WavReader::new(input.clone()).unwrap();
    let mut writer = WavWriter::new(reader.format()).unwrap();
    while let Some(packet) = reader.read_packet().unwrap() {
        writer.write_packet(packet).unwrap();
    }
    writer.finalize().unwrap();
    assert_eq!(writer.into_output(), input);
}

#[test]
fn test_wav_invalid_file() {
    let result = WavReader::new(b"NOT A WAV FILE".to_vec());
    assert!(matches!(result, Err(MediaError::BadMagic)));
}

#[test]
fn test_wav_pts_increments() {
    let mut reader = WavReader::new(create_test_wav()).unwrap();
    let mut last_pts: Option<i64> = None;
    while let Some(packet) = reader.read_packet().unwrap() {
        if let Some(prev) = last_pts {
            assert!(packet.pts >= prev);
        }
        last_pts = Some(packet.pts);
    }
}

#[test]
fn packets_cover_the_data_chunk_in_order() {
    let data: Vec<u8> = (0..(3 * PACKET_FRAMES * 4 + 12)).map(|i| (i % 251) as u8).collect();
    let wav = wav_bytes(2, 8000, 16, &data);
    let mut reader = WavReader::new(wav).unwrap();
    let mut joined = Vec::new();
    let mut expected_pts = 0i64;
    let mut sizes = Vec::new();
    while let Some(p) = reader.read_packet().unwrap() {
        assert_eq!(p.pts, expected_pts);
        assert_eq!(p.timebase, Timebase { num: 1, den: 8000 });
        assert!(p.keyframe);
        expected_pts += (p.size() / 4) as i64;
        sizes.push(p.size());
        joined.extend_from_slice(&p.data);
    }
    assert_eq!(joined, data);
    assert_eq!(sizes, vec![4096, 4096, 4096, 12]);
    assert!(reader.read_packet().unwrap().is_none());
}

#[test]
fn truncated_data_ends_with_unexpected_eof() {
    let mut wav = wav_bytes(1, 8000, 16, &[1, 2, 3, 4, 5]);
    let mut reader = WavReader::new(wav.clone()).unwrap();
    assert_eq!(reader.read_packet().unwrap().unwrap().data, vec![1, 2, 3, 4]);
    assert_eq!(reader.read_packet().unwrap_err(), MediaError::UnexpectedEof);
    wav.truncate(wav.len() - 1);
    let mut cut = WavReader::new(wav).unwrap();
    assert_eq!(cut.read_packet().unwrap().unwrap().data, vec![1, 2, 3, 4]);
    assert_eq!(cut.read_packet().unwrap_err(), MediaError::UnexpectedEof);
}

#[test]
fn wav_header_errors() {
    let good = create_test_wav();
    let mut not_pcm = good.clone();
    not_pcm[20] = 3;
    assert_eq!(WavReader::new(not_pcm).err(), Some(MediaError::UnsupportedCodec));
    let mut no_channels = good.clone();
    no_channels[22] = 0;
    assert_eq!(WavReader::new(no_channels).err(), Some(MediaError::InvalidFormat));
    let mut odd_depth = good.clone();
    odd_depth[34] = 12;
    assert_eq!(WavReader::new(odd_depth).err(), Some(MediaError::InvalidFormat));
    let mut zero_rate = good.clone();
    zero_rate[24..28].copy_from_slice(&[0, 0, 0, 0]);
    assert_eq!(WavReader::new(zero_rate).err(), Some(MediaError::InvalidFormat));
    let mut data_first = good.clone();
    data_first[12..16].copy_from_slice(b"data");
    assert_eq!(WavReader::new(data_first).err(), Some(MediaError::InvalidFormat));
}

#[test]
fn unknown_chunks_before_data_are_skipped() {
    let plain = create_stereo_wav();
    let mut with_list = plain[..36].to_vec();
    with_list.extend_from_slice(b"LIST");
    with_list.extend_from_slice(&4u32.to_le_bytes());
    with_list.extend_from_slice(b"abcd");
    with_list.extend_from_slice(&plain[36..]);
    let layout = parse_wav_layout(&with_list).unwrap();
    assert_eq!(layout.data_start, 56);
    assert_eq!(layout.data_len, 1024);
    assert_eq!(layout.format.channels, 2);
}

#[test]
fn writer_refuses_use_after_finalize() {
    let format = WavFormat::new(1, 8000, 8).unwrap();
    let mut writer = WavWriter::new(format).unwrap();
    writer.finalize().unwrap();
    assert_eq!(writer.finalize(), Err(MediaError::UseAfterFinalize));
    let p = Packet::new(vec![1], 0, Timebase::new(1, 8000).unwrap());
    assert_eq!(writer.write_packet(p), Err(MediaError::UseAfterFinalize));
    assert!(WavWriter::new(WavFormat { channels: 1, sample_rate: 8000, bit_depth: 7 }).is_err());
}

#[test]
fn mono_ramp_remuxes_byte_for_byte() {
    let input = create_test_wav();
    assert_eq!(remux(&input), input);
}

#[test]
fn stereo_remuxes_byte_for_byte() {
    let input = create_stereo_wav();
    let reader = WavReader::new(input.clone()).unwrap();
    assert_eq!(reader.format().channels, 2);
    assert_eq!(reader.format().sample_rate, 48000);
    assert_eq!(remux(&input), input);
}

#[test]
fn pcm_round_trip_at_every_depth() {
    let data: Vec<u8> = (0..96u32).map(|i| (i * 37 % 256) as u8).collect();
    for bits in [8u16, 16, 24, 32] {
        let input = wav_bytes(2, 22050, bits, &data);
        assert_eq!(remux(&input), input, "bit depth {}", bits);
    }
}

#[test]
fn pcm_decode_values() {
    let format = WavFormat::new(1, 8000, 24).unwrap();
    let mut dec = PcmDecoder::new(format);
    let tb = Timebase::new(1, 8000).unwrap();
    let frame = dec.decode(Packet::new(vec![0xff, 0xff, 0xff, 0x01, 0x00, 0x80], 7, tb)).unwrap();
    match frame {
        Some(Frame::Audio(a)) => {
            assert!(matches!(a.samples, Samples::I32(ref v) if v == &vec![-1, -8388607]));
            assert_eq!(a.sample_count, 2);
            assert_eq!(a.pts, 7);
        }
        _ => panic!("expected an audio frame"),
    }
    let format8 = WavFormat::new(1, 8000, 8).unwrap();
    let mut dec8 = PcmDecoder::new(format8);
    match dec8.decode(Packet::new(vec![0, 128, 255], 0, tb)).unwrap() {
        Some(Frame::Audio(a)) => {
            assert!(matches!(a.samples, Samples::I16(ref v) if v == &vec![-128, 0, 127]))
        }
        _ => panic!("expected an audio frame"),
    }
    assert!(dec8.decode(Packet::new(vec![], 0, tb)).unwrap().is_none());
    let stereo = WavFormat::new(2, 8000, 16).unwrap();
    let mut dec2 = PcmDecoder::new(stereo);
    assert_eq!(dec2.decode(Packet::new(vec![1, 2, 3], 0, tb)).err(), Some(MediaError::InvalidFormat));
}

#[test]
fn pcm_encoder_saturates_and_rescales() {
    let format = WavFormat::new(2, 48000, 16).unwrap();
    let mut dec = PcmDecoder::new(format);
    let tb = Timebase::new(1, 48000).unwrap();
    let mut bytes = Vec::new();
    for s in [-16384i16, 8192, 16384, -8192] {
        bytes.extend_from_slice(&s.to_le_bytes());
    }
    let frame = dec.decode(Packet::new(bytes, 480, tb)).unwrap().unwrap();
    let doubled = match frame {
        Frame::Audio(mut a) => {
            if let Samples::I16(v) = &a.samples {
                a.samples = Samples::I32(v.iter().map(|x| *x as i32 * 2).collect());
            }
            Frame::Audio(a)
        }
        other => other,
    };
    let ms = Timebase::new(1, 1000).unwrap();
    let mut enc = PcmEncoder::new(format, ms);
    let p = enc.encode(doubled).unwrap().unwrap();
    let mut expected = Vec::new();
    for s in [-32768i16, 16384, 32767, -16384] {
        expected.extend_from_slice(&s.to_le_bytes());
    }
    assert_eq!(p.data, expected);
    assert_eq!(p.pts, 10);
    assert_eq!(p.timebase, ms);
}

#[test]
fn test_stereo_wav_pipeline() {
    let input = create_stereo_wav();
    let reader = WavReader::new(input.clone()).unwrap();
    assert_eq!(reader.format().channels, 2);
    let _ = remux(&input);
}

#[test]
fn test_wav_format_properties() {
    let format = WavFormat { channels: 2, sample_rate: 48000, bit_depth: 16 };
    assert_eq!(format.bytes_per_sample(), 2);
    assert_eq!(format.bytes_per_frame(), 4);
}

#[test]
fn test_full_wav_pipeline() {
    let input = create_test_wav();
    assert_eq!(remux(&input), input);
}

#[test]
fn test_multiple_wav_files_pipeline() {
    for _ in 0..3 {
        let input = create_test_wav();
        assert_eq!(remux(&input), input);
    }
}
