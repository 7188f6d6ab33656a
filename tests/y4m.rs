use mediakit::frame::{Frame, PixelFormat};
use mediakit::media::{MediaError, Timebase};
use mediakit::rawvideo::{RawVideoDecoder, RawVideoEncoder};
use mediakit::y4m::{parse_y4m_header, Colorspace, Interlacing, Ratio, Y4mReader, Y4mWriter};

fn y4m_stream(header: &str, frames: usize, body: usize) -> Vec<u8> {
    let mut v = header.as_bytes().to_vec();
    for f in 0..frames {
        v.extend_from_slice(b"FRAME\n");
        for i in 0..body {
            v.push((f * 31 + i * 7) as u8);
        }
    }
    v
}

fn pipeline(input: &[u8]) -> (Vec<u8>, usize) {
    let mut reader = Y4mReader::new(input.to_vec()).unwrap();
    let format = reader.format();
    let mut writer = Y4mWriter::new(format);
    let timebase = Timebase::new(format.framerate_den as i64, format.framerate_num as i64).unwrap();
    let mut decoder = RawVideoDecoder::new(format);
    let mut encoder = RawVideoEncoder::new(timebase);
    let mut frame_count = 0;
    while let Some(packet) = reader.read_packet().unwrap() {
        if let Some(frame) = decoder.decode(packet).unwrap() {
            if let Some(pkt) = encoder.encode(frame).unwrap() {
                writer.write_packet(pkt).unwrap();
                frame_count += 1;
            }
        }
    }
    writer.finalize().unwrap();
    (writer.into_output(), frame_count)
}

#[test]
fn test_full_y4m_pipeline() {
    let input = y4m_stream("YUV4MPEG2 W4 H4 F30:1 Ip A1:1 C420\n", 3, 24);
    let (output, frame_count) = pipeline(&input);
    assert_eq!(frame_count, 3);
    assert_eq!(output, input);
}

#[test]
fn test_y4m_aspect_ratio_preservation() {
    let input = y4m_stream("YUV4MPEG2 W4 H2 F25:1 A128:117 C420mpeg2\n", 2, 12);
    let mut reader = Y4mReader::new(input.clone()).unwrap();
    let format = reader.format();
    assert!(format.aspect_ratio.is_some());
    let aspect = format.aspect_ratio.unwrap();
    assert_eq!(aspect.num, 128);
    assert_eq!(aspect.den, 117);
    let mut writer = Y4mWriter::new(format);
    while let Some(packet) = reader.read_packet().unwrap() {
        writer.write_packet(packet).unwrap();
    }
    writer.finalize().unwrap();
    let out = writer.into_output();
    let header_end = out.iter().position(|b| *b == b'\n').unwrap();
    let header = String::from_utf8(out[..header_end].to_vec()).unwrap();
    assert!(header.contains("A128:117"));
    assert_eq!(out, input);
}

#[test]
fn header_tags_and_defaults() {
    let data = b"YUV4MPEG2 W640 H480 F30000:1001 It XYSCSS=420 C422\n".to_vec();
    let (f, start) = parse_y4m_header(&data).unwrap();
    assert_eq!(start, data.len());
    assert_eq!((f.width, f.height), (640, 480));
    assert_eq!((f.framerate_num, f.framerate_den), (30000, 1001));
    assert_eq!(f.interlacing, Some(Interlacing::TopFirst));
    assert_eq!(f.colorspace, Some(Colorspace::C422));
    assert_eq!(f.aspect_ratio, None);
    let (g, _) = parse_y4m_header(&b"YUV4MPEG2 W2 H2 F1:1 A1:1\n".to_vec()).unwrap();
    assert_eq!(g.aspect_ratio, Some(Ratio { num: 1, den: 1 }));
    assert_eq!(g.colorspace, None);
    assert_eq!(g.interlacing, None);
}

#[test]
fn y4m_header_errors() {
    let bad = |s: &str| parse_y4m_header(&s.as_bytes().to_vec()).err();
    assert_eq!(bad("YUV4MPEG1 W2 H2 F1:1\n"), Some(MediaError::BadMagic));
    assert_eq!(bad("YUV4MPEG2 W2 H2 F1:1"), Some(MediaError::UnexpectedEof));
    assert_eq!(bad("YUV4MPEG2 W2 H2 F1:1 C411\n"), Some(MediaError::UnsupportedCodec));
    assert_eq!(bad("YUV4MPEG2 W2 H2\n"), Some(MediaError::InvalidFormat));
    assert_eq!(bad("YUV4MPEG2 W0 H2 F1:1\n"), Some(MediaError::InvalidFormat));
    assert_eq!(bad("YUV4MPEG2 Wx H2 F1:1\n"), Some(MediaError::InvalidFormat));
    assert_eq!(bad("YUV4MPEG2 W2 H2 F1\n"), Some(MediaError::InvalidFormat));
    assert_eq!(bad("YUV4MPEG2 W99999999999 H2 F1:1\n"), Some(MediaError::InvalidFormat));
    assert_eq!(bad("YUV4MPEG2 W2 H2 F1:1 Iq\n"), Some(MediaError::InvalidFormat));
}

#[test]
fn frames_count_and_truncation() {
    let input = y4m_stream("YUV4MPEG2 W2 H2 F30:1 Cmono\n", 2, 4);
    let mut reader = Y4mReader::new(input.clone()).unwrap();
    let p0 = reader.read_packet().unwrap().unwrap();
    assert_eq!(p0.pts, 0);
    assert_eq!(p0.timebase, Timebase { num: 1, den: 30 });
    assert_eq!(p0.data.len(), 4);
    assert_eq!(reader.read_packet().unwrap().unwrap().pts, 1);
    assert!(reader.read_packet().unwrap().is_none());
    let mut cut = Y4mReader::new(input[..input.len() - 1].to_vec()).unwrap();
    cut.read_packet().unwrap();
    assert_eq!(cut.read_packet().err(), Some(MediaError::UnexpectedEof));
    let mut params = b"YUV4MPEG2 W2 H2 F30:1 Cmono\nFRAME Ixyz\n".to_vec();
    params.extend_from_slice(&[9, 8, 7, 6]);
    let mut with_params = Y4mReader::new(params).unwrap();
    assert_eq!(with_params.read_packet().unwrap().unwrap().data, vec![9, 8, 7, 6]);
    let mut garbage = b"YUV4MPEG2 W2 H2 F30:1 Cmono\nFRAMX\n1234".to_vec();
    garbage.push(0);
    let mut g = Y4mReader::new(garbage).unwrap();
    assert_eq!(g.read_packet().err(), Some(MediaError::InvalidFormat));
}

#[test]
fn raw_video_planes_by_subsampling() {
    let tb = Timebase::new(1, 25).unwrap();
    for (tag, sizes, fmt) in [
        ("C420", vec![16usize, 4, 4], PixelFormat::I420),
        ("C422", vec![16, 8, 8], PixelFormat::I422),
        ("C444", vec![16, 16, 16], PixelFormat::I444),
        ("Cmono", vec![16], PixelFormat::Mono),
    ] {
        let total: usize = sizes.iter().sum();
        let header = format!("YUV4MPEG2 W4 H4 F25:1 {}\n", tag);
        let input = y4m_stream(&header, 2, total);
        let (output, frames) = pipeline(&input);
        assert_eq!(frames, 2);
        assert_eq!(output, input);
        let (f, _) = parse_y4m_header(&header.as_bytes().to_vec()).unwrap();
        let mut dec = RawVideoDecoder::new(f);
        let bytes: Vec<u8> = (0..total as u8).collect();
        match dec.decode(mediakit::packet::Packet::new(bytes, 3, tb)).unwrap() {
            Some(Frame::Video(v)) => {
                assert_eq!(v.format, fmt);
                assert_eq!(v.planes.iter().map(|p| p.data.len()).collect::<Vec<_>>(), sizes);
                assert_eq!(v.planes[0].stride, 4);
                assert_eq!(v.pts, 3);
            }
            _ => panic!("expected a video frame"),
        }
        let short = mediakit::packet::Packet::new(vec![0; total - 1], 0, tb);
        assert_eq!(dec.decode(short).err(), Some(MediaError::InvalidFormat));
    }
}

#[test]
fn y4m_writer_refuses_use_after_finalize() {
    let (f, _) = parse_y4m_header(&b"YUV4MPEG2 W2 H2 F1:1\n".to_vec()).unwrap();
    let mut w = Y4mWriter::new(f);
    w.finalize().unwrap();
    assert_eq!(w.finalize(), Err(MediaError::UseAfterFinalize));
    let p = mediakit::packet::Packet::new(vec![1], 0, Timebase::new(1, 1).unwrap());
    assert_eq!(w.write_packet(p), Err(MediaError::UseAfterFinalize));
    assert_eq!(w.into_output(), b"YUV4MPEG2 W2 H2 F1:1\n".to_vec());
}
