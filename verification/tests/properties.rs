use std::time::Duration;

use lib::assembly::PonkAssembler;
use lib::codec::{decode_wire_datagram, decode_wire_datagram_with_limits, encode_wire_datagrams};
use lib::legacy::{decode_datagram, encode_datagrams};
use lib::text::{fixed_bytes, parse_fixed_string};
use lib::{
    DataFormat, EmptyFrameEncoding, HEADER_LEN, MAX_DATAGRAM_LEN, PeerAddr, PonkAssemblerConfig,
    PonkCompletion, PonkDecoderLimits, PonkEncodeOptions, PonkEncoderLimits, PonkError, PonkFrame,
    PonkLimits, PonkMetadata, PonkPath, PonkPathPoints, PonkPoint, PonkReassemblyLimits,
    PonkWireFrame, PonkWirePath, U16ColorReduction, XyRgbU16Point, checksum, expand_rgb8,
    reduce_rgb16,
};
use lib::bytes::{read_u16_le, read_u32_le};

fn peer(port: u16) -> PeerAddr {
    PeerAddr::V4 { ip4: 0x0a00_0001, port }
}

fn coord_to_u16(bits: u32) -> u16 {
    let normalized = f64::from(f32::from_bits(bits).clamp(-1.0, 1.0));
    (((normalized + 1.0) * 0.5) * f64::from(u16::MAX)) as u16
}

fn u16_to_coord(value: u16) -> u32 {
    (-1.0 + 2.0 * (value as f32 / u16::MAX as f32)).to_bits()
}

fn f32_point(x: f32, y: f32, rgb: [u8; 3]) -> PonkPoint {
    PonkPoint { x_bits: x.to_bits(), y_bits: y.to_bits(), rgb }
}

fn wire_frame(frame_number: u8, points: usize) -> PonkWireFrame {
    PonkWireFrame {
        sender_id: 7,
        sender_name: "property sender".into(),
        frame_number,
        paths: vec![
            PonkWirePath {
                metadata: vec![PonkMetadata { key: "PATHNUMB".into(), value_bits: 2.0f32.to_bits() }],
                points: PonkPathPoints::XyF32RgbU8(
                    (0..points).map(|i| f32_point(i as f32 * 0.01, -0.5, [i as u8, 1, 2])).collect(),
                ),
            },
            PonkWirePath {
                metadata: vec![],
                points: PonkPathPoints::XyRgbU16(
                    (0..points)
                        .map(|i| XyRgbU16Point { x: i as u16, y: 0xfff0, rgb: [1, 0x8000, 0xffff] })
                        .collect(),
                ),
            },
        ],
    }
}

fn sized(max_datagram_len: usize) -> PonkEncodeOptions {
    PonkEncodeOptions { max_datagram_len, ..PonkEncodeOptions::default() }
}

fn ponk_header(version: u8, chunk_count: u8, chunk_number: u8) -> Vec<u8> {
    let mut d = b"PONK-UDP".to_vec();
    d.push(version);
    d.extend_from_slice(&5u32.to_le_bytes());
    d.extend_from_slice(&[0u8; 32]);
    d.push(0);
    d.push(chunk_count);
    d.push(chunk_number);
    d.extend_from_slice(&0u32.to_le_bytes());
    d
}

fn with_payload(mut header: Vec<u8>, payload: &[u8]) -> Vec<u8> {
    let sum = payload.iter().fold(0u32, |acc, b| acc.wrapping_add(u32::from(*b)));
    header[48..52].copy_from_slice(&sum.to_le_bytes());
    header.extend_from_slice(payload);
    header
}

#[test]
fn reduce_inverts_expand_for_every_channel_value() {
    for value in 0..=255u8 {
        let wide = expand_rgb8([value, value, value]);
        assert_eq!(wide, [u16::from(value) * 257; 3]);
        assert_eq!(reduce_rgb16(wide, U16ColorReduction::MostSignificantByte), [value; 3]);
        assert_eq!(reduce_rgb16(wide, U16ColorReduction::Rounded), [value; 3]);
    }
}

#[test]
fn single_datagram_roundtrip_cuts_long_texts_to_their_fields() {
    let mut frame = wire_frame(3, 4);
    frame.sender_name = "a sender name that is longer than thirty-two bytes".into();
    frame.paths[0].metadata[0].key = "LONGKEYNAME".into();
    let datagrams = encode_wire_datagrams(&frame, &sized(MAX_DATAGRAM_LEN)).unwrap();
    assert_eq!(datagrams.len(), 1);
    let decoded = decode_wire_datagram(&datagrams[0]).unwrap().unwrap();
    assert_eq!(decoded.sender_name, "a sender name that is longer tha");
    assert_eq!(decoded.paths[0].metadata[0].key, "LONGKEYN");
    assert_eq!(decoded.paths[1], frame.paths[1]);
    assert_eq!(decoded.paths[0].points, frame.paths[0].points);
}

#[test]
fn datagrams_of_a_frame_reassemble_in_a_shuffled_order() {
    let frame = wire_frame(9, 30);
    let datagrams = encode_wire_datagrams(&frame, &sized(HEADER_LEN + 64)).unwrap();
    let n = datagrams.len();
    assert!(n > 5);
    let order: Vec<usize> = (0..n).map(|i| (i * 7 + 3) % n).collect();
    let mut seen = order.clone();
    seen.sort_unstable();
    assert_eq!(seen, (0..n).collect::<Vec<_>>());

    let mut assembler = PonkAssembler::new();
    for (k, &i) in order.iter().enumerate() {
        let out = assembler.push_wire_datagram_at(&datagrams[i], peer(1), k as u128 * 1_000).unwrap();
        if k + 1 < n {
            assert!(out.is_none());
            assert_eq!(assembler.assembly_count(), 1);
        } else {
            let completed = out.unwrap();
            assert_eq!(completed.frame, frame);
            assert_eq!(completed.completion, PonkCompletion::Strict);
        }
    }
    assert_eq!(assembler.assembly_count(), 0);
    assert_eq!(assembler.buffered_bytes(), 0);
}

#[test]
fn encoded_datagrams_carry_numbered_headers_and_consecutive_pieces() {
    let frame = wire_frame(4, 25);
    let whole = encode_wire_datagrams(&frame, &sized(MAX_DATAGRAM_LEN)).unwrap();
    assert_eq!(whole.len(), 1);
    let payload = &whole[0][HEADER_LEN..];

    let max = HEADER_LEN + 100;
    let datagrams = encode_wire_datagrams(&frame, &sized(max)).unwrap();
    assert!(datagrams.len() > 1 && datagrams.len() <= 255);
    let mut pieces = Vec::new();
    for (i, d) in datagrams.iter().enumerate() {
        assert!(d.len() > HEADER_LEN && d.len() <= max);
        assert_eq!(usize::from(d[46]), datagrams.len());
        assert_eq!(usize::from(d[47]), i);
        assert_eq!(&d[48..52], &checksum(payload).to_le_bytes());
        assert_eq!(&d[..45], &whole[0][..45]);
        pieces.extend_from_slice(&d[HEADER_LEN..]);
    }
    assert_eq!(pieces, payload);
}

#[test]
fn limits_hold_under_many_senders_and_frames() {
    let config = PonkAssemblerConfig {
        decoder: PonkDecoderLimits::default(),
        reassembly: PonkReassemblyLimits {
            max_assemblies: 5,
            max_assemblies_per_sender: 2,
            max_buffered_bytes: 700,
            assembly_timeout: Duration::from_millis(300),
        },
    };
    let mut assembler = PonkAssembler::with_config(config);
    for round in 0..40u32 {
        let frame = wire_frame((round % 256) as u8, 8 + (round % 5) as usize);
        let datagrams = encode_wire_datagrams(&frame, &sized(HEADER_LEN + 90)).unwrap();
        let port = (round % 4) as u16;
        let _ = assembler.push_wire_datagram_at(&datagrams[0], peer(port), u128::from(round));
        assert!(assembler.assembly_count() <= 5);
        assert!(assembler.buffered_bytes() <= 700);
    }
}

#[test]
fn repeated_chunk_changes_nothing_and_conflict_drops_its_identity() {
    let frame = wire_frame(1, 20);
    let other = wire_frame(2, 20);
    let datagrams = encode_wire_datagrams(&frame, &sized(HEADER_LEN + 80)).unwrap();
    let others = encode_wire_datagrams(&other, &sized(HEADER_LEN + 80)).unwrap();
    let mut assembler = PonkAssembler::new();
    assert!(assembler.push_wire_datagram_at(&datagrams[0], peer(2), 10).unwrap().is_none());
    assert!(assembler.push_wire_datagram_at(&others[0], peer(2), 10).unwrap().is_none());
    let bytes = assembler.buffered_bytes();
    assert!(assembler.push_wire_datagram_at(&datagrams[0], peer(2), 20).unwrap().is_none());
    assert_eq!(assembler.buffered_bytes(), bytes);
    assert_eq!(assembler.assembly_count(), 2);

    let mut conflicting = datagrams[0].clone();
    let last = conflicting.len() - 1;
    conflicting[last] ^= 0x01;
    assert_eq!(
        assembler.push_wire_datagram_at(&conflicting, peer(2), 30),
        Err(PonkError::ConflictingChunk)
    );
    assert_eq!(assembler.assembly_count(), 1);
    assert_eq!(assembler.buffered_bytes(), others[0].len() - HEADER_LEN);
}

#[test]
fn changed_sender_name_drops_its_identity() {
    let frame = wire_frame(5, 20);
    let datagrams = encode_wire_datagrams(&frame, &sized(HEADER_LEN + 80)).unwrap();
    let mut assembler = PonkAssembler::new();
    assembler.push_wire_datagram_at(&datagrams[0], peer(3), 0).unwrap();
    let mut renamed = datagrams[1].clone();
    renamed[13] = b'X';
    assert_eq!(
        assembler.push_wire_datagram_at(&renamed, peer(3), 0),
        Err(PonkError::InconsistentSenderName)
    );
    assert_eq!(assembler.assembly_count(), 0);
    assert_eq!(assembler.buffered_bytes(), 0);
}

#[test]
fn identities_expire_after_the_timeout() {
    let frame = wire_frame(6, 20);
    let datagrams = encode_wire_datagrams(&frame, &sized(HEADER_LEN + 80)).unwrap();
    let mut assembler = PonkAssembler::new();
    assembler.push_wire_datagram_at(&datagrams[0], peer(4), 1_000).unwrap();
    assembler.prune_stale_at(1_000 + 300_000_000);
    assert_eq!(assembler.assembly_count(), 1);
    assembler.prune_stale_at(1_000 + 300_000_001);
    assert_eq!(assembler.assembly_count(), 0);
    assert_eq!(assembler.buffered_bytes(), 0);

    assembler.push_wire_datagram_at(&datagrams[0], peer(4), 0).unwrap();
    assembler.push_wire_datagram_at(&datagrams[1], peer(4), 400_000_000).unwrap();
    assert_eq!(assembler.assembly_count(), 1);
    assert_eq!(assembler.buffered_bytes(), datagrams[1].len() - HEADER_LEN);
}

#[test]
fn every_error_variant_has_an_input_that_produces_it() {
    assert_eq!(
        decode_wire_datagram(&ponk_header(1, 1, 0)),
        Err(PonkError::UnsupportedProtocolVersion(1))
    );
    assert_eq!(decode_wire_datagram(&ponk_header(0, 1, 0)[..30]), Err(PonkError::DatagramTooSmall));
    let mut huge = ponk_header(0, 1, 0);
    huge.resize(MAX_DATAGRAM_LEN + 1, 0);
    assert_eq!(
        decode_wire_datagram(&huge),
        Err(PonkError::DatagramTooLarge { max: MAX_DATAGRAM_LEN, actual: MAX_DATAGRAM_LEN + 1 })
    );
    assert_eq!(
        decode_wire_datagram(&with_payload(ponk_header(0, 1, 0), &[9, 0, 0, 0])),
        Err(PonkError::UnsupportedDataFormat(9))
    );
    assert_eq!(
        decode_wire_datagram(&with_payload(ponk_header(0, 1, 0), &[0, 0, 5, 0])),
        Err(PonkError::MalformedPayload)
    );
    assert_eq!(
        encode_wire_datagrams(&wire_frame(0, 1), &sized(10)),
        Err(PonkError::MaxDatagramTooSmall { min: HEADER_LEN + 1, actual: 10 })
    );
    let mut points = wire_frame(0, 0);
    points.paths[1].points = PonkPathPoints::XyRgbU16(vec![XyRgbU16Point { x: 0, y: 0, rgb: [0; 3] }; 65_536]);
    let relaxed = PonkEncodeOptions {
        max_datagram_len: MAX_DATAGRAM_LEN,
        limits: PonkEncoderLimits::protocol_only(),
        ..PonkEncodeOptions::default()
    };
    assert_eq!(encode_wire_datagrams(&points, &relaxed), Err(PonkError::TooManyPoints(65_536)));
    let mut total = wire_frame(0, 0);
    total.paths[1].points = PonkPathPoints::XyRgbU16(vec![XyRgbU16Point { x: 0, y: 0, rgb: [0; 3] }; 10]);
    let capped = PonkEncodeOptions {
        max_datagram_len: MAX_DATAGRAM_LEN,
        limits: PonkEncoderLimits { max_total_points: Some(9), ..PonkEncoderLimits::protocol_only() },
        ..PonkEncodeOptions::default()
    };
    assert_eq!(encode_wire_datagrams(&total, &capped), Err(PonkError::TooManyTotalPoints { max: 9 }));
    let payload_capped = PonkEncodeOptions {
        max_datagram_len: MAX_DATAGRAM_LEN,
        limits: PonkEncoderLimits { max_frame_payload_bytes: Some(10), ..PonkEncoderLimits::protocol_only() },
        ..PonkEncodeOptions::default()
    };
    assert_eq!(
        encode_wire_datagrams(&wire_frame(0, 3), &payload_capped),
        Err(PonkError::FramePayloadTooLarge { max: 10 })
    );
    let mut nan = wire_frame(0, 2);
    nan.paths[0].points = PonkPathPoints::XyF32RgbU8(vec![f32_point(f32::NAN, 0.0, [0; 3])]);
    assert_eq!(encode_wire_datagrams(&nan, &sized(1_472)), Err(PonkError::InvalidCoordinate));

    let tight = PonkAssemblerConfig {
        decoder: PonkDecoderLimits::default(),
        reassembly: PonkReassemblyLimits {
            max_assemblies: 4,
            max_assemblies_per_sender: 4,
            max_buffered_bytes: 30,
            assembly_timeout: Duration::from_millis(300),
        },
    };
    let datagrams = encode_wire_datagrams(&wire_frame(1, 20), &sized(HEADER_LEN + 80)).unwrap();
    let mut assembler = PonkAssembler::with_config(tight);
    assert_eq!(
        assembler.push_wire_datagram_at(&datagrams[0], peer(5), 0),
        Err(PonkError::BufferedBytesLimit { max: 30 })
    );
    assert_eq!(assembler.assembly_count(), 0);
}

#[test]
fn error_messages_read_as_their_display_text() {
    assert_eq!(PonkError::UnsupportedProtocolVersion(3).message(), "unsupported PONK protocol version 3");
    assert_eq!(PonkError::UnsupportedDataFormat(250).message(), "unsupported PONK data format 250");
    assert_eq!(PonkError::DatagramTooSmall.message(), "PONK datagram is too small");
    assert_eq!(
        PonkError::DatagramTooLarge { max: 65_507, actual: 70_000 }.message(),
        "PONK datagram is 70000 bytes, max is 65507"
    );
    assert_eq!(
        PonkError::MaxDatagramTooSmall { min: 53, actual: 0 }.message(),
        "PONK max datagram size 0 is too small, minimum is 53"
    );
    assert_eq!(PonkError::TooManyChunks(256).message(), "PONK frame needs too many chunks: 256");
    assert_eq!(PonkError::TooManyMetadata(1_000).message(), "PONK path has too many metadata entries: 1000");
    assert_eq!(PonkError::TooManyPoints(65_536).message(), "PONK path has too many points: 65536");
    assert_eq!(PonkError::TooManyPaths { max: 10 }.message(), "PONK frame has more than 10 paths");
    assert_eq!(
        PonkError::TooManyTotalPoints { max: 100_000 }.message(),
        "PONK frame has more than 100000 total points"
    );
    assert_eq!(PonkError::FramePayloadTooLarge { max: 9 }.message(), "PONK frame payload exceeds 9 bytes");
    assert_eq!(PonkError::BufferedBytesLimit { max: 4096 }.message(), "PONK reassembly buffer exceeds 4096 bytes");
    assert_eq!(PonkError::InvalidCoordinate.message(), "PONK frame contains an invalid coordinate");
    assert_eq!(PonkError::InvalidChunkHeader.message(), "invalid PONK chunk header");
    assert_eq!(PonkError::ConflictingChunk.message(), "conflicting PONK chunk duplicate");
    assert_eq!(PonkError::InconsistentSenderName.message(), "PONK sender name changed within one frame");
    assert_eq!(PonkError::MalformedPayload.message(), "malformed PONK payload");
}

#[test]
fn checksum_is_the_wrapping_byte_sum() {
    assert_eq!(checksum(&[]), 0);
    assert_eq!(checksum(&[1, 2, 3, 255]), 261);
    assert_eq!(checksum(&[0xff; 1_000]), 255_000);
}

#[test]
fn invalid_utf8_in_the_sender_name_is_replaced() {
    let mut d = ponk_header(0, 1, 0);
    d[13] = b'A';
    d[14] = 0xff;
    d[15] = b'B';
    let frame = decode_wire_datagram(&d).unwrap().unwrap();
    assert_eq!(frame.sender_name, "A\u{fffd}B");
    assert_eq!(parse_fixed_string(&[b'o', b'k', 0, b'x']), "ok");
    assert_eq!(parse_fixed_string(&[0xc3, 0x28]), "\u{fffd}(");
}

#[test]
fn fixed_fields_cut_at_a_character_boundary_and_pad_with_zeros() {
    assert_eq!(fixed_bytes("h\u{e9}llo", 2), vec![b'h', 0]);
    assert_eq!(fixed_bytes("h\u{e9}llo", 3), vec![b'h', 0xc3, 0xa9]);
    assert_eq!(fixed_bytes("ab", 4), vec![b'a', b'b', 0, 0]);
}

#[test]
fn little_endian_readers_advance_only_when_the_value_fits() {
    let data = [0x34, 0x12, 0x78, 0x56, 0xbc];
    let mut offset = 0;
    assert_eq!(read_u16_le(&data, &mut offset), Some(0x1234));
    assert_eq!(offset, 2);
    assert_eq!(read_u32_le(&data, &mut offset), None);
    assert_eq!(offset, 2);
    offset = 1;
    assert_eq!(read_u32_le(&data, &mut offset), Some(0xbc56_7812));
    assert_eq!(offset, 5);
    assert_eq!(read_u16_le(&data, &mut offset), None);
}

#[test]
fn data_formats_map_to_their_wire_values_and_sizes() {
    assert_eq!(DataFormat::from_wire(0), Ok(DataFormat::XyRgbU16));
    assert_eq!(DataFormat::from_wire(1), Ok(DataFormat::XyF32RgbU8));
    assert_eq!(DataFormat::from_wire(2), Err(PonkError::UnsupportedDataFormat(2)));
    assert_eq!(DataFormat::XyRgbU16.wire(), 0);
    assert_eq!(DataFormat::XyF32RgbU8.bytes_per_point(), 11);
    assert_eq!(DataFormat::XyRgbU16.bytes_per_point(), 10);
    let points = PonkPathPoints::XyRgbU16(vec![XyRgbU16Point { x: 1, y: 2, rgb: [3, 4, 5] }; 3]);
    assert_eq!(points.len(), 3);
    assert!(!points.is_empty());
    assert_eq!(points.data_format(), DataFormat::XyRgbU16);
    assert!(PonkPathPoints::XyF32RgbU8(vec![]).is_empty());
}

#[test]
fn protocol_only_limits_drop_every_policy_cap() {
    let limits = PonkEncoderLimits::protocol_only();
    assert_eq!(limits.max_paths, None);
    assert_eq!(limits.max_total_points, None);
    assert_eq!(limits.max_frame_payload_bytes, None);
}

#[test]
fn legacy_points_convert_through_the_given_coordinate_mapping() {
    assert_eq!(
        XyRgbU16Point::from_8bit(f32::NAN.to_bits(), 0, [1, 2, 3], &coord_to_u16),
        Err(PonkError::InvalidCoordinate)
    );
    let p = XyRgbU16Point::from_8bit(0.0f32.to_bits(), 1.0f32.to_bits(), [0x12, 0, 0xff], &coord_to_u16).unwrap();
    assert_eq!(p, XyRgbU16Point { x: 0x7fff, y: 0xffff, rgb: [0x1212, 0, 0xffff] });
    let back = p.to_8bit(U16ColorReduction::Rounded, &u16_to_coord);
    assert_eq!(back.rgb, [0x12, 0, 0xff]);
    assert_eq!(back.y_bits, 1.0f32.to_bits());
}

#[test]
fn legacy_frames_encode_and_decode_through_the_wire_model() {
    let frame = PonkFrame {
        sender_id: 11,
        sender_name: "legacy".into(),
        frame_number: 200,
        paths: vec![PonkPath {
            metadata: vec![],
            points: vec![f32_point(0.5, -0.25, [9, 8, 7]), f32_point(1.0, -1.0, [1, 2, 3])],
        }],
    };
    let datagrams = encode_datagrams(&frame, DataFormat::XyF32RgbU8, 1_472, &coord_to_u16).unwrap();
    assert_eq!(datagrams.len(), 1);
    let decoded = decode_datagram(&datagrams[0], &u16_to_coord).unwrap().unwrap();
    assert_eq!(decoded, frame);

    let u16_datagrams = encode_datagrams(&frame, DataFormat::XyRgbU16, 1_472, &coord_to_u16).unwrap();
    let wire = decode_wire_datagram(&u16_datagrams[0]).unwrap().unwrap();
    let PonkPathPoints::XyRgbU16(points) = &wire.paths[0].points else {
        panic!("wrong format")
    };
    assert_eq!(points[1], XyRgbU16Point { x: 0xffff, y: 0, rgb: [0x0101, 0x0202, 0x0303] });
}

#[test]
fn decoder_limits_reject_what_they_do_not_admit() {
    let frame = wire_frame(0, 10);
    let datagram = encode_wire_datagrams(&frame, &sized(MAX_DATAGRAM_LEN)).unwrap().remove(0);
    let tight = PonkDecoderLimits { max_frame_payload_bytes: 100_000, max_paths: 1, max_total_points: 1_000 };
    assert_eq!(decode_wire_datagram_with_limits(&datagram, &tight), Err(PonkError::TooManyPaths { max: 1 }));
    let small = PonkDecoderLimits { max_frame_payload_bytes: 10, max_paths: 10, max_total_points: 1_000 };
    assert_eq!(
        decode_wire_datagram_with_limits(&datagram, &small),
        Err(PonkError::FramePayloadTooLarge { max: 10 })
    );
    let roomy = PonkDecoderLimits { max_frame_payload_bytes: 100_000, max_paths: 2, max_total_points: 20 };
    assert_eq!(decode_wire_datagram_with_limits(&datagram, &roomy).unwrap().unwrap(), frame);
}

#[test]
fn empty_frames_follow_the_selected_policy() {
    let frame = PonkWireFrame { sender_id: 1, sender_name: "e".into(), frame_number: 0, paths: vec![] };
    let u16_path = PonkEncodeOptions {
        empty_frame: EmptyFrameEncoding::ZeroPointPath(DataFormat::XyRgbU16),
        ..PonkEncodeOptions::default()
    };
    let datagram = encode_wire_datagrams(&frame, &u16_path).unwrap().remove(0);
    assert_eq!(&datagram[HEADER_LEN..], &[0, 0, 0, 0]);
    let decoded = decode_wire_datagram(&datagram).unwrap().unwrap();
    assert_eq!(decoded.paths.len(), 1);
    assert_eq!(decoded.paths[0].points, PonkPathPoints::XyRgbU16(vec![]));
}

#[test]
fn ipv6_peers_are_separate_identities() {
    let frame = wire_frame(8, 20);
    let datagrams = encode_wire_datagrams(&frame, &sized(HEADER_LEN + 80)).unwrap();
    let v6 = PeerAddr::V6 { ip6: 1, port: 5583, flowinfo: 0, scope_id: 0 };
    let mut assembler = PonkAssembler::new();
    assembler.push_wire_datagram_at(&datagrams[0], peer(5583), 0).unwrap();
    assembler.push_wire_datagram_at(&datagrams[0], v6, 0).unwrap();
    assert_eq!(assembler.assembly_count(), 2);
}

#[test]
fn legacy_limits_become_an_assembler_configuration() {
    let limits = PonkLimits { max_assemblies: 3, max_paths: 17, ..PonkLimits::default() };
    let config = PonkAssemblerConfig::from(limits);
    assert_eq!(config.decoder.max_paths, 17);
    assert_eq!(config.reassembly.max_assemblies, 3);
    assert_eq!(config.reassembly.max_assemblies_per_sender, 3);
}

#[test]
fn decoded_canonical_datagram_encodes_back_byte_for_byte() {
    let mut d = ponk_header(0, 1, 0);
    d[13..16].copy_from_slice(b"abc");
    d[45] = 77;
    let mut payload = vec![1u8, 1];
    payload.extend_from_slice(b"K\xc3\xa9\0\0\0\0\0");
    payload.extend_from_slice(&0.5f32.to_bits().to_le_bytes());
    payload.extend_from_slice(&[1, 0]);
    payload.extend_from_slice(&0.25f32.to_bits().to_le_bytes());
    payload.extend_from_slice(&(-0.75f32).to_bits().to_le_bytes());
    payload.extend_from_slice(&[10, 20, 30]);
    payload.extend_from_slice(&[0, 0, 2, 0, 0xff, 0xff, 1, 0, 2, 0, 3, 0, 4, 0, 5, 0, 6, 0, 7, 0, 8, 0, 9, 0]);
    let d = with_payload(d, &payload);
    let frame = decode_wire_datagram(&d).unwrap().unwrap();
    assert_eq!(frame.sender_name, "abc");
    assert_eq!(frame.paths[0].metadata[0].key, "K\u{e9}");
    assert_eq!(encode_wire_datagrams(&frame, &sized(1_472)).unwrap(), vec![d]);
}

#[test]
fn points_and_metadata_compare_as_their_float_values() {
    assert_eq!(f32_point(0.0, 0.5, [1, 2, 3]), f32_point(-0.0, 0.5, [1, 2, 3]));
    assert_ne!(f32_point(0.0, 0.5, [1, 2, 3]), f32_point(0.0, 0.5, [1, 2, 4]));
    let nan = f32_point(f32::NAN, 0.5, [1, 2, 3]);
    assert_ne!(nan, nan);
    let a = PonkMetadata { key: "PATHNUMB".into(), value_bits: 0.0f32.to_bits() };
    let b = PonkMetadata { key: "PATHNUMB".into(), value_bits: (-0.0f32).to_bits() };
    assert_eq!(a, b);
    let c = PonkMetadata { key: "PATHNUMB".into(), value_bits: f32::NAN.to_bits() };
    assert_ne!(c, c.clone());
    let d = PonkMetadata { key: "OTHERKEY".into(), value_bits: 0.0f32.to_bits() };
    assert_ne!(a, d);
}

#[test]
fn zero_byte_limit_keeps_the_assembler_empty() {
    let config = PonkAssemblerConfig {
        decoder: PonkDecoderLimits::default(),
        reassembly: PonkReassemblyLimits { max_buffered_bytes: 0, ..PonkReassemblyLimits::default() },
    };
    let mut assembler = PonkAssembler::with_config(config);
    let frame = wire_frame(3, 20);
    let datagrams = encode_wire_datagrams(&frame, &sized(HEADER_LEN + 80)).unwrap();
    for (k, d) in datagrams.iter().enumerate() {
        let out = assembler.push_wire_datagram_at(d, peer(9), k as u128);
        assert_eq!(out, Err(PonkError::BufferedBytesLimit { max: 0 }));
        assert_eq!(assembler.assembly_count(), 0);
        assert_eq!(assembler.buffered_bytes(), 0);
    }
}

#[test]
fn neighbouring_frame_numbers_complete_independently_when_interleaved() {
    let last = wire_frame(255, 20);
    let first = wire_frame(0, 20);
    let a = encode_wire_datagrams(&last, &sized(HEADER_LEN + 80)).unwrap();
    let b = encode_wire_datagrams(&first, &sized(HEADER_LEN + 80)).unwrap();
    assert!(a.len() > 2 && a.len() == b.len());
    let n = a.len();
    let mut assembler = PonkAssembler::new();
    for i in (0..n).rev() {
        if i > 0 {
            let out = assembler.push_wire_datagram_at(&b[i], peer(6), 0).unwrap();
            assert!(out.is_none());
        }
        let out = assembler.push_wire_datagram_at(&a[(i + 1) % n], peer(6), 0).unwrap();
        if i == 0 {
            let done = out.unwrap();
            assert_eq!(done.frame, last);
            assert_eq!(done.completion, PonkCompletion::Strict);
        } else {
            assert!(out.is_none());
        }
    }
    assert_eq!(assembler.assembly_count(), 1);
    let done = assembler.push_wire_datagram_at(&b[0], peer(6), 0).unwrap().unwrap();
    assert_eq!(done.frame, first);
    assert_eq!(assembler.assembly_count(), 0);
    assert_eq!(assembler.buffered_bytes(), 0);
}

#[test]
fn legacy_decode_is_wire_decode_then_conversion() {
    let frame = wire_frame(12, 6);
    let datagram = encode_wire_datagrams(&frame, &sized(MAX_DATAGRAM_LEN)).unwrap().remove(0);
    let via_wire = decode_wire_datagram(&datagram)
        .unwrap()
        .unwrap()
        .into_legacy(U16ColorReduction::MostSignificantByte, &u16_to_coord);
    let direct = decode_datagram(&datagram, &u16_to_coord).unwrap().unwrap();
    assert_eq!(direct, via_wire);
    let PonkPathPoints::XyRgbU16(points) = &frame.paths[1].points else { panic!("wrong format") };
    assert_eq!(direct.paths[1].points[0].rgb, [0x00, 0x80, 0xff]);
    assert_eq!(direct.paths[1].points[0].x_bits, u16_to_coord(points[0].x));
}

#[test]
fn three_frames_interleaved_each_complete_at_their_last_datagram() {
    let frames = [wire_frame(40, 20), wire_frame(41, 25), wire_frame(42, 15)];
    let peers = [peer(11), peer(11), peer(12)];
    let encoded: Vec<Vec<Vec<u8>>> =
        frames.iter().map(|f| encode_wire_datagrams(f, &sized(HEADER_LEN + 70)).unwrap()).collect();
    let mut turns: Vec<(usize, usize)> = Vec::new();
    let longest = encoded.iter().map(|d| d.len()).max().unwrap();
    for i in 0..longest {
        for (f, ds) in encoded.iter().enumerate() {
            let n = ds.len();
            if i < n {
                turns.push((f, if f == 1 { n - 1 - i } else { i }));
            }
        }
    }
    let mut remaining: Vec<usize> = encoded.iter().map(|d| d.len()).collect();
    let mut assembler = PonkAssembler::new();
    for (k, &(f, p)) in turns.iter().enumerate() {
        let out = assembler.push_wire_datagram_at(&encoded[f][p], peers[f], k as u128).unwrap();
        remaining[f] -= 1;
        if remaining[f] == 0 {
            let done = out.unwrap();
            assert_eq!(done.frame, frames[f]);
            assert_eq!(done.completion, PonkCompletion::Strict);
        } else {
            assert!(out.is_none());
        }
    }
    assert_eq!(assembler.assembly_count(), 0);
    assert_eq!(assembler.buffered_bytes(), 0);
}
