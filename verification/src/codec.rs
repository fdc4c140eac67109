//! Datagram encoding and decoding.
use vstd::prelude::*;

use crate::bytes::{push_u16_le, push_u32_le, read_u16_le, read_u32_le, u16_at};
use crate::error::PonkError;
use crate::model::{
    DataFormat, EmptyFrameEncoding, PonkEncodeOptions, PonkEncoderLimits,
    WireFrameModel, PonkDecoderLimits, PonkMetadata, PonkPathPoints, PonkPoint, PonkWireFrame,
    PonkWirePath, WirePathModel, XyRgbU16Point, finite_bits, metadata_view, wire_paths_view,
};
use crate::text::{fixed_bytes, parse_fixed_string};
use crate::wire::{
    HeaderModel, f32_point_at, has_nonfinite_point, magic, metadata_at, metadata_seq,
    point_nonfinite, points_seq, points_size, prepend_paths, spec_decode_payload_checked,
    spec_decode_wire_datagram, spec_parse_paths, spec_split_datagram, u16_point_at, chunks_of, datagrams_for, f32_point_bytes, f32_points_bytes, header_bytes,
    lemma_chunks_needed_bound, lemma_chunks_of_len, lemma_fixed_field_len, lemma_path_len,
    lemma_paths_bytes_push, metadata_bytes, metadata_list_bytes, path_bytes,
    path_size, paths_bytes, payload_bytes, spec_check_payload_limit, spec_encode_wire_datagrams,
    spec_encoded_payload_len, spec_scan_paths, u16_point_bytes, u16_points_bytes,
};
use crate::{HEADER_LEN, MAX_DATAGRAM_LEN, PROTOCOL_VERSION, SENDER_NAME_LEN};

verus! {

/// The abstract contents of a decoding result.
pub open spec fn frame_result_view(r: Result<Option<PonkWireFrame>, PonkError>) -> Result<Option<WireFrameModel>, PonkError> {
    match r {
        Err(e) => Err(e),
        Ok(None) => Ok(None),
        Ok(Some(f)) => Ok(Some(f@)),
    }
}

/// A parsed datagram header: sender, frame identity, chunk position and checksum.
pub struct Header {
    pub sender_id: u32,
    pub sender_name: String,
    pub sender_name_bytes: Vec<u8>,
    pub frame_number: u8,
    pub chunk_count: u8,
    pub chunk_number: u8,
    pub data_crc: u32,
}

impl View for Header {
    type V = HeaderModel;

    open spec fn view(&self) -> HeaderModel {
        HeaderModel {
            sender_id: self.sender_id,
            sender_name: self.sender_name@,
            sender_name_bytes: self.sender_name_bytes@,
            frame_number: self.frame_number,
            chunk_count: self.chunk_count,
            chunk_number: self.chunk_number,
            data_crc: self.data_crc,
        }
    }
}

impl Header {
    pub(crate) fn clone_header(&self) -> (r: Header)
        ensures
            r@ == self@,
    {
        Header {
            sender_id: self.sender_id,
            sender_name: self.sender_name.clone(),
            sender_name_bytes: self.sender_name_bytes.clone(),
            frame_number: self.frame_number,
            chunk_count: self.chunk_count,
            chunk_number: self.chunk_number,
            data_crc: self.data_crc,
        }
    }
}

fn has_magic(d: &[u8]) -> (r: bool)
    ensures
        r == (d@.len() >= 8 && d@.take(8) == magic()),
{
    if d.len() < 8 {
        return false;
    }
    let r = d[0] == 0x50 && d[1] == 0x4f && d[2] == 0x4e && d[3] == 0x4b && d[4] == 0x2d && d[5]
        == 0x55 && d[6] == 0x44 && d[7] == 0x50;
    if r {
        assert(d@.take(8) =~= magic());
    } else {
        assert(d@.take(8) != magic()) by {
            if d@.take(8) == magic() {
                assert(d@.take(8)[0] == d@[0]);
                assert(magic()[0] == 0x50);
            }
        }
    }
    r
}

/// Splits a datagram into its header and payload.
pub(crate) fn split_datagram(datagram: &[u8]) -> (r: Result<Option<(Header, &[u8])>, PonkError>)
    ensures
        match r {
            Err(e) => spec_split_datagram(datagram@) == Err::<Option<HeaderModel>, PonkError>(e),
            Ok(None) => spec_split_datagram(datagram@) == Ok::<Option<HeaderModel>, PonkError>(
                None,
            ),
            Ok(Some((h, p))) => spec_split_datagram(datagram@) == Ok::<
                Option<HeaderModel>,
                PonkError,
            >(Some(h@)) && p@ == datagram@.subrange(52, datagram@.len() as int),
        },
{
    if !has_magic(datagram) {
        return Ok(None);
    }
    if datagram.len() < HEADER_LEN {
        return Err(PonkError::DatagramTooSmall);
    }
    if datagram.len() > MAX_DATAGRAM_LEN {
        return Err(PonkError::DatagramTooLarge { max: MAX_DATAGRAM_LEN, actual: datagram.len() });
    }
    let protocol_version = datagram[8];
    if protocol_version != PROTOCOL_VERSION {
        return Err(PonkError::UnsupportedProtocolVersion(protocol_version));
    }
    let mut offset: usize = 9;
    let sender_id = match read_u32_le(datagram, &mut offset) {
        Some(v) => v,
        None => return Err(PonkError::DatagramTooSmall),
    };
    let name_field = &datagram[13..13 + SENDER_NAME_LEN];
    let sender_name = parse_fixed_string(name_field);
    let sender_name_bytes = vstd::slice::slice_to_vec(name_field);
    let frame_number = datagram[45];
    let chunk_count = datagram[46];
    let chunk_number = datagram[47];
    let mut crc_offset: usize = 48;
    let data_crc = match read_u32_le(datagram, &mut crc_offset) {
        Some(v) => v,
        None => return Err(PonkError::DatagramTooSmall),
    };
    if chunk_count == 0 || chunk_number >= chunk_count {
        return Ok(None);
    }
    let payload = &datagram[HEADER_LEN..datagram.len()];
    let header = Header {
        sender_id,
        sender_name,
        sender_name_bytes,
        frame_number,
        chunk_count,
        chunk_number,
        data_crc,
    };
    assert(header@ =~= crate::wire::header_fields(datagram@));
    Ok(Some((header, payload)))
}

proof fn lemma_prepend_one(prefix: Seq<WirePathModel>, p: WirePathModel, rest: Result<Seq<WirePathModel>, PonkError>)
    ensures
        prepend_paths(prefix, prepend_paths(seq![p], rest)) == prepend_paths(prefix.push(p), rest),
{
    match rest {
        Ok(s) => {
            assert(prefix + (seq![p] + s) =~= prefix.push(p) + s);
        },
        Err(_) => {},
    }
}

/// Decodes the metadata records of one path.
fn decode_metadata(data: &[u8], start: usize, m: usize) -> (r: Vec<PonkMetadata>)
    requires
        start + 12 * m <= data@.len(),
    ensures
        metadata_view(r@) == metadata_seq(data@, start as int, m as nat),
{
    let mut metadata: Vec<PonkMetadata> = Vec::new();
    let mut k: usize = 0;
    let mut o: usize = start;
    let len = data.len();
    while k < m
        invariant
            len == data@.len(),
            k <= m,
            o == start + 12 * k,
            start + 12 * m <= data@.len(),
            metadata_view(metadata@) == metadata_seq(data@, start as int, k as nat),
        decreases m - k,
    {
        assert(o + 12 <= start + 12 * m);
        let key = parse_fixed_string(&data[o..o + 8]);
        let mut vo: usize = o + 8;
        let value_bits = match read_u32_le(data, &mut vo) {
            Some(v) => v,
            None => 0,
        };
        let record = PonkMetadata { key, value_bits };
        let ghost before = metadata@;
        assert(metadata_view(before).len() == before.len());
        metadata.push(record);
        assert(record@ == metadata_at(data@, o as int));
        o = o + 12;
        k = k + 1;
        assert(metadata_view(metadata@) =~= metadata_seq(data@, start as int, k as nat)) by {
            assert(metadata@ == before.push(record));
            assert(metadata_view(metadata@).len() == k);
            assert forall|j: int| 0 <= j < k implies #[trigger] metadata_view(metadata@)[j]
                == metadata_seq(data@, start as int, k as nat)[j] by {
                if j < k - 1 {
                    assert(metadata@[j] == before[j]);
                    assert(metadata_view(before)[j] == metadata_seq(
                        data@,
                        start as int,
                        (k - 1) as nat,
                    )[j]);
                }
            }
        }
    }
    metadata
}

/// Decodes `n` U16 points.
fn decode_u16_points(data: &[u8], start: usize, n: usize) -> (r: Vec<XyRgbU16Point>)
    requires
        start + 10 * n <= data@.len(),
    ensures
        r@ == Seq::new(n as nat, |k: int| u16_point_at(data@, start + 10 * k)),
{
    let mut points: Vec<XyRgbU16Point> = Vec::new();
    let mut k: usize = 0;
    let mut o: usize = start;
    let len = data.len();
    while k < n
        invariant
            len == data@.len(),
            k <= n,
            o == start + 10 * k,
            start + 10 * n <= data@.len(),
            points@ == Seq::new(k as nat, |j: int| u16_point_at(data@, start + 10 * j)),
        decreases n - k,
    {
        let mut c: usize = o;
        let x = match read_u16_le(data, &mut c) { Some(v) => v, None => 0 };
        let y = match read_u16_le(data, &mut c) { Some(v) => v, None => 0 };
        let r = match read_u16_le(data, &mut c) { Some(v) => v, None => 0 };
        let g = match read_u16_le(data, &mut c) { Some(v) => v, None => 0 };
        let b = match read_u16_le(data, &mut c) { Some(v) => v, None => 0 };
        let p = XyRgbU16Point { x, y, rgb: [r, g, b] };
        assert(p == u16_point_at(data@, o as int));
        points.push(p);
        o = o + 10;
        k = k + 1;
        assert(points@ =~= Seq::new(k as nat, |j: int| u16_point_at(data@, start + 10 * j)));
    }
    points
}

/// Decodes `n` F32 points, rejecting the first one with a non-finite coordinate.
fn decode_f32_points(data: &[u8], start: usize, n: usize) -> (r: Result<Vec<PonkPoint>, PonkError>)
    requires
        start + 11 * n <= data@.len(),
    ensures
        match r {
            Ok(points) => !has_nonfinite_point(data@, start as int, n as nat) && points@
                == Seq::new(n as nat, |k: int| f32_point_at(data@, start + 11 * k)),
            Err(e) => has_nonfinite_point(data@, start as int, n as nat) && e
                == PonkError::InvalidCoordinate,
        },
{
    let mut points: Vec<PonkPoint> = Vec::new();
    let mut k: usize = 0;
    let mut o: usize = start;
    let len = data.len();
    while k < n
        invariant
            len == data@.len(),
            k <= n,
            o == start + 11 * k,
            start + 11 * n <= data@.len(),
            points@ == Seq::new(k as nat, |j: int| f32_point_at(data@, start + 11 * j)),
            forall|j: int| 0 <= j < k ==> !#[trigger] point_nonfinite(f32_point_at(data@, start + 11 * j)),
        decreases n - k,
    {
        let mut c: usize = o;
        let x_bits = match read_u32_le(data, &mut c) { Some(v) => v, None => 0 };
        let y_bits = match read_u32_le(data, &mut c) { Some(v) => v, None => 0 };
        let p = PonkPoint { x_bits, y_bits, rgb: [data[o + 8], data[o + 9], data[o + 10]] };
        assert(p == f32_point_at(data@, o as int));
        if !finite_bits(x_bits) || !finite_bits(y_bits) {
            assert(point_nonfinite(f32_point_at(data@, start + 11 * k)));
            return Err(PonkError::InvalidCoordinate);
        }
        points.push(p);
        o = o + 11;
        k = k + 1;
        assert(points@ =~= Seq::new(k as nat, |j: int| f32_point_at(data@, start + 11 * j)));
    }
    Ok(points)
}

/// Decodes every path of a payload.
fn decode_payload(data: &[u8], limits: &PonkDecoderLimits) -> (r: Result<Vec<PonkWirePath>, PonkError>)
    ensures
        match r {
            Ok(paths) => spec_parse_paths(data@, 0, 0, 0, *limits) == Ok::<
                Seq<WirePathModel>,
                PonkError,
            >(wire_paths_view(paths@)),
            Err(e) => spec_parse_paths(data@, 0, 0, 0, *limits) == Err::<
                Seq<WirePathModel>,
                PonkError,
            >(e),
        },
{
    let mut offset: usize = 0;
    let mut paths: Vec<PonkWirePath> = Vec::new();
    let mut total_points: usize = 0;
    assert(wire_paths_view(paths@) =~= Seq::<WirePathModel>::empty());
    while offset < data.len()
        invariant
            offset <= data@.len(),
            total_points <= limits.max_total_points,
            spec_parse_paths(data@, 0, 0, 0, *limits) == prepend_paths(
                wire_paths_view(paths@),
                spec_parse_paths(data@, offset as int, paths@.len(), total_points as nat, *limits),
            ),
        decreases data@.len() - offset,
    {
        if paths.len() >= limits.max_paths {
            return Err(PonkError::TooManyPaths { max: limits.max_paths });
        }
        let format = match DataFormat::from_wire(data[offset]) {
            Ok(f) => f,
            Err(e) => return Err(e),
        };
        if data.len() - offset < 2 {
            return Err(PonkError::MalformedPayload);
        }
        let m = data[offset + 1] as usize;
        let meta_start = offset + 2;
        if 12 * m + 2 > data.len() - meta_start {
            return Err(PonkError::MalformedPayload);
        }
        let metadata = decode_metadata(data, meta_start, m);
        let meta_end = meta_start + 12 * m;
        let mut count_offset = meta_end;
        let n = match read_u16_le(data, &mut count_offset) {
            Some(v) => v as usize,
            None => return Err(PonkError::MalformedPayload),
        };
        assert(n == u16_at(data@, meta_end as int));
        if n > limits.max_total_points - total_points {
            return Err(PonkError::TooManyTotalPoints { max: limits.max_total_points });
        }
        let points_start = meta_end + 2;
        let point_bytes = n * format.bytes_per_point();
        if point_bytes > data.len() - points_start {
            return Err(PonkError::MalformedPayload);
        }
        assert(point_bytes == points_size(format, n as nat));
        let points = match format {
            DataFormat::XyRgbU16 => PonkPathPoints::XyRgbU16(
                decode_u16_points(data, points_start, n),
            ),
            DataFormat::XyF32RgbU8 => match decode_f32_points(data, points_start, n) {
                Ok(p) => PonkPathPoints::XyF32RgbU8(p),
                Err(e) => return Err(e),
            },
        };
        let path = PonkWirePath { metadata, points };
        let ghost next = points_start + point_bytes;
        assert(path@ =~= WirePathModel {
            metadata: metadata_seq(data@, meta_start as int, m as nat),
            points: points_seq(data@, format, points_start as int, n as nat),
        });
        let ghost old_paths = paths@;
        proof {
            lemma_prepend_one(
                wire_paths_view(old_paths),
                path@,
                spec_parse_paths(data@, next, old_paths.len() + 1, (total_points + n) as nat, *limits),
            );
        }
        paths.push(path);
        assert(wire_paths_view(paths@) =~= wire_paths_view(old_paths).push(path@));
        offset = points_start + point_bytes;
        total_points = total_points + n;
    }
    Ok(paths)
}

/// Checks a reassembled payload's size and checksum, then decodes its paths.
pub(crate) fn decode_payload_checked_wire(
    header: &Header,
    payload: &[u8],
    limits: &PonkDecoderLimits,
) -> (r: Result<Option<PonkWireFrame>, PonkError>)
    ensures
        frame_result_view(r) == spec_decode_payload_checked(header@, payload@, *limits),
{
    if payload.len() > limits.max_frame_payload_bytes {
        return Err(PonkError::FramePayloadTooLarge { max: limits.max_frame_payload_bytes });
    }
    if crate::bytes::checksum(payload) != header.data_crc {
        return Ok(None);
    }
    let paths = match decode_payload(payload, limits) {
        Ok(p) => p,
        Err(e) => return Err(e),
    };
    let frame = PonkWireFrame {
        sender_id: header.sender_id,
        sender_name: header.sender_name.clone(),
        frame_number: header.frame_number,
        paths,
    };
    Ok(Some(frame))
}

/// Decodes one complete datagram with decoder-only safety limits.
pub fn decode_wire_datagram_with_limits(
    datagram: &[u8],
    limits: &PonkDecoderLimits,
) -> (r: Result<Option<PonkWireFrame>, PonkError>)
    ensures
        frame_result_view(r) == spec_decode_wire_datagram(datagram@, *limits),
{
    let (header, payload) = match split_datagram(datagram) {
        Err(e) => return Err(e),
        Ok(None) => return Ok(None),
        Ok(Some(hp)) => hp,
    };
    if header.chunk_count != 1 || header.chunk_number != 0 {
        return Ok(None);
    }
    decode_payload_checked_wire(&header, payload, limits)
}

/// Decodes one complete datagram without losing per-path formats or U16 bits,
/// under the default decoder limits.
pub fn decode_wire_datagram(datagram: &[u8]) -> (r: Result<Option<PonkWireFrame>, PonkError>)
    ensures
        frame_result_view(r) == spec_decode_wire_datagram(datagram@, crate::model::default_decoder_limits()),
{
    let limits = PonkDecoderLimits::default();
    decode_wire_datagram_with_limits(datagram, &limits)
}


/// Rejects a datagram size limit outside what UDP and the header allow.
fn validate_max_datagram_len(max_datagram_len: usize) -> (r: Result<(), PonkError>)
    ensures
        max_datagram_len > 65507 ==> r == Err::<(), PonkError>(
            PonkError::DatagramTooLarge { max: 65507, actual: max_datagram_len },
        ),
        max_datagram_len <= 65507 && max_datagram_len <= 52 ==> r == Err::<(), PonkError>(
            PonkError::MaxDatagramTooSmall { min: 53, actual: max_datagram_len },
        ),
        52 < max_datagram_len <= 65507 ==> r is Ok,
{
    if max_datagram_len > MAX_DATAGRAM_LEN {
        return Err(PonkError::DatagramTooLarge { max: MAX_DATAGRAM_LEN, actual: max_datagram_len });
    }
    if max_datagram_len <= HEADER_LEN {
        return Err(PonkError::MaxDatagramTooSmall { min: HEADER_LEN + 1, actual: max_datagram_len });
    }
    Ok(())
}

/// Applies the payload policy limit and the 255-chunk capacity to a payload length.
fn check_payload_limit(
    payload_len: usize,
    limits: PonkEncoderLimits,
    hard_payload_max: usize,
) -> (r: Result<(), PonkError>)
    requires
        hard_payload_max >= 255 || !(spec_check_payload_limit(
            payload_len as nat,
            limits,
            hard_payload_max as nat,
        ) matches Err(PonkError::TooManyChunks(_))),
    ensures
        r == spec_check_payload_limit(payload_len as nat, limits, hard_payload_max as nat),
{
    if let Some(max) = limits.max_frame_payload_bytes {
        if payload_len > max {
            return Err(PonkError::FramePayloadTooLarge { max });
        }
    }
    if payload_len > hard_payload_max {
        let per_chunk = hard_payload_max / 255;
        let chunks = if payload_len % per_chunk == 0 {
            payload_len / per_chunk
        } else {
            assert(payload_len / per_chunk + 1 <= payload_len) by (nonlinear_arith)
                requires
                    per_chunk >= 1,
                    payload_len % per_chunk != 0,
            {
                if per_chunk == 1 {
                    assert(payload_len % 1 == 0);
                } else {
                    assert(payload_len / per_chunk <= payload_len / 2);
                }
            }
            payload_len / per_chunk + 1
        };
        return Err(PonkError::TooManyChunks(chunks));
    }
    Ok(())
}

/// Tests whether some point has a non-finite coordinate.
fn has_nonfinite(points: &Vec<PonkPoint>) -> (r: bool)
    ensures
        r == exists|k: int| 0 <= k < points@.len() && #[trigger] point_nonfinite(points@[k]),
{
    let mut i: usize = 0;
    while i < points.len()
        invariant
            i <= points@.len(),
            forall|k: int| 0 <= k < i ==> !#[trigger] point_nonfinite(points@[k]),
        decreases points@.len() - i,
    {
        if !finite_bits(points[i].x_bits) || !finite_bits(points[i].y_bits) {
            assert(point_nonfinite(points@[i as int]));
            return true;
        }
        i = i + 1;
    }
    false
}

/// Validates a frame against the encoder policy and wire widths and returns its
/// payload length.
#[verifier::spinoff_prover]
fn encoded_payload_len(
    frame: &PonkWireFrame,
    options: &PonkEncodeOptions,
    hard_payload_max: usize,
) -> (r: Result<usize, PonkError>)
    requires
        hard_payload_max >= 255 || !(spec_encoded_payload_len(frame@, *options, hard_payload_max as nat) matches Err(
            PonkError::TooManyChunks(_),
        )),
    ensures
        match r {
            Ok(n) => spec_encoded_payload_len(frame@, *options, hard_payload_max as nat) == Ok::<
                nat,
                PonkError,
            >(n as nat) && n == payload_bytes(frame@, options.empty_frame).len() && n
                <= hard_payload_max,
            Err(e) => spec_encoded_payload_len(frame@, *options, hard_payload_max as nat)
                == Err::<nat, PonkError>(e),
        },
{
    let ghost paths = frame@.paths;
    if let Some(max) = options.limits.max_paths {
        if frame.paths.len() > max {
            return Err(PonkError::TooManyPaths { max });
        }
    }
    if frame.paths.len() == 0 {
        let len: usize = match options.empty_frame {
            EmptyFrameEncoding::HeaderOnly => 0,
            EmptyFrameEncoding::ZeroPointPath(_) => 4,
        };
        match check_payload_limit(len, options.limits, hard_payload_max) {
            Err(e) => return Err(e),
            Ok(_) => {},
        }
        return Ok(len);
    }
    let mut payload_len: usize = 0;
    let mut total_points: usize = 0;
    let mut i: usize = 0;
    assert(paths.take(0) =~= Seq::<WirePathModel>::empty());
    while i < frame.paths.len()
        invariant
            i <= frame.paths@.len(),
            paths == frame@.paths,
            paths.len() == frame.paths@.len(),
            paths.len() > 0,
            hard_payload_max >= 255 || !(spec_encoded_payload_len(frame@, *options, hard_payload_max as nat) matches Err(
                PonkError::TooManyChunks(_),
            )),
            payload_len <= hard_payload_max,
            10 * total_points <= payload_len,
            payload_len == paths_bytes(paths.take(i as int)).len(),
            spec_encoded_payload_len(frame@, *options, hard_payload_max as nat) == spec_scan_paths(
                paths,
                i as int,
                payload_len as nat,
                total_points as nat,
                options.limits,
                hard_payload_max as nat,
            ),
        decreases frame.paths@.len() - i,
    {
        let path = &frame.paths[i];
        assert(path@ == paths[i as int]);
        if path.metadata.len() > 255 {
            return Err(PonkError::TooManyMetadata(path.metadata.len()));
        }
        let point_count = path.points.len();
        if point_count > 65535 {
            return Err(PonkError::TooManyPoints(point_count));
        }
        let new_total = total_points + point_count;
        if let Some(max) = options.limits.max_total_points {
            if new_total > max {
                return Err(PonkError::TooManyTotalPoints { max });
            }
        }
        if let PonkPathPoints::XyF32RgbU8(points) = &path.points {
            if has_nonfinite(points) {
                return Err(PonkError::InvalidCoordinate);
            }
        }
        let metadata_len = path.metadata.len() * 12;
        let point_len = point_count * path.points.data_format().bytes_per_point();
        let path_len = 4 + metadata_len + point_len;
        assert(path@.metadata.len() == path.metadata@.len());
        assert(point_len == points_size(path@.points.format(), path@.points.len()));
        assert(path_len == path_size(path@));
        proof {
            lemma_path_len(path@);
            lemma_paths_bytes_push(paths, i as int);
        }
        payload_len = match payload_len.checked_add(path_len) {
            Some(total) => total,
            None => return Err(PonkError::FramePayloadTooLarge { max: hard_payload_max }),
        };
        match check_payload_limit(payload_len, options.limits, hard_payload_max) {
            Err(e) => return Err(e),
            Ok(_) => {},
        }
        total_points = new_total;
        i = i + 1;
    }
    assert(paths.take(i as int) =~= paths);
    Ok(payload_len)
}

/// Appends every byte of `bytes`.
fn push_all(out: &mut Vec<u8>, bytes: &[u8])
    ensures
        final(out)@ == old(out)@ + bytes@,
{
    let mut i: usize = 0;
    while i < bytes.len()
        invariant
            i <= bytes@.len(),
            out@ == old(out)@ + bytes@.take(i as int),
        decreases bytes@.len() - i,
    {
        out.push(bytes[i]);
        i = i + 1;
        assert(out@ =~= old(out)@ + bytes@.take(i as int));
    }
    assert(bytes@.take(bytes@.len() as int) =~= bytes@);
}

/// Appends one metadata record.
fn push_metadata(out: &mut Vec<u8>, record: &PonkMetadata)
    ensures
        final(out)@ == old(out)@ + metadata_bytes(record@),
{
    let key = fixed_bytes(record.key.as_str(), 8);
    push_all(out, key.as_slice());
    push_u32_le(out, record.value_bits);
    assert(final(out)@ =~= old(out)@ + metadata_bytes(record@));
}

/// Appends one U16 point.
fn push_u16_point(out: &mut Vec<u8>, p: &XyRgbU16Point)
    ensures
        final(out)@ == old(out)@ + u16_point_bytes(*p),
{
    push_u16_le(out, p.x);
    push_u16_le(out, p.y);
    push_u16_le(out, p.rgb[0]);
    push_u16_le(out, p.rgb[1]);
    push_u16_le(out, p.rgb[2]);
    assert(final(out)@ =~= old(out)@ + u16_point_bytes(*p));
}

/// Appends one F32 point.
fn push_f32_point(out: &mut Vec<u8>, p: &PonkPoint)
    ensures
        final(out)@ == old(out)@ + f32_point_bytes(*p),
{
    push_u32_le(out, p.x_bits);
    push_u32_le(out, p.y_bits);
    out.push(p.rgb[0]);
    out.push(p.rgb[1]);
    out.push(p.rgb[2]);
    assert(final(out)@ =~= old(out)@ + f32_point_bytes(*p));
}

/// Appends one path.
fn push_path(out: &mut Vec<u8>, path: &PonkWirePath)
    ensures
        final(out)@ == old(out)@ + path_bytes(path@),
{
    let ghost start = old(out)@;
    out.push(path.points.data_format().wire());
    out.push(path.metadata.len() as u8);
    let ghost head = out@;
    let mut k: usize = 0;
    while k < path.metadata.len()
        invariant
            k <= path.metadata@.len(),
            out@ == head + metadata_list_bytes(path@.metadata.take(k as int)),
        decreases path.metadata@.len() - k,
    {
        push_metadata(out, &path.metadata[k]);
        assert(path@.metadata.take(k + 1).drop_last() =~= path@.metadata.take(k as int));
        k = k + 1;
        assert(out@ =~= head + metadata_list_bytes(path@.metadata.take(k as int)));
    }
    assert(path@.metadata.take(k as int) =~= path@.metadata);
    push_u16_le(out, path.points.len() as u16);
    let ghost mid = out@;
    match &path.points {
        PonkPathPoints::XyRgbU16(points) => {
            let mut j: usize = 0;
            while j < points.len()
                invariant
                    j <= points@.len(),
                    out@ == mid + u16_points_bytes(points@.take(j as int)),
                decreases points@.len() - j,
            {
                push_u16_point(out, &points[j]);
                assert(points@.take(j + 1).drop_last() =~= points@.take(j as int));
                j = j + 1;
                assert(out@ =~= mid + u16_points_bytes(points@.take(j as int)));
            }
            assert(points@.take(j as int) =~= points@);
        },
        PonkPathPoints::XyF32RgbU8(points) => {
            let mut j: usize = 0;
            while j < points.len()
                invariant
                    j <= points@.len(),
                    out@ == mid + f32_points_bytes(points@.take(j as int)),
                decreases points@.len() - j,
            {
                push_f32_point(out, &points[j]);
                assert(points@.take(j + 1).drop_last() =~= points@.take(j as int));
                j = j + 1;
                assert(out@ =~= mid + f32_points_bytes(points@.take(j as int)));
            }
            assert(points@.take(j as int) =~= points@);
        },
    }
    assert(final(out)@ =~= old(out)@ + path_bytes(path@));
}

/// Writes the payload of a frame that passed validation.
fn encode_payload(frame: &PonkWireFrame, empty_frame: EmptyFrameEncoding) -> (r: Vec<u8>)
    ensures
        r@ == payload_bytes(frame@, empty_frame),
{
    let mut payload: Vec<u8> = Vec::new();
    if frame.paths.len() == 0 {
        if let EmptyFrameEncoding::ZeroPointPath(format) = empty_frame {
            payload.push(format.wire());
            payload.push(0);
            payload.push(0);
            payload.push(0);
        }
        assert(payload@ =~= payload_bytes(frame@, empty_frame));
        return payload;
    }
    let ghost paths = frame@.paths;
    let mut i: usize = 0;
    assert(paths.take(0) =~= Seq::<WirePathModel>::empty());
    while i < frame.paths.len()
        invariant
            i <= frame.paths@.len(),
            paths == frame@.paths,
            paths.len() == frame.paths@.len(),
            payload@ == paths_bytes(paths.take(i as int)),
        decreases frame.paths@.len() - i,
    {
        push_path(&mut payload, &frame.paths[i]);
        proof {
            lemma_paths_bytes_push(paths, i as int);
        }
        i = i + 1;
    }
    assert(paths.take(i as int) =~= paths);
    payload
}

/// Writes the 52-byte header of one datagram.
fn encode_header(frame: &PonkWireFrame, chunk_count: u8, chunk_number: u8, data_crc: u32) -> (r: Vec<u8>)
    ensures
        r@ == header_bytes(frame@, chunk_count, chunk_number, data_crc),
        r@.len() == 52,
{
    let mut datagram: Vec<u8> = Vec::new();
    datagram.push(0x50);
    datagram.push(0x4f);
    datagram.push(0x4e);
    datagram.push(0x4b);
    datagram.push(0x2d);
    datagram.push(0x55);
    datagram.push(0x44);
    datagram.push(0x50);
    datagram.push(PROTOCOL_VERSION);
    push_u32_le(&mut datagram, frame.sender_id);
    let name = fixed_bytes(frame.sender_name.as_str(), SENDER_NAME_LEN);
    push_all(&mut datagram, name.as_slice());
    datagram.push(frame.frame_number);
    datagram.push(chunk_count);
    datagram.push(chunk_number);
    push_u32_le(&mut datagram, data_crc);
    proof {
        lemma_fixed_field_len(frame@.sender_name, 32);
    }
    assert(datagram@ =~= header_bytes(frame@, chunk_count, chunk_number, data_crc));
    datagram
}

/// The byte view of a list of datagrams.
pub open spec fn datagrams_view(ds: Seq<Vec<u8>>) -> Seq<Seq<u8>> {
    ds.map_values(|d: Vec<u8>| d@)
}

/// Encodes a mixed-format frame without reducing its point fields.
pub fn encode_wire_datagrams(
    frame: &PonkWireFrame,
    options: &PonkEncodeOptions,
) -> (r: Result<Vec<Vec<u8>>, PonkError>)
    ensures
        match r {
            Ok(ds) => spec_encode_wire_datagrams(frame@, *options) == Ok::<Seq<Seq<u8>>, PonkError>(
                datagrams_view(ds@),
            ),
            Err(e) => spec_encode_wire_datagrams(frame@, *options) == Err::<Seq<Seq<u8>>, PonkError>(e),
        },
{
    match validate_max_datagram_len(options.max_datagram_len) {
        Err(e) => return Err(e),
        Ok(_) => {},
    }
    let max_chunk_payload = options.max_datagram_len - HEADER_LEN;
    let hard_payload_max = max_chunk_payload * 255;
    let payload_len = match encoded_payload_len(frame, options, hard_payload_max) {
        Err(e) => return Err(e),
        Ok(n) => n,
    };
    let payload = encode_payload(frame, options.empty_frame);
    let data_crc = crate::bytes::checksum(payload.as_slice());
    let ghost chunk = max_chunk_payload as nat;
    if payload.len() == 0 {
        let mut only: Vec<Vec<u8>> = Vec::new();
        only.push(encode_header(frame, 1, 0, data_crc));
        assert(datagrams_view(only@) =~= datagrams_for(frame@, payload@, chunk));
        return Ok(only);
    }
    proof {
        lemma_chunks_of_len(payload@, chunk);
        lemma_chunks_needed_bound(payload@.len(), chunk);
    }
    let chunk_count = if payload_len % max_chunk_payload == 0 {
        payload_len / max_chunk_payload
    } else {
        payload_len / max_chunk_payload + 1
    };
    if chunk_count > 255 {
        return Err(PonkError::TooManyChunks(chunk_count));
    }
    let ghost pieces = chunks_of(payload@, chunk);
    assert(pieces.len() == chunk_count);
    let mut datagrams: Vec<Vec<u8>> = Vec::new();
    let mut offset: usize = 0;
    let mut number: usize = 0;
    assert(payload@.skip(0) =~= payload@);
    assert(pieces.take(0) + pieces =~= pieces);
    assert(datagrams_view(datagrams@) =~= Seq::new(
        0,
        |i: int| header_bytes(frame@, chunk_count as u8, i as u8, data_crc) + pieces[i],
    ));
    while offset < payload.len()
        invariant
            offset <= payload@.len(),
            number <= pieces.len(),
            pieces == chunks_of(payload@, chunk),
            pieces.len() == chunk_count,
            chunk_count <= 255,
            chunk == max_chunk_payload,
            chunk > 0,
            pieces == pieces.take(number as int) + chunks_of(payload@.skip(offset as int), chunk),
            datagrams_view(datagrams@) == Seq::new(
                number as nat,
                |i: int| header_bytes(frame@, chunk_count as u8, i as u8, data_crc) + pieces[i],
            ),
            data_crc == crate::bytes::spec_checksum(payload@),
        decreases payload@.len() - offset,
    {
        let ghost rest = payload@.skip(offset as int);
        let end = if payload.len() - offset > max_chunk_payload {
            offset + max_chunk_payload
        } else {
            payload.len()
        };
        let piece = &payload.as_slice()[offset..end];
        proof {
            if rest.len() <= chunk {
                assert(piece@ =~= rest);
                assert(payload@.skip(end as int) =~= Seq::<u8>::empty());
            } else {
                assert(piece@ =~= rest.take(chunk as int));
                assert(payload@.skip(end as int) =~= rest.skip(chunk as int));
            }
        }
        assert(pieces[number as int] == piece@) by {
            assert(pieces[number as int] == chunks_of(rest, chunk)[0]);
        }
        let mut datagram = encode_header(frame, chunk_count as u8, number as u8, data_crc);
        push_all(&mut datagram, piece);
        let ghost before = datagrams@;
        assert(datagrams_view(before).len() == before.len());
        assert(before.len() == number);
        assert(datagram@ == header_bytes(frame@, chunk_count as u8, number as u8, data_crc)
            + pieces[number as int]);
        datagrams.push(datagram);
        assert(pieces.take(number + 1) + chunks_of(payload@.skip(end as int), chunk) =~= pieces) by {
            assert(chunks_of(rest, chunk) =~= seq![piece@] + chunks_of(payload@.skip(end as int), chunk));
        }
        number = number + 1;
        offset = end;
        assert(datagrams_view(datagrams@) =~= Seq::new(
            number as nat,
            |i: int| header_bytes(frame@, chunk_count as u8, i as u8, data_crc) + pieces[i],
        )) by {
            assert(datagrams@ == before.push(datagram));
            assert forall|i: int| 0 <= i < number implies #[trigger] datagrams_view(datagrams@)[i]
                == header_bytes(frame@, chunk_count as u8, i as u8, data_crc) + pieces[i] by {
                if i < number - 1 {
                    assert(datagrams@[i] == before[i]);
                    assert(datagrams_view(before)[i] == header_bytes(
                        frame@,
                        chunk_count as u8,
                        i as u8,
                        data_crc,
                    ) + pieces[i]);
                }
            }
        }
    }
    assert(number == pieces.len()) by {
        assert(payload@.skip(offset as int) =~= Seq::<u8>::empty());
        assert(pieces =~= pieces.take(number as int));
    }
    assert(datagrams_view(datagrams@) =~= datagrams_for(frame@, payload@, chunk));
    Ok(datagrams)
}

} // verus!
