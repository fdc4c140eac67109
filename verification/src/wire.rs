//! The wire format as mathematics: what a datagram header, a path and a payload
//! hold, byte by byte, and what decoding them yields.
use vstd::prelude::*;

use crate::bytes::{before_nul, boundary_at_most, fixed_field, le16, le32, spec_checksum, u16_at, u32_at};
use crate::error::PonkError;
use crate::model::{
    DataFormat, EmptyFrameEncoding, MetadataModel, PointsModel, PonkDecoderLimits,
    PonkEncodeOptions, PonkEncoderLimits, PonkPoint, WireFrameModel, WirePathModel,
    XyRgbU16Point, format_of_wire, format_wire, is_finite_bits,
};
use crate::text::lossy_text;

verus! {

/// The eight magic bytes `PONK-UDP` that open every datagram.
pub open spec fn magic() -> Seq<u8> {
    seq![0x50u8, 0x4fu8, 0x4eu8, 0x4bu8, 0x2du8, 0x55u8, 0x44u8, 0x50u8]
}

/// Abstract contents of a datagram header.
#[verifier::ext_equal]
pub struct HeaderModel {
    pub sender_id: u32,
    pub sender_name: Seq<char>,
    pub sender_name_bytes: Seq<u8>,
    pub frame_number: u8,
    pub chunk_count: u8,
    pub chunk_number: u8,
    pub data_crc: u32,
}

/// The header fields stored in the first 52 bytes of a datagram.
pub open spec fn header_fields(d: Seq<u8>) -> HeaderModel {
    HeaderModel {
        sender_id: u32_at(d, 9),
        sender_name: lossy_text(before_nul(d.subrange(13, 45))),
        sender_name_bytes: d.subrange(13, 45),
        frame_number: d[45],
        chunk_count: d[46],
        chunk_number: d[47],
        data_crc: u32_at(d, 48),
    }
}

/// Splitting a datagram into its header: `Ok(None)` for traffic that is not PONK
/// or has invalid chunk numbering, an error for a malformed PONK header.
pub open spec fn spec_split_datagram(d: Seq<u8>) -> Result<Option<HeaderModel>, PonkError> {
    if d.len() < 8 || d.take(8) != magic() {
        Ok(None)
    } else if d.len() < 52 {
        Err(PonkError::DatagramTooSmall)
    } else if d.len() > 65507 {
        Err(PonkError::DatagramTooLarge { max: 65507, actual: d.len() as usize })
    } else if d[8] != 0 {
        Err(PonkError::UnsupportedProtocolVersion(d[8]))
    } else if d[46] == 0 || d[47] >= d[46] {
        Ok(None)
    } else {
        Ok(Some(header_fields(d)))
    }
}

/// Payload bytes that `n` points of a format occupy.
pub open spec fn points_size(format: DataFormat, n: nat) -> nat {
    match format {
        DataFormat::XyRgbU16 => 10 * n,
        DataFormat::XyF32RgbU8 => 11 * n,
    }
}

/// A metadata record stored at `i`: an 8-byte zero-terminated key and an `f32` value.
pub open spec fn metadata_at(data: Seq<u8>, i: int) -> MetadataModel {
    MetadataModel {
        key: lossy_text(before_nul(data.subrange(i, i + 8))),
        value_bits: u32_at(data, i + 8),
    }
}

/// A U16 point stored at `i`: five little-endian words.
pub open spec fn u16_point_at(data: Seq<u8>, i: int) -> XyRgbU16Point {
    XyRgbU16Point {
        x: u16_at(data, i),
        y: u16_at(data, i + 2),
        rgb: [u16_at(data, i + 4), u16_at(data, i + 6), u16_at(data, i + 8)],
    }
}

/// An F32 point stored at `i`: two little-endian `f32` words and three color bytes.
pub open spec fn f32_point_at(data: Seq<u8>, i: int) -> PonkPoint {
    PonkPoint {
        x_bits: u32_at(data, i),
        y_bits: u32_at(data, i + 4),
        rgb: [data[i + 8], data[i + 9], data[i + 10]],
    }
}

/// The `m` metadata records that start at `i`.
pub open spec fn metadata_seq(data: Seq<u8>, i: int, m: nat) -> Seq<MetadataModel> {
    Seq::new(m, |k: int| metadata_at(data, i + 12 * k))
}

/// The `n` points of a format that start at `i`.
pub open spec fn points_seq(data: Seq<u8>, format: DataFormat, i: int, n: nat) -> PointsModel {
    match format {
        DataFormat::XyRgbU16 => PointsModel::XyRgbU16(
            Seq::new(n, |k: int| u16_point_at(data, i + 10 * k)),
        ),
        DataFormat::XyF32RgbU8 => PointsModel::XyF32RgbU8(
            Seq::new(n, |k: int| f32_point_at(data, i + 11 * k)),
        ),
    }
}

/// True when a point has a coordinate that is not a finite `f32`.
pub open spec fn point_nonfinite(p: PonkPoint) -> bool {
    !is_finite_bits(p.x_bits) || !is_finite_bits(p.y_bits)
}

/// True when some F32 point among the `n` starting at `i` has a non-finite coordinate.
pub open spec fn has_nonfinite_point(data: Seq<u8>, i: int, n: nat) -> bool {
    exists|k: int| 0 <= k < n && #[trigger] point_nonfinite(f32_point_at(data, i + 11 * k))
}

/// Prepends decoded paths to the result of decoding the rest.
pub open spec fn prepend_paths(
    prefix: Seq<WirePathModel>,
    rest: Result<Seq<WirePathModel>, PonkError>,
) -> Result<Seq<WirePathModel>, PonkError> {
    match rest {
        Ok(paths) => Ok(prefix + paths),
        Err(e) => Err(e),
    }
}

/// Decoding the paths of `data` from offset `off`, when `count` paths holding `total`
/// points were already decoded. Each path is a format byte, a metadata count byte,
/// that many 12-byte records, a little-endian point count and the points; decoding
/// goes on until the data is used up exactly.
pub open spec fn spec_parse_paths(
    data: Seq<u8>,
    off: int,
    count: nat,
    total: nat,
    limits: PonkDecoderLimits,
) -> Result<Seq<WirePathModel>, PonkError>
    decreases data.len() - off,
{
    if off < 0 || off >= data.len() {
        Ok(Seq::empty())
    } else if count >= limits.max_paths {
        Err(PonkError::TooManyPaths { max: limits.max_paths })
    } else if format_of_wire(data[off]) is Err {
        Err(PonkError::UnsupportedDataFormat(data[off]))
    } else if off + 2 > data.len() {
        Err(PonkError::MalformedPayload)
    } else {
        let format = format_of_wire(data[off])->Ok_0;
        let m = data[off + 1] as nat;
        let meta_end = off + 2 + 12 * m;
        if meta_end + 2 > data.len() {
            Err(PonkError::MalformedPayload)
        } else {
            let n = u16_at(data, meta_end) as nat;
            if total + n > limits.max_total_points {
                Err(PonkError::TooManyTotalPoints { max: limits.max_total_points })
            } else {
                let pts_start = meta_end + 2;
                let next = pts_start + points_size(format, n);
                if next > data.len() {
                    Err(PonkError::MalformedPayload)
                } else if format == DataFormat::XyF32RgbU8 && has_nonfinite_point(
                    data,
                    pts_start,
                    n,
                ) {
                    Err(PonkError::InvalidCoordinate)
                } else {
                    let path = WirePathModel {
                        metadata: metadata_seq(data, off + 2, m),
                        points: points_seq(data, format, pts_start, n),
                    };
                    prepend_paths(
                        seq![path],
                        spec_parse_paths(data, next, count + 1, total + n, limits),
                    )
                }
            }
        }
    }
}

/// Decoding a reassembled payload under a header: too large a payload is an error,
/// a checksum mismatch is ignored traffic, and otherwise the paths are decoded.
pub open spec fn spec_decode_payload_checked(
    h: HeaderModel,
    payload: Seq<u8>,
    limits: PonkDecoderLimits,
) -> Result<Option<WireFrameModel>, PonkError> {
    if payload.len() > limits.max_frame_payload_bytes {
        Err(PonkError::FramePayloadTooLarge { max: limits.max_frame_payload_bytes })
    } else if crate::bytes::spec_checksum(payload) != h.data_crc {
        Ok(None)
    } else {
        match spec_parse_paths(payload, 0, 0, 0, limits) {
            Err(e) => Err(e),
            Ok(paths) => Ok(
                Some(
                    WireFrameModel {
                        sender_id: h.sender_id,
                        sender_name: h.sender_name,
                        frame_number: h.frame_number,
                        paths,
                    },
                ),
            ),
        }
    }
}

/// Decoding one complete datagram; multipart input is ignored.
pub open spec fn spec_decode_wire_datagram(
    d: Seq<u8>,
    limits: PonkDecoderLimits,
) -> Result<Option<WireFrameModel>, PonkError> {
    match spec_split_datagram(d) {
        Err(e) => Err(e),
        Ok(None) => Ok(None),
        Ok(Some(h)) => if h.chunk_count != 1 {
            Ok(None)
        } else {
            spec_decode_payload_checked(h, d.subrange(52, d.len() as int), limits)
        },
    }
}


/// The bytes of one metadata record: the key field and the value bits.
pub open spec fn metadata_bytes(m: MetadataModel) -> Seq<u8> {
    fixed_field(m.key, 8) + le32(m.value_bits)
}

/// The bytes of a list of metadata records, one after another.
pub open spec fn metadata_list_bytes(ms: Seq<MetadataModel>) -> Seq<u8>
    decreases ms.len(),
{
    if ms.len() == 0 {
        Seq::empty()
    } else {
        metadata_list_bytes(ms.drop_last()) + metadata_bytes(ms.last())
    }
}

/// The bytes of one U16 point: five little-endian words.
pub open spec fn u16_point_bytes(p: XyRgbU16Point) -> Seq<u8> {
    le16(p.x) + le16(p.y) + le16(p.rgb[0]) + le16(p.rgb[1]) + le16(p.rgb[2])
}

/// The bytes of one F32 point: the two coordinate words and the three color bytes.
pub open spec fn f32_point_bytes(p: PonkPoint) -> Seq<u8> {
    le32(p.x_bits) + le32(p.y_bits) + seq![p.rgb[0], p.rgb[1], p.rgb[2]]
}

/// The bytes of a list of U16 points.
pub open spec fn u16_points_bytes(ps: Seq<XyRgbU16Point>) -> Seq<u8>
    decreases ps.len(),
{
    if ps.len() == 0 {
        Seq::empty()
    } else {
        u16_points_bytes(ps.drop_last()) + u16_point_bytes(ps.last())
    }
}

/// The bytes of a list of F32 points.
pub open spec fn f32_points_bytes(ps: Seq<PonkPoint>) -> Seq<u8>
    decreases ps.len(),
{
    if ps.len() == 0 {
        Seq::empty()
    } else {
        f32_points_bytes(ps.drop_last()) + f32_point_bytes(ps.last())
    }
}

/// The bytes of a path's points.
pub open spec fn points_bytes(p: PointsModel) -> Seq<u8> {
    match p {
        PointsModel::XyRgbU16(ps) => u16_points_bytes(ps),
        PointsModel::XyF32RgbU8(ps) => f32_points_bytes(ps),
    }
}

/// The bytes of one path: format, metadata count, metadata records, point count, points.
pub open spec fn path_bytes(p: WirePathModel) -> Seq<u8> {
    seq![format_wire(p.points.format()), p.metadata.len() as u8] + metadata_list_bytes(p.metadata)
        + le16(p.points.len() as u16) + points_bytes(p.points)
}

/// The bytes of a list of paths, one after another.
pub open spec fn paths_bytes(ps: Seq<WirePathModel>) -> Seq<u8>
    decreases ps.len(),
{
    if ps.len() == 0 {
        Seq::empty()
    } else {
        paths_bytes(ps.drop_last()) + path_bytes(ps.last())
    }
}

/// The payload of a frame: its paths, or for a frame without paths what the
/// empty-frame policy selects.
pub open spec fn payload_bytes(frame: WireFrameModel, empty: EmptyFrameEncoding) -> Seq<u8> {
    if frame.paths.len() == 0 {
        match empty {
            EmptyFrameEncoding::HeaderOnly => Seq::empty(),
            EmptyFrameEncoding::ZeroPointPath(f) => seq![format_wire(f), 0u8, 0u8, 0u8],
        }
    } else {
        paths_bytes(frame.paths)
    }
}

/// The 52 header bytes of one datagram of a frame.
pub open spec fn header_bytes(frame: WireFrameModel, chunk_count: u8, chunk_number: u8, crc: u32) -> Seq<u8> {
    magic() + seq![0u8] + le32(frame.sender_id) + fixed_field(frame.sender_name, 32) + seq![
        frame.frame_number,
        chunk_count,
        chunk_number,
    ] + le32(crc)
}

/// Payload bytes one path occupies.
pub open spec fn path_size(p: WirePathModel) -> nat {
    4 + 12 * p.metadata.len() + points_size(p.points.format(), p.points.len())
}

/// True when some F32 point of the path has a non-finite coordinate.
pub open spec fn path_has_nonfinite(p: WirePathModel) -> bool {
    match p.points {
        PointsModel::XyF32RgbU8(ps) => exists|k: int| 0 <= k < ps.len() && #[trigger] point_nonfinite(ps[k]),
        PointsModel::XyRgbU16(_) => false,
    }
}

/// Smallest number of `chunk`-byte pieces that hold `len` bytes.
pub open spec fn chunks_needed(len: nat, chunk: nat) -> nat {
    if chunk == 0 {
        0
    } else if len % chunk == 0 {
        len / chunk
    } else {
        len / chunk + 1
    }
}

/// The policy and chunk-capacity check applied to a running payload length.
pub open spec fn spec_check_payload_limit(
    len: nat,
    limits: PonkEncoderLimits,
    hard_payload_max: nat,
) -> Result<(), PonkError> {
    if limits.max_frame_payload_bytes is Some && len > limits.max_frame_payload_bytes->Some_0 {
        Err(PonkError::FramePayloadTooLarge { max: limits.max_frame_payload_bytes->Some_0 })
    } else if len > hard_payload_max {
        Err(PonkError::TooManyChunks(chunks_needed(len, hard_payload_max / 255) as usize))
    } else {
        Ok(())
    }
}

/// Validating paths `i..` of a frame for encoding, after paths holding `total` points
/// and `len` payload bytes were accepted; the result is the payload length.
pub open spec fn spec_scan_paths(
    paths: Seq<WirePathModel>,
    i: int,
    len: nat,
    total: nat,
    limits: PonkEncoderLimits,
    hard_payload_max: nat,
) -> Result<nat, PonkError>
    decreases paths.len() - i,
{
    if i < 0 || i >= paths.len() {
        Ok(len)
    } else {
        let p = paths[i];
        let n = p.points.len();
        if p.metadata.len() > 255 {
            Err(PonkError::TooManyMetadata(p.metadata.len() as usize))
        } else if n > 65535 {
            Err(PonkError::TooManyPoints(n as usize))
        } else if limits.max_total_points is Some && total + n > limits.max_total_points->Some_0 {
            Err(PonkError::TooManyTotalPoints { max: limits.max_total_points->Some_0 })
        } else if path_has_nonfinite(p) {
            Err(PonkError::InvalidCoordinate)
        } else if len + path_size(p) > usize::MAX {
            Err(PonkError::FramePayloadTooLarge { max: hard_payload_max as usize })
        } else {
            let next = len + path_size(p);
            match spec_check_payload_limit(next, limits, hard_payload_max) {
                Err(e) => Err(e),
                Ok(_) => spec_scan_paths(paths, i + 1, next, total + n, limits, hard_payload_max),
            }
        }
    }
}

/// Validating a whole frame for encoding; the result is the payload length.
pub open spec fn spec_encoded_payload_len(
    frame: WireFrameModel,
    options: PonkEncodeOptions,
    hard_payload_max: nat,
) -> Result<nat, PonkError> {
    if options.limits.max_paths is Some && frame.paths.len() > options.limits.max_paths->Some_0 {
        Err(PonkError::TooManyPaths { max: options.limits.max_paths->Some_0 })
    } else if frame.paths.len() == 0 {
        let len: nat = match options.empty_frame {
            EmptyFrameEncoding::HeaderOnly => 0,
            EmptyFrameEncoding::ZeroPointPath(_) => 4,
        };
        match spec_check_payload_limit(len, options.limits, hard_payload_max) {
            Err(e) => Err(e),
            Ok(_) => Ok(len),
        }
    } else {
        spec_scan_paths(frame.paths, 0, 0, 0, options.limits, hard_payload_max)
    }
}

/// A payload cut into consecutive pieces of `chunk` bytes; the last may be shorter.
pub open spec fn chunks_of(payload: Seq<u8>, chunk: nat) -> Seq<Seq<u8>>
    decreases payload.len(),
{
    if payload.len() == 0 || chunk == 0 {
        Seq::empty()
    } else if payload.len() <= chunk {
        seq![payload]
    } else {
        seq![payload.take(chunk as int)] + chunks_of(payload.skip(chunk as int), chunk)
    }
}

/// The datagrams that carry a frame: each holds the header, with the chunk count, its
/// own chunk number and the checksum of the whole payload, then its piece of the
/// payload. An empty payload travels in one header-only datagram.
pub open spec fn datagrams_for(frame: WireFrameModel, payload: Seq<u8>, chunk: nat) -> Seq<Seq<u8>> {
    let crc = spec_checksum(payload);
    if payload.len() == 0 {
        seq![header_bytes(frame, 1, 0, crc)]
    } else {
        let pieces = chunks_of(payload, chunk);
        Seq::new(pieces.len(), |i: int| header_bytes(frame, pieces.len() as u8, i as u8, crc) + pieces[i])
    }
}

/// Encoding a frame into datagrams of at most `options.max_datagram_len` bytes.
pub open spec fn spec_encode_wire_datagrams(
    frame: WireFrameModel,
    options: PonkEncodeOptions,
) -> Result<Seq<Seq<u8>>, PonkError> {
    let max_len = options.max_datagram_len;
    if max_len > 65507 {
        Err(PonkError::DatagramTooLarge { max: 65507, actual: max_len })
    } else if max_len <= 52 {
        Err(PonkError::MaxDatagramTooSmall { min: 53, actual: max_len })
    } else {
        let chunk = (max_len - 52) as nat;
        match spec_encoded_payload_len(frame, options, chunk * 255) {
            Err(e) => Err(e),
            Ok(_) => Ok(datagrams_for(frame, payload_bytes(frame, options.empty_frame), chunk)),
        }
    }
}


pub proof fn lemma_boundary_at_most_range(bytes: Seq<u8>, n: int)
    ensures
        n >= 0 ==> 0 <= boundary_at_most(bytes, n) <= n,
    decreases n,
{
    if n > 0 {
        lemma_boundary_at_most_range(bytes, n - 1);
    }
}

pub proof fn lemma_fixed_field_len(text: Seq<char>, width: nat)
    ensures
        fixed_field(text, width).len() == width,
{
    let bytes = vstd::utf8::encode_utf8(text);
    let n = if bytes.len() < width { bytes.len() as int } else { width as int };
    lemma_boundary_at_most_range(bytes, n);
}

pub proof fn lemma_metadata_list_len(ms: Seq<MetadataModel>)
    ensures
        metadata_list_bytes(ms).len() == 12 * ms.len(),
    decreases ms.len(),
{
    if ms.len() > 0 {
        lemma_metadata_list_len(ms.drop_last());
        lemma_fixed_field_len(ms.last().key, 8);
    }
}

pub proof fn lemma_u16_points_len(ps: Seq<XyRgbU16Point>)
    ensures
        u16_points_bytes(ps).len() == 10 * ps.len(),
    decreases ps.len(),
{
    if ps.len() > 0 {
        lemma_u16_points_len(ps.drop_last());
    }
}

pub proof fn lemma_f32_points_len(ps: Seq<PonkPoint>)
    ensures
        f32_points_bytes(ps).len() == 11 * ps.len(),
    decreases ps.len(),
{
    if ps.len() > 0 {
        lemma_f32_points_len(ps.drop_last());
    }
}

pub proof fn lemma_path_len(p: WirePathModel)
    ensures
        path_bytes(p).len() == path_size(p),
{
    lemma_metadata_list_len(p.metadata);
    match p.points {
        PointsModel::XyRgbU16(ps) => lemma_u16_points_len(ps),
        PointsModel::XyF32RgbU8(ps) => lemma_f32_points_len(ps),
    }
}

pub proof fn lemma_paths_bytes_push(ps: Seq<WirePathModel>, i: int)
    requires
        0 <= i < ps.len(),
    ensures
        paths_bytes(ps.take(i + 1)) == paths_bytes(ps.take(i)) + path_bytes(ps[i]),
{
    assert(ps.take(i + 1).drop_last() =~= ps.take(i));
}

/// The number of pieces a non-empty payload is cut into.
pub proof fn lemma_chunks_of_len(payload: Seq<u8>, chunk: nat)
    requires
        chunk > 0,
        payload.len() > 0,
    ensures
        chunks_of(payload, chunk).len() == chunks_needed(payload.len(), chunk),
        forall|i: int| 0 <= i < chunks_of(payload, chunk).len() ==> #[trigger] chunks_of(payload, chunk)[i].len() > 0,
    decreases payload.len(),
{
    let len = payload.len();
    if len <= chunk {
        if len == chunk {
            assert(len % chunk == 0 && len / chunk == 1) by (nonlinear_arith)
                requires len == chunk, chunk > 0;
        } else {
            assert(len % chunk == len && len / chunk == 0) by (nonlinear_arith)
                requires len < chunk, chunk > 0;
        }
    } else {
        let rest = payload.skip(chunk as int);
        lemma_chunks_of_len(rest, chunk);
        let r = (len - chunk) as nat;
        assert(r % chunk == len % chunk && r / chunk + 1 == len / chunk) by (nonlinear_arith)
            requires r == len - chunk, len > chunk, chunk > 0;
        let cs = chunks_of(payload, chunk);
        assert forall|i: int| 0 <= i < cs.len() implies #[trigger] cs[i].len() > 0 by {
            if i > 0 {
                assert(cs[i] == chunks_of(rest, chunk)[i - 1]);
            }
        }
    }
}

/// A payload of at most 255 full chunks needs at most 255 datagrams.
pub proof fn lemma_chunks_needed_bound(len: nat, chunk: nat)
    requires
        chunk > 0,
        len <= chunk * 255,
    ensures
        chunks_needed(len, chunk) <= 255,
{
    assert(chunks_needed(len, chunk) <= 255) by (nonlinear_arith)
        requires
            chunk > 0,
            len <= chunk * 255,
            chunks_needed(len, chunk) == if len % chunk == 0 { len / chunk } else { len / chunk + 1 },
    ;
}


/// Every path that the encoder scan accepts fits the wire's count fields and has
/// only finite coordinates.
pub proof fn lemma_scan_accepts(
    paths: Seq<WirePathModel>,
    i: int,
    len: nat,
    total: nat,
    limits: PonkEncoderLimits,
    hard: nat,
    j: int,
)
    requires
        0 <= i <= j < paths.len(),
        spec_scan_paths(paths, i, len, total, limits, hard) is Ok,
    ensures
        paths[j].metadata.len() <= 255,
        paths[j].points.len() <= 65535,
        !path_has_nonfinite(paths[j]),
    decreases j - i,
{
    if i < j {
        let p = paths[i];
        let next = len + path_size(p);
        lemma_scan_accepts(paths, i + 1, next, total + p.points.len(), limits, hard, j);
    }
}

} // verus!
