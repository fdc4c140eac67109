//! Conversions between the mixed-format model and the legacy model with one format
//! per frame and 8-bit color.
//!
//! The legacy model normalizes U16 coordinates to `f32`. That arithmetic is floating
//! point, so the conversions take it as a function from the caller and state what
//! they do with its results.
use vstd::prelude::*;

use crate::assembly::PonkAssembler;
use crate::codec::{decode_wire_datagram_with_limits, encode_wire_datagrams, datagrams_view};
use crate::error::PonkError;
use crate::reassembly::spec_push;
use crate::framing::{carried_pieces, lemma_encoded_datagrams};
use crate::wire::{spec_decode_wire_datagram, spec_encode_wire_datagrams};
use crate::{DEFAULT_MAX_FRAME_PAYLOAD_BYTES, DEFAULT_MAX_PATHS, DEFAULT_MAX_POINTS};
use crate::model::{
    DataFormat, EmptyFrameEncoding, MetadataModel, PeerAddr, PonkDecoderLimits, PonkEncodeOptions,
    PonkEncoderLimits, PonkLimits, PointsModel, PonkFrame, PonkMetadata, PonkPath, PonkPathPoints,
    PonkPoint, PonkWireFrame, PonkWirePath, U16ColorReduction, WireFrameModel, XyRgbU16Point,
    expand_channel, expand_rgb8, finite_bits, is_finite_bits, metadata_view, reduce_channel,
    reduce_rgb16,
};

verus! {

/// Abstract contents of [`PonkPath`].
#[verifier::ext_equal]
pub struct LegacyPathModel {
    pub metadata: Seq<MetadataModel>,
    pub points: Seq<PonkPoint>,
}

impl View for PonkPath {
    type V = LegacyPathModel;

    open spec fn view(&self) -> LegacyPathModel {
        LegacyPathModel { metadata: metadata_view(self.metadata@), points: self.points@ }
    }
}

/// Abstract contents of [`PonkFrame`].
#[verifier::ext_equal]
pub struct LegacyFrameModel {
    pub sender_id: u32,
    pub sender_name: Seq<char>,
    pub frame_number: u8,
    pub paths: Seq<LegacyPathModel>,
}

impl View for PonkFrame {
    type V = LegacyFrameModel;

    open spec fn view(&self) -> LegacyFrameModel {
        LegacyFrameModel {
            sender_id: self.sender_id,
            sender_name: self.sender_name@,
            frame_number: self.frame_number,
            paths: self.paths@.map_values(|p: PonkPath| p@),
        }
    }
}

/// True when a point has a coordinate that is not a finite `f32`.
pub open spec fn point_is_nonfinite(p: PonkPoint) -> bool {
    !is_finite_bits(p.x_bits) || !is_finite_bits(p.y_bits)
}

/// True when some point of the legacy frame has a non-finite coordinate.
pub open spec fn legacy_has_nonfinite(frame: LegacyFrameModel) -> bool {
    exists|i: int, k: int|
        0 <= i < frame.paths.len() && 0 <= k < frame.paths[i].points.len() && point_is_nonfinite(
            #[trigger] frame.paths[i].points[k],
        )
}

/// `q` is the U16 form of `p`: coordinates converted by `to_u16`, and colors
/// expanded by repeating each byte.
pub open spec fn u16_point_from<F: Fn(u32) -> u16>(p: PonkPoint, q: XyRgbU16Point, to_u16: F) -> bool {
    &&& to_u16.ensures((p.x_bits,), q.x)
    &&& to_u16.ensures((p.y_bits,), q.y)
    &&& forall|c: int| 0 <= c < 3 ==> #[trigger] q.rgb[c] == expand_channel(p.rgb[c])
}

/// `q` is the legacy form of `p`: coordinates converted by `to_coord`, and colors
/// reduced by the policy.
pub open spec fn legacy_point_from<F: Fn(u16) -> u32>(
    p: XyRgbU16Point,
    q: PonkPoint,
    reduction: U16ColorReduction,
    to_coord: F,
) -> bool {
    &&& to_coord.ensures((p.x,), q.x_bits)
    &&& to_coord.ensures((p.y,), q.y_bits)
    &&& forall|c: int| 0 <= c < 3 ==> #[trigger] q.rgb[c] == reduce_channel(p.rgb[c], reduction)
}

/// `w` is the legacy frame converted to one wire format.
pub open spec fn wire_from_legacy<F: Fn(u32) -> u16>(
    frame: LegacyFrameModel,
    format: DataFormat,
    w: WireFrameModel,
    to_u16: F,
) -> bool {
    &&& w.sender_id == frame.sender_id
    &&& w.sender_name == frame.sender_name
    &&& w.frame_number == frame.frame_number
    &&& w.paths.len() == frame.paths.len()
    &&& forall|i: int|
        0 <= i < frame.paths.len() ==> {
            &&& (#[trigger] w.paths[i]).metadata == frame.paths[i].metadata
            &&& match format {
                DataFormat::XyF32RgbU8 => w.paths[i].points == PointsModel::XyF32RgbU8(
                    frame.paths[i].points,
                ),
                DataFormat::XyRgbU16 => match w.paths[i].points {
                    PointsModel::XyRgbU16(qs) => qs.len() == frame.paths[i].points.len()
                        && forall|k: int|
                        0 <= k < qs.len() ==> u16_point_from(
                            frame.paths[i].points[k],
                            #[trigger] qs[k],
                            to_u16,
                        ),
                    PointsModel::XyF32RgbU8(_) => false,
                },
            }
        }
}

/// `l` is the wire frame converted to the legacy model.
pub open spec fn legacy_from_wire<F: Fn(u16) -> u32>(
    w: WireFrameModel,
    l: LegacyFrameModel,
    reduction: U16ColorReduction,
    to_coord: F,
) -> bool {
    &&& l.sender_id == w.sender_id
    &&& l.sender_name == w.sender_name
    &&& l.frame_number == w.frame_number
    &&& l.paths.len() == w.paths.len()
    &&& forall|i: int|
        0 <= i < w.paths.len() ==> {
            &&& (#[trigger] l.paths[i]).metadata == w.paths[i].metadata
            &&& match w.paths[i].points {
                PointsModel::XyF32RgbU8(ps) => l.paths[i].points == ps,
                PointsModel::XyRgbU16(ps) => l.paths[i].points.len() == ps.len() && forall|k: int|
                    0 <= k < ps.len() ==> legacy_point_from(
                        ps[k],
                        #[trigger] l.paths[i].points[k],
                        reduction,
                        to_coord,
                    ),
            }
        }
}

/// True when a coordinate conversion gives one result per input.
pub open spec fn converts_uniquely<F: Fn(u32) -> u16>(to_u16: F) -> bool {
    forall|b: u32, r1: u16, r2: u16|
        #![trigger to_u16.ensures((b,), r1), to_u16.ensures((b,), r2)]
        to_u16.ensures((b,), r1) && to_u16.ensures((b,), r2) ==> r1 == r2
}

/// True when a coordinate conversion gives one result per input.
pub open spec fn restores_uniquely<F: Fn(u16) -> u32>(to_coord: F) -> bool {
    forall|v: u16, r1: u32, r2: u32|
        #![trigger to_coord.ensures((v,), r1), to_coord.ensures((v,), r2)]
        to_coord.ensures((v,), r1) && to_coord.ensures((v,), r2) ==> r1 == r2
}

/// With a conversion that gives one result per coordinate, converting a legacy frame
/// to one wire format has one result.
pub proof fn lemma_wire_from_legacy_unique<F: Fn(u32) -> u16>(
    frame: LegacyFrameModel,
    format: DataFormat,
    w1: WireFrameModel,
    w2: WireFrameModel,
    to_u16: F,
)
    requires
        converts_uniquely(to_u16),
        wire_from_legacy(frame, format, w1, to_u16),
        wire_from_legacy(frame, format, w2, to_u16),
    ensures
        w1 == w2,
{
    assert forall|i: int| 0 <= i < w1.paths.len() implies #[trigger] w1.paths[i] == w2.paths[i] by {
        assert(w1.paths[i].metadata == w2.paths[i].metadata);
        match format {
            DataFormat::XyF32RgbU8 => {},
            DataFormat::XyRgbU16 => {
                let ps = frame.paths[i].points;
                let qs1 = w1.paths[i].points->XyRgbU16_0;
                let qs2 = w2.paths[i].points->XyRgbU16_0;
                assert forall|k: int| 0 <= k < qs1.len() implies #[trigger] qs1[k] == qs2[k] by {
                    assert(u16_point_from(ps[k], qs1[k], to_u16));
                    assert(u16_point_from(ps[k], qs2[k], to_u16));
                    assert(qs1[k].rgb =~= qs2[k].rgb);
                }
                assert(qs1 =~= qs2);
            },
        }
    }
    assert(w1.paths =~= w2.paths);
}

/// With a conversion that gives one result per coordinate, converting a wire frame
/// to the legacy model under a color policy has one result.
pub proof fn lemma_legacy_from_wire_unique<F: Fn(u16) -> u32>(
    w: WireFrameModel,
    l1: LegacyFrameModel,
    l2: LegacyFrameModel,
    reduction: U16ColorReduction,
    to_coord: F,
)
    requires
        restores_uniquely(to_coord),
        legacy_from_wire(w, l1, reduction, to_coord),
        legacy_from_wire(w, l2, reduction, to_coord),
    ensures
        l1 == l2,
{
    assert forall|i: int| 0 <= i < l1.paths.len() implies #[trigger] l1.paths[i] == l2.paths[i] by {
        assert(l1.paths[i].metadata == l2.paths[i].metadata);
        match w.paths[i].points {
            PointsModel::XyF32RgbU8(_) => {},
            PointsModel::XyRgbU16(ps) => {
                let a = l1.paths[i].points;
                let b = l2.paths[i].points;
                assert forall|k: int| 0 <= k < a.len() implies #[trigger] a[k] == b[k] by {
                    assert(legacy_point_from(ps[k], a[k], reduction, to_coord));
                    assert(legacy_point_from(ps[k], b[k], reduction, to_coord));
                    assert(a[k].rgb =~= b[k].rgb);
                }
                assert(a =~= b);
            },
        }
    }
    assert(l1.paths =~= l2.paths);
}

/// The combined limits `PonkLimits::default` returns stand for the default decoder
/// limits, so decoding with them is decoding under the defaults.
pub proof fn lemma_default_limits_decode(limits: PonkLimits)
    requires
        limits.max_frame_payload_bytes == crate::DEFAULT_MAX_FRAME_PAYLOAD_BYTES,
        limits.max_paths == crate::DEFAULT_MAX_PATHS,
        limits.max_points == crate::DEFAULT_MAX_POINTS,
    ensures
        decoder_limits_of(limits) == crate::model::default_decoder_limits(),
{
}

/// Decoding with combined limits applies each of them: the payload limit, the path
/// limit, and the point limit as the limit on the frame's total points.
pub proof fn lemma_legacy_limits_apply(limits: PonkLimits)
    ensures
        decoder_limits_of(limits).max_frame_payload_bytes == limits.max_frame_payload_bytes,
        decoder_limits_of(limits).max_paths == limits.max_paths,
        decoder_limits_of(limits).max_total_points == limits.max_points,
{
}

/// The legacy encoder sends an empty frame as one explicit zero-point path of the
/// selected format, under the default encoder policy limits.
pub proof fn lemma_legacy_empty_frame_policy(format: DataFormat, max_datagram_len: usize)
    ensures
        legacy_encode_options(format, max_datagram_len).empty_frame == EmptyFrameEncoding::ZeroPointPath(format),
        legacy_encode_options(format, max_datagram_len).max_datagram_len == max_datagram_len,
{
}

/// Copies metadata records.
fn copy_metadata(m: &Vec<PonkMetadata>) -> (r: Vec<PonkMetadata>)
    ensures
        metadata_view(r@) == metadata_view(m@),
{
    let mut out: Vec<PonkMetadata> = Vec::new();
    let mut i: usize = 0;
    while i < m.len()
        invariant
            i <= m@.len(),
            out@.len() == i,
            forall|k: int| 0 <= k < i ==> (#[trigger] out@[k])@ == m@[k]@,
        decreases m@.len() - i,
    {
        let record = PonkMetadata { key: m[i].key.clone(), value_bits: m[i].value_bits };
        out.push(record);
        i = i + 1;
    }
    assert(metadata_view(out@) =~= metadata_view(m@));
    out
}

/// Copies points.
fn copy_points(p: &Vec<PonkPoint>) -> (r: Vec<PonkPoint>)
    ensures
        r@ == p@,
{
    let mut out: Vec<PonkPoint> = Vec::new();
    let mut i: usize = 0;
    while i < p.len()
        invariant
            i <= p@.len(),
            out@ == p@.take(i as int),
        decreases p@.len() - i,
    {
        out.push(p[i]);
        i = i + 1;
        assert(out@ =~= p@.take(i as int));
    }
    assert(p@.take(i as int) =~= p@);
    out
}

impl XyRgbU16Point {
    /// Converts an 8-bit-color point with `f32` coordinate bits into the U16 wire
    /// form, converting finite coordinates with `to_u16` and expanding colors by
    /// repeating each byte (`0x12` becomes `0x1212`). A non-finite coordinate is
    /// rejected.
    pub fn from_8bit<F: Fn(u32) -> u16>(x_bits: u32, y_bits: u32, rgb: [u8; 3], to_u16: &F) -> (r: Result<Self, PonkError>)
        requires
            forall|b: u32| is_finite_bits(b) ==> to_u16.requires((b,)),
        ensures
            r is Err <==> !is_finite_bits(x_bits) || !is_finite_bits(y_bits),
            r matches Err(e) ==> e == PonkError::InvalidCoordinate,
            r matches Ok(q) ==> u16_point_from(PonkPoint { x_bits, y_bits, rgb }, q, *to_u16),
    {
        if !finite_bits(x_bits) || !finite_bits(y_bits) {
            return Err(PonkError::InvalidCoordinate);
        }
        let x = to_u16(x_bits);
        let y = to_u16(y_bits);
        Ok(Self { x, y, rgb: expand_rgb8(rgb) })
    }

    /// Projects the U16 point into the legacy 8-bit model, converting coordinates
    /// with `to_coord` and reducing colors by the policy.
    pub fn to_8bit<F: Fn(u16) -> u32>(self, reduction: U16ColorReduction, to_coord: &F) -> (r: PonkPoint)
        requires
            forall|v: u16| to_coord.requires((v,)),
        ensures
            legacy_point_from(self, r, reduction, *to_coord),
    {
        PonkPoint { x_bits: to_coord(self.x), y_bits: to_coord(self.y), rgb: reduce_rgb16(self.rgb, reduction) }
    }
}

/// Converts legacy points to the U16 form.
fn u16_points_from<F: Fn(u32) -> u16>(points: &Vec<PonkPoint>, to_u16: &F) -> (r: Result<Vec<XyRgbU16Point>, PonkError>)
    requires
        forall|b: u32| is_finite_bits(b) ==> to_u16.requires((b,)),
    ensures
        r is Err <==> exists|k: int| 0 <= k < points@.len() && point_is_nonfinite(#[trigger] points@[k]),
        r matches Err(e) ==> e == PonkError::InvalidCoordinate,
        r matches Ok(qs) ==> qs@.len() == points@.len() && forall|k: int|
            0 <= k < qs@.len() ==> u16_point_from(points@[k], #[trigger] qs@[k], *to_u16),
{
    let mut out: Vec<XyRgbU16Point> = Vec::new();
    let mut k: usize = 0;
    while k < points.len()
        invariant
            k <= points@.len(),
            forall|b: u32| is_finite_bits(b) ==> to_u16.requires((b,)),
            out@.len() == k,
            forall|j: int| 0 <= j < k ==> !point_is_nonfinite(#[trigger] points@[j]),
            forall|j: int| 0 <= j < k ==> u16_point_from(points@[j], #[trigger] out@[j], *to_u16),
        decreases points@.len() - k,
    {
        let p = points[k];
        match XyRgbU16Point::from_8bit(p.x_bits, p.y_bits, p.rgb, to_u16) {
            Err(e) => {
                assert(point_is_nonfinite(points@[k as int]));
                return Err(e);
            },
            Ok(q) => {
                out.push(q);
            },
        }
        k = k + 1;
    }
    Ok(out)
}

/// True when some point has a non-finite coordinate.
fn any_nonfinite(points: &Vec<PonkPoint>) -> (r: bool)
    ensures
        r == exists|k: int| 0 <= k < points@.len() && point_is_nonfinite(#[trigger] points@[k]),
{
    let mut k: usize = 0;
    while k < points.len()
        invariant
            k <= points@.len(),
            forall|j: int| 0 <= j < k ==> !point_is_nonfinite(#[trigger] points@[j]),
        decreases points@.len() - k,
    {
        if !finite_bits(points[k].x_bits) || !finite_bits(points[k].y_bits) {
            assert(point_is_nonfinite(points@[k as int]));
            return true;
        }
        k = k + 1;
    }
    false
}

impl PonkWireFrame {
    /// Converts every path of a legacy frame to one selected wire format. U16
    /// coordinates are converted with `to_u16`; a non-finite coordinate in any path
    /// is rejected.
    pub fn from_legacy<F: Fn(u32) -> u16>(frame: &PonkFrame, format: DataFormat, to_u16: &F) -> (r: Result<Self, PonkError>)
        requires
            forall|b: u32| is_finite_bits(b) ==> to_u16.requires((b,)),
        ensures
            r is Err <==> legacy_has_nonfinite(frame@),
            r matches Err(e) ==> e == PonkError::InvalidCoordinate,
            r matches Ok(w) ==> wire_from_legacy(frame@, format, w@, *to_u16),
    {
        let mut paths: Vec<PonkWirePath> = Vec::new();
        let mut i: usize = 0;
        let ghost fv = frame@;
        while i < frame.paths.len()
            invariant
                i <= frame.paths@.len(),
                fv == frame@,
                forall|b: u32| is_finite_bits(b) ==> to_u16.requires((b,)),
                paths@.len() == i,
                forall|j: int, k: int|
                    0 <= j < i && 0 <= k < fv.paths[j].points.len() ==> !point_is_nonfinite(
                        #[trigger] fv.paths[j].points[k],
                    ),
                forall|j: int|
                    0 <= j < i ==> {
                        &&& (#[trigger] paths@[j])@.metadata == fv.paths[j].metadata
                        &&& match format {
                            DataFormat::XyF32RgbU8 => paths@[j]@.points == PointsModel::XyF32RgbU8(
                                fv.paths[j].points,
                            ),
                            DataFormat::XyRgbU16 => match paths@[j]@.points {
                                PointsModel::XyRgbU16(qs) => qs.len() == fv.paths[j].points.len()
                                    && forall|k: int|
                                    0 <= k < qs.len() ==> u16_point_from(
                                        fv.paths[j].points[k],
                                        #[trigger] qs[k],
                                        *to_u16,
                                    ),
                                PointsModel::XyF32RgbU8(_) => false,
                            },
                        }
                    },
            decreases frame.paths@.len() - i,
        {
            let path = &frame.paths[i];
            assert(fv.paths[i as int] == path@);
            let points = match format {
                DataFormat::XyRgbU16 => match u16_points_from(&path.points, to_u16) {
                    Ok(qs) => PonkPathPoints::XyRgbU16(qs),
                    Err(e) => {
                        assert(legacy_has_nonfinite(fv)) by {
                            let k = choose|k: int| 0 <= k < path.points@.len() && point_is_nonfinite(#[trigger] path.points@[k]);
                            assert(point_is_nonfinite(fv.paths[i as int].points[k]));
                        }
                        return Err(e);
                    },
                },
                DataFormat::XyF32RgbU8 => {
                    if any_nonfinite(&path.points) {
                        assert(legacy_has_nonfinite(fv)) by {
                            let k = choose|k: int| 0 <= k < path.points@.len() && point_is_nonfinite(#[trigger] path.points@[k]);
                            assert(point_is_nonfinite(fv.paths[i as int].points[k]));
                        }
                        return Err(PonkError::InvalidCoordinate);
                    }
                    PonkPathPoints::XyF32RgbU8(copy_points(&path.points))
                },
            };
            let wire_path = PonkWirePath { metadata: copy_metadata(&path.metadata), points };
            paths.push(wire_path);
            i = i + 1;
        }
        let w = Self {
            sender_id: frame.sender_id,
            sender_name: frame.sender_name.clone(),
            frame_number: frame.frame_number,
            paths,
        };
        assert(!legacy_has_nonfinite(fv));
        assert(wire_from_legacy(fv, format, w@, *to_u16)) by {
            assert forall|j: int| 0 <= j < fv.paths.len() implies (#[trigger] w@.paths[j]).metadata
                == fv.paths[j].metadata by {
                assert(w@.paths[j] == paths@[j]@);
            }
            assert forall|j: int| 0 <= j < fv.paths.len() implies #[trigger] w@.paths[j] == paths@[j]@ by {}
        }
        Ok(w)
    }

    /// Converts the mixed-format model into the legacy model: U16 coordinates are
    /// converted with `to_coord` and U16 colors reduced by the policy; F32 paths
    /// are kept as they are.
    pub fn into_legacy<F: Fn(u16) -> u32>(self, reduction: U16ColorReduction, to_coord: &F) -> (r: PonkFrame)
        requires
            forall|v: u16| to_coord.requires((v,)),
        ensures
            legacy_from_wire(self@, r@, reduction, *to_coord),
    {
        let ghost wv = self@;
        let mut paths: Vec<PonkPath> = Vec::new();
        let mut i: usize = 0;
        while i < self.paths.len()
            invariant
                i <= self.paths@.len(),
                wv == self@,
                forall|v: u16| to_coord.requires((v,)),
                paths@.len() == i,
                forall|j: int|
                    0 <= j < i ==> {
                        &&& (#[trigger] paths@[j])@.metadata == wv.paths[j].metadata
                        &&& match wv.paths[j].points {
                            PointsModel::XyF32RgbU8(ps) => paths@[j]@.points == ps,
                            PointsModel::XyRgbU16(ps) => paths@[j]@.points.len() == ps.len()
                                && forall|k: int|
                                0 <= k < ps.len() ==> legacy_point_from(
                                    ps[k],
                                    #[trigger] paths@[j]@.points[k],
                                    reduction,
                                    *to_coord,
                                ),
                        }
                    },
            decreases self.paths@.len() - i,
        {
            let path = &self.paths[i];
            assert(wv.paths[i as int] == path@);
            let points = match &path.points {
                PonkPathPoints::XyF32RgbU8(ps) => copy_points(ps),
                PonkPathPoints::XyRgbU16(ps) => {
                    let mut out: Vec<PonkPoint> = Vec::new();
                    let mut k: usize = 0;
                    while k < ps.len()
                        invariant
                            k <= ps@.len(),
                            forall|v: u16| to_coord.requires((v,)),
                            out@.len() == k,
                            forall|j: int| 0 <= j < k ==> legacy_point_from(ps@[j], #[trigger] out@[j], reduction, *to_coord),
                        decreases ps@.len() - k,
                    {
                        out.push(ps[k].to_8bit(reduction, to_coord));
                        k = k + 1;
                    }
                    out
                },
            };
            paths.push(PonkPath { metadata: copy_metadata(&path.metadata), points });
            i = i + 1;
        }
        let r = PonkFrame {
            sender_id: self.sender_id,
            sender_name: self.sender_name,
            frame_number: self.frame_number,
            paths,
        };
        assert(legacy_from_wire(wv, r@, reduction, *to_coord)) by {
            assert forall|j: int| 0 <= j < wv.paths.len() implies #[trigger] r@.paths[j] == paths@[j]@ by {}
        }
        r
    }
}


/// The encoder options the legacy encoder uses: the given datagram size, an
/// explicit zero-point path in the selected format for empty frames, and the
/// default policy limits.
pub open spec fn legacy_encode_options(format: DataFormat, max_datagram_len: usize) -> PonkEncodeOptions {
    PonkEncodeOptions {
        max_datagram_len,
        empty_frame: EmptyFrameEncoding::ZeroPointPath(format),
        limits: PonkEncoderLimits {
            max_frame_payload_bytes: Some(DEFAULT_MAX_FRAME_PAYLOAD_BYTES),
            max_paths: Some(DEFAULT_MAX_PATHS),
            max_total_points: Some(DEFAULT_MAX_POINTS),
        },
    }
}

/// The decoder limits the combined limits stand for.
pub open spec fn decoder_limits_of(limits: PonkLimits) -> PonkDecoderLimits {
    PonkDecoderLimits {
        max_frame_payload_bytes: limits.max_frame_payload_bytes,
        max_paths: limits.max_paths,
        max_total_points: limits.max_points,
    }
}

/// `r` reports what decoding reported, with a decoded frame in the legacy model.
pub open spec fn legacy_decode_result<F: Fn(u16) -> u32>(
    r: Result<Option<PonkFrame>, PonkError>,
    decoded: Result<Option<WireFrameModel>, PonkError>,
    to_coord: F,
) -> bool {
    match decoded {
        Err(e) => r == Err::<Option<PonkFrame>, PonkError>(e),
        Ok(None) => r == Ok::<Option<PonkFrame>, PonkError>(None),
        Ok(Some(w)) => r matches Ok(Some(l)) && legacy_from_wire(
            w,
            l@,
            U16ColorReduction::MostSignificantByte,
            to_coord,
        ),
    }
}

/// The byte view of an encoding result.
pub open spec fn encoded_view(r: Result<Vec<Vec<u8>>, PonkError>) -> Result<Seq<Seq<u8>>, PonkError> {
    match r {
        Ok(ds) => Ok(datagrams_view(ds@)),
        Err(e) => Err(e),
    }
}

/// The legacy form a decoding result takes under a conversion that gives one result
/// per coordinate: the wire frame converted with the most-significant-byte color
/// policy.
pub open spec fn legacy_decode_is<F: Fn(u16) -> u32>(
    r: Result<Option<PonkFrame>, PonkError>,
    decoded: Result<Option<WireFrameModel>, PonkError>,
    to_coord: F,
) -> bool {
    match decoded {
        Ok(Some(w)) => forall|l: LegacyFrameModel|
            #[trigger] legacy_from_wire(w, l, U16ColorReduction::MostSignificantByte, to_coord) ==> (r matches Ok(
                Some(f),
            ) && f@ == l),
        _ => true,
    }
}

/// Encodes the legacy model using one selected format for every path.
pub fn encode_datagrams<F: Fn(u32) -> u16>(
    frame: &PonkFrame,
    data_format: DataFormat,
    max_datagram_len: usize,
    to_u16: &F,
) -> (r: Result<Vec<Vec<u8>>, PonkError>)
    requires
        forall|b: u32| is_finite_bits(b) ==> to_u16.requires((b,)),
    ensures
        legacy_has_nonfinite(frame@) ==> r == Err::<Vec<Vec<u8>>, PonkError>(PonkError::InvalidCoordinate),
        !legacy_has_nonfinite(frame@) ==> exists|w: WireFrameModel|
            wire_from_legacy(frame@, data_format, w, *to_u16) && match r {
                Ok(ds) => spec_encode_wire_datagrams(w, legacy_encode_options(data_format, max_datagram_len))
                    == Ok::<Seq<Seq<u8>>, PonkError>(datagrams_view(ds@)),
                Err(e) => spec_encode_wire_datagrams(w, legacy_encode_options(data_format, max_datagram_len))
                    == Err::<Seq<Seq<u8>>, PonkError>(e),
            },
        converts_uniquely(*to_u16) ==> forall|w: WireFrameModel|
            #[trigger] wire_from_legacy(frame@, data_format, w, *to_u16) ==> encoded_view(r) == if legacy_has_nonfinite(
                frame@,
            ) {
                Err::<Seq<Seq<u8>>, PonkError>(PonkError::InvalidCoordinate)
            } else {
                spec_encode_wire_datagrams(w, legacy_encode_options(data_format, max_datagram_len))
            },
        frame@.paths.len() == 0 ==> (r matches Ok(ds) ==> carried_pieces(datagrams_view(ds@)).flatten() == seq![
            crate::model::format_wire(data_format),
            0u8,
            0u8,
            0u8,
        ]),
{
    let wire = match PonkWireFrame::from_legacy(frame, data_format, to_u16) {
        Ok(w) => w,
        Err(e) => return Err(e),
    };
    let options = PonkEncodeOptions {
        max_datagram_len,
        empty_frame: EmptyFrameEncoding::ZeroPointPath(data_format),
        limits: PonkEncoderLimits::default(),
    };
    let r = encode_wire_datagrams(&wire, &options);
    assert(options == legacy_encode_options(data_format, max_datagram_len));
    proof {
        if r is Ok {
            lemma_encoded_datagrams(wire@, options);
        }
        if converts_uniquely(*to_u16) {
            assert forall|w: WireFrameModel| #[trigger] wire_from_legacy(frame@, data_format, w, *to_u16) implies encoded_view(r)
                == spec_encode_wire_datagrams(w, legacy_encode_options(data_format, max_datagram_len)) by {
                lemma_wire_from_legacy_unique(frame@, data_format, w, wire@, *to_u16);
            }
        }
    }
    r
}

/// Decodes one complete datagram into the legacy model with combined limits; U16
/// coordinates are converted with `to_coord` and U16 colors keep their most
/// significant byte.
pub fn decode_datagram_with_limits<F: Fn(u16) -> u32>(
    datagram: &[u8],
    limits: &PonkLimits,
    to_coord: &F,
) -> (r: Result<Option<PonkFrame>, PonkError>)
    requires
        forall|v: u16| to_coord.requires((v,)),
    ensures
        legacy_decode_result(r, spec_decode_wire_datagram(datagram@, decoder_limits_of(*limits)), *to_coord),
        restores_uniquely(*to_coord) ==> legacy_decode_is(
            r,
            spec_decode_wire_datagram(datagram@, decoder_limits_of(*limits)),
            *to_coord,
        ),
        legacy_decode_result(
            r,
            spec_decode_wire_datagram(
                datagram@,
                (PonkDecoderLimits {
                    max_frame_payload_bytes: limits.max_frame_payload_bytes,
                    max_paths: limits.max_paths,
                    max_total_points: limits.max_points,
                }),
            ),
            *to_coord,
        ),
{
    let decoder = PonkDecoderLimits {
        max_frame_payload_bytes: limits.max_frame_payload_bytes,
        max_paths: limits.max_paths,
        max_total_points: limits.max_points,
    };
    match decode_wire_datagram_with_limits(datagram, &decoder) {
        Err(e) => Err(e),
        Ok(None) => Ok(None),
        Ok(Some(frame)) => {
            let ghost w = frame@;
            let l = frame.into_legacy(U16ColorReduction::MostSignificantByte, to_coord);
            proof {
                if restores_uniquely(*to_coord) {
                    assert forall|l2: LegacyFrameModel| #[trigger] legacy_from_wire(
                        w,
                        l2,
                        U16ColorReduction::MostSignificantByte,
                        *to_coord,
                    ) implies l@ == l2 by {
                        lemma_legacy_from_wire_unique(w, l@, l2, U16ColorReduction::MostSignificantByte, *to_coord);
                    }
                }
            }
            Ok(Some(l))
        },
    }
}

/// Decodes one complete datagram into the legacy model under the default limits.
pub fn decode_datagram<F: Fn(u16) -> u32>(datagram: &[u8], to_coord: &F) -> (r: Result<Option<PonkFrame>, PonkError>)
    requires
        forall|v: u16| to_coord.requires((v,)),
    ensures
        legacy_decode_result(r, spec_decode_wire_datagram(datagram@, crate::model::default_decoder_limits()), *to_coord),
        restores_uniquely(*to_coord) ==> legacy_decode_is(
            r,
            spec_decode_wire_datagram(datagram@, crate::model::default_decoder_limits()),
            *to_coord,
        ),
{
    let limits = PonkLimits::default();
    decode_datagram_with_limits(datagram, &limits, to_coord)
}

/// What a push reported, without how the frame completed.
pub open spec fn assembled_wire(out: crate::reassembly::PushOutcome) -> Result<Option<WireFrameModel>, PonkError> {
    match out {
        Err(e) => Err(e),
        Ok(None) => Ok(None),
        Ok(Some((w, _))) => Ok(Some(w)),
    }
}

impl PonkAssembler {
    /// Reassembles into the legacy model; U16 coordinates are converted with
    /// `to_coord` and U16 colors keep their most significant byte.
    pub fn push_datagram<F: Fn(u16) -> u32>(&mut self, datagram: &[u8], peer: PeerAddr, to_coord: &F) -> (r: Result<Option<PonkFrame>, PonkError>)
        requires
            old(self).wf(),
            forall|v: u16| to_coord.requires((v,)),
        ensures
            final(self).wf(),
            exists|now: u128|
                {
                    &&& final(self)@ == (#[trigger] spec_push(old(self)@, datagram@, peer, now)).0
                    &&& legacy_decode_result(r, assembled_wire(spec_push(old(self)@, datagram@, peer, now).1), *to_coord)
                    &&& restores_uniquely(*to_coord) ==> legacy_decode_is(
                        r,
                        assembled_wire(spec_push(old(self)@, datagram@, peer, now).1),
                        *to_coord,
                    )
                },
    {
        match self.push_wire_datagram(datagram, peer) {
            Err(e) => Err(e),
            Ok(None) => Ok(None),
            Ok(Some(assembled)) => {
                let ghost w = assembled.frame@;
                let l = assembled.frame.into_legacy(U16ColorReduction::MostSignificantByte, to_coord);
                proof {
                    if restores_uniquely(*to_coord) {
                        assert forall|l2: LegacyFrameModel| #[trigger] legacy_from_wire(
                            w,
                            l2,
                            U16ColorReduction::MostSignificantByte,
                            *to_coord,
                        ) implies l@ == l2 by {
                            lemma_legacy_from_wire_unique(w, l@, l2, U16ColorReduction::MostSignificantByte, *to_coord);
                        }
                    }
                }
                Ok(Some(l))
            },
        }
    }
}

} // verus!
