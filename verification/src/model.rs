//! Frame, path and point models, configuration policies, and color helpers.
use std::time::Duration;
use vstd::prelude::*;
use vstd::std_specs::cmp::PartialEqSpecImpl;
use vstd::std_specs::convert::FromSpecImpl;

use crate::clock::{duration_as_nanos, duration_from_millis};
use crate::error::PonkError;
use crate::{
    DEFAULT_ASSEMBLY_TIMEOUT_MS, DEFAULT_MAX_ASSEMBLIES, DEFAULT_MAX_ASSEMBLIES_PER_SENDER,
    DEFAULT_MAX_BUFFERED_BYTES, DEFAULT_MAX_FRAME_PAYLOAD_BYTES, DEFAULT_MAX_PATHS,
    DEFAULT_MAX_POINTS,
};

verus! {

/// Point stored in an `XyF32RgbU8` path.
///
/// The coordinates are held as the IEEE-754 bit patterns of `f32` values, which is
/// exactly what the wire carries. Any finite value is allowed; encoding and decoding
/// preserve the bits without clamping to `[-1.0, 1.0]`.
///
/// Two points compare equal as their `f32` coordinates do: `0.0` equals `-0.0`, and a
/// point with a NaN coordinate equals no point, itself included.
#[derive(Debug, Clone, Copy)]
pub struct PonkPoint {
    pub x_bits: u32,
    pub y_bits: u32,
    pub rgb: [u8; 3],
}

/// A path metadata record: an 8-byte key and an `f32` value held as its bit pattern.
///
/// Two records compare equal when their keys are equal and their values compare equal
/// as `f32` values.
#[derive(Debug, Clone)]
pub struct PonkMetadata {
    pub key: String,
    pub value_bits: u32,
}

/// True when the `f32` with these bits is NaN: all exponent bits set and a nonzero fraction.
pub open spec fn is_nan_bits(bits: u32) -> bool {
    bits & 0x7f80_0000u32 == 0x7f80_0000u32 && bits & 0x007f_ffffu32 != 0
}

/// True when the `f32` values with these bit patterns compare equal: neither is NaN, and
/// the bits are the same or both values are zeros (of either sign).
pub open spec fn f32_bits_eq(a: u32, b: u32) -> bool {
    &&& !is_nan_bits(a)
    &&& !is_nan_bits(b)
    &&& (a == b || (a & 0x7fff_ffffu32 == 0 && b & 0x7fff_ffffu32 == 0))
}

/// Compares two `f32` values, given by their bit patterns, as `==` on `f32` does.
pub fn f32_bits_equal(a: u32, b: u32) -> (r: bool)
    ensures
        r == f32_bits_eq(a, b),
{
    let a_nan = a & 0x7f80_0000u32 == 0x7f80_0000u32 && a & 0x007f_ffffu32 != 0;
    let b_nan = b & 0x7f80_0000u32 == 0x7f80_0000u32 && b & 0x007f_ffffu32 != 0;
    !a_nan && !b_nan && (a == b || (a & 0x7fff_ffffu32 == 0 && b & 0x7fff_ffffu32 == 0))
}

impl PartialEq for PonkPoint {
    fn eq(&self, other: &Self) -> (r: bool) {
        f32_bits_equal(self.x_bits, other.x_bits) && f32_bits_equal(self.y_bits, other.y_bits)
            && self.rgb[0] == other.rgb[0] && self.rgb[1] == other.rgb[1]
            && self.rgb[2] == other.rgb[2]
    }
}

impl PartialEqSpecImpl for PonkPoint {
    open spec fn obeys_eq_spec() -> bool {
        true
    }

    open spec fn eq_spec(&self, other: &PonkPoint) -> bool {
        &&& f32_bits_eq(self.x_bits, other.x_bits)
        &&& f32_bits_eq(self.y_bits, other.y_bits)
        &&& self.rgb[0] == other.rgb[0]
        &&& self.rgb[1] == other.rgb[1]
        &&& self.rgb[2] == other.rgb[2]
    }
}

impl PartialEq for PonkMetadata {
    fn eq(&self, other: &Self) -> (r: bool) {
        self.key == other.key && f32_bits_equal(self.value_bits, other.value_bits)
    }
}

impl PartialEqSpecImpl for PonkMetadata {
    open spec fn obeys_eq_spec() -> bool {
        true
    }

    open spec fn eq_spec(&self, other: &PonkMetadata) -> bool {
        self.key@ == other.key@ && f32_bits_eq(self.value_bits, other.value_bits)
    }
}

/// True when the `f32` with these bits is neither infinite nor NaN.
pub open spec fn is_finite_bits(bits: u32) -> bool {
    bits & 0x7f80_0000u32 != 0x7f80_0000u32
}

/// Tests whether the `f32` with these bits is finite.
pub fn finite_bits(bits: u32) -> (r: bool)
    ensures
        r == is_finite_bits(bits),
{
    bits & 0x7f80_0000u32 != 0x7f80_0000u32
}

/// Legacy path model used by [`PonkFrame`]; it does not retain a wire format.
#[derive(Debug, Clone, PartialEq)]
pub struct PonkPath {
    pub metadata: Vec<PonkMetadata>,
    pub points: Vec<PonkPoint>,
}

/// Compatibility frame model with 8-bit colors and `f32` coordinates.
#[derive(Debug, Clone, PartialEq)]
pub struct PonkFrame {
    pub sender_id: u32,
    pub sender_name: String,
    pub frame_number: u8,
    pub paths: Vec<PonkPath>,
}

/// Point format selected independently by each PONK path.
#[derive(Debug, Clone, Copy, PartialEq, Eq, Structural)]
pub enum DataFormat {
    XyRgbU16,
    XyF32RgbU8,
}

/// The wire byte of a data format.
pub open spec fn format_wire(format: DataFormat) -> u8 {
    match format {
        DataFormat::XyRgbU16 => 0,
        DataFormat::XyF32RgbU8 => 1,
    }
}

/// The number of payload bytes one point of this format occupies.
pub open spec fn format_point_size(format: DataFormat) -> nat {
    match format {
        DataFormat::XyRgbU16 => 10,
        DataFormat::XyF32RgbU8 => 11,
    }
}

/// The data format named by a wire byte, if any.
pub open spec fn format_of_wire(value: u8) -> Result<DataFormat, PonkError> {
    if value == 0 {
        Ok(DataFormat::XyRgbU16)
    } else if value == 1 {
        Ok(DataFormat::XyF32RgbU8)
    } else {
        Err(PonkError::UnsupportedDataFormat(value))
    }
}

impl DataFormat {
    /// The data format a path's wire byte names.
    pub fn from_wire(value: u8) -> (r: Result<Self, PonkError>)
        ensures
            r == format_of_wire(value),
    {
        match value {
            0 => Ok(Self::XyRgbU16),
            1 => Ok(Self::XyF32RgbU8),
            other => Err(PonkError::UnsupportedDataFormat(other)),
        }
    }

    /// The wire byte of this data format.
    pub fn wire(self) -> (r: u8)
        ensures
            r == format_wire(self),
    {
        match self {
            Self::XyRgbU16 => 0,
            Self::XyF32RgbU8 => 1,
        }
    }

    /// Payload bytes one point of this format occupies.
    pub fn bytes_per_point(self) -> (r: usize)
        ensures
            r == format_point_size(self),
    {
        match self {
            Self::XyRgbU16 => 10,
            Self::XyF32RgbU8 => 11,
        }
    }
}

/// Lossless point representation for the five little-endian `u16` wire fields.
#[derive(Debug, Clone, Copy, PartialEq, Eq)]
pub struct XyRgbU16Point {
    pub x: u16,
    pub y: u16,
    pub rgb: [u16; 3],
}

/// One 8-bit channel expanded to 16 bits by repeating the byte.
pub open spec fn expand_channel(channel: u8) -> u16 {
    (channel as nat * 257) as u16
}

/// Expands 8-bit RGB to 16-bit RGB by repeating each byte (`0x12` becomes `0x1212`).
pub fn expand_rgb8(rgb: [u8; 3]) -> (r: [u16; 3])
    ensures
        forall|i: int| 0 <= i < 3 ==> #[trigger] r[i] == expand_channel(rgb[i]),
{
    let r = [(rgb[0] as u16) * 257, (rgb[1] as u16) * 257, (rgb[2] as u16) * 257];
    assert(forall|i: int| 0 <= i < 3 ==> #[trigger] r[i] == expand_channel(rgb[i]));
    r
}

/// Policy for an explicit, lossy U16-to-U8 color conversion.
#[derive(Debug, Clone, Copy, PartialEq, Eq, Structural)]
pub enum U16ColorReduction {
    /// Keep the most significant byte. This matches the legacy decoder.
    MostSignificantByte,
    /// Scale to 8-bit and round to the nearest value.
    Rounded,
}

/// One 16-bit channel reduced to 8 bits under the given policy.
pub open spec fn reduce_channel(channel: u16, reduction: U16ColorReduction) -> u8 {
    match reduction {
        U16ColorReduction::MostSignificantByte => (channel as nat / 256) as u8,
        U16ColorReduction::Rounded => ((channel as nat * 255 + 32767) / 65535) as u8,
    }
}

fn reduce_one(channel: u16, reduction: U16ColorReduction) -> (r: u8)
    ensures
        r == reduce_channel(channel, reduction),
{
    match reduction {
        U16ColorReduction::MostSignificantByte => {
            assert(channel >> 8 == channel / 256) by (bit_vector);
            (channel >> 8) as u8
        },
        U16ColorReduction::Rounded => {
            let scaled = ((channel as u32) * 255 + 32767) / 65535;
            assert(scaled <= 255) by (nonlinear_arith)
                requires
                    scaled == ((channel as u32) * 255 + 32767) / 65535,
                    channel <= 65535,
            ;
            scaled as u8
        },
    }
}

/// Reduces 16-bit RGB according to an explicit caller-selected policy.
pub fn reduce_rgb16(rgb: [u16; 3], reduction: U16ColorReduction) -> (r: [u8; 3])
    ensures
        forall|i: int| 0 <= i < 3 ==> #[trigger] r[i] == reduce_channel(rgb[i], reduction),
{
    let r = [
        reduce_one(rgb[0], reduction),
        reduce_one(rgb[1], reduction),
        reduce_one(rgb[2], reduction),
    ];
    assert(forall|i: int| 0 <= i < 3 ==> #[trigger] r[i] == reduce_channel(rgb[i], reduction));
    r
}

/// Expanding an 8-bit channel and reducing it again, under either policy, gives
/// back the same channel: the two color helpers lose nothing of 8-bit color.
pub proof fn lemma_reduce_inverts_expand(channel: u8, reduction: U16ColorReduction)
    ensures
        reduce_channel(expand_channel(channel), reduction) == channel,
{
    let c = channel as nat;
    assert(c * 257 < 65536) by (nonlinear_arith)
        requires
            c < 256,
    ;
    assert(expand_channel(channel) as nat == c * 257);
    match reduction {
        U16ColorReduction::MostSignificantByte => {
            assert((c * 257) / 256 == c) by (nonlinear_arith)
                requires
                    c < 256,
            ;
        },
        U16ColorReduction::Rounded => {
            assert((c * 257 * 255 + 32767) / 65535 == c) by (nonlinear_arith)
                requires
                    c < 256,
            ;
        },
    }
}

/// Typed point storage that makes the path's data format unambiguous.
#[derive(Debug, Clone, PartialEq)]
pub enum PonkPathPoints {
    XyRgbU16(Vec<XyRgbU16Point>),
    XyF32RgbU8(Vec<PonkPoint>),
}

/// Abstract contents of [`PonkPathPoints`].
#[verifier::ext_equal]
pub enum PointsModel {
    XyRgbU16(Seq<XyRgbU16Point>),
    XyF32RgbU8(Seq<PonkPoint>),
}

impl PointsModel {
    pub open spec fn format(self) -> DataFormat {
        match self {
            PointsModel::XyRgbU16(_) => DataFormat::XyRgbU16,
            PointsModel::XyF32RgbU8(_) => DataFormat::XyF32RgbU8,
        }
    }

    pub open spec fn len(self) -> nat {
        match self {
            PointsModel::XyRgbU16(p) => p.len(),
            PointsModel::XyF32RgbU8(p) => p.len(),
        }
    }
}

impl View for PonkPathPoints {
    type V = PointsModel;

    open spec fn view(&self) -> PointsModel {
        match self {
            PonkPathPoints::XyRgbU16(p) => PointsModel::XyRgbU16(p@),
            PonkPathPoints::XyF32RgbU8(p) => PointsModel::XyF32RgbU8(p@),
        }
    }
}

impl PonkPathPoints {
    /// The data format of the stored points.
    pub fn data_format(&self) -> (r: DataFormat)
        ensures
            r == self@.format(),
    {
        match self {
            Self::XyRgbU16(_) => DataFormat::XyRgbU16,
            Self::XyF32RgbU8(_) => DataFormat::XyF32RgbU8,
        }
    }

    /// The number of stored points.
    pub fn len(&self) -> (r: usize)
        ensures
            r == self@.len(),
    {
        match self {
            Self::XyRgbU16(points) => points.len(),
            Self::XyF32RgbU8(points) => points.len(),
        }
    }

    /// True when no point is stored.
    pub fn is_empty(&self) -> (r: bool)
        ensures
            r == (self@.len() == 0),
    {
        self.len() == 0
    }
}

/// Abstract contents of a metadata record: the key's characters and the value bits.
#[verifier::ext_equal]
pub struct MetadataModel {
    pub key: Seq<char>,
    pub value_bits: u32,
}

impl View for PonkMetadata {
    type V = MetadataModel;

    open spec fn view(&self) -> MetadataModel {
        MetadataModel { key: self.key@, value_bits: self.value_bits }
    }
}

/// The abstract contents of a list of metadata records.
pub open spec fn metadata_view(m: Seq<PonkMetadata>) -> Seq<MetadataModel> {
    m.map_values(|r: PonkMetadata| r@)
}

/// A path that retains its wire format and every point field.
#[derive(Debug, Clone, PartialEq)]
pub struct PonkWirePath {
    pub metadata: Vec<PonkMetadata>,
    pub points: PonkPathPoints,
}

/// Abstract contents of [`PonkWirePath`].
#[verifier::ext_equal]
pub struct WirePathModel {
    pub metadata: Seq<MetadataModel>,
    pub points: PointsModel,
}

impl View for PonkWirePath {
    type V = WirePathModel;

    open spec fn view(&self) -> WirePathModel {
        WirePathModel { metadata: metadata_view(self.metadata@), points: self.points@ }
    }
}

/// A mixed-format frame that keeps every wire field of every path.
#[derive(Debug, Clone, PartialEq)]
pub struct PonkWireFrame {
    pub sender_id: u32,
    pub sender_name: String,
    pub frame_number: u8,
    pub paths: Vec<PonkWirePath>,
}

/// Abstract contents of [`PonkWireFrame`].
#[verifier::ext_equal]
pub struct WireFrameModel {
    pub sender_id: u32,
    pub sender_name: Seq<char>,
    pub frame_number: u8,
    pub paths: Seq<WirePathModel>,
}

/// The abstract contents of a list of wire paths.
pub open spec fn wire_paths_view(p: Seq<PonkWirePath>) -> Seq<WirePathModel> {
    p.map_values(|w: PonkWirePath| w@)
}

impl View for PonkWireFrame {
    type V = WireFrameModel;

    open spec fn view(&self) -> WireFrameModel {
        WireFrameModel {
            sender_id: self.sender_id,
            sender_name: self.sender_name@,
            frame_number: self.frame_number,
            paths: wire_paths_view(self.paths@),
        }
    }
}

/// Decoder policy for untrusted frame payloads.
#[derive(Debug, Clone, Copy, PartialEq, Eq, Structural)]
pub struct PonkDecoderLimits {
    pub max_frame_payload_bytes: usize,
    pub max_paths: usize,
    pub max_total_points: usize,
}

/// The decoder limits that `PonkDecoderLimits::default` returns.
pub open spec fn default_decoder_limits() -> PonkDecoderLimits {
    PonkDecoderLimits {
        max_frame_payload_bytes: DEFAULT_MAX_FRAME_PAYLOAD_BYTES,
        max_paths: DEFAULT_MAX_PATHS,
        max_total_points: DEFAULT_MAX_POINTS,
    }
}

impl Default for PonkDecoderLimits {
    fn default() -> (r: Self)
        ensures
            r == default_decoder_limits(),
    {
        Self {
            max_frame_payload_bytes: DEFAULT_MAX_FRAME_PAYLOAD_BYTES,
            max_paths: DEFAULT_MAX_PATHS,
            max_total_points: DEFAULT_MAX_POINTS,
        }
    }
}

/// Configurable policy for trusted encoder input.
///
/// `None` disables that policy limit. Actual wire widths, the UDP datagram
/// maximum, and the 255-chunk maximum are always enforced.
#[derive(Debug, Clone, Copy, PartialEq, Eq, Structural)]
pub struct PonkEncoderLimits {
    pub max_frame_payload_bytes: Option<usize>,
    pub max_paths: Option<usize>,
    pub max_total_points: Option<usize>,
}

impl PonkEncoderLimits {
    /// Keeps only restrictions imposed by protocol fields and UDP.
    pub fn protocol_only() -> (r: Self)
        ensures
            r.max_frame_payload_bytes is None,
            r.max_paths is None,
            r.max_total_points is None,
    {
        Self { max_frame_payload_bytes: None, max_paths: None, max_total_points: None }
    }
}

impl Default for PonkEncoderLimits {
    fn default() -> (r: Self)
        ensures
            r.max_frame_payload_bytes == Some(DEFAULT_MAX_FRAME_PAYLOAD_BYTES),
            r.max_paths == Some(DEFAULT_MAX_PATHS),
            r.max_total_points == Some(DEFAULT_MAX_POINTS),
    {
        Self {
            max_frame_payload_bytes: Some(DEFAULT_MAX_FRAME_PAYLOAD_BYTES),
            max_paths: Some(DEFAULT_MAX_PATHS),
            max_total_points: Some(DEFAULT_MAX_POINTS),
        }
    }
}

/// How a frame with no paths is written.
#[derive(Debug, Clone, Copy, PartialEq, Eq, Structural)]
pub enum EmptyFrameEncoding {
    /// Emit a header-only datagram representing zero paths.
    HeaderOnly,
    /// Emit one explicit zero-point path in the selected format.
    ZeroPointPath(DataFormat),
}

/// Wire encoder options, separate from decoder and reassembly safety limits.
#[derive(Debug, Clone, Copy, PartialEq, Eq, Structural)]
pub struct PonkEncodeOptions {
    pub max_datagram_len: usize,
    pub empty_frame: EmptyFrameEncoding,
    pub limits: PonkEncoderLimits,
}

impl Default for PonkEncodeOptions {
    fn default() -> (r: Self)
        ensures
            r.max_datagram_len == 1472,
            r.empty_frame == EmptyFrameEncoding::ZeroPointPath(DataFormat::XyF32RgbU8),
            r.limits.max_frame_payload_bytes == Some(DEFAULT_MAX_FRAME_PAYLOAD_BYTES),
            r.limits.max_paths == Some(DEFAULT_MAX_PATHS),
            r.limits.max_total_points == Some(DEFAULT_MAX_POINTS),
    {
        Self {
            max_datagram_len: 1_472,
            empty_frame: EmptyFrameEncoding::ZeroPointPath(DataFormat::XyF32RgbU8),
            limits: PonkEncoderLimits::default(),
        }
    }
}

/// Reassembly policy for multiple in-flight frame identities.
#[derive(Debug, Clone, Copy, PartialEq, Eq)]
pub struct PonkReassemblyLimits {
    pub max_assemblies: usize,
    pub max_assemblies_per_sender: usize,
    pub max_buffered_bytes: usize,
    pub assembly_timeout: Duration,
}

impl Default for PonkReassemblyLimits {
    /// The default limits; the timeout is 300 milliseconds.
    fn default() -> (r: Self)
        ensures
            r.max_assemblies == DEFAULT_MAX_ASSEMBLIES,
            r.max_assemblies_per_sender == DEFAULT_MAX_ASSEMBLIES_PER_SENDER,
            r.max_buffered_bytes == DEFAULT_MAX_BUFFERED_BYTES,
            duration_as_nanos(r.assembly_timeout) == DEFAULT_ASSEMBLY_TIMEOUT_MS as u128 * 1_000_000,
    {
        Self {
            max_assemblies: DEFAULT_MAX_ASSEMBLIES,
            max_assemblies_per_sender: DEFAULT_MAX_ASSEMBLIES_PER_SENDER,
            max_buffered_bytes: DEFAULT_MAX_BUFFERED_BYTES,
            assembly_timeout: duration_from_millis(DEFAULT_ASSEMBLY_TIMEOUT_MS),
        }
    }
}

/// Decoder and reassembly policy of an assembler.
#[derive(Debug, Clone, Copy, PartialEq, Eq)]
pub struct PonkAssemblerConfig {
    pub decoder: PonkDecoderLimits,
    pub reassembly: PonkReassemblyLimits,
}

impl Default for PonkAssemblerConfig {
    fn default() -> (r: Self)
        ensures
            r.decoder.max_frame_payload_bytes == DEFAULT_MAX_FRAME_PAYLOAD_BYTES,
            r.decoder.max_paths == DEFAULT_MAX_PATHS,
            r.decoder.max_total_points == DEFAULT_MAX_POINTS,
            r.reassembly.max_assemblies == DEFAULT_MAX_ASSEMBLIES,
            r.reassembly.max_assemblies_per_sender == DEFAULT_MAX_ASSEMBLIES_PER_SENDER,
            r.reassembly.max_buffered_bytes == DEFAULT_MAX_BUFFERED_BYTES,
            duration_as_nanos(r.reassembly.assembly_timeout) == DEFAULT_ASSEMBLY_TIMEOUT_MS as u128 * 1_000_000,
    {
        Self { decoder: PonkDecoderLimits::default(), reassembly: PonkReassemblyLimits::default() }
    }
}

/// Backward-compatible combined decoder/reassembly configuration.
#[derive(Debug, Clone, Copy, PartialEq, Eq)]
pub struct PonkLimits {
    pub max_assemblies: usize,
    pub max_frame_payload_bytes: usize,
    pub max_buffered_bytes: usize,
    pub max_paths: usize,
    pub max_points: usize,
    pub assembly_timeout: Duration,
}

impl Default for PonkLimits {
    /// The default limits; the timeout is 300 milliseconds.
    fn default() -> (r: Self)
        ensures
            r.max_assemblies == DEFAULT_MAX_ASSEMBLIES,
            r.max_frame_payload_bytes == DEFAULT_MAX_FRAME_PAYLOAD_BYTES,
            r.max_buffered_bytes == DEFAULT_MAX_BUFFERED_BYTES,
            r.max_paths == DEFAULT_MAX_PATHS,
            r.max_points == DEFAULT_MAX_POINTS,
            duration_as_nanos(r.assembly_timeout) == DEFAULT_ASSEMBLY_TIMEOUT_MS as u128 * 1_000_000,
    {
        Self {
            max_assemblies: DEFAULT_MAX_ASSEMBLIES,
            max_frame_payload_bytes: DEFAULT_MAX_FRAME_PAYLOAD_BYTES,
            max_buffered_bytes: DEFAULT_MAX_BUFFERED_BYTES,
            max_paths: DEFAULT_MAX_PATHS,
            max_points: DEFAULT_MAX_POINTS,
            assembly_timeout: duration_from_millis(DEFAULT_ASSEMBLY_TIMEOUT_MS),
        }
    }
}

/// The assembler configuration that the combined limits stand for: the assembly
/// limit applies both globally and per sender.
pub open spec fn config_from_limits(limits: PonkLimits) -> PonkAssemblerConfig {
    PonkAssemblerConfig {
        decoder: PonkDecoderLimits {
            max_frame_payload_bytes: limits.max_frame_payload_bytes,
            max_paths: limits.max_paths,
            max_total_points: limits.max_points,
        },
        reassembly: PonkReassemblyLimits {
            max_assemblies: limits.max_assemblies,
            max_assemblies_per_sender: limits.max_assemblies,
            max_buffered_bytes: limits.max_buffered_bytes,
            assembly_timeout: limits.assembly_timeout,
        },
    }
}

impl From<PonkLimits> for PonkAssemblerConfig {
    fn from(limits: PonkLimits) -> (r: Self) {
        Self {
            decoder: PonkDecoderLimits {
                max_frame_payload_bytes: limits.max_frame_payload_bytes,
                max_paths: limits.max_paths,
                max_total_points: limits.max_points,
            },
            reassembly: PonkReassemblyLimits {
                max_assemblies: limits.max_assemblies,
                max_assemblies_per_sender: limits.max_assemblies,
                max_buffered_bytes: limits.max_buffered_bytes,
                assembly_timeout: limits.assembly_timeout,
            },
        }
    }
}

impl FromSpecImpl<PonkLimits> for PonkAssemblerConfig {
    open spec fn obeys_from_spec() -> bool {
        true
    }

    open spec fn from_spec(limits: PonkLimits) -> PonkAssemblerConfig {
        config_from_limits(limits)
    }
}

/// A UDP peer address, held as plain numbers.
#[derive(Debug, Clone, Copy, PartialEq, Eq, Hash, Structural)]
pub enum PeerAddr {
    /// An IPv4 address (most significant octet first) and port.
    V4 { ip4: u32, port: u16 },
    /// An IPv6 address (most significant octet first), port, flow information and scope.
    V6 { ip6: u128, port: u16, flowinfo: u32, scope_id: u32 },
}

/// One UDP peer together with the sender identifier it announces.
#[derive(Debug, Clone, Copy, PartialEq, Eq, Hash, Structural)]
pub struct PonkSenderKey {
    pub peer: PeerAddr,
    pub sender_id: u32,
}

/// Whether reassembly for a sender repairs the canonical sender's chunk-count bug.
#[derive(Debug, Clone, Copy, PartialEq, Eq, Structural)]
pub enum PonkSenderCompatibility {
    Strict,
    /// Repairs the canonical v0 sender's exact-1,420-byte chunk-count bug.
    CanonicalV0ExactBoundaryChunkCount,
}

/// How a reassembled frame was completed.
#[derive(Debug, Clone, Copy, PartialEq, Eq, Structural)]
pub enum PonkCompletion {
    Strict,
    CanonicalExactBoundaryRepair { advertised_chunks: u8, received_chunks: u8 },
}

/// A reassembled frame together with how it completed.
#[derive(Debug, Clone, PartialEq)]
pub struct PonkAssembledFrame {
    pub frame: PonkWireFrame,
    pub completion: PonkCompletion,
}

} // verus!
