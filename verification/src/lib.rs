//! A codec and bounded fragment reassembler for PONK ("Pathes Over NetworK") UDP
//! frames. Socket ownership and I/O remain with the application.
use vstd::prelude::*;

pub mod assembly;
pub mod bounds;
pub mod bytes;
pub mod canonical;
pub mod clock;
pub mod codec;
pub mod completion;
pub mod error;
pub mod framing;
pub mod laws;
pub mod legacy;
pub mod model;
pub mod reassembly;
pub mod roundtrip;
pub mod text;
pub mod wire;

pub use assembly::PonkAssembler;
pub use bytes::checksum;
pub use codec::{decode_wire_datagram, decode_wire_datagram_with_limits, encode_wire_datagrams};
pub use legacy::{decode_datagram, decode_datagram_with_limits, encode_datagrams};
pub use error::PonkError;
pub use model::{
    DataFormat, EmptyFrameEncoding, PeerAddr, PonkAssembledFrame, PonkAssemblerConfig,
    PonkCompletion, PonkDecoderLimits, PonkEncodeOptions, PonkEncoderLimits, PonkFrame,
    PonkLimits, PonkMetadata, PonkPath, PonkPathPoints, PonkPoint, PonkReassemblyLimits,
    PonkSenderCompatibility, PonkSenderKey, PonkWireFrame, PonkWirePath, U16ColorReduction,
    XyRgbU16Point, expand_rgb8, reduce_rgb16,
};

verus! {

pub const DEFAULT_PORT: u16 = 5583;

pub const MULTICAST_ADDR: [u8; 4] = [239, 255, 10, 24];

pub const HEADER_LEN: usize = 52;

pub const MAX_DATAGRAM_LEN: usize = 65_507;

pub const DEFAULT_MAX_ASSEMBLIES: usize = 64;

pub const DEFAULT_MAX_ASSEMBLIES_PER_SENDER: usize = 8;

pub const DEFAULT_MAX_FRAME_PAYLOAD_BYTES: usize = 1_048_576;

pub const DEFAULT_MAX_BUFFERED_BYTES: usize = 8_388_608;

pub const DEFAULT_MAX_PATHS: usize = 4_096;

pub const DEFAULT_MAX_POINTS: usize = 65_535;

/// Default time an incomplete assembly is kept without progress, in milliseconds.
pub const DEFAULT_ASSEMBLY_TIMEOUT_MS: u64 = 300;

/// Byte width of the sender-name field in every PONK datagram header.
pub const SENDER_NAME_LEN: usize = 32;

/// Byte width of a metadata key.
pub const METADATA_KEY_LEN: usize = 8;

/// The only protocol version this crate reads and writes.
pub const PROTOCOL_VERSION: u8 = 0;

} // verus!
