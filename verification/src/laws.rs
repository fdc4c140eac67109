//! Laws of the codec that relate encoding and decoding of whole frames.
use vstd::prelude::*;

use crate::bytes::{fixed_field, le32};
use crate::model::{
    DataFormat, EmptyFrameEncoding, PointsModel, PonkDecoderLimits, PonkEncodeOptions, PonkPoint,
    WireFrameModel, WirePathModel, XyRgbU16Point,
};
use crate::roundtrip::{
    cut_path, cut_text, has_no_nul, lemma_parse_all_paths, lemma_text_field, lemma_u32_word_at,
    lemma_window, path_encodable, points_total,
};
use crate::wire::{
    chunks_of, datagrams_for, f32_points_bytes, header_bytes, header_fields, lemma_chunks_of_len,
    lemma_fixed_field_len, lemma_scan_accepts, magic, paths_bytes, payload_bytes,
    spec_decode_wire_datagram, spec_encode_wire_datagrams,
    spec_split_datagram, u16_points_bytes,
};

verus! {

/// The path a zero-point frame encoding carries.
pub open spec fn empty_path(f: DataFormat) -> WirePathModel {
    WirePathModel {
        metadata: Seq::empty(),
        points: match f {
            DataFormat::XyRgbU16 => PointsModel::XyRgbU16(Seq::empty()),
            DataFormat::XyF32RgbU8 => PointsModel::XyF32RgbU8(Seq::empty()),
        },
    }
}

/// The paths decoding gives back for a frame's paths.
pub open spec fn decoded_paths(frame: WireFrameModel, empty: EmptyFrameEncoding) -> Seq<WirePathModel> {
    if frame.paths.len() == 0 {
        match empty {
            EmptyFrameEncoding::HeaderOnly => Seq::empty(),
            EmptyFrameEncoding::ZeroPointPath(f) => seq![empty_path(f)],
        }
    } else {
        frame.paths.map_values(|p: WirePathModel| cut_path(p))
    }
}

/// The frame decoding gives back: the sender name cut to 32 bytes, metadata keys cut
/// to 8 bytes, and a frame without paths as the empty-frame policy wrote it.
pub open spec fn decoded_form(frame: WireFrameModel, empty: EmptyFrameEncoding) -> WireFrameModel {
    WireFrameModel {
        sender_id: frame.sender_id,
        sender_name: cut_text(frame.sender_name, 32),
        frame_number: frame.frame_number,
        paths: decoded_paths(frame, empty),
    }
}

/// True when the sender name and every metadata key hold no NUL character.
pub open spec fn frame_text_encodable(frame: WireFrameModel) -> bool {
    &&& has_no_nul(frame.sender_name)
    &&& forall|i: int, j: int|
        0 <= i < frame.paths.len() && 0 <= j < frame.paths[i].metadata.len() ==> has_no_nul(
            #[trigger] frame.paths[i].metadata[j].key,
        )
}

/// True when the decoder limits admit what the frame encodes to.
pub open spec fn decoder_admits(
    frame: WireFrameModel,
    empty: EmptyFrameEncoding,
    limits: PonkDecoderLimits,
) -> bool {
    &&& payload_bytes(frame, empty).len() <= limits.max_frame_payload_bytes
    &&& decoded_paths(frame, empty).len() <= limits.max_paths
    &&& points_total(frame.paths) <= limits.max_total_points
}

proof fn lemma_single_piece(payload: Seq<u8>, chunk: nat)
    requires
        chunk > 0,
        payload.len() > 0,
        chunks_of(payload, chunk).len() == 1,
    ensures
        chunks_of(payload, chunk)[0] == payload,
{
    if payload.len() > chunk {
        lemma_chunks_of_len(payload.skip(chunk as int), chunk);
    }
}

/// The header of datagram `k` of `n` of a frame reads back as the frame's sender,
/// frame number, datagram count and position, and checksum; the bytes after it are
/// the piece it carries.
pub proof fn lemma_decode_header(frame: WireFrameModel, n: u8, k: u8, crc: u32, piece: Seq<u8>)
    requires
        k < n,
        piece.len() + 52 <= 65507,
    ensures
        spec_split_datagram(header_bytes(frame, n, k, crc) + piece) == Ok::<
            Option<crate::wire::HeaderModel>,
            crate::error::PonkError,
        >(Some(header_fields(header_bytes(frame, n, k, crc) + piece))),
        header_fields(header_bytes(frame, n, k, crc) + piece).sender_id == frame.sender_id,
        header_fields(header_bytes(frame, n, k, crc) + piece).sender_name_bytes == fixed_field(
            frame.sender_name,
            32,
        ),
        has_no_nul(frame.sender_name) ==> header_fields(header_bytes(frame, n, k, crc) + piece).sender_name
            == cut_text(frame.sender_name, 32),
        header_fields(header_bytes(frame, n, k, crc) + piece).frame_number == frame.frame_number,
        header_fields(header_bytes(frame, n, k, crc) + piece).chunk_count == n,
        header_fields(header_bytes(frame, n, k, crc) + piece).chunk_number == k,
        header_fields(header_bytes(frame, n, k, crc) + piece).data_crc == crc,
        (header_bytes(frame, n, k, crc) + piece).len() == 52 + piece.len(),
        (header_bytes(frame, n, k, crc) + piece).subrange(
            52,
            (header_bytes(frame, n, k, crc) + piece).len() as int,
        ) == piece,
{
    let hb = header_bytes(frame, n, k, crc);
    let d = hb + piece;
    lemma_fixed_field_len(frame.sender_name, 32);
    assert(hb.len() == 52);
    assert(d.subrange(0, 52) =~= hb);
    assert(d.take(8) =~= magic());
    assert(hb.subrange(9, 13) =~= le32(frame.sender_id));
    assert(hb.subrange(13, 45) =~= fixed_field(frame.sender_name, 32));
    assert(hb.subrange(48, 52) =~= le32(crc));
    lemma_window(d, 0, 52, hb, 9, 13);
    lemma_window(d, 0, 52, hb, 13, 45);
    lemma_window(d, 0, 52, hb, 48, 52);
    lemma_u32_word_at(d, 9, frame.sender_id);
    lemma_u32_word_at(d, 48, crc);
    if has_no_nul(frame.sender_name) {
        lemma_text_field(frame.sender_name, 32);
    }
    assert(d[8] == 0);
    assert(d[45] == frame.frame_number);
    assert(d[46] == n);
    assert(d[47] == k);
    assert(d.subrange(52, d.len() as int) =~= piece);
}

/// A header that names the frame's sender, sender name as decoding cuts it, frame
/// number and the payload's checksum decodes the frame's payload to the frame as
/// decoding gives it back.
pub proof fn lemma_payload_decodes(
    frame: WireFrameModel,
    options: PonkEncodeOptions,
    limits: PonkDecoderLimits,
    h: crate::wire::HeaderModel,
)
    requires
        spec_encode_wire_datagrams(frame, options) is Ok,
        frame_text_encodable(frame),
        decoder_admits(frame, options.empty_frame, limits),
        h.sender_id == frame.sender_id,
        h.sender_name == cut_text(frame.sender_name, 32),
        h.frame_number == frame.frame_number,
        h.data_crc == crate::bytes::spec_checksum(payload_bytes(frame, options.empty_frame)),
    ensures
        crate::wire::spec_decode_payload_checked(h, payload_bytes(frame, options.empty_frame), limits)
            == Ok::<Option<WireFrameModel>, crate::error::PonkError>(
            Some(decoded_form(frame, options.empty_frame)),
        ),
{
    let chunk = (options.max_datagram_len - 52) as nat;
    let hard = chunk * 255;
    let payload = payload_bytes(frame, options.empty_frame);
    if frame.paths.len() == 0 {
        match options.empty_frame {
            EmptyFrameEncoding::HeaderOnly => {},
            EmptyFrameEncoding::ZeroPointPath(f) => {
                let ps = seq![empty_path(f)];
                assert(path_encodable(ps[0]));
                assert(ps[0].points.len() == 0);
                assert(crate::bytes::le16(0) =~= seq![0u8, 0u8]) by {
                    assert((0u16 & 0xff) as u8 == 0 && (0u16 >> 8) as u8 == 0) by (bit_vector);
                }
                assert(ps.drop_last() =~= Seq::<WirePathModel>::empty());
                assert(crate::wire::metadata_list_bytes(ps[0].metadata) =~= Seq::<u8>::empty());
                match f {
                    DataFormat::XyRgbU16 => {
                        assert(u16_points_bytes(Seq::<XyRgbU16Point>::empty()) =~= Seq::<u8>::empty());
                    },
                    DataFormat::XyF32RgbU8 => {
                        assert(f32_points_bytes(Seq::<PonkPoint>::empty()) =~= Seq::<u8>::empty());
                    },
                }
                assert(paths_bytes(Seq::<WirePathModel>::empty()) =~= Seq::<u8>::empty());
                assert(points_total(Seq::<WirePathModel>::empty()) == 0);
                assert(paths_bytes(ps) =~= payload);
                assert(points_total(ps) == 0);
                lemma_parse_all_paths(ps, 0, limits);
                assert(ps.take(0) =~= Seq::<WirePathModel>::empty());
                assert(ps.skip(0).map_values(|p: WirePathModel| cut_path(p)) =~= ps) by {
                    assert(cut_path(ps[0]).metadata =~= ps[0].metadata);
                }
            },
        }
    } else {
        assert forall|i: int| 0 <= i < frame.paths.len() implies path_encodable(#[trigger] frame.paths[i]) by {
            lemma_scan_accepts(frame.paths, 0, 0, 0, options.limits, hard, i);
            assert forall|j: int| 0 <= j < frame.paths[i].metadata.len() implies has_no_nul(
                #[trigger] frame.paths[i].metadata[j].key,
            ) by {
                assert(has_no_nul(frame.paths[i].metadata[j].key));
            }
        }
        lemma_parse_all_paths(frame.paths, 0, limits);
        assert(frame.paths.take(0) =~= Seq::<WirePathModel>::empty());
        assert(frame.paths.skip(0) =~= frame.paths);
    }
}

/// Encoding a frame that fits one datagram and decoding that datagram gives the
/// frame back: same sender, frame number, paths, formats, metadata values and every
/// point field, with the sender name and metadata keys cut to their field widths at
/// a character boundary, and a frame without paths as its empty-frame policy wrote
/// it. It holds for names and keys without NUL characters, under decoder limits
/// that admit the frame.
pub proof fn lemma_single_datagram_roundtrip(
    frame: WireFrameModel,
    options: PonkEncodeOptions,
    limits: PonkDecoderLimits,
)
    requires
        spec_encode_wire_datagrams(frame, options) is Ok,
        spec_encode_wire_datagrams(frame, options)->Ok_0.len() == 1,
        frame_text_encodable(frame),
        decoder_admits(frame, options.empty_frame, limits),
    ensures
        spec_decode_wire_datagram(spec_encode_wire_datagrams(frame, options)->Ok_0[0], limits)
            == Ok::<Option<WireFrameModel>, crate::error::PonkError>(
            Some(decoded_form(frame, options.empty_frame)),
        ),
{
    let chunk = (options.max_datagram_len - 52) as nat;
    let payload = payload_bytes(frame, options.empty_frame);
    let crc = crate::bytes::spec_checksum(payload);
    let ds = spec_encode_wire_datagrams(frame, options)->Ok_0;
    assert(ds == datagrams_for(frame, payload, chunk));
    let d = header_bytes(frame, 1, 0, crc) + payload;
    if payload.len() == 0 {
        assert(ds[0] =~= d);
    } else {
        lemma_chunks_of_len(payload, chunk);
        lemma_single_piece(payload, chunk);
        assert(ds[0] == header_bytes(frame, 1, 0, crc) + chunks_of(payload, chunk)[0]);
        if payload.len() > chunk {
            lemma_chunks_of_len(payload.skip(chunk as int), chunk);
        }
    }
    assert(ds[0] == d);
    assert(payload.len() <= chunk);
    lemma_decode_header(frame, 1, 0, crc, payload);
    lemma_payload_decodes(frame, options, limits, header_fields(d));
}

} // verus!
