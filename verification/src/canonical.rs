//! Laws of decoding then encoding: a datagram whose text fields are written in the
//! canonical form comes back byte for byte.
use vstd::prelude::*;
use vstd::utf8::*;

use crate::bytes::{
    before_nul, fixed_field, lemma_u16_at_le16, lemma_u32_at_le32, u16_at,
};
use crate::model::{
    DataFormat, EmptyFrameEncoding, MetadataModel, PonkDecoderLimits, PonkEncodeOptions, WirePathModel, format_of_wire, format_wire,
};
use crate::roundtrip::lemma_paths_bytes_concat;
use crate::text::{lemma_before_nul_take, lossy_text};
use crate::wire::{
    f32_point_at, f32_point_bytes, f32_points_bytes, metadata_at, metadata_bytes,
    metadata_list_bytes, metadata_seq, path_bytes, paths_bytes, points_bytes, points_seq,
    points_size, spec_parse_paths, u16_point_at, u16_point_bytes, u16_points_bytes, chunks_of,
    header_bytes, magic, payload_bytes, spec_decode_wire_datagram, spec_encode_wire_datagrams,
    spec_split_datagram,
};

verus! {

broadcast use vstd::utf8::group_utf8_lib;

/// True when the first `k` bytes of a field are valid UTF-8 without a zero byte and
/// the rest of the field is zero.
pub open spec fn canonical_split(field: Seq<u8>, k: int) -> bool {
    &&& 0 <= k <= field.len()
    &&& valid_utf8(field.take(k))
    &&& forall|i: int| 0 <= i < k ==> #[trigger] field[i] != 0
    &&& forall|i: int| k <= i < field.len() ==> #[trigger] field[i] == 0
}

/// True when a fixed-width text field holds valid UTF-8 text without NUL bytes,
/// followed by nothing but zero padding: the form encoding writes.
pub open spec fn canonical_field(field: Seq<u8>) -> bool {
    exists|k: int| canonical_split(field, k)
}

/// A canonical field, decoded and written back at its width, is the same field.
pub proof fn lemma_canonical_field(field: Seq<u8>)
    requires
        canonical_field(field),
    ensures
        fixed_field(lossy_text(before_nul(field)), field.len()) == field,
{
    let k = choose|k: int| canonical_split(field, k);
    lemma_before_nul_take(field, k);
    let text_bytes = field.take(k);
    assert(lossy_text(before_nul(field)) == decode_utf8(text_bytes));
    let bytes = encode_utf8(decode_utf8(text_bytes));
    assert(bytes == text_bytes);
    is_char_boundary_start_end_of_seq(text_bytes);
    assert(crate::bytes::boundary_at_most(bytes, k) == k);
    assert(fixed_field(lossy_text(before_nul(field)), field.len()) =~= field);
}

/// A metadata record read from canonical bytes and written back gives those bytes.
pub proof fn lemma_metadata_rewrite(data: Seq<u8>, i: int)
    requires
        0 <= i,
        i + 12 <= data.len(),
        canonical_field(data.subrange(i, i + 8)),
    ensures
        metadata_bytes(metadata_at(data, i)) == data.subrange(i, i + 12),
{
    lemma_canonical_field(data.subrange(i, i + 8));
    lemma_u32_at_le32(data, i + 8);
    assert(metadata_bytes(metadata_at(data, i)) =~= data.subrange(i, i + 12));
}

/// The `m` records at `i`, with canonical keys, written back give their bytes.
pub proof fn lemma_metadata_list_rewrite(data: Seq<u8>, i: int, m: nat)
    requires
        0 <= i,
        i + 12 * m <= data.len(),
        forall|j: int| 0 <= j < m ==> canonical_field(#[trigger] data.subrange(i + 12 * j, i + 12 * j + 8)),
    ensures
        metadata_list_bytes(metadata_seq(data, i, m)) == data.subrange(i, i + 12 * m),
    decreases m,
{
    if m == 0 {
        assert(metadata_seq(data, i, m) =~= Seq::<MetadataModel>::empty());
        assert(data.subrange(i, i) =~= Seq::<u8>::empty());
    } else {
        let last = (m - 1) as nat;
        lemma_metadata_list_rewrite(data, i, last);
        assert(metadata_seq(data, i, m).drop_last() =~= metadata_seq(data, i, last));
        assert(canonical_field(data.subrange(i + 12 * last, i + 12 * last + 8)));
        lemma_metadata_rewrite(data, i + 12 * last);
        assert(metadata_seq(data, i, m).last() == metadata_at(data, i + 12 * last));
        assert(data.subrange(i, i + 12 * m) =~= data.subrange(i, i + 12 * last) + data.subrange(
            i + 12 * last,
            i + 12 * last + 12,
        ));
    }
}

/// The `n` U16 points at `i`, written back, give their bytes.
pub proof fn lemma_u16_points_rewrite(data: Seq<u8>, i: int, n: nat)
    requires
        0 <= i,
        i + 10 * n <= data.len(),
    ensures
        u16_points_bytes(Seq::new(n, |k: int| u16_point_at(data, i + 10 * k))) == data.subrange(i, i + 10 * n),
    decreases n,
{
    let ps = Seq::new(n, |k: int| u16_point_at(data, i + 10 * k));
    if n == 0 {
        assert(data.subrange(i, i) =~= Seq::<u8>::empty());
    } else {
        let last = (n - 1) as nat;
        lemma_u16_points_rewrite(data, i, last);
        assert(ps.drop_last() =~= Seq::new(last, |k: int| u16_point_at(data, i + 10 * k)));
        let s = i + 10 * last;
        lemma_u16_at_le16(data, s);
        lemma_u16_at_le16(data, s + 2);
        lemma_u16_at_le16(data, s + 4);
        lemma_u16_at_le16(data, s + 6);
        lemma_u16_at_le16(data, s + 8);
        assert(u16_point_bytes(ps.last()) =~= data.subrange(s, s + 10));
        assert(data.subrange(i, i + 10 * n) =~= data.subrange(i, s) + data.subrange(s, s + 10));
    }
}

/// The `n` F32 points at `i`, written back, give their bytes.
pub proof fn lemma_f32_points_rewrite(data: Seq<u8>, i: int, n: nat)
    requires
        0 <= i,
        i + 11 * n <= data.len(),
    ensures
        f32_points_bytes(Seq::new(n, |k: int| f32_point_at(data, i + 11 * k))) == data.subrange(i, i + 11 * n),
    decreases n,
{
    let ps = Seq::new(n, |k: int| f32_point_at(data, i + 11 * k));
    if n == 0 {
        assert(data.subrange(i, i) =~= Seq::<u8>::empty());
    } else {
        let last = (n - 1) as nat;
        lemma_f32_points_rewrite(data, i, last);
        assert(ps.drop_last() =~= Seq::new(last, |k: int| f32_point_at(data, i + 11 * k)));
        let s = i + 11 * last;
        lemma_u32_at_le32(data, s);
        lemma_u32_at_le32(data, s + 4);
        assert(f32_point_bytes(ps.last()) =~= data.subrange(s, s + 11));
        assert(data.subrange(i, i + 11 * n) =~= data.subrange(i, s) + data.subrange(s, s + 11));
    }
}

/// True when every metadata key field of the paths laid out from `off` is
/// canonical, walking the layout as decoding does.
pub open spec fn keys_canonical(data: Seq<u8>, off: int) -> bool
    decreases data.len() - off,
{
    if off < 0 || off + 2 > data.len() || format_of_wire(data[off]) is Err {
        true
    } else {
        let m = data[off + 1] as nat;
        let meta_end = off + 2 + 12 * m;
        if meta_end + 2 > data.len() {
            true
        } else {
            let format = format_of_wire(data[off])->Ok_0;
            let next = meta_end + 2 + points_size(format, u16_at(data, meta_end) as nat);
            &&& forall|j: int|
                0 <= j < m ==> canonical_field(#[trigger] data.subrange(off + 2 + 12 * j, off + 2 + 12 * j + 8))
            &&& (next > data.len() || keys_canonical(data, next))
        }
    }
}

/// One path read from canonical bytes and written back gives those bytes.
proof fn lemma_path_rewrite(data: Seq<u8>, off: int, format: DataFormat, m: nat, n: nat)
    requires
        0 <= off,
        off + 2 + 12 * m + 2 + points_size(format, n) <= data.len(),
        format_of_wire(data[off]) == Ok::<DataFormat, crate::error::PonkError>(format),
        m == data[off + 1],
        n == u16_at(data, off + 2 + 12 * m),
        forall|j: int|
            0 <= j < m ==> canonical_field(#[trigger] data.subrange(off + 2 + 12 * j, off + 2 + 12 * j + 8)),
    ensures
        path_bytes(
            WirePathModel {
                metadata: metadata_seq(data, off + 2, m),
                points: points_seq(data, format, off + 2 + 12 * m + 2, n),
            },
        ) == data.subrange(off, off + 2 + 12 * m + 2 + points_size(format, n)),
{
    let meta_end = off + 2 + 12 * m;
    let pts_start = meta_end + 2;
    let next = pts_start + points_size(format, n);
    let path = WirePathModel {
        metadata: metadata_seq(data, off + 2, m),
        points: points_seq(data, format, pts_start, n),
    };
    assert forall|j: int| 0 <= j < m implies canonical_field(
        #[trigger] data.subrange((off + 2) + 12 * j, (off + 2) + 12 * j + 8),
    ) by {
        assert(data.subrange(off + 2 + 12 * j, off + 2 + 12 * j + 8) == data.subrange(
            (off + 2) + 12 * j,
            (off + 2) + 12 * j + 8,
        ));
    }
    lemma_metadata_list_rewrite(data, off + 2, m);
    lemma_u16_at_le16(data, meta_end);
    assert(format_wire(format) == data[off]);
    match format {
        DataFormat::XyRgbU16 => lemma_u16_points_rewrite(data, pts_start, n),
        DataFormat::XyF32RgbU8 => lemma_f32_points_rewrite(data, pts_start, n),
    }
    assert(points_bytes(path.points) == data.subrange(pts_start, next));
    assert(path.points.len() == n);
    assert(path_bytes(path) =~= data.subrange(off, next));
}

/// The paths decoded from canonical bytes at `off`, written back, give those bytes.
pub proof fn lemma_parse_rewrite(
    data: Seq<u8>,
    off: int,
    count: nat,
    total: nat,
    limits: PonkDecoderLimits,
)
    requires
        0 <= off <= data.len(),
        spec_parse_paths(data, off, count, total, limits) is Ok,
        keys_canonical(data, off),
    ensures
        paths_bytes(spec_parse_paths(data, off, count, total, limits)->Ok_0) == data.subrange(
            off,
            data.len() as int,
        ),
    decreases data.len() - off,
{
    if off == data.len() {
        assert(data.subrange(off, off) =~= Seq::<u8>::empty());
        assert(spec_parse_paths(data, off, count, total, limits)->Ok_0 =~= Seq::<WirePathModel>::empty());
    } else {
        let format = format_of_wire(data[off])->Ok_0;
        let m = data[off + 1] as nat;
        let meta_end = off + 2 + 12 * m;
        let n = u16_at(data, meta_end) as nat;
        let pts_start = meta_end + 2;
        let next = pts_start + points_size(format, n);
        let path = WirePathModel {
            metadata: metadata_seq(data, off + 2, m),
            points: points_seq(data, format, pts_start, n),
        };
        lemma_parse_rewrite(data, next, count + 1, total + n, limits);
        let rest = spec_parse_paths(data, next, count + 1, total + n, limits)->Ok_0;
        assert(spec_parse_paths(data, off, count, total, limits)->Ok_0 == seq![path] + rest);
        lemma_paths_bytes_concat(seq![path], rest);
        assert(seq![path].drop_last() =~= Seq::<WirePathModel>::empty());
        assert(paths_bytes(Seq::<WirePathModel>::empty()) =~= Seq::<u8>::empty());
        assert(paths_bytes(seq![path]) == paths_bytes(seq![path].drop_last()) + path_bytes(seq![path].last()));
        assert(paths_bytes(seq![path]) =~= path_bytes(path));
        lemma_path_rewrite(data, off, format, m, n);
        assert(data.subrange(off, data.len() as int) =~= data.subrange(off, next) + data.subrange(
            next,
            data.len() as int,
        ));
    }
}

/// A datagram that decodes to a frame, and whose sender name and metadata keys are
/// written in the canonical form (valid UTF-8 text without NUL bytes, then zero
/// padding), comes back byte for byte when that frame is encoded again, under
/// options whose datagram size limit the datagram fits and that encode an empty
/// frame as a bare header where the datagram is one: decoding keeps every field of
/// the datagram.
pub proof fn lemma_decode_encode_exact(d: Seq<u8>, limits: PonkDecoderLimits, options: PonkEncodeOptions)
    requires
        spec_decode_wire_datagram(d, limits) matches Ok(Some(_)),
        canonical_field(d.subrange(13, 45)),
        keys_canonical(d.subrange(52, d.len() as int), 0),
        d.len() <= options.max_datagram_len,
        d.len() > 52 || options.empty_frame == EmptyFrameEncoding::HeaderOnly,
        spec_encode_wire_datagrams(spec_decode_wire_datagram(d, limits)->Ok_0->Some_0, options) is Ok,
    ensures
        spec_encode_wire_datagrams(spec_decode_wire_datagram(d, limits)->Ok_0->Some_0, options)->Ok_0 == seq![d],
{
    let h = spec_split_datagram(d)->Ok_0->Some_0;
    let payload = d.subrange(52, d.len() as int);
    let f = spec_decode_wire_datagram(d, limits)->Ok_0->Some_0;
    let paths = spec_parse_paths(payload, 0, 0, 0, limits)->Ok_0;
    assert(f.paths == paths);
    lemma_parse_rewrite(payload, 0, 0, 0, limits);
    assert(paths_bytes(paths) == payload);
    if paths.len() == 0 {
        assert(paths =~= Seq::<WirePathModel>::empty());
        assert(paths_bytes(Seq::<WirePathModel>::empty()) =~= Seq::<u8>::empty());
        assert(payload.len() == 0);
    } else {
        assert(payload.len() > 0) by {
            if payload.len() == 0 {
                assert(spec_parse_paths(payload, 0, 0, 0, limits)->Ok_0 =~= Seq::<WirePathModel>::empty());
            }
        }
    }
    assert(payload_bytes(f, options.empty_frame) == payload);
    let crc = crate::bytes::spec_checksum(payload);
    assert(crc == h.data_crc);
    lemma_canonical_field(d.subrange(13, 45));
    lemma_u32_at_le32(d, 9);
    lemma_u32_at_le32(d, 48);
    let hb = header_bytes(f, 1, 0, crc);
    assert(d.take(8) == magic());
    assert(hb =~= d.subrange(0, 52)) by {
        assert(d.subrange(0, 8) =~= d.take(8));
    }
    let chunk = (options.max_datagram_len - 52) as nat;
    let ds = spec_encode_wire_datagrams(f, options)->Ok_0;
    assert(ds == crate::wire::datagrams_for(f, payload, chunk));
    if payload.len() == 0 {
        assert(d =~= hb);
        assert(ds =~= seq![d]);
    } else {
        assert(chunks_of(payload, chunk) == seq![payload]);
        assert(d =~= hb + payload);
        assert(ds =~= seq![d]);
    }
}

} // verus!
