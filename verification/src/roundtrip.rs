//! What decoding gives back of what encoding wrote.
use vstd::prelude::*;
use vstd::utf8::*;

use crate::bytes::{
    before_nul, boundary_at_most, fixed_field, le16, le32, lemma_le16_roundtrip,
    lemma_le32_roundtrip, u16_at, u32_at,
};
use crate::model::{
    format_of_wire, format_wire,
    DataFormat, MetadataModel, PointsModel, PonkDecoderLimits, PonkPoint, WirePathModel, XyRgbU16Point,
};
use crate::text::{lemma_before_nul_take, lossy_text};
use crate::wire::{
    has_nonfinite_point, lemma_path_len, lemma_paths_bytes_push, path_bytes, path_has_nonfinite,
    path_size, paths_bytes, point_nonfinite, points_size, prepend_paths, spec_parse_paths,
    metadata_seq, points_seq,
    f32_point_at, f32_point_bytes, f32_points_bytes, lemma_boundary_at_most_range,
    lemma_f32_points_len, lemma_fixed_field_len, lemma_metadata_list_len, lemma_u16_points_len,
    metadata_at, metadata_bytes, metadata_list_bytes, u16_point_at, u16_point_bytes,
    u16_points_bytes,
};

verus! {

broadcast use vstd::utf8::group_utf8_lib;

/// True when the text holds no NUL character, which a zero-terminated field could not
/// carry.
pub open spec fn has_no_nul(text: Seq<char>) -> bool {
    forall|i: int| 0 <= i < text.len() ==> (#[trigger] text[i]) as u32 != 0
}

/// Text as it comes back from a fixed-width field: its UTF-8 bytes cut at the last
/// character boundary that fits, decoded.
pub open spec fn cut_text(text: Seq<char>, width: nat) -> Seq<char> {
    let bytes = encode_utf8(text);
    decode_utf8(
        bytes.take(
            boundary_at_most(bytes, if bytes.len() < width { bytes.len() as int } else { width as int }),
        ),
    )
}

proof fn lemma_scalar_bytes_nonzero(c: u32)
    requires
        is_scalar(c),
        c != 0,
    ensures
        forall|i: int| 0 <= i < encode_scalar(c).len() ==> #[trigger] encode_scalar(c)[i] != 0,
{
    assert(has_width_1_encoding(c) ==> (c & 0x7F) as u8 != 0) by (bit_vector)
        requires
            c != 0,
    ;
    assert(forall|x: u8| #![auto] (0xC0u8 | x) != 0 && (0xE0u8 | x) != 0 && (0xF0u8 | x) != 0 && (
    0x80u8 | x) != 0) by (bit_vector);
}

/// The UTF-8 bytes of text without NUL characters hold no zero byte.
pub proof fn lemma_no_nul_bytes(text: Seq<char>)
    requires
        has_no_nul(text),
    ensures
        forall|i: int| 0 <= i < encode_utf8(text).len() ==> #[trigger] encode_utf8(text)[i] != 0,
    decreases text.len(),
{
    if text.len() > 0 {
        let tail = text.drop_first();
        assert forall|i: int| 0 <= i < tail.len() implies (#[trigger] tail[i]) as u32 != 0 by {
            assert(tail[i] == text[i + 1]);
        }
        lemma_no_nul_bytes(tail);
        let c = text[0] as u32;
        assert(text[0] as u32 != 0);
        char_is_scalar(text[0]);
        lemma_scalar_bytes_nonzero(c);
        let head = encode_scalar(c);
        let rest = encode_utf8(tail);
        assert(encode_utf8(text) == head + rest);
        assert forall|i: int| 0 <= i < encode_utf8(text).len() implies #[trigger] encode_utf8(text)[i] != 0 by {
            if i < head.len() {
                assert(encode_utf8(text)[i] == head[i]);
            } else {
                assert(encode_utf8(text)[i] == rest[i - head.len()]);
            }
        }
    }
}

proof fn lemma_boundary_at_most_is_boundary(bytes: Seq<u8>, n: int)
    requires
        valid_utf8(bytes),
        0 <= n,
    ensures
        is_char_boundary(bytes, boundary_at_most(bytes, n)),
    decreases n,
{
    if n > 0 && !is_char_boundary(bytes, n) {
        lemma_boundary_at_most_is_boundary(bytes, n - 1);
    }
}

/// A fixed-width field decodes to the text cut to fit it.
pub proof fn lemma_text_field(text: Seq<char>, width: nat)
    requires
        has_no_nul(text),
    ensures
        lossy_text(before_nul(fixed_field(text, width))) == cut_text(text, width),
{
    let bytes = encode_utf8(text);
    let n: int = if bytes.len() < width { bytes.len() as int } else { width as int };
    let k = boundary_at_most(bytes, n);
    lemma_boundary_at_most_range(bytes, n);
    lemma_boundary_at_most_is_boundary(bytes, n);
    lemma_no_nul_bytes(text);
    let trunc = bytes.take(k);
    let field = fixed_field(text, width);
    assert(field == trunc + Seq::new((width - k) as nat, |_i: int| 0u8));
    assert forall|i: int| 0 <= i < k implies field[i] != 0 by {
        assert(field[i] == bytes[i]);
    }
    lemma_before_nul_take(field, k);
    assert(field.take(k) =~= trunc);
    valid_utf8_split(bytes, k);
    assert(bytes.subrange(0, k) =~= trunc);
}

/// Text whose UTF-8 form fits the field comes back unchanged.
pub proof fn lemma_cut_text_fits(text: Seq<char>, width: nat)
    requires
        encode_utf8(text).len() <= width,
    ensures
        cut_text(text, width) == text,
{
    let bytes = encode_utf8(text);
    is_char_boundary_start_end_of_seq(bytes);
    assert(bytes.take(bytes.len() as int) =~= bytes);
}

/// `boundary_at_most` finds the last character boundary at or before `n`.
proof fn lemma_boundary_at_most_is_last(bytes: Seq<u8>, n: int, j: int)
    requires
        boundary_at_most(bytes, n) < j <= n,
    ensures
        !is_char_boundary(bytes, j),
    decreases n,
{
    if n > 0 && !is_char_boundary(bytes, n) && j < n {
        lemma_boundary_at_most_is_last(bytes, n - 1, j);
    }
}

/// Cutting text to a fixed-width field never splits a character: the cut text's
/// UTF-8 bytes fit the width, are a prefix of the text's UTF-8 bytes that ends at a
/// character boundary, and no later boundary within the width exists.
pub proof fn lemma_cut_text_at_boundary(text: Seq<char>, width: nat)
    ensures
        encode_utf8(cut_text(text, width)).len() <= width,
        encode_utf8(cut_text(text, width)) == encode_utf8(text).take(
            encode_utf8(cut_text(text, width)).len() as int,
        ),
        is_char_boundary(encode_utf8(text), encode_utf8(cut_text(text, width)).len() as int),
        forall|j: int|
            encode_utf8(cut_text(text, width)).len() < j <= width && j <= encode_utf8(text).len()
                ==> !is_char_boundary(encode_utf8(text), j),
{
    let bytes = encode_utf8(text);
    let n: int = if bytes.len() < width { bytes.len() as int } else { width as int };
    let k = boundary_at_most(bytes, n);
    lemma_boundary_at_most_range(bytes, n);
    lemma_boundary_at_most_is_boundary(bytes, n);
    valid_utf8_split(bytes, k);
    assert(bytes.subrange(0, k) =~= bytes.take(k));
    assert(encode_utf8(cut_text(text, width)) == bytes.take(k));
    assert forall|j: int| k < j <= width && j <= bytes.len() implies !is_char_boundary(bytes, j) by {
        lemma_boundary_at_most_is_last(bytes, n, j);
    }
}

/// The `j`-th metadata record occupies bytes `12 j .. 12 j + 12`.
pub proof fn lemma_metadata_list_index(ms: Seq<MetadataModel>, j: int)
    requires
        0 <= j < ms.len(),
    ensures
        metadata_list_bytes(ms).subrange(12 * j, 12 * j + 12) == metadata_bytes(ms[j]),
    decreases ms.len(),
{
    let init = ms.drop_last();
    lemma_metadata_list_len(init);
    lemma_fixed_field_len(ms.last().key, 8);
    let whole = metadata_list_bytes(ms);
    assert(whole == metadata_list_bytes(init) + metadata_bytes(ms.last()));
    if j < ms.len() - 1 {
        lemma_metadata_list_index(init, j);
        assert(whole.subrange(12 * j, 12 * j + 12) =~= metadata_list_bytes(init).subrange(
            12 * j,
            12 * j + 12,
        ));
    } else {
        assert(whole.subrange(12 * j, 12 * j + 12) =~= metadata_bytes(ms.last()));
    }
}

/// The `j`-th U16 point occupies bytes `10 j .. 10 j + 10`.
pub proof fn lemma_u16_points_index(ps: Seq<XyRgbU16Point>, j: int)
    requires
        0 <= j < ps.len(),
    ensures
        u16_points_bytes(ps).subrange(10 * j, 10 * j + 10) == u16_point_bytes(ps[j]),
    decreases ps.len(),
{
    let init = ps.drop_last();
    lemma_u16_points_len(init);
    let whole = u16_points_bytes(ps);
    assert(whole == u16_points_bytes(init) + u16_point_bytes(ps.last()));
    if j < ps.len() - 1 {
        lemma_u16_points_index(init, j);
        assert(whole.subrange(10 * j, 10 * j + 10) =~= u16_points_bytes(init).subrange(
            10 * j,
            10 * j + 10,
        ));
    } else {
        assert(whole.subrange(10 * j, 10 * j + 10) =~= u16_point_bytes(ps.last()));
    }
}

/// The `j`-th F32 point occupies bytes `11 j .. 11 j + 11`.
pub proof fn lemma_f32_points_index(ps: Seq<PonkPoint>, j: int)
    requires
        0 <= j < ps.len(),
    ensures
        f32_points_bytes(ps).subrange(11 * j, 11 * j + 11) == f32_point_bytes(ps[j]),
    decreases ps.len(),
{
    let init = ps.drop_last();
    lemma_f32_points_len(init);
    let whole = f32_points_bytes(ps);
    assert(whole == f32_points_bytes(init) + f32_point_bytes(ps.last()));
    if j < ps.len() - 1 {
        lemma_f32_points_index(init, j);
        assert(whole.subrange(11 * j, 11 * j + 11) =~= f32_points_bytes(init).subrange(
            11 * j,
            11 * j + 11,
        ));
    } else {
        assert(whole.subrange(11 * j, 11 * j + 11) =~= f32_point_bytes(ps.last()));
    }
}

pub proof fn lemma_u16_word_at(data: Seq<u8>, i: int, v: u16)
    requires
        0 <= i,
        i + 2 <= data.len(),
        data.subrange(i, i + 2) == le16(v),
    ensures
        u16_at(data, i) == v,
{
    lemma_le16_roundtrip(v);
    assert(data[i] == data.subrange(i, i + 2)[0]);
    assert(data[i + 1] == data.subrange(i, i + 2)[1]);
}

pub proof fn lemma_u32_word_at(data: Seq<u8>, i: int, v: u32)
    requires
        0 <= i,
        i + 4 <= data.len(),
        data.subrange(i, i + 4) == le32(v),
    ensures
        u32_at(data, i) == v,
{
    lemma_le32_roundtrip(v);
    assert(data[i] == data.subrange(i, i + 4)[0]);
    assert(data[i + 1] == data.subrange(i, i + 4)[1]);
    assert(data[i + 2] == data.subrange(i, i + 4)[2]);
    assert(data[i + 3] == data.subrange(i, i + 4)[3]);
}

/// Narrowing a known window of bytes to a part of it.
pub proof fn lemma_window(data: Seq<u8>, a: int, b: int, whole: Seq<u8>, c: int, d: int)
    requires
        0 <= a <= b <= data.len(),
        data.subrange(a, b) == whole,
        0 <= c <= d <= whole.len(),
    ensures
        data.subrange(a + c, a + d) == whole.subrange(c, d),
{
    assert forall|t: int| 0 <= t < d - c implies #[trigger] data.subrange(a + c, a + d)[t]
        == whole.subrange(c, d)[t] by {
        assert(data.subrange(a, b)[c + t] == data[a + c + t]);
    }
    assert(data.subrange(a + c, a + d) =~= whole.subrange(c, d));
}

/// A metadata record as decoding gives it back.
pub open spec fn cut_metadata(m: MetadataModel) -> MetadataModel {
    MetadataModel { key: cut_text(m.key, 8), value_bits: m.value_bits }
}

/// Reading the bytes of a metadata record gives the record, its key cut to 8 bytes.
pub proof fn lemma_read_metadata(data: Seq<u8>, i: int, m: MetadataModel)
    requires
        0 <= i,
        i + 12 <= data.len(),
        data.subrange(i, i + 12) == metadata_bytes(m),
        has_no_nul(m.key),
    ensures
        metadata_at(data, i) == cut_metadata(m),
{
    lemma_fixed_field_len(m.key, 8);
    let mb = metadata_bytes(m);
    assert(mb.subrange(0, 8) =~= fixed_field(m.key, 8));
    assert(mb.subrange(8, 12) =~= le32(m.value_bits));
    lemma_window(data, i, i + 12, mb, 0, 8);
    lemma_window(data, i, i + 12, mb, 8, 12);
    lemma_u32_word_at(data, i + 8, m.value_bits);
    lemma_text_field(m.key, 8);
}

/// Reading a 16-bit word inside a known window of bytes.
proof fn lemma_word16_in(data: Seq<u8>, i: int, len: int, pb: Seq<u8>, c: int, v: u16)
    requires
        0 <= i,
        i + len <= data.len(),
        data.subrange(i, i + len) == pb,
        0 <= c,
        c + 2 <= len,
        pb.subrange(c, c + 2) == le16(v),
    ensures
        u16_at(data, i + c) == v,
{
    lemma_window(data, i, i + len, pb, c, c + 2);
    lemma_u16_word_at(data, i + c, v);
}

/// Reading a 32-bit word inside a known window of bytes.
proof fn lemma_word32_in(data: Seq<u8>, i: int, len: int, pb: Seq<u8>, c: int, v: u32)
    requires
        0 <= i,
        i + len <= data.len(),
        data.subrange(i, i + len) == pb,
        0 <= c,
        c + 4 <= len,
        pb.subrange(c, c + 4) == le32(v),
    ensures
        u32_at(data, i + c) == v,
{
    lemma_window(data, i, i + len, pb, c, c + 4);
    lemma_u32_word_at(data, i + c, v);
}

/// Reading the bytes of a U16 point gives the point.
pub proof fn lemma_read_u16_point(data: Seq<u8>, i: int, p: XyRgbU16Point)
    requires
        0 <= i,
        i + 10 <= data.len(),
        data.subrange(i, i + 10) == u16_point_bytes(p),
    ensures
        u16_point_at(data, i) == p,
{
    let pb = u16_point_bytes(p);
    assert(pb.subrange(0, 2) =~= le16(p.x));
    assert(pb.subrange(2, 4) =~= le16(p.y));
    assert(pb.subrange(4, 6) =~= le16(p.rgb[0]));
    assert(pb.subrange(6, 8) =~= le16(p.rgb[1]));
    assert(pb.subrange(8, 10) =~= le16(p.rgb[2]));
    lemma_word16_in(data, i, 10, pb, 0, p.x);
    lemma_word16_in(data, i, 10, pb, 2, p.y);
    lemma_word16_in(data, i, 10, pb, 4, p.rgb[0]);
    lemma_word16_in(data, i, 10, pb, 6, p.rgb[1]);
    lemma_word16_in(data, i, 10, pb, 8, p.rgb[2]);
    let q = u16_point_at(data, i);
    assert(q.rgb =~= p.rgb);
}

/// Reading the bytes of an F32 point gives the point.
pub proof fn lemma_read_f32_point(data: Seq<u8>, i: int, p: PonkPoint)
    requires
        0 <= i,
        i + 11 <= data.len(),
        data.subrange(i, i + 11) == f32_point_bytes(p),
    ensures
        f32_point_at(data, i) == p,
{
    let pb = f32_point_bytes(p);
    assert(pb.subrange(0, 4) =~= le32(p.x_bits));
    assert(pb.subrange(4, 8) =~= le32(p.y_bits));
    lemma_word32_in(data, i, 11, pb, 0, p.x_bits);
    lemma_word32_in(data, i, 11, pb, 4, p.y_bits);
    assert(data[i + 8] == data.subrange(i, i + 11)[8]);
    assert(data[i + 9] == data.subrange(i, i + 11)[9]);
    assert(data[i + 10] == data.subrange(i, i + 11)[10]);
    let q = f32_point_at(data, i);
    assert(q.rgb =~= p.rgb);
}


/// A path as decoding gives it back: every metadata key cut to 8 bytes.
pub open spec fn cut_path(p: WirePathModel) -> WirePathModel {
    WirePathModel {
        metadata: p.metadata.map_values(|m: MetadataModel| cut_metadata(m)),
        points: p.points,
    }
}

/// True when a path fits the wire's count fields, has only finite coordinates, and
/// has metadata keys without NUL characters.
pub open spec fn path_encodable(p: WirePathModel) -> bool {
    &&& p.metadata.len() <= 255
    &&& p.points.len() <= 65535
    &&& !path_has_nonfinite(p)
    &&& forall|j: int| 0 <= j < p.metadata.len() ==> has_no_nul(#[trigger] p.metadata[j].key)
}

/// Decoding the bytes of one path, wherever they stand in the payload.
pub proof fn lemma_parse_one_path(
    data: Seq<u8>,
    off: int,
    count: nat,
    total: nat,
    limits: PonkDecoderLimits,
    p: WirePathModel,
)
    requires
        0 <= off,
        off + path_size(p) <= data.len(),
        data.subrange(off, off + path_size(p)) == path_bytes(p),
        path_encodable(p),
        count < limits.max_paths,
        total + p.points.len() <= limits.max_total_points,
    ensures
        spec_parse_paths(data, off, count, total, limits) == prepend_paths(
            seq![cut_path(p)],
            spec_parse_paths(data, off + path_size(p), count + 1, total + p.points.len(), limits),
        ),
{
    lemma_path_len(p);
    lemma_metadata_list_len(p.metadata);
    let size = path_size(p);
    let m: int = p.metadata.len() as int;
    let n: nat = p.points.len();
    let fmt = p.points.format();
    let pb = path_bytes(p);
    let mb = metadata_list_bytes(p.metadata);
    let ptb = crate::wire::points_bytes(p.points);
    match p.points {
        PointsModel::XyRgbU16(ps) => lemma_u16_points_len(ps),
        PointsModel::XyF32RgbU8(ps) => lemma_f32_points_len(ps),
    }
    assert(ptb.len() == points_size(fmt, n));
    assert(pb == seq![format_wire(fmt), m as u8] + mb + le16(n as u16) + ptb);
    assert(data[off] == pb[0]);
    assert(data[off + 1] == pb[1]);
    assert(data[off] == format_wire(fmt));
    assert(data[off + 1] == m);
    let meta_end = off + 2 + 12 * m;
    let pts_start = meta_end + 2;
    assert(pb.subrange(2, 2 + 12 * m) =~= mb);
    assert(pb.subrange(2 + 12 * m, 4 + 12 * m) =~= le16(n as u16));
    assert(pb.subrange(4 + 12 * m, size as int) =~= ptb);
    lemma_window(data, off, off + size, pb, 2 + 12 * m, 4 + 12 * m);
    lemma_u16_word_at(data, meta_end, n as u16);
    assert(u16_at(data, meta_end) as nat == n);
    let md = metadata_seq(data, off + 2, m as nat);
    assert forall|j: int| 0 <= j < m implies #[trigger] md[j] == cut_metadata(p.metadata[j]) by {
        lemma_metadata_list_index(p.metadata, j);
        lemma_window(data, off, off + size, pb, 2, 2 + 12 * m);
        lemma_window(data, off + 2, off + 2 + 12 * m, mb, 12 * j, 12 * j + 12);
        lemma_read_metadata(data, off + 2 + 12 * j, p.metadata[j]);
    }
    assert(md =~= cut_path(p).metadata);
    lemma_window(data, off, off + size, pb, 4 + 12 * m, size as int);
    match p.points {
        PointsModel::XyRgbU16(ps) => {
            assert(format_of_wire(data[off]) == Ok::<DataFormat, crate::error::PonkError>(DataFormat::XyRgbU16));
            let read = Seq::new(n, |k: int| u16_point_at(data, pts_start + 10 * k));
            assert forall|k: int| 0 <= k < n implies #[trigger] read[k] == ps[k] by {
                lemma_u16_points_index(ps, k);
                lemma_window(data, pts_start, pts_start + 10 * n, ptb, 10 * k, 10 * k + 10);
                lemma_read_u16_point(data, pts_start + 10 * k, ps[k]);
            }
            assert(read =~= ps);
            assert(points_seq(data, fmt, pts_start, n) == p.points);
        },
        PointsModel::XyF32RgbU8(ps) => {
            assert(format_of_wire(data[off]) == Ok::<DataFormat, crate::error::PonkError>(DataFormat::XyF32RgbU8));
            let read = Seq::new(n, |k: int| f32_point_at(data, pts_start + 11 * k));
            assert forall|k: int| 0 <= k < n implies #[trigger] read[k] == ps[k] by {
                lemma_f32_points_index(ps, k);
                lemma_window(data, pts_start, pts_start + 11 * n, ptb, 11 * k, 11 * k + 11);
                lemma_read_f32_point(data, pts_start + 11 * k, ps[k]);
            }
            assert(read =~= ps);
            assert(points_seq(data, fmt, pts_start, n) == p.points);
            assert(!has_nonfinite_point(data, pts_start, n)) by {
                if has_nonfinite_point(data, pts_start, n) {
                    let k = choose|k: int| 0 <= k < n && #[trigger] point_nonfinite(f32_point_at(data, pts_start + 11 * k));
                    assert(read[k] == ps[k]);
                    assert(point_nonfinite(ps[k]));
                }
            }
        },
    }
}

/// Total number of points over a list of paths.
pub open spec fn points_total(ps: Seq<WirePathModel>) -> nat
    decreases ps.len(),
{
    if ps.len() == 0 {
        0
    } else {
        points_total(ps.drop_last()) + ps.last().points.len()
    }
}

proof fn lemma_points_total_prefix(ps: Seq<WirePathModel>, i: int)
    requires
        0 <= i <= ps.len(),
    ensures
        points_total(ps.take(i)) <= points_total(ps),
    decreases ps.len(),
{
    if i == ps.len() {
        assert(ps.take(i) =~= ps);
    } else {
        lemma_points_total_prefix(ps.drop_last(), i);
        assert(ps.drop_last().take(i) =~= ps.take(i));
    }
}

/// The bytes of two lists of paths, one after the other.
pub proof fn lemma_paths_bytes_concat(a: Seq<WirePathModel>, b: Seq<WirePathModel>)
    ensures
        paths_bytes(a + b) == paths_bytes(a) + paths_bytes(b),
    decreases b.len(),
{
    if b.len() == 0 {
        assert(a + b =~= a);
        assert(paths_bytes(a) + paths_bytes(b) =~= paths_bytes(a));
    } else {
        lemma_paths_bytes_concat(a, b.drop_last());
        assert((a + b).drop_last() =~= a + b.drop_last());
        assert(paths_bytes(a + b) =~= paths_bytes(a) + paths_bytes(b));
    }
}

/// Decoding the bytes of a list of paths, from path `k` on.
#[verifier::rlimit(40)]
pub proof fn lemma_parse_all_paths(ps: Seq<WirePathModel>, k: int, limits: PonkDecoderLimits)
    requires
        0 <= k <= ps.len(),
        forall|i: int| 0 <= i < ps.len() ==> path_encodable(#[trigger] ps[i]),
        ps.len() <= limits.max_paths,
        points_total(ps) <= limits.max_total_points,
    ensures
        spec_parse_paths(
            paths_bytes(ps),
            paths_bytes(ps.take(k)).len() as int,
            k as nat,
            points_total(ps.take(k)),
            limits,
        ) == Ok::<Seq<WirePathModel>, crate::error::PonkError>(
            ps.skip(k).map_values(|p: WirePathModel| cut_path(p)),
        ),
    decreases ps.len() - k,
{
    let data = paths_bytes(ps);
    if k == ps.len() {
        assert(ps.take(k) =~= ps);
        assert(ps.skip(k).map_values(|p: WirePathModel| cut_path(p)) =~= Seq::<WirePathModel>::empty());
    } else {
        let head = ps.take(k + 1);
        let tail = ps.skip(k + 1);
        assert(ps =~= head + tail);
        lemma_paths_bytes_concat(head, tail);
        lemma_paths_bytes_push(ps, k);
        lemma_path_len(ps[k]);
        let off = paths_bytes(ps.take(k)).len() as int;
        let size = path_size(ps[k]);
        assert(data.subrange(off, off + size) =~= path_bytes(ps[k]));
        assert(head.drop_last() =~= ps.take(k));
        lemma_points_total_prefix(ps, k + 1);
        lemma_parse_one_path(data, off, k as nat, points_total(ps.take(k)), limits, ps[k]);
        lemma_parse_all_paths(ps, k + 1, limits);
        assert(seq![cut_path(ps[k])] + ps.skip(k + 1).map_values(|p: WirePathModel| cut_path(p))
            =~= ps.skip(k).map_values(|p: WirePathModel| cut_path(p)));
    }
}


} // verus!
