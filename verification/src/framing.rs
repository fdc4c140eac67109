//! Laws of frames that travel in several datagrams: how encoding cuts a frame into
//! datagrams, and how the reassembler puts them back together.
use vstd::prelude::*;

use crate::bytes::{fixed_field, spec_checksum};
use crate::laws::{decoded_form, decoder_admits, frame_text_encodable, lemma_decode_header, lemma_payload_decodes};
use crate::model::{
    PeerAddr, PonkCompletion, PonkEncodeOptions, PonkEncoderLimits, PonkSenderKey, WireFrameModel,
    WirePathModel,
};
use crate::reassembly::{
    AssemblerModel, AssemblyKey, AssemblyModel, PushOutcome, after_insert, concat_chunks, fresh_entries,
    insert_chunk, insert_new, is_complete, is_stale, key_index, key_of, lemma_key_index, push_chunk,
    remove_at, repair_enabled, room_for_bytes, room_for_new, room_for_sender, room_global,
    sender_count, spec_prune, spec_push, stale_bytes, sum_received, lemma_sum_push, lemma_sum_remove,
    lemma_sum_update, lemma_key_index_at, finish_strict,
};
use crate::wire::HeaderModel;
use crate::wire::{ chunks_of, datagrams_for, header_bytes, header_fields, lemma_chunks_needed_bound,
    lemma_chunks_of_len, lemma_fixed_field_len, lemma_path_len, lemma_paths_bytes_push,
    path_size, paths_bytes, payload_bytes, spec_check_payload_limit, spec_encode_wire_datagrams,
    spec_encoded_payload_len, spec_scan_paths, spec_split_datagram,
};

verus! {

/// The pieces of a payload each hold between one and `chunk` bytes, and together, in
/// order, they are the payload.
pub proof fn lemma_chunks_of_pieces(payload: Seq<u8>, chunk: nat)
    requires
        chunk > 0,
    ensures
        forall|i: int|
            0 <= i < chunks_of(payload, chunk).len() ==> 0 < #[trigger] chunks_of(payload, chunk)[i].len()
                <= chunk,
        chunks_of(payload, chunk).flatten() == payload,
    decreases payload.len(),
{
    let cs = chunks_of(payload, chunk);
    if payload.len() == 0 {
        assert(cs.flatten() =~= payload);
    } else if payload.len() <= chunk {
        assert(cs.drop_first() =~= Seq::<Seq<u8>>::empty());
        assert(Seq::<Seq<u8>>::empty().flatten() =~= Seq::<u8>::empty());
        assert(cs.flatten() == cs[0] + cs.drop_first().flatten());
        assert(cs.flatten() =~= payload);
    } else {
        let rest = payload.skip(chunk as int);
        lemma_chunks_of_pieces(rest, chunk);
        assert(cs.drop_first() =~= chunks_of(rest, chunk));
        assert(cs.flatten() =~= payload);
        assert forall|i: int| 0 <= i < cs.len() implies 0 < #[trigger] cs[i].len() <= chunk by {
            if i > 0 {
                assert(cs[i] == chunks_of(rest, chunk)[i - 1]);
            }
        }
    }
}

proof fn lemma_scan_len(
    paths: Seq<WirePathModel>,
    i: int,
    len: nat,
    total: nat,
    limits: PonkEncoderLimits,
    hard: nat,
)
    requires
        0 <= i <= paths.len(),
        len == paths_bytes(paths.take(i)).len(),
        len <= hard,
    ensures
        spec_scan_paths(paths, i, len, total, limits, hard) matches Ok(n) ==> n == paths_bytes(paths).len()
            && n <= hard,
    decreases paths.len() - i,
{
    if i == paths.len() {
        assert(paths.take(i) =~= paths);
    } else {
        let p = paths[i];
        let next = len + path_size(p);
        lemma_path_len(p);
        lemma_paths_bytes_push(paths, i);
        if spec_check_payload_limit(next, limits, hard) is Ok {
            lemma_scan_len(paths, i + 1, next, total + p.points.len(), limits, hard);
        }
    }
}

/// The length the encoder's validation reports is the payload's length, and it fits
/// the capacity it was checked against.
proof fn lemma_encoded_len(frame: WireFrameModel, options: PonkEncodeOptions, hard: nat)
    ensures
        spec_encoded_payload_len(frame, options, hard) matches Ok(n) ==> n == payload_bytes(
            frame,
            options.empty_frame,
        ).len() && n <= hard,
{
    if frame.paths.len() > 0 {
        assert(frame.paths.take(0) =~= Seq::<WirePathModel>::empty());
        lemma_scan_len(frame.paths, 0, 0, 0, options.limits, hard);
    }
}

/// The payload pieces datagrams carry after their 52-byte headers.
pub open spec fn carried_pieces(ds: Seq<Seq<u8>>) -> Seq<Seq<u8>> {
    ds.map_values(|d: Seq<u8>| d.subrange(52, d.len() as int))
}

/// Encoding cuts a frame into one to 255 datagrams of at most `max_datagram_len`
/// bytes. Each is a header that carries the sender, the frame number, the number of
/// datagrams, its own position among them and the checksum of the whole payload,
/// followed by a piece of the payload; the pieces, in order, make up the payload.
pub proof fn lemma_encoded_datagrams(frame: WireFrameModel, options: PonkEncodeOptions)
    requires
        spec_encode_wire_datagrams(frame, options) is Ok,
    ensures
        1 <= spec_encode_wire_datagrams(frame, options)->Ok_0.len() <= 255,
        forall|i: int|
            0 <= i < spec_encode_wire_datagrams(frame, options)->Ok_0.len() ==> 52 <= (
            #[trigger] spec_encode_wire_datagrams(frame, options)->Ok_0[i]).len()
                <= options.max_datagram_len,
        forall|i: int|
            0 <= i < spec_encode_wire_datagrams(frame, options)->Ok_0.len() ==> (
            #[trigger] spec_encode_wire_datagrams(frame, options)->Ok_0[i]).subrange(0, 52)
                == header_bytes(
                frame,
                spec_encode_wire_datagrams(frame, options)->Ok_0.len() as u8,
                i as u8,
                spec_checksum(payload_bytes(frame, options.empty_frame)),
            ),
        carried_pieces(spec_encode_wire_datagrams(frame, options)->Ok_0).flatten() == payload_bytes(
            frame,
            options.empty_frame,
        ),
{
    let chunk = (options.max_datagram_len - 52) as nat;
    let hard = chunk * 255;
    let payload = payload_bytes(frame, options.empty_frame);
    let crc = spec_checksum(payload);
    let ds = spec_encode_wire_datagrams(frame, options)->Ok_0;
    lemma_encoded_len(frame, options, hard);
    assert(ds == datagrams_for(frame, payload, chunk));
    lemma_fixed_field_len(frame.sender_name, 32);
    let ps = carried_pieces(ds);
    if payload.len() == 0 {
        assert(ds[0].len() == 52);
        assert(ds[0].subrange(0, 52) =~= ds[0]);
        assert(ps[0] =~= Seq::<u8>::empty());
        assert(ps.drop_first() =~= Seq::<Seq<u8>>::empty());
        assert(Seq::<Seq<u8>>::empty().flatten() =~= Seq::<u8>::empty());
        assert(ps.flatten() == ps[0] + ps.drop_first().flatten());
        assert(ps.flatten() =~= payload);
    } else {
        let pieces = chunks_of(payload, chunk);
        lemma_chunks_of_len(payload, chunk);
        lemma_chunks_needed_bound(payload.len(), chunk);
        lemma_chunks_of_pieces(payload, chunk);
        assert forall|i: int| 0 <= i < ds.len() implies ds[i].subrange(0, 52) == header_bytes(
            frame,
            ds.len() as u8,
            i as u8,
            crc,
        ) && ds[i].subrange(52, ds[i].len() as int) == pieces[i] && 52 <= ds[i].len()
            <= options.max_datagram_len by {
            assert(ds[i] == header_bytes(frame, pieces.len() as u8, i as u8, crc) + pieces[i]);
            assert(ds[i].subrange(0, 52) =~= header_bytes(frame, pieces.len() as u8, i as u8, crc));
            assert(ds[i].subrange(52, ds[i].len() as int) =~= pieces[i]);
        }
        assert(ps =~= pieces);
    }
}

/// Pushing datagrams one after another from one peer, datagram `i` at clock reading
/// `times[i]`: the final state and what each push reported.
pub open spec fn push_each(st: AssemblerModel, ds: Seq<Seq<u8>>, peer: PeerAddr, times: Seq<u128>) -> (AssemblerModel, Seq<PushOutcome>)
    decreases ds.len(),
{
    if ds.len() == 0 {
        (st, Seq::empty())
    } else {
        let (st1, outs) = push_each(st, ds.drop_last(), peer, times);
        let (st2, out) = spec_push(st1, ds.last(), peer, times[ds.len() - 1]);
        (st2, outs.push(out))
    }
}

/// True when `order` lists each of the positions `0..n` exactly once.
pub open spec fn is_order(order: Seq<int>, n: nat) -> bool {
    &&& order.len() == n
    &&& order.no_duplicates()
    &&& forall|t: int| 0 <= t < n ==> 0 <= #[trigger] order[t] < n
    &&& forall|j: int| 0 <= j < n ==> #[trigger] order.contains(j)
}

/// The datagrams taken in the given order.
pub open spec fn in_order(ds: Seq<Seq<u8>>, order: Seq<int>) -> Seq<Seq<u8>> {
    order.map_values(|i: int| ds[i])
}

/// True when each clock reading comes at most `timeout` after the one before.
pub open spec fn within_timeout(times: Seq<u128>, timeout: u128) -> bool {
    forall|t: int| 0 < t < times.len() ==> #[trigger] times[t] <= times[t - 1] + timeout
}

proof fn lemma_flatten_prefix(pieces: Seq<Seq<u8>>, k: int)
    requires
        0 <= k < pieces.len(),
    ensures
        pieces.take(k + 1).flatten() == pieces.take(k).flatten() + pieces[k],
        pieces.take(k + 1).flatten().len() <= pieces.flatten().len(),
{
    assert(pieces.take(k + 1) =~= pieces.take(k).push(pieces[k]));
    pieces.take(k).lemma_flatten_push(pieces[k]);
    assert(pieces =~= pieces.take(k + 1) + pieces.skip(k + 1));
    vstd::seq_lib::lemma_flatten_concat(pieces.take(k + 1), pieces.skip(k + 1));
}

proof fn lemma_concat_all(cs: Seq<Option<Seq<u8>>>, pieces: Seq<Seq<u8>>)
    requires
        cs.len() == pieces.len(),
        forall|j: int| 0 <= j < cs.len() ==> #[trigger] cs[j] == Some(pieces[j]),
    ensures
        concat_chunks(cs) == pieces.flatten(),
    decreases cs.len(),
{
    if cs.len() == 0 {
        assert(pieces.flatten() =~= Seq::<u8>::empty());
    } else {
        lemma_concat_all(cs.drop_last(), pieces.drop_last());
        assert(pieces =~= pieces.drop_last().push(pieces.last()));
        pieces.drop_last().lemma_flatten_push(pieces.last());
        assert(cs.last() == Some(pieces.last()));
    }
}

/// Total length of the pieces at the given positions.
spec fn sum_lens(p: Seq<Seq<u8>>, idx: Seq<int>) -> nat
    decreases idx.len(),
{
    if idx.len() == 0 {
        0
    } else {
        sum_lens(p, idx.drop_last()) + p[idx.last()].len()
    }
}

proof fn lemma_sum_lens_remove(p: Seq<Seq<u8>>, pool: Seq<int>, q: int)
    requires
        0 <= q < pool.len(),
    ensures
        sum_lens(p, pool.remove(q)) + p[pool[q]].len() == sum_lens(p, pool),
    decreases pool.len(),
{
    if q == pool.len() - 1 {
        assert(pool.remove(q) =~= pool.drop_last());
    } else {
        lemma_sum_lens_remove(p, pool.drop_last(), q);
        assert(pool.remove(q).drop_last() =~= pool.drop_last().remove(q));
        assert(pool.remove(q).last() == pool.last());
    }
}

/// Pieces at distinct positions drawn from a pool of distinct positions are no
/// longer together than the pieces of the pool.
proof fn lemma_sum_lens_subset(p: Seq<Seq<u8>>, idx: Seq<int>, pool: Seq<int>)
    requires
        idx.no_duplicates(),
        pool.no_duplicates(),
        forall|t: int| 0 <= t < idx.len() ==> pool.contains(#[trigger] idx[t]),
    ensures
        sum_lens(p, idx) <= sum_lens(p, pool),
    decreases idx.len(),
{
    if idx.len() > 0 {
        let last = idx.len() - 1;
        let m = idx[last];
        assert(pool.contains(idx[last]));
        let q = choose|q: int| 0 <= q < pool.len() && pool[q] == m;
        let pool2 = pool.remove(q);
        lemma_sum_lens_remove(p, pool, q);
        let idx2 = idx.drop_last();
        assert forall|t: int| 0 <= t < idx2.len() implies pool2.contains(#[trigger] idx2[t]) by {
            assert(idx2[t] == idx[t]);
            assert(idx[t] != m);
            assert(pool.contains(idx[t]));
            let r = choose|r: int| 0 <= r < pool.len() && pool[r] == idx[t];
            if r < q {
                assert(pool2[r] == pool[r]);
            } else {
                assert(pool2[r - 1] == pool[r]);
            }
        }
        assert forall|a: int, b: int| 0 <= a < pool2.len() && 0 <= b < pool2.len() && a != b implies pool2[a]
            != pool2[b] by {
            let a1 = if a < q { a } else { a + 1 };
            let b1 = if b < q { b } else { b + 1 };
            assert(pool2[a] == pool[a1] && pool2[b] == pool[b1]);
        }
        assert forall|a: int, b: int| 0 <= a < idx2.len() && 0 <= b < idx2.len() && a != b implies idx2[a]
            != idx2[b] by {
            assert(idx2[a] == idx[a] && idx2[b] == idx[b]);
        }
        lemma_sum_lens_subset(p, idx2, pool2);
    }
}

/// The positions `0..m` hold the first `m` pieces.
proof fn lemma_sum_lens_all(p: Seq<Seq<u8>>, m: int)
    requires
        0 <= m <= p.len(),
    ensures
        sum_lens(p, Seq::new(m as nat, |i: int| i)) == p.take(m).flatten().len(),
    decreases m,
{
    if m == 0 {
        assert(p.take(0) =~= Seq::<Seq<u8>>::empty());
        assert(p.take(0).flatten() =~= Seq::<u8>::empty());
    } else {
        lemma_sum_lens_all(p, m - 1);
        assert(Seq::new(m as nat, |i: int| i).drop_last() =~= Seq::new((m - 1) as nat, |i: int| i));
        lemma_flatten_prefix(p, m - 1);
    }
}

/// The first `k` positions of an order hold no more bytes than all the pieces.
proof fn lemma_order_bytes(pieces: Seq<Seq<u8>>, order: Seq<int>, k: int)
    requires
        is_order(order, pieces.len()),
        0 <= k <= order.len(),
    ensures
        sum_lens(pieces, order.take(k)) <= pieces.flatten().len(),
{
    let n = pieces.len();
    let pool = Seq::new(n, |i: int| i);
    lemma_sum_lens_all(pieces, n as int);
    assert(pieces.take(n as int) =~= pieces);
    let idx = order.take(k);
    assert forall|t: int| 0 <= t < idx.len() implies pool.contains(#[trigger] idx[t]) by {
        assert(idx[t] == order[t]);
        assert(pool[order[t]] == order[t]);
    }
    assert forall|a: int, b: int| 0 <= a < idx.len() && 0 <= b < idx.len() && a != b implies idx[a] != idx[b] by {
        assert(idx[a] == order[a] && idx[b] == order[b]);
    }
    lemma_sum_lens_subset(pieces, idx, pool);
}

/// What the first `k + 1` positions of an order contain.
proof fn lemma_order_take(order: Seq<int>, k: int, j: int)
    requires
        0 <= k < order.len(),
    ensures
        order.take(k + 1).contains(j) <==> (order.take(k).contains(j) || order[k] == j),
        order.take(k + 1).drop_last() == order.take(k),
        order.take(k + 1).last() == order[k],
{
    assert(order.take(k + 1).drop_last() =~= order.take(k));
    let shorter = order.take(k);
    if shorter.contains(j) {
        let t = choose|t: int| 0 <= t < shorter.len() && shorter[t] == j;
        assert(order.take(k + 1)[t] == j);
    }
    if order[k] == j {
        assert(order.take(k + 1)[k] == j);
    }
    let longer = order.take(k + 1);
    if longer.contains(j) {
        let t = choose|t: int| 0 <= t < longer.len() && longer[t] == j;
        if t < k {
            assert(order.take(k)[t] == j);
        }
    }
}

/// A position later in an order is not among its first `k` positions.
proof fn lemma_order_fresh(order: Seq<int>, k: int, t: int)
    requires
        order.no_duplicates(),
        0 <= k <= t < order.len(),
    ensures
        !order.take(k).contains(order[t]),
{
    let prefix = order.take(k);
    if prefix.contains(order[t]) {
        let r = choose|r: int| 0 <= r < prefix.len() && prefix[r] == order[t];
        assert(order[r] == order[t]);
    }
}

proof fn lemma_fresh_all(es: Seq<(AssemblyKey, AssemblyModel)>, now: u128, t: u128)
    requires
        forall|i: int| 0 <= i < es.len() ==> !is_stale(#[trigger] es[i].1, now, t),
    ensures
        fresh_entries(es, now, t) == es,
        stale_bytes(es, now, t) == 0,
    decreases es.len(),
{
    if es.len() > 0 {
        let init = es.drop_last();
        assert forall|i: int| 0 <= i < init.len() implies !is_stale(#[trigger] init[i].1, now, t) by {
            assert(init[i] == es[i]);
        }
        lemma_fresh_all(init, now, t);
        assert(!is_stale(es[es.len() - 1].1, now, t));
        assert(init.push(es.last()) =~= es);
    }
}

/// A state none of whose in-flight identities is stale at `now` is left alone by
/// pruning at `now`.
proof fn lemma_prune_fresh(s: AssemblerModel, now: u128)
    requires
        forall|i: int| 0 <= i < s.entries.len() ==> !is_stale(#[trigger] s.entries[i].1, now, s.timeout_nanos),
    ensures
        spec_prune(s, now) == s,
{
    lemma_fresh_all(s.entries, now, s.timeout_nanos);
    assert(spec_prune(s, now) =~= s);
}

/// The identity a frame's datagrams belong to, pushed from `peer`.
pub open spec fn frame_identity(frame: WireFrameModel, options: PonkEncodeOptions, peer: PeerAddr) -> AssemblyKey {
    key_of(peer, header_fields(spec_encode_wire_datagrams(frame, options)->Ok_0[0]))
}

/// The setting in which a frame's datagrams reassemble alongside the identities a
/// reassembler already holds: an encodable frame whose texts hold no NUL character,
/// decoder limits that admit it, room for one more identity of its sender and for
/// its bytes without evicting anything, an identity not already held, and no
/// canonical boundary repair for its sender.
pub open spec fn reassembly_room(
    st: AssemblerModel,
    frame: WireFrameModel,
    options: PonkEncodeOptions,
    peer: PeerAddr,
) -> bool {
    &&& spec_encode_wire_datagrams(frame, options) is Ok
    &&& frame_text_encodable(frame)
    &&& decoder_admits(frame, options.empty_frame, st.config.decoder)
    &&& st.buffered_bytes + payload_bytes(frame, options.empty_frame).len() <= st.config.reassembly.max_buffered_bytes
    &&& st.entries.len() < st.config.reassembly.max_assemblies
    &&& sender_count(st.entries, frame_identity(frame, options, peer).sender)
        < st.config.reassembly.max_assemblies_per_sender
    &&& forall|i: int| 0 <= i < st.entries.len() ==> (#[trigger] st.entries[i]).0 != frame_identity(frame, options, peer)
    &&& !repair_enabled(st, PonkSenderKey { peer, sender_id: frame.sender_id })
}

/// True when none of the identities the state holds goes stale at any of the clock
/// readings.
pub open spec fn none_expire(st: AssemblerModel, times: Seq<u128>) -> bool {
    forall|i: int, t: int|
        0 <= i < st.entries.len() && 0 <= t < times.len() ==> !is_stale(
            #[trigger] st.entries[i].1,
            #[trigger] times[t],
            st.timeout_nanos,
        )
}

/// What one datagram of a multipart encoding holds: the header of position `k` of
/// `n` followed by the `k`-th piece of the payload.
proof fn lemma_datagram_at(frame: WireFrameModel, options: PonkEncodeOptions, k: int)
    requires
        spec_encode_wire_datagrams(frame, options) is Ok,
        spec_encode_wire_datagrams(frame, options)->Ok_0.len() >= 2,
        0 <= k < spec_encode_wire_datagrams(frame, options)->Ok_0.len(),
    ensures
        ({
            let ds = spec_encode_wire_datagrams(frame, options)->Ok_0;
            let payload = payload_bytes(frame, options.empty_frame);
            let h = header_fields(ds[k]);
            &&& payload.len() > 0
            &&& carried_pieces(ds).flatten() == payload
            &&& spec_split_datagram(ds[k]) == Ok::<Option<HeaderModel>, crate::error::PonkError>(Some(h))
            &&& h.sender_id == frame.sender_id
            &&& h.sender_name_bytes == fixed_field(frame.sender_name, 32)
            &&& (crate::roundtrip::has_no_nul(frame.sender_name) ==> h.sender_name == crate::roundtrip::cut_text(
                frame.sender_name,
                32,
            ))
            &&& h.frame_number == frame.frame_number
            &&& h.chunk_count == ds.len()
            &&& h.chunk_number == k
            &&& h.data_crc == spec_checksum(payload)
            &&& ds[k].subrange(52, ds[k].len() as int) == carried_pieces(ds)[k]
            &&& 0 < carried_pieces(ds)[k].len()
        }),
{
    let ds = spec_encode_wire_datagrams(frame, options)->Ok_0;
    let payload = payload_bytes(frame, options.empty_frame);
    let crc = spec_checksum(payload);
    let chunk = (options.max_datagram_len - 52) as nat;
    lemma_encoded_len(frame, options, chunk * 255);
    lemma_encoded_datagrams(frame, options);
    assert(ds == datagrams_for(frame, payload, chunk));
    assert(payload.len() > 0);
    let cp = chunks_of(payload, chunk);
    lemma_chunks_of_len(payload, chunk);
    lemma_chunks_needed_bound(payload.len(), chunk);
    lemma_chunks_of_pieces(payload, chunk);
    assert(ds[k] == header_bytes(frame, cp.len() as u8, k as u8, crc) + cp[k]);
    lemma_decode_header(frame, cp.len() as u8, k as u8, crc, cp[k]);
}

/// A multipart chunk pushed where nothing is stale goes to its identity.
proof fn lemma_push_is_chunk(s: AssemblerModel, d: Seq<u8>, peer: PeerAddr, now: u128, h: HeaderModel)
    requires
        spec_split_datagram(d) == Ok::<Option<HeaderModel>, crate::error::PonkError>(Some(h)),
        h.chunk_count != 1,
        0 < d.subrange(52, d.len() as int).len() <= s.config.decoder.max_frame_payload_bytes,
        spec_prune(s, now) == s,
    ensures
        spec_push(s, d, peer, now) == push_chunk(s, key_of(peer, h), h, d.subrange(52, d.len() as int), now),
{
}

/// The first chunk of a new identity, where there is room for it and its bytes, is
/// stored in a fresh identity appended to the state.
proof fn lemma_first_chunk(s: AssemblerModel, key: AssemblyKey, h: HeaderModel, pk: Seq<u8>, now: u128)
    requires
        s.entries.len() < s.config.reassembly.max_assemblies,
        sender_count(s.entries, key.sender) < s.config.reassembly.max_assemblies_per_sender,
        forall|i: int| 0 <= i < s.entries.len() ==> (#[trigger] s.entries[i]).0 != key,
        pk.len() <= s.config.decoder.max_frame_payload_bytes,
        s.buffered_bytes + pk.len() <= s.config.reassembly.max_buffered_bytes,
    ensures
        push_chunk(s, key, h, pk, now) == after_insert(
            insert_chunk(insert_new(s, key, h, now), s.entries.len() as int, h.chunk_number, pk, now),
            s.entries.len() as int,
            key,
        ),
{
    lemma_key_index(s.entries, key);
    assert(key_index(s.entries, key) is None);
    assert(room_for_sender(s, key.sender, s.config.reassembly.max_assemblies_per_sender as nat) == (s, true));
    assert(room_global(s, s.config.reassembly.max_assemblies as nat) == (s, true));
    assert(room_for_new(s, key.sender) == (s, true));
    assert(room_for_bytes(s, pk.len(), key) == (s, Ok::<(), crate::error::PonkError>(())));
    let st3 = insert_new(s, key, h, now);
    let n0 = s.entries.len() as int;
    assert forall|j: int| 0 <= j < n0 implies (#[trigger] st3.entries[j]).0 != key by {
        assert(st3.entries[j] == s.entries[j]);
    }
    crate::reassembly::lemma_key_index_at(st3.entries, key, n0);
}

/// A new chunk of the last identity, with room for its bytes, is stored in it.
proof fn lemma_next_chunk(s: AssemblerModel, key: AssemblyKey, h: HeaderModel, pk: Seq<u8>, now: u128)
    requires
        s.entries.len() >= 1,
        s.entries[s.entries.len() - 1].0 == key,
        forall|j: int| 0 <= j < s.entries.len() - 1 ==> (#[trigger] s.entries[j]).0 != key,
        s.entries[s.entries.len() - 1].1.header.sender_name_bytes == h.sender_name_bytes,
        h.chunk_number < s.entries[s.entries.len() - 1].1.chunks.len(),
        s.entries[s.entries.len() - 1].1.chunks[h.chunk_number as int] is None,
        s.entries[s.entries.len() - 1].1.received_bytes + pk.len() <= s.config.decoder.max_frame_payload_bytes,
        s.entries[s.entries.len() - 1].1.received_bytes + pk.len() <= s.config.reassembly.max_buffered_bytes,
        s.buffered_bytes + pk.len() <= s.config.reassembly.max_buffered_bytes,
    ensures
        push_chunk(s, key, h, pk, now) == after_insert(
            insert_chunk(s, s.entries.len() - 1, h.chunk_number, pk, now),
            s.entries.len() - 1,
            key,
        ),
{
    crate::reassembly::lemma_key_index_at(s.entries, key, s.entries.len() - 1);
    assert(room_for_bytes(s, pk.len(), key) == (s, Ok::<(), crate::error::PonkError>(())));
}

/// The state once a chunk is stored at position `at`, in a new identity if `first`.
spec fn stored(s: AssemblerModel, key: AssemblyKey, h: HeaderModel, pk: Seq<u8>, now: u128, first: bool, at: int) -> AssemblerModel {
    let st3 = if first {
        insert_new(s, key, h, now)
    } else {
        s
    };
    insert_chunk(st3, at, h.chunk_number, pk, now)
}

/// The state after the datagrams at the first `k` positions of `order` were pushed
/// into `st`: the identities of `st` unchanged, followed by one identity holding
/// those pieces, or just `st` before the first.
spec fn holds_prefix(
    s: AssemblerModel,
    st: AssemblerModel,
    frame: WireFrameModel,
    options: PonkEncodeOptions,
    peer: PeerAddr,
    order: Seq<int>,
    times: Seq<u128>,
    k: int,
) -> bool {
    let ds = spec_encode_wire_datagrams(frame, options)->Ok_0;
    let pieces = carried_pieces(ds);
    let n0 = st.entries.len() as int;
    &&& s.config == st.config
    &&& s.repair_senders == st.repair_senders
    &&& s.timeout_nanos == st.timeout_nanos
    &&& if k == 0 {
        s.entries == st.entries && s.buffered_bytes == st.buffered_bytes
    } else {
        &&& s.entries.len() == n0 + 1
        &&& forall|j: int| 0 <= j < n0 ==> #[trigger] s.entries[j] == st.entries[j]
        &&& s.entries[n0].0 == key_of(peer, header_fields(ds[0]))
        &&& s.entries[n0].1.header == header_fields(ds[order[0]])
        &&& s.entries[n0].1.chunks.len() == pieces.len()
        &&& forall|j: int|
            0 <= j < pieces.len() ==> #[trigger] s.entries[n0].1.chunks[j] == if order.take(k).contains(j) {
                Some(pieces[j])
            } else {
                None
            }
        &&& s.entries[n0].1.received_bytes == sum_lens(pieces, order.take(k))
        &&& s.entries[n0].1.updated_at == times[k - 1]
        &&& s.buffered_bytes == st.buffered_bytes + s.entries[n0].1.received_bytes
    }
}

/// The conditions of a step: pushing the datagram at position `k` of `order` after
/// those before it.
spec fn step_ready(
    s: AssemblerModel,
    st: AssemblerModel,
    frame: WireFrameModel,
    options: PonkEncodeOptions,
    peer: PeerAddr,
    order: Seq<int>,
    times: Seq<u128>,
    k: int,
) -> bool {
    &&& reassembly_room(st, frame, options, peer)
    &&& none_expire(st, times)
    &&& spec_encode_wire_datagrams(frame, options)->Ok_0.len() >= 2
    &&& is_order(order, spec_encode_wire_datagrams(frame, options)->Ok_0.len())
    &&& times.len() == order.len()
    &&& within_timeout(times, st.timeout_nanos)
    &&& 0 <= k < order.len()
    &&& holds_prefix(s, st, frame, options, peer, order, times, k)
}

/// Pushing the datagram at position `k` of `order`.
spec fn push_step(
    s: AssemblerModel,
    frame: WireFrameModel,
    options: PonkEncodeOptions,
    peer: PeerAddr,
    order: Seq<int>,
    times: Seq<u128>,
    k: int,
) -> (AssemblerModel, PushOutcome) {
    spec_push(s, spec_encode_wire_datagrams(frame, options)->Ok_0[order[k]], peer, times[k])
}

/// The facts about the datagram at position `k` of `order` that a step uses.
proof fn lemma_step_facts(
    s: AssemblerModel,
    st: AssemblerModel,
    frame: WireFrameModel,
    options: PonkEncodeOptions,
    peer: PeerAddr,
    order: Seq<int>,
    times: Seq<u128>,
    k: int,
)
    requires
        step_ready(s, st, frame, options, peer, order, times, k),
    ensures
        ({
            let ds = spec_encode_wire_datagrams(frame, options)->Ok_0;
            let pieces = carried_pieces(ds);
            let p = order[k];
            let h0 = header_fields(ds[0]);
            let hp = header_fields(ds[p]);
            &&& 0 <= p < ds.len()
            &&& spec_split_datagram(ds[p]) == Ok::<Option<HeaderModel>, crate::error::PonkError>(Some(hp))
            &&& key_of(peer, hp) == key_of(peer, h0)
            &&& hp.chunk_count == ds.len()
            &&& hp.chunk_number == p
            &&& hp.sender_name_bytes == header_fields(ds[order[0]]).sender_name_bytes
            &&& ds[p].subrange(52, ds[p].len() as int) == pieces[p]
            &&& 0 < pieces[p].len()
            &&& sum_lens(pieces, order.take(k + 1)) == sum_lens(pieces, order.take(k)) + pieces[p].len()
            &&& sum_lens(pieces, order.take(k + 1)) <= st.config.decoder.max_frame_payload_bytes
            &&& st.buffered_bytes + sum_lens(pieces, order.take(k + 1)) <= st.config.reassembly.max_buffered_bytes
            &&& !order.take(k).contains(p)
        }),
{
    let ds = spec_encode_wire_datagrams(frame, options)->Ok_0;
    let pieces = carried_pieces(ds);
    let p = order[k];
    lemma_datagram_at(frame, options, 0);
    lemma_datagram_at(frame, options, order[0]);
    lemma_datagram_at(frame, options, p);
    lemma_order_take(order, k, p);
    lemma_order_bytes(pieces, order, k + 1);
    lemma_order_fresh(order, k, k);
}

/// Where the push of the datagram at position `k` of `order` goes.
proof fn lemma_step_route(
    s: AssemblerModel,
    st: AssemblerModel,
    frame: WireFrameModel,
    options: PonkEncodeOptions,
    peer: PeerAddr,
    order: Seq<int>,
    times: Seq<u128>,
    k: int,
)
    requires
        step_ready(s, st, frame, options, peer, order, times, k),
    ensures
        ({
            let ds = spec_encode_wire_datagrams(frame, options)->Ok_0;
            let key = key_of(peer, header_fields(ds[0]));
            let p = order[k];
            let n0 = st.entries.len() as int;
            push_step(s, frame, options, peer, order, times, k) == after_insert(
                stored(s, key, header_fields(ds[p]), carried_pieces(ds)[p], times[k], k == 0, n0),
                n0,
                key,
            )
        }),
{
    let ds = spec_encode_wire_datagrams(frame, options)->Ok_0;
    let pieces = carried_pieces(ds);
    lemma_step_facts(s, st, frame, options, peer, order, times, k);
    let p = order[k];
    let hp = header_fields(ds[p]);
    let key = key_of(peer, header_fields(ds[0]));
    let now = times[k];
    let n0 = st.entries.len() as int;
    assert forall|i: int| 0 <= i < s.entries.len() implies !is_stale(#[trigger] s.entries[i].1, now, s.timeout_nanos) by {
        if i < n0 {
            assert(s.entries[i] == st.entries[i]);
            assert(!is_stale(st.entries[i].1, times[k], st.timeout_nanos));
        } else {
            assert(times[k] <= times[k - 1] + st.timeout_nanos);
        }
    }
    lemma_prune_fresh(s, now);
    lemma_push_is_chunk(s, ds[p], peer, now, hp);
    if k == 0 {
        assert(s.entries == st.entries);
        lemma_first_chunk(s, key, hp, pieces[p], now);
    } else {
        assert(s.entries[n0].1.chunks[p] == None::<Seq<u8>>);
        assert forall|j: int| 0 <= j < s.entries.len() - 1 implies (#[trigger] s.entries[j]).0 != key by {
            assert(s.entries[j] == st.entries[j]);
        }
        lemma_next_chunk(s, key, hp, pieces[p], now);
    }
}

/// The identity once the datagram at position `k` of `order` is stored.
proof fn lemma_step_state(
    s: AssemblerModel,
    st: AssemblerModel,
    frame: WireFrameModel,
    options: PonkEncodeOptions,
    peer: PeerAddr,
    order: Seq<int>,
    times: Seq<u128>,
    k: int,
)
    requires
        step_ready(s, st, frame, options, peer, order, times, k),
    ensures
        ({
            let ds = spec_encode_wire_datagrams(frame, options)->Ok_0;
            let pieces = carried_pieces(ds);
            let key = key_of(peer, header_fields(ds[0]));
            let p = order[k];
            let n0 = st.entries.len() as int;
            let st4 = stored(s, key, header_fields(ds[p]), pieces[p], times[k], k == 0, n0);
            &&& st4.config == st.config
            &&& st4.repair_senders == st.repair_senders
            &&& st4.timeout_nanos == st.timeout_nanos
            &&& st4.entries.len() == n0 + 1
            &&& forall|j: int| 0 <= j < n0 ==> #[trigger] st4.entries[j] == st.entries[j]
            &&& st4.entries[n0].0 == key
            &&& st4.entries[n0].1.header == header_fields(ds[order[0]])
            &&& st4.entries[n0].1.chunks.len() == pieces.len()
            &&& forall|j: int|
                0 <= j < pieces.len() ==> #[trigger] st4.entries[n0].1.chunks[j] == if order.take(k + 1).contains(
                    j,
                ) {
                    Some(pieces[j])
                } else {
                    None
                }
            &&& st4.entries[n0].1.received_bytes == sum_lens(pieces, order.take(k + 1))
            &&& st4.entries[n0].1.updated_at == times[k]
            &&& st4.buffered_bytes == st.buffered_bytes + st4.entries[n0].1.received_bytes
        }),
{
    let ds = spec_encode_wire_datagrams(frame, options)->Ok_0;
    let pieces = carried_pieces(ds);
    lemma_step_facts(s, st, frame, options, peer, order, times, k);
    let p = order[k];
    let key = key_of(peer, header_fields(ds[0]));
    let n0 = st.entries.len() as int;
    let st4 = stored(s, key, header_fields(ds[p]), pieces[p], times[k], k == 0, n0);
    if k == 0 {
        assert(s.entries == st.entries);
    }
    assert forall|j: int| 0 <= j < n0 implies #[trigger] st4.entries[j] == st.entries[j] by {
        if k > 0 {
            assert(s.entries[j] == st.entries[j]);
        }
    }
    assert forall|j: int| 0 <= j < pieces.len() implies #[trigger] st4.entries[n0].1.chunks[j] == if order.take(
        k + 1,
    ).contains(j) {
        Some(pieces[j])
    } else {
        None
    } by {
        lemma_order_take(order, k, j);
        if k > 0 {
            assert(s.entries[n0].1.chunks[j] == if order.take(k).contains(j) {
                Some(pieces[j])
            } else {
                None
            });
        } else {
            assert(order.take(0) =~= Seq::<int>::empty());
        }
    }
}

/// An identity that is not complete, of a sender without repair, waits.
proof fn lemma_after_insert_waits(st4: AssemblerModel, i: int, key: AssemblyKey)
    requires
        !is_complete(st4.entries[i].1),
        !repair_enabled(st4, key.sender),
    ensures
        after_insert(st4, i, key) == (st4, Ok::<Option<(WireFrameModel, PonkCompletion)>, crate::error::PonkError>(None)),
{
}

/// Pushing a datagram before the last reports nothing and holds one more piece.
proof fn lemma_step_waits(
    s: AssemblerModel,
    st: AssemblerModel,
    frame: WireFrameModel,
    options: PonkEncodeOptions,
    peer: PeerAddr,
    order: Seq<int>,
    times: Seq<u128>,
    k: int,
)
    requires
        step_ready(s, st, frame, options, peer, order, times, k),
        k + 1 < order.len(),
    ensures
        push_step(s, frame, options, peer, order, times, k).1 == Ok::<
            Option<(WireFrameModel, PonkCompletion)>,
            crate::error::PonkError,
        >(None),
        holds_prefix(push_step(s, frame, options, peer, order, times, k).0, st, frame, options, peer, order, times, k + 1),
{
    let ds = spec_encode_wire_datagrams(frame, options)->Ok_0;
    let pieces = carried_pieces(ds);
    let key = key_of(peer, header_fields(ds[0]));
    let p = order[k];
    let n0 = st.entries.len() as int;
    lemma_step_route(s, st, frame, options, peer, order, times, k);
    lemma_step_state(s, st, frame, options, peer, order, times, k);
    let st4 = stored(s, key, header_fields(ds[p]), pieces[p], times[k], k == 0, n0);
    let a4 = st4.entries[n0].1;
    let q = order[k + 1];
    lemma_order_fresh(order, k + 1, k + 1);
    assert(a4.chunks[q] is None);
    assert(!is_complete(a4));
    lemma_datagram_at(frame, options, 0);
    assert(key.sender == PonkSenderKey { peer, sender_id: frame.sender_id });
    assert(!repair_enabled(st4, key.sender));
    lemma_after_insert_waits(st4, n0, key);
    assert(holds_prefix(st4, st, frame, options, peer, order, times, k + 1));
}

/// Pushing the last datagram completes the frame and releases its identity, leaving
/// the identities of the start state and their bytes.
proof fn lemma_step_completes(
    s: AssemblerModel,
    st: AssemblerModel,
    frame: WireFrameModel,
    options: PonkEncodeOptions,
    peer: PeerAddr,
    order: Seq<int>,
    times: Seq<u128>,
    k: int,
)
    requires
        step_ready(s, st, frame, options, peer, order, times, k),
        k + 1 == order.len(),
    ensures
        push_step(s, frame, options, peer, order, times, k).1 == Ok::<
            Option<(WireFrameModel, PonkCompletion)>,
            crate::error::PonkError,
        >(Some((decoded_form(frame, options.empty_frame), PonkCompletion::Strict))),
        push_step(s, frame, options, peer, order, times, k).0.entries == st.entries,
        push_step(s, frame, options, peer, order, times, k).0.buffered_bytes == st.buffered_bytes,
{
    let ds = spec_encode_wire_datagrams(frame, options)->Ok_0;
    let n = ds.len();
    let pieces = carried_pieces(ds);
    let key = key_of(peer, header_fields(ds[0]));
    let p = order[k];
    let n0 = st.entries.len() as int;
    lemma_step_route(s, st, frame, options, peer, order, times, k);
    lemma_step_state(s, st, frame, options, peer, order, times, k);
    let st4 = stored(s, key, header_fields(ds[p]), pieces[p], times[k], k == 0, n0);
    let a4 = st4.entries[n0].1;
    assert(order.take(k + 1) =~= order);
    assert forall|j: int| 0 <= j < n implies #[trigger] a4.chunks[j] == Some(pieces[j]) by {
        assert(order.contains(j));
    }
    assert(is_complete(a4));
    lemma_concat_all(a4.chunks, pieces);
    lemma_datagram_at(frame, options, 0);
    lemma_datagram_at(frame, options, order[0]);
    lemma_payload_decodes(frame, options, st.config.decoder, header_fields(ds[order[0]]));
    assert(remove_at(st4, n0).entries =~= st.entries);
}

proof fn lemma_push_prefix(
    st: AssemblerModel,
    frame: WireFrameModel,
    options: PonkEncodeOptions,
    peer: PeerAddr,
    order: Seq<int>,
    times: Seq<u128>,
    m: int,
)
    requires
        reassembly_room(st, frame, options, peer),
        none_expire(st, times),
        spec_encode_wire_datagrams(frame, options)->Ok_0.len() >= 2,
        is_order(order, spec_encode_wire_datagrams(frame, options)->Ok_0.len()),
        times.len() == order.len(),
        within_timeout(times, st.timeout_nanos),
        0 <= m < order.len(),
    ensures
        holds_prefix(
            push_each(st, in_order(spec_encode_wire_datagrams(frame, options)->Ok_0, order).take(m), peer, times).0,
            st,
            frame,
            options,
            peer,
            order,
            times,
            m,
        ),
        push_each(st, in_order(spec_encode_wire_datagrams(frame, options)->Ok_0, order).take(m), peer, times).1.len()
            == m,
        forall|i: int|
            0 <= i < m ==> #[trigger] push_each(
                st,
                in_order(spec_encode_wire_datagrams(frame, options)->Ok_0, order).take(m),
                peer,
                times,
            ).1[i] == Ok::<Option<(WireFrameModel, PonkCompletion)>, crate::error::PonkError>(None),
    decreases m,
{
    let ds = in_order(spec_encode_wire_datagrams(frame, options)->Ok_0, order);
    if m == 0 {
        assert(ds.take(0) =~= Seq::<Seq<u8>>::empty());
    } else {
        lemma_push_prefix(st, frame, options, peer, order, times, m - 1);
        assert(ds.take(m).drop_last() =~= ds.take(m - 1));
        assert(ds.take(m).last() == spec_encode_wire_datagrams(frame, options)->Ok_0[order[m - 1]]);
        let prev = push_each(st, ds.take(m - 1), peer, times);
        lemma_step_waits(prev.0, st, frame, options, peer, order, times, m - 1);
        let outs = push_each(st, ds.take(m), peer, times).1;
        assert(outs == prev.1.push(push_step(prev.0, frame, options, peer, order, times, m - 1).1));
        assert forall|i: int| 0 <= i < m implies #[trigger] outs[i] == Ok::<
            Option<(WireFrameModel, PonkCompletion)>,
            crate::error::PonkError,
        >(None) by {
            if i < m - 1 {
                assert(outs[i] == prev.1[i]);
            }
        }
    }
}

/// The datagrams of an encoded frame, pushed from one peer in any order into a
/// reassembler that may already hold other identities, each push at most the
/// reassembly timeout after the one before, give the frame back exactly from the
/// push that supplies the last missing datagram, as a strictly completed frame equal
/// to what decoding a single datagram gives (see `lemma_single_datagram_roundtrip`);
/// every earlier push reports nothing. Afterwards the frame's identity and its bytes
/// are released: the reassembler holds exactly the identities and bytes it held
/// before. It holds where the frame's identity is not already held, nothing has to
/// be evicted (room for one more identity of the sender and for the frame's bytes),
/// none of the identities held goes stale meanwhile, decoder limits admit the frame,
/// its sender has no canonical boundary repair, and its sender name and metadata
/// keys hold no NUL character.
pub proof fn lemma_reassembly_roundtrip(
    st: AssemblerModel,
    frame: WireFrameModel,
    options: PonkEncodeOptions,
    peer: PeerAddr,
    order: Seq<int>,
    times: Seq<u128>,
)
    requires
        reassembly_room(st, frame, options, peer),
        none_expire(st, times),
        is_order(order, spec_encode_wire_datagrams(frame, options)->Ok_0.len()),
        times.len() == order.len(),
        within_timeout(times, st.timeout_nanos),
    ensures
        push_each(st, in_order(spec_encode_wire_datagrams(frame, options)->Ok_0, order), peer, times).1.len()
            == order.len(),
        forall|i: int|
            0 <= i < order.len() - 1 ==> #[trigger] push_each(
                st,
                in_order(spec_encode_wire_datagrams(frame, options)->Ok_0, order),
                peer,
                times,
            ).1[i] == Ok::<Option<(WireFrameModel, PonkCompletion)>, crate::error::PonkError>(None),
        push_each(st, in_order(spec_encode_wire_datagrams(frame, options)->Ok_0, order), peer, times).1.last()
            == Ok::<Option<(WireFrameModel, PonkCompletion)>, crate::error::PonkError>(
            Some((decoded_form(frame, options.empty_frame), PonkCompletion::Strict)),
        ),
        push_each(st, in_order(spec_encode_wire_datagrams(frame, options)->Ok_0, order), peer, times).0.entries
            == st.entries,
        push_each(st, in_order(spec_encode_wire_datagrams(frame, options)->Ok_0, order), peer, times).0.buffered_bytes
            == st.buffered_bytes,
{
    let enc = spec_encode_wire_datagrams(frame, options)->Ok_0;
    let ds = in_order(enc, order);
    let n = ds.len();
    lemma_encoded_datagrams(frame, options);
    assert(ds.drop_last() =~= ds.take(n - 1));
    if n == 1 {
        assert(order[0] == 0);
        crate::laws::lemma_single_datagram_roundtrip(frame, options, st.config.decoder);
        assert forall|i: int| 0 <= i < st.entries.len() implies !is_stale(#[trigger] st.entries[i].1, times[0], st.timeout_nanos) by {
            assert(!is_stale(st.entries[i].1, times[0], st.timeout_nanos));
        }
        lemma_prune_fresh(st, times[0]);
        assert(ds.take(0) =~= Seq::<Seq<u8>>::empty());
        assert(push_each(st, ds.drop_last(), peer, times) == (st, Seq::<PushOutcome>::empty()));
        assert(ds.last() == enc[0]);
    } else {
        lemma_push_prefix(st, frame, options, peer, order, times, n - 1);
        let prev = push_each(st, ds.take(n - 1), peer, times);
        lemma_step_completes(prev.0, st, frame, options, peer, order, times, n - 1);
        assert(ds.last() == enc[order[n - 1]]);
        let outs = push_each(st, ds, peer, times).1;
        assert(outs == prev.1.push(push_step(prev.0, frame, options, peer, order, times, n - 1).1));
        assert forall|i: int| 0 <= i < n - 1 implies #[trigger] outs[i] == Ok::<
            Option<(WireFrameModel, PonkCompletion)>,
            crate::error::PonkError,
        >(None) by {
            assert(outs[i] == prev.1[i]);
        }
    }
}


/// The datagrams a frame encodes to.
pub open spec fn frame_datagrams(frame: WireFrameModel, options: PonkEncodeOptions) -> Seq<Seq<u8>> {
    spec_encode_wire_datagrams(frame, options)->Ok_0
}

/// Pushing datagrams one after another, each from its own peer at its own clock
/// reading: the final state and what each push reported.
pub open spec fn push_all(st: AssemblerModel, steps: Seq<(Seq<u8>, PeerAddr, u128)>) -> (AssemblerModel, Seq<PushOutcome>)
    decreases steps.len(),
{
    if steps.len() == 0 {
        (st, Seq::empty())
    } else {
        let (s1, outs) = push_all(st, steps.drop_last());
        let (s2, out) = spec_push(s1, steps.last().0, steps.last().1, steps.last().2);
        (s2, outs.push(out))
    }
}

/// True when `sched` lists every datagram of every frame exactly once, each as the
/// frame's position in `frames` and the datagram's position in the frame's encoding.
pub open spec fn is_schedule(sched: Seq<(int, int)>, frames: Seq<WireFrameModel>, options: PonkEncodeOptions) -> bool {
    &&& sched.no_duplicates()
    &&& forall|k: int|
        0 <= k < sched.len() ==> 0 <= (#[trigger] sched[k]).0 < frames.len() && 0 <= sched[k].1 < frame_datagrams(
            frames[sched[k].0],
            options,
        ).len()
    &&& forall|f: int, p: int|
        0 <= f < frames.len() && 0 <= p < frame_datagrams(frames[f], options).len() ==> #[trigger] sched.contains(
            (f, p),
        )
}

/// The pushes a schedule makes: the datagram, the peer of its frame, and the clock
/// reading of its turn.
pub open spec fn scheduled(
    frames: Seq<WireFrameModel>,
    options: PonkEncodeOptions,
    peers: Seq<PeerAddr>,
    sched: Seq<(int, int)>,
    times: Seq<u128>,
) -> Seq<(Seq<u8>, PeerAddr, u128)> {
    Seq::new(
        sched.len(),
        |k: int| (frame_datagrams(frames[sched[k].0], options)[sched[k].1], peers[sched[k].0], times[k]),
    )
}

/// True when the push at position `k` of a schedule supplies the last datagram of its
/// frame that was still missing.
pub open spec fn completes_frame(sched: Seq<(int, int)>, frames: Seq<WireFrameModel>, options: PonkEncodeOptions, k: int) -> bool {
    forall|p: int|
        0 <= p < frame_datagrams(frames[sched[k].0], options).len() ==> #[trigger] sched.take(k + 1).contains(
            (sched[k].0, p),
        )
}

/// What the push at position `k` of a schedule reports when nothing interferes: its
/// frame, strictly completed, if it supplies the frame's last missing datagram, and
/// nothing otherwise.
pub open spec fn overlap_outcome(sched: Seq<(int, int)>, frames: Seq<WireFrameModel>, options: PonkEncodeOptions, k: int) -> PushOutcome {
    if completes_frame(sched, frames, options, k) {
        Ok(Some((decoded_form(frames[sched[k].0], options.empty_frame), PonkCompletion::Strict)))
    } else {
        Ok(None)
    }
}

/// A frame that can travel through the reassembler: encodable, with texts free of
/// NUL, admitted by the decoder limits, from a sender without canonical boundary
/// repair, and with an identity the reassembler does not hold yet.
pub open spec fn frame_fits(st: AssemblerModel, frame: WireFrameModel, options: PonkEncodeOptions, peer: PeerAddr) -> bool {
    &&& spec_encode_wire_datagrams(frame, options) is Ok
    &&& frame_text_encodable(frame)
    &&& decoder_admits(frame, options.empty_frame, st.config.decoder)
    &&& !repair_enabled(st, PonkSenderKey { peer, sender_id: frame.sender_id })
    &&& forall|i: int| 0 <= i < st.entries.len() ==> (#[trigger] st.entries[i]).0 != frame_identity(frame, options, peer)
}

/// Frames sent from the given peers, each fitting the reassembler, with pairwise
/// distinct identities.
pub open spec fn overlap_setting(
    st: AssemblerModel,
    frames: Seq<WireFrameModel>,
    options: PonkEncodeOptions,
    peers: Seq<PeerAddr>,
) -> bool {
    &&& peers.len() == frames.len()
    &&& forall|f: int| 0 <= f < frames.len() ==> #[trigger] frame_fits(st, frames[f], options, peers[f])
    &&& forall|f: int, g: int|
        0 <= f < frames.len() && 0 <= g < frames.len() && f != g ==> #[trigger] frame_identity(
            frames[f],
            options,
            peers[f],
        ) != #[trigger] frame_identity(frames[g], options, peers[g])
}

/// True when pushing `d` from `peer` at `now` into `s` drops and evicts nothing: no
/// identity held is stale at `now`; and for a chunk of a multipart frame, its bytes
/// fit the byte limit beside those held, and, where its identity is not held yet,
/// there is room for one more identity overall and for its sender.
pub open spec fn quiet_before(s: AssemblerModel, d: Seq<u8>, peer: PeerAddr, now: u128) -> bool {
    &&& forall|i: int| 0 <= i < s.entries.len() ==> !is_stale(#[trigger] s.entries[i].1, now, s.timeout_nanos)
    &&& match spec_split_datagram(d) {
        Ok(Some(h)) => h.chunk_count != 1 ==> room_for_chunk(s, key_of(peer, h), d.subrange(52, d.len() as int).len()),
        _ => true,
    }
}

/// Room for a chunk of `len` bytes of the identity `key` without evicting anything.
pub open spec fn room_for_chunk(s: AssemblerModel, key: AssemblyKey, len: nat) -> bool {
    &&& s.buffered_bytes + len <= s.config.reassembly.max_buffered_bytes
    &&& key_index(s.entries, key) is None ==> {
        &&& s.entries.len() < s.config.reassembly.max_assemblies
        &&& sender_count(s.entries, key.sender) < s.config.reassembly.max_assemblies_per_sender
    }
}

/// True when no push of a run drops a stale identity or evicts one.
pub open spec fn runs_quietly(st: AssemblerModel, steps: Seq<(Seq<u8>, PeerAddr, u128)>) -> bool {
    forall|k: int|
        0 <= k < steps.len() ==> #[trigger] quiet_before(push_all(st, steps.take(k)).0, steps[k].0, steps[k].1, steps[k].2)
}

/// The positions of frame `f`'s datagrams among the pairs of `sched`, in order.
spec fn got(sched: Seq<(int, int)>, f: int) -> Seq<int>
    decreases sched.len(),
{
    if sched.len() == 0 {
        Seq::empty()
    } else if sched.last().0 == f {
        got(sched.drop_last(), f).push(sched.last().1)
    } else {
        got(sched.drop_last(), f)
    }
}

proof fn lemma_got(sched: Seq<(int, int)>, f: int)
    ensures
        forall|j: int| #[trigger] got(sched, f).contains(j) <==> sched.contains((f, j)),
        sched.no_duplicates() ==> got(sched, f).no_duplicates(),
    decreases sched.len(),
{
    if sched.len() > 0 {
        let init = sched.drop_last();
        let x = sched.last();
        lemma_got(init, f);
        assert forall|j: int| #[trigger] got(sched, f).contains(j) <==> sched.contains((f, j)) by {
            let g0 = got(init, f);
            if init.contains((f, j)) {
                let t = choose|t: int| 0 <= t < init.len() && init[t] == (f, j);
                assert(sched[t] == (f, j));
            }
            if sched.contains((f, j)) {
                let t = choose|t: int| 0 <= t < sched.len() && sched[t] == (f, j);
                if t < sched.len() - 1 {
                    assert(init[t] == (f, j));
                }
            }
            if x.0 == f {
                if g0.contains(j) {
                    let t = choose|t: int| 0 <= t < g0.len() && g0[t] == j;
                    assert(g0.push(x.1)[t] == j);
                }
                if x.1 == j {
                    assert(g0.push(x.1)[g0.len() as int] == j);
                }
                if g0.push(x.1).contains(j) {
                    let t = choose|t: int| 0 <= t < g0.len() + 1 && g0.push(x.1)[t] == j;
                    if t < g0.len() {
                        assert(g0[t] == j);
                    }
                }
            }
        }
        if sched.no_duplicates() {
            assert(init.no_duplicates()) by {
                assert forall|a: int, b: int| 0 <= a < init.len() && 0 <= b < init.len() && a != b implies init[a]
                    != init[b] by {
                    assert(init[a] == sched[a] && init[b] == sched[b]);
                }
            }
            if x.0 == f {
                let g0 = got(init, f);
                if init.contains((f, x.1)) {
                    let t = choose|t: int| 0 <= t < init.len() && init[t] == (f, x.1);
                    assert(sched[t] == sched[sched.len() - 1]);
                }
                assert(!g0.contains(x.1));
                assert forall|a: int, b: int| 0 <= a < g0.len() + 1 && 0 <= b < g0.len() + 1 && a != b implies g0.push(
                    x.1,
                )[a] != g0.push(x.1)[b] by {
                    if a == g0.len() {
                        assert(g0[b] != x.1);
                    } else if b == g0.len() {
                        assert(g0[a] != x.1);
                    }
                }
            }
        }
    }
}


/// True when every datagram of frame `g` was pushed in the first `k` turns.
spec fn is_done(sched: Seq<(int, int)>, frames: Seq<WireFrameModel>, options: PonkEncodeOptions, k: int, g: int) -> bool {
    forall|p: int| 0 <= p < frame_datagrams(frames[g], options).len() ==> #[trigger] got(sched.take(k), g).contains(p)
}

/// True when frame `g` is under way after `k` turns: some but not all of its
/// datagrams were pushed.
spec fn is_active(sched: Seq<(int, int)>, frames: Seq<WireFrameModel>, options: PonkEncodeOptions, k: int, g: int) -> bool {
    got(sched.take(k), g).len() > 0 && !is_done(sched, frames, options, k, g)
}

spec fn identity_of(frames: Seq<WireFrameModel>, options: PonkEncodeOptions, peers: Seq<PeerAddr>, g: int) -> AssemblyKey {
    frame_identity(frames[g], options, peers[g])
}

/// The identity of frame `g` after `k` turns: the header of its first datagram, the
/// pieces pushed so far in their slots, and their bytes.
spec fn entry_holds(
    e: AssemblyModel,
    frames: Seq<WireFrameModel>,
    options: PonkEncodeOptions,
    sched: Seq<(int, int)>,
    k: int,
    g: int,
) -> bool {
    let ds = frame_datagrams(frames[g], options);
    let pieces = carried_pieces(ds);
    let seen = got(sched.take(k), g);
    &&& seen.len() > 0
    &&& e.header == header_fields(ds[seen[0]])
    &&& e.chunks.len() == ds.len()
    &&& forall|j: int|
        0 <= j < ds.len() ==> #[trigger] e.chunks[j] == if seen.contains(j) {
            Some(pieces[j])
        } else {
            None::<Seq<u8>>
        }
    &&& e.received_bytes == sum_lens(pieces, seen)
}

/// The state after `k` turns: the identities of `st` unchanged, followed by one
/// identity for each frame under way, in the order `a` of their first datagrams.
spec fn overlap_inv(
    s: AssemblerModel,
    st: AssemblerModel,
    frames: Seq<WireFrameModel>,
    options: PonkEncodeOptions,
    peers: Seq<PeerAddr>,
    sched: Seq<(int, int)>,
    k: int,
    a: Seq<int>,
) -> bool {
    let n0 = st.entries.len() as int;
    &&& s.config == st.config
    &&& s.repair_senders == st.repair_senders
    &&& s.timeout_nanos == st.timeout_nanos
    &&& s.entries.len() == n0 + a.len()
    &&& forall|i: int| 0 <= i < n0 ==> #[trigger] s.entries[i] == st.entries[i]
    &&& a.no_duplicates()
    &&& forall|j: int| 0 <= j < a.len() ==> 0 <= #[trigger] a[j] < frames.len()
    &&& forall|j: int| 0 <= j < a.len() ==> s.entries[n0 + j].0 == identity_of(frames, options, peers, #[trigger] a[j])
    &&& forall|j: int| 0 <= j < a.len() ==> entry_holds(s.entries[n0 + j].1, frames, options, sched, k, #[trigger] a[j])
    &&& forall|g: int| 0 <= g < frames.len() ==> (a.contains(g) <==> #[trigger] is_active(sched, frames, options, k, g))
    &&& s.buffered_bytes == st.buffered_bytes + sum_received(s.entries.skip(n0))
}

/// What the first `k + 1` turns of a schedule add to the first `k`.
proof fn lemma_turn(sched: Seq<(int, int)>, frames: Seq<WireFrameModel>, options: PonkEncodeOptions, k: int)
    requires
        is_schedule(sched, frames, options),
        0 <= k < sched.len(),
    ensures
        forall|g: int|
            #[trigger] got(sched.take(k + 1), g) == if g == sched[k].0 {
                got(sched.take(k), g).push(sched[k].1)
            } else {
                got(sched.take(k), g)
            },
        forall|g: int| #[trigger] got(sched.take(k), g).no_duplicates(),
        forall|g: int| #[trigger] got(sched.take(k + 1), g).no_duplicates(),
        !got(sched.take(k), sched[k].0).contains(sched[k].1),
        forall|g: int, j: int|
            #[trigger] got(sched.take(k), g).contains(j) ==> 0 <= g < frames.len() && 0 <= j < frame_datagrams(
                frames[g],
                options,
            ).len(),
        forall|g: int, j: int|
            #[trigger] got(sched.take(k + 1), g).contains(j) ==> 0 <= g < frames.len() && 0 <= j
                < frame_datagrams(frames[g], options).len(),
        forall|g: int, j: int| #[trigger] got(sched.take(k + 1), g).contains(j) <==> sched.take(k + 1).contains((g, j)),
{
    let t0 = sched.take(k);
    let t1 = sched.take(k + 1);
    assert(t1.drop_last() =~= t0);
    assert(t1.last() == sched[k]);
    assert forall|a: int, b: int| 0 <= a < t0.len() && 0 <= b < t0.len() && a != b implies t0[a] != t0[b] by {
        assert(t0[a] == sched[a] && t0[b] == sched[b]);
    }
    assert forall|a: int, b: int| 0 <= a < t1.len() && 0 <= b < t1.len() && a != b implies t1[a] != t1[b] by {
        assert(t1[a] == sched[a] && t1[b] == sched[b]);
    }
    assert forall|g: int| #[trigger] got(t1, g) == if g == sched[k].0 {
        got(t0, g).push(sched[k].1)
    } else {
        got(t0, g)
    } by {}
    assert forall|g: int| #[trigger] got(t0, g).no_duplicates() by {
        lemma_got(t0, g);
    }
    assert forall|g: int| #[trigger] got(t1, g).no_duplicates() by {
        lemma_got(t1, g);
    }
    lemma_got(t0, sched[k].0);
    if t0.contains(sched[k]) {
        let t = choose|t: int| 0 <= t < t0.len() && t0[t] == sched[k];
        assert(sched[t] == sched[k]);
    }
    assert forall|g: int, j: int| #[trigger] got(t0, g).contains(j) implies 0 <= g < frames.len() && 0 <= j
        < frame_datagrams(frames[g], options).len() by {
        lemma_got(t0, g);
        let t = choose|t: int| 0 <= t < t0.len() && t0[t] == (g, j);
        assert(sched[t] == (g, j));
    }
    assert forall|g: int, j: int| #[trigger] got(t1, g).contains(j) implies 0 <= g < frames.len() && 0 <= j
        < frame_datagrams(frames[g], options).len() by {
        lemma_got(t1, g);
        let t = choose|t: int| 0 <= t < t1.len() && t1[t] == (g, j);
        assert(sched[t] == (g, j));
    }
    assert forall|g: int, j: int| #[trigger] got(t1, g).contains(j) <==> t1.contains((g, j)) by {
        lemma_got(t1, g);
    }
}

/// Pieces at distinct positions of a frame, one more included, hold no more bytes
/// than the frame's payload.
proof fn lemma_seen_bytes(pieces: Seq<Seq<u8>>, seen: Seq<int>, p: int)
    requires
        seen.no_duplicates(),
        forall|j: int| #[trigger] seen.contains(j) ==> 0 <= j < pieces.len(),
        !seen.contains(p),
        0 <= p < pieces.len(),
    ensures
        sum_lens(pieces, seen.push(p)) == sum_lens(pieces, seen) + pieces[p].len(),
        sum_lens(pieces, seen.push(p)) <= pieces.flatten().len(),
{
    let idx = seen.push(p);
    let n = pieces.len();
    let pool = Seq::new(n, |i: int| i);
    assert(idx.drop_last() =~= seen);
    assert forall|a: int, b: int| 0 <= a < idx.len() && 0 <= b < idx.len() && a != b implies idx[a] != idx[b] by {
        if a < seen.len() && b < seen.len() {
            assert(idx[a] == seen[a] && idx[b] == seen[b]);
        } else if a < seen.len() {
            assert(seen.contains(idx[a]));
        } else {
            assert(seen.contains(idx[b]));
        }
    }
    assert forall|t: int| 0 <= t < idx.len() implies pool.contains(#[trigger] idx[t]) by {
        if t < seen.len() {
            assert(seen.contains(seen[t]));
        }
        assert(pool[idx[t]] == idx[t]);
    }
    lemma_sum_lens_subset(pieces, idx, pool);
    lemma_sum_lens_all(pieces, n as int);
    assert(pieces.take(n as int) =~= pieces);
}


/// The requirements of turn `k`.
spec fn turn_ready(
    s: AssemblerModel,
    st: AssemblerModel,
    frames: Seq<WireFrameModel>,
    options: PonkEncodeOptions,
    peers: Seq<PeerAddr>,
    sched: Seq<(int, int)>,
    times: Seq<u128>,
    k: int,
    a: Seq<int>,
) -> bool {
    &&& overlap_setting(st, frames, options, peers)
    &&& is_schedule(sched, frames, options)
    &&& times.len() == sched.len()
    &&& 0 <= k < sched.len()
    &&& overlap_inv(s, st, frames, options, peers, sched, k, a)
    &&& quiet_before(
        s,
        frame_datagrams(frames[sched[k].0], options)[sched[k].1],
        peers[sched[k].0],
        times[k],
    )
}

/// What the datagram of turn `k` of a multipart frame holds.
proof fn lemma_turn_datagram(
    st: AssemblerModel,
    frames: Seq<WireFrameModel>,
    options: PonkEncodeOptions,
    peers: Seq<PeerAddr>,
    sched: Seq<(int, int)>,
    k: int,
)
    requires
        overlap_setting(st, frames, options, peers),
        is_schedule(sched, frames, options),
        0 <= k < sched.len(),
        frame_datagrams(frames[sched[k].0], options).len() >= 2,
    ensures
        ({
            let f = sched[k].0;
            let p = sched[k].1;
            let ds = frame_datagrams(frames[f], options);
            let h = header_fields(ds[p]);
            &&& 0 <= f < frames.len()
            &&& 0 <= p < ds.len()
            &&& frame_fits(st, frames[f], options, peers[f])
            &&& spec_split_datagram(ds[p]) == Ok::<Option<HeaderModel>, crate::error::PonkError>(Some(h))
            &&& h.chunk_count == ds.len()
            &&& h.chunk_number == p
            &&& h.sender_id == frames[f].sender_id
            &&& h.sender_name_bytes == fixed_field(frames[f].sender_name, 32)
            &&& key_of(peers[f], h) == identity_of(frames, options, peers, f)
            &&& ds[p].subrange(52, ds[p].len() as int) == carried_pieces(ds)[p]
            &&& 0 < carried_pieces(ds)[p].len()
            &&& carried_pieces(ds).len() == ds.len()
            &&& carried_pieces(ds).flatten() == payload_bytes(frames[f], options.empty_frame)
            &&& payload_bytes(frames[f], options.empty_frame).len() <= st.config.decoder.max_frame_payload_bytes
        }),
{
    let f = sched[k].0;
    let p = sched[k].1;
    assert(frame_fits(st, frames[f], options, peers[f]));
    lemma_datagram_at(frames[f], options, p);
    lemma_datagram_at(frames[f], options, 0);
}

/// Turn `k` of a frame with one datagram: the frame is decoded at once and the state
/// does not change.
proof fn lemma_turn_single(
    s: AssemblerModel,
    st: AssemblerModel,
    frames: Seq<WireFrameModel>,
    options: PonkEncodeOptions,
    peers: Seq<PeerAddr>,
    sched: Seq<(int, int)>,
    times: Seq<u128>,
    k: int,
    a: Seq<int>,
)
    requires
        turn_ready(s, st, frames, options, peers, sched, times, k, a),
        frame_datagrams(frames[sched[k].0], options).len() == 1,
    ensures
        ({
            let f = sched[k].0;
            let r = spec_push(s, frame_datagrams(frames[f], options)[sched[k].1], peers[f], times[k]);
            &&& overlap_inv(r.0, st, frames, options, peers, sched, k + 1, a)
            &&& r.1 == overlap_outcome(sched, frames, options, k)
        }),
{
    let f = sched[k].0;
    let p = sched[k].1;
    let frame = frames[f];
    lemma_turn(sched, frames, options, k);
    assert(frame_fits(st, frame, options, peers[f]));
    assert(p == 0);
    crate::laws::lemma_single_datagram_roundtrip(frame, options, st.config.decoder);
    lemma_prune_fresh(s, times[k]);
    let r = spec_push(s, frame_datagrams(frame, options)[p], peers[f], times[k]);
    assert(r.0 == s);
    assert(!got(sched.take(k), f).contains(0));
    assert(got(sched.take(k), f).len() == 0) by {
        if got(sched.take(k), f).len() > 0 {
            assert(got(sched.take(k), f).contains(got(sched.take(k), f)[0]));
        }
    }
    assert(got(sched.take(k + 1), f).contains(0)) by {
        assert(got(sched.take(k + 1), f)[0] == 0);
    }
    assert(completes_frame(sched, frames, options, k));
    let n0 = st.entries.len() as int;
    assert forall|j: int| 0 <= j < a.len() implies entry_holds(r.0.entries[n0 + j].1, frames, options, sched, k + 1, #[trigger] a[j]) by {
        assert(entry_holds(s.entries[n0 + j].1, frames, options, sched, k, a[j]));
        if a[j] == f {
            assert(is_active(sched, frames, options, k, f));
        }
    }
    assert forall|g: int| 0 <= g < frames.len() implies (a.contains(g) <==> #[trigger] is_active(sched, frames, options, k + 1, g)) by {
        assert(a.contains(g) <==> is_active(sched, frames, options, k, g));
        if g == f {
            assert(!is_active(sched, frames, options, k, g));
            assert(is_done(sched, frames, options, k + 1, g));
        } else {
            assert(got(sched.take(k + 1), g) == got(sched.take(k), g));
        }
    }
}


/// No identity other than those of `a`, and of `st`, is held.
proof fn lemma_identity_absent(
    s: AssemblerModel,
    st: AssemblerModel,
    frames: Seq<WireFrameModel>,
    options: PonkEncodeOptions,
    peers: Seq<PeerAddr>,
    sched: Seq<(int, int)>,
    k: int,
    a: Seq<int>,
    f: int,
)
    requires
        overlap_setting(st, frames, options, peers),
        overlap_inv(s, st, frames, options, peers, sched, k, a),
        0 <= f < frames.len(),
        !a.contains(f),
    ensures
        key_index(s.entries, identity_of(frames, options, peers, f)) is None,
        forall|i: int| 0 <= i < s.entries.len() ==> (#[trigger] s.entries[i]).0 != identity_of(frames, options, peers, f),
{
    let n0 = st.entries.len() as int;
    let key = identity_of(frames, options, peers, f);
    assert(frame_fits(st, frames[f], options, peers[f]));
    assert forall|i: int| 0 <= i < s.entries.len() implies (#[trigger] s.entries[i]).0 != key by {
        if i < n0 {
            assert(s.entries[i] == st.entries[i]);
        } else {
            let j = i - n0;
            assert(s.entries[n0 + j].0 == identity_of(frames, options, peers, a[j]));
            assert(a[j] != f);
            assert(frame_identity(frames[a[j]], options, peers[a[j]]) != frame_identity(frames[f], options, peers[f]));
        }
    }
    lemma_key_index(s.entries, key);
}

/// Where the identity of frame `a[j]` is held, and that it is found there.
proof fn lemma_identity_at(
    s: AssemblerModel,
    st: AssemblerModel,
    frames: Seq<WireFrameModel>,
    options: PonkEncodeOptions,
    peers: Seq<PeerAddr>,
    sched: Seq<(int, int)>,
    k: int,
    a: Seq<int>,
    j: int,
)
    requires
        overlap_setting(st, frames, options, peers),
        overlap_inv(s, st, frames, options, peers, sched, k, a),
        0 <= j < a.len(),
    ensures
        key_index(s.entries, identity_of(frames, options, peers, a[j])) == Some(st.entries.len() + j),
{
    let n0 = st.entries.len() as int;
    let f = a[j];
    let key = identity_of(frames, options, peers, f);
    assert(frame_fits(st, frames[f], options, peers[f]));
    assert(s.entries[n0 + j].0 == key);
    assert forall|i: int| 0 <= i < n0 + j implies (#[trigger] s.entries[i]).0 != key by {
        if i < n0 {
            assert(s.entries[i] == st.entries[i]);
        } else {
            let t = i - n0;
            assert(s.entries[n0 + t].0 == identity_of(frames, options, peers, a[t]));
            assert(a[t] != f);
            assert(frame_identity(frames[a[t]], options, peers[a[t]]) != frame_identity(frames[f], options, peers[f]));
        }
    }
    lemma_key_index_at(s.entries, key, n0 + j);
}

/// Turn `k` starts a multipart frame: a new identity holding its first datagram is
/// appended, and the push reports nothing.
proof fn lemma_turn_starts(
    s: AssemblerModel,
    st: AssemblerModel,
    frames: Seq<WireFrameModel>,
    options: PonkEncodeOptions,
    peers: Seq<PeerAddr>,
    sched: Seq<(int, int)>,
    times: Seq<u128>,
    k: int,
    a: Seq<int>,
) -> (a2: Seq<int>)
    requires
        turn_ready(s, st, frames, options, peers, sched, times, k, a),
        frame_datagrams(frames[sched[k].0], options).len() >= 2,
        !a.contains(sched[k].0),
    ensures
        ({
            let f = sched[k].0;
            let r = spec_push(s, frame_datagrams(frames[f], options)[sched[k].1], peers[f], times[k]);
            &&& overlap_inv(r.0, st, frames, options, peers, sched, k + 1, a2)
            &&& r.1 == overlap_outcome(sched, frames, options, k)
        }),
{
    let n0 = st.entries.len() as int;
    let f = sched[k].0;
    let p = sched[k].1;
    let frame = frames[f];
    let ds = frame_datagrams(frame, options);
    let n = ds.len() as int;
    let pieces = carried_pieces(ds);
    let peer = peers[f];
    let now = times[k];
    let d = ds[p];
    let h = header_fields(d);
    let key = key_of(peer, h);
    let piece = pieces[p];
    lemma_turn(sched, frames, options, k);
    lemma_turn_datagram(st, frames, options, peers, sched, k);
    lemma_identity_absent(s, st, frames, options, peers, sched, k, a, f);
    let seen = got(sched.take(k), f);
    assert(!is_active(sched, frames, options, k, f));
    assert(!is_done(sched, frames, options, k, f));
    assert(seen.len() == 0);
    assert(seen =~= Seq::<int>::empty());
    lemma_seen_bytes(pieces, seen, p);
    assert(d.subrange(52, d.len() as int) == piece);
    lemma_prune_fresh(s, now);
    lemma_push_is_chunk(s, d, peer, now, h);
    lemma_first_chunk(s, key, h, piece, now);
    let len = s.entries.len() as int;
    let st3 = insert_new(s, key, h, now);
    let st4 = insert_chunk(st3, len, h.chunk_number, piece, now);
    let e4 = st4.entries[len].1;
    let q: int = if p == 0 { 1 } else { 0 };
    assert(e4.chunks[q] == None::<Seq<u8>>);
    assert(!crate::reassembly::is_complete(e4));
    assert(key.sender == PonkSenderKey { peer, sender_id: frame.sender_id });
    lemma_after_insert_waits(st4, len, key);
    let r = spec_push(s, d, peer, now);
    assert(r == (st4, Ok::<Option<(WireFrameModel, PonkCompletion)>, crate::error::PonkError>(None)));
    let seen2 = got(sched.take(k + 1), f);
    assert(seen2 == seen.push(p));
    assert(!seen2.contains(q)) by {
        if seen2.contains(q) {
            let t = choose|t: int| 0 <= t < seen2.len() && seen2[t] == q;
            assert(seen2[0] == p);
        }
    }
    assert(!completes_frame(sched, frames, options, k)) by {
        assert(!sched.take(k + 1).contains((f, q)));
    }
    let a2 = a.push(f);
    assert(entry_holds(e4, frames, options, sched, k + 1, f)) by {
        assert(seen2[0] == p);
        assert forall|j: int| 0 <= j < ds.len() implies #[trigger] e4.chunks[j] == if seen2.contains(j) {
            Some(pieces[j])
        } else {
            None::<Seq<u8>>
        } by {
            if j == p {
                assert(seen2[0] == j);
            } else if seen2.contains(j) {
                let t = choose|t: int| 0 <= t < seen2.len() && seen2[t] == j;
                assert(seen2[0] == p);
            }
        }
        assert(seen2.drop_last() =~= seen);
    }
    assert forall|i: int| 0 <= i < n0 implies #[trigger] st4.entries[i] == st.entries[i] by {
        assert(s.entries[i] == st.entries[i]);
    }
    assert(a2.no_duplicates()) by {
        assert forall|x: int, y: int| 0 <= x < a2.len() && 0 <= y < a2.len() && x != y implies a2[x] != a2[y] by {
            if x < a.len() && y < a.len() {
                assert(a2[x] == a[x] && a2[y] == a[y]);
            } else if x < a.len() {
                assert(a.contains(a[x]));
            } else {
                assert(a.contains(a[y]));
            }
        }
    }
    assert forall|j: int| 0 <= j < a2.len() implies 0 <= #[trigger] a2[j] < frames.len() by {
        if j < a.len() {
            assert(a2[j] == a[j]);
        }
    }
    assert forall|j: int| 0 <= j < a2.len() implies st4.entries[n0 + j].0 == identity_of(frames, options, peers, #[trigger] a2[j]) by {
        if j < a.len() {
            assert(a2[j] == a[j]);
            assert(st4.entries[n0 + j] == s.entries[n0 + j]);
        }
    }
    assert forall|j: int| 0 <= j < a2.len() implies entry_holds(st4.entries[n0 + j].1, frames, options, sched, k + 1, #[trigger] a2[j]) by {
        if j < a.len() {
            assert(a2[j] == a[j]);
            assert(st4.entries[n0 + j] == s.entries[n0 + j]);
            assert(a[j] != f) by {
                assert(a.contains(a[j]));
            }
            assert(got(sched.take(k + 1), a[j]) == got(sched.take(k), a[j]));
            assert(entry_holds(s.entries[n0 + j].1, frames, options, sched, k, a[j]));
        }
    }
    assert forall|g: int| 0 <= g < frames.len() implies (a2.contains(g) <==> #[trigger] is_active(sched, frames, options, k + 1, g)) by {
        assert(a.contains(g) <==> is_active(sched, frames, options, k, g));
        if g == f {
            assert(a2[a.len() as int] == f);
            assert(!got(sched.take(k + 1), f).contains(q));
        } else {
            assert(got(sched.take(k + 1), g) == got(sched.take(k), g));
            if a2.contains(g) {
                let t = choose|t: int| 0 <= t < a2.len() && a2[t] == g;
                assert(a[t] == g);
            }
            if a.contains(g) {
                let t = choose|t: int| 0 <= t < a.len() && a[t] == g;
                assert(a2[t] == g);
            }
        }
    }
    assert(st4.entries.skip(n0) =~= s.entries.skip(n0).push(st4.entries[len]));
    lemma_sum_push(s.entries.skip(n0), st4.entries[len]);
    a2
}


/// A new chunk of the identity found at position `i`, with room for its bytes, is
/// stored in it.
proof fn lemma_held_chunk(s: AssemblerModel, key: AssemblyKey, h: HeaderModel, pk: Seq<u8>, now: u128, i: int)
    requires
        0 <= i < s.entries.len(),
        key_index(s.entries, key) == Some(i),
        s.entries[i].1.header.sender_name_bytes == h.sender_name_bytes,
        h.chunk_number < s.entries[i].1.chunks.len(),
        s.entries[i].1.chunks[h.chunk_number as int] is None,
        s.entries[i].1.received_bytes + pk.len() <= s.config.decoder.max_frame_payload_bytes,
        s.entries[i].1.received_bytes + pk.len() <= s.config.reassembly.max_buffered_bytes,
        s.buffered_bytes + pk.len() <= s.config.reassembly.max_buffered_bytes,
    ensures
        push_chunk(s, key, h, pk, now) == after_insert(insert_chunk(s, i, h.chunk_number, pk, now), i, key),
{
    assert(room_for_bytes(s, pk.len(), key) == (s, Ok::<(), crate::error::PonkError>(())));
}

/// Turn `k` stores a datagram in the identity of its frame, which is under way and
/// held at position `st.entries.len() + j`.
#[verifier::spinoff_prover]
#[verifier::rlimit(80)]
proof fn lemma_turn_stores(
    s: AssemblerModel,
    st: AssemblerModel,
    frames: Seq<WireFrameModel>,
    options: PonkEncodeOptions,
    peers: Seq<PeerAddr>,
    sched: Seq<(int, int)>,
    times: Seq<u128>,
    k: int,
    a: Seq<int>,
    j: int,
)
    requires
        turn_ready(s, st, frames, options, peers, sched, times, k, a),
        frame_datagrams(frames[sched[k].0], options).len() >= 2,
        0 <= j < a.len(),
        a[j] == sched[k].0,
    ensures
        ({
            let n0 = st.entries.len() as int;
            let i = n0 + j;
            let f = sched[k].0;
            let p = sched[k].1;
            let ds = frame_datagrams(frames[f], options);
            let pieces = carried_pieces(ds);
            let h = header_fields(ds[p]);
            let key = key_of(peers[f], h);
            let st4 = insert_chunk(s, i, h.chunk_number, pieces[p], times[k]);
            let e4 = st4.entries[i].1;
            let seen2 = got(sched.take(k + 1), f);
            &&& spec_push(s, ds[p], peers[f], times[k]) == after_insert(st4, i, key)
            &&& key == identity_of(frames, options, peers, f)
            &&& key.sender == PonkSenderKey { peer: peers[f], sender_id: frames[f].sender_id }
            &&& !repair_enabled(st, key.sender)
            &&& st4.entries == s.entries.update(i, (key, e4))
            &&& st4.config == s.config && st4.repair_senders == s.repair_senders && st4.timeout_nanos == s.timeout_nanos
            &&& seen2 == got(sched.take(k), f).push(p)
            &&& seen2.len() > 0
            &&& e4.header == header_fields(ds[seen2[0]])
            &&& e4.chunks.len() == ds.len()
            &&& forall|x: int|
                0 <= x < ds.len() ==> #[trigger] e4.chunks[x] == if seen2.contains(x) {
                    Some(pieces[x])
                } else {
                    None::<Seq<u8>>
                }
            &&& e4.received_bytes == sum_lens(pieces, seen2)
            &&& st4.buffered_bytes == st.buffered_bytes + sum_received(st4.entries.skip(n0))
        }),
{
    let n0 = st.entries.len() as int;
    let f = sched[k].0;
    let p = sched[k].1;
    let frame = frames[f];
    let ds = frame_datagrams(frame, options);
    let pieces = carried_pieces(ds);
    let peer = peers[f];
    let now = times[k];
    let d = ds[p];
    let h = header_fields(d);
    let key = key_of(peer, h);
    let piece = pieces[p];
    let i = n0 + j;
    lemma_turn(sched, frames, options, k);
    lemma_turn_datagram(st, frames, options, peers, sched, k);
    lemma_identity_at(s, st, frames, options, peers, sched, k, a, j);
    let seen = got(sched.take(k), f);
    let e = s.entries[i].1;
    assert(entry_holds(e, frames, options, sched, k, f));
    assert(seen.contains(seen[0]));
    lemma_datagram_at(frame, options, seen[0]);
    assert(e.chunks[p] == None::<Seq<u8>>);
    lemma_seen_bytes(pieces, seen, p);
    let skip = s.entries.skip(n0);
    lemma_sum_remove(skip, j);
    assert(skip[j] == s.entries[i]);
    assert(d.subrange(52, d.len() as int) == piece);
    lemma_prune_fresh(s, now);
    lemma_push_is_chunk(s, d, peer, now, h);
    lemma_held_chunk(s, key, h, piece, now, i);
    let st4 = insert_chunk(s, i, h.chunk_number, piece, now);
    let e4 = st4.entries[i].1;
    let seen2 = got(sched.take(k + 1), f);
    assert(seen2 == seen.push(p));
    assert(seen2.drop_last() =~= seen);
    assert(seen2[0] == seen[0]);
    assert forall|x: int| 0 <= x < ds.len() implies #[trigger] e4.chunks[x] == if seen2.contains(x) {
        Some(pieces[x])
    } else {
        None::<Seq<u8>>
    } by {
        if x != p {
            assert(e4.chunks[x] == e.chunks[x]);
            if seen.contains(x) {
                let t = choose|t: int| 0 <= t < seen.len() && seen[t] == x;
                assert(seen2[t] == x);
            }
            if seen2.contains(x) {
                let t = choose|t: int| 0 <= t < seen2.len() && seen2[t] == x;
                assert(seen[t] == x);
            }
        } else {
            assert(seen2[seen.len() as int] == p);
        }
    }
    assert(st4.entries.skip(n0) =~= skip.update(j, st4.entries[i]));
    lemma_sum_update(skip, j, st4.entries[i]);
}

/// Turn `k` adds a datagram to a frame under way: the push completes the frame if it
/// was the last one missing, and reports nothing otherwise.
proof fn lemma_turn_continues(
    s: AssemblerModel,
    st: AssemblerModel,
    frames: Seq<WireFrameModel>,
    options: PonkEncodeOptions,
    peers: Seq<PeerAddr>,
    sched: Seq<(int, int)>,
    times: Seq<u128>,
    k: int,
    a: Seq<int>,
    j: int,
) -> (a2: Seq<int>)
    requires
        turn_ready(s, st, frames, options, peers, sched, times, k, a),
        frame_datagrams(frames[sched[k].0], options).len() >= 2,
        0 <= j < a.len(),
        a[j] == sched[k].0,
    ensures
        ({
            let f = sched[k].0;
            let r = spec_push(s, frame_datagrams(frames[f], options)[sched[k].1], peers[f], times[k]);
            &&& overlap_inv(r.0, st, frames, options, peers, sched, k + 1, a2)
            &&& r.1 == overlap_outcome(sched, frames, options, k)
        }),
{
    if is_done(sched, frames, options, k + 1, sched[k].0) {
        lemma_turn_finishes(s, st, frames, options, peers, sched, times, k, a, j)
    } else {
        lemma_turn_waits(s, st, frames, options, peers, sched, times, k, a, j);
        a
    }
}

/// Turn `k` supplies the last missing datagram of its frame: the frame is decoded
/// and its identity released.
#[verifier::spinoff_prover]
#[verifier::rlimit(80)]
proof fn lemma_turn_finishes(
    s: AssemblerModel,
    st: AssemblerModel,
    frames: Seq<WireFrameModel>,
    options: PonkEncodeOptions,
    peers: Seq<PeerAddr>,
    sched: Seq<(int, int)>,
    times: Seq<u128>,
    k: int,
    a: Seq<int>,
    j: int,
) -> (a2: Seq<int>)
    requires
        turn_ready(s, st, frames, options, peers, sched, times, k, a),
        frame_datagrams(frames[sched[k].0], options).len() >= 2,
        0 <= j < a.len(),
        a[j] == sched[k].0,
        is_done(sched, frames, options, k + 1, sched[k].0),
    ensures
        ({
            let f = sched[k].0;
            let r = spec_push(s, frame_datagrams(frames[f], options)[sched[k].1], peers[f], times[k]);
            &&& overlap_inv(r.0, st, frames, options, peers, sched, k + 1, a2)
            &&& r.1 == overlap_outcome(sched, frames, options, k)
        }),
{
    let n0 = st.entries.len() as int;
    let f = sched[k].0;
    let p = sched[k].1;
    let frame = frames[f];
    let ds = frame_datagrams(frame, options);
    let n = ds.len() as int;
    let pieces = carried_pieces(ds);
    let h = header_fields(ds[p]);
    let i = n0 + j;
    lemma_turn(sched, frames, options, k);
    lemma_turn_datagram(st, frames, options, peers, sched, k);
    lemma_turn_stores(s, st, frames, options, peers, sched, times, k, a, j);
    let st4 = insert_chunk(s, i, h.chunk_number, pieces[p], times[k]);
    let e4 = st4.entries[i].1;
    let seen2 = got(sched.take(k + 1), f);
    assert(seen2.contains(seen2[0]));
    lemma_datagram_at(frame, options, seen2[0]);
    assert forall|x: int| 0 <= x < n implies #[trigger] e4.chunks[x] == Some(pieces[x]) by {
        assert(seen2.contains(x));
    }
    assert(crate::reassembly::is_complete(e4));
    lemma_concat_all(e4.chunks, pieces);
    lemma_payload_decodes(frame, options, st.config.decoder, e4.header);
    let st5 = remove_at(st4, i);
    assert(completes_frame(sched, frames, options, k)) by {
        assert forall|x: int| 0 <= x < n implies #[trigger] sched.take(k + 1).contains((f, x)) by {
            assert(seen2.contains(x));
        }
    }
    let a2 = a.remove(j);
    assert(a2.no_duplicates()) by {
        assert forall|x: int, y: int| 0 <= x < a2.len() && 0 <= y < a2.len() && x != y implies a2[x] != a2[y] by {
            let x1 = if x < j { x } else { x + 1 };
            let y1 = if y < j { y } else { y + 1 };
            assert(a2[x] == a[x1] && a2[y] == a[y1]);
        }
    }
    assert forall|x: int| 0 <= x < n0 implies #[trigger] st5.entries[x] == st.entries[x] by {
        assert(s.entries[x] == st.entries[x]);
    }
    assert forall|t: int| 0 <= t < a2.len() implies {
        &&& 0 <= #[trigger] a2[t] < frames.len()
        &&& st5.entries[n0 + t].0 == identity_of(frames, options, peers, a2[t])
        &&& entry_holds(st5.entries[n0 + t].1, frames, options, sched, k + 1, a2[t])
    } by {
        let t1 = if t < j { t } else { t + 1 };
        assert(a2[t] == a[t1]);
        assert(st5.entries[n0 + t] == st4.entries[n0 + t1]);
        assert(st4.entries[n0 + t1] == s.entries[n0 + t1]);
        assert(a[t1] != f);
        assert(got(sched.take(k + 1), a[t1]) == got(sched.take(k), a[t1]));
        assert(entry_holds(s.entries[n0 + t1].1, frames, options, sched, k, a[t1]));
    }
    assert forall|g: int| 0 <= g < frames.len() implies (a2.contains(g) <==> #[trigger] is_active(sched, frames, options, k + 1, g)) by {
        assert(a.contains(g) <==> is_active(sched, frames, options, k, g));
        if a2.contains(g) {
            let t = choose|t: int| 0 <= t < a2.len() && a2[t] == g;
            let t1 = if t < j { t } else { t + 1 };
            assert(a[t1] == g);
        }
        if g != f {
            assert(got(sched.take(k + 1), g) == got(sched.take(k), g));
            if a.contains(g) {
                let t = choose|t: int| 0 <= t < a.len() && a[t] == g;
                let t2 = if t < j { t } else { t - 1 };
                assert(a2[t2] == g);
            }
        }
    }
    assert(st5.entries.skip(n0) =~= st4.entries.skip(n0).remove(j));
    lemma_sum_remove(st4.entries.skip(n0), j);
    assert(st4.entries.skip(n0)[j] == st4.entries[i]);
    a2
}

/// Turn `k` adds a datagram to a frame that still misses another: the push reports
/// nothing and the identity holds one more piece.
#[verifier::spinoff_prover]
proof fn lemma_turn_waits(
    s: AssemblerModel,
    st: AssemblerModel,
    frames: Seq<WireFrameModel>,
    options: PonkEncodeOptions,
    peers: Seq<PeerAddr>,
    sched: Seq<(int, int)>,
    times: Seq<u128>,
    k: int,
    a: Seq<int>,
    j: int,
)
    requires
        turn_ready(s, st, frames, options, peers, sched, times, k, a),
        frame_datagrams(frames[sched[k].0], options).len() >= 2,
        0 <= j < a.len(),
        a[j] == sched[k].0,
        !is_done(sched, frames, options, k + 1, sched[k].0),
    ensures
        ({
            let f = sched[k].0;
            let r = spec_push(s, frame_datagrams(frames[f], options)[sched[k].1], peers[f], times[k]);
            &&& overlap_inv(r.0, st, frames, options, peers, sched, k + 1, a)
            &&& r.1 == overlap_outcome(sched, frames, options, k)
        }),
{
    let n0 = st.entries.len() as int;
    let f = sched[k].0;
    let p = sched[k].1;
    let frame = frames[f];
    let ds = frame_datagrams(frame, options);
    let n = ds.len() as int;
    let pieces = carried_pieces(ds);
    let h = header_fields(ds[p]);
    let key = key_of(peers[f], h);
    let i = n0 + j;
    lemma_turn(sched, frames, options, k);
    lemma_turn_stores(s, st, frames, options, peers, sched, times, k, a, j);
    let st4 = insert_chunk(s, i, h.chunk_number, pieces[p], times[k]);
    let e4 = st4.entries[i].1;
    let seen2 = got(sched.take(k + 1), f);
    let q = choose|q: int| 0 <= q < n && !(#[trigger] seen2.contains(q));
    assert(e4.chunks[q] == None::<Seq<u8>>);
    assert(!crate::reassembly::is_complete(e4));
    lemma_after_insert_waits(st4, i, key);
    assert(!completes_frame(sched, frames, options, k)) by {
        assert(!sched.take(k + 1).contains((f, q)));
    }
    assert forall|x: int| 0 <= x < n0 implies #[trigger] st4.entries[x] == st.entries[x] by {
        assert(s.entries[x] == st.entries[x]);
    }
    assert forall|t: int| 0 <= t < a.len() implies {
        &&& st4.entries[n0 + t].0 == identity_of(frames, options, peers, #[trigger] a[t])
        &&& entry_holds(st4.entries[n0 + t].1, frames, options, sched, k + 1, a[t])
    } by {
        if t != j {
            assert(st4.entries[n0 + t] == s.entries[n0 + t]);
            assert(a[t] != f);
            assert(got(sched.take(k + 1), a[t]) == got(sched.take(k), a[t]));
            assert(entry_holds(s.entries[n0 + t].1, frames, options, sched, k, a[t]));
        }
    }
    assert forall|g: int| 0 <= g < frames.len() implies (a.contains(g) <==> #[trigger] is_active(sched, frames, options, k + 1, g)) by {
        assert(a.contains(g) <==> is_active(sched, frames, options, k, g));
        if g == f {
            assert(a.contains(f)) by {
                assert(a[j] == f);
            }
            assert(seen2.contains(p)) by {
                assert(seen2[seen2.len() - 1] == p);
            }
        } else {
            assert(got(sched.take(k + 1), g) == got(sched.take(k), g));
        }
    }
}


/// One turn of a schedule keeps the description of the state and reports what
/// `overlap_outcome` says.
proof fn lemma_turn_step(
    s: AssemblerModel,
    st: AssemblerModel,
    frames: Seq<WireFrameModel>,
    options: PonkEncodeOptions,
    peers: Seq<PeerAddr>,
    sched: Seq<(int, int)>,
    times: Seq<u128>,
    k: int,
    a: Seq<int>,
) -> (a2: Seq<int>)
    requires
        turn_ready(s, st, frames, options, peers, sched, times, k, a),
    ensures
        ({
            let f = sched[k].0;
            let r = spec_push(s, frame_datagrams(frames[f], options)[sched[k].1], peers[f], times[k]);
            &&& overlap_inv(r.0, st, frames, options, peers, sched, k + 1, a2)
            &&& r.1 == overlap_outcome(sched, frames, options, k)
        }),
{
    let f = sched[k].0;
    assert(0 <= f < frames.len());
    assert(frame_fits(st, frames[f], options, peers[f]));
    lemma_encoded_datagrams(frames[f], options);
    if frame_datagrams(frames[f], options).len() == 1 {
        lemma_turn_single(s, st, frames, options, peers, sched, times, k, a);
        a
    } else if a.contains(f) {
        let j = choose|j: int| 0 <= j < a.len() && a[j] == f;
        lemma_turn_continues(s, st, frames, options, peers, sched, times, k, a, j)
    } else {
        lemma_turn_starts(s, st, frames, options, peers, sched, times, k, a)
    }
}

/// The first `m` turns of a schedule.
proof fn lemma_turns(
    st: AssemblerModel,
    frames: Seq<WireFrameModel>,
    options: PonkEncodeOptions,
    peers: Seq<PeerAddr>,
    sched: Seq<(int, int)>,
    times: Seq<u128>,
    m: int,
) -> (a: Seq<int>)
    requires
        overlap_setting(st, frames, options, peers),
        is_schedule(sched, frames, options),
        times.len() == sched.len(),
        runs_quietly(st, scheduled(frames, options, peers, sched, times)),
        0 <= m <= sched.len(),
    ensures
        overlap_inv(
            push_all(st, scheduled(frames, options, peers, sched, times).take(m)).0,
            st,
            frames,
            options,
            peers,
            sched,
            m,
            a,
        ),
        push_all(st, scheduled(frames, options, peers, sched, times).take(m)).1.len() == m,
        forall|t: int|
            0 <= t < m ==> #[trigger] push_all(st, scheduled(frames, options, peers, sched, times).take(m)).1[t]
                == overlap_outcome(sched, frames, options, t),
    decreases m,
{
    let steps = scheduled(frames, options, peers, sched, times);
    let n0 = st.entries.len() as int;
    if m == 0 {
        assert(steps.take(0) =~= Seq::<(Seq<u8>, PeerAddr, u128)>::empty());
        assert(st.entries.skip(n0) =~= Seq::<(AssemblyKey, AssemblyModel)>::empty());
        let a = Seq::<int>::empty();
        assert forall|g: int| 0 <= g < frames.len() implies (a.contains(g) <==> #[trigger] is_active(sched, frames, options, 0, g)) by {
            assert(sched.take(0) =~= Seq::<(int, int)>::empty());
        }
        a
    } else {
        let a0 = lemma_turns(st, frames, options, peers, sched, times, m - 1);
        let prev = push_all(st, steps.take(m - 1));
        assert(steps.take(m).drop_last() =~= steps.take(m - 1));
        let k = m - 1;
        assert(quiet_before(push_all(st, steps.take(k)).0, steps[k].0, steps[k].1, steps[k].2));
        assert(steps[k] == (frame_datagrams(frames[sched[k].0], options)[sched[k].1], peers[sched[k].0], times[k]));
        let a = lemma_turn_step(prev.0, st, frames, options, peers, sched, times, k, a0);
        let outs = push_all(st, steps.take(m)).1;
        assert forall|t: int| 0 <= t < m implies #[trigger] outs[t] == overlap_outcome(sched, frames, options, t) by {
            if t < m - 1 {
                assert(outs[t] == prev.1[t]);
            }
        }
        a
    }
}

/// Overlapping reassembly. The datagrams of several frames, with distinct identities
/// that the reassembler does not hold, pushed from their peers in any interleaving
/// (each datagram of each frame exactly once), give each frame back exactly at the
/// push that supplies its last missing datagram, as a strictly completed frame equal
/// to what decoding a single datagram gives; every other push reports nothing.
/// Afterwards every frame's identity and its bytes are released: the reassembler
/// holds exactly the identities and bytes it held before. It holds where every frame
/// is encodable with texts free of NUL, is admitted by the decoder limits, and comes
/// from a sender without canonical boundary repair, and where no push drops a stale
/// identity or evicts one.
pub proof fn lemma_overlapping_reassembly(
    st: AssemblerModel,
    frames: Seq<WireFrameModel>,
    options: PonkEncodeOptions,
    peers: Seq<PeerAddr>,
    sched: Seq<(int, int)>,
    times: Seq<u128>,
)
    requires
        overlap_setting(st, frames, options, peers),
        is_schedule(sched, frames, options),
        times.len() == sched.len(),
        runs_quietly(st, scheduled(frames, options, peers, sched, times)),
    ensures
        push_all(st, scheduled(frames, options, peers, sched, times)).1.len() == sched.len(),
        forall|k: int|
            0 <= k < sched.len() ==> #[trigger] push_all(st, scheduled(frames, options, peers, sched, times)).1[k]
                == overlap_outcome(sched, frames, options, k),
        push_all(st, scheduled(frames, options, peers, sched, times)).0.entries == st.entries,
        push_all(st, scheduled(frames, options, peers, sched, times)).0.buffered_bytes == st.buffered_bytes,
{
    let steps = scheduled(frames, options, peers, sched, times);
    let m = sched.len() as int;
    let n0 = st.entries.len() as int;
    let a = lemma_turns(st, frames, options, peers, sched, times, m);
    assert(steps.take(m) =~= steps);
    let s = push_all(st, steps).0;
    assert(sched.take(m) =~= sched);
    if a.len() > 0 {
        let g = a[0];
        assert(a.contains(g));
        assert(is_active(sched, frames, options, m, g));
        assert(is_done(sched, frames, options, m, g)) by {
            lemma_got(sched, g);
            assert forall|p: int| 0 <= p < frame_datagrams(frames[g], options).len() implies #[trigger] got(
                sched.take(m),
                g,
            ).contains(p) by {
                assert(sched.contains((g, p)));
            }
        }
    }
    assert(s.entries =~= st.entries);
    assert(s.entries.skip(n0) =~= Seq::<(AssemblyKey, AssemblyModel)>::empty());
}

} // verus!
