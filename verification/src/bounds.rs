//! Laws of the reassembler's state: whatever it is pushed, pruned or configured
//! with, it never holds more identities, more identities of one sender, or more
//! bytes than its limits allow; and what a repeated or conflicting chunk does to it.
use vstd::prelude::*;

use crate::model::{PonkSenderCompatibility, PonkSenderKey};
use crate::reassembly::{
    AssemblerModel, AssemblyKey, AssemblyModel, fresh_entries, is_stale, key_index, lemma_key_index,
    lemma_oldest_index, lemma_room_for_bytes_ok, oldest_index, remove_at, remove_key, room_for_bytes,
    room_for_new, room_for_sender, room_global, sender_count, spec_prune, insert_new, insert_chunk,
    after_insert, store_chunk, accept_chunk, push_chunk, spec_push, key_of, repair_enabled,
    spec_set_compatibility, concat_chunks, sum_received,
};
use crate::error::PonkError;
use crate::assembly::{entry_wf, model_wf};
use crate::model::PeerAddr;
use crate::wire::{HeaderModel, spec_split_datagram};

verus! {

/// True when the reassembler holds no more in-flight identities, identities of any
/// one sender, or buffered bytes than its configuration allows.
pub open spec fn within_limits(st: AssemblerModel) -> bool {
    &&& st.entries.len() <= st.config.reassembly.max_assemblies
    &&& forall|sender: PonkSenderKey|
        #[trigger] sender_count(st.entries, sender) <= st.config.reassembly.max_assemblies_per_sender
    &&& st.buffered_bytes <= st.config.reassembly.max_buffered_bytes
}

/// True when every entry of `b` is an entry of `a`.
pub open spec fn entries_within(a: Seq<(AssemblyKey, AssemblyModel)>, b: Seq<(AssemblyKey, AssemblyModel)>) -> bool {
    forall|i: int| 0 <= i < b.len() ==> a.contains(#[trigger] b[i])
}

/// True when an identity has one slot per advertised chunk and every chunk it holds
/// fits the frame payload limit.
pub open spec fn entry_fits(e: (AssemblyKey, AssemblyModel), max: nat) -> bool {
    &&& e.1.chunks.len() == e.0.chunk_count
    &&& forall|j: int|
        0 <= j < e.1.chunks.len() && (#[trigger] e.1.chunks[j]) is Some ==> e.1.chunks[j]->Some_0.len() <= max
}

/// True when every identity has one slot per advertised chunk and every chunk the
/// reassembler holds fits its frame payload limit.
pub open spec fn chunks_fit(st: AssemblerModel) -> bool {
    forall|i: int| 0 <= i < st.entries.len() ==> entry_fits(
        #[trigger] st.entries[i],
        st.config.decoder.max_frame_payload_bytes as nat,
    )
}

/// True when `b` has the configuration of `a`, keeps only entries of `a`, and holds
/// no more identities, no more identities of any sender, and no more bytes.
pub open spec fn shrinks(a: AssemblerModel, b: AssemblerModel) -> bool {
    &&& b.config == a.config
    &&& entries_within(a.entries, b.entries)
    &&& b.repair_senders == a.repair_senders
    &&& b.entries.len() <= a.entries.len()
    &&& forall|sender: PonkSenderKey|
        #[trigger] sender_count(b.entries, sender) <= sender_count(a.entries, sender)
    &&& b.buffered_bytes <= a.buffered_bytes
}

proof fn lemma_shrinks_trans(a: AssemblerModel, b: AssemblerModel, c: AssemblerModel)
    requires
        shrinks(a, b),
        shrinks(b, c),
    ensures
        shrinks(a, c),
{
    assert forall|sender: PonkSenderKey| #[trigger] sender_count(c.entries, sender) <= sender_count(a.entries, sender) by {
        assert(sender_count(b.entries, sender) <= sender_count(a.entries, sender));
        assert(sender_count(c.entries, sender) <= sender_count(b.entries, sender));
    }
    assert forall|i: int| 0 <= i < c.entries.len() implies a.entries.contains(#[trigger] c.entries[i]) by {
        assert(b.entries.contains(c.entries[i]));
        let k = choose|k: int| 0 <= k < b.entries.len() && b.entries[k] == c.entries[i];
        assert(a.entries.contains(b.entries[k]));
    }
}

/// A state that keeps only entries of a state whose chunks fit, under the same
/// configuration, has chunks that fit.
proof fn lemma_fits_shrinks(a: AssemblerModel, b: AssemblerModel)
    requires
        chunks_fit(a),
        shrinks(a, b),
    ensures
        chunks_fit(b),
{
    assert forall|i: int| 0 <= i < b.entries.len() implies entry_fits(
        #[trigger] b.entries[i],
        b.config.decoder.max_frame_payload_bytes as nat,
    ) by {
        assert(a.entries.contains(b.entries[i]));
        let j = choose|j: int| 0 <= j < a.entries.len() && a.entries[j] == b.entries[i];
        assert(entry_fits(a.entries[j], a.config.decoder.max_frame_payload_bytes as nat));
    }
}

proof fn lemma_within_shrinks(a: AssemblerModel, b: AssemblerModel)
    requires
        within_limits(a),
        shrinks(a, b),
    ensures
        within_limits(b),
{
    assert forall|sender: PonkSenderKey| #[trigger] sender_count(b.entries, sender)
        <= b.config.reassembly.max_assemblies_per_sender by {
        assert(sender_count(b.entries, sender) <= sender_count(a.entries, sender));
        assert(sender_count(a.entries, sender) <= a.config.reassembly.max_assemblies_per_sender);
    }
}

/// Dropping the entry at `i` lowers the count of its sender by one and leaves the
/// others.
pub proof fn lemma_sender_count_remove(es: Seq<(AssemblyKey, AssemblyModel)>, i: int, sender: PonkSenderKey)
    requires
        0 <= i < es.len(),
    ensures
        sender_count(es.remove(i), sender) + (if es[i].0.sender == sender {
            1nat
        } else {
            0nat
        }) == sender_count(es, sender),
    decreases es.len(),
{
    if i == es.len() - 1 {
        assert(es.remove(i) =~= es.drop_last());
    } else {
        lemma_sender_count_remove(es.drop_last(), i, sender);
        assert(es.remove(i).drop_last() =~= es.drop_last().remove(i));
        assert(es.remove(i).last() == es.last());
    }
}

/// Replacing an entry by one with the same identity keeps every sender's count.
pub proof fn lemma_sender_count_update(
    es: Seq<(AssemblyKey, AssemblyModel)>,
    i: int,
    e: (AssemblyKey, AssemblyModel),
    sender: PonkSenderKey,
)
    requires
        0 <= i < es.len(),
        e.0 == es[i].0,
    ensures
        sender_count(es.update(i, e), sender) == sender_count(es, sender),
    decreases es.len(),
{
    if i == es.len() - 1 {
        assert(es.update(i, e).drop_last() =~= es.drop_last());
    } else {
        lemma_sender_count_update(es.drop_last(), i, e, sender);
        assert(es.update(i, e).drop_last() =~= es.drop_last().update(i, e));
    }
}

/// Appending an entry raises the count of its sender by one and leaves the others.
pub proof fn lemma_sender_count_push(es: Seq<(AssemblyKey, AssemblyModel)>, e: (AssemblyKey, AssemblyModel), sender: PonkSenderKey)
    ensures
        sender_count(es.push(e), sender) == sender_count(es, sender) + (if e.0.sender == sender {
            1nat
        } else {
            0nat
        }),
{
    assert(es.push(e).drop_last() =~= es);
}

proof fn lemma_fresh_len(es: Seq<(AssemblyKey, AssemblyModel)>, now: u128, timeout: u128)
    ensures
        fresh_entries(es, now, timeout).len() <= es.len(),
    decreases es.len(),
{
    if es.len() > 0 {
        lemma_fresh_len(es.drop_last(), now, timeout);
    }
}

pub proof fn lemma_fresh_within(es: Seq<(AssemblyKey, AssemblyModel)>, now: u128, timeout: u128)
    ensures
        entries_within(es, fresh_entries(es, now, timeout)),
    decreases es.len(),
{
    if es.len() > 0 {
        let init = es.drop_last();
        lemma_fresh_within(init, now, timeout);
        let f = fresh_entries(init, now, timeout);
        let g = fresh_entries(es, now, timeout);
        assert forall|i: int| 0 <= i < g.len() implies es.contains(#[trigger] g[i]) by {
            if i < f.len() {
                assert(g[i] == f[i]);
                assert(init.contains(f[i]));
                let j = choose|j: int| 0 <= j < init.len() && init[j] == f[i];
                assert(init[j] == es[j]);
                assert(g[i] == es[j]);
            } else {
                assert(g[i] == es[es.len() - 1]);
            }
        }
    }
}

proof fn lemma_fresh_counts(es: Seq<(AssemblyKey, AssemblyModel)>, now: u128, timeout: u128, sender: PonkSenderKey)
    ensures
        sender_count(fresh_entries(es, now, timeout), sender) <= sender_count(es, sender),
    decreases es.len(),
{
    if es.len() > 0 {
        lemma_fresh_counts(es.drop_last(), now, timeout, sender);
        if !is_stale(es.last().1, now, timeout) {
            lemma_sender_count_push(fresh_entries(es.drop_last(), now, timeout), es.last(), sender);
        }
    }
}

/// A reassembler that holds nothing is within its limits and its chunk bound.
pub proof fn lemma_empty_within_limits(st: AssemblerModel)
    requires
        st.entries.len() == 0,
        st.buffered_bytes == 0,
    ensures
        within_limits(st),
        chunks_fit(st),
{
}

/// Dropping one identity shrinks the state.
pub proof fn lemma_remove_at_shrinks(st: AssemblerModel, i: int)
    requires
        0 <= i < st.entries.len(),
    ensures
        shrinks(st, remove_at(st, i)),
{
    assert forall|sender: PonkSenderKey| #[trigger] sender_count(remove_at(st, i).entries, sender)
        <= sender_count(st.entries, sender) by {
        lemma_sender_count_remove(st.entries, i, sender);
    }
    let r = remove_at(st, i).entries;
    assert forall|k: int| 0 <= k < r.len() implies st.entries.contains(#[trigger] r[k]) by {
        if k < i {
            assert(r[k] == st.entries[k]);
        } else {
            assert(r[k] == st.entries[k + 1]);
        }
    }
}

/// Pruning shrinks the state.
pub proof fn lemma_prune_shrinks(st: AssemblerModel, now: u128)
    ensures
        shrinks(st, spec_prune(st, now)),
{
    assert forall|sender: PonkSenderKey| #[trigger] sender_count(spec_prune(st, now).entries, sender)
        <= sender_count(st.entries, sender) by {
        lemma_fresh_counts(st.entries, now, st.timeout_nanos, sender);
    }
    lemma_fresh_len(st.entries, now, st.timeout_nanos);
    lemma_fresh_within(st.entries, now, st.timeout_nanos);
}

/// Dropping an identity, if present, shrinks the state.
pub proof fn lemma_remove_key_shrinks(st: AssemblerModel, key: AssemblyKey)
    ensures
        shrinks(st, remove_key(st, key)),
{
    lemma_key_index(st.entries, key);
    if let Some(i) = key_index(st.entries, key) {
        lemma_remove_at_shrinks(st, i);
    }
}

/// Making room for a sender shrinks the state and, where it succeeds, leaves the
/// sender below the limit.
pub proof fn lemma_room_for_sender(st: AssemblerModel, sender: PonkSenderKey, max: nat)
    ensures
        shrinks(st, room_for_sender(st, sender, max).0),
        room_for_sender(st, sender, max).1 ==> sender_count(room_for_sender(st, sender, max).0.entries, sender) < max,
    decreases st.entries.len(),
{
    if sender_count(st.entries, sender) >= max {
        lemma_oldest_index(st.entries, Some(sender), None);
        if let Some(i) = oldest_index(st.entries, Some(sender), None) {
            let next = remove_at(st, i);
            lemma_remove_at_shrinks(st, i);
            lemma_room_for_sender(next, sender, max);
            lemma_shrinks_trans(st, next, room_for_sender(next, sender, max).0);
        }
    }
}

/// Making room globally shrinks the state and, where it succeeds, leaves fewer than
/// `max` identities.
pub proof fn lemma_room_global(st: AssemblerModel, max: nat)
    ensures
        shrinks(st, room_global(st, max).0),
        room_global(st, max).1 ==> room_global(st, max).0.entries.len() < max,
    decreases st.entries.len(),
{
    if st.entries.len() >= max {
        lemma_oldest_index(st.entries, None, None);
        if let Some(i) = oldest_index(st.entries, None, None) {
            let next = remove_at(st, i);
            lemma_remove_at_shrinks(st, i);
            lemma_room_global(next, max);
            lemma_shrinks_trans(st, next, room_global(next, max).0);
        }
    }
}

/// Making room for a new identity shrinks the state and, where it succeeds, leaves
/// room under the global and the sender's limit.
pub proof fn lemma_room_for_new(st: AssemblerModel, sender: PonkSenderKey)
    ensures
        shrinks(st, room_for_new(st, sender).0),
        room_for_new(st, sender).1 ==> room_for_new(st, sender).0.entries.len()
            < st.config.reassembly.max_assemblies && sender_count(room_for_new(st, sender).0.entries, sender)
            < st.config.reassembly.max_assemblies_per_sender,
{
    let limits = st.config.reassembly;
    if limits.max_assemblies != 0 && limits.max_assemblies_per_sender != 0 {
        let st1 = room_for_sender(st, sender, limits.max_assemblies_per_sender as nat).0;
        lemma_room_for_sender(st, sender, limits.max_assemblies_per_sender as nat);
        lemma_room_global(st1, limits.max_assemblies as nat);
        lemma_shrinks_trans(st, st1, room_global(st1, limits.max_assemblies as nat).0);
    }
}

/// Dropping an entry of another identity keeps an identity present.
proof fn lemma_remove_keeps_key(es: Seq<(AssemblyKey, AssemblyModel)>, i: int, key: AssemblyKey)
    requires
        0 <= i < es.len(),
        es[i].0 != key,
        key_index(es, key) is Some,
    ensures
        key_index(es.remove(i), key) is Some,
{
    lemma_key_index(es, key);
    let j = key_index(es, key)->Some_0;
    assert(j != i);
    let r = es.remove(i);
    let jj = if j < i {
        j
    } else {
        j - 1
    };
    assert(r[jj] == es[j]);
    assert(r[jj].0 == key);
    lemma_key_index(r, key);
}

/// Making room for bytes shrinks the state, and where it succeeds the bytes fit and
/// the protected identity, if present, stays.
pub proof fn lemma_room_for_bytes(st: AssemblerModel, additional: nat, protected: AssemblyKey)
    ensures
        shrinks(st, room_for_bytes(st, additional, protected).0),
        room_for_bytes(st, additional, protected).1 is Ok ==> room_for_bytes(st, additional, protected).0.buffered_bytes
            + additional <= st.config.reassembly.max_buffered_bytes,
        room_for_bytes(st, additional, protected).1 is Ok && key_index(st.entries, protected) is Some
            ==> key_index(room_for_bytes(st, additional, protected).0.entries, protected) is Some,
    decreases st.entries.len(),
{
    lemma_room_for_bytes_ok(st, additional, protected);
    if st.buffered_bytes + additional > st.config.reassembly.max_buffered_bytes {
        lemma_oldest_index(st.entries, None, Some(protected));
        match oldest_index(st.entries, None, Some(protected)) {
            None => {
                lemma_remove_key_shrinks(st, protected);
            },
            Some(i) => {
                let next = remove_at(st, i);
                lemma_remove_at_shrinks(st, i);
                lemma_room_for_bytes(next, additional, protected);
                lemma_shrinks_trans(st, next, room_for_bytes(next, additional, protected).0);
                if key_index(st.entries, protected) is Some {
                    lemma_remove_keeps_key(st.entries, i, protected);
                }
            },
        }
    }
}

/// Finishing or trying repair at an identity shrinks the state.
proof fn lemma_after_insert(st4: AssemblerModel, i: int, key: AssemblyKey)
    requires
        0 <= i < st4.entries.len(),
    ensures
        shrinks(st4, after_insert(st4, i, key).0),
{
    lemma_remove_at_shrinks(st4, i);
}

/// Creating an identity where there is room for it keeps the limits and the chunk
/// bound, and makes the identity present.
proof fn lemma_insert_new(st2: AssemblerModel, key: AssemblyKey, h: HeaderModel, now: u128)
    requires
        within_limits(st2),
        chunks_fit(st2),
        st2.entries.len() < st2.config.reassembly.max_assemblies,
        sender_count(st2.entries, key.sender) < st2.config.reassembly.max_assemblies_per_sender,
        key.chunk_count == h.chunk_count,
    ensures
        within_limits(insert_new(st2, key, h, now)),
        chunks_fit(insert_new(st2, key, h, now)),
        key_index(insert_new(st2, key, h, now).entries, key) is Some,
        insert_new(st2, key, h, now).config == st2.config,
{
    let st3 = insert_new(st2, key, h, now);
    let max_frame = st2.config.decoder.max_frame_payload_bytes as nat;
    assert forall|sender: PonkSenderKey| #[trigger] sender_count(st3.entries, sender)
        <= st3.config.reassembly.max_assemblies_per_sender by {
        lemma_sender_count_push(st2.entries, st3.entries.last(), sender);
        assert(st2.entries.push(st3.entries.last()) == st3.entries);
    }
    assert forall|k: int| 0 <= k < st3.entries.len() implies entry_fits(#[trigger] st3.entries[k], max_frame) by {
        if k < st2.entries.len() {
            assert(st3.entries[k] == st2.entries[k]);
        }
    }
    assert(st3.entries[st3.entries.len() - 1].0 == key);
    lemma_key_index(st3.entries, key);
}

/// Recording a chunk whose bytes fit keeps the limits and the chunk bound.
proof fn lemma_insert_chunk(st3: AssemblerModel, i: int, number: u8, payload: Seq<u8>, now: u128)
    requires
        0 <= i < st3.entries.len(),
        st3.entries.len() <= st3.config.reassembly.max_assemblies,
        forall|sender: PonkSenderKey|
            #[trigger] sender_count(st3.entries, sender) <= st3.config.reassembly.max_assemblies_per_sender,
        st3.buffered_bytes + payload.len() <= st3.config.reassembly.max_buffered_bytes,
        chunks_fit(st3),
        payload.len() <= st3.config.decoder.max_frame_payload_bytes,
        number < st3.entries[i].0.chunk_count,
    ensures
        within_limits(insert_chunk(st3, i, number, payload, now)),
        chunks_fit(insert_chunk(st3, i, number, payload, now)),
        insert_chunk(st3, i, number, payload, now).config == st3.config,
{
    let st4 = insert_chunk(st3, i, number, payload, now);
    let max_frame = st3.config.decoder.max_frame_payload_bytes as nat;
    assert forall|sender: PonkSenderKey| #[trigger] sender_count(st4.entries, sender)
        <= st4.config.reassembly.max_assemblies_per_sender by {
        lemma_sender_count_update(st3.entries, i, st4.entries[i], sender);
        assert(st3.entries.update(i, st4.entries[i]) == st4.entries);
    }
    assert forall|k: int| 0 <= k < st4.entries.len() implies entry_fits(#[trigger] st4.entries[k], max_frame) by {
        if k != i {
            assert(st4.entries[k] == st3.entries[k]);
        } else {
            assert(entry_fits(st3.entries[i], max_frame));
            assert(st4.entries[i].0 == st3.entries[i].0);
            assert forall|j: int|
                0 <= j < st4.entries[i].1.chunks.len() && (#[trigger] st4.entries[i].1.chunks[j]) is Some implies st4.entries[i].1.chunks[j]->Some_0.len()
                <= max_frame by {
                if j != number {
                    assert(st4.entries[i].1.chunks[j] == st3.entries[i].1.chunks[j]);
                }
            }
        }
    }
}

/// Storing a chunk whose bytes fit the frame limit keeps a state within its limits
/// and its chunk bound, given room for a new identity where the identity is not
/// present.
proof fn lemma_store_chunk(st1: AssemblerModel, key: AssemblyKey, h: HeaderModel, payload: Seq<u8>, now: u128)
    requires
        within_limits(st1),
        chunks_fit(st1),
        payload.len() <= st1.config.decoder.max_frame_payload_bytes,
        key.chunk_count == h.chunk_count,
        h.chunk_number < h.chunk_count,
        key_index(st1.entries, key) is Some || (st1.entries.len() < st1.config.reassembly.max_assemblies
            && sender_count(st1.entries, key.sender) < st1.config.reassembly.max_assemblies_per_sender),
    ensures
        within_limits(store_chunk(st1, key, h, payload, now).0),
        chunks_fit(store_chunk(st1, key, h, payload, now).0),
        store_chunk(st1, key, h, payload, now).0.config == st1.config,
{
    let (st2, room) = room_for_bytes(st1, payload.len(), key);
    lemma_room_for_bytes(st1, payload.len(), key);
    lemma_within_shrinks(st1, st2);
    lemma_fits_shrinks(st1, st2);
    if room is Ok {
        let st3 = if key_index(st2.entries, key) is None {
            insert_new(st2, key, h, now)
        } else {
            st2
        };
        if key_index(st2.entries, key) is None {
            assert(sender_count(st2.entries, key.sender) <= sender_count(st1.entries, key.sender));
            lemma_insert_new(st2, key, h, now);
        }
        let i = key_index(st3.entries, key)->Some_0;
        lemma_key_index(st3.entries, key);
        lemma_insert_chunk(st3, i, h.chunk_number, payload, now);
        let st4 = insert_chunk(st3, i, h.chunk_number, payload, now);
        lemma_after_insert(st4, i, key);
        lemma_within_shrinks(st4, after_insert(st4, i, key).0);
        lemma_fits_shrinks(st4, after_insert(st4, i, key).0);
    }
}

/// Accepting a chunk keeps a state within its limits.
proof fn lemma_accept_chunk(st: AssemblerModel, key: AssemblyKey, h: HeaderModel, payload: Seq<u8>, now: u128)
    requires
        within_limits(st),
        chunks_fit(st),
        key.chunk_count == h.chunk_count,
        h.chunk_number < h.chunk_count,
    ensures
        within_limits(accept_chunk(st, key, h, payload, now).0),
        chunks_fit(accept_chunk(st, key, h, payload, now).0),
        accept_chunk(st, key, h, payload, now).0.config == st.config,
{
    lemma_remove_key_shrinks(st, key);
    lemma_within_shrinks(st, remove_key(st, key));
    lemma_fits_shrinks(st, remove_key(st, key));
    if key_index(st.entries, key) is None {
        lemma_room_for_new(st, key.sender);
        let st1 = room_for_new(st, key.sender).0;
        lemma_within_shrinks(st, st1);
        lemma_fits_shrinks(st, st1);
        if payload.len() <= st.config.decoder.max_frame_payload_bytes && room_for_new(st, key.sender).1 {
            lemma_store_chunk(st1, key, h, payload, now);
        }
    } else {
        lemma_key_index(st.entries, key);
        if st.entries[key_index(st.entries, key)->Some_0].1.received_bytes + payload.len()
            <= st.config.decoder.max_frame_payload_bytes {
            lemma_store_chunk(st, key, h, payload, now);
        }
    }
}

/// Handling a chunk of a multipart frame keeps a state within its limits.
proof fn lemma_push_chunk(st: AssemblerModel, key: AssemblyKey, h: HeaderModel, payload: Seq<u8>, now: u128)
    requires
        within_limits(st),
        chunks_fit(st),
        key.chunk_count == h.chunk_count,
        h.chunk_number < h.chunk_count,
    ensures
        within_limits(push_chunk(st, key, h, payload, now).0),
        chunks_fit(push_chunk(st, key, h, payload, now).0),
        push_chunk(st, key, h, payload, now).0.config == st.config,
{
    lemma_key_index(st.entries, key);
    lemma_accept_chunk(st, key, h, payload, now);
    if let Some(i) = key_index(st.entries, key) {
        lemma_remove_at_shrinks(st, i);
        lemma_within_shrinks(st, remove_at(st, i));
        lemma_fits_shrinks(st, remove_at(st, i));
    }
}

/// Whatever datagram is pushed, from whatever peer and at whatever clock reading, a
/// reassembler within its limits stays within them: it never holds more in-flight
/// identities than `max_assemblies`, more identities of one sender than
/// `max_assemblies_per_sender`, or more buffered bytes than `max_buffered_bytes`.
/// Every chunk it holds stays within the frame payload limit, and its configuration
/// does not change.
pub proof fn lemma_push_within_limits(st: AssemblerModel, d: Seq<u8>, peer: PeerAddr, now: u128)
    requires
        within_limits(st),
        chunks_fit(st),
    ensures
        within_limits(spec_push(st, d, peer, now).0),
        chunks_fit(spec_push(st, d, peer, now).0),
        spec_push(st, d, peer, now).0.config == st.config,
{
    let st0 = spec_prune(st, now);
    lemma_prune_shrinks(st, now);
    lemma_within_shrinks(st, st0);
    lemma_fits_shrinks(st, st0);
    if let Ok(Some(h)) = spec_split_datagram(d) {
        lemma_push_chunk(st0, key_of(peer, h), h, d.subrange(52, d.len() as int), now);
    }
}

/// Pushing again a chunk that an in-flight identity already holds, byte for byte,
/// reports nothing and changes nothing beyond dropping stale identities: the
/// identity's progress and timeout are not refreshed. It holds for senders without
/// canonical boundary repair, in a reassembler whose held chunks fit its limits.
pub proof fn lemma_duplicate_is_noop(st: AssemblerModel, d: Seq<u8>, peer: PeerAddr, now: u128, h: HeaderModel)
    requires
        chunks_fit(st),
        spec_split_datagram(d) == Ok::<Option<HeaderModel>, PonkError>(Some(h)),
        h.chunk_count != 1,
        key_index(spec_prune(st, now).entries, key_of(peer, h)) is Some,
        spec_prune(st, now).entries[key_index(spec_prune(st, now).entries, key_of(peer, h))->Some_0].1.header.sender_name_bytes
            == h.sender_name_bytes,
        spec_prune(st, now).entries[key_index(spec_prune(st, now).entries, key_of(peer, h))->Some_0].1.chunks[h.chunk_number as int]
            == Some(d.subrange(52, d.len() as int)),
        !repair_enabled(st, key_of(peer, h).sender),
    ensures
        spec_push(st, d, peer, now) == (spec_prune(st, now), Ok::<Option<(crate::model::WireFrameModel, crate::model::PonkCompletion)>, PonkError>(None)),
{
    let st0 = spec_prune(st, now);
    let key = key_of(peer, h);
    lemma_prune_shrinks(st, now);
    lemma_fits_shrinks(st, st0);
    lemma_key_index(st0.entries, key);
    let i = key_index(st0.entries, key)->Some_0;
    assert(entry_fits(st0.entries[i], st.config.decoder.max_frame_payload_bytes as nat));
    assert(st0.entries[i].1.chunks.len() == h.chunk_count);
}

/// A chunk that differs from the one an in-flight identity already holds at its
/// position drops that identity, and no other, and reports `ConflictingChunk`. It
/// holds for chunks within the frame payload limit, other than an empty chunk under
/// a zero byte budget, which is ignored.
pub proof fn lemma_conflict_drops_identity(st: AssemblerModel, d: Seq<u8>, peer: PeerAddr, now: u128, h: HeaderModel)
    requires
        spec_split_datagram(d) == Ok::<Option<HeaderModel>, PonkError>(Some(h)),
        h.chunk_count != 1,
        d.len() - 52 <= st.config.decoder.max_frame_payload_bytes,
        !(st.config.reassembly.max_buffered_bytes == 0 && d.len() == 52),
        key_index(spec_prune(st, now).entries, key_of(peer, h)) is Some,
        spec_prune(st, now).entries[key_index(spec_prune(st, now).entries, key_of(peer, h))->Some_0].1.header.sender_name_bytes
            == h.sender_name_bytes,
        spec_prune(st, now).entries[key_index(spec_prune(st, now).entries, key_of(peer, h))->Some_0].1.chunks[h.chunk_number as int]
            is Some,
        spec_prune(st, now).entries[key_index(spec_prune(st, now).entries, key_of(peer, h))->Some_0].1.chunks[h.chunk_number as int]
            != Some(d.subrange(52, d.len() as int)),
    ensures
        spec_push(st, d, peer, now) == (
            remove_at(spec_prune(st, now), key_index(spec_prune(st, now).entries, key_of(peer, h))->Some_0),
            Err::<Option<(crate::model::WireFrameModel, crate::model::PonkCompletion)>, PonkError>(PonkError::ConflictingChunk),
        ),
{
}

/// A chunk whose sender name differs from the one its in-flight identity started
/// with drops that identity, and no other, and reports `InconsistentSenderName`. It
/// holds for chunks within the frame payload limit, other than an empty chunk under
/// a zero byte budget, which is ignored.
pub proof fn lemma_name_change_drops_identity(st: AssemblerModel, d: Seq<u8>, peer: PeerAddr, now: u128, h: HeaderModel)
    requires
        spec_split_datagram(d) == Ok::<Option<HeaderModel>, PonkError>(Some(h)),
        h.chunk_count != 1,
        d.len() - 52 <= st.config.decoder.max_frame_payload_bytes,
        !(st.config.reassembly.max_buffered_bytes == 0 && d.len() == 52),
        key_index(spec_prune(st, now).entries, key_of(peer, h)) is Some,
        spec_prune(st, now).entries[key_index(spec_prune(st, now).entries, key_of(peer, h))->Some_0].1.header.sender_name_bytes
            != h.sender_name_bytes,
    ensures
        spec_push(st, d, peer, now) == (
            remove_at(spec_prune(st, now), key_index(spec_prune(st, now).entries, key_of(peer, h))->Some_0),
            Err::<Option<(crate::model::WireFrameModel, crate::model::PonkCompletion)>, PonkError>(PonkError::InconsistentSenderName),
        ),
{
}

/// Pushing again a chunk that an in-flight identity already holds, into a state
/// where nothing is stale, changes nothing and reports nothing. It holds for senders
/// without canonical boundary repair, in a reassembler whose held chunks fit its
/// limits.
pub proof fn lemma_duplicate_changes_nothing(st: AssemblerModel, d: Seq<u8>, peer: PeerAddr, now: u128, h: HeaderModel)
    requires
        chunks_fit(st),
        spec_prune(st, now) == st,
        spec_split_datagram(d) == Ok::<Option<HeaderModel>, PonkError>(Some(h)),
        h.chunk_count != 1,
        key_index(st.entries, key_of(peer, h)) is Some,
        st.entries[key_index(st.entries, key_of(peer, h))->Some_0].1.header.sender_name_bytes == h.sender_name_bytes,
        st.entries[key_index(st.entries, key_of(peer, h))->Some_0].1.chunks[h.chunk_number as int] == Some(
            d.subrange(52, d.len() as int),
        ),
        !repair_enabled(st, key_of(peer, h).sender),
    ensures
        spec_push(st, d, peer, now) == (st, Ok::<Option<(crate::model::WireFrameModel, crate::model::PonkCompletion)>, PonkError>(None)),
{
    lemma_duplicate_is_noop(st, d, peer, now, h);
}

/// A reassembler whose byte limit is zero never holds an identity: from a state
/// that holds none, any push leaves it holding none.
pub proof fn lemma_zero_byte_limit_keeps_empty(st: AssemblerModel, d: Seq<u8>, peer: PeerAddr, now: u128)
    requires
        st.entries.len() == 0,
        st.config.reassembly.max_buffered_bytes == 0,
    ensures
        spec_push(st, d, peer, now).0.entries.len() == 0,
{
    let st0 = spec_prune(st, now);
    lemma_prune_shrinks(st, now);
    assert(st0.entries.len() == 0);
    if let Ok(Some(h)) = spec_split_datagram(d) {
        let key = key_of(peer, h);
        lemma_key_index(st0.entries, key);
        lemma_remove_key_shrinks(st0, key);
    }
}

/// One call that changes a reassembler: a datagram pushed from a peer at a clock
/// reading, a prune at a clock reading, or a sender's compatibility mode set.
pub enum AssemblerStep {
    Push { datagram: Seq<u8>, peer: PeerAddr, now: u128 },
    Prune { now: u128 },
    Compatibility { sender: PonkSenderKey, mode: PonkSenderCompatibility },
}

/// The state after one step, as `push_wire_datagram_at`, `prune_stale_at` and
/// `set_sender_compatibility` leave it.
pub open spec fn apply_step(st: AssemblerModel, s: AssemblerStep) -> AssemblerModel {
    match s {
        AssemblerStep::Push { datagram, peer, now } => spec_push(st, datagram, peer, now).0,
        AssemblerStep::Prune { now } => spec_prune(st, now),
        AssemblerStep::Compatibility { sender, mode } => spec_set_compatibility(st, sender, mode),
    }
}

/// The state after a sequence of steps, taken first to last.
pub open spec fn run_steps(st: AssemblerModel, steps: Seq<AssemblerStep>) -> AssemblerModel
    decreases steps.len(),
{
    if steps.len() == 0 {
        st
    } else {
        apply_step(run_steps(st, steps.drop_last()), steps.last())
    }
}

/// The limits a reassembler keeps: within its identity, per-sender and byte limits,
/// every held chunk within the frame payload limit, and nothing held at all under a
/// zero byte limit.
pub open spec fn keeps_limits(st: AssemblerModel) -> bool {
    &&& within_limits(st)
    &&& chunks_fit(st)
    &&& (st.config.reassembly.max_buffered_bytes == 0 ==> st.entries.len() == 0)
}

/// Each step keeps the limits and the configuration.
pub proof fn lemma_step_keeps_limits(st: AssemblerModel, s: AssemblerStep)
    requires
        keeps_limits(st),
    ensures
        keeps_limits(apply_step(st, s)),
        apply_step(st, s).config == st.config,
{
    match s {
        AssemblerStep::Push { datagram, peer, now } => {
            lemma_push_within_limits(st, datagram, peer, now);
            if st.config.reassembly.max_buffered_bytes == 0 {
                lemma_zero_byte_limit_keeps_empty(st, datagram, peer, now);
            }
        },
        AssemblerStep::Prune { now } => {
            lemma_prune_shrinks(st, now);
            lemma_within_shrinks(st, spec_prune(st, now));
            lemma_fits_shrinks(st, spec_prune(st, now));
        },
        AssemblerStep::Compatibility { sender, mode } => {
            let next = spec_set_compatibility(st, sender, mode);
            assert(next.entries == st.entries);
        },
    }
}

/// Whatever sequence of pushes, prunes and compatibility changes a reassembler that
/// starts empty goes through, it never holds more in-flight identities than
/// `max_assemblies`, more identities of one sender than `max_assemblies_per_sender`,
/// or more buffered bytes than `max_buffered_bytes`; every chunk it holds fits the
/// frame payload limit; and with a zero byte limit it holds no identity at all.
pub proof fn lemma_limits_hold_for_every_run(st: AssemblerModel, steps: Seq<AssemblerStep>)
    requires
        st.entries.len() == 0,
        st.buffered_bytes == 0,
    ensures
        within_limits(run_steps(st, steps)),
        chunks_fit(run_steps(st, steps)),
        st.config.reassembly.max_buffered_bytes == 0 ==> run_steps(st, steps).entries.len() == 0,
        run_steps(st, steps).config == st.config,
    decreases steps.len(),
{
    if steps.len() == 0 {
        lemma_empty_within_limits(st);
    } else {
        lemma_limits_hold_for_every_run(st, steps.drop_last());
        lemma_step_keeps_limits(run_steps(st, steps.drop_last()), steps.last());
    }
}


/// The total length of the chunks the entries hold.
pub open spec fn held_bytes(es: Seq<(AssemblyKey, AssemblyModel)>) -> nat
    decreases es.len(),
{
    if es.len() == 0 {
        0
    } else {
        held_bytes(es.drop_last()) + concat_chunks(es.last().1.chunks).len()
    }
}

proof fn lemma_received_is_held(es: Seq<(AssemblyKey, AssemblyModel)>)
    requires
        forall|i: int| 0 <= i < es.len() ==> entry_wf(#[trigger] es[i]),
    ensures
        sum_received(es) == held_bytes(es),
    decreases es.len(),
{
    if es.len() > 0 {
        let init = es.drop_last();
        assert forall|i: int| 0 <= i < init.len() implies entry_wf(#[trigger] init[i]) by {
            assert(init[i] == es[i]);
        }
        lemma_received_is_held(init);
        assert(entry_wf(es[es.len() - 1]));
    }
}

/// In a well-formed reassembler the buffered byte count is exactly the total length
/// of the chunks its identities hold.
pub proof fn lemma_buffered_is_held(st: AssemblerModel)
    requires
        model_wf(st),
    ensures
        st.buffered_bytes == held_bytes(st.entries),
{
    lemma_received_is_held(st.entries);
}


proof fn lemma_fresh_exact(es: Seq<(AssemblyKey, AssemblyModel)>, now: u128, timeout: u128)
    ensures
        forall|i: int|
            0 <= i < es.len() && !is_stale(es[i].1, now, timeout) ==> #[trigger] fresh_entries(es, now, timeout).contains(
                es[i],
            ),
        forall|j: int|
            0 <= j < fresh_entries(es, now, timeout).len() ==> !is_stale(
                (#[trigger] fresh_entries(es, now, timeout)[j]).1,
                now,
                timeout,
            ) && es.contains(fresh_entries(es, now, timeout)[j]),
    decreases es.len(),
{
    if es.len() > 0 {
        let init = es.drop_last();
        let fi = fresh_entries(init, now, timeout);
        lemma_fresh_exact(init, now, timeout);
        let fr = fresh_entries(es, now, timeout);
        assert forall|i: int| 0 <= i < es.len() && !is_stale(es[i].1, now, timeout) implies #[trigger] fr.contains(es[i]) by {
            if i < es.len() - 1 {
                assert(init[i] == es[i]);
                assert(fi.contains(init[i]));
                let t = choose|t: int| 0 <= t < fi.len() && fi[t] == init[i];
                assert(fr[t] == es[i]);
            } else {
                assert(fr[fr.len() - 1] == es[i]);
            }
        }
        assert forall|j: int| 0 <= j < fr.len() implies !is_stale((#[trigger] fr[j]).1, now, timeout) && es.contains(fr[j]) by {
            if j < fi.len() {
                assert(fr[j] == fi[j]);
                assert(init.contains(fi[j]));
                let t = choose|t: int| 0 <= t < init.len() && init[t] == fi[j];
                assert(es[t] == fi[j]);
            } else {
                assert(fr[j] == es[es.len() - 1]);
            }
        }
    }
}

/// Pruning at clock reading `now` drops exactly the stale identities: every identity
/// whose last progress is no more than the timeout before `now` is kept, and every
/// identity kept was held before and is not stale at `now`.
pub proof fn lemma_prune_keeps_exactly_fresh(st: AssemblerModel, now: u128)
    ensures
        forall|i: int|
            0 <= i < st.entries.len() && now <= st.entries[i].1.updated_at + st.timeout_nanos
                ==> #[trigger] spec_prune(st, now).entries.contains(st.entries[i]),
        forall|j: int|
            0 <= j < spec_prune(st, now).entries.len() ==> now <= (
            #[trigger] spec_prune(st, now).entries[j]).1.updated_at + st.timeout_nanos && st.entries.contains(
                spec_prune(st, now).entries[j],
            ),
{
    lemma_fresh_exact(st.entries, now, st.timeout_nanos);
    assert forall|i: int|
        0 <= i < st.entries.len() && now <= st.entries[i].1.updated_at + st.timeout_nanos
            implies #[trigger] spec_prune(st, now).entries.contains(st.entries[i]) by {
        assert(!is_stale(st.entries[i].1, now, st.timeout_nanos));
    }
    assert forall|j: int| 0 <= j < spec_prune(st, now).entries.len() implies now <= (
        #[trigger] spec_prune(st, now).entries[j]).1.updated_at + st.timeout_nanos && st.entries.contains(
            spec_prune(st, now).entries[j],
        ) by {
        assert(!is_stale(fresh_entries(st.entries, now, st.timeout_nanos)[j].1, now, st.timeout_nanos));
    }
}

} // verus!
