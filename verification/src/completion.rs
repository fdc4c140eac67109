//! Laws of how a pushed datagram completes a frame: strictly, from every advertised
//! chunk, or by the opt-in canonical boundary repair; and that completion releases
//! the frame's identity.
use vstd::prelude::*;

use crate::bounds::{
    lemma_fresh_within, lemma_prune_shrinks, lemma_room_for_bytes,
    lemma_room_for_new,
};
use crate::error::PonkError;
use crate::model::{PeerAddr, PonkDecoderLimits, PonkSenderKey, WireFrameModel};
use crate::reassembly::{
    AssemblerModel, AssemblyKey, AssemblyModel, PushOutcome, accept_chunk, after_insert,
    canonical_payload, finish_strict, fresh_entries, insert_chunk, insert_new, is_stale,
    key_index, key_of, lemma_key_index, lemma_oldest_index, oldest_index, push_chunk, remove_at,
    room_for_sender, room_global,
    repair_enabled, room_for_bytes, room_for_new, spec_prune, spec_push, store_chunk,
    try_canonical, remove_key,
};
use crate::framing::push_all;
use crate::wire::{HeaderModel, header_fields, spec_decode_payload_checked, spec_split_datagram};

verus! {

/// True when `f` is what canonical boundary repair recovers from an identity: the
/// decoding, under the identity's header, of the chunks that fill every advertised
/// slot but the last, each exactly 1,420 bytes long.
pub open spec fn repaired_from(a: AssemblyModel, f: WireFrameModel, decoder: PonkDecoderLimits) -> bool {
    &&& canonical_payload(a) is Some
    &&& spec_decode_payload_checked(a.header, canonical_payload(a)->Some_0, decoder) == Ok::<
        Option<WireFrameModel>,
        PonkError,
    >(Some(f))
}

/// True when an outcome reports a frame completed by canonical boundary repair.
pub open spec fn is_repair(out: PushOutcome) -> bool {
    out matches Ok(Some((_, c))) && c is CanonicalExactBoundaryRepair
}

proof fn lemma_try_canonical(st: AssemblerModel, i: int, decoder: PonkDecoderLimits)
    ensures
        try_canonical(st, i, decoder).1 matches Ok(Some((f, c))) ==> c is CanonicalExactBoundaryRepair
            && repaired_from(st.entries[i].1, f, decoder),
{
}

proof fn lemma_finish_strict(st: AssemblerModel, i: int, decoder: PonkDecoderLimits)
    ensures
        !is_repair(finish_strict(st, i, decoder).1),
{
}

proof fn lemma_after_insert(st4: AssemblerModel, i: int, key: AssemblyKey)
    ensures
        is_repair(after_insert(st4, i, key).1) ==> repair_enabled(st4, key.sender) && exists|a: AssemblyModel|
            repaired_from(a, after_insert(st4, i, key).1->Ok_0->Some_0.0, st4.config.decoder),
{
    lemma_finish_strict(st4, i, st4.config.decoder);
    lemma_try_canonical(st4, i, st4.config.decoder);
    if is_repair(after_insert(st4, i, key).1) {
        let a = st4.entries[i].1;
        assert(repaired_from(a, after_insert(st4, i, key).1->Ok_0->Some_0.0, st4.config.decoder));
    }
}

proof fn lemma_store_chunk(st1: AssemblerModel, key: AssemblyKey, h: HeaderModel, payload: Seq<u8>, now: u128)
    ensures
        is_repair(store_chunk(st1, key, h, payload, now).1) ==> repair_enabled(st1, key.sender) && exists|
            a: AssemblyModel,
        | repaired_from(a, store_chunk(st1, key, h, payload, now).1->Ok_0->Some_0.0, st1.config.decoder),
{
    let (st2, room) = room_for_bytes(st1, payload.len(), key);
    lemma_room_for_bytes(st1, payload.len(), key);
    if room is Ok {
        let st3 = if key_index(st2.entries, key) is None {
            insert_new(st2, key, h, now)
        } else {
            st2
        };
        let i = key_index(st3.entries, key)->Some_0;
        let st4 = insert_chunk(st3, i, h.chunk_number, payload, now);
        lemma_after_insert(st4, i, key);
    }
}

proof fn lemma_accept_chunk(st: AssemblerModel, key: AssemblyKey, h: HeaderModel, payload: Seq<u8>, now: u128)
    ensures
        is_repair(accept_chunk(st, key, h, payload, now).1) ==> repair_enabled(st, key.sender) && exists|
            a: AssemblyModel,
        | repaired_from(a, accept_chunk(st, key, h, payload, now).1->Ok_0->Some_0.0, st.config.decoder),
{
    lemma_room_for_new(st, key.sender);
    let st1 = room_for_new(st, key.sender).0;
    lemma_store_chunk(st1, key, h, payload, now);
    lemma_store_chunk(st, key, h, payload, now);
}

proof fn lemma_push_chunk(st: AssemblerModel, key: AssemblyKey, h: HeaderModel, payload: Seq<u8>, now: u128)
    ensures
        is_repair(push_chunk(st, key, h, payload, now).1) ==> repair_enabled(st, key.sender) && exists|
            a: AssemblyModel,
        | repaired_from(a, push_chunk(st, key, h, payload, now).1->Ok_0->Some_0.0, st.config.decoder),
{
    match key_index(st.entries, key) {
        None => {
            lemma_accept_chunk(st, key, h, payload, now);
        },
        Some(i) => {
            let a = st.entries[i].1;
            let n = h.chunk_number as int;
            if a.header.sender_name_bytes == h.sender_name_bytes {
                if a.chunks[n] is Some {
                    if a.chunks[n]->Some_0 == payload && repair_enabled(st, key.sender) {
                        lemma_try_canonical(st, i, st.config.decoder);
                        assert(push_chunk(st, key, h, payload, now) == try_canonical(st, i, st.config.decoder));
                        if is_repair(push_chunk(st, key, h, payload, now).1) {
                            assert(repaired_from(a, push_chunk(st, key, h, payload, now).1->Ok_0->Some_0.0, st.config.decoder));
                        }
                    }
                } else {
                    lemma_accept_chunk(st, key, h, payload, now);
                    assert(push_chunk(st, key, h, payload, now) == accept_chunk(st, key, h, payload, now));
                }
            }
        },
    }
}

/// A pushed datagram completes a frame by canonical boundary repair only where the
/// datagram's sender, at its peer, has repair enabled, and the frame is the decoding,
/// under its identity's header and the decoder limits, of chunks of exactly 1,420
/// bytes that fill every advertised slot but the last. Every other completion is
/// strict.
pub proof fn lemma_repair_only_when_enabled(st: AssemblerModel, d: Seq<u8>, peer: PeerAddr, now: u128)
    requires
        is_repair(spec_push(st, d, peer, now).1),
    ensures
        repair_enabled(st, PonkSenderKey { peer, sender_id: header_fields(d).sender_id }),
        exists|a: AssemblyModel|
            repaired_from(a, spec_push(st, d, peer, now).1->Ok_0->Some_0.0, st.config.decoder),
{
    let st0 = spec_prune(st, now);
    lemma_prune_shrinks(st, now);
    if let Ok(Some(h)) = spec_split_datagram(d) {
        lemma_push_chunk(st0, key_of(peer, h), h, d.subrange(52, d.len() as int), now);
    }
}

/// True when no two in-flight identities are the same.
pub open spec fn keys_unique(es: Seq<(AssemblyKey, AssemblyModel)>) -> bool {
    forall|i: int, j: int| 0 <= i < j < es.len() ==> (#[trigger] es[i]).0 != (#[trigger] es[j]).0
}

proof fn lemma_unique_remove(es: Seq<(AssemblyKey, AssemblyModel)>, i: int)
    requires
        keys_unique(es),
        0 <= i < es.len(),
    ensures
        keys_unique(es.remove(i)),
        forall|k: int| 0 <= k < es.remove(i).len() ==> (#[trigger] es.remove(i)[k]).0 != es[i].0,
{
    let r = es.remove(i);
    assert forall|a: int, b: int| 0 <= a < b < r.len() implies (#[trigger] r[a]).0 != (#[trigger] r[b]).0 by {
        let a1 = if a < i { a } else { a + 1 };
        let b1 = if b < i { b } else { b + 1 };
        assert(r[a] == es[a1] && r[b] == es[b1]);
    }
    assert forall|k: int| 0 <= k < r.len() implies (#[trigger] r[k]).0 != es[i].0 by {
        let k1 = if k < i { k } else { k + 1 };
        assert(r[k] == es[k1]);
    }
}

proof fn lemma_unique_fresh(es: Seq<(AssemblyKey, AssemblyModel)>, now: u128, timeout: u128)
    requires
        keys_unique(es),
    ensures
        keys_unique(fresh_entries(es, now, timeout)),
    decreases es.len(),
{
    if es.len() > 0 {
        let init = es.drop_last();
        assert(keys_unique(init)) by {
            assert forall|a: int, b: int| 0 <= a < b < init.len() implies (#[trigger] init[a]).0 != (
            #[trigger] init[b]).0 by {
                assert(init[a] == es[a] && init[b] == es[b]);
            }
        }
        lemma_unique_fresh(init, now, timeout);
        lemma_fresh_within(init, now, timeout);
        let f = fresh_entries(init, now, timeout);
        if !is_stale(es.last().1, now, timeout) {
            let g = f.push(es.last());
            assert forall|a: int, b: int| 0 <= a < b < g.len() implies (#[trigger] g[a]).0 != (#[trigger] g[b]).0 by {
                if b == g.len() - 1 {
                    assert(g[a] == f[a]);
                    assert(init.contains(f[a]));
                    let t = choose|t: int| 0 <= t < init.len() && init[t] == f[a];
                    assert(init[t] == es[t]);
                    assert(es[t].0 != es[es.len() - 1].0);
                } else {
                    assert(g[a] == f[a] && g[b] == f[b]);
                }
            }
        }
    }
}

proof fn lemma_unique_room_for_sender(st: AssemblerModel, sender: PonkSenderKey, max: nat)
    requires
        keys_unique(st.entries),
    ensures
        keys_unique(room_for_sender(st, sender, max).0.entries),
    decreases st.entries.len(),
{
    lemma_oldest_index(st.entries, Some(sender), None);
    if let Some(i) = oldest_index(st.entries, Some(sender), None) {
        lemma_unique_remove(st.entries, i);
        lemma_unique_room_for_sender(remove_at(st, i), sender, max);
    }
}

proof fn lemma_unique_room_global(st: AssemblerModel, max: nat)
    requires
        keys_unique(st.entries),
    ensures
        keys_unique(room_global(st, max).0.entries),
    decreases st.entries.len(),
{
    lemma_oldest_index(st.entries, None, None);
    if let Some(i) = oldest_index(st.entries, None, None) {
        lemma_unique_remove(st.entries, i);
        lemma_unique_room_global(remove_at(st, i), max);
    }
}

proof fn lemma_unique_remove_key(st: AssemblerModel, key: AssemblyKey)
    requires
        keys_unique(st.entries),
    ensures
        keys_unique(remove_key(st, key).entries),
{
    lemma_key_index(st.entries, key);
    if let Some(i) = key_index(st.entries, key) {
        lemma_unique_remove(st.entries, i);
    }
}

proof fn lemma_unique_room_for_bytes(st: AssemblerModel, additional: nat, protected: AssemblyKey)
    requires
        keys_unique(st.entries),
    ensures
        keys_unique(room_for_bytes(st, additional, protected).0.entries),
    decreases st.entries.len(),
{
    lemma_oldest_index(st.entries, None, Some(protected));
    lemma_unique_remove_key(st, protected);
    if let Some(i) = oldest_index(st.entries, None, Some(protected)) {
        lemma_unique_remove(st.entries, i);
        lemma_unique_room_for_bytes(remove_at(st, i), additional, protected);
    }
}

proof fn lemma_unique_room_for_new(st: AssemblerModel, sender: PonkSenderKey)
    requires
        keys_unique(st.entries),
    ensures
        keys_unique(room_for_new(st, sender).0.entries),
{
    let limits = st.config.reassembly;
    lemma_unique_room_for_sender(st, sender, limits.max_assemblies_per_sender as nat);
    let st1 = room_for_sender(st, sender, limits.max_assemblies_per_sender as nat).0;
    lemma_unique_room_global(st1, limits.max_assemblies as nat);
}

/// True when no in-flight identity is `key`.
pub open spec fn key_absent(es: Seq<(AssemblyKey, AssemblyModel)>, key: AssemblyKey) -> bool {
    forall|k: int| 0 <= k < es.len() ==> (#[trigger] es[k]).0 != key
}

proof fn lemma_unique_after_insert(st4: AssemblerModel, i: int, key: AssemblyKey)
    requires
        keys_unique(st4.entries),
        0 <= i < st4.entries.len(),
        st4.entries[i].0 == key,
    ensures
        keys_unique(after_insert(st4, i, key).0.entries),
        after_insert(st4, i, key).1 matches Ok(Some(_)) ==> key_absent(after_insert(st4, i, key).0.entries, key),
{
    lemma_unique_remove(st4.entries, i);
}

proof fn lemma_unique_store_chunk(st1: AssemblerModel, key: AssemblyKey, h: HeaderModel, payload: Seq<u8>, now: u128)
    requires
        keys_unique(st1.entries),
    ensures
        keys_unique(store_chunk(st1, key, h, payload, now).0.entries),
        store_chunk(st1, key, h, payload, now).1 matches Ok(Some(_)) ==> key_absent(
            store_chunk(st1, key, h, payload, now).0.entries,
            key,
        ),
{
    let (st2, room) = room_for_bytes(st1, payload.len(), key);
    lemma_unique_room_for_bytes(st1, payload.len(), key);
    if room is Ok {
        lemma_key_index(st2.entries, key);
        let st3 = if key_index(st2.entries, key) is None {
            insert_new(st2, key, h, now)
        } else {
            st2
        };
        if key_index(st2.entries, key) is None {
            let es = st3.entries;
            assert forall|a: int, b: int| 0 <= a < b < es.len() implies (#[trigger] es[a]).0 != (#[trigger] es[b]).0 by {
                if b == es.len() - 1 {
                    assert(es[a] == st2.entries[a]);
                } else {
                    assert(es[a] == st2.entries[a] && es[b] == st2.entries[b]);
                }
            }
            assert(es[es.len() - 1].0 == key);
        }
        lemma_key_index(st3.entries, key);
        let i = key_index(st3.entries, key)->Some_0;
        let st4 = insert_chunk(st3, i, h.chunk_number, payload, now);
        let es4 = st4.entries;
        assert forall|a: int, b: int| 0 <= a < b < es4.len() implies (#[trigger] es4[a]).0 != (#[trigger] es4[b]).0 by {
            assert(es4[a].0 == st3.entries[a].0 && es4[b].0 == st3.entries[b].0);
        }
        lemma_unique_after_insert(st4, i, key);
    }
}

proof fn lemma_unique_accept_chunk(st: AssemblerModel, key: AssemblyKey, h: HeaderModel, payload: Seq<u8>, now: u128)
    requires
        keys_unique(st.entries),
    ensures
        keys_unique(accept_chunk(st, key, h, payload, now).0.entries),
        accept_chunk(st, key, h, payload, now).1 matches Ok(Some(_)) ==> key_absent(
            accept_chunk(st, key, h, payload, now).0.entries,
            key,
        ),
{
    lemma_unique_remove_key(st, key);
    lemma_unique_room_for_new(st, key.sender);
    lemma_unique_store_chunk(room_for_new(st, key.sender).0, key, h, payload, now);
    lemma_unique_store_chunk(st, key, h, payload, now);
}

proof fn lemma_unique_push_chunk(st: AssemblerModel, key: AssemblyKey, h: HeaderModel, payload: Seq<u8>, now: u128)
    requires
        keys_unique(st.entries),
    ensures
        keys_unique(push_chunk(st, key, h, payload, now).0.entries),
        push_chunk(st, key, h, payload, now).1 matches Ok(Some(_)) ==> key_absent(
            push_chunk(st, key, h, payload, now).0.entries,
            key,
        ),
{
    lemma_key_index(st.entries, key);
    match key_index(st.entries, key) {
        None => {
            lemma_unique_accept_chunk(st, key, h, payload, now);
        },
        Some(i) => {
            lemma_unique_remove(st.entries, i);
            let a = st.entries[i].1;
            let n = h.chunk_number as int;
            if a.header.sender_name_bytes == h.sender_name_bytes && a.chunks[n] is None {
                lemma_unique_accept_chunk(st, key, h, payload, now);
                assert(push_chunk(st, key, h, payload, now) == accept_chunk(st, key, h, payload, now));
            }
        },
    }
}

/// Completing a multipart frame releases its identity: once a chunk completes its
/// frame, strictly or by canonical boundary repair, the reassembler holds no
/// identity for that frame. Every push keeps in-flight identities distinct.
pub proof fn lemma_completion_releases(st: AssemblerModel, d: Seq<u8>, peer: PeerAddr, now: u128)
    requires
        keys_unique(st.entries),
    ensures
        keys_unique(spec_push(st, d, peer, now).0.entries),
        spec_split_datagram(d) matches Ok(Some(h)) ==> (h.chunk_count != 1 && spec_push(
            st,
            d,
            peer,
            now,
        ).1 is Ok && spec_push(st, d, peer, now).1->Ok_0 is Some ==> key_absent(
            spec_push(st, d, peer, now).0.entries,
            key_of(peer, h),
        )),
{
    lemma_unique_fresh(st.entries, now, st.timeout_nanos);
    let st0 = spec_prune(st, now);
    if let Ok(Some(h)) = spec_split_datagram(d) {
        lemma_unique_push_chunk(st0, key_of(peer, h), h, d.subrange(52, d.len() as int), now);
    }
}


/// No push changes which senders have canonical boundary repair enabled.
pub proof fn lemma_push_keeps_repair_senders(st: AssemblerModel, d: Seq<u8>, peer: PeerAddr, now: u128)
    ensures
        spec_push(st, d, peer, now).0.repair_senders == st.repair_senders,
{
    let st0 = spec_prune(st, now);
    lemma_prune_shrinks(st, now);
    if let Ok(Some(h)) = spec_split_datagram(d) {
        let key = key_of(peer, h);
        let payload = d.subrange(52, d.len() as int);
        lemma_key_index(st0.entries, key);
        lemma_room_for_new(st0, key.sender);
        lemma_room_for_bytes(st0, payload.len(), key);
        lemma_room_for_bytes(room_for_new(st0, key.sender).0, payload.len(), key);
        crate::bounds::lemma_remove_key_shrinks(st0, key);
        let st1 = room_for_new(st0, key.sender).0;
        let st2a = room_for_bytes(st0, payload.len(), key).0;
        let st2b = room_for_bytes(st1, payload.len(), key).0;
        lemma_key_index(st2a.entries, key);
        lemma_key_index(st2b.entries, key);
        lemma_key_index(insert_new(st2a, key, h, now).entries, key);
        lemma_key_index(insert_new(st2b, key, h, now).entries, key);
    }
}

/// Once a sender is set back to strict mode, no push from it completes a frame by
/// canonical boundary repair, whatever datagrams from whatever peers are pushed
/// meanwhile, until its mode is set again.
pub proof fn lemma_strict_sender_never_repairs(
    st: AssemblerModel,
    sender: PonkSenderKey,
    steps: Seq<(Seq<u8>, PeerAddr, u128)>,
)
    ensures
        !repair_enabled(
            crate::reassembly::spec_set_compatibility(st, sender, crate::model::PonkSenderCompatibility::Strict),
            sender,
        ),
        forall|k: int|
            0 <= k < steps.len() && (PonkSenderKey { peer: steps[k].1, sender_id: header_fields(steps[k].0).sender_id })
                == sender ==> !is_repair(
                #[trigger] push_all(
                    crate::reassembly::spec_set_compatibility(st, sender, crate::model::PonkSenderCompatibility::Strict),
                    steps,
                ).1[k],
            ),
{
    let s0 = crate::reassembly::spec_set_compatibility(st, sender, crate::model::PonkSenderCompatibility::Strict);
    assert(!s0.repair_senders.contains(sender));
    lemma_run_never_repairs(s0, sender, steps);
}

/// In a run from a state without repair for `sender`, no push from `sender`
/// completes a frame by repair, and the repair-enabled senders never change.
pub proof fn lemma_run_never_repairs(st: AssemblerModel, sender: PonkSenderKey, steps: Seq<(Seq<u8>, PeerAddr, u128)>)
    requires
        !repair_enabled(st, sender),
    ensures
        push_all(st, steps).1.len() == steps.len(),
        push_all(st, steps).0.repair_senders == st.repair_senders,
        forall|k: int|
            0 <= k < steps.len() && (PonkSenderKey { peer: steps[k].1, sender_id: header_fields(steps[k].0).sender_id })
                == sender ==> !is_repair(#[trigger] push_all(st, steps).1[k]),
    decreases steps.len(),
{
    if steps.len() > 0 {
        let init = steps.drop_last();
        lemma_run_never_repairs(st, sender, init);
        let s1 = push_all(st, init).0;
        let last = steps.last();
        lemma_push_keeps_repair_senders(s1, last.0, last.1, last.2);
        if is_repair(spec_push(s1, last.0, last.1, last.2).1) {
            lemma_repair_only_when_enabled(s1, last.0, last.1, last.2);
        }
        let outs = push_all(st, steps).1;
        assert forall|k: int|
            0 <= k < steps.len() && (PonkSenderKey { peer: steps[k].1, sender_id: header_fields(steps[k].0).sender_id })
                == sender implies !is_repair(#[trigger] outs[k]) by {
            if k < steps.len() - 1 {
                assert(outs[k] == push_all(st, init).1[k]);
                assert(init[k] == steps[k]);
            }
        }
    }
}

} // verus!
