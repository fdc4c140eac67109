//! The reassembler as mathematics: its abstract state and what each step does to it.
use vstd::prelude::*;

use crate::error::PonkError;
use crate::model::{
    PeerAddr, PonkAssemblerConfig, PonkCompletion, PonkSenderCompatibility, PonkSenderKey, WireFrameModel,
};
use crate::wire::{HeaderModel, spec_decode_payload_checked, spec_split_datagram};

verus! {

/// The identity of an in-flight frame: peer and sender, frame number, advertised
/// chunk count and checksum.
#[derive(Debug, Clone, Copy, PartialEq, Eq, Structural)]
pub struct AssemblyKey {
    pub sender: PonkSenderKey,
    pub frame_number: u8,
    pub chunk_count: u8,
    pub data_crc: u32,
}

/// Abstract state of one in-flight frame.
#[verifier::ext_equal]
pub struct AssemblyModel {
    /// Header of the first chunk received.
    pub header: HeaderModel,
    /// Payload of each chunk slot, where received.
    pub chunks: Seq<Option<Seq<u8>>>,
    pub received_bytes: nat,
    pub created_order: u64,
    pub last_progress_order: u64,
    /// Clock reading, in nanoseconds, of the last progress.
    pub updated_at: u128,
}

/// Abstract state of a reassembler.
#[verifier::ext_equal]
pub struct AssemblerModel {
    /// In-flight frames, oldest insertion first.
    pub entries: Seq<(AssemblyKey, AssemblyModel)>,
    /// Senders for which canonical boundary repair is enabled.
    pub repair_senders: Set<PonkSenderKey>,
    pub config: PonkAssemblerConfig,
    /// The reassembly timeout in nanoseconds.
    pub timeout_nanos: u128,
    pub next_order: u64,
    pub buffered_bytes: nat,
}

/// What a push reports: an error, nothing, or a completed frame and how it completed.
pub type PushOutcome = Result<Option<(WireFrameModel, PonkCompletion)>, PonkError>;

/// The identity a chunk from this peer with this header belongs to.
pub open spec fn key_of(peer: PeerAddr, h: HeaderModel) -> AssemblyKey {
    AssemblyKey {
        sender: PonkSenderKey { peer, sender_id: h.sender_id },
        frame_number: h.frame_number,
        chunk_count: h.chunk_count,
        data_crc: h.data_crc,
    }
}

/// `a - b`, or zero where `b` is larger.
pub open spec fn sat_sub(a: nat, b: nat) -> nat {
    if a >= b {
        (a - b) as nat
    } else {
        0
    }
}

/// True when an assembly made no progress for longer than the timeout.
pub open spec fn is_stale(a: AssemblyModel, now: u128, timeout: u128) -> bool {
    now > a.updated_at && now - a.updated_at > timeout
}

/// The entries that are not stale, in order.
pub open spec fn fresh_entries(es: Seq<(AssemblyKey, AssemblyModel)>, now: u128, timeout: u128) -> Seq<(AssemblyKey, AssemblyModel)>
    decreases es.len(),
{
    if es.len() == 0 {
        es
    } else {
        let init = fresh_entries(es.drop_last(), now, timeout);
        if is_stale(es.last().1, now, timeout) {
            init
        } else {
            init.push(es.last())
        }
    }
}

/// The bytes the stale entries hold.
pub open spec fn stale_bytes(es: Seq<(AssemblyKey, AssemblyModel)>, now: u128, timeout: u128) -> nat
    decreases es.len(),
{
    if es.len() == 0 {
        0
    } else {
        stale_bytes(es.drop_last(), now, timeout) + if is_stale(es.last().1, now, timeout) {
            es.last().1.received_bytes
        } else {
            0
        }
    }
}

/// Setting the compatibility mode of one sender: canonical boundary repair is
/// enabled for it or disabled, and nothing else changes.
pub open spec fn spec_set_compatibility(
    st: AssemblerModel,
    sender: PonkSenderKey,
    mode: PonkSenderCompatibility,
) -> AssemblerModel {
    AssemblerModel {
        repair_senders: match mode {
            PonkSenderCompatibility::Strict => st.repair_senders.remove(sender),
            PonkSenderCompatibility::CanonicalV0ExactBoundaryChunkCount => st.repair_senders.insert(sender),
        },
        ..st
    }
}

/// Dropping every stale identity.
pub open spec fn spec_prune(st: AssemblerModel, now: u128) -> AssemblerModel {
    AssemblerModel {
        entries: fresh_entries(st.entries, now, st.timeout_nanos),
        buffered_bytes: sat_sub(st.buffered_bytes, stale_bytes(st.entries, now, st.timeout_nanos)),
        ..st
    }
}

/// The position of the first entry with this identity, if any.
pub open spec fn key_index(es: Seq<(AssemblyKey, AssemblyModel)>, key: AssemblyKey) -> Option<int> {
    if exists|i: int| 0 <= i < es.len() && (#[trigger] es[i]).0 == key {
        Some(
            choose|i: int|
                0 <= i < es.len() && (#[trigger] es[i]).0 == key && forall|j: int|
                    0 <= j < i ==> (#[trigger] es[j]).0 != key,
        )
    } else {
        None
    }
}

/// Where `key_index` finds an entry, it holds the identity.
pub proof fn lemma_key_index(es: Seq<(AssemblyKey, AssemblyModel)>, key: AssemblyKey)
    ensures
        key_index(es, key) matches Some(i) ==> 0 <= i < es.len() && es[i].0 == key,
        key_index(es, key) matches Some(i) ==> forall|j: int| 0 <= j < i ==> (#[trigger] es[j]).0 != key,
        key_index(es, key) is None ==> forall|i: int| 0 <= i < es.len() ==> (#[trigger] es[i]).0 != key,
{
    if exists|i: int| 0 <= i < es.len() && (#[trigger] es[i]).0 == key {
        let w = choose|i: int| 0 <= i < es.len() && (#[trigger] es[i]).0 == key;
        lemma_first_index(es, key, w);
    }
}

/// An entry holding the identity, with no earlier one, is where `key_index` finds it.
pub proof fn lemma_key_index_at(es: Seq<(AssemblyKey, AssemblyModel)>, key: AssemblyKey, i: int)
    requires
        0 <= i < es.len(),
        es[i].0 == key,
        forall|j: int| 0 <= j < i ==> (#[trigger] es[j]).0 != key,
    ensures
        key_index(es, key) == Some(i),
{
    lemma_key_index(es, key);
    let k = key_index(es, key)->Some_0;
    if k < i {
        assert(es[k].0 != key);
    } else if k > i {
        assert(es[i].0 != key);
    }
}

proof fn lemma_first_index(es: Seq<(AssemblyKey, AssemblyModel)>, key: AssemblyKey, w: int)
    requires
        0 <= w < es.len(),
        es[w].0 == key,
    ensures
        exists|i: int|
            0 <= i < es.len() && (#[trigger] es[i]).0 == key && forall|j: int|
                0 <= j < i ==> (#[trigger] es[j]).0 != key,
    decreases w,
{
    if exists|j: int| 0 <= j < w && (#[trigger] es[j]).0 == key {
        let j = choose|j: int| 0 <= j < w && (#[trigger] es[j]).0 == key;
        lemma_first_index(es, key, j);
    } else {
        assert(forall|j: int| 0 <= j < w ==> (#[trigger] es[j]).0 != key);
    }
}

/// Dropping the entry at position `i` and releasing its bytes.
pub open spec fn remove_at(st: AssemblerModel, i: int) -> AssemblerModel {
    AssemblerModel {
        entries: st.entries.remove(i),
        buffered_bytes: sat_sub(st.buffered_bytes, st.entries[i].1.received_bytes),
        ..st
    }
}

/// Dropping the identity, if present.
pub open spec fn remove_key(st: AssemblerModel, key: AssemblyKey) -> AssemblerModel {
    match key_index(st.entries, key) {
        Some(i) => remove_at(st, i),
        None => st,
    }
}

/// True when canonical boundary repair is enabled for the sender.
pub open spec fn repair_enabled(st: AssemblerModel, sender: PonkSenderKey) -> bool {
    st.repair_senders.contains(sender)
}

/// Number of in-flight identities of a sender.
pub open spec fn sender_count(es: Seq<(AssemblyKey, AssemblyModel)>, sender: PonkSenderKey) -> nat
    decreases es.len(),
{
    if es.len() == 0 {
        0
    } else {
        sender_count(es.drop_last(), sender) + if es.last().0.sender == sender {
            1nat
        } else {
            0nat
        }
    }
}

/// True when an entry may be evicted: of the given sender, if one is given, and not
/// the protected identity.
pub open spec fn is_candidate(
    e: (AssemblyKey, AssemblyModel),
    sender: Option<PonkSenderKey>,
    protected: Option<AssemblyKey>,
) -> bool {
    &&& protected != Some(e.0)
    &&& (sender is None || sender == Some(e.0.sender))
}

/// True when `a` made its last progress, then was created, strictly before `b`.
pub open spec fn older_than(a: AssemblyModel, b: AssemblyModel) -> bool {
    a.last_progress_order < b.last_progress_order || (a.last_progress_order
        == b.last_progress_order && a.created_order < b.created_order)
}

/// True when entry `i` is the first among the least recently progressing candidates.
pub open spec fn is_oldest(
    es: Seq<(AssemblyKey, AssemblyModel)>,
    i: int,
    sender: Option<PonkSenderKey>,
    protected: Option<AssemblyKey>,
) -> bool {
    &&& 0 <= i < es.len()
    &&& is_candidate(es[i], sender, protected)
    &&& forall|j: int|
        0 <= j < es.len() && is_candidate(#[trigger] es[j], sender, protected) ==> !older_than(
            es[j].1,
            es[i].1,
        )
    &&& forall|j: int|
        0 <= j < i && is_candidate(#[trigger] es[j], sender, protected) ==> older_than(
            es[i].1,
            es[j].1,
        )
}

/// The entry eviction picks, if any candidate exists.
pub open spec fn oldest_index(
    es: Seq<(AssemblyKey, AssemblyModel)>,
    sender: Option<PonkSenderKey>,
    protected: Option<AssemblyKey>,
) -> Option<int> {
    if exists|i: int| is_oldest(es, i, sender, protected) {
        Some(choose|i: int| is_oldest(es, i, sender, protected))
    } else {
        None
    }
}

/// Evicting the least recently progressing candidate; false when there is none.
pub open spec fn spec_evict(
    st: AssemblerModel,
    sender: Option<PonkSenderKey>,
    protected: Option<AssemblyKey>,
) -> (AssemblerModel, bool) {
    match oldest_index(st.entries, sender, protected) {
        Some(i) => (remove_at(st, i), true),
        None => (st, false),
    }
}

/// Evicting the sender's oldest identities until it holds fewer than `max`.
pub open spec fn room_for_sender(st: AssemblerModel, sender: PonkSenderKey, max: nat) -> (AssemblerModel, bool)
    decreases st.entries.len(),
{
    if sender_count(st.entries, sender) < max {
        (st, true)
    } else {
        match oldest_index(st.entries, Some(sender), None) {
            None => (st, false),
            Some(i) => if 0 <= i < st.entries.len() {
                room_for_sender(remove_at(st, i), sender, max)
            } else {
                (st, false)
            },
        }
    }
}

/// Evicting the oldest identities until fewer than `max` remain.
pub open spec fn room_global(st: AssemblerModel, max: nat) -> (AssemblerModel, bool)
    decreases st.entries.len(),
{
    if st.entries.len() < max {
        (st, true)
    } else {
        match oldest_index(st.entries, None, None) {
            None => (st, false),
            Some(i) => if 0 <= i < st.entries.len() {
                room_global(remove_at(st, i), max)
            } else {
                (st, false)
            },
        }
    }
}

/// Making room for a new identity of a sender under the per-sender and global
/// limits; false when a limit is zero.
pub open spec fn room_for_new(st: AssemblerModel, sender: PonkSenderKey) -> (AssemblerModel, bool) {
    let limits = st.config.reassembly;
    if limits.max_assemblies == 0 || limits.max_assemblies_per_sender == 0 {
        (st, false)
    } else {
        let (st1, ok1) = room_for_sender(st, sender, limits.max_assemblies_per_sender as nat);
        if !ok1 {
            (st1, false)
        } else {
            room_global(st1, limits.max_assemblies as nat)
        }
    }
}

/// Evicting the oldest unprotected identities until `additional` more bytes fit;
/// when nothing is left to evict, the protected identity is dropped too and the
/// byte limit is reported.
pub open spec fn room_for_bytes(st: AssemblerModel, additional: nat, protected: AssemblyKey) -> (AssemblerModel, Result<(), PonkError>)
    decreases st.entries.len(),
{
    let max = st.config.reassembly.max_buffered_bytes;
    if st.buffered_bytes + additional <= max {
        (st, Ok(()))
    } else {
        match oldest_index(st.entries, None, Some(protected)) {
            None => (remove_key(st, protected), Err(PonkError::BufferedBytesLimit { max })),
            Some(i) => if 0 <= i < st.entries.len() {
                room_for_bytes(remove_at(st, i), additional, protected)
            } else {
                (st, Ok(()))
            },
        }
    }
}

/// When room for the bytes is found, they fit under the byte limit and the
/// configuration is unchanged.
pub proof fn lemma_room_for_bytes_ok(st: AssemblerModel, additional: nat, protected: AssemblyKey)
    ensures
        room_for_bytes(st, additional, protected).1 is Ok ==> room_for_bytes(
            st,
            additional,
            protected,
        ).0.buffered_bytes + additional <= st.config.reassembly.max_buffered_bytes,
        room_for_bytes(st, additional, protected).0.config == st.config,
    decreases st.entries.len(),
{
    let max = st.config.reassembly.max_buffered_bytes;
    if st.buffered_bytes + additional > max {
        lemma_oldest_index(st.entries, None, Some(protected));
        match oldest_index(st.entries, None, Some(protected)) {
            None => {
                lemma_key_index(st.entries, protected);
            },
            Some(i) => {
                lemma_room_for_bytes_ok(remove_at(st, i), additional, protected);
            },
        }
    }
}

/// The order counter after one more order was taken.
pub open spec fn next_order_after(order: u64) -> u64 {
    if order == u64::MAX {
        0
    } else {
        (order + 1) as u64
    }
}

/// A new, empty assembly for the header, created at `order` and clock reading `now`.
pub open spec fn new_assembly(h: HeaderModel, order: u64, now: u128) -> AssemblyModel {
    AssemblyModel {
        header: h,
        chunks: Seq::new(h.chunk_count as nat, |_j: int| None),
        received_bytes: 0,
        created_order: order,
        last_progress_order: order,
        updated_at: now,
    }
}

/// Appending a new assembly for the identity.
pub open spec fn insert_new(st: AssemblerModel, key: AssemblyKey, h: HeaderModel, now: u128) -> AssemblerModel {
    AssemblerModel {
        entries: st.entries.push((key, new_assembly(h, st.next_order, now))),
        next_order: next_order_after(st.next_order),
        ..st
    }
}

/// Storing a chunk in the identity's slot `number`, recording progress.
pub open spec fn insert_chunk(
    st: AssemblerModel,
    i: int,
    number: u8,
    payload: Seq<u8>,
    now: u128,
) -> AssemblerModel {
    let a = st.entries[i].1;
    let a2 = AssemblyModel {
        chunks: a.chunks.update(number as int, Some(payload)),
        received_bytes: a.received_bytes + payload.len(),
        last_progress_order: st.next_order,
        updated_at: now,
        ..a
    };
    AssemblerModel {
        entries: st.entries.update(i, (st.entries[i].0, a2)),
        next_order: next_order_after(st.next_order),
        buffered_bytes: st.buffered_bytes + payload.len(),
        ..st
    }
}

/// Total bytes held by the entries.
pub open spec fn sum_received(es: Seq<(AssemblyKey, AssemblyModel)>) -> nat
    decreases es.len(),
{
    if es.len() == 0 {
        0
    } else {
        sum_received(es.drop_last()) + es.last().1.received_bytes
    }
}

pub proof fn lemma_sum_remove(es: Seq<(AssemblyKey, AssemblyModel)>, i: int)
    requires
        0 <= i < es.len(),
    ensures
        sum_received(es.remove(i)) + es[i].1.received_bytes == sum_received(es),
    decreases es.len(),
{
    if i == es.len() - 1 {
        assert(es.remove(i) =~= es.drop_last());
    } else {
        lemma_sum_remove(es.drop_last(), i);
        assert(es.remove(i).drop_last() =~= es.drop_last().remove(i));
        assert(es.remove(i).last() == es.last());
    }
}

pub proof fn lemma_sum_update(es: Seq<(AssemblyKey, AssemblyModel)>, i: int, e: (AssemblyKey, AssemblyModel))
    requires
        0 <= i < es.len(),
    ensures
        sum_received(es.update(i, e)) + es[i].1.received_bytes == sum_received(es) + e.1.received_bytes,
    decreases es.len(),
{
    if i == es.len() - 1 {
        assert(es.update(i, e).drop_last() =~= es.drop_last());
    } else {
        lemma_sum_update(es.drop_last(), i, e);
        assert(es.update(i, e).drop_last() =~= es.drop_last().update(i, e));
    }
}

pub proof fn lemma_sum_push(es: Seq<(AssemblyKey, AssemblyModel)>, e: (AssemblyKey, AssemblyModel))
    ensures
        sum_received(es.push(e)) == sum_received(es) + e.1.received_bytes,
{
    assert(es.push(e).drop_last() =~= es);
}

pub proof fn lemma_sum_fresh(es: Seq<(AssemblyKey, AssemblyModel)>, now: u128, timeout: u128)
    ensures
        sum_received(fresh_entries(es, now, timeout)) + stale_bytes(es, now, timeout) == sum_received(es),
    decreases es.len(),
{
    if es.len() > 0 {
        lemma_sum_fresh(es.drop_last(), now, timeout);
        if !is_stale(es.last().1, now, timeout) {
            lemma_sum_push(fresh_entries(es.drop_last(), now, timeout), es.last());
        }
    }
}

/// Two entries that both satisfy `is_oldest` are the same entry.
pub proof fn lemma_oldest_unique(
    es: Seq<(AssemblyKey, AssemblyModel)>,
    a: int,
    b: int,
    sender: Option<PonkSenderKey>,
    protected: Option<AssemblyKey>,
)
    requires
        is_oldest(es, a, sender, protected),
        is_oldest(es, b, sender, protected),
    ensures
        a == b,
{
    if a < b {
        assert(older_than(es[b].1, es[a].1));
    } else if b < a {
        assert(older_than(es[a].1, es[b].1));
    }
}

/// What `oldest_index` finds is the oldest candidate.
pub proof fn lemma_oldest_index(
    es: Seq<(AssemblyKey, AssemblyModel)>,
    sender: Option<PonkSenderKey>,
    protected: Option<AssemblyKey>,
)
    ensures
        oldest_index(es, sender, protected) matches Some(i) ==> is_oldest(es, i, sender, protected),
        forall|i: int| is_oldest(es, i, sender, protected) ==> oldest_index(es, sender, protected) == Some(i),
{
    if exists|i: int| is_oldest(es, i, sender, protected) {
        let c = choose|i: int| is_oldest(es, i, sender, protected);
        assert forall|i: int| is_oldest(es, i, sender, protected) implies oldest_index(es, sender, protected) == Some(i) by {
            lemma_oldest_unique(es, i, c, sender, protected);
        }
    }
}

/// True when every chunk slot holds a payload.
pub open spec fn is_complete(a: AssemblyModel) -> bool {
    forall|j: int| 0 <= j < a.chunks.len() ==> (#[trigger] a.chunks[j]) is Some
}

/// The received chunk payloads, concatenated in slot order.
pub open spec fn concat_chunks(cs: Seq<Option<Seq<u8>>>) -> Seq<u8>
    decreases cs.len(),
{
    if cs.len() == 0 {
        Seq::empty()
    } else {
        concat_chunks(cs.drop_last()) + match cs.last() {
            Some(c) => c,
            None => Seq::empty(),
        }
    }
}

/// Payload capacity of one datagram from the canonical v0 sender.
pub open spec fn canonical_chunk_len() -> nat {
    1420
}

/// The payload canonical boundary repair would decode: all slots but the last
/// received with exactly the canonical capacity, and the last slot still missing.
pub open spec fn canonical_payload(a: AssemblyModel) -> Option<Seq<u8>> {
    let n = a.chunks.len();
    if a.header.chunk_count < 2 || n == 0 || a.chunks[n - 1] is Some {
        None
    } else if exists|j: int|
        0 <= j < n - 1 && ((#[trigger] a.chunks[j]) is None || a.chunks[j]->Some_0.len()
            != canonical_chunk_len()) {
        None
    } else {
        Some(concat_chunks(a.chunks.take(n - 1)))
    }
}

/// Completing the identity at `i` from all of its chunks.
pub open spec fn finish_strict(st: AssemblerModel, i: int, decoder: crate::model::PonkDecoderLimits) -> (AssemblerModel, PushOutcome) {
    let a = st.entries[i].1;
    let st2 = remove_at(st, i);
    match spec_decode_payload_checked(a.header, concat_chunks(a.chunks), decoder) {
        Err(e) => (st2, Err(e)),
        Ok(None) => (st2, Ok(None)),
        Ok(Some(f)) => (st2, Ok(Some((f, PonkCompletion::Strict)))),
    }
}

/// Trying canonical boundary repair on the identity at `i`.
pub open spec fn try_canonical(st: AssemblerModel, i: int, decoder: crate::model::PonkDecoderLimits) -> (AssemblerModel, PushOutcome) {
    let key = st.entries[i].0;
    let a = st.entries[i].1;
    match canonical_payload(a) {
        None => (st, Ok(None)),
        Some(p) => match spec_decode_payload_checked(a.header, p, decoder) {
            Err(e) => (st, Err(e)),
            Ok(None) => (st, Ok(None)),
            Ok(Some(f)) => (
                remove_at(st, i),
                Ok(
                    Some(
                        (
                            f,
                            PonkCompletion::CanonicalExactBoundaryRepair {
                                advertised_chunks: key.chunk_count,
                                received_chunks: (key.chunk_count - 1) as u8,
                            },
                        ),
                    ),
                ),
            ),
        },
    }
}

/// Accepting a chunk that is new for its identity.
pub open spec fn accept_chunk(st: AssemblerModel, key: AssemblyKey, h: HeaderModel, payload: Seq<u8>, now: u128) -> (AssemblerModel, PushOutcome) {
    let decoder = st.config.decoder;
    let max_frame = decoder.max_frame_payload_bytes;
    let max_buffered = st.config.reassembly.max_buffered_bytes;
    let existing = key_index(st.entries, key);
    let current: nat = match existing {
        Some(i) => st.entries[i].1.received_bytes,
        None => 0,
    };
    let frame_bytes = current + payload.len();
    if frame_bytes > max_frame {
        (remove_key(st, key), Err(PonkError::FramePayloadTooLarge { max: max_frame }))
    } else if frame_bytes > max_buffered {
        (remove_key(st, key), Err(PonkError::BufferedBytesLimit { max: max_buffered }))
    } else {
        let (st1, ok) = if existing is Some {
            (st, true)
        } else {
            room_for_new(st, key.sender)
        };
        if !ok {
            (st1, Ok(None))
        } else {
            store_chunk(st1, key, h, payload, now)
        }
    }
}

/// Storing an accepted chunk once its identity has room: room is made for its bytes,
/// the identity is created if new, the chunk is recorded, and the frame is finished
/// if it is complete or canonical boundary repair applies.
pub open spec fn store_chunk(st1: AssemblerModel, key: AssemblyKey, h: HeaderModel, payload: Seq<u8>, now: u128) -> (AssemblerModel, PushOutcome) {
    let (st2, room) = room_for_bytes(st1, payload.len(), key);
    match room {
        Err(e) => (st2, Err(e)),
        Ok(_) => {
            let st3 = if key_index(st2.entries, key) is None {
                insert_new(st2, key, h, now)
            } else {
                st2
            };
            let i = key_index(st3.entries, key)->Some_0;
            let st4 = insert_chunk(st3, i, h.chunk_number, payload, now);
            after_insert(st4, i, key)
        },
    }
}

/// After a chunk was recorded at position `i`: finishing a complete frame, trying
/// repair for a repair-enabled sender, or waiting for more chunks.
pub open spec fn after_insert(st4: AssemblerModel, i: int, key: AssemblyKey) -> (AssemblerModel, PushOutcome) {
    if is_complete(st4.entries[i].1) {
        finish_strict(st4, i, st4.config.decoder)
    } else if repair_enabled(st4, key.sender) {
        try_canonical(st4, i, st4.config.decoder)
    } else {
        (st4, Ok(None))
    }
}

/// Handling one chunk of a multipart frame.
pub open spec fn push_chunk(st: AssemblerModel, key: AssemblyKey, h: HeaderModel, payload: Seq<u8>, now: u128) -> (AssemblerModel, PushOutcome) {
    match key_index(st.entries, key) {
        Some(i) => {
            let a = st.entries[i].1;
            if a.header.sender_name_bytes != h.sender_name_bytes {
                (remove_at(st, i), Err(PonkError::InconsistentSenderName))
            } else if a.chunks[h.chunk_number as int] is Some {
                if a.chunks[h.chunk_number as int]->Some_0 == payload {
                    if repair_enabled(st, key.sender) {
                        try_canonical(st, i, st.config.decoder)
                    } else {
                        (st, Ok(None))
                    }
                } else {
                    (remove_at(st, i), Err(PonkError::ConflictingChunk))
                }
            } else {
                accept_chunk(st, key, h, payload, now)
            }
        },
        None => accept_chunk(st, key, h, payload, now),
    }
}

/// What pushing a datagram from a peer at clock reading `now` does: stale identities
/// are dropped first; single-chunk frames are decoded at once; chunks of multipart
/// frames are collected per identity until the frame completes.
pub open spec fn spec_push(st: AssemblerModel, d: Seq<u8>, peer: PeerAddr, now: u128) -> (AssemblerModel, PushOutcome) {
    let st0 = spec_prune(st, now);
    match spec_split_datagram(d) {
        Err(e) => (st0, Err(e)),
        Ok(None) => (st0, Ok(None)),
        Ok(Some(h)) => {
            let payload = d.subrange(52, d.len() as int);
            if h.chunk_count == 1 {
                (
                    st0,
                    match spec_decode_payload_checked(h, payload, st.config.decoder) {
                        Err(e) => Err(e),
                        Ok(None) => Ok(None),
                        Ok(Some(f)) => Ok(Some((f, PonkCompletion::Strict))),
                    },
                )
            } else if payload.len() > st.config.decoder.max_frame_payload_bytes {
                (st0, Err(PonkError::FramePayloadTooLarge { max: st.config.decoder.max_frame_payload_bytes }))
            } else if st.config.reassembly.max_buffered_bytes == 0 && payload.len() == 0 {
                (st0, Ok(None))
            } else {
                push_chunk(st0, key_of(peer, h), h, payload, now)
            }
        },
    }
}


/// No chunk held holds no bytes.
pub proof fn lemma_concat_none(n: nat)
    ensures
        concat_chunks(Seq::new(n, |_j: int| None::<Seq<u8>>)).len() == 0,
    decreases n,
{
    if n > 0 {
        lemma_concat_none((n - 1) as nat);
        assert(Seq::new(n, |_j: int| None::<Seq<u8>>).drop_last() =~= Seq::new((n - 1) as nat, |_j: int| None::<Seq<u8>>));
    }
}

/// Filling an empty slot adds the chunk's bytes to those held.
pub proof fn lemma_concat_fill(cs: Seq<Option<Seq<u8>>>, j: int, p: Seq<u8>)
    requires
        0 <= j < cs.len(),
        cs[j] is None,
    ensures
        concat_chunks(cs.update(j, Some(p))).len() == concat_chunks(cs).len() + p.len(),
    decreases cs.len(),
{
    if j == cs.len() - 1 {
        assert(cs.update(j, Some(p)).drop_last() =~= cs.drop_last());
    } else {
        lemma_concat_fill(cs.drop_last(), j, p);
        assert(cs.update(j, Some(p)).drop_last() =~= cs.drop_last().update(j, Some(p)));
    }
}

/// Dropping an entry of another identity keeps the first entry of `key` where it is
/// found, one place earlier if it came after the dropped one.
#[verifier::spinoff_prover]
pub proof fn lemma_remove_keeps_key(es: Seq<(AssemblyKey, AssemblyModel)>, i: int, key: AssemblyKey)
    requires
        0 <= i < es.len(),
        es[i].0 != key,
    ensures
        key_index(es, key) is None ==> key_index(es.remove(i), key) is None,
        key_index(es, key) matches Some(c) ==> key_index(es.remove(i), key) matches Some(c2) && es.remove(i)[c2]
            == es[c],
{
    lemma_key_index(es, key);
    if key_index(es, key) is None {
        lemma_remove_keeps_absent(es, i, key);
    } else {
        lemma_remove_keeps_first(es, i, key, key_index(es, key)->Some_0);
    }
}

proof fn lemma_remove_keeps_absent(es: Seq<(AssemblyKey, AssemblyModel)>, i: int, key: AssemblyKey)
    requires
        0 <= i < es.len(),
        forall|t: int| 0 <= t < es.len() ==> (#[trigger] es[t]).0 != key,
    ensures
        key_index(es.remove(i), key) is None,
{
    let rem = es.remove(i);
    assert forall|t: int| 0 <= t < rem.len() implies (#[trigger] rem[t]).0 != key by {
        if t < i {
            assert(rem[t] == es[t]);
        } else {
            assert(rem[t] == es[t + 1]);
        }
    }
    assert(!(exists|t: int| 0 <= t < rem.len() && (#[trigger] rem[t]).0 == key));
}

proof fn lemma_remove_keeps_first(es: Seq<(AssemblyKey, AssemblyModel)>, i: int, key: AssemblyKey, c: int)
    requires
        0 <= i < es.len(),
        es[i].0 != key,
        0 <= c < es.len(),
        es[c].0 == key,
        forall|t: int| 0 <= t < c ==> (#[trigger] es[t]).0 != key,
    ensures
        key_index(es.remove(i), key) matches Some(c2) && es.remove(i)[c2] == es[c],
{
    let rem = es.remove(i);
    let c2 = if c < i { c } else { c - 1 };
    assert(rem[c2] == es[c]);
    assert forall|t: int| 0 <= t < c2 implies (#[trigger] rem[t]).0 != key by {
        if t < i {
            assert(rem[t] == es[t]);
        } else {
            assert(rem[t] == es[t + 1]);
        }
    }
    lemma_key_index_at(rem, key, c2);
}

/// Making room for bytes keeps the protected identity's entry as it was, or its
/// absence.
pub proof fn lemma_room_for_bytes_keeps(st: AssemblerModel, additional: nat, protected: AssemblyKey)
    ensures
        room_for_bytes(st, additional, protected).1 is Ok ==> {
            &&& key_index(st.entries, protected) is None ==> key_index(
                room_for_bytes(st, additional, protected).0.entries,
                protected,
            ) is None
            &&& key_index(st.entries, protected) matches Some(c) ==> key_index(
                room_for_bytes(st, additional, protected).0.entries,
                protected,
            ) matches Some(c2) && room_for_bytes(st, additional, protected).0.entries[c2] == st.entries[c]
        },
    decreases st.entries.len(),
{
    let max = st.config.reassembly.max_buffered_bytes;
    if st.buffered_bytes + additional > max {
        lemma_oldest_index(st.entries, None, Some(protected));
        match oldest_index(st.entries, None, Some(protected)) {
            None => {},
            Some(i) => {
                lemma_remove_keeps_key(st.entries, i, protected);
                lemma_room_for_bytes_keeps(remove_at(st, i), additional, protected);
            },
        }
    }
}

/// Making room for a new identity keeps every absent identity absent.
pub proof fn lemma_room_for_new_keeps(st: AssemblerModel, sender: PonkSenderKey, key: AssemblyKey)
    requires
        key_index(st.entries, key) is None,
    ensures
        key_index(room_for_new(st, sender).0.entries, key) is None,
{
    let limits = st.config.reassembly;
    if !(limits.max_assemblies == 0 || limits.max_assemblies_per_sender == 0) {
        lemma_room_for_sender_keeps(st, sender, limits.max_assemblies_per_sender as nat, key);
        let st1 = room_for_sender(st, sender, limits.max_assemblies_per_sender as nat).0;
        lemma_room_global_keeps(st1, limits.max_assemblies as nat, key);
    }
}

proof fn lemma_room_for_sender_keeps(st: AssemblerModel, sender: PonkSenderKey, max: nat, key: AssemblyKey)
    requires
        key_index(st.entries, key) is None,
    ensures
        key_index(room_for_sender(st, sender, max).0.entries, key) is None,
    decreases st.entries.len(),
{
    if sender_count(st.entries, sender) >= max {
        match oldest_index(st.entries, Some(sender), None) {
            None => {},
            Some(i) => if 0 <= i < st.entries.len() {
                lemma_key_index(st.entries, key);
                lemma_remove_keeps_key(st.entries, i, key);
                lemma_room_for_sender_keeps(remove_at(st, i), sender, max, key);
            },
        }
    }
}

proof fn lemma_room_global_keeps(st: AssemblerModel, max: nat, key: AssemblyKey)
    requires
        key_index(st.entries, key) is None,
    ensures
        key_index(room_global(st, max).0.entries, key) is None,
    decreases st.entries.len(),
{
    if st.entries.len() >= max {
        match oldest_index(st.entries, None, None) {
            None => {},
            Some(i) => if 0 <= i < st.entries.len() {
                lemma_key_index(st.entries, key);
                lemma_remove_keeps_key(st.entries, i, key);
                lemma_room_global_keeps(remove_at(st, i), max, key);
            },
        }
    }
}

} // verus!
