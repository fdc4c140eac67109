//! Bounded, out-of-order reassembly of multipart PONK frames.
use std::time::{Duration, Instant};
use vstd::prelude::*;

use crate::clock::{duration_as_nanos, duration_nanos, elapsed_since, instant_now};
use crate::codec::{Header, decode_payload_checked_wire, split_datagram};
use crate::wire::HeaderModel;
use crate::bounds::{AssemblerStep, held_bytes, keeps_limits, lemma_buffered_is_held, lemma_empty_within_limits, lemma_step_keeps_limits};
use crate::error::PonkError;
use crate::model::{
    PeerAddr, PonkAssembledFrame, PonkAssemblerConfig, PonkCompletion, PonkLimits,
    PonkSenderCompatibility, PonkSenderKey, WireFrameModel, config_from_limits,
};
use crate::reassembly::{
    accept_chunk, canonical_chunk_len, canonical_payload, concat_chunks, finish_strict,
    insert_chunk, insert_new, is_complete, key_of, new_assembly, next_order_after, push_chunk,
    repair_enabled, spec_push, spec_set_compatibility, try_canonical, store_chunk, after_insert, lemma_key_index, sum_received, lemma_sum_remove,
    lemma_sum_update, lemma_sum_push, lemma_sum_fresh, lemma_room_for_bytes_ok,
    AssemblerModel, AssemblyKey, AssemblyModel, PushOutcome, fresh_entries, is_candidate,
    is_oldest, is_stale, key_index, lemma_oldest_index, older_than, oldest_index, remove_at,
    remove_key, room_for_bytes, room_for_new, room_for_sender, room_global, sat_sub,
    sender_count, spec_evict, spec_prune, stale_bytes,
};

verus! {

/// One in-flight frame.
struct Assembly {
    header: Header,
    chunks: Vec<Option<Vec<u8>>>,
    received_bytes: usize,
    created_order: u64,
    last_progress_order: u64,
    updated_at: u128,
}

/// The contents of a chunk slot.
pub open spec fn slot_view(c: Option<Vec<u8>>) -> Option<Seq<u8>> {
    match c {
        Some(v) => Some(v@),
        None => None,
    }
}

/// The contents of all chunk slots.
pub open spec fn slots_view(cs: Seq<Option<Vec<u8>>>) -> Seq<Option<Seq<u8>>> {
    cs.map_values(|c: Option<Vec<u8>>| slot_view(c))
}

impl View for Assembly {
    type V = AssemblyModel;

    closed spec fn view(&self) -> AssemblyModel {
        AssemblyModel {
            header: self.header@,
            chunks: slots_view(self.chunks@),
            received_bytes: self.received_bytes as nat,
            created_order: self.created_order,
            last_progress_order: self.last_progress_order,
            updated_at: self.updated_at,
        }
    }
}

/// An in-flight frame together with its identity.
struct Entry {
    key: AssemblyKey,
    assembly: Assembly,
}

impl View for Entry {
    type V = (AssemblyKey, AssemblyModel);

    closed spec fn view(&self) -> (AssemblyKey, AssemblyModel) {
        (self.key, self.assembly@)
    }
}

spec fn entries_view(es: Seq<Entry>) -> Seq<(AssemblyKey, AssemblyModel)> {
    es.map_values(|e: Entry| e@)
}

proof fn lemma_entries_view_remove(es: Seq<Entry>, i: int)
    requires
        0 <= i < es.len(),
    ensures
        entries_view(es.remove(i)) == entries_view(es).remove(i),
        entries_view(es)[i] == es[i]@,
{
    assert(entries_view(es.remove(i)) =~= entries_view(es).remove(i));
}

proof fn lemma_entries_view_push(es: Seq<Entry>, e: Entry)
    ensures
        entries_view(es.push(e)) == entries_view(es).push(e@),
{
    assert(entries_view(es.push(e)) =~= entries_view(es).push(e@));
}

/// Bounded, out-of-order reassembler for untrusted PONK datagrams.
pub struct PonkAssembler {
    assemblies: Vec<Entry>,
    repair_senders: Vec<PonkSenderKey>,
    config: PonkAssemblerConfig,
    timeout_nanos: u128,
    epoch: Instant,
    next_order: u64,
    buffered_bytes: usize,
}

impl View for PonkAssembler {
    type V = AssemblerModel;

    closed spec fn view(&self) -> AssemblerModel {
        AssemblerModel {
            entries: entries_view(self.assemblies@),
            repair_senders: self.repair_senders@.to_set(),
            config: self.config,
            timeout_nanos: self.timeout_nanos,
            next_order: self.next_order,
            buffered_bytes: self.buffered_bytes as nat,
        }
    }
}

/// True when an identity is the one a chunk with this header belongs to: the same
/// sender identifier, frame number, chunk count and checksum.
pub open spec fn key_matches(key: AssemblyKey, h: HeaderModel) -> bool {
    &&& key.sender.sender_id == h.sender_id
    &&& key.frame_number == h.frame_number
    &&& key.chunk_count == h.chunk_count
    &&& key.data_crc == h.data_crc
}

/// An identity's header is one of its own chunks, it has one chunk slot per
/// advertised chunk, and its byte count is the length of the chunks it holds.
pub open spec fn entry_wf(e: (AssemblyKey, AssemblyModel)) -> bool {
    &&& e.1.chunks.len() == e.0.chunk_count
    &&& key_matches(e.0, e.1.header)
    &&& e.1.received_bytes == concat_chunks(e.1.chunks).len()
}

/// Well-formedness of a reassembler state: every identity is well formed, and the
/// buffered byte count is what the identities hold.
pub open spec fn model_wf(st: AssemblerModel) -> bool {
    &&& forall|i: int| 0 <= i < st.entries.len() ==> entry_wf(#[trigger] st.entries[i])
    &&& st.buffered_bytes == sum_received(st.entries)
}

impl PonkAssembler {
    /// The shape every step of a method keeps: well-formed identities, the buffered
    /// byte count, and a duplicate-free list of repair-enabled senders.
    closed spec fn shape_wf(&self) -> bool {
        &&& model_wf(self@)
        &&& self.repair_senders@.no_duplicates()
    }

    /// The invariant every public method keeps: its shape, and the reassembler's
    /// limits (see `keeps_limits`).
    pub closed spec fn wf(&self) -> bool {
        &&& self.shape_wf()
        &&& keeps_limits(self@)
    }

    /// A reassembler that public methods built and changed is well formed, keeps its
    /// limits, and buffers exactly the bytes of the chunks it holds.
    pub proof fn lemma_wf_limits_and_bytes(&self)
        requires
            self.wf(),
        ensures
            model_wf(self@),
            keeps_limits(self@),
            self@.buffered_bytes == held_bytes(self@.entries),
    {
        lemma_buffered_is_held(self@);
    }

    proof fn lemma_view_len(&self)
        ensures
            self@.entries.len() == self.assemblies@.len(),
            forall|i: int| 0 <= i < self.assemblies@.len() ==> #[trigger] self@.entries[i] == self.assemblies@[i]@,
    {
    }

    /// Creates an assembler with separate decoder and reassembly policies.
    pub fn with_config(config: PonkAssemblerConfig) -> (r: Self)
        ensures
            r.wf(),
            r@.entries.len() == 0,
            r@.repair_senders.is_empty(),
            r@.config == config,
            r@.timeout_nanos == duration_as_nanos(config.reassembly.assembly_timeout),
            r@.next_order == 0,
            r@.buffered_bytes == 0,
    {
        let r = Self {
            assemblies: Vec::new(),
            repair_senders: Vec::new(),
            config,
            timeout_nanos: duration_nanos(config.reassembly.assembly_timeout),
            epoch: instant_now(),
            next_order: 0,
            buffered_bytes: 0,
        };
        assert(r@.repair_senders =~= Set::<PonkSenderKey>::empty());
        proof {
            lemma_empty_within_limits(r@);
        }
        r
    }

    /// Creates an assembler with the default configuration.
    pub fn new() -> (r: Self)
        ensures
            r.wf(),
            r@.entries.len() == 0,
            r@.repair_senders.is_empty(),
            r@.config.decoder == crate::model::default_decoder_limits(),
            r@.config.reassembly.max_assemblies == crate::DEFAULT_MAX_ASSEMBLIES,
            r@.config.reassembly.max_assemblies_per_sender == crate::DEFAULT_MAX_ASSEMBLIES_PER_SENDER,
            r@.config.reassembly.max_buffered_bytes == crate::DEFAULT_MAX_BUFFERED_BYTES,
            r@.timeout_nanos == crate::DEFAULT_ASSEMBLY_TIMEOUT_MS as u128 * 1_000_000,
            r@.next_order == 0,
            r@.buffered_bytes == 0,
    {
        Self::with_config(PonkAssemblerConfig::default())
    }

    /// Creates an assembler with the requested global assembly limit, applied per
    /// sender too.
    pub fn with_max_assemblies(max_assemblies: usize) -> (r: Self)
        ensures
            r.wf(),
            r@.entries.len() == 0,
            r@.repair_senders.is_empty(),
            r@.config.decoder == crate::model::default_decoder_limits(),
            r@.config.reassembly.max_assemblies == max_assemblies,
            r@.config.reassembly.max_assemblies_per_sender == max_assemblies,
            r@.config.reassembly.max_buffered_bytes == crate::DEFAULT_MAX_BUFFERED_BYTES,
            r@.timeout_nanos == crate::DEFAULT_ASSEMBLY_TIMEOUT_MS as u128 * 1_000_000,
            r@.next_order == 0,
            r@.buffered_bytes == 0,
    {
        let mut config = PonkAssemblerConfig::default();
        config.reassembly.max_assemblies = max_assemblies;
        config.reassembly.max_assemblies_per_sender = max_assemblies;
        Self::with_config(config)
    }

    /// Creates an assembler from the backward-compatible combined limits.
    pub fn with_limits(limits: PonkLimits) -> (r: Self)
        ensures
            r.wf(),
            r@.entries.len() == 0,
            r@.repair_senders.is_empty(),
            r@.config == config_from_limits(limits),
            r@.timeout_nanos == duration_as_nanos(limits.assembly_timeout),
            r@.next_order == 0,
            r@.buffered_bytes == 0,
    {
        Self::with_config(PonkAssemblerConfig::from(limits))
    }

    /// Number of in-flight frame identities.
    pub fn assembly_count(&self) -> (r: usize)
        ensures
            r == self@.entries.len(),
    {
        proof {
            self.lemma_view_len();
        }
        self.assemblies.len()
    }

    /// Payload bytes held for in-flight frames.
    pub fn buffered_bytes(&self) -> (r: usize)
        ensures
            r == self@.buffered_bytes,
    {
        self.buffered_bytes
    }

    /// The position of the first in-flight identity equal to `key`.
    fn find_index(&self, key: &AssemblyKey) -> (r: Option<usize>)
        ensures
            match r {
                Some(i) => key_index(self@.entries, *key) == Some(i as int),
                None => key_index(self@.entries, *key) is None,
            },
    {
        proof {
            self.lemma_view_len();
        }
        let mut i: usize = 0;
        while i < self.assemblies.len()
            invariant
                i <= self.assemblies@.len(),
                self@.entries.len() == self.assemblies@.len(),
                forall|j: int| 0 <= j < i ==> (#[trigger] self@.entries[j]).0 != *key,
            decreases self.assemblies@.len() - i,
        {
            if self.assemblies[i].key == *key {
                proof {
                    self.lemma_view_len();
                    let es = self@.entries;
                    assert(es[i as int].0 == *key);
                    let c = choose|k: int|
                        0 <= k < es.len() && (#[trigger] es[k]).0 == *key && forall|j: int|
                            0 <= j < k ==> (#[trigger] es[j]).0 != *key;
                    assert(0 <= i < es.len() && es[i as int].0 == *key && forall|j: int|
                        0 <= j < i ==> (#[trigger] es[j]).0 != *key);
                    if c < i {
                    } else if c > i {
                        assert(es[i as int].0 != *key);
                    }
                }
                return Some(i);
            }
            proof {
                self.lemma_view_len();
            }
            i = i + 1;
        }
        None
    }

    /// Drops the identity at position `i` and releases its bytes.
    fn remove_at(&mut self, i: usize)
        requires
            i < old(self)@.entries.len(),
            old(self).shape_wf(),
        ensures
            final(self)@ == remove_at(old(self)@, i as int),
            final(self).shape_wf(),
    {
        let _ = self.take_entry(i);
    }

    /// Takes the identity at position `i` out and releases its bytes.
    fn take_entry(&mut self, i: usize) -> (r: Entry)
        requires
            i < old(self)@.entries.len(),
            old(self).shape_wf(),
        ensures
            final(self)@ == remove_at(old(self)@, i as int),
            r@ == old(self)@.entries[i as int],
            final(self).shape_wf(),
    {
        proof {
            self.lemma_view_len();
        }
        let entry = self.assemblies.remove(i);
        self.buffered_bytes = self.buffered_bytes.saturating_sub(entry.assembly.received_bytes);
        proof {
            let old_es = old(self)@.entries;
            assert(entry@ == old_es[i as int]);
            lemma_sum_remove(old_es, i as int);
            assert(self@.entries =~= old_es.remove(i as int)) by {
                self.lemma_view_len();
                old(self).lemma_view_len();
            }
        }
        assert(self@ =~= remove_at(old(self)@, i as int));
        entry
    }

    /// Drops the identity, if present.
    fn remove_assembly(&mut self, key: &AssemblyKey)
        requires
            old(self).shape_wf(),
        ensures
            final(self)@ == remove_key(old(self)@, *key),
            final(self).shape_wf(),
    {
        match self.find_index(key) {
            Some(i) => {
                proof {
                    self.lemma_view_len();
                    crate::reassembly::lemma_key_index(self@.entries, *key);
                }
                self.remove_at(i);
            },
            None => {},
        }
    }
}


/// True when `held + additional` bytes exceed `max`.
fn exceeds(held: usize, additional: usize, max: usize) -> (r: bool)
    ensures
        r == (held + additional > max),
{
    match held.checked_add(additional) {
        Some(total) => total > max,
        None => true,
    }
}

proof fn lemma_fresh_step(es: Seq<(AssemblyKey, AssemblyModel)>, k: int, now: u128, timeout: u128)
    requires
        0 <= k < es.len(),
    ensures
        fresh_entries(es.take(k + 1), now, timeout) == if is_stale(es[k].1, now, timeout) {
            fresh_entries(es.take(k), now, timeout)
        } else {
            fresh_entries(es.take(k), now, timeout).push(es[k])
        },
        stale_bytes(es.take(k + 1), now, timeout) == stale_bytes(es.take(k), now, timeout) + if is_stale(
            es[k].1,
            now,
            timeout,
        ) {
            es[k].1.received_bytes
        } else {
            0
        },
{
    assert(es.take(k + 1).drop_last() =~= es.take(k));
}

proof fn lemma_fresh_subset(es: Seq<(AssemblyKey, AssemblyModel)>, now: u128, timeout: u128)
    requires
        forall|i: int| 0 <= i < es.len() ==> entry_wf(#[trigger] es[i]),
    ensures
        forall|i: int| 0 <= i < fresh_entries(es, now, timeout).len() ==> entry_wf(
            #[trigger] fresh_entries(es, now, timeout)[i],
        ),
    decreases es.len(),
{
    if es.len() > 0 {
        let init = es.drop_last();
        assert forall|i: int| 0 <= i < init.len() implies entry_wf(#[trigger] init[i]) by {
            assert(init[i] == es[i]);
        }
        lemma_fresh_subset(init, now, timeout);
        assert(entry_wf(es.last()));
        let f = fresh_entries(init, now, timeout);
        if !is_stale(es.last().1, now, timeout) {
            assert forall|i: int| 0 <= i < f.push(es.last()).len() implies entry_wf(#[trigger] f.push(es.last())[i]) by {
                if i < f.len() {
                    assert(f.push(es.last())[i] == f[i]);
                }
            }
        }
    }
}

proof fn lemma_sender_count_step(es: Seq<(AssemblyKey, AssemblyModel)>, k: int, sender: PonkSenderKey)
    requires
        0 <= k < es.len(),
    ensures
        sender_count(es.take(k + 1), sender) == sender_count(es.take(k), sender) + if es[k].0.sender
            == sender {
            1nat
        } else {
            0nat
        },
{
    assert(es.take(k + 1).drop_last() =~= es.take(k));
}

impl PonkAssembler {
    /// Drops every identity that made no progress for longer than the timeout, as of
    /// clock reading `now`.
    pub fn prune_stale_at(&mut self, now: u128)
        requires
            old(self).wf(),
        ensures
            final(self)@ == spec_prune(old(self)@, now),
            final(self).wf(),
    {
        self.prune_stale_shaped(now);
        proof {
            lemma_step_keeps_limits(old(self)@, AssemblerStep::Prune { now });
        }
    }

    /// Drops the stale identities, keeping the reassembler's shape.
    fn prune_stale_shaped(&mut self, now: u128)
        requires
            old(self).shape_wf(),
        ensures
            final(self)@ == spec_prune(old(self)@, now),
            final(self).shape_wf(),
    {
        let timeout = self.timeout_nanos;
        let mut rest: Vec<Entry> = Vec::new();
        std::mem::swap(&mut rest, &mut self.assemblies);
        let ghost orig = entries_view(rest@);
        let ghost b0 = self.buffered_bytes as nat;
        proof {
            assert(orig == old(self)@.entries);
            assert(orig.take(0) =~= Seq::<(AssemblyKey, AssemblyModel)>::empty());
            assert(orig.skip(0) =~= orig);
        }
        let mut kept: Vec<Entry> = Vec::new();
        let ghost mut k: int = 0;
        assert(entries_view(kept@) =~= fresh_entries(orig.take(0), now, timeout));
        while rest.len() > 0
            invariant
                0 <= k <= orig.len(),
                orig == old(self)@.entries,
                model_wf(old(self)@),
                timeout == old(self)@.timeout_nanos,
                entries_view(rest@) == orig.skip(k),
                entries_view(kept@) == fresh_entries(orig.take(k), now, timeout),
                self.buffered_bytes == sat_sub(b0, stale_bytes(orig.take(k), now, timeout)),
                self.config == old(self).config,
                self.timeout_nanos == old(self).timeout_nanos,
                self.next_order == old(self).next_order,
                self.repair_senders == old(self).repair_senders,
            decreases rest@.len(),
        {
            let ghost old_rest = rest@;
            let entry = rest.remove(0);
            proof {
                lemma_entries_view_remove(old_rest, 0);
                assert(orig.skip(k).remove(0) =~= orig.skip(k + 1));
                assert(entries_view(old_rest)[0] == orig[k]);
                lemma_fresh_step(orig, k, now, timeout);
            }
            let updated = entry.assembly.updated_at;
            if now > updated && now - updated > timeout {
                self.buffered_bytes = self.buffered_bytes.saturating_sub(entry.assembly.received_bytes);
            } else {
                let ghost before = kept@;
                kept.push(entry);
                proof {
                    lemma_entries_view_push(before, entry);
                }
            }
            proof {
                k = k + 1;
            }
        }
        proof {
            assert(orig.skip(k).len() == 0);
            assert(orig.take(k) =~= orig);
            lemma_fresh_subset(orig, now, timeout);
            lemma_sum_fresh(orig, now, timeout);
        }
        self.assemblies = kept;
        assert(self@ =~= spec_prune(old(self)@, now));
    }

    /// Number of in-flight identities of a sender.
    fn sender_assembly_count(&self, sender: &PonkSenderKey) -> (r: usize)
        ensures
            r == sender_count(self@.entries, *sender),
    {
        proof {
            self.lemma_view_len();
        }
        let ghost es = self@.entries;
        let mut count: usize = 0;
        let mut i: usize = 0;
        assert(es.take(0) =~= Seq::<(AssemblyKey, AssemblyModel)>::empty());
        while i < self.assemblies.len()
            invariant
                i <= self.assemblies@.len(),
                es == self@.entries,
                es.len() == self.assemblies@.len(),
                count <= i,
                count == sender_count(es.take(i as int), *sender),
            decreases self.assemblies@.len() - i,
        {
            proof {
                self.lemma_view_len();
                lemma_sender_count_step(es, i as int, *sender);
            }
            if self.assemblies[i].key.sender == *sender {
                count = count + 1;
            }
            i = i + 1;
        }
        assert(es.take(i as int) =~= es);
        count
    }

    /// Evicts the least recently progressing candidate; false when there is none.
    fn evict_oldest(&mut self, sender: Option<PonkSenderKey>, protected: Option<AssemblyKey>) -> (r: bool)
        requires
            old(self).shape_wf(),
        ensures
            (final(self)@, r) == spec_evict(old(self)@, sender, protected),
            final(self).shape_wf(),
    {
        proof {
            self.lemma_view_len();
        }
        let ghost es = self@.entries;
        let mut best: Option<usize> = None;
        let mut i: usize = 0;
        while i < self.assemblies.len()
            invariant
                i <= self.assemblies@.len(),
                es == self@.entries,
                es.len() == self.assemblies@.len(),
                match best {
                    None => forall|j: int| 0 <= j < i ==> !is_candidate(#[trigger] es[j], sender, protected),
                    Some(b) => {
                        &&& b < i
                        &&& is_candidate(es[b as int], sender, protected)
                        &&& forall|j: int|
                            0 <= j < i && is_candidate(#[trigger] es[j], sender, protected) ==> !older_than(
                                es[j].1,
                                es[b as int].1,
                            )
                        &&& forall|j: int|
                            0 <= j < b && is_candidate(#[trigger] es[j], sender, protected) ==> older_than(
                                es[b as int].1,
                                es[j].1,
                            )
                    },
                },
            decreases self.assemblies@.len() - i,
        {
            proof {
                self.lemma_view_len();
            }
            let entry = &self.assemblies[i];
            let protected_hit = match protected {
                Some(p) => p == entry.key,
                None => false,
            };
            let sender_ok = match sender {
                Some(s) => s == entry.key.sender,
                None => true,
            };
            assert(entry@ == es[i as int]);
            if !protected_hit && sender_ok {
                assert(is_candidate(es[i as int], sender, protected));
                match best {
                    None => {
                        best = Some(i);
                    },
                    Some(b) => {
                        let cur = &self.assemblies[b].assembly;
                        let a = &entry.assembly;
                        assert(self.assemblies@[b as int]@ == es[b as int]);
                        if a.last_progress_order < cur.last_progress_order || (a.last_progress_order
                            == cur.last_progress_order && a.created_order < cur.created_order) {
                            assert(older_than(es[i as int].1, es[b as int].1));
                            best = Some(i);
                        } else {
                            assert(!older_than(es[i as int].1, es[b as int].1));
                        }
                    },
                }
            } else {
                assert(!is_candidate(es[i as int], sender, protected));
            }
            i = i + 1;
        }
        proof {
            lemma_oldest_index(es, sender, protected);
        }
        match best {
            None => {
                assert(oldest_index(es, sender, protected) is None) by {
                    if oldest_index(es, sender, protected) is Some {
                        let k = oldest_index(es, sender, protected)->Some_0;
                        assert(is_candidate(es[k], sender, protected));
                    }
                }
                false
            },
            Some(b) => {
                assert(is_oldest(es, b as int, sender, protected));
                self.remove_at(b);
                true
            },
        }
    }

    /// Evicts this sender's oldest identities until it holds fewer than `max`.
    fn make_room_for_sender(&mut self, sender: &PonkSenderKey, max: usize) -> (r: bool)
        requires
            old(self).shape_wf(),
        ensures
            (final(self)@, r) == room_for_sender(old(self)@, *sender, max as nat),
            final(self).shape_wf(),
    {
        while self.sender_assembly_count(sender) >= max
            invariant
                self.shape_wf(),
                room_for_sender(old(self)@, *sender, max as nat) == room_for_sender(
                    self@,
                    *sender,
                    max as nat,
                ),
            decreases self@.entries.len(),
        {
            let ghost before = self@;
            proof {
                lemma_oldest_index(before.entries, Some(*sender), None);
            }
            if !self.evict_oldest(Some(*sender), None) {
                return false;
            }
        }
        true
    }

    /// Evicts the oldest identities until fewer than `max` remain.
    fn make_room_global(&mut self, max: usize) -> (r: bool)
        requires
            old(self).shape_wf(),
        ensures
            (final(self)@, r) == room_global(old(self)@, max as nat),
            final(self).shape_wf(),
    {
        while self.assembly_count() >= max
            invariant
                self.shape_wf(),
                room_global(old(self)@, max as nat) == room_global(self@, max as nat),
            decreases self@.entries.len(),
        {
            let ghost before = self@;
            proof {
                lemma_oldest_index(before.entries, None, None);
            }
            if !self.evict_oldest(None, None) {
                return false;
            }
        }
        true
    }

    /// Makes room for a new identity of a sender under the per-sender and global
    /// limits; false when a limit is zero.
    fn make_room_for_new_identity(&mut self, sender: &PonkSenderKey) -> (r: bool)
        requires
            old(self).shape_wf(),
        ensures
            (final(self)@, r) == room_for_new(old(self)@, *sender),
            final(self).shape_wf(),
    {
        let limits = self.config.reassembly;
        if limits.max_assemblies == 0 || limits.max_assemblies_per_sender == 0 {
            return false;
        }
        if !self.make_room_for_sender(sender, limits.max_assemblies_per_sender) {
            return false;
        }
        self.make_room_global(limits.max_assemblies)
    }

    /// Evicts the oldest unprotected identities until `additional` more bytes fit.
    fn make_room_for_bytes(&mut self, additional: usize, protected: &AssemblyKey) -> (r: Result<(), PonkError>)
        requires
            old(self).shape_wf(),
        ensures
            (final(self)@, r) == room_for_bytes(old(self)@, additional as nat, *protected),
            final(self).shape_wf(),
    {
        let max = self.config.reassembly.max_buffered_bytes;
        while exceeds(self.buffered_bytes, additional, max)
            invariant
                self.shape_wf(),
                max == self@.config.reassembly.max_buffered_bytes,
                room_for_bytes(old(self)@, additional as nat, *protected) == room_for_bytes(
                    self@,
                    additional as nat,
                    *protected,
                ),
            decreases self@.entries.len(),
        {
            let ghost before = self@;
            proof {
                lemma_oldest_index(before.entries, None, Some(*protected));
            }
            if !self.evict_oldest(None, Some(*protected)) {
                self.remove_assembly(protected);
                return Err(PonkError::BufferedBytesLimit { max });
            }
        }
        Ok(())
    }
}


/// The result a push reports, as abstract contents.
pub open spec fn outcome_view(r: Result<Option<PonkAssembledFrame>, PonkError>) -> PushOutcome {
    match r {
        Err(e) => Err(e),
        Ok(None) => Ok(None),
        Ok(Some(a)) => Ok(Some((a.frame@, a.completion))),
    }
}

/// True when every chunk slot holds a payload.
fn all_received(a: &Assembly) -> (r: bool)
    ensures
        r == is_complete(a@),
{
    let mut j: usize = 0;
    while j < a.chunks.len()
        invariant
            j <= a.chunks@.len(),
            a@.chunks.len() == a.chunks@.len(),
            forall|k: int| 0 <= k < j ==> (#[trigger] a@.chunks[k]) is Some,
        decreases a.chunks@.len() - j,
    {
        assert(a@.chunks[j as int] == slot_view(a.chunks@[j as int]));
        if a.chunks[j].is_none() {
            return false;
        }
        j = j + 1;
    }
    true
}

/// The payloads of the first `upto` slots, concatenated.
fn concat_payload(chunks: &Vec<Option<Vec<u8>>>, upto: usize) -> (r: Vec<u8>)
    requires
        upto <= chunks@.len(),
    ensures
        r@ == concat_chunks(slots_view(chunks@).take(upto as int)),
{
    let ghost cs = slots_view(chunks@);
    let mut payload: Vec<u8> = Vec::new();
    let mut j: usize = 0;
    assert(cs.take(0) =~= Seq::<Option<Seq<u8>>>::empty());
    while j < upto
        invariant
            j <= upto,
            upto <= chunks@.len(),
            cs == slots_view(chunks@),
            payload@ == concat_chunks(cs.take(j as int)),
        decreases upto - j,
    {
        assert(cs.take(j + 1).drop_last() =~= cs.take(j as int));
        assert(cs[j as int] == slot_view(chunks@[j as int]));
        match &chunks[j] {
            Some(c) => {
                let ghost before = payload@;
                let mut k: usize = 0;
                while k < c.len()
                    invariant
                        k <= c@.len(),
                        payload@ == before + c@.take(k as int),
                    decreases c@.len() - k,
                {
                    payload.push(c[k]);
                    k = k + 1;
                    assert(payload@ =~= before + c@.take(k as int));
                }
                assert(c@.take(k as int) =~= c@);
            },
            None => {
                assert(payload@ =~= payload@ + Seq::<u8>::empty());
            },
        }
        j = j + 1;
    }
    payload
}

/// The payload canonical boundary repair would decode.
fn canonical_boundary_payload(a: &Assembly) -> (r: Option<Vec<u8>>)
    requires
        a@.chunks.len() == a@.header.chunk_count,
    ensures
        match r {
            Some(p) => canonical_payload(a@) == Some(p@),
            None => canonical_payload(a@) is None,
        },
{
    let n = a.chunks.len();
    if a.header.chunk_count < 2 || n == 0 || a.chunks[n - 1].is_some() {
        proof {
            if n > 0 {
                assert(a@.chunks[n - 1] == slot_view(a.chunks@[n - 1]));
            }
        }
        return None;
    }
    assert(a@.chunks[n - 1] == slot_view(a.chunks@[n - 1]));
    let mut j: usize = 0;
    while j < n - 1
        invariant
            j <= n - 1,
            n == a.chunks@.len(),
            a@.chunks.len() == n,
            forall|k: int| 0 <= k < j ==> (#[trigger] a@.chunks[k]) is Some && a@.chunks[k]->Some_0.len()
                == canonical_chunk_len(),
        decreases n - 1 - j,
    {
        assert(a@.chunks[j as int] == slot_view(a.chunks@[j as int]));
        match &a.chunks[j] {
            None => {
                return None;
            },
            Some(c) => {
                if c.len() != 1420 {
                    return None;
                }
            },
        }
        j = j + 1;
    }
    let payload = concat_payload(&a.chunks, n - 1);
    proof {
        assert(slots_view(a.chunks@) == a@.chunks);
    }
    Some(payload)
}

impl PonkAssembler {
    /// Takes the next order number.
    fn take_order(&mut self) -> (r: u64)
        ensures
            r == old(self).next_order,
            final(self).next_order == next_order_after(old(self).next_order),
            final(self).assemblies == old(self).assemblies,
            final(self).repair_senders == old(self).repair_senders,
            final(self).config == old(self).config,
            final(self).timeout_nanos == old(self).timeout_nanos,
            final(self).buffered_bytes == old(self).buffered_bytes,
    {
        let order = self.next_order;
        self.next_order = self.next_order.wrapping_add(1);
        order
    }

    /// Appends a new, empty assembly for an identity.
    fn insert_new_assembly(&mut self, key: AssemblyKey, header: Header, now: u128)
        requires
            old(self).shape_wf(),
            key_matches(key, header@),
        ensures
            final(self)@ == insert_new(old(self)@, key, header@, now),
            final(self).shape_wf(),
    {
        let order = self.take_order();
        let mut chunks: Vec<Option<Vec<u8>>> = Vec::new();
        let count = header.chunk_count as usize;
        let mut j: usize = 0;
        while j < count
            invariant
                j <= count,
                chunks@.len() == j,
                slots_view(chunks@) == Seq::new(j as nat, |_k: int| None::<Seq<u8>>),
            decreases count - j,
        {
            let ghost b = chunks@;
            chunks.push(None);
            j = j + 1;
            assert forall|k: int| 0 <= k < j implies #[trigger] slots_view(chunks@)[k] == None::<Seq<u8>> by {
                if k < j - 1 {
                    assert(chunks@[k] == b[k]);
                    assert(slots_view(b)[k] == None::<Seq<u8>>);
                }
            }
            assert(slots_view(chunks@) =~= Seq::new(j as nat, |_k: int| None::<Seq<u8>>));
        }
        let ghost h = header@;
        let assembly = Assembly {
            header,
            chunks,
            received_bytes: 0,
            created_order: order,
            last_progress_order: order,
            updated_at: now,
        };
        assert(assembly@ =~= new_assembly(h, order, now));
        proof {
            crate::reassembly::lemma_concat_none(h.chunk_count as nat);
        }
        let entry = Entry { key, assembly };
        let ghost before = self.assemblies@;
        self.assemblies.push(entry);
        proof {
            lemma_entries_view_push(before, entry);
            lemma_sum_push(old(self)@.entries, entry@);
            assert forall|i: int| 0 <= i < self@.entries.len() implies entry_wf(#[trigger] self@.entries[i]) by {
                if i < before.len() {
                    assert(self@.entries[i] == old(self)@.entries[i]);
                }
            }
        }
        assert(self@ =~= insert_new(old(self)@, key, h, now));
    }

    /// Stores a chunk in slot `number` of the identity at position `i`.
    fn insert_chunk_at(&mut self, i: usize, number: u8, payload: &[u8], now: u128)
        requires
            old(self).shape_wf(),
            i < old(self)@.entries.len(),
            number < old(self)@.entries[i as int].1.chunks.len(),
            old(self)@.entries[i as int].1.chunks[number as int] is None,
            old(self)@.entries[i as int].1.received_bytes + payload@.len() <= usize::MAX,
            old(self)@.buffered_bytes + payload@.len() <= usize::MAX,
        ensures
            final(self)@ == insert_chunk(old(self)@, i as int, number, payload@, now),
            final(self).shape_wf(),
    {
        proof {
            self.lemma_view_len();
        }
        let progress = self.take_order();
        let ghost before = self.assemblies@;
        let mut entry = self.assemblies.remove(i);
        proof {
            lemma_entries_view_remove(before, i as int);
        }
        let ghost old_chunks = entry.assembly.chunks@;
        let slot = number as usize;
        let _ = entry.assembly.chunks.remove(slot);
        entry.assembly.chunks.insert(slot, Some(vstd::slice::slice_to_vec(payload)));
        assert(entry.assembly.chunks@ =~= old_chunks.update(slot as int, entry.assembly.chunks@[slot as int]));
        assert(slots_view(entry.assembly.chunks@) =~= slots_view(old_chunks).update(slot as int, Some(payload@)));
        proof {
            crate::reassembly::lemma_concat_fill(slots_view(old_chunks), slot as int, payload@);
        }
        entry.assembly.received_bytes = entry.assembly.received_bytes + payload.len();
        entry.assembly.last_progress_order = progress;
        entry.assembly.updated_at = now;
        let ghost removed = self.assemblies@;
        self.assemblies.insert(i, entry);
        self.buffered_bytes = self.buffered_bytes + payload.len();
        proof {
            assert(self.assemblies@ =~= before.update(i as int, entry));
            assert(entries_view(self.assemblies@) =~= entries_view(before).update(i as int, entry@));
            lemma_sum_update(old(self)@.entries, i as int, entry@);
            assert forall|k: int| 0 <= k < self@.entries.len() implies entry_wf(#[trigger] self@.entries[k]) by {
                if k != i {
                    assert(self@.entries[k] == old(self)@.entries[k]);
                }
            }
        }
        assert(self@ =~= insert_chunk(old(self)@, i as int, number, payload@, now));
    }

    /// Completes the identity at position `i` from all of its chunks.
    fn finish_strict(&mut self, i: usize) -> (r: Result<Option<PonkAssembledFrame>, PonkError>)
        requires
            old(self).shape_wf(),
            i < old(self)@.entries.len(),
        ensures
            (final(self)@, outcome_view(r)) == finish_strict(old(self)@, i as int, old(self)@.config.decoder),
            final(self).shape_wf(),
    {
        let entry = self.take_entry(i);
        let payload = concat_payload(&entry.assembly.chunks, entry.assembly.chunks.len());
        proof {
            assert(slots_view(entry.assembly.chunks@).take(entry.assembly.chunks@.len() as int)
                =~= entry@.1.chunks);
        }
        let decoder = self.config.decoder;
        match decode_payload_checked_wire(&entry.assembly.header, payload.as_slice(), &decoder) {
            Err(e) => Err(e),
            Ok(None) => Ok(None),
            Ok(Some(frame)) => Ok(Some(PonkAssembledFrame { frame, completion: PonkCompletion::Strict })),
        }
    }

    /// Tries canonical boundary repair on the identity `key`; nothing happens when
    /// the identity is not retained.
    fn try_finish_canonical_boundary(&mut self, key: &AssemblyKey) -> (r: Result<Option<PonkAssembledFrame>, PonkError>)
        requires
            old(self).shape_wf(),
        ensures
            key_index(old(self)@.entries, *key) is None ==> final(self)@ == old(self)@ && outcome_view(r)
                == Ok::<Option<(WireFrameModel, PonkCompletion)>, PonkError>(None),
            key_index(old(self)@.entries, *key) matches Some(i) ==> (final(self)@, outcome_view(r)) == try_canonical(
                old(self)@,
                i,
                old(self)@.config.decoder,
            ),
            final(self).shape_wf(),
    {
        let i = match self.find_index(key) {
            None => return Ok(None),
            Some(i) => i,
        };
        proof {
            self.lemma_view_len();
            lemma_key_index(self@.entries, *key);
        }
        let ghost e = self@.entries[i as int];
        assert(self.assemblies@[i as int]@ == e);
        assert(entry_wf(e));
        let candidate = canonical_boundary_payload(&self.assemblies[i].assembly);
        let payload = match candidate {
            None => return Ok(None),
            Some(p) => p,
        };
        let decoder = self.config.decoder;
        let decoded = decode_payload_checked_wire(&self.assemblies[i].assembly.header, payload.as_slice(), &decoder);
        let frame = match decoded {
            Err(e) => return Err(e),
            Ok(None) => return Ok(None),
            Ok(Some(f)) => f,
        };
        let advertised_chunks = self.assemblies[i].key.chunk_count;
        self.remove_at(i);
        Ok(
            Some(
                PonkAssembledFrame {
                    frame,
                    completion: PonkCompletion::CanonicalExactBoundaryRepair {
                        advertised_chunks,
                        received_chunks: advertised_chunks - 1,
                    },
                },
            ),
        )
    }
}


impl PonkAssembler {
    /// True when canonical boundary repair is enabled for the sender.
    fn repair_enabled_for(&self, sender: &PonkSenderKey) -> (r: bool)
        ensures
            r == repair_enabled(self@, *sender),
    {
        let mut j: usize = 0;
        while j < self.repair_senders.len()
            invariant
                j <= self.repair_senders@.len(),
                forall|k: int| 0 <= k < j ==> self.repair_senders@[k] != *sender,
            decreases self.repair_senders@.len() - j,
        {
            if self.repair_senders[j] == *sender {
                assert(self.repair_senders@.contains(*sender));
                return true;
            }
            j = j + 1;
        }
        false
    }

    /// Accepts a chunk that is new for its identity.
    fn accept_chunk(&mut self, key: AssemblyKey, header: Header, payload: &[u8], now: u128) -> (r: Result<Option<PonkAssembledFrame>, PonkError>)
        requires
            old(self).shape_wf(),
            key_matches(key, header@),
            header@.chunk_number < header@.chunk_count,
            key_index(old(self)@.entries, key) matches Some(i) ==> old(self)@.entries[i].1.chunks[header@.chunk_number as int] is None,
        ensures
            (final(self)@, outcome_view(r)) == accept_chunk(old(self)@, key, header@, payload@, now),
            final(self).shape_wf(),
    {
        let ghost st = self@;
        let ghost h = header@;
        let decoder = self.config.decoder;
        let max_frame = decoder.max_frame_payload_bytes;
        let max_buffered = self.config.reassembly.max_buffered_bytes;
        let number = header.chunk_number;
        let existing = self.find_index(&key);
        proof {
            self.lemma_view_len();
            lemma_key_index(st.entries, key);
        }
        let current = match existing {
            Some(i) => self.assemblies[i].assembly.received_bytes,
            None => 0,
        };
        if exceeds(current, payload.len(), max_frame) {
            self.remove_assembly(&key);
            return Err(PonkError::FramePayloadTooLarge { max: max_frame });
        }
        if current + payload.len() > max_buffered {
            self.remove_assembly(&key);
            return Err(PonkError::BufferedBytesLimit { max: max_buffered });
        }
        if existing.is_none() {
            proof {
                crate::reassembly::lemma_room_for_new_keeps(st, key.sender, key);
            }
            if !self.make_room_for_new_identity(&key.sender) {
                return Ok(None);
            }
        }
        self.store_chunk(key, header, payload, now)
    }

    /// Stores an accepted chunk once its identity has room.
    fn store_chunk(&mut self, key: AssemblyKey, header: Header, payload: &[u8], now: u128) -> (r: Result<Option<PonkAssembledFrame>, PonkError>)
        requires
            old(self).shape_wf(),
            key_matches(key, header@),
            header@.chunk_number < header@.chunk_count,
            key_index(old(self)@.entries, key) matches Some(i) ==> old(self)@.entries[i].1.chunks[header@.chunk_number as int] is None,
        ensures
            (final(self)@, outcome_view(r)) == store_chunk(old(self)@, key, header@, payload@, now),
            final(self).shape_wf(),
    {
        let ghost st1 = self@;
        let ghost h = header@;
        let number = header.chunk_number;
        proof {
            lemma_room_for_bytes_ok(st1, payload@.len(), key);
            crate::reassembly::lemma_room_for_bytes_keeps(st1, payload@.len(), key);
            lemma_key_index(st1.entries, key);
        }
        match self.make_room_for_bytes(payload.len(), &key) {
            Err(e) => return Err(e),
            Ok(_) => {},
        }
        let ghost st2 = self@;
        if self.find_index(&key).is_none() {
            self.insert_new_assembly(key, header, now);
        }
        let ghost st3 = self@;
        let i = match self.find_index(&key) {
            Some(i) => i,
            None => {
                proof {
                    lemma_key_index(st3.entries, key);
                    lemma_key_index(st2.entries, key);
                    assert(st3.entries[st3.entries.len() - 1].0 == key);
                }
                return Ok(None);
            },
        };
        proof {
            lemma_key_index(st3.entries, key);
            self.lemma_view_len();
            assert(entry_wf(st3.entries[i as int]));
            lemma_sum_remove(st3.entries, i as int);
        }
        self.insert_chunk_at(i, number, payload, now);
        proof {
            let st4 = self@;
            assert forall|j: int| 0 <= j < i implies (#[trigger] st4.entries[j]).0 != key by {
                assert(st4.entries[j].0 == st3.entries[j].0);
            }
            crate::reassembly::lemma_key_index_at(st4.entries, key, i as int);
        }
        self.finish_or_wait(i, &key)
    }

    /// After a chunk was recorded at position `i`: finishes a complete frame, tries
    /// repair for a repair-enabled sender, or waits for more chunks.
    fn finish_or_wait(&mut self, i: usize, key: &AssemblyKey) -> (r: Result<Option<PonkAssembledFrame>, PonkError>)
        requires
            old(self).shape_wf(),
            i < old(self)@.entries.len(),
            key_index(old(self)@.entries, *key) == Some(i as int),
        ensures
            (final(self)@, outcome_view(r)) == after_insert(old(self)@, i as int, *key),
            final(self).shape_wf(),
    {
        proof {
            self.lemma_view_len();
        }
        assert(self.assemblies@[i as int]@ == self@.entries[i as int]);
        if all_received(&self.assemblies[i].assembly) {
            return self.finish_strict(i);
        }
        if self.repair_enabled_for(&key.sender) {
            return self.try_finish_canonical_boundary(key);
        }
        Ok(None)
    }

    /// Handles one chunk of a multipart frame.
    fn push_chunk(&mut self, key: AssemblyKey, header: Header, payload: &[u8], now: u128) -> (r: Result<Option<PonkAssembledFrame>, PonkError>)
        requires
            old(self).shape_wf(),
            key_matches(key, header@),
            header@.chunk_number < header@.chunk_count,
        ensures
            (final(self)@, outcome_view(r)) == push_chunk(old(self)@, key, header@, payload@, now),
            final(self).shape_wf(),
    {
        let ghost st = self@;
        match self.find_index(&key) {
            None => self.accept_chunk(key, header, payload, now),
            Some(i) => {
                proof {
                    self.lemma_view_len();
                    lemma_key_index(st.entries, key);
                    assert(entry_wf(st.entries[i as int]));
                }
                let a = &self.assemblies[i].assembly;
                assert(a@ == st.entries[i as int].1);
                if !same_bytes(a.header.sender_name_bytes.as_slice(), header.sender_name_bytes.as_slice()) {
                    self.remove_at(i);
                    return Err(PonkError::InconsistentSenderName);
                }
                let slot = header.chunk_number as usize;
                assert(a@.chunks[slot as int] == slot_view(a.chunks@[slot as int]));
                match &a.chunks[slot] {
                    Some(existing) => {
                        if same_bytes(existing.as_slice(), payload) {
                            if self.repair_enabled_for(&key.sender) {
                                return self.try_finish_canonical_boundary(&key);
                            }
                            return Ok(None);
                        }
                        self.remove_at(i);
                        Err(PonkError::ConflictingChunk)
                    },
                    None => self.accept_chunk(key, header, payload, now),
                }
            },
        }
    }

    /// Handles one datagram received from `peer` at clock reading `now`, in
    /// nanoseconds since the assembler was created: stale identities are dropped
    /// first, single-chunk frames are decoded at once, and chunks of multipart frames
    /// are collected until their frame completes.
    pub fn push_wire_datagram_at(
        &mut self,
        datagram: &[u8],
        peer: PeerAddr,
        now: u128,
    ) -> (r: Result<Option<PonkAssembledFrame>, PonkError>)
        requires
            old(self).wf(),
        ensures
            (final(self)@, outcome_view(r)) == spec_push(old(self)@, datagram@, peer, now),
            final(self).wf(),
    {
        let r = self.push_shaped(datagram, peer, now);
        proof {
            lemma_step_keeps_limits(old(self)@, AssemblerStep::Push { datagram: datagram@, peer, now });
        }
        r
    }

    /// Handles one datagram, keeping the reassembler's shape.
    fn push_shaped(
        &mut self,
        datagram: &[u8],
        peer: PeerAddr,
        now: u128,
    ) -> (r: Result<Option<PonkAssembledFrame>, PonkError>)
        requires
            old(self).shape_wf(),
        ensures
            (final(self)@, outcome_view(r)) == spec_push(old(self)@, datagram@, peer, now),
            final(self).shape_wf(),
    {
        self.prune_stale_shaped(now);
        let (header, payload) = match split_datagram(datagram) {
            Err(e) => return Err(e),
            Ok(None) => return Ok(None),
            Ok(Some(hp)) => hp,
        };
        let decoder = self.config.decoder;
        if header.chunk_count == 1 {
            return match decode_payload_checked_wire(&header, payload, &decoder) {
                Err(e) => Err(e),
                Ok(None) => Ok(None),
                Ok(Some(frame)) => Ok(Some(PonkAssembledFrame { frame, completion: PonkCompletion::Strict })),
            };
        }
        if payload.len() > decoder.max_frame_payload_bytes {
            return Err(PonkError::FramePayloadTooLarge { max: decoder.max_frame_payload_bytes });
        }
        if self.config.reassembly.max_buffered_bytes == 0 && payload.len() == 0 {
            return Ok(None);
        }
        let key = AssemblyKey {
            sender: PonkSenderKey { peer, sender_id: header.sender_id },
            frame_number: header.frame_number,
            chunk_count: header.chunk_count,
            data_crc: header.data_crc,
        };
        assert(key == key_of(peer, header@));
        self.push_chunk(key, header, payload, now)
    }
}

/// True when the two byte strings are equal.
fn same_bytes(a: &[u8], b: &[u8]) -> (r: bool)
    ensures
        r == (a@ == b@),
{
    if a.len() != b.len() {
        return false;
    }
    let mut i: usize = 0;
    while i < a.len()
        invariant
            i <= a@.len(),
            a@.len() == b@.len(),
            forall|k: int| 0 <= k < i ==> a@[k] == b@[k],
        decreases a@.len() - i,
    {
        if a[i] != b[i] {
            return false;
        }
        i = i + 1;
    }
    assert(a@ =~= b@);
    true
}


impl PonkAssembler {
    /// Handles one datagram received from `peer`, reading the clock for timeouts: it
    /// does what `push_wire_datagram_at` does at the clock reading it took, the whole
    /// number of nanoseconds of the time elapsed since the assembler was created, as
    /// `Instant::elapsed` measures it.
    pub fn push_wire_datagram(&mut self, datagram: &[u8], peer: PeerAddr) -> (r: Result<Option<PonkAssembledFrame>, PonkError>)
        requires
            old(self).wf(),
        ensures
            exists|now: u128| (final(self)@, outcome_view(r)) == #[trigger] spec_push(old(self)@, datagram@, peer, now),
            exists|elapsed: Duration|
                (final(self)@, outcome_view(r)) == #[trigger] spec_push(
                    old(self)@,
                    datagram@,
                    peer,
                    duration_as_nanos(elapsed),
                ),
            final(self).wf(),
    {
        let elapsed = elapsed_since(&self.epoch);
        let now = duration_nanos(elapsed);
        self.push_wire_datagram_at(datagram, peer, now)
    }

    /// Drops all independently expired frame identities, reading the clock: it does
    /// what `prune_stale_at` does at the whole number of nanoseconds of the time
    /// elapsed since the assembler was created, as `Instant::elapsed` measures it.
    pub fn prune_stale(&mut self)
        requires
            old(self).wf(),
        ensures
            exists|now: u128| final(self)@ == #[trigger] spec_prune(old(self)@, now),
            exists|elapsed: Duration| final(self)@ == #[trigger] spec_prune(old(self)@, duration_as_nanos(elapsed)),
            final(self).wf(),
    {
        let elapsed = elapsed_since(&self.epoch);
        let now = duration_nanos(elapsed);
        self.prune_stale_at(now);
    }

    /// Sets compatibility for one known UDP peer and sender identifier. Strict mode
    /// is the default; canonical boundary repair is enabled only for the senders it
    /// is set for.
    pub fn set_sender_compatibility(&mut self, sender: PonkSenderKey, mode: PonkSenderCompatibility)
        requires
            old(self).wf(),
        ensures
            final(self)@ == spec_set_compatibility(old(self)@, sender, mode),
            mode is Strict ==> !repair_enabled(final(self)@, sender),
            mode is CanonicalV0ExactBoundaryChunkCount ==> repair_enabled(final(self)@, sender),
            forall|other: PonkSenderKey|
                other != sender ==> repair_enabled(final(self)@, other) == repair_enabled(old(self)@, other),
            final(self)@.entries == old(self)@.entries,
            final(self)@.buffered_bytes == old(self)@.buffered_bytes,
            final(self)@.config == old(self)@.config,
            final(self).wf(),
    {
        self.set_compatibility_shaped(sender, mode);
        proof {
            lemma_step_keeps_limits(old(self)@, AssemblerStep::Compatibility { sender, mode });
        }
    }

    /// Sets one sender's compatibility, keeping the reassembler's shape.
    fn set_compatibility_shaped(&mut self, sender: PonkSenderKey, mode: PonkSenderCompatibility)
        requires
            old(self).shape_wf(),
        ensures
            final(self)@ == spec_set_compatibility(old(self)@, sender, mode),
            final(self).shape_wf(),
    {
        let ghost old_list = self.repair_senders@;
        let mut j: usize = 0;
        while j < self.repair_senders.len()
            invariant
                j <= self.repair_senders@.len(),
                self.repair_senders@ == old_list,
                forall|k: int| 0 <= k < j ==> self.repair_senders@[k] != sender,
            ensures
                j <= old_list.len(),
                self.repair_senders@ == old_list,
                forall|k: int| 0 <= k < j ==> old_list[k] != sender,
                j < old_list.len() ==> old_list[j as int] == sender,
            decreases self.repair_senders@.len() - j,
        {
            if self.repair_senders[j] == sender {
                break;
            }
            j = j + 1;
        }
        let found = j < self.repair_senders.len();
        match mode {
            PonkSenderCompatibility::Strict => {
                if found {
                    self.repair_senders.remove(j);
                    let ghost new_list = self.repair_senders@;
                    assert forall|x: PonkSenderKey| new_list.contains(x) <==> (old_list.contains(x) && x != sender) by {
                        if new_list.contains(x) {
                            let k = choose|k: int| 0 <= k < new_list.len() && new_list[k] == x;
                            if k < j {
                                assert(old_list[k] == x);
                            } else {
                                assert(old_list[k + 1] == x);
                                assert(old_list[j as int] == sender);
                            }
                        }
                        if old_list.contains(x) && x != sender {
                            let k = choose|k: int| 0 <= k < old_list.len() && old_list[k] == x;
                            if k < j {
                                assert(new_list[k] == x);
                            } else {
                                assert(k != j);
                                assert(new_list[k - 1] == x);
                            }
                        }
                    }
                    assert(new_list.no_duplicates()) by {
                        assert forall|a: int, b: int| 0 <= a < b < new_list.len() implies new_list[a] != new_list[b] by {
                            let oa = if a < j { a } else { a + 1 };
                            let ob = if b < j { b } else { b + 1 };
                            assert(new_list[a] == old_list[oa]);
                            assert(new_list[b] == old_list[ob]);
                        }
                    }
                } else {
                    assert(!old_list.contains(sender));
                }
                assert(self@.repair_senders =~= old(self)@.repair_senders.remove(sender));
            },
            PonkSenderCompatibility::CanonicalV0ExactBoundaryChunkCount => {
                if !found {
                    self.repair_senders.push(sender);
                    let ghost new_list = self.repair_senders@;
                    assert forall|x: PonkSenderKey| new_list.contains(x) <==> (old_list.contains(x) || x == sender) by {
                        if new_list.contains(x) {
                            let k = choose|k: int| 0 <= k < new_list.len() && new_list[k] == x;
                            if k < old_list.len() {
                                assert(old_list[k] == x);
                            }
                        }
                        if old_list.contains(x) {
                            let k = choose|k: int| 0 <= k < old_list.len() && old_list[k] == x;
                            assert(new_list[k] == x);
                        }
                        if x == sender {
                            assert(new_list[old_list.len() as int] == x);
                        }
                    }
                    assert(new_list.no_duplicates()) by {
                        assert forall|a: int, b: int| 0 <= a < b < new_list.len() implies new_list[a] != new_list[b] by {
                            if b == old_list.len() {
                                assert(new_list[a] == old_list[a]);
                            } else {
                                assert(new_list[a] == old_list[a]);
                                assert(new_list[b] == old_list[b]);
                            }
                        }
                    }
                } else {
                    assert(old_list[j as int] == sender);
                    assert(old_list.contains(sender));
                }
                assert(self@.repair_senders =~= old(self)@.repair_senders.insert(sender));
            },
        }
        assert(self@ =~= AssemblerModel {
            repair_senders: match mode {
                PonkSenderCompatibility::Strict => old(self)@.repair_senders.remove(sender),
                PonkSenderCompatibility::CanonicalV0ExactBoundaryChunkCount => old(
                    self,
                )@.repair_senders.insert(sender),
            },
            ..old(self)@
        });
    }
}

impl Default for PonkAssembler {
    fn default() -> (r: Self)
        ensures
            r.wf(),
            r@.entries.len() == 0,
            r@.repair_senders.is_empty(),
            r@.config.decoder == crate::model::default_decoder_limits(),
            r@.config.reassembly.max_assemblies == crate::DEFAULT_MAX_ASSEMBLIES,
            r@.config.reassembly.max_assemblies_per_sender == crate::DEFAULT_MAX_ASSEMBLIES_PER_SENDER,
            r@.config.reassembly.max_buffered_bytes == crate::DEFAULT_MAX_BUFFERED_BYTES,
            r@.timeout_nanos == crate::DEFAULT_ASSEMBLY_TIMEOUT_MS as u128 * 1_000_000,
            r@.next_order == 0,
            r@.buffered_bytes == 0,
    {
        Self::new()
    }
}

} // verus!
