//! The cache itself: lookup, end-of-frame maintenance, change tracking and
//! the hand-over of the buffer.

use crate::model::{
    is_kept_order, is_packed_prefix, lemma_eviction_count, lemma_hit_keeps_wf,
    lemma_kept_offsets, lemma_kept_region, lemma_miss_keeps_wf, lemma_pack_next, lemma_pack_none,
    lemma_packed_prefix_len, lemma_repacked, packed_texels, CacheState,
};
use crate::ramp::{append_lut, CachedRamp};
use crate::store::{
    clone_key, store_entries, store_get_mut, store_insert, store_iter_mut, store_len, store_new,
    store_retain_used_since, RampKey, RampStore,
};
use vstd::prelude::*;
use vstd::slice::slice_subrange;

verus! {

/// Packed gradient lookup tables that persist across frames.
pub struct GradientRampCache {
    /// Where each live ramp lies, and when it was last used.
    store: RampStore,
    /// The packed ramps.
    luts: Vec<u8>,
    /// Whether the packed ramps have to be uploaded again.
    has_changed: bool,
    /// The number of the running frame.
    epoch: u64,
    /// The live ramps in the order in which they lie in `luts`.
    order: Ghost<Seq<RampKey>>,
    /// The buffer that was handed out, until it comes back.
    lent: Ghost<Option<Seq<u8>>>,
}

impl View for GradientRampCache {
    type V = CacheState;

    closed spec fn view(&self) -> CacheState {
        CacheState {
            ramps: store_entries(self.store),
            order: self.order@,
            held: self.luts@,
            lent: self.lent@,
            changed: self.has_changed,
            epoch: self.epoch,
        }
    }
}

impl GradientRampCache {
    /// Creates an empty cache, at epoch 0 and with nothing to upload.
    pub fn new() -> (cache: Self)
        ensures
            cache@ == CacheState::empty(),
            cache@.wf(),
    {
        let cache = Self {
            store: store_new(),
            luts: Vec::new(),
            has_changed: false,
            epoch: 0,
            order: Ghost(Seq::empty()),
            lent: Ghost(None),
        };
        assert(cache@.order.take(0) =~= cache@.order);
        cache
    }

    /// Looks `key` up without generating anything: where its ramp is live,
    /// marks it as used in the running frame and returns its offset and
    /// width in texels.
    pub fn lookup(&mut self, key: &RampKey) -> (found: Option<(u32, u32)>)
        requires
            old(self)@.wf(),
            old(self)@.lent is None,
        ensures
            final(self)@.wf(),
            match found {
                Some(location) => old(self)@.ramps.contains_key(*key) && final(self)@ == old(
                    self,
                )@.after_hit(*key) && location == old(self)@.location(*key),
                None => !old(self)@.ramps.contains_key(*key) && final(self)@ == old(self)@,
            },
    {
        let epoch = self.epoch;
        if let Some(ramp) = store_get_mut(&mut self.store, key) {
            ramp.last_used = epoch;
            let location = (ramp.lut_start, ramp.width);
            proof {
                lemma_hit_keeps_wf(old(self)@, *key);
            }
            return Some(location);
        }
        None
    }

    /// Takes the ramp that was generated for `key`, which is not live, into
    /// the cache: its bytes go to the end of the buffer. Returns its offset
    /// and width in texels.
    pub fn insert_ramp(&mut self, key: &RampKey, texels: &[[u8; 4]]) -> (location: (u32, u32))
        requires
            old(self)@.wf(),
            old(self)@.lent is None,
            !old(self)@.ramps.contains_key(*key),
            old(self)@.has_room_for(texels@),
        ensures
            final(self)@.wf(),
            final(self)@ == old(self)@.after_miss(*key, texels@),
            location == (old(self)@.total_texels() as u32, texels@.len() as u32),
            location == final(self)@.location(*key),
    {
        proof {
            lemma_miss_keeps_wf(self@, *key, texels@);
        }
        let lut_start = (self.luts.len() / 4) as u32;
        let width = append_lut(texels, &mut self.luts) as u32;
        store_insert(
            &mut self.store,
            clone_key(key),
            CachedRamp { lut_start, width, last_used: self.epoch },
        );
        self.order = Ghost(self.order@.push(*key));
        self.has_changed = true;
        (lut_start, width)
    }

    /// Returns the offset and width, in texels, of the ramp of `key` in the
    /// packed buffer.
    ///
    /// A live ramp is marked as used in the running frame and nothing is
    /// generated. Otherwise `generate` is called, once, and the ramp that it
    /// gives is appended to the buffer.
    pub fn get_or_create_ramp<'a, F: FnOnce() -> &'a [[u8; 4]]>(
        &mut self,
        key: &RampKey,
        generate: F,
    ) -> (location: (u32, u32))
        requires
            old(self)@.wf(),
            old(self)@.lent is None,
            !old(self)@.ramps.contains_key(*key) ==> generate.requires(()),
            !old(self)@.ramps.contains_key(*key) ==> forall|texels: &'a [[u8; 4]]|
                generate.ensures((), texels) ==> old(self)@.has_room_for(texels@),
        ensures
            final(self)@.wf(),
            old(self)@.ramps.contains_key(*key) ==> final(self)@ == old(self)@.after_hit(*key),
            !old(self)@.ramps.contains_key(*key) ==> exists|texels: &'a [[u8; 4]]|
                generate.ensures((), texels) && final(self)@ == old(self)@.after_miss(
                    *key,
                    texels@,
                ),
            location == final(self)@.location(*key),
    {
        if let Some(location) = self.lookup(key) {
            return location;
        }
        let texels = generate();
        self.insert_ramp(key, texels)
    }

    /// Ends the running frame: drops the ramps that were not looked up in
    /// it and, where any was dropped, packs the others again without gaps.
    pub fn maintain(&mut self)
        requires
            old(self)@.wf(),
            old(self)@.lent is None,
            old(self)@.epoch < u64::MAX,
        ensures
            final(self)@.wf(),
            old(self)@.is_maintained_as(final(self)@),
    {
        let ghost before = self@;
        let ghost kept = before.survivors();
        let len_before = store_len(&self.store);
        store_retain_used_since(&mut self.store, self.epoch);
        proof {
            assert(store_entries(self.store) =~= kept);
            lemma_eviction_count(before);
        }
        if store_len(&self.store) < len_before {
            // Rebuild the buffer from the ramps that stay.
            let old_luts = &self.luts;
            let mut new_luts: Vec<u8> = Vec::with_capacity(old_luts.len());
            let mut items = store_iter_mut(&mut self.store);
            let ghost start = items@;
            let ghost order = Seq::new(start.len(), |j: int| *start[j].0);
            let count = items.len();
            let mut i: usize = 0;
            proof {
                lemma_pack_none(before, order);
                assert(is_kept_order(before, order)) by {
                    reveal(is_kept_order);
                    assert forall|j: int| 0 <= j < count implies kept.contains_key(
                        #[trigger] order[j],
                    ) by {
                        assert(kept.contains_key(*start[j].0));
                    }
                    assert forall|j: int, k: int| 0 <= j < k < count implies order[j]
                        != order[k] by {
                        assert(*start[j].0 != *start[k].0);
                    }
                }
            }
            while i < count
                invariant
                    kept == before.survivors(),
                    old_luts@ == before.held,
                    old_luts@.len() <= usize::MAX,
                    count == items@.len(),
                    count == order.len(),
                    i <= count,
                    is_kept_order(before, order),
                    is_packed_prefix(before, order, i as int, new_luts@),
                    forall|j: int|
                        0 <= j < count ==> *(#[trigger] items@[j]).0 == order[j]
                            && *final(items@[j].1) == *final(start[j].1),
                    forall|j: int| i <= j < count ==> *(#[trigger] items@[j]).1 == kept[order[j]],
                    forall|j: int|
                        0 <= j < i ==> *(#[trigger] items@[j]).1 == kept[order[j]].moved_to(
                            packed_texels(kept, order.take(j)) as u32,
                        ),
                decreases count - i,
            {
                let ghost packed = new_luts@;
                proof {
                    lemma_kept_region(before, order, i as int);
                    lemma_kept_offsets(before, order, i as int);
                    lemma_packed_prefix_len(before, order, i as int, packed);
                    lemma_pack_next(before, order, i as int, packed);
                    assert(*items@[i as int].1 == kept[order[i as int]]);
                }
                let ramp: CachedRamp = *items[i].1;
                let src_start = ramp.lut_start as usize * 4;
                let src_end = src_start + ramp.width as usize * 4;
                items[i].1.lut_start = (new_luts.len() / 4) as u32;
                new_luts.extend_from_slice(slice_subrange(old_luts.as_slice(), src_start, src_end));
                proof {
                    assert(new_luts@ =~= packed + before.ramp_bytes(order[i as int]));
                }
                i += 1;
            }
            self.luts = new_luts;
            self.has_changed = true;
            self.order = Ghost(order);
            proof {
                let next = self@;
                assert forall|key: RampKey| #[trigger] kept.contains_key(key) implies order.contains(
                    key,
                ) by {
                    let j = choose|j: int| 0 <= j < start.len() && *(#[trigger] start[j]).0 == key;
                    assert(order[j] == key);
                }
                assert forall|j: int| 0 <= j < order.len() implies #[trigger] next.ramps[order[j]]
                    == kept[order[j]].moved_to(packed_texels(kept, order.take(j)) as u32) by {
                    assert(*items@[j].0 == order[j]);
                    assert(next.ramps[*start[j].0] == *final(start[j].1));
                }
                lemma_repacked(before, next);
            }
        } else {
            proof {
                assert(kept =~= before.ramps);
                assert(self@ == before);
            }
        }
        self.epoch += 1;
        proof {
            assert(self@.wf());
        }
    }

    /// The size of the packed buffer that the cache holds, in bytes.
    pub fn luts_size(&self) -> (size: usize)
        ensures
            size == self@.held.len(),
    {
        self.luts.len()
    }

    /// Whether the cache holds no bytes.
    pub fn is_empty(&self) -> (empty: bool)
        ensures
            empty == (self@.held.len() == 0),
    {
        self.luts.is_empty()
    }

    /// The number of the running frame: how often maintenance has run.
    pub fn epoch(&self) -> (epoch: u64)
        ensures
            epoch == self@.epoch,
    {
        self.epoch
    }

    /// Whether the buffer differs from what was last uploaded.
    pub fn has_changed(&self) -> (changed: bool)
        ensures
            changed == self@.changed,
    {
        self.has_changed
    }

    /// Records that the buffer was uploaded.
    pub fn mark_synced(&mut self)
        ensures
            final(self)@ == old(self)@.after_sync(),
    {
        self.has_changed = false;
    }

    /// Hands the packed buffer out and leaves an empty one in its place.
    pub fn take_luts(&mut self) -> (luts: Vec<u8>)
        requires
            old(self)@.wf(),
            old(self)@.lent is None,
        ensures
            luts@ == old(self)@.held,
            final(self)@ == old(self)@.after_take(),
            final(self)@.wf(),
    {
        let mut luts = Vec::new();
        core::mem::swap(&mut self.luts, &mut luts);
        self.lent = Ghost(Some(luts@));
        luts
    }

    /// Takes back the buffer that [`take_luts`](Self::take_luts) handed out.
    pub fn restore_luts(&mut self, luts: Vec<u8>)
        requires
            old(self)@.wf(),
            old(self)@.lent == Some(luts@),
        ensures
            final(self)@ == old(self)@.after_restore(),
            final(self)@.wf(),
    {
        self.luts = luts;
        self.lent = Ghost(None);
    }
}

} // verus!
