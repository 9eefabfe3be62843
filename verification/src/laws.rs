//! What holds of the cache over whole frames.
//!
//! A frame is a run of lookups that ends with one call of maintenance. The
//! statements here are about the states of [`crate::model`], through which
//! the contracts of [`crate::cache`] speak.

use crate::model::{
    lemma_hit_keeps_wf, lemma_miss_keeps_wf, lemma_packed_take_mono, lemma_packed_take_step,
    lemma_region_in_bounds, packed_texels, CacheState,
};
use crate::ramp::CachedRamp;
use crate::store::RampKey;
use vstd::prelude::*;

verus! {

/// One lookup: the key asked for, and the texels that the generator gives
/// for it (used only where the key is not live).
pub struct Lookup {
    pub key: RampKey,
    pub texels: Seq<[u8; 4]>,
}

impl CacheState {
    /// The state after a run of lookups, first to last.
    pub open spec fn after_lookups(self, lookups: Seq<Lookup>) -> CacheState
        decreases lookups.len(),
    {
        if lookups.len() == 0 {
            self
        } else {
            self.after_lookups(lookups.drop_last()).after_lookup(
                lookups.last().key,
                lookups.last().texels,
            )
        }
    }

    /// Whether every ramp that a run of lookups generates can be addressed.
    pub open spec fn has_room_for_all(self, lookups: Seq<Lookup>) -> bool
        decreases lookups.len(),
    {
        if lookups.len() == 0 {
            true
        } else {
            let reached = self.after_lookups(lookups.drop_last());
            &&& self.has_room_for_all(lookups.drop_last())
            &&& reached.ramps.contains_key(lookups.last().key) || reached.has_room_for(
                lookups.last().texels,
            )
        }
    }
}

/// A run of lookups in two parts is the first part, then the second.
pub proof fn lemma_lookups_split(state: CacheState, lookups: Seq<Lookup>, at: int)
    requires
        0 <= at <= lookups.len(),
    ensures
        state.after_lookups(lookups) == state.after_lookups(lookups.take(at)).after_lookups(
            lookups.skip(at),
        ),
    decreases lookups.len(),
{
    if at == lookups.len() {
        assert(lookups.take(at) =~= lookups);
    } else {
        lemma_lookups_split(state, lookups.drop_last(), at);
        assert(lookups.drop_last().take(at) =~= lookups.take(at));
        assert(lookups.skip(at).drop_last() =~= lookups.drop_last().skip(at));
    }
}

/// Lookups keep a live ramp live and where it is, and never make its last
/// use earlier; they leave the epoch alone.
pub proof fn lemma_lookups_keep_place(state: CacheState, key: RampKey, lookups: Seq<Lookup>)
    requires
        state.ramps.contains_key(key),
    ensures
        state.after_lookups(lookups).ramps.contains_key(key),
        state.after_lookups(lookups).location(key) == state.location(key),
        state.after_lookups(lookups).epoch == state.epoch,
        state.is_used_this_frame(key) ==> state.after_lookups(lookups).is_used_this_frame(key),
    decreases lookups.len(),
{
    if lookups.len() > 0 {
        lemma_lookups_keep_place(state, key, lookups.drop_last());
    }
}

/// Lookups of other keys neither bring a key into the cache nor mark it as
/// used.
pub proof fn lemma_lookups_skip_others(state: CacheState, key: RampKey, lookups: Seq<Lookup>)
    requires
        forall|i: int| 0 <= i < lookups.len() ==> (#[trigger] lookups[i]).key != key,
    ensures
        state.after_lookups(lookups).epoch == state.epoch,
        state.after_lookups(lookups).ramps.contains_key(key) == state.ramps.contains_key(key),
        state.after_lookups(lookups).is_used_this_frame(key) == state.is_used_this_frame(key),
    decreases lookups.len(),
{
    if lookups.len() > 0 {
        lemma_lookups_skip_others(state, key, lookups.drop_last());
        assert(lookups.last().key != key);
    }
}

/// Lookups keep the invariant, as long as every generated ramp can be
/// addressed and the cache holds its buffer.
pub proof fn lemma_lookups_keep_wf(state: CacheState, lookups: Seq<Lookup>)
    requires
        state.wf(),
        state.lent is None,
        state.has_room_for_all(lookups),
    ensures
        state.after_lookups(lookups).wf(),
        state.after_lookups(lookups).lent is None,
    decreases lookups.len(),
{
    if lookups.len() > 0 {
        let reached = state.after_lookups(lookups.drop_last());
        lemma_lookups_keep_wf(state, lookups.drop_last());
        if reached.ramps.contains_key(lookups.last().key) {
            lemma_hit_keeps_wf(reached, lookups.last().key);
        } else {
            lemma_miss_keeps_wf(reached, lookups.last().key, lookups.last().texels);
        }
    }
}

/// A key that was looked up is found at the same offset and with the same
/// width when it is looked up again before the frame ends, whatever was
/// looked up in between.
pub proof fn lemma_lookup_is_stable(
    state: CacheState,
    key: RampKey,
    texels: Seq<[u8; 4]>,
    between: Seq<Lookup>,
    again: Seq<[u8; 4]>,
)
    ensures
        state.after_lookup(key, texels).after_lookups(between).lookup_location(key, again)
            == state.lookup_location(key, texels),
{
    lemma_lookups_keep_place(state.after_lookup(key, texels), key, between);
}

/// The buffer is as long as the live ramps are wide, at four bytes a texel.
pub proof fn lemma_buffer_holds_live_ramps(state: CacheState)
    requires
        state.wf(),
    ensures
        state.luts().len() == 4 * state.total_texels(),
{
}

/// The regions of two live ramps do not overlap.
pub proof fn lemma_regions_disjoint(state: CacheState, one: RampKey, other: RampKey)
    requires
        state.is_packed(),
        state.ramps.contains_key(one),
        state.ramps.contains_key(other),
        one != other,
    ensures
        state.ramps[one].lut_start + state.ramps[one].width <= state.ramps[other].lut_start
            || state.ramps[other].lut_start + state.ramps[other].width
            <= state.ramps[one].lut_start,
{
    assert(state.order.contains(one));
    assert(state.order.contains(other));
    let i = state.order.index_of(one);
    let j = state.order.index_of(other);
    assert(state.ramps[state.order[i]].lut_start == state.offset_at(i));
    assert(state.ramps[state.order[j]].lut_start == state.offset_at(j));
    if i < j {
        lemma_packed_take_step(state.ramps, state.order, i);
        lemma_packed_take_mono(state.ramps, state.order, i + 1, j);
    } else {
        lemma_packed_take_step(state.ramps, state.order, j);
        lemma_packed_take_mono(state.ramps, state.order, j + 1, i);
    }
}

/// Every texel of the buffer belongs to a live ramp.
pub proof fn lemma_regions_cover(state: CacheState, texel: int) -> (key: RampKey)
    requires
        state.is_packed(),
        0 <= texel < state.total_texels(),
    ensures
        state.ramps.contains_key(key),
        state.ramps[key].lut_start <= texel < state.ramps[key].lut_start + state.ramps[key].width,
{
    let i = lemma_offset_search(state.ramps, state.order, texel);
    let key = state.order[i];
    assert(state.order.contains(key));
    assert(state.ramps[state.order[i]].lut_start == state.offset_at(i));
    lemma_packed_take_step(state.ramps, state.order, i);
    key
}

/// The place in `order` of the ramp that holds a given texel.
proof fn lemma_offset_search(ramps: Map<RampKey, CachedRamp>, order: Seq<RampKey>, texel: int) -> (i:
    int)
    requires
        0 <= texel < packed_texels(ramps, order),
    ensures
        0 <= i < order.len(),
        packed_texels(ramps, order.take(i)) <= texel < packed_texels(ramps, order.take(i + 1)),
    decreases order.len(),
{
    let n = order.len() as int;
    assert(order.take(n) =~= order);
    assert(order.take(n - 1) =~= order.drop_last());
    if texel >= packed_texels(ramps, order.drop_last()) {
        n - 1
    } else {
        let i = lemma_offset_search(ramps, order.drop_last(), texel);
        assert(order.drop_last().take(i) =~= order.take(i));
        assert(order.drop_last().take(i + 1) =~= order.take(i + 1));
        i
    }
}

/// A lookup of a key that is not live leaves the other ramps where they are,
/// with their bytes.
pub proof fn lemma_miss_keeps_others(
    state: CacheState,
    key: RampKey,
    texels: Seq<[u8; 4]>,
    other: RampKey,
)
    requires
        state.is_packed(),
        state.lent is None,
        state.ramps.contains_key(other),
        other != key,
    ensures
        state.after_miss(key, texels).ramps[other] == state.ramps[other],
        state.after_miss(key, texels).ramp_bytes(other) == state.ramp_bytes(other),
{
    lemma_region_in_bounds(state, other);
    assert(state.after_miss(key, texels).ramp_bytes(other) =~= state.ramp_bytes(other));
}

/// A ramp that is alone in the cache lies at the start of the buffer and
/// fills it.
pub proof fn lemma_lone_ramp_fills_buffer(state: CacheState, key: RampKey)
    requires
        state.is_packed(),
        forall|other: RampKey| #[trigger] state.ramps.contains_key(other) <==> other == key,
    ensures
        state.ramps[key].lut_start == 0,
        state.luts().len() == 4 * state.ramps[key].width,
{
    let order = state.order;
    assert(state.ramps.contains_key(key));
    assert(order.contains(key));
    let i = order.index_of(key);
    if order.len() > 1 {
        let j = if i == 0 { 1 } else { 0int };
        assert(order.contains(order[j]));
        assert(state.ramps.contains_key(order[j]));
    }
    assert(order.take(0) =~= Seq::<RampKey>::empty());
    assert(order.drop_last() =~= Seq::<RampKey>::empty());
    assert(state.ramps[order[0]].lut_start == state.offset_at(0));
}

/// Handing the buffer out and taking it back leaves the cache as it was.
pub proof fn lemma_take_then_restore(state: CacheState)
    requires
        state.lent is None,
    ensures
        state.after_take().luts() == state.luts(),
        state.after_take().after_restore() == state,
{
}

/// A new frame begins with no ramp marked as used.
pub proof fn lemma_frame_starts_unused(previous: CacheState, state: CacheState, key: RampKey)
    requires
        previous.wf(),
        previous.is_maintained_as(state),
    ensures
        !state.is_used_this_frame(key),
{
    if state.ramps.contains_key(key) {
        if previous.evicts() {
            assert(previous.survivors().dom().contains(key));
        }
        assert(previous.ramps.contains_key(key));
    }
}

/// After maintenance, a key that was not looked up since the maintenance
/// before is not in the cache.
pub proof fn lemma_unused_key_is_dropped(
    previous: CacheState,
    state: CacheState,
    lookups: Seq<Lookup>,
    next: CacheState,
    key: RampKey,
)
    requires
        previous.wf(),
        previous.is_maintained_as(state),
        forall|i: int| 0 <= i < lookups.len() ==> (#[trigger] lookups[i]).key != key,
        state.after_lookups(lookups).is_maintained_as(next),
    ensures
        !next.ramps.contains_key(key),
{
    lemma_frame_starts_unused(previous, state, key);
    lemma_lookups_skip_others(state, key, lookups);
    let reached = state.after_lookups(lookups);
    if reached.evicts() {
        assert(!reached.survivors().dom().contains(key));
    }
}

/// In the first frame of a cache, too, a key that was not looked up is not
/// in the cache after maintenance.
pub proof fn lemma_unused_key_is_absent_at_first(
    lookups: Seq<Lookup>,
    next: CacheState,
    key: RampKey,
)
    requires
        forall|i: int| 0 <= i < lookups.len() ==> (#[trigger] lookups[i]).key != key,
        CacheState::empty().after_lookups(lookups).is_maintained_as(next),
    ensures
        !next.ramps.contains_key(key),
{
    lemma_lookups_skip_others(CacheState::empty(), key, lookups);
    let reached = CacheState::empty().after_lookups(lookups);
    if reached.evicts() {
        assert(!reached.survivors().dom().contains(key));
    }
}

/// After maintenance, a key that was looked up in the frame is still in the
/// cache, with the width that the lookup returned and a region that lies
/// inside the buffer.
pub proof fn lemma_used_key_survives(
    state: CacheState,
    lookups: Seq<Lookup>,
    at: int,
    next: CacheState,
)
    requires
        state.wf(),
        state.lent is None,
        state.has_room_for_all(lookups),
        0 <= at < lookups.len(),
        state.after_lookups(lookups).is_maintained_as(next),
    ensures
        next.ramps.contains_key(lookups[at].key),
        next.location(lookups[at].key).1 == state.after_lookups(lookups.take(at)).lookup_location(
            lookups[at].key,
            lookups[at].texels,
        ).1,
        4 * (next.location(lookups[at].key).0 + next.location(lookups[at].key).1)
            <= next.luts().len(),
{
    let key = lookups[at].key;
    let found = state.after_lookups(lookups.take(at + 1));
    let reached = state.after_lookups(lookups);
    assert(lookups.take(at + 1).drop_last() =~= lookups.take(at));
    assert(lookups.take(at + 1).last() == lookups[at]);
    assert(found.is_used_this_frame(key));
    lemma_lookups_split(state, lookups, at + 1);
    lemma_lookups_keep_place(found, key, lookups.skip(at + 1));
    lemma_lookups_keep_wf(state, lookups);
    assert(reached.is_used_this_frame(key));
    if reached.evicts() {
        assert(reached.survivors().dom().contains(key));
    }
    lemma_region_in_bounds(next, key);
}

/// Maintenance leaves every ramp that stays its width and its bytes.
pub proof fn lemma_maintenance_keeps_bytes(state: CacheState, next: CacheState, key: RampKey)
    requires
        state.is_maintained_as(next),
        next.ramps.contains_key(key),
    ensures
        state.ramps.contains_key(key),
        next.ramps[key].width == state.ramps[key].width,
        next.ramp_bytes(key) == state.ramp_bytes(key),
{
    if state.evicts() {
        assert(state.survivors().dom().contains(key));
    }
}

/// Once an upload is acknowledged, the cache reports no change, and
/// acknowledging again changes nothing.
pub proof fn lemma_synced_stays_synced(state: CacheState)
    ensures
        !state.after_sync().changed,
        state.after_sync().after_sync() == state.after_sync(),
{
}

} // verus!
