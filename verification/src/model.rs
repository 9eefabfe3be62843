//! The mathematical state of the cache, and what each operation does to it.

use crate::ramp::{texel_bytes, CachedRamp};
use crate::store::RampKey;
use vstd::prelude::*;

verus! {

/// The texels of the ramps of `order`, summed: how far into the buffer a
/// ramp lies that is packed behind them.
pub open spec fn packed_texels(ramps: Map<RampKey, CachedRamp>, order: Seq<RampKey>) -> nat
    decreases order.len(),
{
    if order.len() == 0 {
        0
    } else {
        packed_texels(ramps, order.drop_last()) + ramps[order.last()].width as nat
    }
}

/// The byte at which place `i` of `order` begins in a buffer packed in that
/// order.
pub open spec fn byte_offset(ramps: Map<RampKey, CachedRamp>, order: Seq<RampKey>, i: int) -> int {
    4 * (packed_texels(ramps, order.take(i)) as int)
}

/// The state of a cache.
#[verifier::ext_equal]
pub struct CacheState {
    /// The live ramps, by identity.
    pub ramps: Map<RampKey, CachedRamp>,
    /// The live ramps in the order in which they lie in the buffer.
    pub order: Seq<RampKey>,
    /// The bytes that the cache holds itself.
    pub held: Seq<u8>,
    /// The bytes that the cache has handed out for an upload, while it has.
    pub lent: Option<Seq<u8>>,
    /// Whether the buffer differs from what was last uploaded.
    pub changed: bool,
    /// The number of the running frame.
    pub epoch: u64,
}

impl CacheState {
    /// The state of a new cache.
    pub open spec fn empty() -> CacheState {
        CacheState {
            ramps: Map::empty(),
            order: Seq::empty(),
            held: Seq::empty(),
            lent: None,
            changed: false,
            epoch: 0,
        }
    }

    /// The packed buffer, whoever holds it.
    pub open spec fn luts(self) -> Seq<u8> {
        match self.lent {
            Some(bytes) => bytes,
            None => self.held,
        }
    }

    /// The texels of all live ramps.
    pub open spec fn total_texels(self) -> nat {
        packed_texels(self.ramps, self.order)
    }

    /// The texels of the ramps that lie before place `i` of the order.
    pub open spec fn offset_at(self, i: int) -> nat {
        packed_texels(self.ramps, self.order.take(i))
    }

    /// The buffer holds the live ramps, each once, back to back in `order`,
    /// and nothing else.
    pub open spec fn is_packed(self) -> bool {
        &&& self.order.no_duplicates()
        &&& forall|key: RampKey|
            #![trigger self.ramps.contains_key(key)]
            #![trigger self.order.contains(key)]
            self.ramps.contains_key(key) <==> self.order.contains(key)
        &&& forall|i: int|
            0 <= i < self.order.len() ==> (#[trigger] self.ramps[self.order[i]]).lut_start
                == self.offset_at(i)
        &&& self.total_texels() <= u32::MAX
        &&& self.luts().len() == 4 * self.total_texels()
        &&& self.lent is Some ==> self.held.len() == 0
    }

    /// The invariant of the cache.
    pub open spec fn wf(self) -> bool {
        &&& self.ramps.dom().finite()
        &&& self.is_packed()
        &&& forall|key: RampKey| #[trigger]
            self.ramps.contains_key(key) ==> self.ramps[key].last_used <= self.epoch
    }

    /// Where the ramp of a live key lies: offset and width, in texels.
    pub open spec fn location(self, key: RampKey) -> (u32, u32) {
        (self.ramps[key].lut_start, self.ramps[key].width)
    }

    /// The bytes of the ramp of a live key.
    pub open spec fn ramp_bytes(self, key: RampKey) -> Seq<u8> {
        self.luts().subrange(
            4 * self.ramps[key].lut_start,
            4 * (self.ramps[key].lut_start + self.ramps[key].width),
        )
    }

    /// Whether `key` is live and was looked up in the running frame.
    pub open spec fn is_used_this_frame(self, key: RampKey) -> bool {
        self.ramps.contains_key(key) && self.ramps[key].is_used_since(self.epoch)
    }

    /// Whether a ramp of these texels can still be addressed: offsets and
    /// widths are 32-bit texel counts.
    pub open spec fn has_room_for(self, texels: Seq<[u8; 4]>) -> bool {
        self.total_texels() + texels.len() <= u32::MAX
    }

    /// The state after a lookup of a live key: the ramp is marked as used in
    /// the running frame.
    pub open spec fn after_hit(self, key: RampKey) -> CacheState {
        CacheState { ramps: self.ramps.insert(key, self.ramps[key].touched(self.epoch)), ..self }
    }

    /// The record made for a ramp of `texels` that is generated now.
    pub open spec fn new_ramp(self, texels: Seq<[u8; 4]>) -> CachedRamp {
        CachedRamp {
            width: texels.len() as u32,
            lut_start: (self.held.len() / 4) as u32,
            last_used: self.epoch,
        }
    }

    /// The state after a lookup of a key that is not live, for which `texels`
    /// were generated: they lie at the end of the buffer.
    pub open spec fn after_miss(self, key: RampKey, texels: Seq<[u8; 4]>) -> CacheState {
        CacheState {
            ramps: self.ramps.insert(key, self.new_ramp(texels)),
            order: self.order.push(key),
            held: self.held + texel_bytes(texels),
            changed: true,
            ..self
        }
    }

    /// The state after a lookup of `key`, where `texels` is what the
    /// generator gives for it.
    pub open spec fn after_lookup(self, key: RampKey, texels: Seq<[u8; 4]>) -> CacheState {
        if self.ramps.contains_key(key) {
            self.after_hit(key)
        } else {
            self.after_miss(key, texels)
        }
    }

    /// What a lookup of `key` returns, where `texels` is what the generator
    /// gives for it.
    pub open spec fn lookup_location(self, key: RampKey, texels: Seq<[u8; 4]>) -> (u32, u32) {
        self.after_lookup(key, texels).location(key)
    }

    /// The ramps that the end of the running frame keeps: those that were
    /// looked up in it.
    pub open spec fn survivors(self) -> Map<RampKey, CachedRamp> {
        Map::new(|key: RampKey| self.is_used_this_frame(key), |key: RampKey| self.ramps[key])
    }

    /// Whether the end of the running frame drops a ramp.
    pub open spec fn evicts(self) -> bool {
        exists|key: RampKey| #[trigger] self.ramps.contains_key(key) && !self.is_used_this_frame(key)
    }

    /// Whether `next` is a state in which the end of the running frame may
    /// leave the cache.
    ///
    /// The epoch goes up by one. Where no ramp is dropped nothing else
    /// changes. Where one is, exactly the ramps that were looked up in the
    /// frame stay, each with its width, its last use and its bytes; they are
    /// packed again, in an order that is not fixed; and the buffer counts as
    /// changed.
    pub open spec fn is_maintained_as(self, next: CacheState) -> bool {
        &&& next.epoch == self.epoch + 1
        &&& next.lent == self.lent
        &&& if self.evicts() {
            &&& next.changed
            &&& next.is_packed()
            &&& next.ramps.dom() == self.survivors().dom()
            &&& forall|key: RampKey| #[trigger]
                next.ramps.contains_key(key) ==> {
                    &&& next.ramps[key].width == self.ramps[key].width
                    &&& next.ramps[key].last_used == self.ramps[key].last_used
                    &&& next.ramp_bytes(key) == self.ramp_bytes(key)
                }
        } else {
            next == self.at_next_epoch()
        }
    }

    /// The same state in the next frame.
    pub open spec fn at_next_epoch(self) -> CacheState {
        CacheState { epoch: (self.epoch + 1) as u64, ..self }
    }

    /// The state after the consumer has acknowledged an upload.
    pub open spec fn after_sync(self) -> CacheState {
        CacheState { changed: false, ..self }
    }

    /// The state after the buffer was handed out.
    pub open spec fn after_take(self) -> CacheState {
        CacheState { held: Seq::empty(), lent: Some(self.held), ..self }
    }

    /// The state after the buffer that was handed out came back.
    pub open spec fn after_restore(self) -> CacheState {
        CacheState { held: self.luts(), lent: None, ..self }
    }
}

/// How the texel count grows with one more ramp at the end.
pub proof fn lemma_packed_push(ramps: Map<RampKey, CachedRamp>, order: Seq<RampKey>, key: RampKey)
    ensures
        packed_texels(ramps, order.push(key)) == packed_texels(ramps, order) + ramps[key].width,
{
    assert(order.push(key).drop_last() =~= order);
}

/// The texel count looks at the widths of the ramps in `order` only.
pub proof fn lemma_packed_same_widths(
    ramps: Map<RampKey, CachedRamp>,
    other: Map<RampKey, CachedRamp>,
    order: Seq<RampKey>,
)
    requires
        forall|i: int| 0 <= i < order.len() ==> ramps[#[trigger] order[i]].width == other[order[i]].width,
    ensures
        packed_texels(ramps, order) == packed_texels(other, order),
    decreases order.len(),
{
    if order.len() > 0 {
        lemma_packed_same_widths(ramps, other, order.drop_last());
    }
}

/// One step of the offsets along `order`.
pub proof fn lemma_packed_take_step(ramps: Map<RampKey, CachedRamp>, order: Seq<RampKey>, i: int)
    requires
        0 <= i < order.len(),
    ensures
        packed_texels(ramps, order.take(i + 1)) == packed_texels(ramps, order.take(i))
            + ramps[order[i]].width,
{
    assert(order.take(i + 1).drop_last() =~= order.take(i));
}

/// Offsets along `order` never go down, and end at the whole count.
pub proof fn lemma_packed_take_le(ramps: Map<RampKey, CachedRamp>, order: Seq<RampKey>, i: int)
    requires
        0 <= i <= order.len(),
    ensures
        packed_texels(ramps, order.take(i)) <= packed_texels(ramps, order),
    decreases order.len() - i,
{
    if i == order.len() {
        assert(order.take(i) =~= order);
    } else {
        lemma_packed_take_step(ramps, order, i);
        lemma_packed_take_le(ramps, order, i + 1);
    }
}

/// Offsets along `order` never go down.
pub proof fn lemma_packed_take_mono(
    ramps: Map<RampKey, CachedRamp>,
    order: Seq<RampKey>,
    i: int,
    j: int,
)
    requires
        0 <= i <= j <= order.len(),
    ensures
        packed_texels(ramps, order.take(i)) <= packed_texels(ramps, order.take(j)),
{
    lemma_packed_take_le(ramps, order.take(j), i);
    assert(order.take(j).take(i) =~= order.take(i));
}

/// Taking one ramp out of `order` takes its width out of the count.
pub proof fn lemma_packed_remove(ramps: Map<RampKey, CachedRamp>, order: Seq<RampKey>, i: int)
    requires
        0 <= i < order.len(),
    ensures
        packed_texels(ramps, order.remove(i)) + ramps[order[i]].width == packed_texels(
            ramps,
            order,
        ),
    decreases order.len(),
{
    if i == order.len() - 1 {
        assert(order.remove(i) =~= order.drop_last());
    } else {
        lemma_packed_remove(ramps, order.drop_last(), i);
        assert(order.remove(i).drop_last() =~= order.drop_last().remove(i));
        assert(order.remove(i).last() == order.last());
    }
}

/// Ramps picked from `all`, each at most once, have no more texels than
/// `all` has.
pub proof fn lemma_packed_subset(
    ramps: Map<RampKey, CachedRamp>,
    part: Seq<RampKey>,
    all: Seq<RampKey>,
)
    requires
        part.no_duplicates(),
        forall|i: int| 0 <= i < part.len() ==> all.contains(#[trigger] part[i]),
    ensures
        packed_texels(ramps, part) <= packed_texels(ramps, all),
    decreases part.len(),
{
    if part.len() > 0 {
        let key = part.last();
        let rest = part.drop_last();
        let at = all.index_of(key);
        let others = all.remove(at);
        assert forall|i: int| 0 <= i < rest.len() implies others.contains(#[trigger] rest[i]) by {
            assert(rest[i] == part[i]);
            let j = all.index_of(rest[i]);
            assert(all[j] != all[at]);
            if j < at {
                assert(others[j] == rest[i]);
            } else {
                assert(others[j - 1] == rest[i]);
            }
        }
        lemma_packed_subset(ramps, rest, others);
        lemma_packed_remove(ramps, all, at);
    }
}

/// The region of a live ramp lies inside the buffer.
pub proof fn lemma_region_in_bounds(state: CacheState, key: RampKey)
    requires
        state.is_packed(),
        state.ramps.contains_key(key),
    ensures
        4 * (state.ramps[key].lut_start + state.ramps[key].width) <= state.luts().len(),
        state.ramp_bytes(key).len() == 4 * state.ramps[key].width,
{
    let i = state.order.index_of(key);
    assert(state.ramps[state.order[i]].lut_start == state.offset_at(i));
    lemma_packed_take_step(state.ramps, state.order, i);
    lemma_packed_take_le(state.ramps, state.order, i + 1);
}

/// A lookup of a live key keeps the invariant, the buffer and every place.
pub proof fn lemma_hit_keeps_wf(state: CacheState, key: RampKey)
    requires
        state.wf(),
        state.ramps.contains_key(key),
    ensures
        state.after_hit(key).wf(),
{
    let next = state.after_hit(key);
    assert(next.ramps.dom() =~= state.ramps.dom());
    assert forall|i: int| 0 <= i <= next.order.len() implies next.offset_at(i) == state.offset_at(
        i,
    ) by {
        lemma_packed_same_widths(next.ramps, state.ramps, state.order.take(i));
    }
    assert(state.order.take(state.order.len() as int) =~= state.order);
    assert forall|i: int| 0 <= i < next.order.len() implies (#[trigger] next.ramps[next.order[i]]).lut_start
        == next.offset_at(i) by {
        assert(state.ramps[state.order[i]].lut_start == state.offset_at(i));
    }
}

/// A lookup of a key that is not live keeps the invariant where the new ramp
/// can be addressed; the new ramp holds the generated bytes.
pub proof fn lemma_miss_keeps_wf(state: CacheState, key: RampKey, texels: Seq<[u8; 4]>)
    requires
        state.wf(),
        state.lent is None,
        !state.ramps.contains_key(key),
        state.has_room_for(texels),
    ensures
        state.after_miss(key, texels).wf(),
        state.after_miss(key, texels).location(key) == (
            state.total_texels() as u32,
            texels.len() as u32,
        ),
        state.after_miss(key, texels).ramp_bytes(key) == texel_bytes(texels),
{
    let next = state.after_miss(key, texels);
    let n = state.order.len() as int;
    assert(!state.order.contains(key));
    assert forall|i: int| 0 <= i <= n implies next.offset_at(i) == state.offset_at(i) by {
        assert(next.order.take(i) =~= state.order.take(i));
        lemma_packed_same_widths(next.ramps, state.ramps, state.order.take(i));
    }
    assert(state.order.take(n) =~= state.order);
    lemma_packed_push(next.ramps, state.order, key);
    lemma_packed_same_widths(next.ramps, state.ramps, state.order);
    assert forall|i: int| 0 <= i < next.order.len() implies (#[trigger] next.ramps[next.order[i]]).lut_start
        == next.offset_at(i) by {
        if i < n {
            assert(state.order.contains(state.order[i]));
            assert(state.ramps[state.order[i]].lut_start == state.offset_at(i));
        }
    }
    assert forall|other: RampKey|
        #![trigger next.ramps.contains_key(other)]
        #![trigger next.order.contains(other)]
        next.ramps.contains_key(other) <==> next.order.contains(other) by {
        if next.order.contains(other) {
            let i = next.order.index_of(other);
            if i < n {
                assert(state.order.contains(state.order[i]));
            }
        }
        if next.ramps.contains_key(other) {
            if other == key {
                assert(next.order[n] == key);
            } else {
                let i = state.order.index_of(other);
                assert(next.order[i] == other);
            }
        }
    }
    assert(next.ramp_bytes(key) =~= texel_bytes(texels));
}

/// The end of a frame drops a ramp exactly when fewer ramps stay than were
/// live.
pub proof fn lemma_eviction_count(state: CacheState)
    requires
        state.ramps.dom().finite(),
    ensures
        state.survivors().dom().finite(),
        state.survivors().dom().len() <= state.ramps.dom().len(),
        state.evicts() <==> state.survivors().dom().len() < state.ramps.dom().len(),
{
    let live = state.ramps.dom();
    let kept = state.survivors().dom();
    assert(kept.subset_of(live));
    vstd::set_lib::lemma_len_subset(kept, live);
    if state.evicts() {
        let key = choose|key: RampKey| #[trigger]
            state.ramps.contains_key(key) && !state.is_used_this_frame(key);
        assert(kept.subset_of(live.remove(key)));
        vstd::set_lib::lemma_len_subset(kept, live.remove(key));
        vstd::set::axiom_set_remove_len(live, key);
    } else {
        assert forall|key: RampKey| live.contains(key) implies kept.contains(key) by {
            assert(state.ramps.contains_key(key));
        }
        assert(kept =~= live);
    }
}

/// A range of the front part of a sequence is not touched by what is
/// appended.
pub proof fn lemma_append_keeps_front(front: Seq<u8>, back: Seq<u8>, from: int, to: int)
    requires
        0 <= from <= to <= front.len(),
    ensures
        (front + back).subrange(from, to) == front.subrange(from, to),
{
    assert((front + back).subrange(from, to) =~= front.subrange(from, to));
}

/// What is appended to a sequence is its last part.
pub proof fn lemma_append_puts_back(front: Seq<u8>, back: Seq<u8>)
    ensures
        (front + back).subrange(front.len() as int, (front.len() + back.len()) as int) == back,
{
    assert((front + back).subrange(front.len() as int, (front.len() + back.len()) as int) =~= back);
}

/// Byte offsets along `order` never go down.
pub proof fn lemma_byte_offset_mono(
    ramps: Map<RampKey, CachedRamp>,
    order: Seq<RampKey>,
    i: int,
    j: int,
)
    requires
        0 <= i <= j <= order.len(),
    ensures
        0 <= byte_offset(ramps, order, i) <= byte_offset(ramps, order, j),
{
    lemma_packed_take_mono(ramps, order, i, j);
}

/// Whether `buffer` holds, at place `i` of a packing in `order`, the bytes
/// that the ramp had in `state`.
pub open spec fn is_placed(state: CacheState, order: Seq<RampKey>, buffer: Seq<u8>, i: int) -> bool {
    buffer.subrange(
        byte_offset(state.survivors(), order, i),
        byte_offset(state.survivors(), order, i + 1),
    ) == state.ramp_bytes(order[i])
}

/// Whether `buffer` is the first `count` ramps of `order`, packed, each with
/// the bytes it had in `state`.
#[verifier::opaque]
pub open spec fn is_packed_prefix(
    state: CacheState,
    order: Seq<RampKey>,
    count: int,
    buffer: Seq<u8>,
) -> bool {
    &&& buffer.len() == byte_offset(state.survivors(), order, count)
    &&& forall|i: int| 0 <= i < count ==> #[trigger] is_placed(state, order, buffer, i)
}

/// Whether `order` lists ramps that the end of the frame of a packed cache
/// keeps, each once.
#[verifier::opaque]
pub open spec fn is_kept_order(state: CacheState, order: Seq<RampKey>) -> bool {
    &&& state.is_packed()
    &&& state.lent is None
    &&& order.no_duplicates()
    &&& forall|i: int| 0 <= i < order.len() ==> state.survivors().contains_key(#[trigger] order[i])
}

/// Whether `next` holds the ramps that the end of the frame keeps, packed in
/// the order `next.order`, each with the bytes it had in `state`.
pub open spec fn is_repacked(state: CacheState, next: CacheState) -> bool {
    let kept = state.survivors();
    &&& next.lent is None
    &&& next.changed
    &&& next.epoch == state.epoch
    &&& next.ramps.dom() == kept.dom()
    &&& is_kept_order(state, next.order)
    &&& forall|key: RampKey| #[trigger] kept.contains_key(key) ==> next.order.contains(key)
    &&& forall|i: int|
        0 <= i < next.order.len() ==> #[trigger] next.ramps[next.order[i]] == kept[next.order[i]].moved_to(
            packed_texels(kept, next.order.take(i)) as u32,
        )
    &&& is_packed_prefix(state, next.order, next.order.len() as int, next.held)
}

/// The ramps that stay have no more texels than were live, in whatever order
/// they are packed.
pub proof fn lemma_survivors_fit(state: CacheState, order: Seq<RampKey>, i: int)
    requires
        is_kept_order(state, order),
        0 <= i <= order.len(),
    ensures
        packed_texels(state.survivors(), order.take(i)) <= packed_texels(state.survivors(), order),
        packed_texels(state.survivors(), order) <= state.total_texels(),
        state.total_texels() <= u32::MAX,
        byte_offset(state.survivors(), order, i) <= 4 * u32::MAX,
{
    reveal(is_kept_order);
    let kept = state.survivors();
    lemma_packed_take_le(kept, order, i);
    lemma_packed_same_widths(kept, state.ramps, order);
    assert forall|j: int| 0 <= j < order.len() implies state.order.contains(#[trigger] order[j]) by {
        assert(kept.contains_key(order[j]));
        assert(state.ramps.contains_key(order[j]));
    }
    lemma_packed_subset(state.ramps, order, state.order);
}

/// A ramp that stays has its region inside the buffer of `state`.
pub proof fn lemma_kept_region(state: CacheState, order: Seq<RampKey>, i: int)
    requires
        is_kept_order(state, order),
        0 <= i < order.len(),
    ensures
        state.survivors().contains_key(order[i]),
        state.ramps.contains_key(order[i]),
        state.survivors()[order[i]] == state.ramps[order[i]],
        4 * (state.ramps[order[i]].lut_start + state.ramps[order[i]].width) <= state.held.len(),
        state.ramp_bytes(order[i]) == state.held.subrange(
            4 * state.ramps[order[i]].lut_start,
            4 * (state.ramps[order[i]].lut_start + state.ramps[order[i]].width),
        ),
        state.ramp_bytes(order[i]).len() == 4 * state.ramps[order[i]].width,
{
    reveal(is_kept_order);
    assert(state.survivors().contains_key(order[i]));
    lemma_region_in_bounds(state, order[i]);
}

/// One step of the byte offsets of the ramps that stay.
pub proof fn lemma_kept_offsets(state: CacheState, order: Seq<RampKey>, i: int)
    requires
        is_kept_order(state, order),
        0 <= i < order.len(),
    ensures
        byte_offset(state.survivors(), order, i + 1) == byte_offset(state.survivors(), order, i)
            + 4 * state.survivors()[order[i]].width,
        0 <= byte_offset(state.survivors(), order, i),
        byte_offset(state.survivors(), order, i + 1) <= 4 * u32::MAX,
{
    lemma_packed_take_step(state.survivors(), order, i);
    lemma_survivors_fit(state, order, i + 1);
}

/// The empty buffer packs no ramps.
pub proof fn lemma_pack_none(state: CacheState, order: Seq<RampKey>)
    ensures
        is_packed_prefix(state, order, 0, Seq::empty()),
{
    reveal(is_packed_prefix);
    assert(order.take(0) =~= Seq::<RampKey>::empty());
}

/// How long a packed prefix is.
pub proof fn lemma_packed_prefix_len(
    state: CacheState,
    order: Seq<RampKey>,
    count: int,
    buffer: Seq<u8>,
)
    requires
        is_packed_prefix(state, order, count, buffer),
    ensures
        buffer.len() == 4 * packed_texels(state.survivors(), order.take(count)),
{
    reveal(is_packed_prefix);
}

/// Appending the bytes of the next ramp of `order` to a packed prefix packs
/// one ramp more.
pub proof fn lemma_pack_next(state: CacheState, order: Seq<RampKey>, count: int, buffer: Seq<u8>)
    requires
        is_kept_order(state, order),
        0 <= count < order.len(),
        is_packed_prefix(state, order, count, buffer),
    ensures
        is_packed_prefix(state, order, count + 1, buffer + state.ramp_bytes(order[count])),
{
    reveal(is_packed_prefix);
    let kept = state.survivors();
    let piece = state.ramp_bytes(order[count]);
    let longer = buffer + piece;
    lemma_kept_region(state, order, count);
    lemma_kept_offsets(state, order, count);
    assert forall|i: int| 0 <= i < count + 1 implies #[trigger] is_placed(
        state,
        order,
        longer,
        i,
    ) by {
        if i < count {
            assert(is_placed(state, order, buffer, i));
            lemma_byte_offset_mono(kept, order, i, i + 1);
            lemma_byte_offset_mono(kept, order, i + 1, count);
            lemma_append_keeps_front(
                buffer,
                piece,
                byte_offset(kept, order, i),
                byte_offset(kept, order, i + 1),
            );
        } else {
            lemma_append_puts_back(buffer, piece);
        }
    }
}

/// In a cache that was packed again, the offsets are those of the new order.
pub proof fn lemma_repacked_offsets(state: CacheState, next: CacheState, i: int)
    requires
        is_repacked(state, next),
        0 <= i <= next.order.len(),
    ensures
        packed_texels(next.ramps, next.order.take(i)) == packed_texels(
            state.survivors(),
            next.order.take(i),
        ),
        packed_texels(state.survivors(), next.order.take(i)) <= u32::MAX,
{
    let kept = state.survivors();
    let part = next.order.take(i);
    assert forall|j: int| 0 <= j < part.len() implies next.ramps[#[trigger] part[j]].width
        == kept[part[j]].width by {
        assert(part[j] == next.order[j]);
        assert(next.ramps[next.order[j]] == kept[next.order[j]].moved_to(
            packed_texels(kept, next.order.take(j)) as u32,
        ));
    }
    lemma_packed_same_widths(next.ramps, kept, part);
    lemma_survivors_fit(state, next.order, i);
}

/// A cache that was packed again is packed.
pub proof fn lemma_repacked_is_packed(state: CacheState, next: CacheState)
    requires
        is_repacked(state, next),
    ensures
        next.is_packed(),
{
    let kept = state.survivors();
    let order = next.order;
    let n = order.len() as int;
    assert(order.no_duplicates()) by {
        reveal(is_kept_order);
    }
    assert forall|key: RampKey|
        #![trigger next.ramps.contains_key(key)]
        #![trigger next.order.contains(key)]
        next.ramps.contains_key(key) <==> next.order.contains(key) by {
        if next.order.contains(key) {
            let i = order.index_of(key);
            lemma_kept_region(state, order, i);
            assert(kept.dom().contains(key));
        }
        if next.ramps.contains_key(key) {
            assert(kept.dom().contains(key));
            assert(kept.contains_key(key));
        }
    }
    assert forall|i: int| 0 <= i < n implies (#[trigger] next.ramps[next.order[i]]).lut_start
        == next.offset_at(i) by {
        lemma_repacked_offsets(state, next, i);
    }
    lemma_repacked_offsets(state, next, n);
    lemma_packed_prefix_len(state, order, n, next.held);
    assert(order.take(n) =~= order);
}

/// A cache that was packed again holds each ramp with the width, the last
/// use and the bytes that it had.
pub proof fn lemma_repacked_keeps_ramp(state: CacheState, next: CacheState, key: RampKey)
    requires
        is_repacked(state, next),
        next.ramps.contains_key(key),
    ensures
        state.survivors().contains_key(key),
        next.ramps[key].width == state.ramps[key].width,
        next.ramps[key].last_used == state.ramps[key].last_used,
        next.ramp_bytes(key) == state.ramp_bytes(key),
{
    let kept = state.survivors();
    let order = next.order;
    assert(kept.dom().contains(key));
    assert(kept.contains_key(key));
    assert(order.contains(key));
    let i = order.index_of(key);
    lemma_kept_region(state, order, i);
    lemma_kept_offsets(state, order, i);
    lemma_repacked_offsets(state, next, i);
    assert(next.ramps[order[i]] == kept[order[i]].moved_to(
        packed_texels(kept, order.take(i)) as u32,
    ));
    assert(is_placed(state, order, next.held, i)) by {
        reveal(is_packed_prefix);
    }
}

/// Ramps that were packed again make a packed buffer, and the end of the
/// frame may leave the cache so.
pub proof fn lemma_repacked(state: CacheState, next: CacheState)
    requires
        state.wf(),
        state.lent is None,
        state.evicts(),
        state.epoch < u64::MAX,
        is_repacked(state, next),
    ensures
        next.at_next_epoch().wf(),
        state.is_maintained_as(next.at_next_epoch()),
{
    let after = next.at_next_epoch();
    lemma_repacked_is_packed(state, next);
    lemma_eviction_count(state);
    assert(after.is_packed()) by {
        assert forall|i: int| 0 <= i <= after.order.len() implies after.offset_at(i)
            == next.offset_at(i) by {}
    }
    assert forall|key: RampKey| #[trigger] after.ramps.contains_key(key) implies {
        &&& after.ramps[key].width == state.ramps[key].width
        &&& after.ramps[key].last_used == state.ramps[key].last_used
        &&& after.ramps[key].last_used <= after.epoch
        &&& after.ramp_bytes(key) == state.ramp_bytes(key)
    } by {
        lemma_repacked_keeps_ramp(state, next, key);
    }
}

} // verus!
