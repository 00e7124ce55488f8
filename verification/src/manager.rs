//! The store of bitmaps by reference number: anchored bitmaps owned by cast
//! members, ephemeral ones counted by the script values that point at them,
//! and lazily decoded ones that are decoded the first time they are read.
use vstd::prelude::*;
use std::collections::HashMap;
use crate::bitmap::Bitmap;

verus! {

broadcast use vstd::std_specs::hash::group_hash_axioms;

pub type BitmapRef = u32;

pub const INVALID_BITMAP_REF: BitmapRef = 0;

/// A stored bitmap, or the means to decode it on first use.
///
/// A movie's cast is registered all at once when it loads; decoding every
/// compressed member then pays for pictures the first frames never show. A
/// pending slot keeps the decoder and runs it when the bitmap is first read.
pub enum Slot<D> {
    Ready(Bitmap),
    Pending(D),
}

/// The next version number: one more, wrapping to 0 after `u32::MAX`.
pub open spec fn next_version(v: u32) -> u32 {
    if v == u32::MAX {
        0
    } else {
        (v + 1) as u32
    }
}

/// `b` with its version replaced.
pub open spec fn with_version(b: Bitmap, v: u32) -> Bitmap {
    Bitmap { version: v, ..b }
}

/// `HashMap::get_mut`: a mutable reference to the slot stored under `k`,
/// through which writes land in the map; `None` when `k` is absent.
#[verifier::external_body]
fn slot_get_mut<'a, D>(m: &'a mut HashMap<u32, Slot<D>>, k: &u32) -> (r: Option<&'a mut Slot<D>>)
    ensures
        old(m)@.contains_key(*k) ==> r is Some && *r.unwrap() == old(m)@[*k] && final(m)@ == old(
            m,
        )@.insert(*k, *final(r.unwrap())),
        !old(m)@.contains_key(*k) ==> r is None && final(m)@ == old(m)@,
{
    m.get_mut(k)
}

pub struct BitmapManager<D> {
    bitmaps: HashMap<BitmapRef, Slot<D>>,
    ref_counter: BitmapRef,
    /// Every reference handed out so far, clearing included.
    issued: Ghost<Set<BitmapRef>>,
    /// Side table for ephemeral bitmaps, those produced by script getters
    /// such as `(the stage).image`, `image(w, h, d)` or `duplicate()`. The
    /// value is the number of script values currently pointing at the
    /// bitmap; when it drops to zero the bitmap is freed. Bitmaps owned by
    /// cast members are not in this table and are never freed by counting.
    ephemeral_refs: HashMap<BitmapRef, u32>,
}

impl<D: FnOnce() -> Bitmap> BitmapManager<D> {
    /// The stored slots by reference.
    pub closed spec fn slots(&self) -> Map<BitmapRef, Slot<D>> {
        self.bitmaps@
    }

    /// The ephemeral bitmaps and how many script values point at each.
    pub closed spec fn refcounts(&self) -> Map<BitmapRef, u32> {
        self.ephemeral_refs@
    }

    /// The last reference handed out; the next is one more.
    pub closed spec fn counter(&self) -> BitmapRef {
        self.ref_counter
    }

    /// Every reference the store has handed out, across clearing.
    pub closed spec fn issued(&self) -> Set<BitmapRef> {
        self.issued@
    }

    /// Every pending decoder can be run, every ephemeral entry names a
    /// stored bitmap by a reference already handed out, and the references
    /// handed out are exactly 1 up to the counter.
    pub open spec fn wf(&self) -> bool {
        &&& Self::wf_state(self.slots(), self.refcounts(), self.counter())
        &&& forall|q: BitmapRef| #[trigger] self.issued().contains(q) ==> 0 < q <= self.counter()
        &&& forall|q: BitmapRef| #[trigger] self.refcounts().contains_key(q) ==> self.issued().contains(q)
        &&& forall|q: BitmapRef| 0 < q <= self.counter() ==> #[trigger] self.issued().contains(q)
    }

    /// `wf` over the three parts of the state.
    pub open spec fn wf_state(slots: Map<BitmapRef, Slot<D>>, refcounts: Map<BitmapRef, u32>, counter: BitmapRef) -> bool {
        &&& forall|r: BitmapRef| #[trigger] slots.contains_key(r) && slots[r] is Pending
            ==> slots[r]->Pending_0.requires(())
        &&& forall|r: BitmapRef| #[trigger] refcounts.contains_key(r) ==> slots.contains_key(r)
            && 0 < r <= counter
    }

    /// Storing a ready slot, or a pending one whose decoder can run, under a
    /// new or existing reference keeps `wf`, as does a later counter.
    proof fn lemma_wf_store(
        slots: Map<BitmapRef, Slot<D>>,
        refcounts: Map<BitmapRef, u32>,
        counter: BitmapRef,
        r: BitmapRef,
        slot: Slot<D>,
        counter2: BitmapRef,
    )
        requires
            Self::wf_state(slots, refcounts, counter),
            slot is Pending ==> slot->Pending_0.requires(()),
            counter <= counter2,
        ensures
            Self::wf_state(slots.insert(r, slot), refcounts, counter2),
    {
        let s2 = slots.insert(r, slot);
        assert forall|k: BitmapRef| #[trigger] s2.contains_key(k) && s2[k] is Pending implies s2[k]->Pending_0.requires(()) by {
            if k != r {
                assert(slots.contains_key(k));
            }
        }
        assert forall|k: BitmapRef| #[trigger] refcounts.contains_key(k) implies s2.contains_key(k) && 0 < k <= counter2 by {
            assert(slots.contains_key(k));
        }
    }

    /// The issued references stay exactly `(0, counter]` and keep naming
    /// every counted bitmap when references are only ever added and the
    /// counter grows by the one it issues.
    proof fn lemma_issued_kept(
        old_issued: Set<BitmapRef>,
        old_counts: Map<BitmapRef, u32>,
        old_counter: BitmapRef,
        issued: Set<BitmapRef>,
        counts: Map<BitmapRef, u32>,
        counter: BitmapRef,
    )
        requires
            forall|q: BitmapRef| #[trigger] old_issued.contains(q) ==> 0 < q <= old_counter,
            forall|q: BitmapRef| #[trigger] old_counts.contains_key(q) ==> old_issued.contains(q),
            forall|q: BitmapRef| 0 < q <= old_counter ==> #[trigger] old_issued.contains(q),
            old_counter <= counter <= old_counter + 1,
            counter == old_counter || issued.contains(counter),
            forall|q: BitmapRef| #[trigger] issued.contains(q) ==> old_issued.contains(q) || 0 < q <= counter,
            forall|q: BitmapRef| #[trigger] old_issued.contains(q) ==> issued.contains(q),
            forall|q: BitmapRef| #[trigger] counts.contains_key(q) ==> old_counts.contains_key(q) || issued.contains(q),
        ensures
            forall|q: BitmapRef| #[trigger] issued.contains(q) ==> 0 < q <= counter,
            forall|q: BitmapRef| #[trigger] counts.contains_key(q) ==> issued.contains(q),
            forall|q: BitmapRef| 0 < q <= counter ==> #[trigger] issued.contains(q),
    {
        assert forall|q: BitmapRef| 0 < q <= counter implies #[trigger] issued.contains(q) by {
            if q <= old_counter {
                assert(old_issued.contains(q));
            }
        }
        assert forall|q: BitmapRef| #[trigger] issued.contains(q) implies 0 < q <= counter by {
            if old_issued.contains(q) {
            }
        }
        assert forall|q: BitmapRef| #[trigger] counts.contains_key(q) implies issued.contains(q) by {
            if old_counts.contains_key(q) {
                assert(old_issued.contains(q));
            }
        }
    }

    /// What reading slot `r` can give: its bitmap, or what its decoder may return.
    pub open spec fn decodes_to(slot: Slot<D>, b: Bitmap) -> bool {
        match slot {
            Slot::Ready(ready) => b == ready,
            Slot::Pending(decode) => decode.ensures((), b),
        }
    }

    pub fn new() -> (r: Self)
        ensures
            r.wf(),
            r.slots() == Map::<BitmapRef, Slot<D>>::empty(),
            r.refcounts() == Map::<BitmapRef, u32>::empty(),
            r.counter() == 0,
            r.issued() == Set::<BitmapRef>::empty(),
    {
        Self { bitmaps: HashMap::new(), ref_counter: 0, issued: Ghost(Set::empty()), ephemeral_refs: HashMap::new() }
    }

    /// Drops every stored bitmap when switching movies. The reference
    /// counter is kept, so references issued later cannot collide with one
    /// that a persisted script value still holds.
    pub fn clear_movie_bitmaps(&mut self)
        requires
            old(self).wf(),
        ensures
            final(self).wf(),
            final(self).slots() == Map::<BitmapRef, Slot<D>>::empty(),
            final(self).refcounts() == Map::<BitmapRef, u32>::empty(),
            final(self).counter() == old(self).counter(),
            final(self).issued() == old(self).issued(),
    {
        self.bitmaps.clear();
        self.ephemeral_refs.clear();
        proof {
            Self::lemma_issued_kept(old(self).issued(), old(self).refcounts(), old(self).counter(), self.issued(), self.refcounts(), self.counter());
        }
    }

    /// Registers an anchored bitmap (owned by a cast member or another
    /// long-lived holder), which reference counting never frees.
    pub fn add_bitmap(&mut self, bitmap: Bitmap) -> (bitmap_ref: BitmapRef)
        requires
            old(self).wf(),
            old(self).counter() < u32::MAX,
        ensures
            final(self).wf(),
            bitmap_ref == old(self).counter() + 1,
            final(self).counter() == bitmap_ref,
            final(self).issued() == old(self).issued().insert(bitmap_ref),
            forall|q: BitmapRef| #[trigger] old(self).issued().contains(q) ==> q < bitmap_ref,
            old(self).issued() == Set::new(|q: BitmapRef| 0 < q < bitmap_ref),
            final(self).slots() == old(self).slots().insert(bitmap_ref, Slot::Ready(bitmap)),
            final(self).refcounts() == old(self).refcounts(),
            !old(self).refcounts().contains_key(bitmap_ref),
    {
        proof {
            Self::lemma_wf_store(self.slots(), self.refcounts(), self.counter(), (self.counter() + 1) as u32, Slot::Ready(bitmap), (self.counter() + 1) as u32);
        }
        self.ref_counter += 1;
        let bitmap_ref = self.ref_counter;
        proof {
            self.issued@ = self.issued@.insert(bitmap_ref);
        }
        self.bitmaps.insert(bitmap_ref, Slot::Ready(bitmap));
        proof {
            Self::lemma_issued_kept(old(self).issued(), old(self).refcounts(), old(self).counter(), self.issued(), self.refcounts(), self.counter());
        }
        bitmap_ref
    }

    /// Registers an anchored bitmap that is decoded the first time it is
    /// read. `decode` must return a bitmap even when the source is bad (a
    /// placeholder), as an eager load would have stored.
    pub fn add_lazy_bitmap(&mut self, decode: D) -> (bitmap_ref: BitmapRef)
        requires
            old(self).wf(),
            old(self).counter() < u32::MAX,
            decode.requires(()),
        ensures
            final(self).wf(),
            bitmap_ref == old(self).counter() + 1,
            final(self).counter() == bitmap_ref,
            final(self).issued() == old(self).issued().insert(bitmap_ref),
            forall|q: BitmapRef| #[trigger] old(self).issued().contains(q) ==> q < bitmap_ref,
            old(self).issued() == Set::new(|q: BitmapRef| 0 < q < bitmap_ref),
            final(self).slots() == old(self).slots().insert(bitmap_ref, Slot::Pending(decode)),
            final(self).refcounts() == old(self).refcounts(),
            !old(self).refcounts().contains_key(bitmap_ref),
    {
        proof {
            Self::lemma_wf_store(self.slots(), self.refcounts(), self.counter(), (self.counter() + 1) as u32, Slot::Pending(decode), (self.counter() + 1) as u32);
        }
        self.ref_counter += 1;
        let bitmap_ref = self.ref_counter;
        proof {
            self.issued@ = self.issued@.insert(bitmap_ref);
        }
        self.bitmaps.insert(bitmap_ref, Slot::Pending(decode));
        proof {
            Self::lemma_issued_kept(old(self).issued(), old(self).refcounts(), old(self).counter(), self.issued(), self.refcounts(), self.counter());
        }
        bitmap_ref
    }

    /// Registers an ephemeral bitmap, freed once the last script value
    /// pointing at it is dropped. Its count starts at 0: wrapping it in a
    /// script value bumps it through `incref_ephemeral`.
    pub fn add_ephemeral_bitmap(&mut self, bitmap: Bitmap) -> (bitmap_ref: BitmapRef)
        requires
            old(self).wf(),
            old(self).counter() < u32::MAX,
        ensures
            final(self).wf(),
            bitmap_ref == old(self).counter() + 1,
            final(self).counter() == bitmap_ref,
            final(self).issued() == old(self).issued().insert(bitmap_ref),
            forall|q: BitmapRef| #[trigger] old(self).issued().contains(q) ==> q < bitmap_ref,
            old(self).issued() == Set::new(|q: BitmapRef| 0 < q < bitmap_ref),
            final(self).slots() == old(self).slots().insert(bitmap_ref, Slot::Ready(bitmap)),
            final(self).refcounts() == old(self).refcounts().insert(bitmap_ref, 0),
            !old(self).refcounts().contains_key(bitmap_ref),
    {
        proof {
            Self::lemma_wf_store(self.slots(), self.refcounts(), self.counter(), (self.counter() + 1) as u32, Slot::Ready(bitmap), (self.counter() + 1) as u32);
        }
        self.ref_counter += 1;
        let bitmap_ref = self.ref_counter;
        proof {
            self.issued@ = self.issued@.insert(bitmap_ref);
        }
        self.bitmaps.insert(bitmap_ref, Slot::Ready(bitmap));
        self.ephemeral_refs.insert(bitmap_ref, 0);
        proof {
            let rc = self.refcounts();
            assert forall|k: BitmapRef| #[trigger] rc.contains_key(k) implies self.slots().contains_key(k) && 0 < k <= self.counter() by {
                if k != bitmap_ref {
                    assert(old(self).refcounts().contains_key(k));
                }
            }
        }
        proof {
            Self::lemma_issued_kept(old(self).issued(), old(self).refcounts(), old(self).counter(), self.issued(), self.refcounts(), self.counter());
        }
        bitmap_ref
    }

    /// Stores `bitmap` under `bitmap_ref`. Its version becomes one more than
    /// that of a decoded bitmap it replaces, so texture caches upload again;
    /// a still-undecoded bitmap counts as version 0 either way.
    pub fn replace_bitmap(&mut self, bitmap_ref: BitmapRef, bitmap: Bitmap)
        requires
            old(self).wf(),
        ensures
            final(self).wf(),
            final(self).slots() == old(self).slots().insert(
                bitmap_ref,
                Slot::Ready(
                    if old(self).slots().contains_key(bitmap_ref) && old(self).slots()[bitmap_ref] is Ready {
                        with_version(bitmap, next_version(old(self).slots()[bitmap_ref]->Ready_0.version))
                    } else {
                        bitmap
                    },
                ),
            ),
            final(self).refcounts() == old(self).refcounts(),
            final(self).counter() == old(self).counter(),
            final(self).issued() == old(self).issued(),
    {
        let mut bitmap = bitmap;
        match self.bitmaps.get(&bitmap_ref) {
            Some(Slot::Ready(old_bitmap)) => {
                bitmap.version = old_bitmap.version.wrapping_add(1);
            },
            _ => {},
        }
        proof {
            Self::lemma_wf_store(self.slots(), self.refcounts(), self.counter(), bitmap_ref, Slot::Ready(bitmap), self.counter());
        }
        self.bitmaps.insert(bitmap_ref, Slot::Ready(bitmap));
        proof {
            Self::lemma_issued_kept(old(self).issued(), old(self).refcounts(), old(self).counter(), self.issued(), self.refcounts(), self.counter());
        }
    }

    /// Runs the decoder of slot `bitmap_ref` if it is pending, so that the
    /// slot holds its bitmap from then on.
    fn force(&mut self, bitmap_ref: BitmapRef)
        requires
            old(self).wf(),
        ensures
            final(self).wf(),
            final(self).refcounts() == old(self).refcounts(),
            final(self).counter() == old(self).counter(),
            final(self).issued() == old(self).issued(),
            final(self).slots().dom() == old(self).slots().dom(),
            forall|r: BitmapRef| r != bitmap_ref && #[trigger] old(self).slots().contains_key(r)
                ==> final(self).slots()[r] == old(self).slots()[r],
            old(self).slots().contains_key(bitmap_ref) ==> final(self).slots()[bitmap_ref] is Ready
                && Self::decodes_to(old(self).slots()[bitmap_ref], final(self).slots()[bitmap_ref]->Ready_0),
    {
        let ghost s0 = self.slots();
        match self.bitmaps.remove(&bitmap_ref) {
            Some(Slot::Pending(decode)) => {
                assert(s0.contains_key(bitmap_ref) && s0[bitmap_ref] is Pending);
                let bitmap = decode();
                self.bitmaps.insert(bitmap_ref, Slot::Ready(bitmap));
                proof {
                    assert(self.slots() == s0.insert(bitmap_ref, Slot::Ready(bitmap)));
                    Self::lemma_wf_store(s0, self.refcounts(), self.counter(), bitmap_ref, Slot::Ready(bitmap), self.counter());
                }
            },
            Some(Slot::Ready(bitmap)) => {
                self.bitmaps.insert(bitmap_ref, Slot::Ready(bitmap));
                proof {
                    assert(self.slots() =~= s0);
                }
            },
            None => {},
        }
        proof {
            assert(self.slots().dom() =~= old(self).slots().dom());
            Self::lemma_issued_kept(old(self).issued(), old(self).refcounts(), old(self).counter(), self.issued(), self.refcounts(), self.counter());
        }
    }

    /// The bitmap stored under `bitmap_ref`, decoding it first if it is
    /// pending; `None` when nothing is stored there.
    pub fn get_bitmap(&mut self, bitmap_ref: BitmapRef) -> (r: Option<&Bitmap>)
        requires
            old(self).wf(),
        ensures
            final(self).wf(),
            final(self).refcounts() == old(self).refcounts(),
            final(self).counter() == old(self).counter(),
            final(self).issued() == old(self).issued(),
            !old(self).slots().contains_key(bitmap_ref) ==> r is None && final(self).slots() == old(self).slots(),
            old(self).slots().contains_key(bitmap_ref) ==> r is Some && Self::decodes_to(
                old(self).slots()[bitmap_ref],
                *r.unwrap(),
            ) && final(self).slots() == old(self).slots().insert(bitmap_ref, Slot::Ready(*r.unwrap())),
    {
        if !self.bitmaps.contains_key(&bitmap_ref) {
            return None;
        }
        self.force(bitmap_ref);
        proof {
            assert(self.slots() =~= old(self).slots().insert(bitmap_ref, self.slots()[bitmap_ref]));
        }
        match self.bitmaps.get(&bitmap_ref) {
            Some(Slot::Ready(bitmap)) => Some(bitmap),
            _ => None,
        }
    }

    /// Mutable access to the bitmap under `bitmap_ref`, decoding it first if
    /// it is pending. Its version is bumped, as the caller may change it,
    /// and what the caller writes through the reference is what is stored.
    pub fn get_bitmap_mut(&mut self, bitmap_ref: BitmapRef) -> (r: Option<&mut Bitmap>)
        requires
            old(self).wf(),
        ensures
            final(self).wf(),
            final(self).refcounts() == old(self).refcounts(),
            final(self).counter() == old(self).counter(),
            final(self).issued() == old(self).issued(),
            !old(self).slots().contains_key(bitmap_ref) ==> r is None && final(self).slots() == old(self).slots(),
            old(self).slots().contains_key(bitmap_ref) ==> r is Some && (exists|b: Bitmap|
                Self::decodes_to(old(self).slots()[bitmap_ref], b) && *r.unwrap() == with_version(
                    b,
                    next_version(b.version),
                )) && final(self).slots() == old(self).slots().insert(bitmap_ref, Slot::Ready(*final(r.unwrap()))),
    {
        if !self.bitmaps.contains_key(&bitmap_ref) {
            return None;
        }
        self.force(bitmap_ref);
        let ghost forced = self.slots();
        proof {
            assert(forced =~= old(self).slots().insert(bitmap_ref, forced[bitmap_ref]));
        }
        match slot_get_mut(&mut self.bitmaps, &bitmap_ref) {
            Some(slot) => match slot {
                Slot::Ready(bitmap) => {
                    bitmap.version = bitmap.version.wrapping_add(1);
                    Some(bitmap)
                },
                Slot::Pending(_) => None,
            },
            None => None,
        }
    }

    /// Something is stored under `bitmap_ref` (decoded or not).
    pub fn has_bitmap(&self, bitmap_ref: BitmapRef) -> (r: bool)
        ensures
            r == self.slots().contains_key(bitmap_ref),
    {
        self.bitmaps.contains_key(&bitmap_ref)
    }

    /// Bumps the count of ephemeral bitmap `bitmap_ref` (saturating);
    /// anchored bitmaps, which have no count, are left alone.
    pub fn incref_ephemeral(&mut self, bitmap_ref: BitmapRef)
        requires
            old(self).wf(),
        ensures
            final(self).wf(),
            final(self).slots() == old(self).slots(),
            final(self).counter() == old(self).counter(),
            final(self).issued() == old(self).issued(),
            final(self).refcounts() == counts_after_incref(old(self).refcounts(), bitmap_ref),
    {
        let count = match self.ephemeral_refs.get(&bitmap_ref) {
            Some(c) => Some(*c),
            None => None,
        };
        if let Some(c) = count {
            self.ephemeral_refs.insert(bitmap_ref, c.saturating_add(1));
            proof {
                let rc = self.refcounts();
                assert forall|k: BitmapRef| #[trigger] rc.contains_key(k) implies self.slots().contains_key(k) && 0 < k <= self.counter() by {
                    assert(old(self).refcounts().contains_key(k));
                }
            }
        }
    }

    /// Lowers the count of ephemeral bitmap `bitmap_ref` (saturating at 0);
    /// when it reaches 0 the bitmap and its entry are removed. Anchored
    /// bitmaps are left alone.
    pub fn decref_ephemeral(&mut self, bitmap_ref: BitmapRef)
        requires
            old(self).wf(),
        ensures
            final(self).wf(),
            final(self).counter() == old(self).counter(),
            final(self).issued() == old(self).issued(),
            (final(self).slots(), final(self).refcounts()) == after_decref(
                old(self).slots(),
                old(self).refcounts(),
                bitmap_ref,
            ),
    {
        let should_free = match self.ephemeral_refs.get(&bitmap_ref) {
            Some(c) => {
                let count = c.saturating_sub(1);
                if count != 0 {
                    self.ephemeral_refs.insert(bitmap_ref, count);
                }
                count == 0
            },
            None => false,
        };
        if should_free {
            self.ephemeral_refs.remove(&bitmap_ref);
            self.bitmaps.remove(&bitmap_ref);
        }
        proof {
            let rc = self.refcounts();
            assert forall|k: BitmapRef| #[trigger] rc.contains_key(k) implies self.slots().contains_key(k) && 0 < k <= self.counter() by {
                assert(old(self).refcounts().contains_key(k));
            }
            let sl = self.slots();
            assert forall|k: BitmapRef| #[trigger] sl.contains_key(k) && sl[k] is Pending implies sl[k]->Pending_0.requires(()) by {
                assert(old(self).slots().contains_key(k));
            }
        }
    }
}

/// The counts after `incref_ephemeral(r)`.
pub open spec fn counts_after_incref(refcounts: Map<BitmapRef, u32>, r: BitmapRef) -> Map<BitmapRef, u32> {
    if refcounts.contains_key(r) {
        refcounts.insert(r, if refcounts[r] == u32::MAX { u32::MAX } else { (refcounts[r] + 1) as u32 })
    } else {
        refcounts
    }
}

/// The slots and counts after `decref_ephemeral(r)`.
pub open spec fn after_decref<D>(slots: Map<BitmapRef, Slot<D>>, refcounts: Map<BitmapRef, u32>, r: BitmapRef) -> (
    Map<BitmapRef, Slot<D>>,
    Map<BitmapRef, u32>,
) {
    if !refcounts.contains_key(r) {
        (slots, refcounts)
    } else if refcounts[r] <= 1 {
        (slots.remove(r), refcounts.remove(r))
    } else {
        (slots, refcounts.insert(r, (refcounts[r] - 1) as u32))
    }
}

/// A read gives back what was stored: once `bitmap` is stored under `r`,
/// reading `r` yields exactly `bitmap`. This covers reading after
/// `add_bitmap`, after `add_ephemeral_bitmap`, and a second read of a
/// lazily decoded bitmap, which sees the bitmap the first read decoded.
pub proof fn law_read_gives_back_stored<D: FnOnce() -> Bitmap>(
    before: Map<BitmapRef, Slot<D>>,
    after: Map<BitmapRef, Slot<D>>,
    r: BitmapRef,
    bitmap: Bitmap,
    read: Bitmap,
)
    requires
        after == before.insert(r, Slot::Ready(bitmap)),
        BitmapManager::<D>::decodes_to(after[r], read),
    ensures
        read == bitmap,
        after.contains_key(r),
{
}

/// References are never reused: a reference issued after clearing the
/// store is larger than every reference issued before, since clearing
/// keeps the counter and each new reference is one past it.
pub proof fn law_fresh_reference_after_clear(issued_before: BitmapRef, counter_after_clear: BitmapRef, new_ref: BitmapRef)
    requires
        counter_after_clear == issued_before,
        new_ref == counter_after_clear + 1,
    ensures
        new_ref > issued_before,
{
}

/// A new reference is not in use when every stored reference was issued
/// by this store (is at most the counter).
pub proof fn law_new_reference_is_free<D>(slots: Map<BitmapRef, Slot<D>>, counter: BitmapRef, new_ref: BitmapRef)
    requires
        forall|k: BitmapRef| #[trigger] slots.contains_key(k) ==> k <= counter,
        new_ref == counter + 1,
    ensures
        !slots.contains_key(new_ref),
{
}

/// Taking a reference and dropping it again restores the store, for an
/// ephemeral bitmap that another value already points at (count at least
/// 1 and below the saturation point).
pub proof fn law_incref_then_decref_restores<D>(slots: Map<BitmapRef, Slot<D>>, refcounts: Map<BitmapRef, u32>, r: BitmapRef)
    requires
        refcounts.contains_key(r),
        1 <= refcounts[r] < u32::MAX,
    ensures
        after_decref(slots, counts_after_incref(refcounts, r), r) == (slots, refcounts),
{
    assert(counts_after_incref(refcounts, r).insert(r, refcounts[r]) =~= refcounts);
}

/// Dropping the last value that points at an ephemeral bitmap frees it
/// together with its count.
pub proof fn law_last_drop_frees<D>(slots: Map<BitmapRef, Slot<D>>, refcounts: Map<BitmapRef, u32>, r: BitmapRef)
    requires
        refcounts.contains_key(r),
        refcounts[r] <= 1,
    ensures
        !after_decref(slots, refcounts, r).0.contains_key(r),
        !after_decref(slots, refcounts, r).1.contains_key(r),
{
}

/// Reference counting never frees an anchored bitmap: dropping a value
/// that points at a bitmap without a count changes nothing.
pub proof fn law_anchored_never_freed<D>(slots: Map<BitmapRef, Slot<D>>, refcounts: Map<BitmapRef, u32>, r: BitmapRef)
    requires
        !refcounts.contains_key(r),
    ensures
        after_decref(slots, refcounts, r) == (slots, refcounts),
        counts_after_incref(refcounts, r) == refcounts,
{
}

/// While other values still point at an ephemeral bitmap, dropping one
/// keeps the bitmap stored.
pub proof fn law_bitmap_lives_while_referenced<D>(slots: Map<BitmapRef, Slot<D>>, refcounts: Map<BitmapRef, u32>, r: BitmapRef)
    requires
        refcounts.contains_key(r),
        refcounts[r] > 1,
    ensures
        after_decref(slots, refcounts, r).0 == slots,
        after_decref(slots, refcounts, r).1[r] == refcounts[r] - 1,
{
}

/// The counts after `n` calls of `incref_ephemeral(r)`.
pub open spec fn counts_after_increfs(refcounts: Map<BitmapRef, u32>, r: BitmapRef, n: nat) -> Map<BitmapRef, u32>
    decreases n,
{
    if n == 0 {
        refcounts
    } else {
        counts_after_incref(counts_after_increfs(refcounts, r, (n - 1) as nat), r)
    }
}

/// The slots and counts after `k` calls of `decref_ephemeral(r)`.
pub open spec fn after_decrefs<D>(slots: Map<BitmapRef, Slot<D>>, refcounts: Map<BitmapRef, u32>, r: BitmapRef, k: nat) -> (
    Map<BitmapRef, Slot<D>>,
    Map<BitmapRef, u32>,
)
    decreases k,
{
    if k == 0 {
        (slots, refcounts)
    } else {
        let prev = after_decrefs(slots, refcounts, r, (k - 1) as nat);
        after_decref(prev.0, prev.1, r)
    }
}

/// `n` increfs raise a count by `n` while it stays below saturation.
pub proof fn lemma_increfs(refcounts: Map<BitmapRef, u32>, r: BitmapRef, n: nat)
    requires
        refcounts.contains_key(r),
        refcounts[r] + n <= u32::MAX,
    ensures
        counts_after_increfs(refcounts, r, n) == refcounts.insert(r, (refcounts[r] + n) as u32),
    decreases n,
{
    if n == 0 {
        assert(refcounts.insert(r, refcounts[r]) =~= refcounts);
    } else {
        lemma_increfs(refcounts, r, (n - 1) as nat);
        let prev = counts_after_increfs(refcounts, r, (n - 1) as nat);
        assert(prev.insert(r, (prev[r] + 1) as u32) =~= refcounts.insert(r, (refcounts[r] + n) as u32));
    }
}

/// `k` decrefs of a stored ephemeral bitmap with count `c`: it stays, with
/// count `c - k`, for the first `max(c, 1) - 1` of them, and the next one
/// frees it with its count. Nothing else changes.
pub proof fn lemma_decrefs<D>(slots: Map<BitmapRef, Slot<D>>, refcounts: Map<BitmapRef, u32>, r: BitmapRef, k: nat)
    requires
        refcounts.contains_key(r),
        slots.contains_key(r),
    ensures
        k < (if refcounts[r] == 0 { 1 } else { refcounts[r] as int }) ==> after_decrefs(slots, refcounts, r, k) == (
            slots,
            refcounts.insert(r, (refcounts[r] - k) as u32),
        ),
        k >= (if refcounts[r] == 0 { 1 } else { refcounts[r] as int }) ==> after_decrefs(slots, refcounts, r, k) == (
            slots.remove(r),
            refcounts.remove(r),
        ),
    decreases k,
{
    let c: int = if refcounts[r] == 0 { 1 } else { refcounts[r] as int };
    if k == 0 {
        assert(refcounts.insert(r, refcounts[r]) =~= refcounts);
    } else {
        lemma_decrefs(slots, refcounts, r, (k - 1) as nat);
        let prev = after_decrefs(slots, refcounts, r, (k - 1) as nat);
        if k - 1 < c {
            assert(prev.1[r] == refcounts[r] - (k - 1));
            if k < c {
                assert(prev.1.insert(r, (prev.1[r] - 1) as u32) =~= refcounts.insert(r, (refcounts[r] - k) as u32));
            } else {
                assert(prev.1.remove(r) =~= refcounts.remove(r));
                assert(prev.0.remove(r) =~= slots.remove(r));
            }
        } else {
            assert(!prev.1.contains_key(r));
        }
    }
}

/// An ephemeral bitmap lives exactly as long as something points at it:
/// freshly registered (count 0) and then taken `n` times, it survives
/// `k` drops while `k < max(n, 1)`, keeping the bitmap it was given, and
/// the drop after that frees it. No other bitmap is touched on the way.
pub proof fn law_ephemeral_lifetime<D>(
    slots: Map<BitmapRef, Slot<D>>,
    refcounts: Map<BitmapRef, u32>,
    r: BitmapRef,
    n: nat,
    k: nat,
)
    requires
        slots.contains_key(r),
        refcounts.contains_key(r),
        refcounts[r] == 0,
        n <= u32::MAX,
    ensures
        ({
            let counts = counts_after_increfs(refcounts, r, n);
            let after = after_decrefs(slots, counts, r, k);
            &&& after.0.contains_key(r) == (k < (if n == 0 { 1 } else { n as int }))
            &&& after.0.contains_key(r) ==> after.0[r] == slots[r]
            &&& after.0.remove(r) == slots.remove(r)
            &&& after.1.remove(r) == refcounts.remove(r)
        }),
{
    lemma_increfs(refcounts, r, n);
    let counts = counts_after_increfs(refcounts, r, n);
    assert(counts[r] == n);
    lemma_decrefs(slots, counts, r, k);
    assert(counts.remove(r) =~= refcounts.remove(r));
    assert(counts.insert(r, (counts[r] - k) as u32).remove(r) =~= refcounts.remove(r));
    assert(slots.remove(r).remove(r) =~= slots.remove(r));
    assert(counts.remove(r).remove(r) =~= refcounts.remove(r));
}

/// For a reference without a count (an anchored bitmap, or one that names
/// no live ephemeral bitmap: never issued, or already freed), taking or
/// dropping values that point at it, however many, changes nothing: an
/// anchored bitmap is never freed this way.
pub proof fn law_anchored_never_freed_by_any_drops<D>(
    slots: Map<BitmapRef, Slot<D>>,
    refcounts: Map<BitmapRef, u32>,
    r: BitmapRef,
    n: nat,
    k: nat,
)
    requires
        !refcounts.contains_key(r),
    ensures
        counts_after_increfs(refcounts, r, n) == refcounts,
        after_decrefs(slots, refcounts, r, k) == (slots, refcounts),
    decreases n + k,
{
    if n > 0 {
        law_anchored_never_freed_by_any_drops(slots, refcounts, r, (n - 1) as nat, k);
    }
    if k > 0 {
        law_anchored_never_freed_by_any_drops(slots, refcounts, r, n, (k - 1) as nat);
    }
}

/// A new reference is one past the largest reference handed out before,
/// clearing included (1 when none was), so it is never 0 and never one
/// already handed out.
pub proof fn law_new_reference_beyond_all_issued(issued: Set<BitmapRef>, new_ref: BitmapRef)
    requires
        issued == Set::new(|q: BitmapRef| 0 < q < new_ref),
        0 < new_ref,
    ensures
        !issued.contains(new_ref),
        new_ref != INVALID_BITMAP_REF,
        forall|q: BitmapRef| #[trigger] issued.contains(q) ==> q < new_ref,
        new_ref == 1 <==> issued.is_empty(),
        new_ref > 1 ==> issued.contains((new_ref - 1) as BitmapRef),
{
    if new_ref == 1 {
        assert(issued =~= Set::empty());
    } else if new_ref > 1 {
        assert(issued.contains((new_ref - 1) as BitmapRef));
        assert(!issued.is_empty());
    }
}

/// Taking a reference raises the count of that bitmap by one, saturating
/// at `u32::MAX` rather than wrapping to 0, and no other count.
pub proof fn law_incref_saturates(refcounts: Map<BitmapRef, u32>, r: BitmapRef, q: BitmapRef)
    requires
        refcounts.contains_key(r),
    ensures
        counts_after_incref(refcounts, r)[r] == if refcounts[r] < u32::MAX { refcounts[r] + 1 } else { u32::MAX as int },
        counts_after_incref(refcounts, r)[r] >= 1,
        counts_after_incref(refcounts, r).dom() == refcounts.dom(),
        q != r && refcounts.contains_key(q) ==> counts_after_incref(refcounts, r)[q] == refcounts[q],
{
    assert(counts_after_incref(refcounts, r).dom() =~= refcounts.dom());
}

} // verus!
