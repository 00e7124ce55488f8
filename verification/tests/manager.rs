use vm_rust::bitmap::{Bitmap, BuiltInPalette, PaletteRef};
use vm_rust::manager::{BitmapManager, INVALID_BITMAP_REF};
use std::cell::Cell;
use std::rc::Rc;

type Decoder = Box<dyn FnOnce() -> Bitmap>;

fn bitmap(w: u16) -> Bitmap {
    Bitmap::new(w, 1, 8, 8, 0, PaletteRef::BuiltIn(BuiltInPalette::GrayScale))
}

#[test]
fn references_count_up_from_one() {
    let mut m: BitmapManager<Decoder> = BitmapManager::new();
    let a = m.add_bitmap(bitmap(1));
    let b = m.add_ephemeral_bitmap(bitmap(2));
    let c = m.add_lazy_bitmap(Box::new(|| bitmap(3)));
    assert_eq!((a, b, c), (1, 2, 3));
    assert_ne!(a, INVALID_BITMAP_REF);
}

#[test]
fn read_gives_back_the_stored_bitmap() {
    let mut m: BitmapManager<Decoder> = BitmapManager::new();
    let r = m.add_bitmap(bitmap(7));
    assert_eq!(m.get_bitmap(r).unwrap().width, 7);
    assert!(m.get_bitmap(99).is_none());
    assert!(m.has_bitmap(r));
    assert!(!m.has_bitmap(99));
}

#[test]
fn lazy_bitmap_is_decoded_once_on_first_read() {
    let runs = Rc::new(Cell::new(0));
    let counter = runs.clone();
    let mut m: BitmapManager<Decoder> = BitmapManager::new();
    let r = m.add_lazy_bitmap(Box::new(move || {
        counter.set(counter.get() + 1);
        bitmap(5)
    }));
    assert_eq!(runs.get(), 0, "nothing is decoded when registering");
    assert_eq!(m.get_bitmap(r).unwrap().width, 5);
    assert_eq!(m.get_bitmap(r).unwrap().width, 5);
    assert_eq!(runs.get(), 1, "the decoder runs once");
}

#[test]
fn clearing_keeps_the_counter() {
    let mut m: BitmapManager<Decoder> = BitmapManager::new();
    let a = m.add_bitmap(bitmap(1));
    m.clear_movie_bitmaps();
    assert!(m.get_bitmap(a).is_none());
    let b = m.add_bitmap(bitmap(2));
    assert_eq!(b, a + 1, "a new reference never collides with an old one");
}

#[test]
fn replacing_bumps_the_version_of_a_decoded_bitmap() {
    let mut m: BitmapManager<Decoder> = BitmapManager::new();
    let r = m.add_bitmap(bitmap(1));
    m.replace_bitmap(r, bitmap(2));
    assert_eq!(m.get_bitmap(r).unwrap().version, 1);
    let mut next = bitmap(3);
    next.version = 40;
    m.replace_bitmap(r, next);
    assert_eq!(m.get_bitmap(r).unwrap().version, 2);
    assert_eq!(m.get_bitmap(r).unwrap().width, 3);
    let lazy = m.add_lazy_bitmap(Box::new(|| bitmap(9)));
    let mut fresh = bitmap(4);
    fresh.version = 7;
    m.replace_bitmap(lazy, fresh);
    assert_eq!(m.get_bitmap(lazy).unwrap().version, 7, "an undecoded bitmap counts as version 0");
}

#[test]
fn replacing_wraps_the_version() {
    let mut m: BitmapManager<Decoder> = BitmapManager::new();
    let mut b = bitmap(1);
    b.version = u32::MAX;
    let r = m.add_bitmap(b);
    m.replace_bitmap(r, bitmap(1));
    assert_eq!(m.get_bitmap(r).unwrap().version, 0);
}

#[test]
fn mutable_access_bumps_the_version_and_writes_through() {
    let mut m: BitmapManager<Decoder> = BitmapManager::new();
    let r = m.add_lazy_bitmap(Box::new(|| bitmap(2)));
    {
        let b = m.get_bitmap_mut(r).unwrap();
        assert_eq!(b.version, 1);
        b.width = 11;
    }
    assert_eq!(m.get_bitmap(r).unwrap().width, 11);
    assert!(m.get_bitmap_mut(42).is_none());
}

#[test]
fn ephemeral_bitmap_is_freed_with_its_last_reference() {
    let mut m: BitmapManager<Decoder> = BitmapManager::new();
    let r = m.add_ephemeral_bitmap(bitmap(1));
    m.incref_ephemeral(r);
    m.incref_ephemeral(r);
    m.decref_ephemeral(r);
    assert!(m.get_bitmap(r).is_some(), "one reference is left");
    m.decref_ephemeral(r);
    assert!(m.get_bitmap(r).is_none());
    m.decref_ephemeral(r);
    assert!(m.get_bitmap(r).is_none());
}

#[test]
fn incref_then_decref_changes_nothing() {
    let mut m: BitmapManager<Decoder> = BitmapManager::new();
    let r = m.add_ephemeral_bitmap(bitmap(1));
    m.incref_ephemeral(r);
    m.incref_ephemeral(r);
    m.decref_ephemeral(r);
    m.decref_ephemeral(r);
    assert!(m.get_bitmap(r).is_none(), "back to one reference, then none");
}

#[test]
fn an_ephemeral_bitmap_never_wrapped_is_freed_by_one_drop() {
    let mut m: BitmapManager<Decoder> = BitmapManager::new();
    let r = m.add_ephemeral_bitmap(bitmap(1));
    m.decref_ephemeral(r);
    assert!(m.get_bitmap(r).is_none());
}

#[test]
fn anchored_bitmaps_ignore_reference_counting() {
    let mut m: BitmapManager<Decoder> = BitmapManager::new();
    let r = m.add_bitmap(bitmap(1));
    m.incref_ephemeral(r);
    m.decref_ephemeral(r);
    m.decref_ephemeral(r);
    assert!(m.get_bitmap(r).is_some());
}

#[test]
fn ephemeral_bitmap_lives_until_the_last_of_several_references_drops() {
    let mut m: BitmapManager<Decoder> = BitmapManager::new();
    let other = m.add_bitmap(bitmap(2));
    let r = m.add_ephemeral_bitmap(bitmap(3));
    for _ in 0..3 {
        m.incref_ephemeral(r);
    }
    for _ in 0..2 {
        m.decref_ephemeral(r);
        assert_eq!(m.get_bitmap(r).map(|b| b.width), Some(3), "references are left");
    }
    m.decref_ephemeral(r);
    assert!(m.get_bitmap(r).is_none(), "the third drop frees it");
    assert_eq!(m.get_bitmap(other).map(|b| b.width), Some(2), "other bitmaps stay");
}

#[test]
fn new_references_pass_every_earlier_one_across_a_clear() {
    let mut m: BitmapManager<Decoder> = BitmapManager::new();
    let a = m.add_bitmap(bitmap(1));
    let b = m.add_ephemeral_bitmap(bitmap(1));
    m.clear_movie_bitmaps();
    let c = m.add_bitmap(bitmap(1));
    assert!(a != INVALID_BITMAP_REF && a < b && b < c);
    assert_eq!(c, b + 1, "one past the largest reference handed out");
    assert!(m.get_bitmap(a).is_none());
    assert!(m.get_bitmap(c).is_some());
}
