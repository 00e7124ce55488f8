use vm_rust::bitmap::{Bitmap, BuiltInPalette, ColorRef, PaletteMap, PaletteRef};
use vm_rust::mask::BitmapMask;

#[test]
fn matte_keeps_interior_white_and_drops_the_white_around() {
    // 5x5 white image with a black square ring at 1..=3: the white
    // outside the ring touches the edge, the white centre does not.
    let mut bmp = Bitmap::new(5, 5, 32, 32, 0, PaletteRef::BuiltIn(BuiltInPalette::SystemWin));
    for y in 0..5usize {
        for x in 0..5usize {
            let ring = (1..=3).contains(&x) && (1..=3).contains(&y) && !(x == 2 && y == 2);
            let v = if ring { 0 } else { 255 };
            let i = (y * 5 + x) * 4;
            bmp.data[i..i + 4].copy_from_slice(&[v, v, v, 255]);
        }
    }
    let matte = bmp.compute_matte(&PaletteMap::new());
    assert!(!matte.get_bit(0, 0), "white touching the edge is outside the shape");
    assert!(!matte.get_bit(4, 2));
    assert!(matte.get_bit(1, 1), "the ring is the shape");
    assert!(matte.get_bit(2, 2), "white enclosed by the ring stays part of the shape");
}

#[test]
fn matte_of_an_alpha_image_is_its_visible_pixels() {
    // 3x1, alpha 0 / 255 / 0: only the middle pixel is the shape, even
    // though none of them is white.
    let mut bmp = Bitmap::new(3, 1, 32, 32, 8, PaletteRef::BuiltIn(BuiltInPalette::SystemWin));
    bmp.use_alpha = true;
    bmp.data[0..12].copy_from_slice(&[10, 20, 30, 0, 10, 20, 30, 255, 10, 20, 30, 0]);
    let matte = bmp.compute_matte(&PaletteMap::new());
    assert!(!matte.get_bit(0, 0));
    assert!(matte.get_bit(1, 0));
    assert!(!matte.get_bit(2, 0));
}

#[test]
fn new_mask_holds_the_default_and_reads_false_off_the_grid() {
    let m = BitmapMask::new(3, 2, true);
    assert!(m.get_bit(0, 0));
    assert!(m.get_bit(2, 1));
    assert!(!m.get_bit(3, 0));
    assert!(!m.get_bit(0, 2));
}

#[test]
fn set_bit_writes_one_pixel_and_ignores_pixels_off_the_grid() {
    let mut m = BitmapMask::new(3, 3, false);
    m.set_bit(1, 2, true);
    m.set_bit(7, 7, true);
    assert!(m.get_bit(1, 2));
    assert!(!m.get_bit(2, 1));
    assert!(!m.get_bit(1, 1));
    let mut other = BitmapMask::new(3, 3, false);
    other.set_bit(1, 2, true);
    assert!(m == other);
    let copy = m.clone();
    assert!(copy == m);
    other.set_bit(0, 0, true);
    assert!(!(m == other));
}

#[test]
fn flood_fill_stops_at_the_other_value() {
    // 4x3: a wall of `true` in column 2 splits the grid.
    let mut m = BitmapMask::new(4, 3, false);
    for y in 0..3u16 {
        m.set_bit(2, y, true);
    }
    let not_visited = m.flood_matte(vec![(0, 0)], false, true);
    for y in 0..3u16 {
        assert!(m.get_bit(0, y));
        assert!(m.get_bit(1, y));
        assert!(m.get_bit(2, y));
        assert!(!m.get_bit(3, y), "beyond the wall is not reached");
        assert!(!not_visited.get_bit(0, y));
        assert!(!not_visited.get_bit(1, y));
        assert!(not_visited.get_bit(2, y));
        assert!(not_visited.get_bit(3, y));
    }
}

#[test]
fn flood_fill_ignores_seeds_off_the_grid_or_of_the_other_value() {
    let mut m = BitmapMask::new(2, 2, false);
    m.set_bit(0, 0, true);
    let not_visited = m.flood_matte(vec![(9, 9), (0, 0)], false, true);
    assert!(not_visited.get_bit(0, 0));
    assert!(not_visited.get_bit(1, 1));
    assert!(m.get_bit(0, 0));
    assert!(!m.get_bit(1, 1));
}

#[test]
fn flood_fill_with_equal_values_still_ends() {
    let mut m = BitmapMask::new(3, 3, true);
    let not_visited = m.flood_matte(vec![(1, 1)], true, true);
    for y in 0..3u16 {
        for x in 0..3u16 {
            assert!(m.get_bit(x, y));
            assert!(!not_visited.get_bit(x, y));
        }
    }
}

#[test]
fn text_matte_is_every_non_background_pixel() {
    // 8-bit 3x3, background index 0 except a ring; the centre hole is
    // background and stays transparent in a text matte.
    let mut bmp = Bitmap::new(3, 3, 8, 8, 0, PaletteRef::BuiltIn(BuiltInPalette::SystemMac));
    for i in 0..9 {
        bmp.data[i] = if i == 4 { 0 } else { 35 };
    }
    bmp.create_matte_text(&PaletteMap::new());
    let matte = bmp.matte.clone().unwrap();
    assert!(matte.get_bit(0, 0));
    assert!(!matte.get_bit(1, 1));
    bmp.create_matte(&PaletteMap::new());
    let ink = bmp.matte.clone().unwrap();
    assert!(ink.get_bit(1, 1), "the enclosed hole stays in the matte ink's shape");
}

#[test]
fn get_mask_marks_pixels_unlike_the_given_colour() {
    let mut bmp = Bitmap::new(2, 1, 32, 32, 0, PaletteRef::BuiltIn(BuiltInPalette::SystemWin));
    bmp.data.copy_from_slice(&[1, 2, 3, 255, 9, 9, 9, 255]);
    let mask = bmp.get_mask(&PaletteMap::new(), &ColorRef::Rgb(1, 2, 3));
    assert!(!mask.get_bit(0, 0));
    assert!(mask.get_bit(1, 0));
    assert_eq!(bmp.get_pixel_color_ref(1, 0), ColorRef::Rgb(9, 9, 9));
    assert_eq!(bmp.get_bg_color_ref(), ColorRef::Rgb(255, 255, 255));
}

#[test]
fn sixteen_bit_pixels_widen_each_channel_to_eight_bits() {
    // 0x7FFF is white in 5-5-5; 0x7C00 is full red; 0x0421 is 1/31 of each.
    let mut bmp = Bitmap::new(3, 1, 16, 16, 0, PaletteRef::BuiltIn(BuiltInPalette::SystemWin));
    bmp.data.copy_from_slice(&[0x7F, 0xFF, 0x7C, 0x00, 0x04, 0x21]);
    assert_eq!(bmp.get_pixel_color_ref(0, 0), ColorRef::Rgb(255, 255, 255));
    assert_eq!(bmp.get_pixel_color_ref(1, 0), ColorRef::Rgb(255, 0, 0));
    assert_eq!(bmp.get_pixel_color_ref(2, 0), ColorRef::Rgb(8, 8, 8));
    assert_eq!(bmp.get_bg_color_ref(), ColorRef::Rgb(255, 255, 255));
}

#[test]
fn twenty_four_bit_matte_keeps_the_enclosed_white() {
    // 3x3 RGB: a black ring round a white centre.
    let mut bmp = Bitmap::new(3, 3, 24, 24, 0, PaletteRef::BuiltIn(BuiltInPalette::SystemWin));
    for i in 0..9usize {
        let v = if i == 4 { 255 } else { 0 };
        bmp.data[i * 3..i * 3 + 3].copy_from_slice(&[v, v, v]);
    }
    assert_eq!(bmp.get_pixel_color_ref(1, 1), ColorRef::Rgb(255, 255, 255));
    let matte = bmp.compute_matte(&PaletteMap::new());
    for y in 0..3u16 {
        for x in 0..3u16 {
            assert!(matte.get_bit(x, y), "every pixel is inside the shape");
        }
    }
    bmp.create_matte_text(&PaletteMap::new());
    let text = bmp.matte.clone().unwrap();
    assert!(text.get_bit(0, 0));
    assert!(!text.get_bit(1, 1), "a text matte drops the white hole");
}

#[test]
fn one_bit_bitmaps_read_one_index_per_byte() {
    // 2x2 at depth 1: index 0 is the background; white all round the edge.
    let mut bmp = Bitmap::new(2, 2, 1, 1, 0, PaletteRef::BuiltIn(BuiltInPalette::SystemMac));
    bmp.data.copy_from_slice(&[0, 1, 0, 0]);
    assert_eq!(bmp.get_bg_color_ref(), ColorRef::PaletteIndex(0));
    assert_eq!(bmp.get_pixel_color_ref(1, 0), ColorRef::PaletteIndex(1));
    let matte = bmp.compute_matte(&PaletteMap::new());
    assert!(matte.get_bit(1, 0));
    assert!(!matte.get_bit(0, 0));
    assert!(!matte.get_bit(1, 1));
}

#[test]
fn create_mask_marks_pixels_darker_than_mid_grey() {
    // luma = (299 r + 587 g + 114 b) / 1000, dark below 128.
    let mut bmp = Bitmap::new(4, 1, 32, 32, 0, PaletteRef::BuiltIn(BuiltInPalette::SystemWin));
    bmp.data.copy_from_slice(&[0, 0, 0, 255, 255, 255, 255, 255, 128, 128, 128, 255, 127, 127, 127, 255]);
    let mask = bmp.create_mask(&PaletteMap::new());
    assert!(mask.get_bit(0, 0));
    assert!(!mask.get_bit(1, 0));
    assert!(!mask.get_bit(2, 0), "luma 128 is not dark");
    assert!(mask.get_bit(3, 0), "luma 127 is dark");

    let mut rgb = Bitmap::new(2, 1, 24, 24, 0, PaletteRef::BuiltIn(BuiltInPalette::SystemWin));
    rgb.data.copy_from_slice(&[255, 0, 0, 0, 255, 0]);
    let mask = rgb.create_mask(&PaletteMap::new());
    assert!(mask.get_bit(0, 0), "pure red has luma 76");
    assert!(!mask.get_bit(1, 0), "pure green has luma 149");

    let mut word = Bitmap::new(2, 1, 16, 16, 0, PaletteRef::BuiltIn(BuiltInPalette::SystemWin));
    word.data.copy_from_slice(&[0x7F, 0xFF, 0x00, 0x1F]);
    let mask = word.create_mask(&PaletteMap::new());
    assert!(!mask.get_bit(0, 0));
    assert!(mask.get_bit(1, 0), "pure blue has luma 29");
}
