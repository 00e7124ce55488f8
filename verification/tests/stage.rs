use vm_rust::bitmap::{Bitmap, BuiltInPalette, ColorRef, PaletteRef};
use vm_rust::manager::BitmapManager;
use vm_rust::stage::{
    drawn_stage_image, read_stage_prop, resample_spans, stage_bg_color, store_stage_snapshot, stretch_style,
    write_stage_prop, StageProp, StagePropError, StageRead, StageValue, StageWrite, StretchStyle,
};

type Decoder = Box<dyn FnOnce() -> Bitmap>;

fn params(pairs: &[(&str, &str)]) -> Vec<(String, String)> {
    pairs.iter().map(|(k, v)| (k.to_string(), v.to_string())).collect()
}

#[test]
fn stretch_style_reads_the_first_matching_parameter() {
    assert_eq!(stretch_style(&params(&[("swStretchStyle", "meet")])), StretchStyle::Meet);
    assert_eq!(stretch_style(&params(&[("SWSTRETCHSTYLE", " Fill ")])), StretchStyle::Fill);
    assert_eq!(stretch_style(&params(&[("a", "b"), ("swstretchstyle", "STAGE"), ("swStretchStyle", "meet")])), StretchStyle::Stage);
    assert_eq!(stretch_style(&params(&[("swStretchStyle", "none")])), StretchStyle::NoStretch);
    assert_eq!(stretch_style(&params(&[])), StretchStyle::NoStretch);
}

#[test]
fn a_doubled_capture_comes_back_at_movie_size() {
    // 4x2 capture of a 2x1 stage drawn at 2x: left half red, right blue.
    let mut src = Bitmap::new(4, 2, 32, 32, 0, PaletteRef::BuiltIn(BuiltInPalette::SystemWin));
    for y in 0..2usize {
        for x in 0..4usize {
            let px = if x < 2 { [200, 0, 0, 255] } else { [0, 0, 200, 255] };
            let i = (y * 4 + x) * 4;
            src.data[i..i + 4].copy_from_slice(&px);
        }
    }
    let out = resample_spans(&src, &vec![(0, 2), (2, 4)], &vec![(0, 2)]);
    assert_eq!((out.width, out.height), (2, 1));
    assert_eq!(&out.data[0..4], &[200, 0, 0, 255]);
    assert_eq!(&out.data[4..8], &[0, 0, 200, 255]);
}

#[test]
fn box_average_rounds_down_and_skips_empty_spans() {
    let mut src = Bitmap::new(2, 1, 32, 32, 0, PaletteRef::BuiltIn(BuiltInPalette::SystemWin));
    src.data.copy_from_slice(&[10, 0, 0, 1, 13, 0, 0, 2]);
    src.use_alpha = true;
    let out = resample_spans(&src, &vec![(-3, 5), (5, 9)], &vec![(0, 1)]);
    assert_eq!(&out.data[0..4], &[11, 0, 0, 1]);
    assert_eq!(&out.data[4..8], &[0, 0, 0, 0]);
    assert!(out.use_alpha);
}

#[test]
fn stage_image_is_stored_once_and_refreshed_in_place() {
    let mut m: BitmapManager<Decoder> = BitmapManager::new();
    let mut stage_image = None;
    let mut dirty = true;
    assert_eq!(drawn_stage_image(&mut m, stage_image, dirty), None);
    let mut shot = Bitmap::new(1, 1, 32, 32, 0, PaletteRef::BuiltIn(BuiltInPalette::SystemWin));
    shot.use_alpha = true;
    let r = store_stage_snapshot(&mut m, &mut stage_image, &mut dirty, shot);
    assert_eq!(stage_image, Some(r));
    assert!(!dirty);
    assert!(!m.get_bitmap(r).unwrap().use_alpha, "the stage image is opaque");
    assert_eq!(drawn_stage_image(&mut m, stage_image, dirty), None, "a clean image is captured again");
    dirty = true;
    assert_eq!(drawn_stage_image(&mut m, stage_image, dirty), Some(r), "a drawn image is handed out as it is");
    let again = Bitmap::new(2, 2, 32, 32, 0, PaletteRef::BuiltIn(BuiltInPalette::SystemWin));
    let r2 = store_stage_snapshot(&mut m, &mut stage_image, &mut dirty, again);
    assert_eq!(r2, r);
    assert!(dirty);
    assert_eq!(m.get_bitmap(r).unwrap().width, 2);
}

#[test]
fn a_freed_stage_image_is_replaced() {
    let mut m: BitmapManager<Decoder> = BitmapManager::new();
    let mut stage_image = Some(77);
    let mut dirty = true;
    assert_eq!(drawn_stage_image(&mut m, stage_image, dirty), None);
    let shot = Bitmap::new(1, 1, 32, 32, 0, PaletteRef::BuiltIn(BuiltInPalette::SystemWin));
    let r = store_stage_snapshot(&mut m, &mut stage_image, &mut dirty, shot);
    assert_eq!(r, 1);
    assert_eq!(stage_image, Some(1));
    assert!(!dirty);
}

#[test]
fn stage_background_takes_a_colour_or_a_palette_index() {
    assert_eq!(stage_bg_color(StageValue::Color(ColorRef::Rgb(1, 2, 3))), Ok(ColorRef::Rgb(1, 2, 3)));
    assert_eq!(stage_bg_color(StageValue::Int(35)), Ok(ColorRef::PaletteIndex(35)));
    assert_eq!(stage_bg_color(StageValue::Int(300)), Ok(ColorRef::PaletteIndex(44)));
    assert_eq!(stage_bg_color(StageValue::Other), Err(StagePropError::ColorExpected));
    assert_eq!(stage_bg_color(StageValue::Rect), Err(StagePropError::ColorExpected));
}

#[test]
fn stage_properties_a_script_can_read() {
    assert!(matches!(read_stage_prop(StageProp::Movie), Ok(StageRead::MovieRef)));
    assert!(matches!(read_stage_prop(StageProp::Name), Ok(StageRead::Name(n)) if n == "stage"));
    assert!(matches!(read_stage_prop(StageProp::Rect), Ok(StageRead::StageRect)));
    assert!(matches!(read_stage_prop(StageProp::DrawRect), Ok(StageRead::DrawRect)));
    assert!(matches!(read_stage_prop(StageProp::SourceRect), Ok(StageRead::SourceRect)));
    assert!(matches!(read_stage_prop(StageProp::BgColor), Ok(StageRead::BgColor)));
    assert!(matches!(read_stage_prop(StageProp::Image), Ok(StageRead::Image)));
    assert!(matches!(read_stage_prop(StageProp::Title), Err(StagePropError::Invalid)));
    assert!(matches!(read_stage_prop(StageProp::Other), Err(StagePropError::Invalid)));
}

#[test]
fn stage_properties_a_script_can_set() {
    assert_eq!(write_stage_prop(StageProp::Title, StageValue::Int(3)), Ok(StageWrite::Title));
    assert_eq!(write_stage_prop(StageProp::BgColor, StageValue::Int(258)), Ok(StageWrite::BgColor(ColorRef::PaletteIndex(2))));
    assert_eq!(write_stage_prop(StageProp::BgColor, StageValue::Rect), Err(StagePropError::ColorExpected));
    assert_eq!(write_stage_prop(StageProp::DrawRect, StageValue::Rect), Ok(StageWrite::Resize { draw_rect: true }));
    assert_eq!(write_stage_prop(StageProp::Rect, StageValue::Rect), Ok(StageWrite::Resize { draw_rect: false }));
    assert_eq!(write_stage_prop(StageProp::Rect, StageValue::Int(1)), Err(StagePropError::RectExpected));
    assert_eq!(write_stage_prop(StageProp::SourceRect, StageValue::Other), Ok(StageWrite::Nothing));
    assert_eq!(write_stage_prop(StageProp::Image, StageValue::Other), Err(StagePropError::CannotSet));
    assert_eq!(write_stage_prop(StageProp::Movie, StageValue::Rect), Err(StagePropError::CannotSet));
}

#[test]
fn looking_up_the_stage_image_decodes_it() {
    let runs = std::rc::Rc::new(std::cell::Cell::new(0));
    let counter = runs.clone();
    let mut m: BitmapManager<Decoder> = BitmapManager::new();
    let r = m.add_lazy_bitmap(Box::new(move || {
        counter.set(counter.get() + 1);
        Bitmap::new(3, 1, 32, 32, 0, PaletteRef::BuiltIn(BuiltInPalette::SystemWin))
    }));
    assert_eq!(drawn_stage_image(&mut m, Some(r), false), None, "a clean image is captured again");
    assert_eq!(runs.get(), 1, "but reading it ran the decoder");
    assert_eq!(drawn_stage_image(&mut m, Some(r), true), Some(r));
    assert_eq!(runs.get(), 1);
}
