//! The stage's logic that does not need floating point: reading the
//! `swStretchStyle` embed parameter, which stage properties a script can
//! read and set, keeping the persistent bitmap behind `(the stage).image`,
//! and box-averaging a stage capture down to the movie's size once the
//! source spans of each target pixel are known.
use vstd::prelude::*;
use crate::bitmap::{Bitmap, ColorRef};
use crate::manager::{BitmapManager, BitmapRef, Slot};
use crate::text::{trimmed, trim, chars_of};

verus! {

/// How the movie is fitted to the stage the page gives it.
#[derive(Clone, Copy, Debug, PartialEq, Eq, Structural)]
pub enum StretchStyle {
    /// Scale to fit inside, keeping the aspect ratio (letterboxed).
    Meet,
    /// Scale to fill the stage, aspect ratio not kept.
    Fill,
    /// The stage takes the page's size; the content is not scaled.
    Stage,
    /// The stage keeps the authored movie size.
    NoStretch,
}

/// ASCII upper-case letters to lower case; every other character as it is.
pub open spec fn ascii_lower(c: char) -> char {
    if 'A' <= c && c <= 'Z' {
        ((c as u32) + 32) as char
    } else {
        c
    }
}

/// `str::eq_ignore_ascii_case`: equal once ASCII letters are lower-cased.
pub open spec fn eq_ignore_ascii_case(a: Seq<char>, b: Seq<char>) -> bool {
    a.len() == b.len() && forall|i: int| 0 <= i < a.len() ==> ascii_lower(#[trigger] a[i]) == ascii_lower(b[i])
}

/// The stretch style a parameter value names: trimmed and compared without
/// regard to ASCII case; anything else is `NoStretch`.
pub open spec fn style_named(value: Seq<char>) -> StretchStyle {
    let v = trimmed(value).map_values(|c: char| ascii_lower(c));
    if v == "meet"@ {
        StretchStyle::Meet
    } else if v == "fill"@ {
        StretchStyle::Fill
    } else if v == "stage"@ {
        StretchStyle::Stage
    } else {
        StretchStyle::NoStretch
    }
}

/// The stretch style the embed parameters ask for: the value of the first
/// parameter named `swStretchStyle` (in any ASCII case), else `NoStretch`.
pub open spec fn stretch_style_of(params: Seq<(String, String)>) -> StretchStyle {
    if exists|i: int| 0 <= i < params.len() && eq_ignore_ascii_case(#[trigger] params[i].0@, "swStretchStyle"@) {
        let i = choose|i: int|
            0 <= i < params.len() && eq_ignore_ascii_case(#[trigger] params[i].0@, "swStretchStyle"@) && forall|j: int|
                0 <= j < i ==> !eq_ignore_ascii_case(#[trigger] params[j].0@, "swStretchStyle"@);
        style_named(params[i].1@)
    } else {
        StretchStyle::NoStretch
    }
}

/// The first parameter named `swStretchStyle` (in any ASCII case) decides
/// the style; without one the movie is not stretched.
pub proof fn law_first_stretch_parameter_wins(params: Seq<(String, String)>, i: int)
    ensures
        0 <= i < params.len() && eq_ignore_ascii_case(params[i].0@, "swStretchStyle"@) && (forall|j: int|
            0 <= j < i ==> !eq_ignore_ascii_case(#[trigger] params[j].0@, "swStretchStyle"@)) ==> stretch_style_of(params)
            == style_named(params[i].1@),
        (forall|j: int| 0 <= j < params.len() ==> !eq_ignore_ascii_case(#[trigger] params[j].0@, "swStretchStyle"@))
            ==> stretch_style_of(params) == StretchStyle::NoStretch,
{
    if 0 <= i < params.len() && eq_ignore_ascii_case(params[i].0@, "swStretchStyle"@) && (forall|j: int|
        0 <= j < i ==> !eq_ignore_ascii_case(#[trigger] params[j].0@, "swStretchStyle"@)) {
        let k = choose|k: int|
            0 <= k < params.len() && eq_ignore_ascii_case(#[trigger] params[k].0@, "swStretchStyle"@) && forall|j: int|
                0 <= j < k ==> !eq_ignore_ascii_case(#[trigger] params[j].0@, "swStretchStyle"@);
        if k < i {
            assert(!eq_ignore_ascii_case(params[k].0@, "swStretchStyle"@));
        } else if k > i {
            assert(!eq_ignore_ascii_case(params[i].0@, "swStretchStyle"@));
        }
    }
}

/// A value names a style when, trimmed, it is `meet`, `fill` or `stage` in
/// some mix of ASCII cases; any other value means no stretching.
pub proof fn law_style_names(value: Seq<char>)
    ensures
        eq_ignore_ascii_case(trimmed(value), "meet"@) ==> style_named(value) == StretchStyle::Meet,
        eq_ignore_ascii_case(trimmed(value), "fill"@) ==> style_named(value) == StretchStyle::Fill,
        eq_ignore_ascii_case(trimmed(value), "stage"@) ==> style_named(value) == StretchStyle::Stage,
        !eq_ignore_ascii_case(trimmed(value), "meet"@) && !eq_ignore_ascii_case(trimmed(value), "fill"@)
            && !eq_ignore_ascii_case(trimmed(value), "stage"@) ==> style_named(value) == StretchStyle::NoStretch,
{
    let t = trimmed(value);
    let v = t.map_values(|c: char| ascii_lower(c));
    reveal_strlit("meet");
    reveal_strlit("fill");
    reveal_strlit("stage");
    let words = seq!["meet"@, "fill"@, "stage"@];
    assert forall|k: int| 0 <= k < 3 implies (v == #[trigger] words[k] <==> eq_ignore_ascii_case(t, words[k])) by {
        let w = words[k];
        assert forall|i: int| 0 <= i < w.len() implies ascii_lower(#[trigger] w[i]) == w[i] by {}
        if eq_ignore_ascii_case(t, w) {
            assert(v =~= w);
        }
        if v == w {
            assert forall|i: int| 0 <= i < t.len() implies ascii_lower(#[trigger] t[i]) == ascii_lower(w[i]) by {
                assert(v[i] == ascii_lower(t[i]));
            }
        }
    }
    assert(words[0] == "meet"@ && words[1] == "fill"@ && words[2] == "stage"@);
    assert("fill"@[0] != "meet"@[0]);
    assert("fill"@ != "meet"@);
}

fn ascii_lower_char(c: char) -> (r: char)
    ensures
        r == ascii_lower(c),
{
    if 'A' <= c && c <= 'Z' {
        ((c as u8) + 32) as char
    } else {
        c
    }
}

/// `a` and `b` hold the same characters.
fn same_chars(a: &Vec<char>, b: &Vec<char>) -> (r: bool)
    ensures
        r == (a@ == b@),
{
    if a.len() != b.len() {
        return false;
    }
    let mut i: usize = 0;
    while i < a.len()
        invariant
            a@.len() == b@.len(),
            i <= a@.len(),
            forall|j: int| 0 <= j < i ==> a@[j] == b@[j],
        decreases a.len() - i,
    {
        if a[i] != b[i] {
            return false;
        }
        i = i + 1;
    }
    assert(a@ =~= b@);
    true
}

/// `a` and `b` are equal once ASCII letters are lower-cased.
fn same_ignoring_ascii_case(a: &Vec<char>, b: &Vec<char>) -> (r: bool)
    ensures
        r == eq_ignore_ascii_case(a@, b@),
{
    if a.len() != b.len() {
        return false;
    }
    let mut i: usize = 0;
    while i < a.len()
        invariant
            a@.len() == b@.len(),
            i <= a@.len(),
            forall|j: int| 0 <= j < i ==> ascii_lower(#[trigger] a@[j]) == ascii_lower(b@[j]),
        decreases a.len() - i,
    {
        if ascii_lower_char(a[i]) != ascii_lower_char(b[i]) {
            return false;
        }
        i = i + 1;
    }
    true
}

fn style_from_value(value: &str) -> (r: StretchStyle)
    ensures
        r == style_named(value@),
{
    let t = chars_of(trim(value));
    let mut lower: Vec<char> = Vec::new();
    let mut i: usize = 0;
    while i < t.len()
        invariant
            i <= t@.len(),
            t@ == trimmed(value@),
            lower@ == t@.take(i as int).map_values(|c: char| ascii_lower(c)),
        decreases t.len() - i,
    {
        lower.push(ascii_lower_char(t[i]));
        proof {
            assert(t@.take(i + 1).map_values(|c: char| ascii_lower(c)) =~= t@.take(i as int).map_values(
                |c: char| ascii_lower(c),
            ).push(ascii_lower(t@[i as int])));
        }
        i = i + 1;
    }
    proof {
        assert(t@.take(t@.len() as int) =~= t@);
    }
    let meet = chars_of("meet");
    let fill = chars_of("fill");
    let stage = chars_of("stage");
    if same_chars(&lower, &meet) {
        StretchStyle::Meet
    } else if same_chars(&lower, &fill) {
        StretchStyle::Fill
    } else if same_chars(&lower, &stage) {
        StretchStyle::Stage
    } else {
        StretchStyle::NoStretch
    }
}

/// The stretch style the embed parameters ask for.
pub fn stretch_style(external_params: &Vec<(String, String)>) -> (r: StretchStyle)
    ensures
        r == stretch_style_of(external_params@),
{
    let name = chars_of("swStretchStyle");
    let mut i: usize = 0;
    while i < external_params.len()
        invariant
            i <= external_params@.len(),
            name@ == "swStretchStyle"@,
            forall|j: int| 0 <= j < i ==> !eq_ignore_ascii_case(#[trigger] external_params@[j].0@, "swStretchStyle"@),
        decreases external_params.len() - i,
    {
        let key = chars_of(external_params[i].0.as_str());
        if same_ignoring_ascii_case(&key, &name) {
            let r = style_from_value(external_params[i].1.as_str());
            proof {
                let params = external_params@;
                let k = choose|k: int|
                    0 <= k < params.len() && eq_ignore_ascii_case(#[trigger] params[k].0@, "swStretchStyle"@)
                        && forall|j: int| 0 <= j < k ==> !eq_ignore_ascii_case(#[trigger] params[j].0@, "swStretchStyle"@);
                assert(0 <= i < params.len() && eq_ignore_ascii_case(params[i as int].0@, "swStretchStyle"@) && forall|j: int|
                    0 <= j < i ==> !eq_ignore_ascii_case(#[trigger] params[j].0@, "swStretchStyle"@));
                if k < i {
                    assert(!eq_ignore_ascii_case(params[k].0@, "swStretchStyle"@));
                } else if k > i {
                    assert(!eq_ignore_ascii_case(params[i as int].0@, "swStretchStyle"@));
                }
            }
            return r;
        }
        i = i + 1;
    }
    StretchStyle::NoStretch
}

/// `b` with its alpha flag replaced.
pub open spec fn with_alpha(b: Bitmap, use_alpha: bool) -> Bitmap {
    Bitmap { use_alpha, ..b }
}

/// The stage image to hand out as it is: the persistent bitmap behind
/// `(the stage).image`, once a script has drawn into it (`dirty`), as long
/// as it is still stored. `None` means a fresh capture of the stage is
/// needed. Looking the image up reads it, so a pending decode runs.
pub fn drawn_stage_image<D: FnOnce() -> Bitmap>(
    manager: &mut BitmapManager<D>,
    stage_image: Option<BitmapRef>,
    dirty: bool,
) -> (r: Option<BitmapRef>)
    requires
        old(manager).wf(),
    ensures
        r == (if stage_image is Some && old(manager).slots().contains_key(stage_image.unwrap()) && dirty {
            stage_image
        } else {
            None
        }),
        final(manager).wf(),
        final(manager).refcounts() == old(manager).refcounts(),
        final(manager).counter() == old(manager).counter(),
        final(manager).issued() == old(manager).issued(),
        stage_image is Some && old(manager).slots().contains_key(stage_image.unwrap()) ==> {
            let i = stage_image.unwrap();
            &&& final(manager).slots()[i] is Ready
            &&& BitmapManager::<D>::decodes_to(old(manager).slots()[i], final(manager).slots()[i]->Ready_0)
            &&& final(manager).slots() == old(manager).slots().insert(i, final(manager).slots()[i])
        },
        !(stage_image is Some && old(manager).slots().contains_key(stage_image.unwrap()))
            ==> final(manager).slots() == old(manager).slots(),
{
    match stage_image {
        Some(existing) => {
            let stored = manager.get_bitmap(existing).is_some();
            if stored && dirty {
                Some(existing)
            } else {
                None
            }
        },
        None => None,
    }
}

/// Keeps a fresh capture of the stage as the stage image. The stage
/// framebuffer is opaque, so the capture loses its alpha flag: copying an
/// alpha source onto it then skips transparent pixels rather than writing
/// them. A stored stage image is refreshed in place and keeps its
/// reference and dirty flag; otherwise the capture is stored as a new
/// anchored bitmap, which becomes the stage image, clean.
pub fn store_stage_snapshot<D: FnOnce() -> Bitmap>(
    manager: &mut BitmapManager<D>,
    stage_image: &mut Option<BitmapRef>,
    dirty: &mut bool,
    snapshot: Bitmap,
) -> (r: BitmapRef)
    requires
        old(manager).wf(),
        !(*old(stage_image) is Some && old(manager).slots().contains_key((*old(stage_image)).unwrap()))
            ==> old(manager).counter() < u32::MAX,
    ensures
        final(manager).wf(),
        final(manager).refcounts() == old(manager).refcounts(),
        *old(stage_image) is Some && old(manager).slots().contains_key((*old(stage_image)).unwrap()) ==> {
            &&& r == (*old(stage_image)).unwrap()
            &&& *final(stage_image) == *old(stage_image)
            &&& *final(dirty) == *old(dirty)
            &&& final(manager).counter() == old(manager).counter()
            &&& final(manager).slots() == old(manager).slots().insert(r, Slot::Ready(with_alpha(snapshot, false)))
        },
        !(*old(stage_image) is Some && old(manager).slots().contains_key((*old(stage_image)).unwrap())) ==> {
            &&& r == old(manager).counter() + 1
            &&& *final(stage_image) == Some(r)
            &&& !*final(dirty)
            &&& final(manager).counter() == r
            &&& final(manager).slots() == old(manager).slots().insert(r, Slot::Ready(with_alpha(snapshot, false)))
        },
{
    let mut snapshot = snapshot;
    snapshot.use_alpha = false;
    if let Some(existing) = *stage_image {
        if manager.get_bitmap(existing).is_some() {
            match manager.get_bitmap_mut(existing) {
                Some(dst) => {
                    *dst = snapshot;
                },
                None => {},
            }
            return existing;
        }
    }
    let bitmap_id = manager.add_bitmap(snapshot);
    *stage_image = Some(bitmap_id);
    *dirty = false;
    bitmap_id
}

/// A span of source rows or columns clipped to `[0, limit)`.
pub open spec fn clip(span: (i64, i64), limit: int) -> (int, int) {
    (if span.0 < 0 { 0 } else { span.0 as int }, if span.1 < limit { span.1 as int } else { limit })
}

/// How many rows or columns a clipped span covers.
pub open spec fn span_len(r: (int, int)) -> int {
    if r.0 < r.1 {
        r.1 - r.0
    } else {
        0
    }
}

/// Channel `c` of source pixel `(x, y)` of a 32-bit bitmap.
pub open spec fn source_byte(src: Bitmap, x: int, y: int, c: int) -> int {
    src.data@[(y * src.width + x) * 4 + c] as int
}

/// Channel `c` summed over columns `[xlo, xhi)` of row `y`.
pub open spec fn row_sum(src: Bitmap, c: int, y: int, xlo: int, xhi: int) -> int
    decreases xhi - xlo,
{
    if xhi <= xlo {
        0
    } else {
        row_sum(src, c, y, xlo, xhi - 1) + source_byte(src, xhi - 1, y, c)
    }
}

/// Channel `c` summed over rows `[ylo, yhi)` and columns `[xlo, xhi)`.
pub open spec fn box_sum(src: Bitmap, c: int, ylo: int, yhi: int, xlo: int, xhi: int) -> int
    decreases yhi - ylo,
{
    if yhi <= ylo {
        0
    } else {
        box_sum(src, c, ylo, yhi - 1, xlo, xhi) + row_sum(src, c, yhi - 1, xlo, xhi)
    }
}

/// Channel `c` of target pixel `(tx, ty)`: the mean of the source pixels
/// its spans cover, 0 when they cover none.
pub open spec fn box_average(src: Bitmap, x_span: (i64, i64), y_span: (i64, i64), c: int) -> int {
    let xs = clip(x_span, src.width as int);
    let ys = clip(y_span, src.height as int);
    let n = span_len(xs) * span_len(ys);
    if n > 0 {
        box_sum(src, c, ys.0, ys.1, xs.0, xs.1) / n
    } else {
        0
    }
}

/// What `resample_spans` writes at byte `c` of target pixel `(tx, ty)`.
pub open spec fn resampled_byte(src: Bitmap, x_spans: Seq<(i64, i64)>, y_spans: Seq<(i64, i64)>, tx: int, ty: int, c: int) -> int {
    box_average(src, x_spans[tx], y_spans[ty], c)
}

proof fn lemma_count_step(k: int, cols: int, rows: int, j: int)
    requires
        0 <= k,
        k + 1 <= rows,
        0 <= j < cols,
    ensures
        k * cols + j + 1 <= rows * cols,
{
    assert(k * cols + cols <= rows * cols) by (nonlinear_arith)
        requires k + 1 <= rows, 0 <= cols;
}

proof fn lemma_mean_bound(a: int, n: int)
    requires
        0 <= a <= 255 * n,
        n > 0,
    ensures
        0 <= a / n <= 255,
{
    assert(a / n <= 255) by (nonlinear_arith)
        requires 0 <= a <= 255 * n, n > 0;
    assert(0 <= a / n) by (nonlinear_arith)
        requires 0 <= a, n > 0;
}

/// Box-averages a 32-bit bitmap into an `x_spans.len()` x `y_spans.len()`
/// one: channel by channel, target pixel `(tx, ty)` is the mean of the
/// source pixels in columns `x_spans[tx]` and rows `y_spans[ty]`, clipped
/// to the source, and stays 0 where they cover nothing. The result takes
/// the source's palette and alpha flag.
pub fn resample_spans(src: &Bitmap, x_spans: &Vec<(i64, i64)>, y_spans: &Vec<(i64, i64)>) -> (out: Bitmap)
    requires
        x_spans@.len() <= 0xffff,
        y_spans@.len() <= 0xffff,
        x_spans@.len() * y_spans@.len() * 4 <= usize::MAX,
        src.data@.len() >= src.width * src.height * 4,
        forall|tx: int, ty: int|
            0 <= tx < x_spans@.len() && 0 <= ty < y_spans@.len() ==> 255 * (span_len(
                clip(#[trigger] x_spans@[tx], src.width as int),
            ) * span_len(clip(#[trigger] y_spans@[ty], src.height as int))) <= u32::MAX,
    ensures
        out.width == x_spans@.len(),
        out.height == y_spans@.len(),
        out.bit_depth == 32,
        out.original_bit_depth == 32,
        out.palette_offset == 0,
        out.palette_ref == src.palette_ref,
        out.use_alpha == src.use_alpha,
        out.version == 0,
        out.matte is None,
        out.data@.len() == x_spans@.len() * y_spans@.len() * 4,
        forall|tx: int, ty: int, c: int|
            0 <= tx < x_spans@.len() && 0 <= ty < y_spans@.len() && 0 <= c < 4 ==> #[trigger] out.data@[(ty
                * x_spans@.len() + tx) * 4 + c] == resampled_byte(*src, x_spans@, y_spans@, tx, ty, c),
        // Target pixel (tx, ty) averages the columns of x_spans[tx] over
        // the rows of y_spans[ty], the span of the same row index.
        forall|tx: int, ty: int, c: int|
            0 <= tx < x_spans@.len() && 0 <= ty < y_spans@.len() && 0 <= c < 4 ==> #[trigger] out.data@[(ty
                * x_spans@.len() + tx) * 4 + c] == box_average(*src, x_spans@[tx], y_spans@[ty], c),
{
    let w = x_spans.len();
    let h = y_spans.len();
    let sw: i64 = src.width as i64;
    let sh: i64 = src.height as i64;
    let mut out = Bitmap::new(w as u16, h as u16, 32, 32, 0, src.palette_ref);
    out.use_alpha = src.use_alpha;
    let ghost xs = x_spans@;
    let ghost ys = y_spans@;
    let ghost wi = w as int;
    proof {
        assert forall|tx: int, ty2: int, c: int|
            0 <= tx < wi && 0 <= ty2 < h && 0 <= c < 4 implies #[trigger] out.data@[(ty2 * wi + tx) * 4 + c] == 0 by {
            crate::mask::lemma_index_in_grid(wi, h as int, tx, ty2);
            assert((ty2 * wi + tx) * 4 + 4 <= wi * h * 4) by (nonlinear_arith)
                requires ty2 * wi + tx + 1 <= wi * h;
        }
    }
    for ty in 0..h
        invariant
            w == x_spans@.len(),
            h == y_spans@.len(),
            xs == x_spans@,
            ys == y_spans@,
            wi == w,
            sw == src.width,
            sh == src.height,
            w <= 0xffff,
            h <= 0xffff,
            w * h * 4 <= usize::MAX,
            src.data@.len() >= src.width * src.height * 4,
            forall|tx: int, ty: int|
                0 <= tx < xs.len() && 0 <= ty < ys.len() ==> 255 * (span_len(clip(#[trigger] xs[tx], sw as int))
                    * span_len(clip(#[trigger] ys[ty], sh as int))) <= u32::MAX,
            out.width == w,
            out.height == h,
            out.bit_depth == 32,
            out.original_bit_depth == 32,
            out.palette_offset == 0,
            out.palette_ref == src.palette_ref,
            out.use_alpha == src.use_alpha,
            out.version == 0,
            out.matte is None,
            out.data@.len() == w * h * 4,
            forall|tx: int, ty2: int, c: int|
                0 <= tx < wi && 0 <= ty2 < h && 0 <= c < 4 ==> #[trigger] out.data@[(ty2 * wi + tx) * 4 + c] == if ty2 < ty {
                    resampled_byte(*src, xs, ys, tx, ty2, c)
                } else {
                    0
                },
    {
        let (ya, yb) = y_spans[ty];
        let ylo: i64 = if ya < 0 { 0 } else { ya };
        let yhi: i64 = if yb < sh { yb } else { sh };
        for tx in 0..w
            invariant
                w == x_spans@.len(),
                h == y_spans@.len(),
                xs == x_spans@,
                ys == y_spans@,
                wi == w,
                sw == src.width,
                sh == src.height,
                w <= 0xffff,
                h <= 0xffff,
                w * h * 4 <= usize::MAX,
                ty < h,
                (ylo as int, yhi as int) == clip(ys[ty as int], sh as int),
                src.data@.len() >= src.width * src.height * 4,
                forall|tx: int, ty: int|
                    0 <= tx < xs.len() && 0 <= ty < ys.len() ==> 255 * (span_len(clip(#[trigger] xs[tx], sw as int))
                        * span_len(clip(#[trigger] ys[ty], sh as int))) <= u32::MAX,
                out.width == w,
                out.height == h,
                out.bit_depth == 32,
                out.original_bit_depth == 32,
                out.palette_offset == 0,
                out.palette_ref == src.palette_ref,
                out.use_alpha == src.use_alpha,
                out.version == 0,
                out.matte is None,
                out.data@.len() == w * h * 4,
                forall|tx2: int, ty2: int, c: int|
                    0 <= tx2 < wi && 0 <= ty2 < h && 0 <= c < 4 ==> #[trigger] out.data@[(ty2 * wi + tx2) * 4 + c] == if ty2
                        < ty || (ty2 == ty && tx2 < tx) {
                        resampled_byte(*src, xs, ys, tx2, ty2, c)
                    } else {
                        0
                    },
        {
            let (xa, xb) = x_spans[tx];
            let xlo: i64 = if xa < 0 { 0 } else { xa };
            let xhi: i64 = if xb < sw { xb } else { sw };
            let ghost cols: int = span_len((xlo as int, xhi as int));
            let ghost rows: int = span_len((ylo as int, yhi as int));
            proof {
                assert(255 * (cols * rows) <= u32::MAX);
                assert(cols * rows == rows * cols) by (nonlinear_arith);
            }
            let mut a0: u32 = 0;
            let mut a1: u32 = 0;
            let mut a2: u32 = 0;
            let mut a3: u32 = 0;
            let mut n: u32 = 0;
            let mut y: i64 = ylo;
            while y < yhi
                invariant
                    ylo <= y,
                    ylo < yhi ==> y <= yhi,
                    ylo >= yhi ==> y == ylo,
                    0 <= ylo,
                    yhi <= sh,
                    0 <= xlo,
                    xhi <= sw,
                    sw == src.width,
                    sh == src.height,
                    src.data@.len() >= src.width * src.height * 4,
                    cols == span_len((xlo as int, xhi as int)),
                    rows == span_len((ylo as int, yhi as int)),
                    255 * (rows * cols) <= u32::MAX,
                    n == (y - ylo) * cols,
                    a0 == box_sum(*src, 0, ylo as int, y as int, xlo as int, xhi as int),
                    a1 == box_sum(*src, 1, ylo as int, y as int, xlo as int, xhi as int),
                    a2 == box_sum(*src, 2, ylo as int, y as int, xlo as int, xhi as int),
                    a3 == box_sum(*src, 3, ylo as int, y as int, xlo as int, xhi as int),
                    a0 <= 255 * n,
                    a1 <= 255 * n,
                    a2 <= 255 * n,
                    a3 <= 255 * n,
                decreases yhi - y,
            {
                let mut x: i64 = xlo;
                let ghost r0 = a0;
                let ghost r1 = a1;
                let ghost r2 = a2;
                let ghost r3 = a3;
                while x < xhi
                    invariant
                        ylo <= y < yhi,
                        xlo <= x,
                        xlo < xhi ==> x <= xhi,
                        xlo >= xhi ==> x == xlo,
                        0 <= ylo,
                        yhi <= sh,
                        0 <= xlo,
                        xhi <= sw,
                        sw == src.width,
                        sh == src.height,
                        src.data@.len() >= src.width * src.height * 4,
                        cols == span_len((xlo as int, xhi as int)),
                        rows == span_len((ylo as int, yhi as int)),
                        255 * (rows * cols) <= u32::MAX,
                        n == (y - ylo) * cols + (x - xlo),
                        a0 == r0 + row_sum(*src, 0, y as int, xlo as int, x as int),
                        a1 == r1 + row_sum(*src, 1, y as int, xlo as int, x as int),
                        a2 == r2 + row_sum(*src, 2, y as int, xlo as int, x as int),
                        a3 == r3 + row_sum(*src, 3, y as int, xlo as int, x as int),
                        a0 <= 255 * n,
                        a1 <= 255 * n,
                        a2 <= 255 * n,
                        a3 <= 255 * n,
                    decreases xhi - x,
                {
                    proof {
                        lemma_count_step(y - ylo, cols, rows, x - xlo);
                        crate::mask::lemma_index_in_grid(sw as int, sh as int, x as int, y as int);
                        assert((y * sw + x) * 4 + 4 <= sw * sh * 4) by (nonlinear_arith)
                            requires y * sw + x + 1 <= sw * sh;
                        assert(src.data@.len() == src.data.len());
                    }
                    let i: usize = ((y * sw + x) * 4) as usize;
                    a0 = a0 + src.data[i] as u32;
                    a1 = a1 + src.data[i + 1] as u32;
                    a2 = a2 + src.data[i + 2] as u32;
                    a3 = a3 + src.data[i + 3] as u32;
                    n = n + 1;
                    x = x + 1;
                }
                proof {
                    if xlo < xhi {
                        assert(x == xhi);
                    } else {
                        assert(x == xlo);
                        assert(row_sum(*src, 0, y as int, xlo as int, xhi as int) == 0);
                        assert(row_sum(*src, 1, y as int, xlo as int, xhi as int) == 0);
                        assert(row_sum(*src, 2, y as int, xlo as int, xhi as int) == 0);
                        assert(row_sum(*src, 3, y as int, xlo as int, xhi as int) == 0);
                    }
                    assert((y + 1 - ylo) * cols == (y - ylo) * cols + cols) by (nonlinear_arith);
                }
                y = y + 1;
            }
            proof {
                if ylo < yhi {
                    assert(y == yhi);
                } else {
                    assert(y == ylo);
                }
                assert(n == rows * cols);
                crate::mask::lemma_index_in_grid(wi, h as int, tx as int, ty as int);
                assert((ty * wi + tx) * 4 + 4 <= wi * h * 4) by (nonlinear_arith)
                    requires ty * wi + tx + 1 <= wi * h;
                assert(box_average(*src, xs[tx as int], ys[ty as int], 0) == if n > 0 { a0 as int / n as int } else { 0 });
            }
            let o: usize = (ty * w + tx) * 4;
            let ghost before = out.data@;
            if n > 0 {
                proof {
                    lemma_mean_bound(a0 as int, n as int);
                    lemma_mean_bound(a1 as int, n as int);
                    lemma_mean_bound(a2 as int, n as int);
                    lemma_mean_bound(a3 as int, n as int);
                }
                out.data.set(o, (a0 / n) as u8);
                out.data.set(o + 1, (a1 / n) as u8);
                out.data.set(o + 2, (a2 / n) as u8);
                out.data.set(o + 3, (a3 / n) as u8);
            }
            proof {
                assert forall|tx2: int, ty2: int, c: int|
                    0 <= tx2 < wi && 0 <= ty2 < h && 0 <= c < 4 implies #[trigger] out.data@[(ty2 * wi + tx2) * 4 + c] == if ty2
                        < ty || (ty2 == ty && tx2 < tx + 1) {
                        resampled_byte(*src, xs, ys, tx2, ty2, c)
                    } else {
                        0
                    } by {
                    crate::mask::lemma_index_in_grid(wi, h as int, tx2, ty2);
                    let k = ty2 * wi + tx2;
                    let kk = ty * wi + tx;
                    if k == kk {
                        crate::mask::lemma_index_injective(wi, tx2, ty2, tx as int, ty as int);
                    } else {
                        assert(k * 4 + c != kk * 4 + 0 && k * 4 + c != kk * 4 + 1 && k * 4 + c != kk * 4 + 2 && k * 4 + c != kk * 4 + 3);
                        assert(out.data@[k * 4 + c] == before[k * 4 + c]);
                        if ty2 == ty && tx2 == tx {
                            assert(false);
                        }
                    }
                }
            }
        }
    }
    proof {
        assert forall|tx: int, ty: int, c: int|
            0 <= tx < xs.len() && 0 <= ty < ys.len() && 0 <= c < 4 implies #[trigger] out.data@[(ty * xs.len() + tx) * 4 + c]
                == resampled_byte(*src, xs, ys, tx, ty, c) by {
            assert(out.data@[(ty * wi + tx) * 4 + c] == resampled_byte(*src, xs, ys, tx, ty, c));
        }
    }
    out
}

/// A stage property a script names: `(the stage).<prop>`.
#[derive(Clone, Copy, Debug, PartialEq, Eq, Structural)]
pub enum StageProp {
    Movie,
    Name,
    Rect,
    DrawRect,
    SourceRect,
    BgColor,
    Image,
    Title,
    /// Any other property.
    Other,
}

/// The kind of value a script assigns to a stage property.
#[derive(Clone, Copy, Debug, PartialEq, Eq, Structural)]
pub enum StageValue {
    /// A colour value.
    Color(ColorRef),
    /// An integer.
    Int(i32),
    /// A rectangle; its coordinates stay with the caller.
    Rect,
    /// Any other kind of value.
    Other,
}

/// Why a stage property could not be read or set.
#[derive(Clone, Copy, Debug, PartialEq, Eq, Structural)]
pub enum StagePropError {
    /// Reading a property the stage does not have ("Invalid stage property").
    Invalid,
    /// Setting a property that cannot be set ("Cannot set stage property").
    CannotSet,
    /// bgColor takes a colour or an integer.
    ColorExpected,
    /// rect and drawRect take a rectangle.
    RectExpected,
}

/// What reading a stage property gives.
#[derive(Debug)]
pub enum StageRead {
    /// The movie playing on the stage.
    MovieRef,
    /// The stage's name.
    Name(String),
    /// The stage rectangle of the current layout.
    StageRect,
    /// The rectangle the stage is drawn into.
    DrawRect,
    /// The movie's own rectangle.
    SourceRect,
    /// The stage background colour.
    BgColor,
    /// The stage image (see `drawn_stage_image` and `store_stage_snapshot`).
    Image,
}

/// What setting a stage property does.
#[derive(Clone, Copy, Debug, PartialEq, Eq, Structural)]
pub enum StageWrite {
    /// The title becomes the value's text.
    Title,
    /// The background becomes this colour.
    BgColor(ColorRef),
    /// The stage is resized to the rectangle; `draw_rect` when it is also
    /// the rectangle the stage is drawn into.
    Resize { draw_rect: bool },
    /// Nothing changes (sourceRect is accepted and ignored).
    Nothing,
}

/// The stage background colour a script's value sets: a colour as it is,
/// an integer as the palette index of its low byte, and an error for
/// anything else (a colour or an integer is expected).
pub fn stage_bg_color(value: StageValue) -> (r: Result<ColorRef, StagePropError>)
    ensures
        match value {
            StageValue::Color(c) => r == Ok::<ColorRef, StagePropError>(c),
            StageValue::Int(i) => r == Ok::<ColorRef, StagePropError>(ColorRef::PaletteIndex(i as u8)),
            _ => r == Err::<ColorRef, StagePropError>(StagePropError::ColorExpected),
        },
{
    match value {
        StageValue::Color(color_ref) => Ok(color_ref),
        StageValue::Int(i) => Ok(ColorRef::PaletteIndex(i as u8)),
        _ => Err(StagePropError::ColorExpected),
    }
}

/// What reading `(the stage).<prop>` gives: movie, name ("stage"), rect,
/// drawRect, sourceRect, bgColor and image; any other property is invalid.
pub fn read_stage_prop(prop: StageProp) -> (r: Result<StageRead, StagePropError>)
    ensures
        match prop {
            StageProp::Movie => r matches Ok(StageRead::MovieRef),
            StageProp::Name => r matches Ok(StageRead::Name(n)) && n@ == "stage"@,
            StageProp::Rect => r matches Ok(StageRead::StageRect),
            StageProp::DrawRect => r matches Ok(StageRead::DrawRect),
            StageProp::SourceRect => r matches Ok(StageRead::SourceRect),
            StageProp::BgColor => r matches Ok(StageRead::BgColor),
            StageProp::Image => r matches Ok(StageRead::Image),
            _ => r matches Err(StagePropError::Invalid),
        },
{
    match prop {
        StageProp::Movie => Ok(StageRead::MovieRef),
        StageProp::Name => Ok(StageRead::Name(String::from_str("stage"))),
        StageProp::Rect => Ok(StageRead::StageRect),
        StageProp::DrawRect => Ok(StageRead::DrawRect),
        StageProp::SourceRect => Ok(StageRead::SourceRect),
        StageProp::BgColor => Ok(StageRead::BgColor),
        StageProp::Image => Ok(StageRead::Image),
        _ => Err(StagePropError::Invalid),
    }
}

/// What setting `(the stage).<prop>` to `value` does: title takes the
/// value's text; bgColor a colour or an integer (`stage_bg_color`); rect and
/// drawRect a rectangle, which resizes the stage; sourceRect is accepted
/// and changes nothing; any other property cannot be set.
pub fn write_stage_prop(prop: StageProp, value: StageValue) -> (r: Result<StageWrite, StagePropError>)
    ensures
        match prop {
            StageProp::Title => r == Ok::<StageWrite, StagePropError>(StageWrite::Title),
            StageProp::BgColor => match value {
                StageValue::Color(c) => r == Ok::<StageWrite, StagePropError>(StageWrite::BgColor(c)),
                StageValue::Int(i) => r == Ok::<StageWrite, StagePropError>(
                    StageWrite::BgColor(ColorRef::PaletteIndex(i as u8)),
                ),
                _ => r == Err::<StageWrite, StagePropError>(StagePropError::ColorExpected),
            },
            StageProp::Rect | StageProp::DrawRect => if value is Rect {
                r == Ok::<StageWrite, StagePropError>(StageWrite::Resize { draw_rect: prop is DrawRect })
            } else {
                r == Err::<StageWrite, StagePropError>(StagePropError::RectExpected)
            },
            StageProp::SourceRect => r == Ok::<StageWrite, StagePropError>(StageWrite::Nothing),
            _ => r == Err::<StageWrite, StagePropError>(StagePropError::CannotSet),
        },
{
    match prop {
        StageProp::Title => Ok(StageWrite::Title),
        StageProp::BgColor => match stage_bg_color(value) {
            Ok(color) => Ok(StageWrite::BgColor(color)),
            Err(e) => Err(e),
        },
        StageProp::Rect | StageProp::DrawRect => match value {
            StageValue::Rect => Ok(StageWrite::Resize { draw_rect: prop == StageProp::DrawRect }),
            _ => Err(StagePropError::RectExpected),
        },
        StageProp::SourceRect => Ok(StageWrite::Nothing),
        _ => Err(StagePropError::CannotSet),
    }
}

/// Channel `c` summed over columns `[xlo, xhi)` of row `y` is `v` per
/// column when every one of those bytes is `v`.
proof fn lemma_row_sum_uniform(src: Bitmap, c: int, y: int, xlo: int, xhi: int, v: int)
    requires
        xlo <= xhi,
        forall|x: int| xlo <= x < xhi ==> #[trigger] source_byte(src, x, y, c) == v,
    ensures
        row_sum(src, c, y, xlo, xhi) == v * (xhi - xlo),
    decreases xhi - xlo,
{
    if xhi > xlo {
        lemma_row_sum_uniform(src, c, y, xlo, xhi - 1, v);
        assert(source_byte(src, xhi - 1, y, c) == v);
        assert(row_sum(src, c, y, xlo, xhi) == row_sum(src, c, y, xlo, xhi - 1) + source_byte(src, xhi - 1, y, c));
        assert(v * (xhi - 1 - xlo) + v == v * (xhi - xlo)) by (nonlinear_arith);
    } else {
        assert(v * (xhi - xlo) == 0) by (nonlinear_arith)
            requires xhi == xlo;
    }
}

/// The box sum of a uniform box is its value times its area.
proof fn lemma_box_sum_uniform(src: Bitmap, c: int, ylo: int, yhi: int, xlo: int, xhi: int, v: int)
    requires
        ylo <= yhi,
        xlo <= xhi,
        forall|x: int, y: int| xlo <= x < xhi && ylo <= y < yhi ==> #[trigger] source_byte(src, x, y, c) == v,
    ensures
        box_sum(src, c, ylo, yhi, xlo, xhi) == v * (xhi - xlo) * (yhi - ylo),
    decreases yhi - ylo,
{
    if yhi > ylo {
        lemma_box_sum_uniform(src, c, ylo, yhi - 1, xlo, xhi, v);
        assert forall|x: int| xlo <= x < xhi implies #[trigger] source_byte(src, x, yhi - 1, c) == v by {
            assert(source_byte(src, x, yhi - 1, c) == v);
        }
        lemma_row_sum_uniform(src, c, yhi - 1, xlo, xhi, v);
        assert(v * (xhi - xlo) * (yhi - 1 - ylo) + v * (xhi - xlo) == v * (xhi - xlo) * (yhi - ylo))
            by (nonlinear_arith);
        assert(box_sum(src, c, ylo, yhi, xlo, xhi) == box_sum(src, c, ylo, yhi - 1, xlo, xhi) + row_sum(src, c, yhi - 1, xlo, xhi));
    } else {
        assert(v * (xhi - xlo) * (yhi - ylo) == 0) by (nonlinear_arith)
            requires yhi == ylo;
    }
}

/// Averaging a region whose channel `c` is `v` throughout gives `v`: a
/// target pixel whose spans cover only one colour takes that colour.
pub proof fn law_uniform_region_averages_to_its_value(
    src: Bitmap,
    x_span: (i64, i64),
    y_span: (i64, i64),
    c: int,
    v: int,
)
    requires
        span_len(clip(x_span, src.width as int)) > 0,
        span_len(clip(y_span, src.height as int)) > 0,
        forall|x: int, y: int|
            clip(x_span, src.width as int).0 <= x < clip(x_span, src.width as int).1 && clip(y_span, src.height as int).0
                <= y < clip(y_span, src.height as int).1 ==> #[trigger] src.data@[(y * src.width + x) * 4 + c] == v,
    ensures
        box_average(src, x_span, y_span, c) == v,
{
    let xs = clip(x_span, src.width as int);
    let ys = clip(y_span, src.height as int);
    assert forall|x: int, y: int| xs.0 <= x < xs.1 && ys.0 <= y < ys.1 implies #[trigger] source_byte(src, x, y, c) == v by {
        assert(src.data@[(y * src.width + x) * 4 + c] == v);
        assert(source_byte(src, x, y, c) == src.data@[(y * src.width + x) * 4 + c] as int);
    }
    lemma_box_sum_uniform(src, c, ys.0, ys.1, xs.0, xs.1, v);
    let a = xs.1 - xs.0;
    let b = ys.1 - ys.0;
    assert(span_len(xs) * span_len(ys) == a * b);
    assert(v * a * b == v * (a * b)) by (nonlinear_arith);
    assert(a * b > 0) by (nonlinear_arith)
        requires a > 0, b > 0;
    assert((v * (a * b)) / (a * b) == v) by (nonlinear_arith)
        requires a * b > 0;
}

/// A target pixel whose spans cover one source pixel `(x, y)` copies it.
pub proof fn law_single_pixel_span_copies_it(src: Bitmap, x: i64, y: i64, c: int)
    requires
        0 <= x < src.width,
        0 <= y < src.height,
    ensures
        box_average(src, (x, (x + 1) as i64), (y, (y + 1) as i64), c) == src.data@[(y * src.width + x) * 4 + c],
{
    let xs = clip((x, (x + 1) as i64), src.width as int);
    let ys = clip((y, (y + 1) as i64), src.height as int);
    assert(xs == (x as int, x + 1));
    assert(ys == (y as int, y + 1));
    assert(row_sum(src, c, y as int, x as int, x as int) == 0);
    assert(row_sum(src, c, y as int, x as int, x + 1) == source_byte(src, x as int, y as int, c));
    assert(span_len(xs) == 1 && span_len(ys) == 1);
    assert(span_len(xs) * span_len(ys) == 1);
    assert(box_sum(src, c, y as int, y as int, x as int, x + 1) == 0);
    assert(box_sum(src, c, y as int, y + 1, x as int, x + 1) == row_sum(src, c, y as int, x as int, x + 1));
}

} // verus!
