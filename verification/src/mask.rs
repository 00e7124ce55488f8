//! One-bit masks over a bitmap's pixels, the flood fill that mattes are cut
//! with, and the mask and matte builders of `Bitmap`.
use vstd::prelude::*;
use crate::bit_storage::{Bits, bits_of, bits_repeat, bits_get, bits_set, max_bits};
use crate::bitmap::{Bitmap, ColorRef, PaletteMap};
use std::sync::Arc;
use crate::grid::{Point, in_grid, on_edge, adjacent, pt, listed, fill_path, reaches, count_true,
    lemma_reaches_seed, lemma_reaches_step, lemma_closed_set_covers_path, lemma_reaches_congruent,
    lemma_count_true_clear};

verus! {

/// `(x, y)` on a `w` x `h` grid has a row-major index inside the grid's span.
pub proof fn lemma_index_in_grid(w: int, h: int, x: int, y: int)
    requires
        0 <= x < w,
        0 <= y < h,
    ensures
        0 <= y * w + x,
        y * w + x + 1 <= w * h,
        w <= 0xffff && h <= 0xffff ==> w * h <= 0xfffe_0001,
{
    if w <= 0xffff && h <= 0xffff {
        assert(w * h <= 0xffff * 0xffff) by (nonlinear_arith)
            requires 0 <= w <= 0xffff, 0 <= h <= 0xffff;
    }
    assert(0 <= y * w) by (nonlinear_arith)
        requires 0 <= y, 0 <= w;
    assert(y * w + w <= w * h) by (nonlinear_arith)
        requires y + 1 <= h, 0 <= w;
}

/// Distinct pixels have distinct row-major indices.
pub proof fn lemma_index_injective(w: int, x1: int, y1: int, x2: int, y2: int)
    requires
        0 <= x1 < w,
        0 <= x2 < w,
        0 <= y1,
        0 <= y2,
        y1 * w + x1 == y2 * w + x2,
    ensures
        x1 == x2,
        y1 == y2,
{
    if y1 < y2 {
        assert(y1 * w + w <= y2 * w) by (nonlinear_arith)
            requires y1 + 1 <= y2, 0 <= w;
    } else if y2 < y1 {
        assert(y2 * w + w <= y1 * w) by (nonlinear_arith)
            requires y2 + 1 <= y1, 0 <= w;
    }
}

pub struct BitmapMask {
    pub width: u16,
    pub height: u16,
    pub data: Bits,
}

impl Clone for BitmapMask {
    fn clone(&self) -> (r: Self)
        ensures
            r.width == self.width,
            r.height == self.height,
            r.bits() == self.bits(),
    {
        BitmapMask { width: self.width, height: self.height, data: self.data.clone() }
    }
}

impl PartialEq for BitmapMask {
    fn eq(&self, other: &Self) -> (r: bool) {
        self.width == other.width && self.height == other.height && self.data == other.data
    }
}

impl vstd::std_specs::cmp::PartialEqSpecImpl for BitmapMask {
    open spec fn obeys_eq_spec() -> bool {
        true
    }

    open spec fn eq_spec(&self, other: &Self) -> bool {
        self.width == other.width && self.height == other.height && self.bits() == other.bits()
    }
}

impl Eq for BitmapMask {
}

impl BitmapMask {
    /// The mask's bits, row by row.
    pub open spec fn bits(self) -> Seq<bool> {
        bits_of(self.data)
    }

    /// There is a bit for every pixel.
    pub open spec fn wf(self) -> bool {
        self.bits().len() >= self.width * self.height
    }

    /// Row-major index of pixel `p`.
    pub open spec fn index_of(self, p: Point) -> int {
        p.1 * self.width + p.0
    }

    /// The bit of pixel `p`; `false` off the grid.
    pub open spec fn at(self, p: Point) -> bool {
        if in_grid(self.width as int, self.height as int, p) {
            self.bits()[self.index_of(p)]
        } else {
            false
        }
    }

    /// A `width` x `height` mask with every bit `default`.
    pub fn new(width: u16, height: u16, default: bool) -> (r: BitmapMask)
        requires
            width * height <= max_bits(),
        ensures
            r.width == width,
            r.height == height,
            r.bits() == Seq::new((width * height) as nat, |i: int| default),
            r.wf(),
            forall|p: Point| in_grid(width as int, height as int, p) ==> #[trigger] r.at(p) == default,
    {
        let n: usize = (width as usize) * (height as usize);
        let r = BitmapMask { width, height, data: bits_repeat(default, n) };
        assert forall|p: Point| in_grid(width as int, height as int, p) implies #[trigger] r.at(p) == default by {
            lemma_index_in_grid(width as int, height as int, p.0, p.1);
        }
        r
    }

    /// The bit of pixel `(x, y)`, `false` off the mask.
    pub fn get_bit(&self, x: u16, y: u16) -> (r: bool)
        requires
            self.wf(),
        ensures
            r == self.at(pt((x, y))),
    {
        if x >= self.width || y >= self.height {
            return false;
        }
        proof {
            lemma_index_in_grid(self.width as int, self.height as int, x as int, y as int);
        }
        bits_get(&self.data, (y as usize * self.width as usize) + (x as usize))
    }

    /// The seeds of a fill started at `points`.
    pub open spec fn seeds_of(points: Seq<(u16, u16)>) -> spec_fn(Point) -> bool {
        |p: Point| listed(points, p)
    }

    /// The pixels whose bit is `from`.
    pub open spec fn with_bit(self, from: bool) -> spec_fn(Point) -> bool {
        |p: Point| self.at(p) == from
    }

    /// A fill from `points` through pixels whose bit is `from` reaches `p`.
    pub open spec fn flood_reaches(self, points: Seq<(u16, u16)>, from: bool, p: Point) -> bool {
        reaches(self.width as int, self.height as int, self.with_bit(from), Self::seeds_of(points), p)
    }

    /// Writes the bit of pixel `(x, y)`; a pixel off the mask changes nothing.
    pub fn set_bit(&mut self, x: u16, y: u16, value: bool)
        requires
            old(self).wf(),
        ensures
            final(self).width == old(self).width,
            final(self).height == old(self).height,
            final(self).bits() == if in_grid(old(self).width as int, old(self).height as int, pt((x, y))) {
                old(self).bits().update(old(self).index_of(pt((x, y))), value)
            } else {
                old(self).bits()
            },
            final(self).wf(),
            forall|p: Point| #[trigger] final(self).at(p) == if p == pt((x, y)) && in_grid(
                old(self).width as int,
                old(self).height as int,
                p,
            ) {
                value
            } else {
                old(self).at(p)
            },
    {
        if x >= self.width || y >= self.height {
            return;
        }
        proof {
            lemma_index_in_grid(self.width as int, self.height as int, x as int, y as int);
        }
        bits_set(&mut self.data, (y as usize * self.width as usize) + (x as usize), value);
        proof {
            let w = self.width as int;
            let h = self.height as int;
            assert forall|p: Point| #[trigger] self.at(p) == if p == pt((x, y)) && in_grid(w, h, p) {
                value
            } else {
                old(self).at(p)
            } by {
                if in_grid(w, h, p) && p != pt((x, y)) {
                    lemma_index_in_grid(w, h, p.0, p.1);
                    if p.1 * w + p.0 == (y as int) * w + (x as int) {
                        lemma_index_injective(w, p.0, p.1, x as int, y as int);
                    }
                }
            }
        }
    }
}

impl BitmapMask {
    /// Flood fill: every pixel that `points` reach through 4-connected
    /// pixels whose bit is `from` gets the bit `to`. Returns the pixels the
    /// fill did not reach (`true`) and those it did (`false`).
    pub fn flood_matte(&mut self, points: Vec<(u16, u16)>, from: bool, to: bool) -> (not_visited: BitmapMask)
        requires
            old(self).wf(),
            old(self).width * old(self).height <= max_bits(),
        ensures
            final(self).width == old(self).width,
            final(self).height == old(self).height,
            final(self).bits().len() == old(self).bits().len(),
            forall|i: int|
                old(self).width * old(self).height <= i < old(self).bits().len() ==> final(self).bits()[i]
                    == old(self).bits()[i],
            forall|p: Point|
                in_grid(old(self).width as int, old(self).height as int, p) ==> #[trigger] final(self).at(p)
                    == if old(self).flood_reaches(points@, from, p) {
                    to
                } else {
                    old(self).at(p)
                },
            not_visited.width == old(self).width,
            not_visited.height == old(self).height,
            not_visited.bits().len() == old(self).width * old(self).height,
            forall|p: Point|
                in_grid(old(self).width as int, old(self).height as int, p) ==> #[trigger] not_visited.at(p)
                    == !old(self).flood_reaches(points@, from, p),
    {
        let w = self.width;
        let h = self.height;
        let ghost wi = w as int;
        let ghost hi = h as int;
        let ghost m0 = *self;
        let ghost seeds = points@;
        let ghost open0 = m0.with_bit(from);
        let ghost seed0 = Self::seeds_of(seeds);
        let mut stack = points;
        let mut not_visited = BitmapMask::new(w, h, true);
        while stack.len() > 0
            invariant
                self.width == w,
                self.height == h,
                m0.width == w,
                m0.height == h,
                wi == w,
                hi == h,
                m0.wf(),
                self.bits().len() == m0.bits().len(),
                forall|i: int| wi * hi <= i < m0.bits().len() ==> self.bits()[i] == m0.bits()[i],
                not_visited.width == w,
                not_visited.height == h,
                not_visited.bits().len() == wi * hi,
                open0 == m0.with_bit(from),
                seed0 == Self::seeds_of(seeds),
                forall|p: Point|
                    in_grid(wi, hi, p) ==> #[trigger] self.at(p) == if not_visited.at(p) {
                        m0.at(p)
                    } else {
                        to
                    },
                forall|p: Point|
                    in_grid(wi, hi, p) && !#[trigger] not_visited.at(p) ==> reaches(wi, hi, open0, seed0, p),
                forall|i: int|
                    0 <= i < stack@.len() ==> listed(seeds, pt(#[trigger] stack@[i])) || exists|v: Point|
                        in_grid(wi, hi, v) && !#[trigger] not_visited.at(v) && adjacent(v, pt(stack@[i])),
                forall|q: Point|
                    in_grid(wi, hi, q) && m0.at(q) == from && #[trigger] listed(seeds, q) ==> listed(stack@, q)
                        || !not_visited.at(q),
                forall|v: Point, n: Point|
                    in_grid(wi, hi, v) && !#[trigger] not_visited.at(v) && #[trigger] adjacent(v, n) && in_grid(
                        wi,
                        hi,
                        n,
                    ) && m0.at(n) == from ==> listed(stack@, n) || !not_visited.at(n),
            decreases 5 * count_true(not_visited.bits()) + stack@.len(),
        {
            let ghost old_stack = stack@;
            let ghost nv0 = not_visited;
            let ghost self0 = *self;
            let ghost count0 = count_true(not_visited.bits());
            let point = stack.pop().unwrap();
            let (x, y) = point;
            let ghost p = pt(point);
            assert(old_stack.last() == point);
            assert(stack@ == old_stack.drop_last());
            let ghost base = stack@.len();
            if not_visited.get_bit(x, y) {
                if x < self.width && y < self.height && self.get_bit(x, y) == from {
                    proof {
                        lemma_index_in_grid(wi, hi, x as int, y as int);
                        assert(m0.at(p) == from);
                        assert(open0(p));
                        // The pixel is reached: it is a seed, or next to a reached pixel.
                        if listed(seeds, p) {
                            assert(seed0(p));
                            lemma_reaches_seed(wi, hi, open0, seed0, p);
                        } else {
                            assert(pt(old_stack[old_stack.len() - 1]) == p);
                            let v = choose|v: Point|
                                in_grid(wi, hi, v) && !#[trigger] not_visited.at(v) && adjacent(v, p);
                            lemma_reaches_step(wi, hi, open0, seed0, v, p);
                        }
                        assert(not_visited.bits()[not_visited.index_of(p)]);
                        lemma_count_true_clear(not_visited.bits(), not_visited.index_of(p));
                    }
                    self.set_bit(x, y, to);
                    not_visited.set_bit(x, y, false);
                    let ghost mut right: int = -1;
                    let ghost mut left: int = -1;
                    let ghost mut down: int = -1;
                    let ghost mut up: int = -1;
                    if x + 1 < self.width {
                        stack.push((x + 1, y));
                        proof {
                            right = stack@.len() - 1;
                        }
                    }
                    if x > 0 {
                        stack.push((x - 1, y));
                        proof {
                            left = stack@.len() - 1;
                        }
                    }
                    if y + 1 < self.height {
                        stack.push((x, y + 1));
                        proof {
                            down = stack@.len() - 1;
                        }
                    }
                    if y > 0 {
                        stack.push((x, y - 1));
                        proof {
                            up = stack@.len() - 1;
                        }
                    }
                    proof {
                        assert(stack@.len() <= base + 4);
                        assert forall|i: int| 0 <= i < base implies stack@[i] == old_stack[i] by {}
                        assert forall|i: int| base <= i < stack@.len() implies adjacent(p, pt(#[trigger] stack@[i])) by {
                            if i == right {
                            } else if i == left {
                            } else if i == down {
                            } else {
                                assert(i == up);
                            }
                        }
                        assert(right >= 0 ==> pt(stack@[right]) == (p.0 + 1, p.1));
                        assert(left >= 0 ==> pt(stack@[left]) == (p.0 - 1, p.1));
                        assert(down >= 0 ==> pt(stack@[down]) == (p.0, p.1 + 1));
                        assert(up >= 0 ==> pt(stack@[up]) == (p.0, p.1 - 1));
                        // Every grid neighbour of the new pixel is on the stack.
                        assert forall|n: Point| adjacent(p, n) && in_grid(wi, hi, n) implies listed(stack@, n) by {
                            if n == (p.0 + 1, p.1) {
                                assert(pt(stack@[right]) == n);
                            } else if n == (p.0 - 1, p.1) {
                                assert(pt(stack@[left]) == n);
                            } else if n == (p.0, p.1 + 1) {
                                assert(pt(stack@[down]) == n);
                            } else {
                                assert(n == (p.0, p.1 - 1));
                                assert(pt(stack@[up]) == n);
                            }
                        }
                        Self::lemma_step_keeps_invariants(
                            wi, hi, m0, self0, *self, nv0, not_visited, seeds, open0, seed0, from, to,
                            old_stack, stack@, p, base as int, true,
                        );
                    }
                } else {
                    proof {
                        Self::lemma_step_keeps_invariants(
                            wi, hi, m0, self0, *self, nv0, not_visited, seeds, open0, seed0, from, to,
                            old_stack, stack@, p, base as int, false,
                        );
                    }
                }
            } else {
                proof {
                    Self::lemma_step_keeps_invariants(
                        wi, hi, m0, self0, *self, nv0, not_visited, seeds, open0, seed0, from, to,
                        old_stack, stack@, p, base as int, false,
                    );
                }
            }
        }
        proof {
            // The stack is empty: what was filled is closed under open
            // neighbours and holds every open seed, so it is all that is reached.
            let covered = |q: Point| in_grid(wi, hi, q) && !not_visited.at(q);
            assert forall|q: Point| in_grid(wi, hi, q) && open0(q) && #[trigger] seed0(q) implies covered(q) by {
                assert(listed(seeds, q));
                if listed(stack@, q) {
                    let i = choose|i: int| 0 <= i < stack@.len() && #[trigger] pt(stack@[i]) == q;
                }
            }
            assert forall|v: Point, n: Point|
                #[trigger] covered(v) && #[trigger] adjacent(v, n) && in_grid(wi, hi, n) && open0(n) implies covered(n) by {
                assert(!not_visited.at(v));
                if listed(stack@, n) {
                    let i = choose|i: int| 0 <= i < stack@.len() && #[trigger] pt(stack@[i]) == n;
                }
            }
            assert forall|p: Point| in_grid(wi, hi, p) implies #[trigger] not_visited.at(p) == !m0.flood_reaches(seeds, from, p) by {
                if m0.flood_reaches(seeds, from, p) {
                    let path = choose|path: Seq<Point>| #[trigger] fill_path(wi, hi, open0, seed0, path) && path.last() == p;
                    lemma_closed_set_covers_path(wi, hi, open0, seed0, covered, path, path.len() - 1);
                }
            }
        }
        not_visited
    }

    /// One step of the fill loop keeps its invariants: the popped pixel `p`
    /// was filled (`filled`, with its neighbours pushed past `base`) or left
    /// as it was.
    proof fn lemma_step_keeps_invariants(
        wi: int,
        hi: int,
        m0: BitmapMask,
        self0: BitmapMask,
        self1: BitmapMask,
        nv0: BitmapMask,
        nv1: BitmapMask,
        seeds: Seq<(u16, u16)>,
        open0: spec_fn(Point) -> bool,
        seed0: spec_fn(Point) -> bool,
        from: bool,
        to: bool,
        old_stack: Seq<(u16, u16)>,
        stack: Seq<(u16, u16)>,
        p: Point,
        base: int,
        filled: bool,
    )
        requires
            old_stack.len() > 0,
            p == pt(old_stack.last()),
            base == old_stack.len() - 1,
            stack.len() >= base,
            forall|i: int| 0 <= i < base ==> stack[i] == old_stack[i],
            open0 == m0.with_bit(from),
            seed0 == Self::seeds_of(seeds),
            m0.width == wi,
            m0.height == hi,
            nv0.width == wi,
            nv0.height == hi,
            nv1.width == wi,
            nv1.height == hi,
            // before the step
            forall|q: Point| in_grid(wi, hi, q) ==> #[trigger] self0.at(q) == if nv0.at(q) {
                m0.at(q)
            } else {
                to
            },
            forall|q: Point| in_grid(wi, hi, q) && !#[trigger] nv0.at(q) ==> reaches(wi, hi, open0, seed0, q),
            forall|i: int|
                0 <= i < old_stack.len() ==> listed(seeds, pt(#[trigger] old_stack[i])) || exists|v: Point|
                    in_grid(wi, hi, v) && !#[trigger] nv0.at(v) && adjacent(v, pt(old_stack[i])),
            forall|q: Point|
                in_grid(wi, hi, q) && m0.at(q) == from && #[trigger] listed(seeds, q) ==> listed(old_stack, q)
                    || !nv0.at(q),
            forall|v: Point, n: Point|
                in_grid(wi, hi, v) && !#[trigger] nv0.at(v) && #[trigger] adjacent(v, n) && in_grid(wi, hi, n)
                    && m0.at(n) == from ==> listed(old_stack, n) || !nv0.at(n),
            // the step
            !filled ==> stack.len() == base && nv1 == nv0 && self1 == self0,
            !filled ==> !(in_grid(wi, hi, p) && nv0.at(p) && self0.at(p) == from),
            filled ==> in_grid(wi, hi, p) && nv0.at(p) && reaches(wi, hi, open0, seed0, p),
            filled ==> forall|q: Point| #[trigger] nv1.at(q) == (nv0.at(q) && q != p),
            filled ==> forall|q: Point| in_grid(wi, hi, q) ==> #[trigger] self1.at(q) == if q == p {
                to
            } else {
                self0.at(q)
            },
            filled ==> forall|i: int| base <= i < stack.len() ==> adjacent(p, pt(#[trigger] stack[i])),
            filled ==> forall|n: Point| adjacent(p, n) && in_grid(wi, hi, n) ==> listed(stack, n),
        ensures
            forall|q: Point| in_grid(wi, hi, q) ==> #[trigger] self1.at(q) == if nv1.at(q) {
                m0.at(q)
            } else {
                to
            },
            forall|q: Point| in_grid(wi, hi, q) && !#[trigger] nv1.at(q) ==> reaches(wi, hi, open0, seed0, q),
            forall|i: int|
                0 <= i < stack.len() ==> listed(seeds, pt(#[trigger] stack[i])) || exists|v: Point|
                    in_grid(wi, hi, v) && !#[trigger] nv1.at(v) && adjacent(v, pt(stack[i])),
            forall|q: Point|
                in_grid(wi, hi, q) && m0.at(q) == from && #[trigger] listed(seeds, q) ==> listed(stack, q)
                    || !nv1.at(q),
            forall|v: Point, n: Point|
                in_grid(wi, hi, v) && !#[trigger] nv1.at(v) && #[trigger] adjacent(v, n) && in_grid(wi, hi, n)
                    && m0.at(n) == from ==> listed(stack, n) || !nv1.at(n),
    {
        // What was listed, other than the popped pixel, is still listed.
        assert forall|q: Point| listed(old_stack, q) && q != p implies listed(stack, q) by {
            let i = choose|i: int| 0 <= i < old_stack.len() && #[trigger] pt(old_stack[i]) == q;
            assert(i != old_stack.len() - 1);
            assert(pt(stack[i]) == q);
        }
        if filled {
            assert forall|q: Point| in_grid(wi, hi, q) && !#[trigger] nv1.at(q) implies reaches(
                wi,
                hi,
                open0,
                seed0,
                q,
            ) by {
                if q != p {
                    assert(!nv0.at(q));
                }
            }
            assert forall|i: int| 0 <= i < stack.len() implies listed(seeds, pt(#[trigger] stack[i])) || exists|v: Point|
                in_grid(wi, hi, v) && !#[trigger] nv1.at(v) && adjacent(v, pt(stack[i])) by {
                if i < base {
                    assert(stack[i] == old_stack[i]);
                    if !listed(seeds, pt(old_stack[i])) {
                        let v = choose|v: Point| in_grid(wi, hi, v) && !#[trigger] nv0.at(v) && adjacent(v, pt(old_stack[i]));
                        assert(!nv1.at(v));
                    }
                } else {
                    assert(adjacent(p, pt(stack[i])));
                    assert(!nv1.at(p));
                }
            }
            assert forall|q: Point|
                in_grid(wi, hi, q) && m0.at(q) == from && #[trigger] listed(seeds, q) implies listed(stack, q)
                    || !nv1.at(q) by {
                if q != p && nv0.at(q) {
                    assert(listed(old_stack, q));
                }
            }
            assert forall|v: Point, n: Point|
                in_grid(wi, hi, v) && !#[trigger] nv1.at(v) && #[trigger] adjacent(v, n) && in_grid(wi, hi, n)
                    && m0.at(n) == from implies listed(stack, n) || !nv1.at(n) by {
                if v == p {
                } else {
                    assert(!nv0.at(v));
                    if n != p && nv0.at(n) {
                        assert(listed(old_stack, n));
                    }
                }
            }
        } else {
            // The popped pixel was already filled, off the grid, or not `from`.
            assert(in_grid(wi, hi, p) && nv0.at(p) ==> self0.at(p) == m0.at(p));
            assert forall|i: int| 0 <= i < stack.len() implies listed(seeds, pt(#[trigger] stack[i])) || exists|v: Point|
                in_grid(wi, hi, v) && !#[trigger] nv1.at(v) && adjacent(v, pt(stack[i])) by {
                assert(stack[i] == old_stack[i]);
            }
            assert forall|q: Point|
                in_grid(wi, hi, q) && m0.at(q) == from && #[trigger] listed(seeds, q) implies listed(stack, q)
                    || !nv1.at(q) by {
                if nv0.at(q) {
                    assert(listed(old_stack, q));
                }
            }
            assert forall|v: Point, n: Point|
                in_grid(wi, hi, v) && !#[trigger] nv1.at(v) && #[trigger] adjacent(v, n) && in_grid(wi, hi, n)
                    && m0.at(n) == from implies listed(stack, n) || !nv1.at(n) by {
                if nv0.at(n) {
                    assert(listed(old_stack, n));
                }
            }
        }
    }
}

impl Bitmap {
    /// The pixels drawn in the background colour.
    pub open spec fn is_background(self) -> spec_fn(Point) -> bool {
        |p: Point| self.pixel_color(p.0, p.1) == self.bg_color()
    }

    /// The pixels on the image's edge.
    pub open spec fn edge(self) -> spec_fn(Point) -> bool {
        |p: Point| on_edge(self.width as int, self.height as int, p)
    }

    /// Background pixel `p` is joined to the image's edge by 4-connected
    /// background pixels.
    pub open spec fn background_reaches(self, p: Point) -> bool {
        reaches(self.width as int, self.height as int, self.is_background(), self.edge(), p)
    }

    /// The matte of an image whose alpha channel is in use: pixel `p` is in
    /// it when its alpha byte is there and is not zero.
    pub open spec fn alpha_visible(self, p: Point) -> bool {
        let i = self.pixel_offset(p.0, p.1) + 3;
        i < self.data@.len() && self.data@[i] > 0
    }

    /// `compute_matte` reads the alpha channel rather than the colours.
    pub open spec fn matte_from_alpha(self) -> bool {
        self.bit_depth == 32 && self.use_alpha
    }

    /// A mask of the pixels whose colour is not `bg_color`.
    pub fn get_mask(&self, palettes: &PaletteMap, bg_color: &ColorRef) -> (mask: BitmapMask)
        requires
            self.readable(),
            self.width * self.height <= max_bits(),
        ensures
            mask.width == self.width,
            mask.height == self.height,
            mask.bits().len() == self.width * self.height,
            forall|p: Point|
                in_grid(self.width as int, self.height as int, p) ==> #[trigger] mask.at(p) == (self.pixel_color(
                    p.0,
                    p.1,
                ) != *bg_color),
    {
        let w = self.width;
        let h = self.height;
        let mut mask = BitmapMask::new(w, h, false);
        for y in 0..h
            invariant
                w == self.width,
                h == self.height,
                self.readable(),
                mask.width == w,
                mask.height == h,
                mask.bits().len() == w * h,
                forall|p: Point|
                    in_grid(w as int, h as int, p) ==> #[trigger] mask.at(p) == if p.1 < y {
                        self.pixel_color(p.0, p.1) != *bg_color
                    } else {
                        false
                    },
        {
            for x in 0..w
                invariant
                    w == self.width,
                    h == self.height,
                    y < h,
                    self.readable(),
                    mask.width == w,
                    mask.height == h,
                    mask.bits().len() == w * h,
                    forall|p: Point|
                        in_grid(w as int, h as int, p) ==> #[trigger] mask.at(p) == if p.1 < y || (p.1 == y
                            && p.0 < x) {
                            self.pixel_color(p.0, p.1) != *bg_color
                        } else {
                            false
                        },
            {
                let pixel = self.get_pixel_color_ref(x, y);
                let ghost before = mask;
                mask.set_bit(x, y, pixel != *bg_color);
                proof {
                    assert(in_grid(w as int, h as int, pt((x, y))));
                    lemma_index_in_grid(w as int, h as int, x as int, y as int);
                    assert(mask.bits() == before.bits().update(before.index_of(pt((x, y))), pixel != *bg_color));
                    assert(mask.bits().len() == before.bits().len());
                }
            }
        }
        mask
    }

    /// The depth stores colours directly, with no palette: 16, 24 or 32 bits.
    pub open spec fn direct_color(self) -> bool {
        self.bit_depth == 32 || self.bit_depth == 24 || self.bit_depth == 16
    }

    /// Pixel `p` is dark: the Rec.601 luma of its colour is below 128.
    pub open spec fn dark(self, p: Point) -> bool {
        match self.pixel_color(p.0, p.1) {
            ColorRef::Rgb(r, g, b) => luma(r, g, b) < 128,
            ColorRef::PaletteIndex(_) => false,
        }
    }

    /// A mask of the dark pixels: those whose Rec.601 luma, rounded down,
    /// is below 128 (the grayscale conversion used elsewhere).
    pub fn create_mask(&self, palettes: &PaletteMap) -> (mask: BitmapMask)
        requires
            self.readable(),
            self.direct_color(),
            self.width * self.height <= max_bits(),
        ensures
            mask.width == self.width,
            mask.height == self.height,
            mask.bits().len() == self.width * self.height,
            forall|p: Point| in_grid(self.width as int, self.height as int, p) ==> #[trigger] mask.at(p) == self.dark(p),
            forall|p: Point|
                in_grid(self.width as int, self.height as int, p) ==> (#[trigger] mask.at(p) <==> (self.pixel_color(
                    p.0,
                    p.1,
                ) matches ColorRef::Rgb(r, g, b) && (299 * r + 587 * g + 114 * b) / 1000 < 128)),
    {
        let w = self.width;
        let h = self.height;
        let mut mask = BitmapMask::new(w, h, false);
        for y in 0..h
            invariant
                w == self.width,
                h == self.height,
                self.readable(),
                self.direct_color(),
                mask.width == w,
                mask.height == h,
                mask.bits().len() == w * h,
                forall|p: Point|
                    in_grid(w as int, h as int, p) ==> #[trigger] mask.at(p) == if p.1 < y {
                        self.dark(p)
                    } else {
                        false
                    },
        {
            for x in 0..w
                invariant
                    w == self.width,
                    h == self.height,
                    y < h,
                    self.readable(),
                    self.direct_color(),
                    mask.width == w,
                    mask.height == h,
                    mask.bits().len() == w * h,
                    forall|p: Point|
                        in_grid(w as int, h as int, p) ==> #[trigger] mask.at(p) == if p.1 < y || (p.1 == y
                            && p.0 < x) {
                            self.dark(p)
                        } else {
                            false
                        },
            {
                let dark = match self.get_pixel_color_ref(x, y) {
                    ColorRef::Rgb(r, g, b) => luma_exec(r, g, b) < 128,
                    ColorRef::PaletteIndex(_) => false,
                };
                let ghost before = mask;
                mask.set_bit(x, y, dark);
                proof {
                    assert(dark == self.dark(pt((x, y))));
                    assert(in_grid(w as int, h as int, pt((x, y))));
                    lemma_index_in_grid(w as int, h as int, x as int, y as int);
                    assert(mask.bits() == before.bits().update(before.index_of(pt((x, y))), dark));
                    assert(mask.bits().len() == before.bits().len());
                }
            }
        }
        proof {
            assert forall|p: Point| in_grid(w as int, h as int, p) implies (#[trigger] mask.at(p) <==> (self.pixel_color(
                p.0,
                p.1,
            ) matches ColorRef::Rgb(r, g, b) && (299 * r + 587 * g + 114 * b) / 1000 < 128)) by {
                law_dark_is_rec601_luma(*self, p);
            }
        }
        mask
    }

    /// Builds the matte of a text image: every pixel that is not the
    /// background colour is opaque, holes inside the glyphs included.
    pub fn create_matte_text(&mut self, palettes: &PaletteMap)
        requires
            old(self).readable(),
            old(self).width * old(self).height <= max_bits(),
        ensures
            final(self).width == old(self).width,
            final(self).height == old(self).height,
            final(self).bit_depth == old(self).bit_depth,
            final(self).original_bit_depth == old(self).original_bit_depth,
            final(self).palette_offset == old(self).palette_offset,
            final(self).palette_ref == old(self).palette_ref,
            final(self).data == old(self).data,
            final(self).use_alpha == old(self).use_alpha,
            final(self).version == old(self).version,
            final(self).matte is Some,
            final(self).matte.unwrap().width == old(self).width,
            final(self).matte.unwrap().height == old(self).height,
            final(self).matte.unwrap().bits().len() == old(self).width * old(self).height,
            forall|p: Point|
                in_grid(old(self).width as int, old(self).height as int, p) ==> #[trigger] final(self).matte.unwrap().at(p) == (old(self).pixel_color(p.0, p.1) != old(self).bg_color()),
    {
        let bg_color = self.get_bg_color_ref();
        let matte = self.get_mask(palettes, &bg_color);
        self.matte = Some(Arc::new(matte));
    }

    /// The matte ink's shape. With the alpha channel in use, the pixels
    /// that are not fully transparent; otherwise every pixel except the
    /// background-coloured ones joined to the image's edge through
    /// background-coloured pixels. Background enclosed by the shape stays in it.
    pub fn compute_matte(&self, palettes: &PaletteMap) -> (matte: BitmapMask)
        requires
            self.width * self.height <= max_bits(),
            self.matte_from_alpha() ==> self.width * self.height * 4 <= usize::MAX,
            !self.matte_from_alpha() ==> self.readable() && (self.width == 0) == (self.height == 0),
        ensures
            matte.width == self.width,
            matte.height == self.height,
            matte.bits().len() == self.width * self.height,
            forall|p: Point|
                in_grid(self.width as int, self.height as int, p) ==> #[trigger] matte.at(p) == if self.matte_from_alpha() {
                    self.alpha_visible(p)
                } else {
                    !self.background_reaches(p)
                },
            // With the alpha channel in use, a pixel is in the shape exactly
            // when its alpha byte is there and not zero.
            self.matte_from_alpha() ==> forall|p: Point|
                in_grid(self.width as int, self.height as int, p) ==> (#[trigger] matte.at(p) <==> ((p.1 * self.width
                    + p.0) * 4 + 3 < self.data@.len() && self.data@[(p.1 * self.width + p.0) * 4 + 3] != 0)),
            // A pixel that is not the background colour is always in the shape.
            !self.matte_from_alpha() ==> forall|p: Point|
                in_grid(self.width as int, self.height as int, p) && self.pixel_color(p.0, p.1) != self.bg_color()
                    ==> #[trigger] matte.at(p),
    {
        let w = self.width;
        let h = self.height;
        if self.bit_depth == 32 && self.use_alpha {
            let mut matte = BitmapMask::new(w, h, false);
            for y in 0..h
                invariant
                    w == self.width,
                    h == self.height,
                    w * h * 4 <= usize::MAX,
                    self.bit_depth == 32,
                    matte.width == w,
                    matte.height == h,
                    matte.bits().len() == w * h,
                    forall|p: Point|
                        in_grid(w as int, h as int, p) ==> #[trigger] matte.at(p) == if p.1 < y {
                            self.alpha_visible(p)
                        } else {
                            false
                        },
            {
                for x in 0..w
                    invariant
                        w == self.width,
                        h == self.height,
                        w * h * 4 <= usize::MAX,
                        self.bit_depth == 32,
                        y < h,
                        matte.width == w,
                        matte.height == h,
                        matte.bits().len() == w * h,
                        forall|p: Point|
                            in_grid(w as int, h as int, p) ==> #[trigger] matte.at(p) == if p.1 < y || (p.1
                                == y && p.0 < x) {
                                self.alpha_visible(p)
                            } else {
                                false
                            },
                {
                    proof {
                        lemma_index_in_grid(w as int, h as int, x as int, y as int);
                        assert((y * w + x) * 4 + 4 <= w * h * 4) by (nonlinear_arith)
                            requires y * w + x + 1 <= w * h;
                    }
                    let i: usize = (y as usize * w as usize + x as usize) * 4 + 3;
                    let visible = if i < self.data.len() { self.data[i] > 0 } else { false };
                    matte.set_bit(x, y, visible);
                }
            }
            return matte;
        }
        let bg_color = self.get_bg_color_ref();
        let mut mask = self.get_mask(palettes, &bg_color);
        let mut outside_pixels: Vec<(u16, u16)> = Vec::new();
        let ghost wi = w as int;
        let ghost hi = h as int;
        for y in 0..h
            invariant
                w == self.width,
                h == self.height,
                wi == w,
                hi == h,
                self.readable(),
                (w == 0) == (h == 0),
                bg_color == self.bg_color(),
                forall|q: Point| #[trigger] listed(outside_pixels@, q) ==> on_edge(wi, hi, q) && self.pixel_color(q.0, q.1) == bg_color,
                forall|q: Point|
                    on_edge(wi, hi, q) && (q.0 == 0 || q.0 == wi - 1) && q.1 < y && self.pixel_color(q.0, q.1)
                        == bg_color ==> #[trigger] listed(outside_pixels@, q),
        {
            let left_pixel = self.get_pixel_color_ref(0, y);
            let right_pixel = self.get_pixel_color_ref(w - 1, y);
            let ghost before = outside_pixels@;
            if left_pixel == bg_color {
                outside_pixels.push((0, y));
            }
            let ghost mid = outside_pixels@;
            if right_pixel == bg_color {
                outside_pixels.push((w - 1, y));
            }
            proof {
                Self::lemma_listed_grows(before, mid, outside_pixels@);
                if left_pixel == bg_color {
                    assert(pt(mid[mid.len() - 1]) == (0int, y as int));
                    assert(listed(mid, (0int, y as int)));
                }
                if right_pixel == bg_color {
                    assert(pt(outside_pixels@[outside_pixels@.len() - 1]) == (wi - 1, y as int));
                }
                assert forall|q: Point|
                    on_edge(wi, hi, q) && (q.0 == 0 || q.0 == wi - 1) && q.1 < y + 1 && self.pixel_color(q.0, q.1)
                        == bg_color implies #[trigger] listed(outside_pixels@, q) by {
                    if q.1 < y {
                        assert(listed(before, q));
                    } else if q.0 == 0 {
                        assert(left_pixel == bg_color);
                    } else {
                        assert(right_pixel == bg_color);
                    }
                }
                assert forall|q: Point| #[trigger] listed(outside_pixels@, q) implies on_edge(wi, hi, q) && self.pixel_color(q.0, q.1) == bg_color by {
                    if !listed(before, q) {
                        let i = choose|i: int| before.len() <= i < outside_pixels@.len() && pt(outside_pixels@[i]) == q;
                    }
                }
            }
        }
        for x in 0..w
            invariant
                w == self.width,
                h == self.height,
                wi == w,
                hi == h,
                self.readable(),
                (w == 0) == (h == 0),
                bg_color == self.bg_color(),
                forall|q: Point| #[trigger] listed(outside_pixels@, q) ==> on_edge(wi, hi, q) && self.pixel_color(q.0, q.1) == bg_color,
                forall|q: Point|
                    on_edge(wi, hi, q) && (q.0 == 0 || q.0 == wi - 1) && self.pixel_color(q.0, q.1) == bg_color
                        ==> #[trigger] listed(outside_pixels@, q),
                forall|q: Point|
                    on_edge(wi, hi, q) && (q.1 == 0 || q.1 == hi - 1) && q.0 < x && self.pixel_color(q.0, q.1)
                        == bg_color ==> #[trigger] listed(outside_pixels@, q),
        {
            let top_pixel = self.get_pixel_color_ref(x, 0);
            let bottom_pixel = self.get_pixel_color_ref(x, h - 1);
            let ghost before = outside_pixels@;
            if top_pixel == bg_color {
                outside_pixels.push((x, 0));
            }
            let ghost mid = outside_pixels@;
            if bottom_pixel == bg_color {
                outside_pixels.push((x, h - 1));
            }
            proof {
                Self::lemma_listed_grows(before, mid, outside_pixels@);
                if top_pixel == bg_color {
                    assert(pt(mid[mid.len() - 1]) == (x as int, 0int));
                    assert(listed(mid, (x as int, 0int)));
                }
                if bottom_pixel == bg_color {
                    assert(pt(outside_pixels@[outside_pixels@.len() - 1]) == (x as int, hi - 1));
                }
                assert forall|q: Point|
                    on_edge(wi, hi, q) && (q.0 == 0 || q.0 == wi - 1) && self.pixel_color(q.0, q.1) == bg_color
                        implies #[trigger] listed(outside_pixels@, q) by {
                    assert(listed(before, q));
                }
                assert forall|q: Point|
                    on_edge(wi, hi, q) && (q.1 == 0 || q.1 == hi - 1) && q.0 < x + 1 && self.pixel_color(q.0, q.1)
                        == bg_color implies #[trigger] listed(outside_pixels@, q) by {
                    if q.0 < x {
                        assert(listed(before, q));
                    } else if q.1 == 0 {
                        assert(top_pixel == bg_color);
                    } else {
                        assert(bottom_pixel == bg_color);
                    }
                }
                assert forall|q: Point| #[trigger] listed(outside_pixels@, q) implies on_edge(wi, hi, q) && self.pixel_color(q.0, q.1) == bg_color by {
                    if !listed(before, q) {
                        let i = choose|i: int| before.len() <= i < outside_pixels@.len() && pt(outside_pixels@[i]) == q;
                    }
                }
            }
        }
        let ghost mask0 = mask;
        let ghost seeds = outside_pixels@;
        let matte = mask.flood_matte(outside_pixels, false, true);
        proof {
            assert forall|p: Point| in_grid(wi, hi, p) implies #[trigger] matte.at(p) == !self.background_reaches(p) by {
                assert forall|q: Point| in_grid(wi, hi, q) implies mask0.with_bit(false)(q) == self.is_background()(q) by {}
                assert forall|q: Point| in_grid(wi, hi, q) && mask0.with_bit(false)(q) implies BitmapMask::seeds_of(seeds)(q) == self.edge()(q) by {
                    if on_edge(wi, hi, q) {
                        assert(listed(seeds, q));
                    }
                }
                lemma_reaches_congruent(wi, hi, mask0.with_bit(false), BitmapMask::seeds_of(seeds), self.is_background(), self.edge(), p);
            }
            assert forall|p: Point| in_grid(wi, hi, p) && self.pixel_color(p.0, p.1) != self.bg_color() implies #[trigger] matte.at(p) by {
                if self.background_reaches(p) {
                    let path = choose|path: Seq<Point>| #[trigger] fill_path(wi, hi, self.is_background(), self.edge(), path) && path.last() == p;
                    assert(self.is_background()(path[path.len() - 1]));
                }
            }
        }
        matte
    }

    /// Appending to a list keeps what it listed.
    proof fn lemma_listed_grows(a: Seq<(u16, u16)>, b: Seq<(u16, u16)>, c: Seq<(u16, u16)>)
        requires
            a.len() <= b.len() <= c.len(),
            forall|i: int| 0 <= i < a.len() ==> b[i] == a[i],
            forall|i: int| 0 <= i < b.len() ==> c[i] == b[i],
        ensures
            forall|q: Point| #[trigger] listed(a, q) ==> listed(c, q),
            forall|q: Point| #[trigger] listed(b, q) ==> listed(c, q),
            forall|q: Point| #[trigger] listed(c, q) ==> listed(a, q) || exists|i: int| a.len() <= i < c.len() && pt(c[i]) == q,
    {
        assert forall|q: Point| #[trigger] listed(a, q) implies listed(c, q) by {
            let i = choose|i: int| 0 <= i < a.len() && #[trigger] pt(a[i]) == q;
            assert(pt(c[i]) == q);
        }
        assert forall|q: Point| #[trigger] listed(b, q) implies listed(c, q) by {
            let i = choose|i: int| 0 <= i < b.len() && #[trigger] pt(b[i]) == q;
            assert(pt(c[i]) == q);
        }
        assert forall|q: Point| #[trigger] listed(c, q) implies listed(a, q) || exists|i: int| a.len() <= i < c.len() && pt(c[i]) == q by {
            let i = choose|i: int| 0 <= i < c.len() && #[trigger] pt(c[i]) == q;
            if i < a.len() {
                assert(pt(a[i]) == q);
            }
        }
    }

    /// Builds the matte ink's shape and keeps it with the bitmap.
    pub fn create_matte(&mut self, palettes: &PaletteMap)
        requires
            old(self).width * old(self).height <= max_bits(),
            old(self).matte_from_alpha() ==> old(self).width * old(self).height * 4 <= usize::MAX,
            !old(self).matte_from_alpha() ==> old(self).readable() && (old(self).width == 0) == (old(self).height == 0),
        ensures
            final(self).width == old(self).width,
            final(self).height == old(self).height,
            final(self).bit_depth == old(self).bit_depth,
            final(self).original_bit_depth == old(self).original_bit_depth,
            final(self).palette_offset == old(self).palette_offset,
            final(self).palette_ref == old(self).palette_ref,
            final(self).data == old(self).data,
            final(self).use_alpha == old(self).use_alpha,
            final(self).version == old(self).version,
            final(self).matte is Some,
            final(self).matte.unwrap().width == old(self).width,
            final(self).matte.unwrap().height == old(self).height,
            final(self).matte.unwrap().bits().len() == old(self).width * old(self).height,
            forall|p: Point|
                in_grid(old(self).width as int, old(self).height as int, p) ==> #[trigger] final(self).matte.unwrap().at(p) == if old(self).matte_from_alpha() {
                    old(self).alpha_visible(p)
                } else {
                    !old(self).background_reaches(p)
                },
    {
        let matte = self.compute_matte(palettes);
        self.matte = Some(Arc::new(matte));
    }
}

/// The matte ink's shape holds the text matte: a pixel that is not the
/// background colour is never cut away, whatever background surrounds it.
pub proof fn law_content_stays_in_matte(b: Bitmap, p: Point)
    requires
        in_grid(b.width as int, b.height as int, p),
        b.pixel_color(p.0, p.1) != b.bg_color(),
    ensures
        !b.background_reaches(p),
{
    if b.background_reaches(p) {
        let path = choose|path: Seq<Point>|
            #[trigger] fill_path(b.width as int, b.height as int, b.is_background(), b.edge(), path) && path.last() == p;
        assert(b.is_background()(path[path.len() - 1]));
    }
}

/// Background that no background path joins to the edge, such as the
/// inside of a closed ring, stays in the matte ink's shape: every fill
/// path from the edge stays on background pixels.
pub proof fn law_reached_pixels_are_background(b: Bitmap, p: Point)
    requires
        b.background_reaches(p),
    ensures
        in_grid(b.width as int, b.height as int, p),
        b.pixel_color(p.0, p.1) == b.bg_color(),
{
    let path = choose|path: Seq<Point>|
        #[trigger] fill_path(b.width as int, b.height as int, b.is_background(), b.edge(), path) && path.last() == p;
    assert(b.is_background()(path[path.len() - 1]));
    assert(in_grid(b.width as int, b.height as int, path[path.len() - 1]));
}

/// A bit written is the bit read back, and no other pixel changes.
pub proof fn law_set_then_get(before: BitmapMask, after: BitmapMask, x: u16, y: u16, value: bool, q: Point)
    requires
        after.width == before.width,
        after.height == before.height,
        forall|p: Point| #[trigger] after.at(p) == if p == pt((x, y)) && in_grid(before.width as int, before.height as int, p) {
            value
        } else {
            before.at(p)
        },
        in_grid(before.width as int, before.height as int, q),
    ensures
        q == pt((x, y)) ==> after.at(q) == value,
        q != pt((x, y)) ==> after.at(q) == before.at(q),
{
}

/// Rec.601 luma of a colour, rounded down: (299 r + 587 g + 114 b) / 1000.
pub open spec fn luma(r: u8, g: u8, b: u8) -> int {
    (r * 299 + g * 587 + b * 114) / 1000
}

fn luma_exec(r: u8, g: u8, b: u8) -> (l: u32)
    ensures
        l == luma(r, g, b),
{
    ((r as u32) * 299 + (g as u32) * 587 + (b as u32) * 114) / 1000
}

/// A pixel is dark exactly when its colour is direct and the Rec.601 luma
/// of its red, green and blue channels, (299 R + 587 G + 114 B) / 1000
/// rounded down, is below 128: orange (255, 128, 0) has luma 151 and is
/// light, pure blue has luma 29 and is dark.
pub proof fn law_dark_is_rec601_luma(b: Bitmap, p: Point)
    ensures
        b.dark(p) <==> (b.pixel_color(p.0, p.1) matches ColorRef::Rgb(r, g, bl) && (299 * r + 587 * g + 114 * bl)
            / 1000 < 128),
        b.dark(p) ==> b.pixel_color(p.0, p.1) is Rgb,
{
}

/// A pixel of an image whose alpha channel is in use is in its matte
/// exactly when its alpha byte is there and not zero: a half-transparent
/// pixel is part of the shape, a fully transparent one is not.
pub proof fn law_alpha_matte_keeps_every_visible_pixel(b: Bitmap, p: Point)
    ensures
        b.alpha_visible(p) <==> (b.pixel_offset(p.0, p.1) + 3 < b.data@.len() && b.data@[b.pixel_offset(p.0, p.1)
            + 3] != 0),
{
}

/// Background on the image's edge is outside the matte's shape, and so is
/// background next to outside background: the outside spreads through
/// 4-connected background pixels from the edge.
pub proof fn law_outside_spreads_from_the_edge(b: Bitmap, v: Point, p: Point)
    ensures
        in_grid(b.width as int, b.height as int, p) && (p.0 == 0 || p.1 == 0 || p.0 == b.width - 1 || p.1 == b.height
            - 1) && b.pixel_color(p.0, p.1) == b.bg_color() ==> b.background_reaches(p),
        b.background_reaches(v) && in_grid(b.width as int, b.height as int, p) && (v.0 - p.0) * (v.0 - p.0) + (v.1
            - p.1) * (v.1 - p.1) == 1 && b.pixel_color(p.0, p.1) == b.bg_color() ==> b.background_reaches(p),
{
    let w = b.width as int;
    let h = b.height as int;
    if in_grid(w, h, p) && (p.0 == 0 || p.1 == 0 || p.0 == b.width - 1 || p.1 == b.height - 1) && b.pixel_color(p.0, p.1)
        == b.bg_color() {
        assert(b.is_background()(p));
        assert(b.edge()(p));
        lemma_reaches_seed(w, h, b.is_background(), b.edge(), p);
    }
    if b.background_reaches(v) && in_grid(w, h, p) && (v.0 - p.0) * (v.0 - p.0) + (v.1 - p.1) * (v.1 - p.1) == 1
        && b.pixel_color(p.0, p.1) == b.bg_color() {
        let dx = v.0 - p.0;
        let dy = v.1 - p.1;
        assert((dx == 0 && (dy == 1 || dy == -1)) || (dy == 0 && (dx == 1 || dx == -1))) by (nonlinear_arith)
            requires dx * dx + dy * dy == 1;
        assert(adjacent(v, p));
        assert(b.is_background()(p));
        lemma_reaches_step(w, h, b.is_background(), b.edge(), v, p);
    }
}

/// What a flood fill reaches: every seed whose bit is `from`, every pixel
/// with bit `from` next to a reached one, and only pixels with bit `from`.
pub proof fn law_flood_fill_reach(m: BitmapMask, points: Seq<(u16, u16)>, from: bool, v: Point, p: Point)
    ensures
        in_grid(m.width as int, m.height as int, p) && m.at(p) == from && (exists|i: int|
            0 <= i < points.len() && points[i].0 == p.0 && points[i].1 == p.1) ==> m.flood_reaches(points, from, p),
        m.flood_reaches(points, from, v) && in_grid(m.width as int, m.height as int, p) && m.at(p) == from && (v.0
            - p.0) * (v.0 - p.0) + (v.1 - p.1) * (v.1 - p.1) == 1 ==> m.flood_reaches(points, from, p),
        m.flood_reaches(points, from, p) ==> in_grid(m.width as int, m.height as int, p) && m.at(p) == from,
{
    let w = m.width as int;
    let h = m.height as int;
    if in_grid(w, h, p) && m.at(p) == from && (exists|i: int| 0 <= i < points.len() && points[i].0 == p.0 && points[i].1 == p.1) {
        let i = choose|i: int| 0 <= i < points.len() && points[i].0 == p.0 && points[i].1 == p.1;
        assert(pt(points[i]) == p);
        assert(BitmapMask::seeds_of(points)(p));
        assert(m.with_bit(from)(p));
        lemma_reaches_seed(w, h, m.with_bit(from), BitmapMask::seeds_of(points), p);
    }
    if m.flood_reaches(points, from, v) && in_grid(w, h, p) && m.at(p) == from && (v.0 - p.0) * (v.0 - p.0) + (v.1
        - p.1) * (v.1 - p.1) == 1 {
        let dx = v.0 - p.0;
        let dy = v.1 - p.1;
        assert((dx == 0 && (dy == 1 || dy == -1)) || (dy == 0 && (dx == 1 || dx == -1))) by (nonlinear_arith)
            requires dx * dx + dy * dy == 1;
        assert(adjacent(v, p));
        assert(m.with_bit(from)(p));
        lemma_reaches_step(w, h, m.with_bit(from), BitmapMask::seeds_of(points), v, p);
    }
    if m.flood_reaches(points, from, p) {
        let path = choose|path: Seq<Point>|
            #[trigger] fill_path(w, h, m.with_bit(from), BitmapMask::seeds_of(points), path) && path.last() == p;
        assert(m.with_bit(from)(path[path.len() - 1]));
        assert(in_grid(w, h, path[path.len() - 1]));
    }
}

/// A mask stores its bits row by row: pixel `(x, y)` is bit `y * width + x`,
/// and pixels off the mask read as `false`.
pub proof fn law_mask_rows(m: BitmapMask, x: int, y: int)
    ensures
        0 <= x < m.width && 0 <= y < m.height ==> m.at((x, y)) == m.bits()[y * m.width + x],
        !(0 <= x < m.width && 0 <= y < m.height) ==> !m.at((x, y)),
{
}

} // verus!
