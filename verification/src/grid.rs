//! Pixels of a `width` x `height` grid, 4-neighbourhood, and what a flood
//! fill reaches: the pixels joined to a seed by a path of open pixels.
use vstd::prelude::*;

verus! {

/// A pixel position, column first.
pub type Point = (int, int);

/// `p` lies on a `w` x `h` grid.
pub open spec fn in_grid(w: int, h: int, p: Point) -> bool {
    0 <= p.0 < w && 0 <= p.1 < h
}

/// `p` lies on the outer ring of a `w` x `h` grid.
pub open spec fn on_edge(w: int, h: int, p: Point) -> bool {
    in_grid(w, h, p) && (p.0 == 0 || p.0 == w - 1 || p.1 == 0 || p.1 == h - 1)
}

/// `a` and `b` are 4-neighbours: one step apart along one axis.
pub open spec fn adjacent(a: Point, b: Point) -> bool {
    ||| a.0 == b.0 && (a.1 == b.1 + 1 || a.1 + 1 == b.1)
    ||| a.1 == b.1 && (a.0 == b.0 + 1 || a.0 + 1 == b.0)
}

/// A point given as a pair of `u16`.
pub open spec fn pt(p: (u16, u16)) -> Point {
    (p.0 as int, p.1 as int)
}

/// `p` occurs in a list of `u16` points.
pub open spec fn listed(s: Seq<(u16, u16)>, p: Point) -> bool {
    exists|i: int| 0 <= i < s.len() && #[trigger] pt(s[i]) == p
}

/// `path` starts at a seed, stays on open pixels of the grid, and moves
/// between 4-neighbours.
pub open spec fn fill_path(
    w: int,
    h: int,
    open: spec_fn(Point) -> bool,
    seed: spec_fn(Point) -> bool,
    path: Seq<Point>,
) -> bool {
    &&& path.len() > 0
    &&& seed(path[0])
    &&& forall|i: int| 0 <= i < path.len() ==> in_grid(w, h, #[trigger] path[i]) && open(path[i])
    &&& forall|i: int| 0 <= i < path.len() - 1 ==> adjacent(#[trigger] path[i], path[i + 1])
}

/// A flood fill from the seeds through open pixels reaches `p`.
pub open spec fn reaches(
    w: int,
    h: int,
    open: spec_fn(Point) -> bool,
    seed: spec_fn(Point) -> bool,
    p: Point,
) -> bool {
    exists|path: Seq<Point>| #[trigger] fill_path(w, h, open, seed, path) && path.last() == p
}

/// An open seed on the grid is reached by the one-pixel path.
pub proof fn lemma_reaches_seed(
    w: int,
    h: int,
    open: spec_fn(Point) -> bool,
    seed: spec_fn(Point) -> bool,
    p: Point,
)
    requires
        in_grid(w, h, p),
        open(p),
        seed(p),
    ensures
        reaches(w, h, open, seed, p),
{
    let path = seq![p];
    assert(fill_path(w, h, open, seed, path));
    assert(path.last() == p);
}

/// An open pixel next to a reached pixel is reached.
pub proof fn lemma_reaches_step(
    w: int,
    h: int,
    open: spec_fn(Point) -> bool,
    seed: spec_fn(Point) -> bool,
    v: Point,
    p: Point,
)
    requires
        reaches(w, h, open, seed, v),
        in_grid(w, h, p),
        open(p),
        adjacent(v, p),
    ensures
        reaches(w, h, open, seed, p),
{
    let path = choose|path: Seq<Point>| #[trigger] fill_path(w, h, open, seed, path) && path.last() == v;
    let longer = path.push(p);
    assert forall|i: int| 0 <= i < longer.len() implies in_grid(w, h, #[trigger] longer[i]) && open(longer[i]) by {
        if i < path.len() {
            assert(longer[i] == path[i]);
        }
    }
    assert forall|i: int| 0 <= i < longer.len() - 1 implies adjacent(#[trigger] longer[i], longer[i + 1]) by {
        if i < path.len() - 1 {
            assert(longer[i] == path[i]);
            assert(longer[i + 1] == path[i + 1]);
        } else {
            assert(longer[i] == v);
        }
    }
    assert(longer[0] == path[0]);
    assert(fill_path(w, h, open, seed, longer));
    assert(longer.last() == p);
}

/// A set of pixels that holds every open seed and is closed under stepping
/// to open neighbours holds every pixel of a fill path.
pub proof fn lemma_closed_set_covers_path(
    w: int,
    h: int,
    open: spec_fn(Point) -> bool,
    seed: spec_fn(Point) -> bool,
    covered: spec_fn(Point) -> bool,
    path: Seq<Point>,
    k: int,
)
    requires
        fill_path(w, h, open, seed, path),
        0 <= k < path.len(),
        forall|q: Point| in_grid(w, h, q) && open(q) && #[trigger] seed(q) ==> covered(q),
        forall|v: Point, n: Point|
            #[trigger] covered(v) && #[trigger] adjacent(v, n) && in_grid(w, h, n) && open(n) ==> covered(n),
    ensures
        covered(path[k]),
    decreases k,
{
    if k == 0 {
        assert(in_grid(w, h, path[0]) && open(path[0]));
    } else {
        lemma_closed_set_covers_path(w, h, open, seed, covered, path, k - 1);
        assert(adjacent(path[k - 1], path[k]));
        assert(in_grid(w, h, path[k]) && open(path[k]));
    }
}

/// What a fill reaches depends only on which grid pixels are open and on
/// which open grid pixels are seeds.
pub proof fn lemma_reaches_congruent(
    w: int,
    h: int,
    open1: spec_fn(Point) -> bool,
    seed1: spec_fn(Point) -> bool,
    open2: spec_fn(Point) -> bool,
    seed2: spec_fn(Point) -> bool,
    p: Point,
)
    requires
        forall|q: Point| in_grid(w, h, q) ==> open1(q) == open2(q),
        forall|q: Point| in_grid(w, h, q) && open1(q) ==> seed1(q) == seed2(q),
    ensures
        reaches(w, h, open1, seed1, p) == reaches(w, h, open2, seed2, p),
{
    if reaches(w, h, open1, seed1, p) {
        let path = choose|path: Seq<Point>| #[trigger] fill_path(w, h, open1, seed1, path) && path.last() == p;
        assert(in_grid(w, h, path[0]) && open1(path[0]));
        assert(fill_path(w, h, open2, seed2, path));
    }
    if reaches(w, h, open2, seed2, p) {
        let path = choose|path: Seq<Point>| #[trigger] fill_path(w, h, open2, seed2, path) && path.last() == p;
        assert(in_grid(w, h, path[0]) && open2(path[0]));
        assert(fill_path(w, h, open1, seed1, path));
    }
}

/// How many entries of `s` are `true`.
pub open spec fn count_true(s: Seq<bool>) -> nat
    decreases s.len(),
{
    if s.len() == 0 {
        0
    } else {
        count_true(s.drop_last()) + if s.last() { 1nat } else { 0nat }
    }
}

/// Clearing a set entry lowers the count by one.
pub proof fn lemma_count_true_clear(s: Seq<bool>, i: int)
    requires
        0 <= i < s.len(),
        s[i],
    ensures
        count_true(s.update(i, false)) + 1 == count_true(s),
    decreases s.len(),
{
    let t = s.update(i, false);
    if i == s.len() - 1 {
        assert(t.drop_last() =~= s.drop_last());
    } else {
        assert(t.drop_last() =~= s.drop_last().update(i, false));
        lemma_count_true_clear(s.drop_last(), i);
    }
}

} // verus!
