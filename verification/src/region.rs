//! Connected components of a pixel mask under 4-connectivity: what a
//! component is, and the flood fill that finds them.

use vstd::prelude::*;

verus! {

/// A pixel, as column and row.
pub type Pixel = (int, int);

/// The pixel `p` lies in the `w` by `h` image and the mask admits it.
pub open spec fn lit(mask: Seq<bool>, w: int, h: int, p: Pixel) -> bool {
    0 <= p.0 < w && 0 <= p.1 < h && mask[p.1 * w + p.0]
}

/// The two pixels share an edge.
pub open spec fn adjacent(a: Pixel, b: Pixel) -> bool {
    (a.0 == b.0 && (a.1 - b.1 == 1 || b.1 - a.1 == 1)) || (a.1 == b.1 && (a.0 - b.0 == 1 || b.0
        - a.0 == 1))
}

/// A non-empty sequence of admitted pixels, each sharing an edge with the
/// next.
pub open spec fn is_chain(c: Seq<Pixel>, mask: Seq<bool>, w: int, h: int) -> bool {
    &&& c.len() >= 1
    &&& forall|i: int| 0 <= i < c.len() ==> lit(mask, w, h, #[trigger] c[i])
    &&& forall|i: int| 0 <= i < c.len() - 1 ==> adjacent(#[trigger] c[i], c[i + 1])
}

/// `a` and `b` belong to the same connected component of the mask.
#[verifier::opaque]
pub open spec fn joined(mask: Seq<bool>, w: int, h: int, a: Pixel, b: Pixel) -> bool {
    exists|c: Seq<Pixel>| #[trigger] is_chain(c, mask, w, h) && c[0] == a && c.last() == b
}

/// Row-major order of pixels.
pub open spec fn before(a: Pixel, b: Pixel) -> bool {
    a.1 < b.1 || (a.1 == b.1 && a.0 < b.0)
}

/// A connected component: the pixel the fill started from, the bounding box
/// of the component (bounds inclusive) and its number of pixels.
#[derive(Debug, Clone, Copy, PartialEq, Eq, Structural)]
pub struct Region {
    pub seed_x: usize,
    pub seed_y: usize,
    pub min_x: usize,
    pub max_x: usize,
    pub min_y: usize,
    pub max_y: usize,
    pub pixel_count: usize,
}

/// The part of the image in which fills may start: columns `x_lo..x_hi`, rows
/// `y_lo..y_hi`. A component that starts inside may extend outside.
#[derive(Debug, Clone, Copy, PartialEq, Eq, Structural)]
pub struct Window {
    pub x_lo: usize,
    pub x_hi: usize,
    pub y_lo: usize,
    pub y_hi: usize,
}

impl Window {
    /// The pixel lies in the window.
    pub open spec fn holds(self, p: Pixel) -> bool {
        self.x_lo <= p.0 < self.x_hi && self.y_lo <= p.1 < self.y_hi
    }
}

impl Region {
    /// The pixel the fill started from.
    pub open spec fn seed(self) -> Pixel {
        (self.seed_x as int, self.seed_y as int)
    }

    /// Width of the bounding box.
    pub open spec fn span_x(self) -> int {
        self.max_x - self.min_x + 1
    }

    /// Height of the bounding box.
    pub open spec fn span_y(self) -> int {
        self.max_y - self.min_y + 1
    }

    /// This region describes exactly the component of its seed: the box
    /// contains every pixel of the component and touches one on each side,
    /// and the count is the size of the component.
    #[verifier::opaque]
    pub open spec fn is_component(self, mask: Seq<bool>, w: int, h: int) -> bool {
        let s = self.seed();
        &&& lit(mask, w, h, s)
        &&& forall|p: Pixel| #[trigger]
            joined(mask, w, h, s, p) ==> self.min_x <= p.0 <= self.max_x && self.min_y <= p.1
                <= self.max_y
        &&& exists|p: Pixel| #[trigger] joined(mask, w, h, s, p) && p.0 == self.min_x
        &&& exists|p: Pixel| #[trigger] joined(mask, w, h, s, p) && p.0 == self.max_x
        &&& exists|p: Pixel| #[trigger] joined(mask, w, h, s, p) && p.1 == self.min_y
        &&& exists|p: Pixel| #[trigger] joined(mask, w, h, s, p) && p.1 == self.max_y
        &&& self.pixel_count == Set::new(|p: Pixel| joined(mask, w, h, s, p)).len()
    }
}

/// `all` lists the components that meet the window, one entry each, in the
/// row-major order of the first window pixel of each, which is its seed.
pub open spec fn is_component_list(
    all: Seq<Region>,
    mask: Seq<bool>,
    w: int,
    h: int,
    win: Window,
) -> bool {
    &&& forall|i: int|
        0 <= i < all.len() ==> (#[trigger] all[i]).is_component(mask, w, h) && win.holds(
            all[i].seed(),
        )
    &&& forall|i: int, j: int|
        0 <= i < j < all.len() ==> before((#[trigger] all[i]).seed(), (#[trigger] all[j]).seed())
            && !joined(mask, w, h, all[i].seed(), all[j].seed())
    &&& forall|p: Pixel|
        win.holds(p) && #[trigger] lit(mask, w, h, p) ==> exists|i: int|
            0 <= i < all.len() && joined(mask, w, h, (#[trigger] all[i]).seed(), p) && !before(
                p,
                all[i].seed(),
            )
}

// ---------------------------------------------------------------------------
// Chains
// ---------------------------------------------------------------------------
/// An admitted pixel is joined to itself.
pub proof fn lemma_joined_self(mask: Seq<bool>, w: int, h: int, a: Pixel)
    requires
        lit(mask, w, h, a),
    ensures
        joined(mask, w, h, a, a),
{
    reveal(joined);
    let c = seq![a];
    assert(is_chain(c, mask, w, h));
    assert(c[0] == a && c.last() == a);
}

/// An admitted neighbour of a joined pixel is joined too.
pub proof fn lemma_joined_extend(mask: Seq<bool>, w: int, h: int, a: Pixel, b: Pixel, n: Pixel)
    requires
        joined(mask, w, h, a, b),
        adjacent(b, n),
        lit(mask, w, h, n),
    ensures
        joined(mask, w, h, a, n),
{
    reveal(joined);
    let c = choose|c: Seq<Pixel>| #[trigger] is_chain(c, mask, w, h) && c[0] == a && c.last() == b;
    let d = c.push(n);
    assert forall|i: int| 0 <= i < d.len() implies lit(mask, w, h, #[trigger] d[i]) by {
        if i < c.len() {
            assert(d[i] == c[i]);
        }
    }
    assert forall|i: int| 0 <= i < d.len() - 1 implies adjacent(#[trigger] d[i], d[i + 1]) by {
        if i < c.len() - 1 {
            assert(d[i] == c[i]);
            assert(d[i + 1] == c[i + 1]);
        }
    }
    assert(is_chain(d, mask, w, h));
    assert(d[0] == a && d.last() == n);
}

/// Both ends of a chain are admitted pixels.
pub proof fn lemma_joined_lit(mask: Seq<bool>, w: int, h: int, a: Pixel, b: Pixel)
    requires
        joined(mask, w, h, a, b),
    ensures
        lit(mask, w, h, a),
        lit(mask, w, h, b),
{
    reveal(joined);
    let c = choose|c: Seq<Pixel>| #[trigger] is_chain(c, mask, w, h) && c[0] == a && c.last() == b;
    assert(lit(mask, w, h, c[0]));
    assert(lit(mask, w, h, c[c.len() - 1]));
}

/// A set that holds the first pixel of a chain, and with each pixel its
/// admitted neighbours, holds the whole chain.
proof fn lemma_chain_inside(c: Seq<Pixel>, mask: Seq<bool>, w: int, h: int, s: Set<Pixel>, k: int)
    requires
        is_chain(c, mask, w, h),
        s.contains(c[0]),
        forall|p: Pixel, n: Pixel|
            s.contains(p) && #[trigger] adjacent(p, n) && lit(mask, w, h, n) ==> s.contains(n),
        0 <= k < c.len(),
    ensures
        s.contains(c[k]),
    decreases k,
{
    if k > 0 {
        lemma_chain_inside(c, mask, w, h, s, k - 1);
        assert(adjacent(c[k - 1], c[k]));
        assert(lit(mask, w, h, c[k]));
    }
}

/// Being joined is symmetric.
pub proof fn lemma_joined_symmetric(mask: Seq<bool>, w: int, h: int, a: Pixel, b: Pixel)
    requires
        joined(mask, w, h, a, b),
    ensures
        joined(mask, w, h, b, a),
{
    reveal(joined);
    let c = choose|c: Seq<Pixel>| #[trigger] is_chain(c, mask, w, h) && c[0] == a && c.last() == b;
    let n = c.len() as int;
    let d = Seq::new(c.len(), |i: int| c[n - 1 - i]);
    assert forall|i: int| 0 <= i < d.len() implies lit(mask, w, h, #[trigger] d[i]) by {
        assert(lit(mask, w, h, c[n - 1 - i]));
    }
    assert forall|i: int| 0 <= i < d.len() - 1 implies adjacent(#[trigger] d[i], d[i + 1]) by {
        assert(adjacent(c[n - 2 - i], c[n - 2 - i + 1]));
    }
    assert(is_chain(d, mask, w, h));
    assert(d[0] == b && d.last() == a);
}

/// Being joined is transitive.
pub proof fn lemma_joined_transitive(
    mask: Seq<bool>,
    w: int,
    h: int,
    a: Pixel,
    b: Pixel,
    c: Pixel,
)
    requires
        joined(mask, w, h, a, b),
        joined(mask, w, h, b, c),
    ensures
        joined(mask, w, h, a, c),
{
    reveal(joined);
    let p = choose|p: Seq<Pixel>| #[trigger] is_chain(p, mask, w, h) && p[0] == a && p.last() == b;
    let q = choose|q: Seq<Pixel>| #[trigger] is_chain(q, mask, w, h) && q[0] == b && q.last() == c;
    let d = p.drop_last() + q;
    let m = p.len() - 1;
    assert forall|i: int| 0 <= i < d.len() implies lit(mask, w, h, #[trigger] d[i]) by {
        if i < m {
            assert(d[i] == p[i]);
        } else {
            assert(d[i] == q[i - m]);
        }
    }
    assert forall|i: int| 0 <= i < d.len() - 1 implies adjacent(#[trigger] d[i], d[i + 1]) by {
        if i + 1 < m {
            assert(d[i] == p[i] && d[i + 1] == p[i + 1]);
        } else if i < m {
            assert(d[i] == p[i]);
            assert(d[i + 1] == q[0]);
            assert(adjacent(p[i], p[i + 1]));
        } else {
            assert(d[i] == q[i - m]);
            assert(d[i + 1] == q[i - m + 1]);
            assert(adjacent(q[i - m], q[i - m + 1]));
        }
    }
    assert(is_chain(d, mask, w, h));
    assert(d[0] == a);
    assert(d.last() == q.last());
}

/// The component of a seed has one description.
pub proof fn lemma_component_unique(r1: Region, r2: Region, mask: Seq<bool>, w: int, h: int)
    requires
        r1.is_component(mask, w, h),
        r2.is_component(mask, w, h),
        r1.seed() == r2.seed(),
    ensures
        r1 == r2,
{
    reveal(Region::is_component);
    assert(Set::new(|p: Pixel| joined(mask, w, h, r1.seed(), p)) =~= Set::new(
        |p: Pixel| joined(mask, w, h, r2.seed(), p),
    ));
}

/// Up to index `i`, two component lists of one mask and window have the same
/// seeds.
proof fn lemma_seeds_agree(
    a: Seq<Region>,
    b: Seq<Region>,
    mask: Seq<bool>,
    w: int,
    h: int,
    win: Window,
    i: int,
)
    requires
        is_component_list(a, mask, w, h, win),
        is_component_list(b, mask, w, h, win),
        0 <= i <= a.len(),
    ensures
        i <= b.len(),
        forall|k: int| 0 <= k < i ==> (#[trigger] a[k]).seed() == b[k].seed(),
    decreases i,
{
    if i > 0 {
        lemma_seeds_agree(a, b, mask, w, h, win, i - 1);
        let t = i - 1;
        let j = lemma_seed_shared(a, b, mask, w, h, win, t);
        if j < t {
            assert(a[j].seed() == b[j].seed());
            assert(before(a[j].seed(), a[t].seed()));
        } else if j > t {
            let k = lemma_seed_shared(b, a, mask, w, h, win, t);
            assert(before(b[t].seed(), b[j].seed()));
            if k < t {
                assert(a[k].seed() == b[k].seed());
                assert(before(b[k].seed(), b[t].seed()));
            } else if k > t {
                assert(before(a[t].seed(), a[k].seed()));
            }
        }
    }
}

/// The seed at index `i` of one component list is a seed of any other
/// component list of the same mask and window.
proof fn lemma_seed_shared(
    a: Seq<Region>,
    b: Seq<Region>,
    mask: Seq<bool>,
    w: int,
    h: int,
    win: Window,
    i: int,
) -> (j: int)
    requires
        is_component_list(a, mask, w, h, win),
        is_component_list(b, mask, w, h, win),
        0 <= i < a.len(),
    ensures
        0 <= j < b.len(),
        b[j].seed() == a[i].seed(),
{
    let s = a[i].seed();
    assert(a[i].is_component(mask, w, h));
    assert(lit(mask, w, h, s)) by {
        reveal(Region::is_component);
    }
    let j = choose|j: int|
        0 <= j < b.len() && joined(mask, w, h, (#[trigger] b[j]).seed(), s) && !before(
            s,
            b[j].seed(),
        );
    let t = b[j].seed();
    assert(b[j].is_component(mask, w, h));
    assert(lit(mask, w, h, t)) by {
        reveal(Region::is_component);
    }
    let k = choose|k: int|
        0 <= k < a.len() && joined(mask, w, h, (#[trigger] a[k]).seed(), t) && !before(
            t,
            a[k].seed(),
        );
    lemma_joined_transitive(mask, w, h, a[k].seed(), t, s);
    if k < i {
        assert(!joined(mask, w, h, a[k].seed(), a[i].seed()));
    } else if k > i {
        lemma_joined_symmetric(mask, w, h, a[k].seed(), s);
        assert(!joined(mask, w, h, a[i].seed(), a[k].seed()));
    }
    assert(k == i);
    j
}

/// A mask and a window have one component list.
pub proof fn lemma_component_list_unique(
    a: Seq<Region>,
    b: Seq<Region>,
    mask: Seq<bool>,
    w: int,
    h: int,
    win: Window,
)
    requires
        is_component_list(a, mask, w, h, win),
        is_component_list(b, mask, w, h, win),
    ensures
        a == b,
{
    lemma_seeds_agree(a, b, mask, w, h, win, a.len() as int);
    lemma_seeds_agree(b, a, mask, w, h, win, b.len() as int);
    assert forall|k: int| 0 <= k < a.len() implies a[k] == b[k] by {
        assert(a[k].seed() == b[k].seed());
        lemma_component_unique(a[k], b[k], mask, w, h);
    }
    assert(a =~= b);
}

/// The components of `mask` that meet the window `win`, each described by
/// its first window pixel in row-major order, its bounding box and its size,
/// in the row-major order of those first pixels.
pub open spec fn components(mask: Seq<bool>, w: int, h: int, win: Window) -> Seq<Region> {
    choose|all: Seq<Region>| is_component_list(all, mask, w, h, win)
}

// ---------------------------------------------------------------------------
// Pixel indices
// ---------------------------------------------------------------------------
/// The index of a pixel of the image lies in the pixel sequence.
pub proof fn lemma_index_bound(x: int, y: int, w: int, h: int)
    requires
        0 <= x < w,
        0 <= y < h,
    ensures
        0 <= y * w + x < w * h,
{
    assert(y * w + x < w * h) by (nonlinear_arith)
        requires
            0 <= x < w,
            0 <= y < h,
    ;
    assert(0 <= y * w) by (nonlinear_arith)
        requires
            0 <= y,
            0 <= w,
    ;
}

/// Different pixels have different indices.
pub proof fn lemma_index_unique(x1: int, y1: int, x2: int, y2: int, w: int)
    requires
        0 <= x1 < w,
        0 <= x2 < w,
        y1 * w + x1 == y2 * w + x2,
    ensures
        x1 == x2,
        y1 == y2,
{
    assert(y1 == y2) by (nonlinear_arith)
        requires
            0 <= x1 < w,
            0 <= x2 < w,
            y1 * w + x1 == y2 * w + x2,
    ;
}

/// Number of unmarked entries.
spec fn unmarked(v: Seq<bool>) -> nat
    decreases v.len(),
{
    if v.len() == 0 {
        0
    } else {
        unmarked(v.drop_last()) + if v.last() {
            0nat
        } else {
            1nat
        }
    }
}

proof fn lemma_mark(v: Seq<bool>, i: int)
    requires
        0 <= i < v.len(),
        !v[i],
    ensures
        unmarked(v.update(i, true)) + 1 == unmarked(v),
    decreases v.len(),
{
    let u = v.update(i, true);
    if i == v.len() - 1 {
        assert(u.drop_last() =~= v.drop_last());
    } else {
        assert(u.drop_last() =~= v.drop_last().update(i, true));
        lemma_mark(v.drop_last(), i);
    }
}


proof fn lemma_unmarked_bound(v: Seq<bool>)
    ensures
        unmarked(v) <= v.len(),
    decreases v.len(),
{
    if v.len() > 0 {
        lemma_unmarked_bound(v.drop_last());
    }
}

// ---------------------------------------------------------------------------
// One fill
// ---------------------------------------------------------------------------
/// The flag of pixel `p` is set.
spec fn marked(v: Seq<bool>, w: int, h: int, p: Pixel) -> bool {
    0 <= p.0 < w && 0 <= p.1 < h && v[p.1 * w + p.0]
}

/// Only admitted pixels are marked, and with each marked pixel all of its
/// admitted neighbours: the marked pixels are a union of whole components.
spec fn marks_closed(v: Seq<bool>, mask: Seq<bool>, w: int, h: int) -> bool {
    &&& forall|p: Pixel| #[trigger] marked(v, w, h, p) ==> lit(mask, w, h, p)
    &&& forall|p: Pixel, n: Pixel|
        marked(v, w, h, p) && #[trigger] adjacent(p, n) && lit(mask, w, h, n) ==> marked(
            v,
            w,
            h,
            n,
        )
}

spec fn px(e: (usize, usize)) -> Pixel {
    (e.0 as int, e.1 as int)
}

spec fn on_stack(stack: Seq<(usize, usize)>, n: Pixel) -> bool {
    exists|k: int| 0 <= k < stack.len() && px(#[trigger] stack[k]) == n
}

/// The neighbours of `(cx, cy)` inside the image, in the order the fill
/// pushes them.
spec fn neighbours(cx: usize, cy: usize, w: usize, h: usize) -> Seq<(usize, usize)> {
    let left = if cx > 0 {
        seq![((cx - 1) as usize, cy)]
    } else {
        Seq::empty()
    };
    let right = if cx + 1 < w {
        seq![((cx + 1) as usize, cy)]
    } else {
        Seq::empty()
    };
    let up = if cy > 0 {
        seq![(cx, (cy - 1) as usize)]
    } else {
        Seq::empty()
    };
    let down = if cy + 1 < h {
        seq![(cx, (cy + 1) as usize)]
    } else {
        Seq::empty()
    };
    left + right + up + down
}

/// State of a fill from `s`: `v0` are the flags before it, `comp` the pixels
/// it has marked so far, `stack` the pixels still to be looked at.
#[verifier::opaque]
spec fn fill_inv(
    visited: Seq<bool>,
    stack: Seq<(usize, usize)>,
    comp: Set<Pixel>,
    v0: Seq<bool>,
    mask: Seq<bool>,
    w: int,
    h: int,
    s: Pixel,
) -> bool {
    &&& mask.len() == w * h
    &&& visited.len() == w * h
    &&& v0.len() == w * h
    &&& lit(mask, w, h, s)
    &&& !marked(v0, w, h, s)
    &&& marks_closed(v0, mask, w, h)
    &&& forall|p: Pixel| #[trigger]
        marked(visited, w, h, p) <==> marked(v0, w, h, p) || (0 <= p.0 < w && 0 <= p.1 < h
            && comp.contains(p))
    &&& forall|p: Pixel| #[trigger]
        comp.contains(p) ==> joined(mask, w, h, s, p) && !marked(v0, w, h, p)
    &&& forall|k: int|
        0 <= k < stack.len() ==> (#[trigger] stack[k]).0 < w && stack[k].1 < h && (px(stack[k])
            == s || exists|q: Pixel| comp.contains(q) && #[trigger] adjacent(q, px(stack[k])))
    &&& forall|p: Pixel, n: Pixel|
        comp.contains(p) && #[trigger] adjacent(p, n) && lit(mask, w, h, n) ==> marked(
            visited,
            w,
            h,
            n,
        ) || on_stack(stack, n)
    &&& (comp.contains(s) || on_stack(stack, s))
}

/// A fill starts with nothing marked and the seed alone on the stack.
proof fn lemma_fill_start(v0: Seq<bool>, mask: Seq<bool>, w: int, h: int, sx: usize, sy: usize)
    requires
        mask.len() == w * h,
        v0.len() == w * h,
        lit(mask, w, h, (sx as int, sy as int)),
        !marked(v0, w, h, (sx as int, sy as int)),
        marks_closed(v0, mask, w, h),
    ensures
        fill_inv(v0, seq![(sx, sy)], Set::empty(), v0, mask, w, h, (sx as int, sy as int)),
{
    reveal(fill_inv);
    let stack = seq![(sx, sy)];
    assert(px(stack[0]) == (sx as int, sy as int));
    assert(on_stack(stack, (sx as int, sy as int)));
}

/// The pixel on top of the stack lies inside the image.
proof fn lemma_fill_top(
    visited: Seq<bool>,
    stack: Seq<(usize, usize)>,
    comp: Set<Pixel>,
    v0: Seq<bool>,
    mask: Seq<bool>,
    w: int,
    h: int,
    s: Pixel,
)
    requires
        fill_inv(visited, stack, comp, v0, mask, w, h, s),
        stack.len() > 0,
    ensures
        stack.last().0 < w,
        stack.last().1 < h,
        visited.len() == w * h,
        forall|p: Pixel| #[trigger] comp.contains(p) ==> joined(mask, w, h, s, p),
{
    reveal(fill_inv);
    assert(stack[stack.len() - 1].0 < w);
}

/// The pixel on top of the stack is already marked, or not admitted:
/// dropping it keeps the state.
proof fn lemma_fill_skip(
    visited: Seq<bool>,
    stack: Seq<(usize, usize)>,
    comp: Set<Pixel>,
    v0: Seq<bool>,
    mask: Seq<bool>,
    w: int,
    h: int,
    s: Pixel,
)
    requires
        fill_inv(visited, stack, comp, v0, mask, w, h, s),
        stack.len() > 0,
        marked(visited, w, h, px(stack.last())) || !lit(mask, w, h, px(stack.last())),
    ensures
        fill_inv(visited, stack.drop_last(), comp, v0, mask, w, h, s),
{
    reveal(fill_inv);
    let rest = stack.drop_last();
    let e = px(stack.last());
    assert forall|k: int| 0 <= k < rest.len() implies (#[trigger] rest[k]).0 < w && rest[k].1 < h
        && (px(rest[k]) == s || exists|q: Pixel|
        comp.contains(q) && #[trigger] adjacent(q, px(rest[k]))) by {
        assert(rest[k] == stack[k]);
    }
    assert forall|n: Pixel| on_stack(stack, n) && n != e implies on_stack(rest, n) by {
        let k = choose|k: int| 0 <= k < stack.len() && px(#[trigger] stack[k]) == n;
        assert(rest[k] == stack[k]);
    }
    assert forall|p: Pixel, n: Pixel|
        comp.contains(p) && #[trigger] adjacent(p, n) && lit(mask, w, h, n) implies marked(
        visited,
        w,
        h,
        n,
    ) || on_stack(rest, n) by {
        if !marked(visited, w, h, n) {
            assert(on_stack(stack, n));
        }
    }
    if !comp.contains(s) {
        assert(on_stack(stack, s));
        assert(s != e);
    }
}

/// The pixel on top of the stack is admitted and unmarked: it belongs to the
/// component, and marking it and stacking its neighbours keeps the state.
proof fn lemma_fill_visit(
    visited: Seq<bool>,
    stack: Seq<(usize, usize)>,
    comp: Set<Pixel>,
    v0: Seq<bool>,
    mask: Seq<bool>,
    w: usize,
    h: usize,
    s: Pixel,
)
    requires
        fill_inv(visited, stack, comp, v0, mask, w as int, h as int, s),
        stack.len() > 0,
        !marked(visited, w as int, h as int, px(stack.last())),
        lit(mask, w as int, h as int, px(stack.last())),
    ensures
        joined(mask, w as int, h as int, s, px(stack.last())),
        !comp.contains(px(stack.last())),
        fill_inv(
            visited.update(stack.last().1 * w + stack.last().0, true),
            stack.drop_last() + neighbours(stack.last().0, stack.last().1, w, h),
            comp.insert(px(stack.last())),
            v0,
            mask,
            w as int,
            h as int,
            s,
        ),
{
    reveal(fill_inv);
    let wi = w as int;
    let hi = h as int;
    let top = stack.last();
    let e = px(top);
    let rest = stack.drop_last();
    let nb = neighbours(top.0, top.1, w, h);
    let stack2 = rest + nb;
    let comp2 = comp.insert(e);
    let idx = top.1 * w + top.0;
    let visited2 = visited.update(idx, true);
    lemma_index_bound(e.0, e.1, wi, hi);
    if e == s {
        lemma_joined_self(mask, wi, hi, s);
    } else {
        let q = choose|q: Pixel| comp.contains(q) && #[trigger] adjacent(q, e);
        lemma_joined_extend(mask, wi, hi, s, q, e);
    }
    assert forall|p: Pixel| #[trigger]
        marked(visited2, wi, hi, p) <==> marked(v0, wi, hi, p) || (0 <= p.0 < wi && 0 <= p.1 < hi
            && comp2.contains(p)) by {
        if 0 <= p.0 < wi && 0 <= p.1 < hi {
            lemma_index_bound(p.0, p.1, wi, hi);
            if p.1 * wi + p.0 == idx {
                lemma_index_unique(p.0, p.1, e.0, e.1, wi);
            }
            assert(marked(visited, wi, hi, p) <==> marked(v0, wi, hi, p) || comp.contains(p));
        }
    }
    assert forall|k: int| 0 <= k < stack2.len() implies (#[trigger] stack2[k]).0 < w && stack2[k].1
        < h && (px(stack2[k]) == s || exists|q: Pixel|
        comp2.contains(q) && #[trigger] adjacent(q, px(stack2[k]))) by {
        if k < rest.len() {
            assert(stack2[k] == stack[k]);
            if px(stack[k]) != s {
                let q = choose|q: Pixel| comp.contains(q) && #[trigger] adjacent(q, px(stack[k]));
                assert(comp2.contains(q) && adjacent(q, px(stack2[k])));
            }
        } else {
            assert(stack2[k] == nb[k - rest.len()]);
            assert(comp2.contains(e) && adjacent(e, px(stack2[k])));
        }
    }
    assert forall|n: Pixel| on_stack(stack, n) && n != e implies on_stack(stack2, n) by {
        let k = choose|k: int| 0 <= k < stack.len() && px(#[trigger] stack[k]) == n;
        assert(stack2[k] == stack[k]);
    }
    assert forall|n: Pixel| adjacent(e, n) && 0 <= n.0 < wi && 0 <= n.1 < hi implies on_stack(
        stack2,
        n,
    ) by {
        let left: Seq<(usize, usize)> = if top.0 > 0 {
            seq![((top.0 - 1) as usize, top.1)]
        } else {
            Seq::empty()
        };
        let right: Seq<(usize, usize)> = if top.0 + 1 < w {
            seq![((top.0 + 1) as usize, top.1)]
        } else {
            Seq::empty()
        };
        let up: Seq<(usize, usize)> = if top.1 > 0 {
            seq![(top.0, (top.1 - 1) as usize)]
        } else {
            Seq::empty()
        };
        let down: Seq<(usize, usize)> = if top.1 + 1 < h {
            seq![(top.0, (top.1 + 1) as usize)]
        } else {
            Seq::empty()
        };
        assert(nb == left + right + up + down);
        let base = rest.len() as int;
        let k: int = if n.0 == e.0 - 1 {
            base
        } else if n.0 == e.0 + 1 {
            base + left.len()
        } else if n.1 == e.1 - 1 {
            base + left.len() + right.len()
        } else {
            base + left.len() + right.len() + up.len()
        };
        assert(0 <= k < stack2.len());
        assert(px(stack2[k]) == n);
    }
    assert forall|p: Pixel, n: Pixel|
        comp2.contains(p) && #[trigger] adjacent(p, n) && lit(mask, wi, hi, n) implies marked(
        visited2,
        wi,
        hi,
        n,
    ) || on_stack(stack2, n) by {
        if p != e {
            if marked(visited, wi, hi, n) {
                assert(marked(visited2, wi, hi, n));
            } else {
                assert(on_stack(stack, n));
                if n == e {
                    assert(marked(visited2, wi, hi, n));
                }
            }
        }
    }
    if !comp.contains(s) && s != e {
        assert(on_stack(stack, s));
    }
}

/// After a fill, when nothing is left on the stack, the pixels it marked are
/// exactly the component of `s`.
proof fn lemma_fill_done(
    visited: Seq<bool>,
    comp: Set<Pixel>,
    v0: Seq<bool>,
    mask: Seq<bool>,
    w: int,
    h: int,
    s: Pixel,
)
    requires
        fill_inv(visited, Seq::empty(), comp, v0, mask, w, h, s),
    ensures
        comp =~= Set::new(|p: Pixel| joined(mask, w, h, s, p)),
        comp.contains(s),
        marks_closed(visited, mask, w, h),
        forall|p: Pixel|
            #![trigger marked(visited, w, h, p)]
            #![trigger joined(mask, w, h, s, p)]
            marked(visited, w, h, p) <==> marked(v0, w, h, p) || joined(mask, w, h, s, p),
{
    reveal(fill_inv);
    reveal(joined);
    let none = Seq::<(usize, usize)>::empty();
    assert(!on_stack(none, s));
    assert forall|p: Pixel, n: Pixel|
        comp.contains(p) && #[trigger] adjacent(p, n) && lit(mask, w, h, n) implies comp.contains(
        n,
    ) by {
        assert(!on_stack(none, n));
        assert(marked(visited, w, h, n));
        if marked(v0, w, h, n) {
            lemma_joined_lit(mask, w, h, s, p);
            assert(adjacent(n, p));
            assert(marked(v0, w, h, p));
        }
    }
    assert forall|p: Pixel| joined(mask, w, h, s, p) implies comp.contains(p) by {
        let c = choose|c: Seq<Pixel>| #[trigger]
            is_chain(c, mask, w, h) && c[0] == s && c.last() == p;
        lemma_chain_inside(c, mask, w, h, comp, c.len() - 1);
    }
    assert forall|p: Pixel| #[trigger] marked(visited, w, h, p) implies lit(mask, w, h, p) by {
        if !marked(v0, w, h, p) {
            assert(comp.contains(p));
            lemma_joined_lit(mask, w, h, s, p);
        }
    }
    assert forall|p: Pixel|
        #![trigger marked(visited, w, h, p)]
        #![trigger joined(mask, w, h, s, p)]
        marked(visited, w, h, p) <==> marked(v0, w, h, p) || joined(mask, w, h, s, p) by {
        if joined(mask, w, h, s, p) {
            lemma_joined_lit(mask, w, h, s, p);
        }
    }
    assert forall|p: Pixel, n: Pixel|
        marked(visited, w, h, p) && #[trigger] adjacent(p, n) && lit(mask, w, h, n) implies marked(
        visited,
        w,
        h,
        n,
    ) by {
        if marked(v0, w, h, p) {
            assert(marked(v0, w, h, n));
        } else {
            assert(comp.contains(p));
            assert(comp.contains(n));
        }
    }
}


/// Flood fill from the admitted, unmarked pixel `(sx, sy)`: marks its whole
/// component and returns the component's bounding box and size.
fn fill(mask: &Vec<bool>, w: usize, h: usize, visited: &mut Vec<bool>, sx: usize, sy: usize) -> (r:
    Region)
    requires
        mask@.len() == w * h,
        old(visited)@.len() == w * h,
        lit(mask@, w as int, h as int, (sx as int, sy as int)),
        !marked(old(visited)@, w as int, h as int, (sx as int, sy as int)),
        marks_closed(old(visited)@, mask@, w as int, h as int),
    ensures
        final(visited)@.len() == w * h,
        marks_closed(final(visited)@, mask@, w as int, h as int),
        forall|p: Pixel|
            #![trigger marked(final(visited)@, w as int, h as int, p)]
            #![trigger joined(mask@, w as int, h as int, (sx as int, sy as int), p)]
            marked(final(visited)@, w as int, h as int, p) <==> marked(
                old(visited)@,
                w as int,
                h as int,
                p,
            ) || joined(mask@, w as int, h as int, (sx as int, sy as int), p),
        r.is_component(mask@, w as int, h as int),
        r.seed_x == sx,
        r.seed_y == sy,
        r.min_x <= r.max_x < w,
        r.min_y <= r.max_y < h,
{
    let ghost v0 = visited@;
    let ghost s: Pixel = (sx as int, sy as int);
    let ghost wi = w as int;
    let ghost hi = h as int;
    let mut min_x: usize = sx;
    let mut max_x: usize = sx;
    let mut min_y: usize = sy;
    let mut max_y: usize = sy;
    let mut count: usize = 0;
    let total: usize = mask.len();
    let mut stack: Vec<(usize, usize)> = Vec::new();
    stack.push((sx, sy));
    let ghost mut comp: Set<Pixel> = Set::empty();
    let ghost mut west: Pixel = s;
    let ghost mut east: Pixel = s;
    let ghost mut north: Pixel = s;
    let ghost mut south: Pixel = s;
    proof {
        lemma_unmarked_bound(v0);
        lemma_fill_start(v0, mask@, wi, hi, sx, sy);
        assert(stack@ =~= seq![(sx, sy)]);
    }
    while stack.len() > 0
        invariant
            fill_inv(visited@, stack@, comp, v0, mask@, wi, hi, s),
            s == (sx as int, sy as int),
            wi == w as int,
            hi == h as int,
            comp.finite(),
            count == comp.len(),
            count + unmarked(visited@) <= unmarked(v0),
            unmarked(v0) <= w * h,
            mask@.len() == w * h,
            total == w * h,
            visited@.len() == w * h,
            forall|p: Pixel| #[trigger] comp.contains(p) ==> joined(mask@, wi, hi, s, p),
            forall|p: Pixel| #[trigger]
                comp.contains(p) ==> min_x <= p.0 <= max_x && min_y <= p.1 <= max_y,
            min_x <= sx <= max_x < w,
            min_y <= sy <= max_y < h,
            (comp.contains(west) || west == s) && west.0 == min_x,
            (comp.contains(east) || east == s) && east.0 == max_x,
            (comp.contains(north) || north == s) && north.1 == min_y,
            (comp.contains(south) || south == s) && south.1 == max_y,
        decreases unmarked(visited@), stack@.len(),
    {
        let ghost stack0 = stack@;
        let ghost visited0 = visited@;
        let top = stack.pop().unwrap();
        let cx: usize = top.0;
        let cy: usize = top.1;
        let ghost e: Pixel = (cx as int, cy as int);
        proof {
            assert(top == stack0.last());
            assert(stack@ == stack0.drop_last());
            lemma_fill_top(visited0, stack0, comp, v0, mask@, wi, hi, s);
            lemma_index_bound(cx as int, cy as int, wi, hi);
            assert(0 <= cy * w) by (nonlinear_arith)
                requires
                    0 <= cy,
                    0 <= w,
            ;
            assert(cy * w + cx < mask@.len());
        }
        let cidx: usize = cy * w + cx;
        if !visited[cidx] && mask[cidx] {
            proof {
                lemma_fill_visit(visited0, stack0, comp, v0, mask@, w, h, s);
                lemma_mark(visited0, cidx as int);
                comp = comp.insert(e);
            }
            visited.set(cidx, true);
            count = count + 1;
            if cx < min_x {
                min_x = cx;
                proof {
                    west = e;
                }
            }
            if cx > max_x {
                max_x = cx;
                proof {
                    east = e;
                }
            }
            if cy < min_y {
                min_y = cy;
                proof {
                    north = e;
                }
            }
            if cy > max_y {
                max_y = cy;
                proof {
                    south = e;
                }
            }
            if cx > 0 {
                stack.push((cx - 1, cy));
            }
            if cx + 1 < w {
                stack.push((cx + 1, cy));
            }
            if cy > 0 {
                stack.push((cx, cy - 1));
            }
            if cy + 1 < h {
                stack.push((cx, cy + 1));
            }
            proof {
                assert(stack@ =~= stack0.drop_last() + neighbours(cx, cy, w, h));
            }
        } else {
            proof {
                lemma_fill_skip(visited0, stack0, comp, v0, mask@, wi, hi, s);
            }
        }
    }
    proof {
        assert(stack@ =~= Seq::<(usize, usize)>::empty());
        lemma_fill_done(visited@, comp, v0, mask@, wi, hi, s);
        assert(joined(mask@, wi, hi, s, west) && west.0 == min_x);
        assert(joined(mask@, wi, hi, s, east) && east.0 == max_x);
        assert(joined(mask@, wi, hi, s, north) && north.1 == min_y);
        assert(joined(mask@, wi, hi, s, south) && south.1 == max_y);
    }
    let r = Region { seed_x: sx, seed_y: sy, min_x, max_x, min_y, max_y, pixel_count: count };
    proof {
        reveal(Region::is_component);
        assert(r.seed() == s);
        assert(Set::new(|p: Pixel| joined(mask@, wi, hi, r.seed(), p)) =~= comp);
        assert forall|p: Pixel| #[trigger] joined(mask@, wi, hi, s, p) implies r.min_x <= p.0
            <= r.max_x && r.min_y <= p.1 <= r.max_y by {
            assert(comp.contains(p));
        }
    }
    r
}

// ---------------------------------------------------------------------------
// Shapes
// ---------------------------------------------------------------------------
/// A test on the bounding box of a component, and for discs on its size.
#[derive(Debug, Clone, Copy, PartialEq, Eq, Structural)]
pub enum ShapeRule {
    /// A wide, flat bar: at least `min_width` wide, at most `max_height`
    /// high, and more than three times as wide as high.
    Bar { min_width: usize, max_height: usize },
    /// A roughly round blob: the longer side (the diameter) lies between the
    /// two bounds, width over height lies strictly between 0.7 and 1.4, and,
    /// if `filled`, the component covers at least half of the disc of that
    /// diameter.
    Disc { min_diameter: usize, max_diameter: usize, filled: bool },
    /// A patch more than `min_side` wide and more than `min_side` high.
    Patch { min_side: usize },
}

/// `count` pixels are at least half the area of a disc of diameter `d`:
/// `count >= pi * (d / 2)^2 / 2`, with pi taken to fifteen decimal places.
pub open spec fn covers_half_disc(count: int, d: int) -> bool {
    8 * count * 1_000_000_000_000_000 >= 3_141_592_653_589_793 * (d * d)
}

impl ShapeRule {
    /// Diameters stay small enough for the area test to be computed.
    pub open spec fn wf(self) -> bool {
        match self {
            ShapeRule::Disc { min_diameter, max_diameter, filled } => max_diameter <= 0xffff_ffff,
            _ => true,
        }
    }

    /// Whether the rule admits the region.
    pub open spec fn admits(self, r: Region) -> bool {
        let sx = r.span_x();
        let sy = r.span_y();
        match self {
            ShapeRule::Bar { min_width, max_height } => sx >= min_width && sy <= max_height && sx
                > 3 * sy,
            ShapeRule::Disc { min_diameter, max_diameter, filled } => {
                let d = if sx >= sy {
                    sx
                } else {
                    sy
                };
                &&& min_diameter <= d <= max_diameter
                &&& 10 * sx > 7 * sy
                &&& 10 * sx < 14 * sy
                &&& (filled ==> covers_half_disc(r.pixel_count as int, d))
            },
            ShapeRule::Patch { min_side } => sx > min_side && sy > min_side,
        }
    }

    /// Whether the rule admits the region.
    pub fn accepts(&self, r: &Region) -> (b: bool)
        requires
            self.wf(),
            r.min_x <= r.max_x,
            r.min_y <= r.max_y,
        ensures
            b == self.admits(*r),
    {
        let sx: u128 = (r.max_x - r.min_x) as u128 + 1;
        let sy: u128 = (r.max_y - r.min_y) as u128 + 1;
        match *self {
            ShapeRule::Bar { min_width, max_height } => sx >= min_width as u128 && sy
                <= max_height as u128 && sx > 3 * sy,
            ShapeRule::Disc { min_diameter, max_diameter, filled } => {
                let d: u128 = if sx >= sy {
                    sx
                } else {
                    sy
                };
                if d < min_diameter as u128 || d > max_diameter as u128 {
                    false
                } else if !(10 * sx > 7 * sy && 10 * sx < 14 * sy) {
                    false
                } else if !filled {
                    true
                } else {
                    assert(d * d <= 0xffff_ffff * 0xffff_ffff) by (nonlinear_arith)
                        requires
                            0 <= d <= 0xffff_ffff,
                    ;
                    let area: u128 = d * d;
                    8 * (r.pixel_count as u128) * 1_000_000_000_000_000 >= 3_141_592_653_589_793
                        * area
                }
            },
            ShapeRule::Patch { min_side } => sx > min_side as u128 && sy > min_side as u128,
        }
    }
}

/// The regions of `all` that `rule` admits, in order.
pub open spec fn accepted(all: Seq<Region>, rule: ShapeRule) -> Seq<Region>
    decreases all.len(),
{
    if all.len() == 0 {
        Seq::empty()
    } else {
        let rest = accepted(all.drop_last(), rule);
        if rule.admits(all.last()) {
            rest.push(all.last())
        } else {
            rest
        }
    }
}


/// Every admitted region comes from the list it was chosen from.
proof fn lemma_accepted_source(all: Seq<Region>, rule: ShapeRule, i: int) -> (k: int)
    requires
        0 <= i < accepted(all, rule).len(),
    ensures
        0 <= k < all.len(),
        accepted(all, rule)[i] == all[k],
    decreases all.len(),
{
    let rest = all.drop_last();
    let a = accepted(rest, rule);
    if rule.admits(all.last()) && i == a.len() {
        all.len() - 1
    } else {
        let k = lemma_accepted_source(rest, rule, i);
        assert(rest[k] == all[k]);
        k
    }
}

/// Admitted regions keep the order of the list they were chosen from.
proof fn lemma_accepted_pair(all: Seq<Region>, rule: ShapeRule, i: int, j: int) -> (k: (int, int))
    requires
        0 <= i < j < accepted(all, rule).len(),
    ensures
        0 <= k.0 < k.1 < all.len(),
        accepted(all, rule)[i] == all[k.0],
        accepted(all, rule)[j] == all[k.1],
    decreases all.len(),
{
    let rest = all.drop_last();
    let a = accepted(rest, rule);
    if rule.admits(all.last()) && j == a.len() {
        let k0 = lemma_accepted_source(rest, rule, i);
        assert(rest[k0] == all[k0]);
        (k0, all.len() - 1)
    } else {
        let k = lemma_accepted_pair(rest, rule, i, j);
        assert(rest[k.0] == all[k.0]);
        assert(rest[k.1] == all[k.1]);
        k
    }
}

/// The regions a scan returns are components that start in the window, and
/// no two of them are the same component: their seeds are not joined.
pub proof fn lemma_found_regions_apart(
    mask: Seq<bool>,
    w: int,
    h: int,
    win: Window,
    rule: ShapeRule,
)
    requires
        is_component_list(components(mask, w, h, win), mask, w, h, win),
    ensures
        forall|i: int|
            0 <= i < accepted(components(mask, w, h, win), rule).len() ==> (#[trigger] accepted(
                components(mask, w, h, win),
                rule,
            )[i]).is_component(mask, w, h) && win.holds(
                accepted(components(mask, w, h, win), rule)[i].seed(),
            ),
        forall|i: int, j: int|
            0 <= i < j < accepted(components(mask, w, h, win), rule).len() ==> before(
                (#[trigger] accepted(components(mask, w, h, win), rule)[i]).seed(),
                (#[trigger] accepted(components(mask, w, h, win), rule)[j]).seed(),
            ) && !joined(
                mask,
                w,
                h,
                accepted(components(mask, w, h, win), rule)[i].seed(),
                accepted(components(mask, w, h, win), rule)[j].seed(),
            ),
{
    let all = components(mask, w, h, win);
    let found = accepted(all, rule);
    assert forall|i: int| 0 <= i < found.len() implies (#[trigger] found[i]).is_component(
        mask,
        w,
        h,
    ) && win.holds(found[i].seed()) by {
        let k = lemma_accepted_source(all, rule, i);
        assert(all[k].is_component(mask, w, h));
    }
    assert forall|i: int, j: int| 0 <= i < j < found.len() implies before(
        (#[trigger] found[i]).seed(),
        (#[trigger] found[j]).seed(),
    ) && !joined(mask, w, h, found[i].seed(), found[j].seed()) by {
        let k = lemma_accepted_pair(all, rule, i, j);
        assert(before(all[k.0].seed(), all[k.1].seed()));
    }
}

/// The bounding box of a component lies in the image and is not empty.
pub proof fn lemma_component_in_image(r: Region, mask: Seq<bool>, w: int, h: int)
    requires
        r.is_component(mask, w, h),
    ensures
        0 <= r.min_x <= r.max_x < w,
        0 <= r.min_y <= r.max_y < h,
{
    reveal(Region::is_component);
    let s = r.seed();
    let west = choose|p: Pixel| #[trigger] joined(mask, w, h, s, p) && p.0 == r.min_x;
    let east = choose|p: Pixel| #[trigger] joined(mask, w, h, s, p) && p.0 == r.max_x;
    let north = choose|p: Pixel| #[trigger] joined(mask, w, h, s, p) && p.1 == r.min_y;
    let south = choose|p: Pixel| #[trigger] joined(mask, w, h, s, p) && p.1 == r.max_y;
    lemma_joined_lit(mask, w, h, s, west);
    lemma_joined_lit(mask, w, h, s, east);
    lemma_joined_lit(mask, w, h, s, north);
    lemma_joined_lit(mask, w, h, s, south);
}

// ---------------------------------------------------------------------------
// The scan over the window
// ---------------------------------------------------------------------------
/// State of a scan that has dealt with every window pixel before `cur`:
/// `all` lists the components found, and exactly their pixels are marked.
#[verifier::opaque]
spec fn scan_inv(
    visited: Seq<bool>,
    all: Seq<Region>,
    mask: Seq<bool>,
    w: int,
    h: int,
    win: Window,
    cur: Pixel,
) -> bool {
    &&& mask.len() == w * h
    &&& visited.len() == w * h
    &&& marks_closed(visited, mask, w, h)
    &&& forall|p: Pixel| #[trigger]
        marked(visited, w, h, p) ==> exists|i: int|
            0 <= i < all.len() && joined(mask, w, h, (#[trigger] all[i]).seed(), p)
    &&& forall|i: int, p: Pixel|
        0 <= i < all.len() && #[trigger] joined(mask, w, h, all[i].seed(), p) ==> marked(
            visited,
            w,
            h,
            p,
        )
    &&& forall|i: int|
        0 <= i < all.len() ==> (#[trigger] all[i]).is_component(mask, w, h) && win.holds(
            all[i].seed(),
        ) && before(all[i].seed(), cur)
    &&& forall|i: int, j: int|
        0 <= i < j < all.len() ==> before((#[trigger] all[i]).seed(), (#[trigger] all[j]).seed())
            && !joined(mask, w, h, all[i].seed(), all[j].seed())
    &&& forall|p: Pixel|
        win.holds(p) && before(p, cur) && #[trigger] lit(mask, w, h, p) ==> exists|i: int|
            0 <= i < all.len() && joined(mask, w, h, (#[trigger] all[i]).seed(), p) && !before(
                p,
                all[i].seed(),
            )
}

proof fn lemma_scan_start(visited: Seq<bool>, mask: Seq<bool>, w: int, h: int, win: Window)
    requires
        mask.len() == w * h,
        visited.len() == w * h,
        forall|i: int| 0 <= i < visited.len() ==> !visited[i],
    ensures
        scan_inv(
            visited,
            Seq::empty(),
            mask,
            w,
            h,
            win,
            (win.x_lo as int, win.y_lo as int),
        ),
{
    reveal(scan_inv);
    assert forall|p: Pixel| !marked(visited, w, h, p) by {
        if 0 <= p.0 < w && 0 <= p.1 < h {
            lemma_index_bound(p.0, p.1, w, h);
        }
    }
}

/// What a scan state says of the flags, for the fill that follows.
proof fn lemma_scan_flags(
    visited: Seq<bool>,
    all: Seq<Region>,
    mask: Seq<bool>,
    w: int,
    h: int,
    win: Window,
    cur: Pixel,
)
    requires
        scan_inv(visited, all, mask, w, h, win, cur),
    ensures
        visited.len() == w * h,
        marks_closed(visited, mask, w, h),
{
    reveal(scan_inv);
}

/// The pixel at the cursor is marked already or not admitted: nothing
/// starts there.
proof fn lemma_scan_skip(
    visited: Seq<bool>,
    all: Seq<Region>,
    mask: Seq<bool>,
    w: int,
    h: int,
    win: Window,
    cur: Pixel,
)
    requires
        scan_inv(visited, all, mask, w, h, win, cur),
        marked(visited, w, h, cur) || !lit(mask, w, h, cur),
    ensures
        scan_inv(visited, all, mask, w, h, win, (cur.0 + 1, cur.1)),
{
    reveal(scan_inv);
    let next = (cur.0 + 1, cur.1);
    assert forall|p: Pixel|
        win.holds(p) && before(p, next) && #[trigger] lit(mask, w, h, p) implies exists|i: int|
        0 <= i < all.len() && joined(mask, w, h, (#[trigger] all[i]).seed(), p) && !before(
            p,
            all[i].seed(),
        ) by {
        if p == cur {
            assert(marked(visited, w, h, cur));
            let i = choose|i: int|
                0 <= i < all.len() && joined(mask, w, h, (#[trigger] all[i]).seed(), cur);
            assert(before(all[i].seed(), cur));
        } else {
            assert(before(p, cur));
        }
    }
}

/// A fill from the cursor found the component `r`.
proof fn lemma_scan_found(
    visited: Seq<bool>,
    visited2: Seq<bool>,
    all: Seq<Region>,
    r: Region,
    mask: Seq<bool>,
    w: int,
    h: int,
    win: Window,
    cur: Pixel,
)
    requires
        scan_inv(visited, all, mask, w, h, win, cur),
        win.holds(cur),
        lit(mask, w, h, cur),
        !marked(visited, w, h, cur),
        r.seed() == cur,
        r.is_component(mask, w, h),
        visited2.len() == w * h,
        marks_closed(visited2, mask, w, h),
        forall|p: Pixel|
            #![trigger marked(visited2, w, h, p)]
            #![trigger joined(mask, w, h, cur, p)]
            marked(visited2, w, h, p) <==> marked(visited, w, h, p) || joined(mask, w, h, cur, p),
    ensures
        scan_inv(visited2, all.push(r), mask, w, h, win, (cur.0 + 1, cur.1)),
{
    reveal(scan_inv);
    let next = (cur.0 + 1, cur.1);
    let all2 = all.push(r);
    let n = all.len() as int;
    assert(all2[n] == r);
    assert forall|i: int| 0 <= i < n implies all2[i] == all[i] by {}
    assert forall|p: Pixel| #[trigger] marked(visited2, w, h, p) implies exists|i: int|
        0 <= i < all2.len() && joined(mask, w, h, (#[trigger] all2[i]).seed(), p) by {
        if marked(visited, w, h, p) {
            let i = choose|i: int|
                0 <= i < all.len() && joined(mask, w, h, (#[trigger] all[i]).seed(), p);
            assert(all2[i] == all[i]);
        } else {
            assert(joined(mask, w, h, all2[n].seed(), p));
        }
    }
    assert forall|i: int, p: Pixel|
        0 <= i < all2.len() && #[trigger] joined(mask, w, h, all2[i].seed(), p) implies marked(
        visited2,
        w,
        h,
        p,
    ) by {
        if i < n {
            assert(all2[i] == all[i]);
            assert(marked(visited, w, h, p));
        }
    }
    assert forall|i: int| 0 <= i < all2.len() implies (#[trigger] all2[i]).is_component(mask, w, h)
        && win.holds(all2[i].seed()) && before(all2[i].seed(), next) by {
        if i < n {
            assert(all2[i] == all[i]);
        }
    }
    assert forall|i: int, j: int| 0 <= i < j < all2.len() implies before(
        (#[trigger] all2[i]).seed(),
        (#[trigger] all2[j]).seed(),
    ) && !joined(mask, w, h, all2[i].seed(), all2[j].seed()) by {
        assert(all2[i] == all[i]);
        if j < n {
            assert(all2[j] == all[j]);
        } else {
            if joined(mask, w, h, all[i].seed(), cur) {
                assert(marked(visited, w, h, cur));
            }
        }
    }
    assert forall|p: Pixel|
        win.holds(p) && before(p, next) && #[trigger] lit(mask, w, h, p) implies exists|i: int|
        0 <= i < all2.len() && joined(mask, w, h, (#[trigger] all2[i]).seed(), p) && !before(
            p,
            all2[i].seed(),
        ) by {
        if p == cur {
            lemma_joined_self(mask, w, h, cur);
            assert(joined(mask, w, h, all2[n].seed(), p));
        } else {
            assert(before(p, cur));
            let i = choose|i: int|
                0 <= i < all.len() && joined(mask, w, h, (#[trigger] all[i]).seed(), p)
                    && !before(p, all[i].seed());
            assert(all2[i] == all[i]);
        }
    }
}

/// The cursor has passed the last window column of its row.
proof fn lemma_scan_next_row(
    visited: Seq<bool>,
    all: Seq<Region>,
    mask: Seq<bool>,
    w: int,
    h: int,
    win: Window,
    cur: Pixel,
)
    requires
        scan_inv(visited, all, mask, w, h, win, cur),
        cur.0 >= win.x_hi,
    ensures
        scan_inv(visited, all, mask, w, h, win, (win.x_lo as int, cur.1 + 1)),
{
    reveal(scan_inv);
    let next = (win.x_lo as int, cur.1 + 1);
    assert forall|p: Pixel|
        win.holds(p) && before(p, next) && #[trigger] lit(mask, w, h, p) implies exists|i: int|
        0 <= i < all.len() && joined(mask, w, h, (#[trigger] all[i]).seed(), p) && !before(
            p,
            all[i].seed(),
        ) by {
        assert(before(p, cur));
    }
}

/// The cursor has passed the last window row.
proof fn lemma_scan_done(
    visited: Seq<bool>,
    all: Seq<Region>,
    mask: Seq<bool>,
    w: int,
    h: int,
    win: Window,
    cur: Pixel,
)
    requires
        scan_inv(visited, all, mask, w, h, win, cur),
        cur.1 >= win.y_hi,
    ensures
        is_component_list(all, mask, w, h, win),
{
    reveal(scan_inv);
    assert forall|p: Pixel| win.holds(p) && #[trigger] lit(mask, w, h, p) implies exists|i: int|
        0 <= i < all.len() && joined(mask, w, h, (#[trigger] all[i]).seed(), p) && !before(
            p,
            all[i].seed(),
        ) by {
        assert(before(p, cur));
    }
}

fn cleared(n: usize) -> (v: Vec<bool>)
    ensures
        v@.len() == n,
        forall|i: int| 0 <= i < n ==> !v@[i],
{
    let mut v: Vec<bool> = Vec::new();
    let mut i: usize = 0;
    while i < n
        invariant
            i <= n,
            v@.len() == i,
            forall|j: int| 0 <= j < i ==> !v@[j],
        decreases n - i,
    {
        v.push(false);
        i = i + 1;
    }
    v
}

/// Finds the connected components of `mask` that meet `window`, visiting
/// the window in row-major order and filling from each admitted pixel not
/// yet marked, and returns those whose shape `rule` admits.
pub fn find_regions(
    mask: &Vec<bool>,
    width: usize,
    height: usize,
    window: Window,
    rule: ShapeRule,
) -> (out: Vec<Region>)
    requires
        mask@.len() == width * height,
        window.x_hi <= width,
        window.y_hi <= height,
        rule.wf(),
    ensures
        is_component_list(
            components(mask@, width as int, height as int, window),
            mask@,
            width as int,
            height as int,
            window,
        ),
        out@ == accepted(components(mask@, width as int, height as int, window), rule),
        forall|i: int|
            0 <= i < out@.len() ==> (#[trigger] out@[i]).min_x <= out@[i].max_x < width
                && out@[i].min_y <= out@[i].max_y < height,
        forall|i: int, j: int|
            0 <= i < j < out@.len() ==> !joined(
                mask@,
                width as int,
                height as int,
                (#[trigger] out@[i]).seed(),
                (#[trigger] out@[j]).seed(),
            ),
{
    let ghost wi = width as int;
    let ghost hi = height as int;
    let mut visited = cleared(mask.len());
    let mut out: Vec<Region> = Vec::new();
    let ghost mut all: Seq<Region> = Seq::empty();
    let mut y: usize = window.y_lo;
    proof {
        lemma_scan_start(visited@, mask@, wi, hi, window);
    }
    while y < window.y_hi
        invariant
            scan_inv(visited@, all, mask@, wi, hi, window, (window.x_lo as int, y as int)),
            out@ == accepted(all, rule),
            mask@.len() == width * height,
            window.x_hi <= width,
            window.y_hi <= height,
            window.y_lo <= y,
            rule.wf(),
            wi == width as int,
            hi == height as int,
            forall|i: int|
                0 <= i < out@.len() ==> (#[trigger] out@[i]).min_x <= out@[i].max_x < width
                    && out@[i].min_y <= out@[i].max_y < height,
        decreases window.y_hi - y,
    {
        let mut x: usize = window.x_lo;
        while x < window.x_hi
            invariant
                scan_inv(visited@, all, mask@, wi, hi, window, (x as int, y as int)),
                out@ == accepted(all, rule),
                mask@.len() == width * height,
                window.x_hi <= width,
                window.y_hi <= height,
                window.x_lo <= x,
                window.y_lo <= y < window.y_hi,
                rule.wf(),
                wi == width as int,
                hi == height as int,
                forall|i: int|
                    0 <= i < out@.len() ==> (#[trigger] out@[i]).min_x <= out@[i].max_x < width
                        && out@[i].min_y <= out@[i].max_y < height,
            decreases window.x_hi - x,
        {
            let ghost cur: Pixel = (x as int, y as int);
            let total: usize = mask.len();
            proof {
                lemma_index_bound(x as int, y as int, wi, hi);
                lemma_scan_flags(visited@, all, mask@, wi, hi, window, cur);
                assert(0 <= y * width) by (nonlinear_arith)
                    requires
                        0 <= y,
                        0 <= width,
                ;
            }
            let idx: usize = y * width + x;
            assert(idx < total);
            if !visited[idx] && mask[idx] {
                let ghost before_fill = visited@;
                let r = fill(mask, width, height, &mut visited, x, y);
                proof {
                    lemma_scan_found(before_fill, visited@, all, r, mask@, wi, hi, window, cur);
                    assert(all.push(r).drop_last() =~= all);
                    all = all.push(r);
                }
                if rule.accepts(&r) {
                    out.push(r);
                }
            } else {
                proof {
                    lemma_scan_skip(visited@, all, mask@, wi, hi, window, cur);
                }
            }
            x = x + 1;
        }
        proof {
            lemma_scan_next_row(visited@, all, mask@, wi, hi, window, (x as int, y as int));
        }
        y = y + 1;
    }
    proof {
        lemma_scan_done(visited@, all, mask@, wi, hi, window, (window.x_lo as int, y as int));
        lemma_component_list_unique(
            all,
            components(mask@, wi, hi, window),
            mask@,
            wi,
            hi,
            window,
        );
        lemma_found_regions_apart(mask@, wi, hi, window, rule);
    }
    out
}

} // verus!
