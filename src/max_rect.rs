use vstd::prelude::*;

pub use crate::geometry::Rect;
use crate::geometry::{
    bottom, bounded, contained_in, covered, empty_rect, fragment_of, fragments, inside_bin,
    kept_of, lemma_fragments, lemma_pruned_covers, lemma_pruned_prefix, lemma_split_pieces,
    lemma_survivors, overlaps, point_in, prune_free_list, pruned, right, split_free_node,
    split_pieces, survivor_of, survivors, dominated, not_nested,
};

verus! {

/// The rule that ranks the places where a piece may go.
#[derive(Debug, Clone, Copy, PartialEq, Eq, Structural)]
pub enum FreeRectChoiceHeuristic {
    BestShortSideFit,
    BestLongSideFit,
    BestAreaFit,
    BottomLeftRule,
    ContactPointRule,
}

pub open spec fn lesser(a: int, b: int) -> int {
    if a <= b {
        a
    } else {
        b
    }
}

pub open spec fn greater(a: int, b: int) -> int {
    if a >= b {
        a
    } else {
        b
    }
}

/// Strictly smaller in lexicographic order.
pub open spec fn lex_lt(a: (int, int), b: (int, int)) -> bool {
    a.0 < b.0 || (a.0 == b.0 && a.1 < b.1)
}

/// The piece `w` x `h` put at the corner of `f`, turned a quarter if `rotated`.
pub open spec fn placed(f: Rect, rotated: bool, w: i32, h: i32) -> Rect {
    if rotated {
        Rect { x: f.x, y: f.y, width: h, height: w }
    } else {
        Rect { x: f.x, y: f.y, width: w, height: h }
    }
}

/// Candidate (`j`, `s`) is tried before candidate (`i`, `r`): free rectangles in order,
/// and for each the upright placement before the turned one.
pub open spec fn comes_before(j: int, s: bool, i: int, r: bool) -> bool {
    j < i || (j == i && !s && r)
}

/// Length of the common part of the intervals [`a0`, `a1`] and [`b0`, `b1`], or 0 where
/// they are apart.
pub open spec fn interval_overlap(a0: int, a1: int, b0: int, b1: int) -> int {
    if a1 < b0 || b1 < a0 {
        0
    } else {
        lesser(a1, b1) - greater(a0, b0)
    }
}

/// Length of the edges that `q` shares with the placed rectangle `u`.
pub open spec fn contact_with(u: Rect, q: Rect) -> int {
    (if u.x == right(q) || right(u) == q.x {
        interval_overlap(u.y as int, bottom(u), q.y as int, bottom(q))
    } else {
        0
    }) + (if u.y == bottom(q) || bottom(u) == q.y {
        interval_overlap(u.x as int, right(u), q.x as int, right(q))
    } else {
        0
    })
}

pub open spec fn contact_sum(used: Seq<Rect>, q: Rect) -> int
    decreases used.len(),
{
    if used.len() == 0 {
        0
    } else {
        contact_sum(used.drop_last(), q) + contact_with(used.last(), q)
    }
}

/// The state of a packer: the bin's extent, whether pieces may be turned, the free
/// rectangles and the placed ones in the order they were placed.
pub struct PackerView {
    pub width: int,
    pub height: int,
    pub allow_rotations: bool,
    pub free: Seq<Rect>,
    pub used: Seq<Rect>,
}

impl PackerView {
    /// A packer over an empty `width` x `height` bin.
    pub open spec fn fresh(width: int, height: int, allow_rotations: bool) -> PackerView {
        PackerView {
            width,
            height,
            allow_rotations,
            free: seq![Rect { x: 0, y: 0, width: width as i32, height: height as i32 }],
            used: Seq::<Rect>::empty(),
        }
    }

    /// No two placed rectangles overlap.
    pub open spec fn used_disjoint(self) -> bool {
        forall|i: int, j: int|
            0 <= i < self.used.len() && 0 <= j < self.used.len() && i != j ==> !overlaps(
                #[trigger] self.used[i],
                #[trigger] self.used[j],
            )
    }

    /// No free rectangle lies inside another.
    pub open spec fn free_not_nested(self) -> bool {
        not_nested(self.free)
    }

    /// No free rectangle overlaps a placed one.
    pub open spec fn free_clear_of_used(self) -> bool {
        forall|i: int, j: int|
            0 <= i < self.free.len() && 0 <= j < self.used.len() ==> !overlaps(
                #[trigger] self.free[i],
                #[trigger] self.used[j],
            )
    }

    /// Every cell of the bin is free or placed.
    pub open spec fn bin_covered(self) -> bool {
        forall|px: int, py: int|
            0 <= px < self.width && 0 <= py < self.height ==> #[trigger] covered(self.free, px, py)
                || covered(self.used, px, py)
    }

    /// The packer's invariant: an extent that fits in `i32`, every rectangle inside the
    /// bin, no free rectangle nested in another or overlapping a placed one, placed
    /// rectangles apart, and the whole bin free or placed.
    pub open spec fn wf(self) -> bool {
        &&& 0 < self.width <= i32::MAX
        &&& 0 < self.height <= i32::MAX
        &&& forall|k: int|
            0 <= k < self.free.len() ==> inside_bin(#[trigger] self.free[k], self.width, self.height)
        &&& forall|k: int|
            0 <= k < self.used.len() ==> inside_bin(#[trigger] self.used[k], self.width, self.height)
        &&& self.free_not_nested()
        &&& self.used_disjoint()
        &&& self.free_clear_of_used()
        &&& self.bin_covered()
    }

    /// Contact score of the placement `q`: its height where it touches the bin's left or
    /// right side, its width where it touches the top or bottom, and the length of every
    /// edge it shares with a placed rectangle.
    pub open spec fn contact_score(self, q: Rect) -> int {
        (if q.x == 0 || right(q) == self.width {
            q.height as int
        } else {
            0
        }) + (if q.y == 0 || bottom(q) == self.height {
            q.width as int
        } else {
            0
        }) + contact_sum(self.used, q)
    }

    /// Rank of the placement `q` in the free rectangle `f` under `m`; lower is better.
    /// The leftovers are not negative, since `q` fits in `f`.
    pub open spec fn score(self, m: FreeRectChoiceHeuristic, f: Rect, q: Rect) -> (int, int) {
        let lh = f.width - q.width;
        let lv = f.height - q.height;
        match m {
            FreeRectChoiceHeuristic::BestShortSideFit => (lesser(lh, lv), greater(lh, lv)),
            FreeRectChoiceHeuristic::BestLongSideFit => (greater(lh, lv), lesser(lh, lv)),
            FreeRectChoiceHeuristic::BestAreaFit => (
                f.width * f.height - q.width * q.height,
                lesser(lh, lv),
            ),
            FreeRectChoiceHeuristic::BottomLeftRule => (bottom(q), f.x as int),
            FreeRectChoiceHeuristic::ContactPointRule => (-self.contact_score(q), 0),
        }
    }

    /// The piece `w` x `h`, turned if `rotated`, fits in free rectangle `i`.
    pub open spec fn fits(self, i: int, rotated: bool, w: i32, h: i32) -> bool {
        &&& 0 <= i < self.free.len()
        &&& rotated ==> self.allow_rotations
        &&& self.free[i].width >= placed(self.free[i], rotated, w, h).width
        &&& self.free[i].height >= placed(self.free[i], rotated, w, h).height
    }

    pub open spec fn key(self, m: FreeRectChoiceHeuristic, i: int, rotated: bool, w: i32, h: i32) -> (int, int) {
        self.score(m, self.free[i], placed(self.free[i], rotated, w, h))
    }

    /// Candidate (`i`, `rotated`) fits, no candidate ranks better, and every candidate
    /// tried before it ranks worse.
    pub open spec fn is_choice(self, m: FreeRectChoiceHeuristic, w: i32, h: i32, i: int, rotated: bool) -> bool {
        &&& self.fits(i, rotated, w, h)
        &&& forall|j: int, s: bool|
            #[trigger] self.fits(j, s, w, h) ==> !lex_lt(self.key(m, j, s, w, h), self.key(m, i, rotated, w, h))
        &&& forall|j: int, s: bool|
            #[trigger] self.fits(j, s, w, h) && comes_before(j, s, i, rotated) ==> lex_lt(
                self.key(m, i, rotated, w, h),
                self.key(m, j, s, w, h),
            )
    }

    pub open spec fn has_candidate(self, w: i32, h: i32) -> bool {
        exists|i: int, rotated: bool| self.fits(i, rotated, w, h)
    }

    /// Where the piece `w` x `h` goes under `m`, or the empty rectangle where it fits nowhere.
    pub open spec fn placement(self, m: FreeRectChoiceHeuristic, w: i32, h: i32) -> Rect {
        if exists|i: int, rotated: bool| self.is_choice(m, w, h, i, rotated) {
            let (i, rotated) = choose|i: int, rotated: bool| self.is_choice(m, w, h, i, rotated);
            placed(self.free[i], rotated, w, h)
        } else {
            empty_rect()
        }
    }

    /// The state after placing `p`: free rectangles that `p` overlaps give way to their
    /// pieces outside `p`, redundant ones are dropped, and `p` is recorded.
    pub open spec fn after_place(self, p: Rect) -> PackerView {
        PackerView {
            free: pruned(survivors(self.free, p) + fragments(self.free, p)),
            used: self.used.push(p),
            ..self
        }
    }

    pub open spec fn after_insert(self, m: FreeRectChoiceHeuristic, w: i32, h: i32) -> PackerView {
        let p = self.placement(m, w, h);
        if p.height == 0 {
            self
        } else {
            self.after_place(p)
        }
    }

    /// Best among the candidates tried before (`ci`, `cr`): (`bi`, `br`) where one was
    /// found, none fitting otherwise.
    pub open spec fn best_so_far(
        self,
        m: FreeRectChoiceHeuristic,
        w: i32,
        h: i32,
        ci: int,
        cr: bool,
        found: bool,
        bi: int,
        br: bool,
    ) -> bool {
        if found {
            &&& self.fits(bi, br, w, h)
            &&& comes_before(bi, br, ci, cr)
            &&& forall|j: int, s: bool|
                #[trigger] self.fits(j, s, w, h) && comes_before(j, s, ci, cr) ==> !lex_lt(
                    self.key(m, j, s, w, h),
                    self.key(m, bi, br, w, h),
                )
            &&& forall|j: int, s: bool|
                #[trigger] self.fits(j, s, w, h) && comes_before(j, s, bi, br) ==> lex_lt(
                    self.key(m, bi, br, w, h),
                    self.key(m, j, s, w, h),
                )
        } else {
            forall|j: int, s: bool| comes_before(j, s, ci, cr) ==> !#[trigger] self.fits(j, s, w, h)
        }
    }
}

/// The state and the placements after the requests `reqs` (width, height, heuristic),
/// made in order from state `v`.
pub open spec fn pack_all(v: PackerView, reqs: Seq<(i32, i32, FreeRectChoiceHeuristic)>) -> (
    PackerView,
    Seq<Rect>,
)
    decreases reqs.len(),
{
    if reqs.len() == 0 {
        (v, Seq::<Rect>::empty())
    } else {
        let (before, placements) = pack_all(v, reqs.drop_last());
        let (w, h, m) = reqs.last();
        (before.after_insert(m, w, h), placements.push(before.placement(m, w, h)))
    }
}

/// Two packers made with the same extent and turning flag, given the same requests in
/// the same order, place every piece at the same spot and end in the same state.
pub proof fn lemma_deterministic(
    width: int,
    height: int,
    allow_rotations: bool,
    reqs: Seq<(i32, i32, FreeRectChoiceHeuristic)>,
    a: PackerView,
    b: PackerView,
)
    requires
        a == PackerView::fresh(width, height, allow_rotations),
        b == PackerView::fresh(width, height, allow_rotations),
    ensures
        pack_all(a, reqs) == pack_all(b, reqs),
    decreases reqs.len(),
{
    if reqs.len() > 0 {
        lemma_deterministic(width, height, allow_rotations, reqs.drop_last(), a, b);
    }
}

/// Of two free rectangles of the same width and height, the best area fit never
/// chooses the later one: it ranks the same as the earlier one, and ties go to the
/// candidate tried first.
pub proof fn lemma_area_fit_tie_goes_first(v: PackerView, w: i32, h: i32, i: int, j: int, rotated: bool)
    requires
        0 <= i < j < v.free.len(),
        v.free[i].width == v.free[j].width,
        v.free[i].height == v.free[j].height,
    ensures
        !v.is_choice(FreeRectChoiceHeuristic::BestAreaFit, w, h, j, rotated),
{
    let m = FreeRectChoiceHeuristic::BestAreaFit;
    if v.is_choice(m, w, h, j, rotated) {
        assert(v.fits(i, rotated, w, h));
        assert(comes_before(i, rotated, j, rotated));
        assert(v.key(m, i, rotated, w, h) == v.key(m, j, rotated, w, h));
    }
}

// ---------------------------------------------------------------- lemmas

/// A candidate that fits, ranks no worse than any other and strictly better than every
/// one tried before it is where the piece goes.
pub proof fn lemma_choice_unique(
    v: PackerView,
    m: FreeRectChoiceHeuristic,
    w: i32,
    h: i32,
    i: int,
    r: bool,
)
    requires
        v.is_choice(m, w, h, i, r),
    ensures
        v.placement(m, w, h) == placed(v.free[i], r, w, h),
{
    let (j, s) = choose|j: int, s: bool| v.is_choice(m, w, h, j, s);
    if comes_before(j, s, i, r) {
        assert(v.fits(j, s, w, h));
    } else if comes_before(i, r, j, s) {
        assert(v.fits(i, r, w, h));
    }
}

proof fn lemma_mul_bound(a: int, b: int)
    requires
        0 <= a <= 0x8000_0000,
        0 <= b <= 0x8000_0000,
    ensures
        0 <= a * b <= 0x4000_0000_0000_0000,
{
    assert(0 <= a * b <= 0x4000_0000_0000_0000) by (nonlinear_arith)
        requires
            0 <= a <= 0x8000_0000,
            0 <= b <= 0x8000_0000,
    ;
}

proof fn lemma_place_keeps_wf(v: PackerView, p: Rect, i: int)
    requires
        v.wf(),
        0 <= i < v.free.len(),
        contained_in(p, v.free[i]),
        p.width > 0,
        p.height > 0,
    ensures
        v.after_place(p).wf(),
{
    let n = v.after_place(p);
    let t = survivors(v.free, p) + fragments(v.free, p);
    let sv = survivors(v.free, p);
    let fr = fragments(v.free, p);
    assert(inside_bin(v.free[i], v.width, v.height));
    lemma_survivors(v.free, p);
    lemma_fragments(v.free, p);
    assert forall|k: int| 0 <= k < t.len() implies {
        &&& inside_bin(#[trigger] t[k], v.width, v.height)
        &&& !overlaps(t[k], p)
        &&& forall|j: int| 0 <= j < v.used.len() ==> !overlaps(t[k], #[trigger] v.used[j])
    } by {
        if k < sv.len() {
            assert(t[k] == sv[k]);
            assert(survivor_of(v.free, p, sv[k]));
            let a = choose|a: int| 0 <= a < v.free.len() && v.free[a] == sv[k] && !overlaps(v.free[a], p);
            assert(inside_bin(v.free[a], v.width, v.height));
            assert forall|j: int| 0 <= j < v.used.len() implies !overlaps(t[k], #[trigger] v.used[j]) by {
                assert(!overlaps(v.free[a], v.used[j]));
            }
        } else {
            let k2 = k - sv.len();
            assert(t[k] == fr[k2]);
            assert(fragment_of(v.free, p, fr[k2]));
            let (a, u) = choose|a: int, u: int|
                0 <= a < v.free.len() && overlaps(v.free[a], p) && 0 <= u < split_pieces(v.free[a], p).len()
                    && split_pieces(v.free[a], p)[u] == fr[k2];
            assert(inside_bin(v.free[a], v.width, v.height));
            lemma_split_pieces(v.free[a], p, v.width, v.height);
            assert(split_pieces(v.free[a], p)[u] == t[k]);
            assert forall|j: int| 0 <= j < v.used.len() implies !overlaps(t[k], #[trigger] v.used[j]) by {
                assert(!overlaps(v.free[a], v.used[j]));
            }
        }
    }
    lemma_pruned_prefix(t, t.len() as int);
    assert forall|k: int| 0 <= k < n.free.len() implies {
        &&& inside_bin(#[trigger] n.free[k], v.width, v.height)
        &&& forall|j: int| 0 <= j < n.used.len() ==> !overlaps(n.free[k], #[trigger] n.used[j])
    } by {
        assert(kept_of(t, t.len() as int, n.free[k]));
        let a = choose|a: int| 0 <= a < t.len() && !dominated(t, a) && t[a] == n.free[k];
        assert(inside_bin(t[a], v.width, v.height));
        assert forall|j: int| 0 <= j < n.used.len() implies !overlaps(n.free[k], #[trigger] n.used[j]) by {
            if j < v.used.len() {
                assert(n.used[j] == v.used[j]);
            } else {
                assert(n.used[j] == p);
            }
        }
    }
    assert forall|k: int| 0 <= k < n.used.len() implies inside_bin(#[trigger] n.used[k], v.width, v.height) by {
        if k < v.used.len() {
            assert(n.used[k] == v.used[k]);
        }
    }
    assert forall|a: int, b: int|
        0 <= a < n.used.len() && 0 <= b < n.used.len() && a != b implies !overlaps(
        #[trigger] n.used[a],
        #[trigger] n.used[b],
    ) by {
        let last = v.used.len() as int;
        if a < last && b < last {
            assert(n.used[a] == v.used[a] && n.used[b] == v.used[b]);
        } else if a < last {
            assert(n.used[a] == v.used[a] && n.used[b] == p);
            assert(!overlaps(v.free[i], v.used[a]));
        } else {
            assert(n.used[b] == v.used[b] && n.used[a] == p);
            assert(!overlaps(v.free[i], v.used[b]));
        }
    }
    assert forall|k: int| 0 <= k < t.len() implies bounded(#[trigger] t[k]) by {
        assert(inside_bin(t[k], v.width, v.height));
    }
    assert forall|px: int, py: int|
        0 <= px < n.width && 0 <= py < n.height implies #[trigger] covered(n.free, px, py) || covered(
        n.used,
        px,
        py,
    ) by {
        assert(covered(v.free, px, py) || covered(v.used, px, py));
        if covered(v.used, px, py) {
            let k = choose|k: int| 0 <= k < v.used.len() && #[trigger] point_in(v.used[k], px, py);
            assert(n.used[k] == v.used[k]);
            assert(point_in(n.used[k], px, py));
        } else if point_in(p, px, py) {
            assert(n.used[v.used.len() as int] == p);
        } else {
            let k = choose|k: int| 0 <= k < v.free.len() && #[trigger] point_in(v.free[k], px, py);
            let f = v.free[k];
            if overlaps(f, p) {
                assert(inside_bin(f, v.width, v.height));
                lemma_split_pieces(f, p, v.width, v.height);
                let ps = split_pieces(f, p);
                assert(covered(ps, px, py));
                let u = choose|u: int| 0 <= u < ps.len() && #[trigger] point_in(ps[u], px, py);
                assert(fr.contains(split_pieces(v.free[k], p)[u]));
                let q = choose|q: int| 0 <= q < fr.len() && fr[q] == ps[u];
                assert(t[sv.len() + q] == fr[q]);
                assert(point_in(t[sv.len() + q], px, py));
            } else {
                assert(sv.contains(v.free[k]));
                let q = choose|q: int| 0 <= q < sv.len() && sv[q] == f;
                assert(t[q] == sv[q]);
                assert(point_in(t[q], px, py));
            }
            lemma_pruned_covers(t, px, py);
        }
    }
}

// ---------------------------------------------------------------- the packer

/// Packs rectangles one at a time into a fixed bin, keeping the maximal free
/// rectangles of the bin and the list of placed ones.
#[derive(Debug)]
pub struct MaxRectsBinPack {
    width: u32,
    height: u32,
    allow_rotations: bool,
    used_rect: Vec<Rect>,
    free_rect: Vec<Rect>,
}

impl View for MaxRectsBinPack {
    type V = PackerView;

    closed spec fn view(&self) -> PackerView {
        PackerView {
            width: self.width as int,
            height: self.height as int,
            allow_rotations: self.allow_rotations,
            free: self.free_rect@,
            used: self.used_rect@,
        }
    }
}

fn lex_less(a: (i128, i128), b: (i128, i128)) -> (r: bool)
    ensures
        r == lex_lt((a.0 as int, a.1 as int), (b.0 as int, b.1 as int)),
{
    a.0 < b.0 || (a.0 == b.0 && a.1 < b.1)
}

fn common_interval_length(i1start: i64, i1end: i64, i2start: i64, i2end: i64) -> (r: i64)
    requires
        -0x1_0000_0000 <= i1start <= 0x1_0000_0000,
        -0x1_0000_0000 <= i1end <= 0x1_0000_0000,
        -0x1_0000_0000 <= i2start <= 0x1_0000_0000,
        -0x1_0000_0000 <= i2end <= 0x1_0000_0000,
    ensures
        r == interval_overlap(i1start as int, i1end as int, i2start as int, i2end as int),
        -0x2_0000_0000 <= r <= 0x2_0000_0000,
{
    if i1end < i2start || i2end < i1start {
        return 0;
    }
    let lo = if i1start >= i2start {
        i1start
    } else {
        i2start
    };
    let hi = if i1end <= i2end {
        i1end
    } else {
        i2end
    };
    hi - lo
}

/// Length of the edges that `q` shares with the placed rectangle `u`.
fn contact_with_rect(u: &Rect, q: &Rect) -> (r: i64)
    ensures
        r == contact_with(*u, *q),
        -0x4_0000_0000 <= r <= 0x4_0000_0000,
{
    let u_right = u.x as i64 + u.width as i64;
    let u_bottom = u.y as i64 + u.height as i64;
    let q_right = q.x as i64 + q.width as i64;
    let q_bottom = q.y as i64 + q.height as i64;
    let mut r: i64 = 0;
    if u.x as i64 == q_right || u_right == q.x as i64 {
        r = r + common_interval_length(u.y as i64, u_bottom, q.y as i64, q_bottom);
    }
    if u.y as i64 == q_bottom || u_bottom == q.y as i64 {
        r = r + common_interval_length(u.x as i64, u_right, q.x as i64, q_right);
    }
    r
}

fn short_side_score(f: &Rect, q: &Rect) -> (k: (i128, i128))
    ensures
        k.0 as int == lesser(f.width - q.width, f.height - q.height),
        k.1 as int == greater(f.width - q.width, f.height - q.height),
{
    let lh = f.width as i128 - q.width as i128;
    let lv = f.height as i128 - q.height as i128;
    if lh <= lv {
        (lh, lv)
    } else {
        (lv, lh)
    }
}

impl MaxRectsBinPack {
    pub open spec fn wf(&self) -> bool {
        self@.wf()
    }

    /// A packer over an empty `width` x `height` bin.
    pub fn new(width: u32, height: u32, rotations: bool) -> (r: Self)
        requires
            0 < width <= i32::MAX,
            0 < height <= i32::MAX,
        ensures
            r@ == PackerView::fresh(width as int, height as int, rotations),
            r.wf(),
    {
        let mut max_rect = MaxRectsBinPack {
            width: 0,
            height: 0,
            allow_rotations: true,
            used_rect: Vec::new(),
            free_rect: Vec::new(),
        };
        max_rect.init(width, height, rotations);
        max_rect
    }

    pub fn width(&self) -> (r: u32)
        ensures
            r as int == self@.width,
    {
        self.width
    }

    pub fn height(&self) -> (r: u32)
        ensures
            r as int == self@.height,
    {
        self.height
    }

    pub fn free_rect(&self) -> (r: &Vec<Rect>)
        ensures
            r@ == self@.free,
    {
        &self.free_rect
    }

    pub fn used_rect(&self) -> (r: &Vec<Rect>)
        ensures
            r@ == self@.used,
    {
        &self.used_rect
    }

    /// Empties the packer and gives it a `width` x `height` bin.
    pub fn init(&mut self, width: u32, height: u32, rotations: bool)
        requires
            0 < width <= i32::MAX,
            0 < height <= i32::MAX,
        ensures
            final(self)@ == PackerView::fresh(width as int, height as int, rotations),
            final(self).wf(),
    {
        self.width = width;
        self.height = height;
        self.allow_rotations = rotations;
        self.free_rect.clear();
        self.used_rect.clear();
        self.free_rect.push(Rect { x: 0, y: 0, width: width as i32, height: height as i32 });
        proof {
            let v = self@;
            assert(v.free =~= seq![Rect { x: 0, y: 0, width: width as i32, height: height as i32 }]);
            assert(v.used =~= Seq::<Rect>::empty());
            assert forall|px: int, py: int|
                0 <= px < v.width && 0 <= py < v.height implies #[trigger] covered(v.free, px, py)
                    || covered(v.used, px, py) by {
                assert(point_in(v.free[0], px, py));
            }
        }
    }

    fn contact_point_score_node(&self, q: &Rect) -> (score: i128)
        requires
            self.wf(),
        ensures
            score as int == self@.contact_score(*q),
            -0x10_0000_0000_0000_0000_0000_0000 <= score <= 0x10_0000_0000_0000_0000_0000_0000,
    {
        let mut score: i128 = 0;
        let q_right = q.x as i64 + q.width as i64;
        let q_bottom = q.y as i64 + q.height as i64;
        if q.x == 0 || q_right == self.width as i64 {
            score = score + q.height as i128;
        }
        if q.y == 0 || q_bottom == self.height as i64 {
            score = score + q.width as i128;
        }
        let ghost edge = score as int;
        let n = self.used_rect.len();
        let mut i: usize = 0;
        while i < n
            invariant
                n == self.used_rect.len(),
                i <= n,
                -0x1_0000_0000 <= edge <= 0x1_0000_0000,
                score == edge + contact_sum(self.used_rect@.take(i as int), *q),
                -(i as int) * 0x4_0000_0000 <= score - edge <= (i as int) * 0x4_0000_0000,
            decreases n - i,
        {
            let u = self.used_rect[i];
            let c = contact_with_rect(&u, q);
            proof {
                let s = self.used_rect@.take(i as int + 1);
                assert(s.drop_last() =~= self.used_rect@.take(i as int));
                assert(s.last() == u);
            }
            score = score + c as i128;
            i += 1;
        }
        proof {
            assert(self.used_rect@.take(n as int) =~= self.used_rect@);
            assert(n as int <= 0xffff_ffff_ffff_ffff);
        }
        score
    }

    /// Rank of the placement `q` in the free rectangle `f` under `method`.
    fn candidate_score(&self, method: FreeRectChoiceHeuristic, f: &Rect, q: &Rect) -> (k: (i128, i128))
        requires
            self.wf(),
            bounded(*f),
            bounded(*q),
            q.x == f.x,
            q.y == f.y,
        ensures
            k.0 as int == self@.score(method, *f, *q).0,
            k.1 as int == self@.score(method, *f, *q).1,
    {
        match method {
            FreeRectChoiceHeuristic::BestShortSideFit => short_side_score(f, q),
            FreeRectChoiceHeuristic::BestLongSideFit => {
                let k = short_side_score(f, q);
                (k.1, k.0)
            },
            FreeRectChoiceHeuristic::BestAreaFit => {
                proof {
                    lemma_mul_bound(f.width as int, f.height as int);
                    lemma_mul_bound(q.width as int, q.height as int);
                }
                let area_fit = (f.width as i128) * (f.height as i128) - (q.width as i128) * (
                q.height as i128);
                let k = short_side_score(f, q);
                (area_fit, k.0)
            },
            FreeRectChoiceHeuristic::BottomLeftRule => (
                f.y as i128 + q.height as i128,
                f.x as i128,
            ),
            FreeRectChoiceHeuristic::ContactPointRule => {
                let c = self.contact_point_score_node(q);
                (0 - c, 0)
            },
        }
    }

    /// The best placement of a `width` x `height` piece under `method`, the first one
    /// tried among equals; the empty rectangle where it fits nowhere.
    #[verifier::rlimit(40)]
    fn find_position(&self, width: i32, height: i32, method: FreeRectChoiceHeuristic) -> (r: Rect)
        requires
            self.wf(),
            width > 0,
            height > 0,
        ensures
            r == self@.placement(method, width, height),
            r.height == 0 <==> !self@.has_candidate(width, height),
            r.height != 0 ==> exists|i: int, rotated: bool| #[trigger]
                self@.is_choice(method, width, height, i, rotated) && r == placed(
                    self@.free[i],
                    rotated,
                    width,
                    height,
                ),
    {
        let ghost v = self@;
        let n = self.free_rect.len();
        let mut found = false;
        let mut best = Rect::default();
        let mut best_key: (i128, i128) = (0, 0);
        let ghost mut bi: int = 0;
        let ghost mut br: bool = false;
        let mut i: usize = 0;
        while i < n
            invariant
                v == self@,
                self.wf(),
                width > 0,
                height > 0,
                n == v.free.len(),
                i <= n,
                v.best_so_far(method, width, height, i as int, false, found, bi, br),
                found ==> best == placed(v.free[bi], br, width, height),
                found ==> best_key.0 as int == v.key(method, bi, br, width, height).0,
            found ==> best_key.1 as int == v.key(method, bi, br, width, height).1,
                !found ==> best == empty_rect(),
            decreases n - i,
        {
            let f = self.free_rect[i];
            assert(inside_bin(f, v.width, v.height));
            if f.width >= width && f.height >= height {
                let q = Rect { x: f.x, y: f.y, width: width, height: height };
                let k = self.candidate_score(method, &f, &q);
                if !found || lex_less(k, best_key) {
                    found = true;
                    best = q;
                    best_key = k;
                    proof {
                        bi = i as int;
                        br = false;
                    }
                }
            }
            assert(v.best_so_far(method, width, height, i as int, true, found, bi, br));
            if self.allow_rotations && f.width >= height && f.height >= width {
                let q = Rect { x: f.x, y: f.y, width: height, height: width };
                let k = self.candidate_score(method, &f, &q);
                if !found || lex_less(k, best_key) {
                    found = true;
                    best = q;
                    best_key = k;
                    proof {
                        bi = i as int;
                        br = true;
                    }
                }
            }
            assert(v.best_so_far(method, width, height, i as int + 1, false, found, bi, br));
            i += 1;
        }
        if found {
            assert(v.is_choice(method, width, height, bi, br));
            proof {
                lemma_choice_unique(v, method, width, height, bi, br);
            }
        } else {
            assert(!v.has_candidate(width, height));
        }
        best
    }

    /// Places a `width` x `height` piece where `method` ranks best, turning it a quarter
    /// where that ranks better and turning is allowed, and returns where it went; returns
    /// the empty rectangle, changing nothing, where the piece fits nowhere.
    pub fn insert(&mut self, width: i32, height: i32, method: FreeRectChoiceHeuristic) -> (r: Rect)
        requires
            old(self).wf(),
            width > 0,
            height > 0,
        ensures
            r == old(self)@.placement(method, width, height),
            r.height == 0 <==> !old(self)@.has_candidate(width, height),
            final(self)@ == old(self)@.after_insert(method, width, height),
            final(self).wf(),
            final(self)@.used_disjoint(),
            final(self)@.free_not_nested(),
            final(self)@.bin_covered(),
    {
        let node = self.find_position(width, height, method);
        if node.height == 0 {
            return node;
        }
        let ghost v = self@;
        let ghost (ci, cr) = choose|i: int, rotated: bool| #[trigger]
            v.is_choice(method, width, height, i, rotated) && node == placed(v.free[i], rotated, width, height);
        assert(inside_bin(v.free[ci], v.width, v.height));
        let n = self.free_rect.len();
        let mut kept: Vec<Rect> = Vec::new();
        let mut pieces: Vec<Rect> = Vec::new();
        let mut i: usize = 0;
        while i < n
            invariant
                v == self@,
                v.wf(),
                n == v.free.len(),
                i <= n,
                bounded(node),
                kept@ == survivors(v.free.take(i as int), node),
                pieces@ == fragments(v.free.take(i as int), node),
            decreases n - i,
        {
            let f = self.free_rect[i];
            assert(inside_bin(f, v.width, v.height));
            proof {
                let s = v.free.take(i as int + 1);
                assert(s.drop_last() =~= v.free.take(i as int));
                assert(s.last() == f);
            }
            if !split_free_node(&f, &node, &mut pieces) {
                kept.push(f);
            }
            i += 1;
        }
        proof {
            assert(v.free.take(n as int) =~= v.free);
        }
        kept.append(&mut pieces);
        self.free_rect = prune_free_list(&kept);
        self.used_rect.push(node);
        proof {
            lemma_place_keeps_wf(v, node, ci);
            assert(self@ == v.after_place(node));
        }
        node
    }
}

} // verus!
