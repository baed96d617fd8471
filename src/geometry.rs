use vstd::prelude::*;

verus! {

/// An axis-aligned rectangle with its top-left corner at (`x`, `y`).
/// A rectangle of zero height is the "no placement found" marker.
#[derive(Debug, Clone, Copy, PartialEq, Eq, Structural)]
pub struct Rect {
    pub x: i32,
    pub y: i32,
    pub width: i32,
    pub height: i32,
}

impl Default for Rect {
    /// The all-zero rectangle, returned when nothing fits.
    fn default() -> (r: Rect)
        ensures
            r == empty_rect(),
    {
        Rect { x: 0, y: 0, width: 0, height: 0 }
    }
}

pub open spec fn empty_rect() -> Rect {
    Rect { x: 0, y: 0, width: 0, height: 0 }
}

pub open spec fn right(r: Rect) -> int {
    r.x + r.width
}

pub open spec fn bottom(r: Rect) -> int {
    r.y + r.height
}

/// `a` lies wholly inside `b`.
pub open spec fn contained_in(a: Rect, b: Rect) -> bool {
    a.x >= b.x && a.y >= b.y && right(a) <= right(b) && bottom(a) <= bottom(b)
}

/// The interiors of `a` and `b` meet (touching edges do not count).
pub open spec fn overlaps(a: Rect, b: Rect) -> bool {
    a.x < right(b) && b.x < right(a) && a.y < bottom(b) && b.y < bottom(a)
}

/// The unit cell at (`px`, `py`) lies in `r`.
pub open spec fn point_in(r: Rect, px: int, py: int) -> bool {
    r.x <= px < right(r) && r.y <= py < bottom(r)
}

/// `r` has positive extent and lies within a `w` x `h` bin anchored at the origin.
pub open spec fn inside_bin(r: Rect, w: int, h: int) -> bool {
    0 <= r.x && 0 <= r.y && 0 < r.width && 0 < r.height && right(r) <= w && bottom(r) <= h
}

/// Non-negative coordinates and extents whose far edges fit in an `i32`.
pub open spec fn bounded(r: Rect) -> bool {
    0 <= r.x && 0 <= r.y && 0 <= r.width && 0 <= r.height && right(r) <= i32::MAX && bottom(r)
        <= i32::MAX
}

/// Some rectangle of `s` holds the cell (`px`, `py`).
pub open spec fn covered(s: Seq<Rect>, px: int, py: int) -> bool {
    exists|k: int| 0 <= k < s.len() && #[trigger] point_in(s[k], px, py)
}

/// The strip of `f` above `p`, where there is one.
pub open spec fn piece_above(f: Rect, p: Rect) -> Seq<Rect> {
    if p.y > f.y && p.y < bottom(f) {
        seq![Rect { x: f.x, y: f.y, width: f.width, height: (p.y - f.y) as i32 }]
    } else {
        Seq::<Rect>::empty()
    }
}

/// The strip of `f` below `p`, where there is one.
pub open spec fn piece_below(f: Rect, p: Rect) -> Seq<Rect> {
    if bottom(p) < bottom(f) {
        seq![Rect { x: f.x, y: bottom(p) as i32, width: f.width, height: (bottom(f) - bottom(p)) as i32 }]
    } else {
        Seq::<Rect>::empty()
    }
}

/// The strip of `f` left of `p`, where there is one.
pub open spec fn piece_left(f: Rect, p: Rect) -> Seq<Rect> {
    if p.x > f.x && p.x < right(f) {
        seq![Rect { x: f.x, y: f.y, width: (p.x - f.x) as i32, height: f.height }]
    } else {
        Seq::<Rect>::empty()
    }
}

/// The strip of `f` right of `p`, where there is one.
pub open spec fn piece_right(f: Rect, p: Rect) -> Seq<Rect> {
    if right(p) < right(f) {
        seq![Rect { x: right(p) as i32, y: f.y, width: (right(f) - right(p)) as i32, height: f.height }]
    } else {
        Seq::<Rect>::empty()
    }
}

/// The parts of `f` outside `p`: the strips above, below, left of and right of `p`,
/// each present only where it has positive extent. The strips may overlap each other.
pub open spec fn split_pieces(f: Rect, p: Rect) -> Seq<Rect> {
    piece_above(f, p) + piece_below(f, p) + piece_left(f, p) + piece_right(f, p)
}

/// The rectangles of `s` that `p` does not overlap, in order.
pub open spec fn survivors(s: Seq<Rect>, p: Rect) -> Seq<Rect>
    decreases s.len(),
{
    if s.len() == 0 {
        Seq::<Rect>::empty()
    } else {
        let rest = survivors(s.drop_last(), p);
        if overlaps(s.last(), p) {
            rest
        } else {
            rest.push(s.last())
        }
    }
}

/// The pieces left of each rectangle of `s` that `p` overlaps, in order.
pub open spec fn fragments(s: Seq<Rect>, p: Rect) -> Seq<Rect>
    decreases s.len(),
{
    if s.len() == 0 {
        Seq::<Rect>::empty()
    } else {
        let rest = fragments(s.drop_last(), p);
        if overlaps(s.last(), p) {
            rest + split_pieces(s.last(), p)
        } else {
            rest
        }
    }
}

/// `s[j]` makes `s[i]` redundant: it contains it, and where the two are equal
/// the later one is the one kept.
pub open spec fn dominates(s: Seq<Rect>, i: int, j: int) -> bool {
    j != i && contained_in(s[i], s[j]) && (!contained_in(s[j], s[i]) || j > i)
}

pub open spec fn dominated(s: Seq<Rect>, i: int) -> bool {
    exists|j: int| 0 <= j < s.len() && #[trigger] dominates(s, i, j)
}

/// The rectangles among the first `k` of `s` that no rectangle of `s` makes redundant.
pub open spec fn pruned_prefix(s: Seq<Rect>, k: int) -> Seq<Rect>
    decreases k,
{
    if k <= 0 {
        Seq::<Rect>::empty()
    } else {
        let rest = pruned_prefix(s, k - 1);
        if dominated(s, k - 1) {
            rest
        } else {
            rest.push(s[k - 1])
        }
    }
}

/// `s` without its redundant rectangles, order kept.
pub open spec fn pruned(s: Seq<Rect>) -> Seq<Rect> {
    pruned_prefix(s, s.len() as int)
}

/// No rectangle of `s` lies inside another one of `s`.
pub open spec fn not_nested(s: Seq<Rect>) -> bool {
    forall|i: int, j: int|
        0 <= i < s.len() && 0 <= j < s.len() && i != j ==> !#[trigger] contained_in(s[i], s[j])
}

/// `r` is a rectangle of `s` that `p` does not overlap.
pub open spec fn survivor_of(s: Seq<Rect>, p: Rect, r: Rect) -> bool {
    exists|k: int| 0 <= k < s.len() && s[k] == r && !overlaps(s[k], p)
}

/// `r` is a piece of a rectangle of `s` that `p` overlaps.
pub open spec fn fragment_of(s: Seq<Rect>, p: Rect, r: Rect) -> bool {
    exists|k: int, u: int|
        0 <= k < s.len() && overlaps(s[k], p) && 0 <= u < split_pieces(s[k], p).len()
            && split_pieces(s[k], p)[u] == r
}

/// `r` is one of the first `k` rectangles of `s`, and is not redundant.
pub open spec fn kept_of(s: Seq<Rect>, k: int, r: Rect) -> bool {
    exists|m: int| 0 <= m < k && !dominated(s, m) && s[m] == r
}

pub open spec fn span(r: Rect) -> int {
    r.width + r.height
}

// ---------------------------------------------------------------- lemmas

pub(crate) proof fn lemma_split_pieces(f: Rect, p: Rect, w: int, h: int)
    requires
        w <= i32::MAX,
        h <= i32::MAX,
        inside_bin(f, w, h),
        inside_bin(p, w, h),
        overlaps(f, p),
    ensures
        forall|t: int|
            0 <= t < split_pieces(f, p).len() ==> {
                let r = #[trigger] split_pieces(f, p)[t];
                inside_bin(r, w, h) && contained_in(r, f) && !overlaps(r, p)
            },
        forall|px: int, py: int|
            point_in(f, px, py) && !point_in(p, px, py) ==> covered(split_pieces(f, p), px, py),
{
    let pa = piece_above(f, p);
    let pb = piece_below(f, p);
    let pl = piece_left(f, p);
    let pr = piece_right(f, p);
    let ab = pa + pb;
    let abl = ab + pl;
    let s = split_pieces(f, p);
    assert(s == abl + pr);
    assert forall|t: int| 0 <= t < s.len() implies {
        let r = #[trigger] s[t];
        inside_bin(r, w, h) && contained_in(r, f) && !overlaps(r, p)
    } by {
        if t < pa.len() {
            assert(s[t] == pa[t]);
        } else if t < ab.len() {
            assert(s[t] == pb[t - pa.len()]);
        } else if t < abl.len() {
            assert(s[t] == pl[t - ab.len()]);
        } else {
            assert(s[t] == pr[t - abl.len()]);
        }
    }
    assert forall|px: int, py: int| point_in(f, px, py) && !point_in(p, px, py) implies covered(
        s,
        px,
        py,
    ) by {
        if py < p.y {
            assert(s[0] == pa[0]);
            assert(point_in(s[0], px, py));
        } else if py >= bottom(p) {
            let i = pa.len() as int;
            assert(s[i] == pb[0]);
            assert(point_in(s[i], px, py));
        } else if px < p.x {
            let i = ab.len() as int;
            assert(s[i] == pl[0]);
            assert(point_in(s[i], px, py));
        } else {
            let i = abl.len() as int;
            assert(s[i] == pr[0]);
            assert(point_in(s[i], px, py));
        }
    }
}

pub(crate) proof fn lemma_survivors(s: Seq<Rect>, p: Rect)
    ensures
        forall|t: int|
            0 <= t < survivors(s, p).len() ==> survivor_of(s, p, #[trigger] survivors(s, p)[t]),
        forall|k: int|
            0 <= k < s.len() && !overlaps(s[k], p) ==> survivors(s, p).contains(#[trigger] s[k]),
    decreases s.len(),
{
    if s.len() > 0 {
        let d = s.drop_last();
        lemma_survivors(d, p);
        let r = survivors(s, p);
        let rd = survivors(d, p);
        assert forall|t: int| 0 <= t < r.len() implies survivor_of(s, p, #[trigger] r[t]) by {
            if t < rd.len() {
                assert(survivor_of(d, p, rd[t]));
                let k = choose|k: int| 0 <= k < d.len() && d[k] == rd[t] && !overlaps(d[k], p);
                assert(s[k] == r[t]);
            } else {
                assert(s[s.len() - 1] == r[t]);
            }
        }
        assert forall|k: int| 0 <= k < s.len() && !overlaps(s[k], p) implies r.contains(
            #[trigger] s[k],
        ) by {
            if k < s.len() - 1 {
                assert(d[k] == s[k]);
                assert(rd.contains(d[k]));
                let t = choose|t: int| 0 <= t < rd.len() && rd[t] == d[k];
                assert(r[t] == s[k]);
            } else {
                assert(r[r.len() - 1] == s[k]);
            }
        }
    }
}

pub(crate) proof fn lemma_fragments(s: Seq<Rect>, p: Rect)
    ensures
        forall|t: int|
            0 <= t < fragments(s, p).len() ==> fragment_of(s, p, #[trigger] fragments(s, p)[t]),
        forall|k: int, u: int|
            0 <= k < s.len() && overlaps(s[k], p) && 0 <= u < split_pieces(s[k], p).len()
                ==> fragments(s, p).contains(#[trigger] split_pieces(s[k], p)[u]),
    decreases s.len(),
{
    if s.len() > 0 {
        let d = s.drop_last();
        lemma_fragments(d, p);
        let r = fragments(s, p);
        let rd = fragments(d, p);
        let last = s.last();
        assert forall|t: int| 0 <= t < r.len() implies fragment_of(s, p, #[trigger] r[t]) by {
            if t < rd.len() {
                assert(fragment_of(d, p, rd[t]));
                let (k, u) = choose|k: int, u: int|
                    0 <= k < d.len() && overlaps(d[k], p) && 0 <= u < split_pieces(d[k], p).len()
                        && split_pieces(d[k], p)[u] == rd[t];
                assert(s[k] == d[k]);
                assert(r[t] == rd[t]);
            } else {
                let u = t - rd.len();
                assert(r[t] == split_pieces(last, p)[u]);
                assert(s[s.len() - 1] == last);
            }
        }
        assert forall|k: int, u: int|
            0 <= k < s.len() && overlaps(s[k], p) && 0 <= u < split_pieces(
                s[k],
                p,
            ).len() implies r.contains(#[trigger] split_pieces(s[k], p)[u]) by {
            if k < s.len() - 1 {
                assert(d[k] == s[k]);
                assert(rd.contains(split_pieces(d[k], p)[u]));
                let t = choose|t: int| 0 <= t < rd.len() && rd[t] == split_pieces(d[k], p)[u];
                assert(r[t] == rd[t]);
            } else {
                assert(s[k] == last);
                assert(r[rd.len() + u] == split_pieces(last, p)[u]);
            }
        }
    }
}

pub(crate) proof fn lemma_pruned_prefix(s: Seq<Rect>, k: int)
    requires
        0 <= k <= s.len(),
    ensures
        forall|t: int|
            0 <= t < pruned_prefix(s, k).len() ==> kept_of(s, k, #[trigger] pruned_prefix(s, k)[t]),
        forall|m: int| 0 <= m < k && !dominated(s, m) ==> pruned_prefix(s, k).contains(#[trigger] s[m]),
        not_nested(pruned_prefix(s, k)),
    decreases k,
{
    if k > 0 {
        lemma_pruned_prefix(s, k - 1);
        let r = pruned_prefix(s, k);
        let rd = pruned_prefix(s, k - 1);
        assert forall|t: int| 0 <= t < r.len() implies kept_of(s, k, #[trigger] r[t]) by {
            if t < rd.len() {
                assert(kept_of(s, k - 1, rd[t]));
                let m = choose|m: int| 0 <= m < k - 1 && !dominated(s, m) && s[m] == rd[t];
                assert(s[m] == r[t]);
            } else {
                assert(s[k - 1] == r[t]);
            }
        }
        assert forall|m: int| 0 <= m < k && !dominated(s, m) implies r.contains(#[trigger] s[m]) by {
            if m < k - 1 {
                assert(rd.contains(s[m]));
                let t = choose|t: int| 0 <= t < rd.len() && rd[t] == s[m];
                assert(r[t] == s[m]);
            } else {
                assert(r[r.len() - 1] == s[m]);
            }
        }
        if !dominated(s, k - 1) {
            assert forall|i: int, j: int|
                0 <= i < r.len() && 0 <= j < r.len() && i != j implies !#[trigger] contained_in(
                r[i],
                r[j],
            ) by {
                let n = k - 1;
                if i < rd.len() && j < rd.len() {
                    assert(r[i] == rd[i] && r[j] == rd[j]);
                } else if i < rd.len() {
                    assert(kept_of(s, k - 1, rd[i]));
                    let m = choose|m: int| 0 <= m < k - 1 && !dominated(s, m) && s[m] == rd[i];
                    assert(r[i] == s[m] && r[j] == s[n]);
                    if contained_in(s[m], s[n]) {
                        assert(dominates(s, m, n));
                    }
                } else {
                    assert(kept_of(s, k - 1, rd[j]));
                    let m = choose|m: int| 0 <= m < k - 1 && !dominated(s, m) && s[m] == rd[j];
                    assert(r[j] == s[m] && r[i] == s[n]);
                    if contained_in(s[n], s[m]) {
                        if contained_in(s[m], s[n]) {
                            assert(dominates(s, m, n));
                        } else {
                            assert(dominates(s, n, m));
                        }
                    }
                }
            }
        }
    }
}

/// Each rectangle of `s` lies inside one that pruning keeps.
proof fn lemma_kept_container(s: Seq<Rect>, k: int)
    requires
        0 <= k < s.len(),
        forall|i: int| 0 <= i < s.len() ==> bounded(#[trigger] s[i]),
    ensures
        exists|m: int| 0 <= m < s.len() && !dominated(s, m) && contained_in(s[k], #[trigger] s[m]),
    decreases 0x1_0000_0000 - span(s[k]), s.len() - k,
{
    assert(bounded(s[k]));
    if !dominated(s, k) {
        assert(contained_in(s[k], s[k]));
    } else {
        let j = choose|j: int| 0 <= j < s.len() && #[trigger] dominates(s, k, j);
        assert(bounded(s[j]));
        lemma_kept_container(s, j);
        let m = choose|m: int| 0 <= m < s.len() && !dominated(s, m) && contained_in(s[j], #[trigger] s[m]);
        assert(contained_in(s[k], s[m]));
    }
}

/// Pruning keeps every cell that `s` covers.
pub(crate) proof fn lemma_pruned_covers(s: Seq<Rect>, px: int, py: int)
    requires
        covered(s, px, py),
        forall|i: int| 0 <= i < s.len() ==> bounded(#[trigger] s[i]),
    ensures
        covered(pruned(s), px, py),
{
    let k = choose|k: int| 0 <= k < s.len() && #[trigger] point_in(s[k], px, py);
    lemma_kept_container(s, k);
    let m = choose|m: int| 0 <= m < s.len() && !dominated(s, m) && contained_in(s[k], #[trigger] s[m]);
    lemma_pruned_prefix(s, s.len() as int);
    assert(pruned(s).contains(s[m]));
    let t = choose|t: int| 0 <= t < pruned(s).len() && pruned(s)[t] == s[m];
    assert(point_in(pruned(s)[t], px, py));
}

// ---------------------------------------------------------------- executable geometry

pub(crate) fn is_contained_in(a: &Rect, b: &Rect) -> (r: bool)
    ensures
        r == contained_in(*a, *b),
{
    a.x >= b.x && a.y >= b.y && (a.x as i64) + (a.width as i64) <= (b.x as i64) + (b.width as i64)
        && (a.y as i64) + (a.height as i64) <= (b.y as i64) + (b.height as i64)
}

/// Appends to `out` the pieces of `free_node` outside `used_node`, if the two overlap.
pub(crate) fn split_free_node(free_node: &Rect, used_node: &Rect, out: &mut Vec<Rect>) -> (hit: bool)
    requires
        bounded(*free_node),
        bounded(*used_node),
    ensures
        hit == overlaps(*free_node, *used_node),
        final(out)@ == old(out)@ + (if hit {
            split_pieces(*free_node, *used_node)
        } else {
            Seq::<Rect>::empty()
        }),
{
    let f = *free_node;
    let u = *used_node;
    let f_right = f.x + f.width;
    let f_bottom = f.y + f.height;
    let u_right = u.x + u.width;
    let u_bottom = u.y + u.height;
    if u.x >= f_right || u_right <= f.x || u.y >= f_bottom || u_bottom <= f.y {
        assert(!overlaps(f, u));
        assert(old(out)@ + Seq::<Rect>::empty() =~= old(out)@);
        return false;
    }
    let ghost start = out@;
    if u.y > f.y && u.y < f_bottom {
        out.push(Rect { x: f.x, y: f.y, width: f.width, height: u.y - f.y });
    }
    if u_bottom < f_bottom {
        out.push(Rect { x: f.x, y: u_bottom, width: f.width, height: f_bottom - u_bottom });
    }
    if u.x > f.x && u.x < f_right {
        out.push(Rect { x: f.x, y: f.y, width: u.x - f.x, height: f.height });
    }
    if u_right < f_right {
        out.push(Rect { x: u_right, y: f.y, width: f_right - u_right, height: f.height });
    }
    assert(out@ =~= start + split_pieces(f, u));
    true
}

/// `rects` without the rectangles that another one makes redundant.
pub(crate) fn prune_free_list(rects: &Vec<Rect>) -> (r: Vec<Rect>)
    ensures
        r@ == pruned(rects@),
{
    let n = rects.len();
    let mut out: Vec<Rect> = Vec::new();
    let mut i: usize = 0;
    while i < n
        invariant
            n == rects.len(),
            i <= n,
            out@ == pruned_prefix(rects@, i as int),
        decreases n - i,
    {
        let a = rects[i];
        let mut redundant = false;
        let mut j: usize = 0;
        while j < n
            invariant
                n == rects.len(),
                i < n,
                j <= n,
                a == rects@[i as int],
                redundant == exists|m: int| 0 <= m < j && #[trigger] dominates(rects@, i as int, m),
            decreases n - j,
        {
            let b = rects[j];
            if j != i && is_contained_in(&a, &b) && (!is_contained_in(&b, &a) || j > i) {
                assert(dominates(rects@, i as int, j as int));
                redundant = true;
            }
            j += 1;
        }
        if !redundant {
            out.push(a);
        }
        i += 1;
    }
    out
}

} // verus!
