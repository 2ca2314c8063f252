use vstd::prelude::*;
use crate::feature::{Feature, Rect};

verus! {

/// Two closed rectangles share at least one point (overlap or touch).
pub open spec fn rects_overlap(a: Rect, b: Rect) -> bool {
    a.min_x <= b.max_x && b.min_x <= a.max_x && a.min_y <= b.max_y && b.min_y <= a.max_y
}

/// Some part of region `g` shares a point with rectangle `r`.
pub open spec fn rect_overlaps_region(r: Rect, g: Seq<Rect>) -> bool {
    exists|i: int| 0 <= i < g.len() && rects_overlap(r, #[trigger] g[i])
}

/// Some part of region `a` shares a point with some part of region `b`.
pub open spec fn regions_overlap(a: Seq<Rect>, b: Seq<Rect>) -> bool {
    exists|i: int, j: int|
        0 <= i < a.len() && 0 <= j < b.len() && rects_overlap(#[trigger] a[i], #[trigger] b[j])
}

pub open spec fn imin(a: i64, b: i64) -> i64 {
    if a <= b {
        a
    } else {
        b
    }
}

pub open spec fn imax(a: i64, b: i64) -> i64 {
    if a >= b {
        a
    } else {
        b
    }
}

/// The bounding envelope of a non-empty region: the smallest rectangle
/// enclosing every part.
pub open spec fn envelope_spec(g: Seq<Rect>) -> Rect
    decreases g.len(),
{
    if g.len() <= 1 {
        g[0]
    } else {
        let e = envelope_spec(g.drop_last());
        let r = g.last();
        Rect {
            min_x: imin(e.min_x, r.min_x),
            min_y: imin(e.min_y, r.min_y),
            max_x: imax(e.max_x, r.max_x),
            max_y: imax(e.max_y, r.max_y),
        }
    }
}

/// The bounding envelope of a feature's geometry: none when the feature has no
/// geometry or the geometry has no parts.
pub open spec fn envelope_opt(f: Feature) -> Option<Rect> {
    match f.geom {
        Some(g) => if g@.len() > 0 {
            Some(envelope_spec(g@))
        } else {
            None
        },
        None => None,
    }
}

/// The exact adjacency test between two features: both have a geometry and the
/// geometries share at least one point.
pub open spec fn adjacent_spec(a: Feature, b: Feature) -> bool {
    match (a.geom, b.geom) {
        (Some(x), Some(y)) => regions_overlap(x@, y@),
        _ => false,
    }
}

/// Adjacency is symmetric.
pub proof fn lemma_adjacent_symmetric(a: Feature, b: Feature)
    ensures
        adjacent_spec(a, b) == adjacent_spec(b, a),
{
    if adjacent_spec(a, b) {
        let (x, y) = (a.geom->0, b.geom->0);
        let (i, j) = choose|i: int, j: int|
            0 <= i < x@.len() && 0 <= j < y@.len() && rects_overlap(#[trigger] x@[i], #[trigger] y@[j]);
        assert(rects_overlap(y@[j], x@[i]));
    }
    if adjacent_spec(b, a) {
        let (x, y) = (b.geom->0, a.geom->0);
        let (i, j) = choose|i: int, j: int|
            0 <= i < x@.len() && 0 <= j < y@.len() && rects_overlap(#[trigger] x@[i], #[trigger] y@[j]);
        assert(rects_overlap(y@[j], x@[i]));
    }
}

/// The envelope encloses every part of the region.
pub proof fn lemma_envelope_contains(g: Seq<Rect>, i: int)
    requires
        0 <= i < g.len(),
    ensures
        envelope_spec(g).min_x <= g[i].min_x,
        envelope_spec(g).min_y <= g[i].min_y,
        envelope_spec(g).max_x >= g[i].max_x,
        envelope_spec(g).max_y >= g[i].max_y,
    decreases g.len(),
{
    if g.len() > 1 {
        if i < g.len() - 1 {
            lemma_envelope_contains(g.drop_last(), i);
        }
    }
}

/// The envelope filter loses no truly adjacent feature: whenever the two
/// geometries share a point, the second geometry also overlaps the first
/// one's bounding envelope.
pub proof fn lemma_overlap_hits_envelope(a: Seq<Rect>, b: Seq<Rect>)
    requires
        regions_overlap(a, b),
    ensures
        a.len() > 0,
        rect_overlaps_region(envelope_spec(a), b),
{
    let (i, j) = choose|i: int, j: int|
        0 <= i < a.len() && 0 <= j < b.len() && rects_overlap(#[trigger] a[i], #[trigger] b[j]);
    lemma_envelope_contains(a, i);
    assert(rects_overlap(envelope_spec(a), b[j]));
}

/// Reports whether two closed rectangles share at least one point.
pub fn rect_touches(a: &Rect, b: &Rect) -> (r: bool)
    ensures
        r == rects_overlap(*a, *b),
{
    a.min_x <= b.max_x && b.min_x <= a.max_x && a.min_y <= b.max_y && b.min_y <= a.max_y
}

/// The bounding envelope of a feature's geometry, or none when the feature has
/// no geometry or the geometry has no parts.
pub fn get_extent_as_geometry(feature: &Feature) -> (r: Option<Rect>)
    ensures
        r == envelope_opt(*feature),
{
    match &feature.geom {
        Some(g) => {
            let n = g.len();
            if n == 0 {
                return None;
            }
            let mut env = g[0];
            let mut i: usize = 1;
            while i < n
                invariant
                    n == g@.len(),
                    1 <= i <= n,
                    env == envelope_spec(g@.take(i as int)),
                decreases n - i,
            {
                let r = g[i];
                let next = Rect {
                    min_x: if env.min_x <= r.min_x {
                        env.min_x
                    } else {
                        r.min_x
                    },
                    min_y: if env.min_y <= r.min_y {
                        env.min_y
                    } else {
                        r.min_y
                    },
                    max_x: if env.max_x >= r.max_x {
                        env.max_x
                    } else {
                        r.max_x
                    },
                    max_y: if env.max_y >= r.max_y {
                        env.max_y
                    } else {
                        r.max_y
                    },
                };
                proof {
                    assert(g@.take(i + 1).drop_last() =~= g@.take(i as int));
                    assert(g@.take(i + 1).last() == g@[i as int]);
                }
                env = next;
                i = i + 1;
            }
            proof {
                assert(g@.take(n as int) =~= g@);
            }
            Some(env)
        },
        None => None,
    }
}

/// Determines whether two features are adjacent: both carry a geometry and the
/// geometries share at least one point.
pub fn is_adjacent(a: &Feature, b: &Feature) -> (r: bool)
    ensures
        r == adjacent_spec(*a, *b),
{
    match (&a.geom, &b.geom) {
        (Some(x), Some(y)) => {
            let nx = x.len();
            let ny = y.len();
            let mut i: usize = 0;
            while i < nx
                invariant
                    a.geom == Some(*x),
                    b.geom == Some(*y),
                    nx == x@.len(),
                    ny == y@.len(),
                    0 <= i <= nx,
                    forall|k: int, l: int|
                        0 <= k < i && 0 <= l < ny ==> !rects_overlap(
                            #[trigger] x@[k],
                            #[trigger] y@[l],
                        ),
                decreases nx - i,
            {
                let mut j: usize = 0;
                while j < ny
                    invariant
                        a.geom == Some(*x),
                        b.geom == Some(*y),
                        nx == x@.len(),
                        ny == y@.len(),
                        0 <= i < nx,
                        0 <= j <= ny,
                        forall|k: int, l: int|
                            0 <= k < i && 0 <= l < ny ==> !rects_overlap(
                                #[trigger] x@[k],
                                #[trigger] y@[l],
                            ),
                        forall|l: int| 0 <= l < j ==> !rects_overlap(x@[i as int], #[trigger] y@[l]),
                    decreases ny - j,
                {
                    if rect_touches(&x[i], &y[j]) {
                        proof {
                            assert(rects_overlap(x@[i as int], y@[j as int]));
                            assert(regions_overlap(x@, y@));
                        }
                        return true;
                    }
                    j = j + 1;
                }
                i = i + 1;
            }
            false
        },
        _ => false,
    }
}

} // verus!
