//! Recognizing shapes in freehand strokes.
//!
//! Distances and angles are measured by the caller. Here it is decided which points of a stroke are
//! its corners, and which shape the corners make.

use vstd::prelude::*;

verus! {

pub const MAX_POLYGON_CORNERS: usize = 8;

pub const MAX_POLYLINE_CORNERS: usize = 5;

// ---------------------------------------------------------------------------------------------
// Comparing distances

/// Whether the key at `i` is the last of the largest ones.
pub open spec fn is_last_max(keys: Seq<i64>, i: int) -> bool {
    &&& 0 <= i < keys.len()
    &&& forall|j: int| 0 <= j < i ==> #[trigger] keys[j] <= keys[i]
    &&& forall|j: int| i < j < keys.len() ==> #[trigger] keys[j] < keys[i]
}

/// The last of the largest keys.
pub fn last_max(keys: &Vec<i64>) -> (r: Option<usize>)
    ensures
        match r {
            Some(i) => is_last_max(keys@, i as int),
            None => keys@.len() == 0,
        },
{
    if keys.len() == 0 {
        return None;
    }
    let mut best: usize = 0;
    let mut k: usize = 1;
    while k < keys.len()
        invariant
            1 <= k <= keys@.len(),
            is_last_max(keys@.take(k as int), best as int),
        decreases keys@.len() - k,
    {
        let ghost seen = keys@.take(k as int);
        let ghost more = keys@.take(k + 1);
        assert forall|j: int| 0 <= j < k implies #[trigger] more[j] == seen[j] by {}
        if keys[k] >= keys[best] {
            best = k;
        }
        k += 1;
    }
    assert(keys@.take(k as int) =~= keys@);
    Some(best)
}

/// Whether the key at `i` is the first of the smallest ones.
pub open spec fn is_first_min(keys: Seq<Option<i64>>, i: int) -> bool {
    &&& 0 <= i < keys.len()
    &&& keys[i] is Some
    &&& forall|j: int| 0 <= j < i ==> (#[trigger] keys[j] matches Some(key) ==> keys[i]->0 < key)
    &&& forall|j: int|
        i < j < keys.len() ==> (#[trigger] keys[j] matches Some(key) ==> keys[i]->0 <= key)
}

/// The first of the smallest keys, where some are left out.
pub fn first_min(keys: &Vec<Option<i64>>) -> (r: Option<usize>)
    ensures
        match r {
            Some(i) => is_first_min(keys@, i as int),
            None => forall|j: int| 0 <= j < keys@.len() ==> (#[trigger] keys@[j]) is None,
        },
{
    let mut best: Option<usize> = None;
    let mut k: usize = 0;
    while k < keys.len()
        invariant
            k <= keys@.len(),
            match best {
                Some(i) => is_first_min(keys@.take(k as int), i as int),
                None => forall|j: int| 0 <= j < k ==> (#[trigger] keys@[j]) is None,
            },
        decreases keys@.len() - k,
    {
        let ghost seen = keys@.take(k as int);
        let ghost more = keys@.take(k + 1);
        assert forall|j: int| 0 <= j < k implies #[trigger] more[j] == seen[j] && more[j]
            == keys@[j] by {}
        if let Some(key) = keys[k] {
            match best {
                Some(i) => {
                    assert(seen[i as int] is Some);
                    if let Some(smallest) = keys[i] {
                        if key < smallest {
                            best = Some(k);
                        }
                    }
                },
                None => {
                    best = Some(k);
                },
            }
        }
        k += 1;
    }
    assert(keys@.take(k as int) =~= keys@);
    best
}

// ---------------------------------------------------------------------------------------------
// Points that repeat

/// Whether `r` is the stroke without points that repeat the one in front, as `same` tells.
pub open spec fn without_repeats<P, E: Fn(P, P) -> bool>(same: E, points: Seq<P>, r: Seq<P>) -> bool
    decreases points.len(),
{
    if points.len() == 0 {
        r.len() == 0
    } else if points.len() == 1 {
        r == points
    } else {
        exists|front: Seq<P>, answer: bool|
            front.len() > 0 && without_repeats(same, points.drop_last(), front)
                && #[trigger] call_ensures(same, (points.last(), front.last()), answer) && r == (
            if answer {
                front
            } else {
                front.push(points.last())
            })
    }
}

/// The stroke without points that repeat the one in front, as `same` tells of two points.
pub fn drop_repeats<P: Copy, E: Fn(P, P) -> bool>(points: &Vec<P>, same: &E) -> (r: Vec<P>)
    requires
        forall|a: P, b: P| #[trigger] call_requires(*same, (a, b)),
    ensures
        without_repeats(*same, points@, r@),
        points@.len() > 0 ==> r@.len() > 0 && r@[0] == points@[0],
{
    let mut kept: Vec<P> = Vec::new();
    if points.len() == 0 {
        return kept;
    }
    kept.push(points[0]);
    let mut k: usize = 1;
    assert(points@.take(1) =~= kept@);
    while k < points.len()
        invariant
            1 <= k <= points@.len(),
            forall|a: P, b: P| #[trigger] call_requires(*same, (a, b)),
            without_repeats(*same, points@.take(k as int), kept@),
            kept@.len() > 0,
            kept@[0] == points@[0],
        decreases points@.len() - k,
    {
        let ghost front = kept@;
        let ghost more = points@.take(k + 1);
        let n: usize = kept.len();
        let repeats: bool = same(points[k], kept[n - 1]);
        assert(more.drop_last() =~= points@.take(k as int));
        assert(more.last() == points@[k as int]);
        assert(without_repeats(*same, more.drop_last(), front));
        assert(call_ensures(*same, (more.last(), front.last()), repeats));
        if !repeats {
            kept.push(points[k]);
        }
        assert(without_repeats(*same, more, kept@));
        k += 1;
    }
    assert(points@.take(k as int) =~= points@);
    kept
}

// ---------------------------------------------------------------------------------------------
// Corners that barely turn

/// Whether `answer` is what `flat` says of the corner at `i`, between its neighbours.
pub open spec fn flat_at<P, F: Fn(P, P, P) -> bool>(
    flat: F,
    corners: Seq<P>,
    i: int,
    answer: bool,
) -> bool {
    let n = corners.len();
    let prev = if i == 0 {
        corners[n - 1]
    } else {
        corners[i - 1]
    };
    let next = if i == n - 1 {
        corners[0]
    } else {
        corners[i + 1]
    };
    call_ensures(flat, (prev, corners[i], next), answer)
}

/// Where the corners are looked at: everywhere on closed strokes, else between the ends.
pub open spec fn first_corner(closed: bool) -> int {
    if closed {
        0
    } else {
        1
    }
}

pub open spec fn corners_end(n: int, closed: bool) -> int {
    if closed {
        n
    } else {
        n - 1
    }
}

/// Whether `r` is what is left of the corners after leaving out the first one that `flat` says
/// barely turns, again and again.
pub open spec fn without_flat_corners<P, F: Fn(P, P, P) -> bool>(
    flat: F,
    corners: Seq<P>,
    closed: bool,
    r: Seq<P>,
) -> bool
    decreases corners.len(),
{
    let n = corners.len() as int;
    if n < 3 {
        r == corners
    } else {
        ||| r == corners && forall|i: int|
            first_corner(closed) <= i < corners_end(n, closed) ==> #[trigger] flat_at(
                flat,
                corners,
                i,
                false,
            )
        ||| exists|i: int|
            first_corner(closed) <= i < corners_end(n, closed) && #[trigger] flat_at(
                flat,
                corners,
                i,
                true,
            ) && (forall|j: int|
                first_corner(closed) <= j < i ==> #[trigger] flat_at(flat, corners, j, false))
                && without_flat_corners(flat, corners.remove(i), closed, r)
    }
}

/// Leave out corners which barely turn, and with `closed` also look at the first and the last point
/// as corners. `flat` tells whether a corner barely turns, from the corners in front, itself and
/// behind.
pub fn remove_flat_corners<P: Copy, F: Fn(P, P, P) -> bool>(
    corners: Vec<P>,
    closed: bool,
    flat: &F,
) -> (r: Vec<P>)
    requires
        forall|a: P, b: P, c: P| #[trigger] call_requires(*flat, (a, b, c)),
    ensures
        without_flat_corners(*flat, corners@, closed, r@),
{
    let ghost all = corners@;
    let mut left: Vec<P> = corners;
    loop
        invariant
            forall|a: P, b: P, c: P| #[trigger] call_requires(*flat, (a, b, c)),
            all == corners@,
            forall|r: Seq<P>| #[trigger]
                without_flat_corners(*flat, left@, closed, r) ==> without_flat_corners(
                    *flat,
                    all,
                    closed,
                    r,
                ),
        decreases left@.len(),
    {
        let n: usize = left.len();
        if n < 3 {
            assert(without_flat_corners(*flat, left@, closed, left@));
            return left;
        }
        let end: usize = if closed {
            n
        } else {
            n - 1
        };
        let mut i: usize = if closed {
            0
        } else {
            1
        };
        let mut found: bool = false;
        while i < end && !found
            invariant
                forall|a: P, b: P, c: P| #[trigger] call_requires(*flat, (a, b, c)),
                n == left@.len(),
                n >= 3,
                end == corners_end(n as int, closed),
                first_corner(closed) <= i <= end,
                found ==> i < end && flat_at(*flat, left@, i as int, true),
                forall|j: int|
                    first_corner(closed) <= j < i ==> #[trigger] flat_at(*flat, left@, j, false),
            decreases
                end - i + if found {
                    0int
                } else {
                    1
                },
        {
            let prev: P = if i == 0 {
                left[n - 1]
            } else {
                left[i - 1]
            };
            let next: P = if i == n - 1 {
                left[0]
            } else {
                left[i + 1]
            };
            let is_flat: bool = flat(prev, left[i], next);
            assert(flat_at(*flat, left@, i as int, is_flat));
            if is_flat {
                found = true;
            } else {
                i += 1;
            }
        }
        if !found {
            assert(without_flat_corners(*flat, left@, closed, left@));
            return left;
        }
        let ghost before = left@;
        let _ = left.remove(i);
        assert(left@ =~= before.remove(i as int));
        assert forall|r: Seq<P>| #[trigger]
            without_flat_corners(*flat, left@, closed, r) implies without_flat_corners(
            *flat,
            all,
            closed,
            r,
        ) by {
            assert(flat_at(*flat, before, i as int, true));
            assert(without_flat_corners(*flat, before, closed, r));
        }
    }
}

// ---------------------------------------------------------------------------------------------
// Simplifying strokes

/// Answers that lie between the points they are asked for.
pub open spec fn splits_between<P, S: Fn(&Vec<P>, usize, usize) -> Option<usize>>(split: S) -> bool {
    &&& forall|points: &Vec<P>, lo: usize, hi: usize|
        lo + 1 < hi < points@.len() ==> #[trigger] call_requires(split, (points, lo, hi))
    &&& forall|points: &Vec<P>, lo: usize, hi: usize, i: usize| #[trigger]
        call_ensures(split, (points, lo, hi), Some(i)) ==> lo < i < hi
}

/// Whether `r` are the places of the points that are left from `lo` to `hi`. A part of the stroke is
/// split at the point that `split` tells, until there is none that is too far off.
pub open spec fn simplifies_to<P, S: Fn(&Vec<P>, usize, usize) -> Option<usize>>(
    split: S,
    points: Vec<P>,
    lo: usize,
    hi: usize,
    r: Seq<usize>,
) -> bool
    decreases hi - lo,
{
    if hi <= lo {
        r == seq![lo]
    } else if hi - lo == 1 {
        r == seq![lo, hi]
    } else {
        ||| call_ensures(split, (&points, lo, hi), None) && r == seq![lo, hi]
        ||| exists|i: usize, a: Seq<usize>, b: Seq<usize>|
            lo < i < hi && #[trigger] call_ensures(split, (&points, lo, hi), Some(i))
                && simplifies_to(split, points, lo, i, a) && simplifies_to(split, points, i, hi, b)
                && r == #[trigger] joined(a, b)
    }
}

/// Two parts of a stroke, where the second starts with the last point of the first.
pub open spec fn joined(a: Seq<usize>, b: Seq<usize>) -> Seq<usize> {
    a.drop_last() + b
}

/// Places that go from `lo` to `hi` in order.
pub open spec fn leads_through(lo: usize, hi: usize, r: Seq<usize>) -> bool {
    &&& r.len() > 0
    &&& r[0] == lo
    &&& r.last() == hi
    &&& forall|j: int, k: int| 0 <= j < k < r.len() ==> #[trigger] r[j] < #[trigger] r[k]
}

/// Parts of a stroke in order give a whole in order.
proof fn lemma_joined(lo: usize, i: usize, hi: usize, a: Seq<usize>, b: Seq<usize>)
    requires
        leads_through(lo, i, a),
        leads_through(i, hi, b),
    ensures
        leads_through(lo, hi, joined(a, b)),
{
    let r = joined(a, b);
    let m = a.len() - 1;
    assert forall|j: int, k: int| 0 <= j < k < r.len() implies #[trigger] r[j] < #[trigger] r[k] by {
        if k < m {
            assert(r[j] == a[j] && r[k] == a[k]);
        } else if j < m {
            assert(r[j] == a[j] && a[j] < a[m]);
            assert(r[k] == b[k - m]);
            assert(b[0] <= b[k - m]);
        } else {
            assert(r[j] == b[j - m] && r[k] == b[k - m]);
        }
    }
    assert(r.last() == b[b.len() - 1]);
    if m > 0 {
        assert(r[0] == a[0]);
    } else {
        assert(r[0] == b[0]);
    }
}

/// Simplify the part of a stroke between two points.
fn simplify_between<P: Copy, S: Fn(&Vec<P>, usize, usize) -> Option<usize>>(
    points: &Vec<P>,
    split: &S,
    lo: usize,
    hi: usize,
) -> (r: Vec<usize>)
    requires
        lo <= hi < points@.len(),
        splits_between(*split),
    ensures
        simplifies_to(*split, *points, lo, hi, r@),
        leads_through(lo, hi, r@),
    decreases hi - lo,
{
    let mut kept: Vec<usize> = Vec::new();
    if hi == lo {
        kept.push(lo);
        assert(kept@ =~= seq![lo]);
        return kept;
    }
    if hi - lo == 1 {
        kept.push(lo);
        kept.push(hi);
        assert(kept@ =~= seq![lo, hi]);
        return kept;
    }
    match split(points, lo, hi) {
        None => {
            kept.push(lo);
            kept.push(hi);
            assert(kept@ =~= seq![lo, hi]);
            kept
        },
        Some(i) => {
            let mut left = simplify_between(points, split, lo, i);
            let right = simplify_between(points, split, i, hi);
            let ghost a = left@;
            let _ = left.pop();
            let mut k: usize = 0;
            assert(left@ =~= a.drop_last() + right@.take(0));
            while k < right.len()
                invariant
                    k <= right@.len(),
                    left@ == a.drop_last() + right@.take(k as int),
                decreases right@.len() - k,
            {
                left.push(right[k]);
                assert(left@ =~= a.drop_last() + right@.take(k + 1));
                k += 1;
            }
            proof {
                assert(right@.take(k as int) =~= right@);
                assert(left@ == joined(a, right@));
                lemma_joined(lo, i, hi, a, right@);
            }
            left
        },
    }
}

/// The points at the given places.
pub open spec fn points_at<P>(points: Seq<P>, places: Seq<usize>) -> Seq<P> {
    places.map_values(|i: usize| points[i as int])
}

/// Whether `r` is the stroke simplified with the answers of `split`.
pub open spec fn simplified<P, S: Fn(&Vec<P>, usize, usize) -> Option<usize>>(
    split: S,
    points: Vec<P>,
    r: Seq<P>,
) -> bool {
    let n = points@.len();
    if n == 0 {
        r.len() == 0
    } else {
        exists|places: Seq<usize>| #[trigger]
            simplifies_to(split, points, 0, (n - 1) as usize, places) && leads_through(
                0,
                (n - 1) as usize,
                places,
            ) && r == points_at(points@, places)
    }
}

/// Simplify a stroke with the Ramer-Douglas-Peucker algorithm. `split` tells the point between two
/// points that is farthest from the straight line between them, if it is too far off.
pub fn rdp<P: Copy, S: Fn(&Vec<P>, usize, usize) -> Option<usize>>(points: &Vec<P>, split: &S) -> (r:
    Vec<P>)
    requires
        splits_between(*split),
    ensures
        simplified(*split, *points, r@),
        points@.len() > 0 ==> r@.len() > 0 && r@[0] == points@[0] && r@.last() == points@.last(),
{
    let mut r: Vec<P> = Vec::new();
    let n: usize = points.len();
    if n == 0 {
        return r;
    }
    let places = simplify_between(points, split, 0, n - 1);
    let mut k: usize = 0;
    assert(r@ =~= points_at(points@, places@.take(0)));
    while k < places.len()
        invariant
            k <= places@.len(),
            n == points@.len(),
            n > 0,
            leads_through(0, (n - 1) as usize, places@),
            r@ == points_at(points@, places@.take(k as int)),
        decreases places@.len() - k,
    {
        assert(places@[k as int] <= places@[places@.len() - 1]);
        r.push(points[places[k]]);
        assert(r@ =~= points_at(points@, places@.take(k + 1)));
        k += 1;
    }
    assert(places@.take(k as int) =~= places@);
    r
}

/// The closed stroke from the point at `first` around to that point again.
pub open spec fn looped<P>(points: Seq<P>, first: int) -> Seq<P> {
    points.subrange(first, points.len() as int) + points.subrange(0, first + 1)
}

/// The closed stroke from the point at `first` around to that point again.
pub fn loop_points<P: Copy>(points: &Vec<P>, first: usize) -> (r: Vec<P>)
    requires
        first < points@.len(),
    ensures
        r@ == looped(points@, first as int),
{
    let mut r: Vec<P> = Vec::new();
    let n: usize = points.len();
    let mut k: usize = first;
    assert(r@ =~= points@.subrange(first as int, first as int));
    while k < points.len()
        invariant
            first <= k <= points@.len(),
            r@ == points@.subrange(first as int, k as int),
        decreases points@.len() - k,
    {
        r.push(points[k]);
        assert(r@ =~= points@.subrange(first as int, k + 1));
        k += 1;
    }
    let ghost tail = r@;
    let mut j: usize = 0;
    assert(r@ =~= tail + points@.subrange(0, 0));
    while j <= first
        invariant
            n == points@.len(),
            first < n,
            j <= first + 1,
            r@ == tail + points@.subrange(0, j as int),
        decreases first + 1 - j,
    {
        r.push(points[j]);
        assert(r@ =~= tail + points@.subrange(0, j + 1));
        j += 1;
    }
    r
}

/// Whether `r` are the corners of a closed stroke, simplified from the point at `first` around to
/// that point again, which is counted once.
pub open spec fn closed_simplified<P, S: Fn(&Vec<P>, usize, usize) -> Option<usize>>(
    split: S,
    points: Seq<P>,
    first: int,
    r: Seq<P>,
) -> bool {
    exists|around: Vec<P>, kept: Seq<P>|
        around@ == looped(points, first) && #[trigger] simplified(split, around, kept) && r
            == kept.drop_last()
}

/// Simplify a closed stroke to its corners, starting at the point at `first`.
pub fn simplify_closed<P: Copy, S: Fn(&Vec<P>, usize, usize) -> Option<usize>>(
    points: &Vec<P>,
    first: usize,
    split: &S,
) -> (r: Vec<P>)
    requires
        first < points@.len(),
        splits_between(*split),
    ensures
        closed_simplified(*split, points@, first as int, r@),
{
    let around = loop_points(points, first);
    let mut corners = rdp(&around, split);
    let ghost kept = corners@;
    assert(simplified(*split, around, kept));
    // The last point is the first one again.
    let _ = corners.pop();
    assert(corners@ =~= kept.drop_last());
    corners
}

// ---------------------------------------------------------------------------------------------
// Shapes

/// A shape that was recognized in a stroke.
#[derive(Debug)]
pub enum RecognizedShape<P> {
    /// A line between the ends of the stroke.
    Line { start: P, end: P },
    Polyline { start: P, path: Vec<P> },
    /// The ellipse that fits the stroke.
    Ellipse,
    /// The rectangle that fits the corners.
    Rectangle { corners: Vec<P> },
    Polygon { start: P, path: Vec<P> },
}

/// The shape that the corners of an open stroke make.
pub open spec fn open_shape<P>(corners: Seq<P>, r: Option<RecognizedShape<P>>) -> bool {
    if 3 <= corners.len() <= MAX_POLYLINE_CORNERS + 2 {
        r matches Some(RecognizedShape::Polyline { start, path }) && start == corners[0] && path@
            == corners.drop_first()
    } else {
        r is None
    }
}

/// The shape that the corners of a closed stroke make, where `right_angled` tells whether four
/// corners make a rectangle.
pub open spec fn closed_shape<P>(
    corners: Seq<P>,
    right_angled: bool,
    r: Option<RecognizedShape<P>>,
) -> bool {
    if corners.len() == 4 && right_angled {
        r matches Some(RecognizedShape::Rectangle { corners: c }) && c@ == corners
    } else if 3 <= corners.len() <= MAX_POLYGON_CORNERS {
        r matches Some(RecognizedShape::Polygon { start, path }) && start == corners[0] && path@
            == corners.drop_first()
    } else {
        r is None
    }
}

/// All but the first of the corners.
fn path_behind<P: Copy>(corners: &Vec<P>) -> (r: Vec<P>)
    requires
        corners@.len() > 0,
    ensures
        r@ == corners@.drop_first(),
{
    let mut path: Vec<P> = Vec::new();
    let mut k: usize = 1;
    assert(path@ =~= corners@.subrange(1, 1));
    while k < corners.len()
        invariant
            1 <= k <= corners@.len(),
            path@ == corners@.subrange(1, k as int),
        decreases corners@.len() - k,
    {
        path.push(corners[k]);
        assert(path@ =~= corners@.subrange(1, k + 1));
        k += 1;
    }
    assert(path@ =~= corners@.drop_first());
    path
}

/// What a stroke measures.
#[derive(Debug, Clone, Copy, PartialEq, Eq, Structural)]
pub struct StrokeMeasures {
    /// The stroke is too small to tell anything.
    pub too_small: bool,
    /// The ends are far apart, compared with the length.
    pub wide_gap: bool,
    /// All points lie close to the line between the ends.
    pub straight: bool,
}

/// Whether `r` is the shape of an open stroke.
pub open spec fn recognized_open<
    P,
    S: Fn(&Vec<P>, usize, usize) -> Option<usize>,
    F: Fn(P, P, P) -> bool,
>(points: Vec<P>, straight: bool, split: S, flat: F, r: Option<RecognizedShape<P>>) -> bool {
    if straight {
        r == Some(RecognizedShape::Line { start: points@[0], end: points@.last() })
    } else {
        exists|kept: Seq<P>, corners: Seq<P>|
            simplified(split, points, kept) && #[trigger] without_flat_corners(
                flat,
                kept,
                false,
                corners,
            ) && open_shape(corners, r)
    }
}

/// Recognize a shape in an open stroke. `straight` tells whether all points lie close to the line
/// between its ends.
pub fn recognize_open<
    P: Copy,
    S: Fn(&Vec<P>, usize, usize) -> Option<usize>,
    F: Fn(P, P, P) -> bool,
>(points: &Vec<P>, straight: bool, split: &S, flat: &F) -> (r: Option<RecognizedShape<P>>)
    requires
        points@.len() > 0,
        splits_between(*split),
        forall|a: P, b: P, c: P| #[trigger] call_requires(*flat, (a, b, c)),
    ensures
        recognized_open(*points, straight, *split, *flat, r),
{
    let n: usize = points.len();
    if straight {
        return Some(RecognizedShape::Line { start: points[0], end: points[n - 1] });
    }
    let kept = rdp(points, split);
    let ghost kept_points = kept@;
    let corners = remove_flat_corners(kept, false, flat);
    assert(without_flat_corners(*flat, kept_points, false, corners@));
    if corners.len() >= 3 && corners.len() <= MAX_POLYLINE_CORNERS + 2 {
        Some(RecognizedShape::Polyline { start: corners[0], path: path_behind(&corners) })
    } else {
        None
    }
}

/// Whether `r` is the shape of a closed stroke of evenly spread points.
pub open spec fn recognized_closed<
    P,
    S: Fn(&Vec<P>, usize, usize) -> Option<usize>,
    F: Fn(P, P, P) -> bool,
    R: Fn(&Vec<P>) -> bool,
>(
    points: Vec<P>,
    round: bool,
    first: int,
    split: S,
    flat: F,
    right_angled: R,
    r: Option<RecognizedShape<P>>,
) -> bool {
    if round {
        r == Some(RecognizedShape::<P>::Ellipse)
    } else {
        exists|kept: Seq<P>, corners: Vec<P>, right: bool|
            closed_simplified(split, points@, first, kept) && #[trigger] without_flat_corners(
                flat,
                kept,
                true,
                corners@,
            ) && (corners@.len() == 4 ==> call_ensures(right_angled, (&corners,), right))
                && #[trigger] closed_shape(corners@, right, r)
    }
}

/// Recognize a shape in a closed stroke of evenly spread points. `round` tells whether an ellipse
/// fits the points, `first` is the point farthest from their center, and `right_angled` tells
/// whether four corners make a rectangle.
pub fn recognize_closed<
    P: Copy,
    S: Fn(&Vec<P>, usize, usize) -> Option<usize>,
    F: Fn(P, P, P) -> bool,
    R: Fn(&Vec<P>) -> bool,
>(points: &Vec<P>, round: bool, first: usize, split: &S, flat: &F, right_angled: &R) -> (r: Option<
    RecognizedShape<P>,
>)
    requires
        first < points@.len(),
        splits_between(*split),
        forall|a: P, b: P, c: P| #[trigger] call_requires(*flat, (a, b, c)),
        forall|c: &Vec<P>| c@.len() == 4 ==> #[trigger] call_requires(*right_angled, (c,)),
    ensures
        recognized_closed(*points, round, first as int, *split, *flat, *right_angled, r),
{
    if round {
        return Some(RecognizedShape::Ellipse);
    }
    let kept = simplify_closed(points, first, split);
    let ghost kept_points = kept@;
    let corners = remove_flat_corners(kept, true, flat);
    let ghost all = corners;
    assert(without_flat_corners(*flat, kept_points, true, all@));
    let n: usize = corners.len();
    let mut right: bool = false;
    if n == 4 {
        right = right_angled(&corners);
    }
    let r = if n == 4 && right {
        Some(RecognizedShape::Rectangle { corners })
    } else if n >= 3 && n <= MAX_POLYGON_CORNERS {
        Some(RecognizedShape::Polygon { start: corners[0], path: path_behind(&corners) })
    } else {
        None
    };
    assert(closed_shape(all@, right, r));
    r
}

/// Measurements that can be made on any stroke. Resampled strokes have points, and as many
/// distances from their center.
pub open spec fn measures<
    P,
    E: Fn(P, P) -> bool,
    M: Fn(&Vec<P>) -> StrokeMeasures,
    Z: Fn(&Vec<P>) -> Vec<P>,
    N: Fn(&Vec<P>) -> bool,
    D: Fn(&Vec<P>) -> Vec<i64>,
    S: Fn(&Vec<P>, usize, usize) -> Option<usize>,
    F: Fn(P, P, P) -> bool,
    R: Fn(&Vec<P>) -> bool,
>(tools: Tools<E, M, Z, N, D, S, F, R>) -> bool {
    &&& forall|a: P, b: P| #[trigger] call_requires(tools.same, (a, b))
    &&& forall|p: &Vec<P>| p@.len() >= 2 ==> #[trigger] call_requires(tools.measure, (p,))
    &&& forall|p: &Vec<P>| p@.len() >= 2 ==> #[trigger] call_requires(tools.resample, (p,))
    &&& forall|p: &Vec<P>, q: Vec<P>| #[trigger]
        call_ensures(tools.resample, (p,), q) ==> q@.len() > 0
    &&& forall|p: &Vec<P>| p@.len() > 0 ==> #[trigger] call_requires(tools.round, (p,))
    &&& forall|p: &Vec<P>| p@.len() > 0 ==> #[trigger] call_requires(tools.distances, (p,))
    &&& forall|p: &Vec<P>, q: Vec<i64>| #[trigger]
        call_ensures(tools.distances, (p,), q) ==> q@.len() == p@.len()
    &&& splits_between(tools.split)
    &&& forall|a: P, b: P, c: P| #[trigger] call_requires(tools.flat, (a, b, c))
    &&& forall|c: &Vec<P>| c@.len() == 4 ==> #[trigger] call_requires(tools.right_angled, (c,))
}

/// How strokes are measured.
pub struct Tools<E, M, Z, N, D, S, F, R> {
    /// Whether two points are the same.
    pub same: E,
    /// What a stroke measures.
    pub measure: M,
    /// Points spread evenly along a closed stroke.
    pub resample: Z,
    /// Whether an ellipse fits the points.
    pub round: N,
    /// The distances of the points from their center, as numbers in the same order.
    pub distances: D,
    /// The point between two points that is farthest from the straight line between them, if it is
    /// too far off.
    pub split: S,
    /// Whether a corner barely turns, from the corners in front, itself and behind.
    pub flat: F,
    /// Whether four corners make a rectangle.
    pub right_angled: R,
}

/// Whether `r` is the shape in a stroke without repeated points.
pub open spec fn recognized<
    P,
    E: Fn(P, P) -> bool,
    M: Fn(&Vec<P>) -> StrokeMeasures,
    Z: Fn(&Vec<P>) -> Vec<P>,
    N: Fn(&Vec<P>) -> bool,
    D: Fn(&Vec<P>) -> Vec<i64>,
    S: Fn(&Vec<P>, usize, usize) -> Option<usize>,
    F: Fn(P, P, P) -> bool,
    R: Fn(&Vec<P>) -> bool,
>(tools: Tools<E, M, Z, N, D, S, F, R>, points: Vec<P>, r: Option<RecognizedShape<P>>) -> bool {
    if points@.len() < 2 {
        r is None
    } else {
        exists|m: StrokeMeasures| #[trigger]
            call_ensures(tools.measure, (&points,), m) && if m.too_small {
                r is None
            } else if m.wide_gap {
                recognized_open(points, m.straight, tools.split, tools.flat, r)
            } else {
                exists|even: Vec<P>, round: bool, distances: Vec<i64>, first: int| #[trigger]
                    call_ensures(tools.resample, (&points,), even) && #[trigger] call_ensures(
                        tools.round,
                        (&even,),
                        round,
                    ) && #[trigger] call_ensures(tools.distances, (&even,), distances)
                        && #[trigger] is_last_max(distances@, first) && recognized_closed(
                        even,
                        round,
                        first,
                        tools.split,
                        tools.flat,
                        tools.right_angled,
                        r,
                    )
            }
    }
}

/// Whether `r` is the shape in a stroke.
pub open spec fn recognizes<
    P,
    E: Fn(P, P) -> bool,
    M: Fn(&Vec<P>) -> StrokeMeasures,
    Z: Fn(&Vec<P>) -> Vec<P>,
    N: Fn(&Vec<P>) -> bool,
    D: Fn(&Vec<P>) -> Vec<i64>,
    S: Fn(&Vec<P>, usize, usize) -> Option<usize>,
    F: Fn(P, P, P) -> bool,
    R: Fn(&Vec<P>) -> bool,
>(tools: Tools<E, M, Z, N, D, S, F, R>, points: Seq<P>, r: Option<RecognizedShape<P>>) -> bool {
    exists|kept: Vec<P>| #[trigger]
        without_repeats(tools.same, points, kept@) && recognized(tools, kept, r)
}

/// Recognize a shape in the points of a freehand stroke.
///
/// Returns `None` when the stroke does not look like one of the shapes.
pub fn recognize<
    P: Copy,
    E: Fn(P, P) -> bool,
    M: Fn(&Vec<P>) -> StrokeMeasures,
    Z: Fn(&Vec<P>) -> Vec<P>,
    N: Fn(&Vec<P>) -> bool,
    D: Fn(&Vec<P>) -> Vec<i64>,
    S: Fn(&Vec<P>, usize, usize) -> Option<usize>,
    F: Fn(P, P, P) -> bool,
    R: Fn(&Vec<P>) -> bool,
>(points: &Vec<P>, tools: &Tools<E, M, Z, N, D, S, F, R>) -> (r: Option<RecognizedShape<P>>)
    requires
        measures(*tools),
    ensures
        recognizes(*tools, points@, r),
{
    let kept = drop_repeats(points, &tools.same);
    assert(without_repeats(tools.same, points@, kept@));
    if kept.len() < 2 {
        return None;
    }
    let m = (tools.measure)(&kept);
    assert(call_ensures(tools.measure, (&kept,), m));
    if m.too_small {
        return None;
    }
    if m.wide_gap {
        return recognize_open(&kept, m.straight, &tools.split, &tools.flat);
    }
    let even = (tools.resample)(&kept);
    let round: bool = (tools.round)(&even);
    let distances = (tools.distances)(&even);
    // The point farthest from the center is likely a corner.
    let first: usize = match last_max(&distances) {
        Some(i) => i,
        None => 0,
    };
    assert(call_ensures(tools.resample, (&kept,), even));
    assert(call_ensures(tools.round, (&even,), round));
    assert(call_ensures(tools.distances, (&even,), distances));
    assert(is_last_max(distances@, first as int));
    recognize_closed(&even, round, first, &tools.split, &tools.flat, &tools.right_angled)
}

// ---------------------------------------------------------------------------------------------
// Laws

/// No corner that barely turns is left, as long as there are enough corners to tell.
pub proof fn law_no_flat_corner_is_left<P, F: Fn(P, P, P) -> bool>(
    flat: F,
    corners: Seq<P>,
    closed: bool,
    r: Seq<P>,
)
    requires
        without_flat_corners(flat, corners, closed, r),
    ensures
        r.len() >= 3 ==> forall|i: int|
            first_corner(closed) <= i < corners_end(r.len() as int, closed) ==> #[trigger] flat_at(
                flat,
                r,
                i,
                false,
            ),
        r.len() <= corners.len(),
    decreases corners.len(),
{
    let n = corners.len() as int;
    if n >= 3 {
        let kept = r == corners && forall|i: int|
            first_corner(closed) <= i < corners_end(n, closed) ==> #[trigger] flat_at(
                flat,
                corners,
                i,
                false,
            );
        if !kept {
            let i = choose|i: int|
                first_corner(closed) <= i < corners_end(n, closed) && #[trigger] flat_at(
                    flat,
                    corners,
                    i,
                    true,
                ) && (forall|j: int|
                    first_corner(closed) <= j < i ==> #[trigger] flat_at(flat, corners, j, false))
                    && without_flat_corners(flat, corners.remove(i), closed, r);
            law_no_flat_corner_is_left(flat, corners.remove(i), closed, r);
        }
    }
}

/// The ends of an open stroke are kept.
pub proof fn law_the_ends_of_open_strokes_are_kept<P, F: Fn(P, P, P) -> bool>(
    flat: F,
    corners: Seq<P>,
    r: Seq<P>,
)
    requires
        without_flat_corners(flat, corners, false, r),
        corners.len() > 0,
    ensures
        r.len() > 0,
        r[0] == corners[0],
        r.last() == corners.last(),
    decreases corners.len(),
{
    let n = corners.len() as int;
    if n >= 3 && r != corners {
        let i = choose|i: int|
            1 <= i < n - 1 && #[trigger] flat_at(flat, corners, i, true) && (forall|j: int|
                1 <= j < i ==> #[trigger] flat_at(flat, corners, j, false))
                && without_flat_corners(flat, corners.remove(i), false, r);
        law_the_ends_of_open_strokes_are_kept(flat, corners.remove(i), r);
    }
}

/// What is left of a simplified stroke are points of the stroke, from its first to its last.
pub proof fn law_simplified_strokes_keep_their_ends<
    P,
    S: Fn(&Vec<P>, usize, usize) -> Option<usize>,
>(split: S, points: Vec<P>, r: Seq<P>)
    requires
        simplified(split, points, r),
        0 < points@.len() <= usize::MAX,
    ensures
        0 < r.len() <= points@.len(),
        r[0] == points@[0],
        r.last() == points@.last(),
{
    let last = (points@.len() - 1) as usize;
    let places = choose|places: Seq<usize>| #[trigger]
        simplifies_to(split, points, 0, last, places) && leads_through(0, last, places) && r
            == points_at(points@, places);
    lemma_increasing(places, 0, places.len() - 1);
}

proof fn lemma_increasing(places: Seq<usize>, j: int, k: int)
    requires
        0 <= j <= k < places.len(),
        forall|j: int, k: int|
            0 <= j < k < places.len() ==> #[trigger] places[j] < #[trigger] places[k],
    ensures
        places[k] - places[j] >= k - j,
    decreases k - j,
{
    if j < k {
        lemma_increasing(places, j, k - 1);
        assert(places[k - 1] < places[k]);
    }
}

/// The largest key is the one that no other key is larger than, and of several such the last one.
pub proof fn law_the_last_of_the_largest(keys: Seq<i64>, i: int, j: int)
    requires
        is_last_max(keys, i),
        0 <= j < keys.len(),
    ensures
        0 <= i < keys.len(),
        keys[j] <= keys[i],
        keys[j] == keys[i] ==> j <= i,
{
}

/// The smallest key is the one that no other key is smaller than, and of several such the first one.
/// Those that are left out do not count.
pub proof fn law_the_first_of_the_smallest(keys: Seq<Option<i64>>, i: int, j: int)
    requires
        is_first_min(keys, i),
        0 <= j < keys.len(),
    ensures
        0 <= i < keys.len(),
        keys[i] is Some,
        keys[j] matches Some(key) ==> keys[i]->0 <= key && (keys[i]->0 == key ==> i <= j),
{
}

/// Whether `r` are the points at the given places, which come in order.
pub open spec fn picked<P>(points: Seq<P>, places: Seq<int>, r: Seq<P>) -> bool {
    &&& places.len() == r.len()
    &&& forall|j: int, k: int|
        0 <= j < k < places.len() ==> #[trigger] places[j] < #[trigger] places[k]
    &&& forall|k: int|
        0 <= k < places.len() ==> 0 <= #[trigger] places[k] < points.len() && r[k]
            == points[places[k]]
}

/// Whether `r` are the points at the given places, where all points in between repeat the one in front
/// of them that was kept.
pub open spec fn repeats_left_out<P, E: Fn(P, P) -> bool>(
    same: E,
    points: Seq<P>,
    places: Seq<int>,
    r: Seq<P>,
) -> bool {
    &&& picked(points, places, r)
    &&& places.len() > 0 && places[0] == 0
    &&& forall|j: int, k: int|
        0 <= j && k == j + 1 && k < places.len() ==> call_ensures(
            same,
            (#[trigger] r[k], #[trigger] r[j]),
            false,
        )
    &&& forall|j: int, k: int, i: int|
        #![trigger places[j], places[k], points[i]]
        0 <= j && k == j + 1 && k < places.len() && places[j] < i < places[k] ==> call_ensures(
            same,
            (points[i], r[j]),
            true,
        )
    &&& forall|i: int|
        places.last() < i < points.len() ==> call_ensures(
            same,
            (#[trigger] points[i], r.last()),
            true,
        )
}

/// Only points that repeat the one in front are left out of a stroke. The first one is kept, and no
/// two neighbours that are left repeat each other.
pub proof fn law_only_repeats_are_left_out<P, E: Fn(P, P) -> bool>(
    same: E,
    points: Seq<P>,
    r: Seq<P>,
) -> (places: Seq<int>)
    requires
        without_repeats(same, points, r),
        points.len() > 0,
    ensures
        repeats_left_out(same, points, places, r),
        r.len() > 0,
        r[0] == points[0],
    decreases points.len(),
{
    let n = points.len() as int;
    if n == 1 {
        let places = seq![0int];
        assert(r == points);
        assert(repeats_left_out(same, points, places, r));
        places
    } else {
        let (front, answer) = choose|front: Seq<P>, answer: bool|
            front.len() > 0 && without_repeats(same, points.drop_last(), front)
                && #[trigger] call_ensures(same, (points.last(), front.last()), answer) && r == (
            if answer {
                front
            } else {
                front.push(points.last())
            });
        let before = points.drop_last();
        let old = law_only_repeats_are_left_out(same, before, front);
        let m = old.len() as int;
        assert(old[m - 1] < n - 1);
        let places = if answer {
            old
        } else {
            old.push(n - 1)
        };
        assert forall|k: int| 0 <= k < places.len() implies 0 <= #[trigger] places[k] < points.len()
            && r[k] == points[places[k]] by {
            if k < m {
                assert(places[k] == old[k]);
                assert(before[old[k]] == points[old[k]]);
            }
        }
        assert forall|j: int, k: int| 0 <= j < k < places.len() implies #[trigger] places[j]
            < #[trigger] places[k] by {
            assert(places[j] == old[j]);
            if k < m {
                assert(places[k] == old[k]);
            }
        }
        assert forall|j: int, k: int| 0 <= j && k == j + 1 && k < places.len() implies call_ensures(
            same,
            (#[trigger] r[k], #[trigger] r[j]),
            false,
        ) by {
            assert(places[j] == old[j]);
            if k < m {
                assert(places[k] == old[k]);
                assert(r[k] == front[k] && r[j] == front[j]);
            } else {
                assert(r[k] == points.last() && r[j] == front.last());
            }
        }
        assert forall|j: int, k: int, i: int|
            #![trigger places[j], places[k], points[i]]
            0 <= j && k == j + 1 && k < places.len() && places[j] < i < places[k] implies call_ensures(
            same,
            (points[i], r[j]),
            true,
        ) by {
            assert(places[j] == old[j]);
            assert(r[j] == front[j]);
            assert(before[i] == points[i]);
            if k < m {
                assert(places[k] == old[k]);
            } else {
                assert(old[j] == old.last() && front[j] == front.last());
            }
        }
        assert forall|i: int| places.last() < i < points.len() implies call_ensures(
            same,
            (#[trigger] points[i], r.last()),
            true,
        ) by {
            if i < n - 1 {
                assert(before[i] == points[i]);
            } else {
                assert(points[i] == points.last());
            }
        }
        assert(places.len() == r.len());
        assert(places[0] == old[0]);
        assert(picked(points, places, r));
        assert(repeats_left_out(same, points, places, r));
        places
    }
}

/// Whether the way around the corners turns at the corner `i`.
pub open spec fn turns_at<P, F: Fn(P, P, P) -> bool>(flat: F, corners: Seq<P>, i: int) -> bool {
    let n = corners.len() as int;
    call_ensures(flat, (corners[(i + n - 1) % n], corners[i], corners[(i + 1) % n]), false)
}

/// Whether the way along the corners turns at the corner `i`, between its ends.
pub open spec fn turns_between<P, F: Fn(P, P, P) -> bool>(flat: F, corners: Seq<P>, i: int) -> bool {
    call_ensures(flat, (corners[i - 1], corners[i], corners[i + 1]), false)
}

/// Leaving out flat corners leaves points of the stroke in their order, and on a stroke that is closed
/// no corner that barely turns between the corners next to it, all around. On an open stroke none
/// between its ends. Strokes of less than three corners are left as they are.
pub proof fn law_what_is_left_turns<P, F: Fn(P, P, P) -> bool>(
    flat: F,
    corners: Seq<P>,
    closed: bool,
    r: Seq<P>,
) -> (places: Seq<int>)
    requires
        without_flat_corners(flat, corners, closed, r),
    ensures
        picked(corners, places, r),
        corners.len() < 3 ==> r == corners,
        r.len() >= 3 && closed ==> forall|i: int|
            0 <= i < r.len() ==> #[trigger] turns_at(flat, r, i),
        r.len() >= 3 && !closed ==> forall|i: int|
            0 < i < r.len() - 1 ==> #[trigger] turns_between(flat, r, i),
        corners.len() >= 2 ==> r.len() >= 2,
    decreases corners.len(),
{
    let n = corners.len() as int;
    let kept = n < 3 || r == corners && forall|i: int|
        first_corner(closed) <= i < corners_end(n, closed) ==> #[trigger] flat_at(
            flat,
            corners,
            i,
            false,
        );
    if kept {
        let places = Seq::new(corners.len(), |k: int| k);
        assert forall|i: int| r.len() >= 3 && closed && 0 <= i < r.len() implies #[trigger] turns_at(
            flat,
            r,
            i,
        ) by {
            assert(flat_at(flat, corners, i, false));
            if i == 0 {
                assert((i + n - 1) % n == n - 1) by {
                    vstd::arithmetic::div_mod::lemma_small_mod((n - 1) as nat, n as nat);
                }
            } else {
                assert((i + n - 1) % n == i - 1) by {
                    vstd::arithmetic::div_mod::lemma_fundamental_div_mod_converse(
                        i + n - 1,
                        n,
                        1,
                        i - 1,
                    );
                }
            }
            if i == n - 1 {
                assert((i + 1) % n == 0) by {
                    vstd::arithmetic::div_mod::lemma_mod_self_0(n);
                }
            } else {
                assert((i + 1) % n == i + 1) by {
                    vstd::arithmetic::div_mod::lemma_small_mod((i + 1) as nat, n as nat);
                }
            }
        }
        assert forall|i: int| r.len() >= 3 && !closed && 0 < i < r.len() - 1 implies #[trigger] turns_between(
            flat,
            r,
            i,
        ) by {
            assert(flat_at(flat, corners, i, false));
        }
        assert(picked(corners, places, r));
        places
    } else {
        let i = choose|i: int|
            first_corner(closed) <= i < corners_end(n, closed) && #[trigger] flat_at(
                flat,
                corners,
                i,
                true,
            ) && (forall|j: int|
                first_corner(closed) <= j < i ==> #[trigger] flat_at(flat, corners, j, false))
                && without_flat_corners(flat, corners.remove(i), closed, r);
        let rest = corners.remove(i);
        let inner = law_what_is_left_turns(flat, rest, closed, r);
        let places = inner.map_values(
            |k: int|
                if k < i {
                    k
                } else {
                    k + 1
                },
        );
        assert forall|k: int| 0 <= k < places.len() implies 0 <= #[trigger] places[k] < corners.len()
            && r[k] == corners[places[k]] by {
            let at = inner[k];
            assert(r[k] == rest[at]);
        }
        assert forall|j: int, k: int| 0 <= j < k < places.len() implies #[trigger] places[j]
            < #[trigger] places[k] by {
            assert(inner[j] < inner[k]);
        }
        assert(picked(corners, places, r));
        places
    }
}

/// Where no corner barely turns, none is left out.
pub proof fn law_corners_that_turn_are_kept<P, F: Fn(P, P, P) -> bool>(
    flat: F,
    corners: Seq<P>,
    closed: bool,
    r: Seq<P>,
)
    requires
        without_flat_corners(flat, corners, closed, r),
        forall|a: P, b: P, c: P| !(#[trigger] call_ensures(flat, (a, b, c), true)),
    ensures
        r == corners,
{
    let n = corners.len() as int;
    if n >= 3 && r != corners {
        let i = choose|i: int|
            first_corner(closed) <= i < corners_end(n, closed) && #[trigger] flat_at(
                flat,
                corners,
                i,
                true,
            ) && (forall|j: int|
                first_corner(closed) <= j < i ==> #[trigger] flat_at(flat, corners, j, false))
                && without_flat_corners(flat, corners.remove(i), closed, r);
        assert(flat_at(flat, corners, i, true));
    }
}

/// Whether between neighbouring places there is no point that is too far off.
pub open spec fn close_between<P, S: Fn(&Vec<P>, usize, usize) -> Option<usize>>(
    split: S,
    points: Vec<P>,
    places: Seq<usize>,
) -> bool {
    forall|j: int, k: int|
        0 <= j && k == j + 1 && k < places.len() && (#[trigger] places[j]) + 1 < #[trigger] places[k]
            ==> call_ensures(split, (&points, places[j], places[k]), None)
}

proof fn lemma_close_between<P, S: Fn(&Vec<P>, usize, usize) -> Option<usize>>(
    split: S,
    points: Vec<P>,
    lo: usize,
    hi: usize,
    r: Seq<usize>,
)
    requires
        lo <= hi,
        simplifies_to(split, points, lo, hi, r),
    ensures
        leads_through(lo, hi, r),
        close_between(split, points, r),
    decreases hi - lo,
{
    if hi - lo >= 2 && !(call_ensures(split, (&points, lo, hi), None) && r == seq![lo, hi]) {
        let (i, a, b) = choose|i: usize, a: Seq<usize>, b: Seq<usize>|
            lo < i < hi && #[trigger] call_ensures(split, (&points, lo, hi), Some(i))
                && simplifies_to(split, points, lo, i, a) && simplifies_to(split, points, i, hi, b)
                && r == #[trigger] joined(a, b);
        lemma_close_between(split, points, lo, i, a);
        lemma_close_between(split, points, i, hi, b);
        lemma_joined(lo, i, hi, a, b);
        let m = a.len() - 1;
        assert forall|j: int, k: int|
            0 <= j && k == j + 1 && k < r.len() && (#[trigger] r[j]) + 1
                < #[trigger] r[k] implies call_ensures(split, (&points, r[j], r[k]), None) by {
            if k < m {
                assert(r[j] == a[j] && r[k] == a[k]);
            } else if k == m {
                assert(r[j] == a[j] && r[k] == b[0] && a[k] == i && b[0] == i);
            } else {
                assert(r[j] == b[j - m] && r[k] == b[k - m]);
            }
        }
    }
}

/// A simplified stroke keeps points of the stroke in their order, from the first to the last, and
/// between neighbours that are left no point is too far off. Where no point ever is, only its ends are
/// left.
pub proof fn law_simplified_strokes_stay_close<
    P,
    S: Fn(&Vec<P>, usize, usize) -> Option<usize>,
>(split: S, points: Vec<P>, r: Seq<P>) -> (places: Seq<usize>)
    requires
        simplified(split, points, r),
        0 < points@.len() <= usize::MAX,
    ensures
        leads_through(0, (points@.len() - 1) as usize, places),
        close_between(split, points, places),
        places.len() == r.len(),
        forall|k: int|
            0 <= k < r.len() ==> (#[trigger] places[k]) < points@.len() && r[k]
                == points@[places[k] as int],
        picked(points@, places.map_values(|p: usize| p as int), r),
        points@.len() >= 2 && (forall|lo: usize, hi: usize, i: usize|
            !(#[trigger] call_ensures(split, (&points, lo, hi), Some(i)))) ==> r.len() == 2,
{
    let last = (points@.len() - 1) as usize;
    let places = choose|places: Seq<usize>| #[trigger]
        simplifies_to(split, points, 0, last, places) && leads_through(0, last, places) && r
            == points_at(points@, places);
    lemma_close_between(split, points, 0, last, places);
    assert forall|k: int| 0 <= k < r.len() implies (#[trigger] places[k]) < points@.len() && r[k]
        == points@[places[k] as int] by {
        if k < places.len() - 1 {
            assert(places[k] < places[places.len() - 1]);
        }
    }
    let at = places.map_values(|p: usize| p as int);
    assert forall|j: int, k: int| 0 <= j < k < at.len() implies #[trigger] at[j]
        < #[trigger] at[k] by {
        assert(places[j] < places[k]);
    }
    assert forall|k: int| 0 <= k < at.len() implies 0 <= #[trigger] at[k] < points@.len() && r[k]
        == points@[at[k]] by {
        assert(places[k] < points@.len());
    }
    places
}

/// A closed stroke from a point around to that point again goes through all points once, in their
/// order, and ends with the point that it starts with.
pub proof fn law_closed_strokes_go_around<P>(points: Seq<P>, first: int, k: int)
    requires
        0 <= first < points.len(),
        0 <= k <= points.len(),
    ensures
        looped(points, first).len() == points.len() + 1,
        looped(points, first)[k] == points[(first + k) % (points.len() as int)],
{
    let n = points.len() as int;
    if first + k < n {
        vstd::arithmetic::div_mod::lemma_small_mod((first + k) as nat, n as nat);
    } else {
        vstd::arithmetic::div_mod::lemma_fundamental_div_mod_converse(
            first + k,
            n,
            1,
            first + k - n,
        );
    }
}

/// The corners of a closed stroke are points of it. They start with the point that was chosen, which
/// is counted once, and as many follow as are kept on the way around.
pub proof fn law_closed_strokes_start_at_the_chosen_point<
    P,
    S: Fn(&Vec<P>, usize, usize) -> Option<usize>,
>(split: S, points: Seq<P>, first: int, r: Seq<P>)
    requires
        closed_simplified(split, points, first, r),
        0 <= first < points.len() < usize::MAX,
    ensures
        r.len() >= 1,
        r[0] == points[first],
        r.len() <= points.len(),
        forall|k: int| 0 <= k < r.len() ==> points.contains(#[trigger] r[k]),
{
    let (around, kept) = choose|around: Vec<P>, kept: Seq<P>|
        around@ == looped(points, first) && #[trigger] simplified(split, around, kept) && r
            == kept.drop_last();
    let n = points.len() as int;
    law_closed_strokes_go_around(points, first, 0);
    let places = law_simplified_strokes_stay_close(split, around, kept);
    law_simplified_strokes_keep_their_ends(split, around, kept);
    vstd::arithmetic::div_mod::lemma_small_mod(first as nat, n as nat);
    assert(kept.len() >= 2) by {
        if kept.len() == 1 {
            assert(places[0] == 0 && places[places.len() - 1] == n);
        }
    }
    assert forall|k: int| 0 <= k < r.len() implies points.contains(#[trigger] r[k]) by {
        assert(r[k] == kept[k]);
        assert(places[k] < around@.len());
        let at = places[k] as int;
        law_closed_strokes_go_around(points, first, at);
        vstd::arithmetic::div_mod::lemma_mod_bound(first + at, n);
        assert(points[(first + at) % n] == r[k]);
    }
}

/// A straight open stroke becomes the line that joins its first point with its last point, so a stroke
/// with different ends never becomes a line without a length. Other open strokes become polylines of
/// three to seven of their points, in order, from the first to the last, which turn at each point in
/// between. Open strokes become nothing else.
pub proof fn law_open_strokes_become_lines_and_polylines<
    P,
    S: Fn(&Vec<P>, usize, usize) -> Option<usize>,
    F: Fn(P, P, P) -> bool,
>(points: Vec<P>, straight: bool, split: S, flat: F, r: Option<RecognizedShape<P>>)
    requires
        recognized_open(points, straight, split, flat, r),
        0 < points@.len() <= usize::MAX,
    ensures
        straight ==> (r matches Some(RecognizedShape::Line { start, end }) && start == points@[0]
            && end == points@[points@.len() - 1] && (points@[0] != points@.last() ==> start != end)),
        !straight ==> r is None || r->0 is Polyline,
        r matches Some(RecognizedShape::Polyline { start, path }) ==> {
            let corners = seq![start] + path@;
            &&& 3 <= corners.len() <= 7
            &&& start == points@[0]
            &&& path@.last() == points@.last()
            &&& exists|places: Seq<int>| #[trigger] picked(points@, places, corners)
            &&& forall|i: int|
                0 < i < corners.len() - 1 ==> #[trigger] turns_between(flat, corners, i)
        },
        !straight && r is None ==> exists|kept: Seq<P>, corners: Seq<P>|
            #![trigger simplified(split, points, kept), without_flat_corners(flat, kept, false, corners)]
            simplified(split, points, kept) && without_flat_corners(flat, kept, false, corners) && (
            corners.len() < 3 || corners.len() > 7),
{
    if !straight {
        let (kept, corners) = choose|kept: Seq<P>, corners: Seq<P>|
            simplified(split, points, kept) && #[trigger] without_flat_corners(
                flat,
                kept,
                false,
                corners,
            ) && open_shape(corners, r);
        let a = law_simplified_strokes_stay_close(split, points, kept);
        let outer = a.map_values(|p: usize| p as int);
        let inner = law_what_is_left_turns(flat, kept, false, corners);
        law_simplified_strokes_keep_their_ends(split, points, kept);
        law_the_ends_of_open_strokes_are_kept(flat, kept, corners);
        lemma_picked_twice(points@, outer, kept, inner, corners);
        if let Some(RecognizedShape::Polyline { start, path }) = r {
            assert(seq![start] + path@ =~= corners);
            assert(path@.last() == corners.last());
        }
    }
}

proof fn lemma_picked_twice<P>(
    points: Seq<P>,
    outer: Seq<int>,
    kept: Seq<P>,
    inner: Seq<int>,
    r: Seq<P>,
)
    requires
        picked(points, outer, kept),
        picked(kept, inner, r),
    ensures
        exists|places: Seq<int>| #[trigger] picked(points, places, r),
{
    let places = inner.map_values(|k: int| outer[k]);
    assert forall|j: int, k: int| 0 <= j < k < places.len() implies #[trigger] places[j]
        < #[trigger] places[k] by {
        assert(inner[j] < inner[k]);
        assert(outer[inner[j]] < outer[inner[k]]);
    }
    assert forall|k: int| 0 <= k < places.len() implies 0 <= #[trigger] places[k] < points.len()
        && r[k] == points[places[k]] by {
        assert(r[k] == kept[inner[k]]);
        assert(0 <= outer[inner[k]] < points.len());
    }
    assert(picked(points, places, r));
}

/// A closed stroke that is round becomes an ellipse. Others become polygons of three to eight of their
/// points, which turn at each of them, or rectangles where four of them are right-angled. Closed strokes
/// become nothing else.
pub proof fn law_closed_strokes_become_ellipses_and_polygons<
    P,
    S: Fn(&Vec<P>, usize, usize) -> Option<usize>,
    F: Fn(P, P, P) -> bool,
    R: Fn(&Vec<P>) -> bool,
>(
    points: Vec<P>,
    round: bool,
    first: int,
    split: S,
    flat: F,
    right_angled: R,
    r: Option<RecognizedShape<P>>,
)
    requires
        recognized_closed(points, round, first, split, flat, right_angled, r),
        0 <= first < points@.len() < usize::MAX,
    ensures
        round <==> (r matches Some(shape) && shape is Ellipse),
        !round ==> r is None || r->0 is Rectangle || r->0 is Polygon,
        r matches Some(RecognizedShape::Rectangle { corners }) ==> corners@.len() == 4
            && turns_around(points@, flat, corners@) && exists|c: Vec<P>|
            c@ == corners@ && #[trigger] call_ensures(right_angled, (&c,), true),
        r matches Some(RecognizedShape::Polygon { start, path }) ==> {
            let corners = seq![start] + path@;
            &&& 3 <= corners.len() <= 8
            &&& turns_around(points@, flat, corners)
            &&& corners.len() == 4 ==> exists|c: Vec<P>|
                c@ == corners && #[trigger] call_ensures(right_angled, (&c,), false)
        },
        !round && r is None ==> exists|kept: Seq<P>, corners: Seq<P>|
            #![trigger closed_simplified(split, points@, first, kept), without_flat_corners(flat, kept, true, corners)]
            closed_simplified(split, points@, first, kept) && without_flat_corners(
                flat,
                kept,
                true,
                corners,
            ) && (corners.len() < 3 || corners.len() > 8),
{
    if !round {
        let (kept, corners, right) = choose|kept: Seq<P>, corners: Vec<P>, right: bool|
            closed_simplified(split, points@, first, kept) && #[trigger] without_flat_corners(
                flat,
                kept,
                true,
                corners@,
            ) && (corners@.len() == 4 ==> call_ensures(right_angled, (&corners,), right))
                && #[trigger] closed_shape(corners@, right, r);
        law_closed_strokes_start_at_the_chosen_point(split, points@, first, kept);
        let inner = law_what_is_left_turns(flat, kept, true, corners@);
        assert forall|k: int| 0 <= k < corners@.len() implies points@.contains(
            #[trigger] corners@[k],
        ) by {
            assert(0 <= inner[k] < kept.len());
            assert(points@.contains(kept[inner[k]]));
        }
        if corners@.len() >= 3 {
            assert(turns_around(points@, flat, corners@));
        }
        if let Some(RecognizedShape::Polygon { start, path }) = r {
            assert(seq![start] + path@ =~= corners@);
            if corners@.len() == 4 {
                assert(call_ensures(right_angled, (&corners,), false));
            }
        }
        if let Some(RecognizedShape::Rectangle { corners: c }) = r {
            assert(c@ == corners@);
            assert(call_ensures(right_angled, (&corners,), true));
        }
    }
}

/// Whether the corners are points of a stroke, and the way around them turns at each of them.
pub open spec fn turns_around<P, F: Fn(P, P, P) -> bool>(
    points: Seq<P>,
    flat: F,
    corners: Seq<P>,
) -> bool {
    &&& forall|k: int| 0 <= k < corners.len() ==> points.contains(#[trigger] corners[k])
    &&& forall|i: int| 0 <= i < corners.len() ==> #[trigger] turns_at(flat, corners, i)
}

/// Strokes that are too small are no shapes. Those whose ends are far apart become lines and polylines
/// of their own points, others become shapes of the points that were spread evenly along them, starting
/// at the last of the points that are farthest from their center.
pub proof fn law_the_gap_tells_open_from_closed<
    P,
    E: Fn(P, P) -> bool,
    M: Fn(&Vec<P>) -> StrokeMeasures,
    Z: Fn(&Vec<P>) -> Vec<P>,
    N: Fn(&Vec<P>) -> bool,
    D: Fn(&Vec<P>) -> Vec<i64>,
    S: Fn(&Vec<P>, usize, usize) -> Option<usize>,
    F: Fn(P, P, P) -> bool,
    R: Fn(&Vec<P>) -> bool,
>(
    tools: Tools<E, M, Z, N, D, S, F, R>,
    points: Vec<P>,
    r: Option<RecognizedShape<P>>,
    too_small: bool,
    wide_gap: bool,
)
    requires
        recognized(tools, points, r),
        points@.len() <= usize::MAX,
        forall|m: StrokeMeasures| #[trigger]
            call_ensures(tools.measure, (&points,), m) ==> m.too_small == too_small && m.wide_gap
                == wide_gap,
    ensures
        points@.len() < 2 || too_small ==> r is None,
        wide_gap ==> r is None || r->0 is Line || r->0 is Polyline,
        !wide_gap ==> r is None || r->0 is Ellipse || r->0 is Rectangle || r->0 is Polygon,
        r matches Some(RecognizedShape::Line { start, end }) ==> start == points@[0] && end
            == points@.last() && exists|m: StrokeMeasures| #[trigger]
            call_ensures(tools.measure, (&points,), m) && m.straight,
        r is Some && r->0 is Ellipse ==> exists|even: Vec<P>|
            #![trigger call_ensures(tools.resample, (&points,), even)]
            call_ensures(tools.resample, (&points,), even) && call_ensures(
                tools.round,
                (&even,),
                true,
            ),
        r is Some && (r->0 is Rectangle || r->0 is Polygon) ==> exists|even: Vec<P>|
            #![trigger call_ensures(tools.resample, (&points,), even)]
            call_ensures(tools.resample, (&points,), even) && call_ensures(
                tools.round,
                (&even,),
                false,
            ),
{
}

/// A line joins the two ends of the stroke it was recognized in: it starts at the first point, and ends
/// at the last one, apart from points at the end that repeat the one in front of them.
pub proof fn law_a_line_joins_the_ends_of_the_stroke<
    P,
    E: Fn(P, P) -> bool,
    M: Fn(&Vec<P>) -> StrokeMeasures,
    Z: Fn(&Vec<P>) -> Vec<P>,
    N: Fn(&Vec<P>) -> bool,
    D: Fn(&Vec<P>) -> Vec<i64>,
    S: Fn(&Vec<P>, usize, usize) -> Option<usize>,
    F: Fn(P, P, P) -> bool,
    R: Fn(&Vec<P>) -> bool,
>(tools: Tools<E, M, Z, N, D, S, F, R>, points: Seq<P>, r: Option<RecognizedShape<P>>) -> (last: int)
    requires
        recognizes(tools, points, r),
        points.len() > 0,
    ensures
        r matches Some(RecognizedShape::Line { start, end }) ==> {
            &&& start == points[0]
            &&& 0 < last < points.len()
            &&& end == points[last]
            &&& forall|i: int|
                last < i < points.len() ==> call_ensures(
                    tools.same,
                    (#[trigger] points[i], end),
                    true,
                )
        },
        r matches Some(RecognizedShape::Polyline { start, path }) ==> start == points[0] && 0 < last
            < points.len() && path@.last() == points[last] && forall|i: int|
            last < i < points.len() ==> call_ensures(
                tools.same,
                (#[trigger] points[i], path@.last()),
                true,
            ),
{
    let kept = choose|kept: Vec<P>| #[trigger]
        without_repeats(tools.same, points, kept@) && recognized(tools, kept, r);
    let places = law_only_repeats_are_left_out(tools.same, points, kept@);
    let n = places.len() as int;
    let last = places[n - 1];
    assert(kept@.len() == n);
    if kept@.len() >= 2 {
        assert(places[0] < places[n - 1]);
        assert(kept@[n - 1] == points[last]);
        assert(kept@[n - 1] == kept@.last());
        let m = choose|m: StrokeMeasures| #[trigger]
            call_ensures(tools.measure, (&kept,), m) && if m.too_small {
                r is None
            } else if m.wide_gap {
                recognized_open(kept, m.straight, tools.split, tools.flat, r)
            } else {
                exists|even: Vec<P>, round: bool, distances: Vec<i64>, first: int| #[trigger]
                    call_ensures(tools.resample, (&kept,), even) && #[trigger] call_ensures(
                        tools.round,
                        (&even,),
                        round,
                    ) && #[trigger] call_ensures(tools.distances, (&even,), distances)
                        && #[trigger] is_last_max(distances@, first) && recognized_closed(
                        even,
                        round,
                        first,
                        tools.split,
                        tools.flat,
                        tools.right_angled,
                        r,
                    )
            };
        if !m.too_small && m.wide_gap {
            assert(kept.len() == kept@.len());
            law_open_strokes_become_lines_and_polylines(
                kept,
                m.straight,
                tools.split,
                tools.flat,
                r,
            );
        }
    }
    last
}

} // verus!
