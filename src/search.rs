//! Extremal reduction of a trace and the choice among the candidate triangles.
use vstd::prelude::*;
use crate::point::Point;

verus! {

pub open spec fn lats(s: Seq<Point>) -> Seq<int> {
    s.map_values(|p: Point| p.lat as int)
}

pub open spec fn lons(s: Seq<Point>) -> Seq<int> {
    s.map_values(|p: Point| p.lon as int)
}

/// `i` is the first position holding the largest key.
pub open spec fn is_first_max(keys: Seq<int>, i: int) -> bool {
    &&& 0 <= i < keys.len()
    &&& forall|j: int| 0 <= j < keys.len() ==> #[trigger] keys[j] <= keys[i]
    &&& forall|j: int| 0 <= j < i ==> #[trigger] keys[j] < keys[i]
}

/// `i` is the first position holding the smallest key.
pub open spec fn is_first_min(keys: Seq<int>, i: int) -> bool {
    &&& 0 <= i < keys.len()
    &&& forall|j: int| 0 <= j < keys.len() ==> #[trigger] keys[j] >= keys[i]
    &&& forall|j: int| 0 <= j < i ==> #[trigger] keys[j] > keys[i]
}

/// `e` lists, in this order, the first points of `trace` with the largest
/// latitude, the smallest latitude, the largest longitude and the smallest
/// longitude, each with its index in `trace`.
pub open spec fn is_extremes(trace: Seq<Point>, e: Seq<(usize, Point)>) -> bool {
    &&& e.len() == 4
    &&& forall|k: int| 0 <= k < 4 ==> {
        &&& (#[trigger] e[k]).0 < trace.len()
        &&& e[k].1 == trace[e[k].0 as int]
    }
    &&& is_first_max(lats(trace), e[0].0 as int)
    &&& is_first_min(lats(trace), e[1].0 as int)
    &&& is_first_max(lons(trace), e[2].0 as int)
    &&& is_first_min(lons(trace), e[3].0 as int)
}

/// Finds the four extremal points of `trace` in one pass; on equal values
/// the earliest point is kept. An empty trace has none.
pub fn extreme_points(trace: &Vec<Point>) -> (r: Option<Vec<(usize, Point)>>)
    ensures
        r is None <==> trace@.len() == 0,
        r matches Some(e) ==> is_extremes(trace@, e@),
{
    if trace.len() == 0 {
        return None;
    }
    let ghost la = lats(trace@);
    let ghost lo = lons(trace@);
    let mut max_lat_index: usize = 0;
    let mut min_lat_index: usize = 0;
    let mut max_lon_index: usize = 0;
    let mut min_lon_index: usize = 0;
    let mut max_lat = trace[0].lat;
    let mut min_lat = trace[0].lat;
    let mut max_lon = trace[0].lon;
    let mut min_lon = trace[0].lon;
    let mut index: usize = 1;
    while index < trace.len()
        invariant
            la == lats(trace@),
            lo == lons(trace@),
            1 <= index <= trace@.len(),
            is_first_max(la.take(index as int), max_lat_index as int),
            is_first_min(la.take(index as int), min_lat_index as int),
            is_first_max(lo.take(index as int), max_lon_index as int),
            is_first_min(lo.take(index as int), min_lon_index as int),
            max_lat == trace@[max_lat_index as int].lat,
            min_lat == trace@[min_lat_index as int].lat,
            max_lon == trace@[max_lon_index as int].lon,
            min_lon == trace@[min_lon_index as int].lon,
        decreases trace.len() - index,
    {
        let point = trace[index];
        assert(la.take(index + 1) == la.take(index as int).push(point.lat as int));
        assert(lo.take(index + 1) == lo.take(index as int).push(point.lon as int));
        if point.lat > max_lat {
            max_lat = point.lat;
            max_lat_index = index;
        }
        if point.lat < min_lat {
            min_lat = point.lat;
            min_lat_index = index;
        }
        if point.lon > max_lon {
            max_lon = point.lon;
            max_lon_index = index;
        }
        if point.lon < min_lon {
            min_lon = point.lon;
            min_lon_index = index;
        }
        index = index + 1;
    }
    assert(la.take(index as int) == la);
    assert(lo.take(index as int) == lo);
    let mut extremes: Vec<(usize, Point)> = Vec::new();
    extremes.push((max_lat_index, trace[max_lat_index]));
    extremes.push((min_lat_index, trace[min_lat_index]));
    extremes.push((max_lon_index, trace[max_lon_index]));
    extremes.push((min_lon_index, trace[min_lon_index]));
    Some(extremes)
}

/// The `k`-th way of choosing three of the four candidates, as positions in
/// the candidate list, in the fixed order (0,1,2), (0,1,3), (0,2,3), (1,2,3).
pub open spec fn combination_spec(k: int) -> (usize, usize, usize) {
    if k == 0 {
        (0, 1, 2)
    } else if k == 1 {
        (0, 1, 3)
    } else if k == 2 {
        (0, 2, 3)
    } else {
        (1, 2, 3)
    }
}

pub fn combination(k: usize) -> (r: (usize, usize, usize))
    requires
        k < 4,
    ensures
        r == combination_spec(k as int),
{
    if k == 0 {
        (0, 1, 2)
    } else if k == 1 {
        (0, 1, 3)
    } else if k == 2 {
        (0, 2, 3)
    } else {
        (1, 2, 3)
    }
}

pub open spec fn key_ints(keys: Seq<u64>) -> Seq<int> {
    keys.map_values(|x: u64| x as int)
}

/// The combination that wins for the four perimeter keys `keys`: the first
/// with the largest key, where that key is above zero; otherwise the first
/// candidate taken three times, as when no triangle has any extent.
pub open spec fn best_combination_spec(keys: Seq<u64>, r: (usize, usize, usize)) -> bool {
    if exists|k: int| 0 <= k < 4 && #[trigger] keys[k] > 0 {
        exists|w: int| is_first_max(key_ints(keys), w) && r == combination_spec(w)
    } else {
        r == (0usize, 0usize, 0usize)
    }
}

/// Picks the combination with the largest perimeter. `keys` holds one key
/// per combination, ordered as the perimeters are (for non-negative
/// floating-point perimeters, their bit patterns); a later equal key does not
/// replace an earlier one, and none replaces the start value of zero.
pub fn best_combination(keys: &Vec<u64>) -> (r: (usize, usize, usize))
    requires
        keys@.len() == 4,
    ensures
        best_combination_spec(keys@, r),
{
    let ghost ks = key_ints(keys@);
    let mut max_key: u64 = 0;
    let mut best: usize = 0;
    let mut found = false;
    let mut k: usize = 0;
    while k < 4
        invariant
            ks == key_ints(keys@),
            keys@.len() == 4,
            k <= 4,
            best < 4,
            found <==> exists|j: int| 0 <= j < k && #[trigger] keys@[j] > 0,
            found ==> is_first_max(ks.take(k as int), best as int) && max_key == keys@[best as int],
            !found ==> max_key == 0 && forall|j: int| 0 <= j < k ==> #[trigger] keys@[j] == 0,
        decreases 4 - k,
    {
        assert(ks.take(k + 1) == ks.take(k as int).push(keys@[k as int] as int));
        if keys[k] > max_key {
            max_key = keys[k];
            best = k;
            found = true;
        }
        k = k + 1;
    }
    assert(ks.take(4) == ks);
    if found {
        combination(best)
    } else {
        (0, 0, 0)
    }
}

/// The trace indices of the triangle that the candidate positions `c` pick
/// out of `extremes`.
pub open spec fn triangle_of(extremes: Seq<(usize, Point)>, c: (usize, usize, usize)) -> (usize, usize, usize) {
    (extremes[c.0 as int].0, extremes[c.1 as int].0, extremes[c.2 as int].0)
}

/// The four candidate triangles, as trace indices, in combination order.
pub fn candidate_triangles(extremes: &Vec<(usize, Point)>) -> (r: Vec<(usize, usize, usize)>)
    requires
        extremes@.len() == 4,
    ensures
        r@.len() == 4,
        forall|k: int| 0 <= k < 4 ==> #[trigger] r@[k] == triangle_of(extremes@, combination_spec(k)),
{
    let mut r: Vec<(usize, usize, usize)> = Vec::new();
    let mut k: usize = 0;
    while k < 4
        invariant
            extremes@.len() == 4,
            k <= 4,
            r@.len() == k,
            forall|j: int| 0 <= j < k ==> #[trigger] r@[j] == triangle_of(extremes@, combination_spec(j)),
        decreases 4 - k,
    {
        let (a, b, c) = combination(k);
        r.push((extremes[a].0, extremes[b].0, extremes[c].0));
        k = k + 1;
    }
    r
}

/// The trace indices of the winning triangle, given the extremal points and
/// one perimeter key per combination.
pub fn best_triangle(extremes: &Vec<(usize, Point)>, keys: &Vec<u64>) -> (r: (usize, usize, usize))
    requires
        extremes@.len() == 4,
        keys@.len() == 4,
    ensures
        exists|c: (usize, usize, usize)| best_combination_spec(keys@, c) && r == triangle_of(extremes@, c),
{
    let c = best_combination(keys);
    (extremes[c.0].0, extremes[c.1].0, extremes[c.2].0)
}

proof fn lemma_first_max_unique(keys: Seq<int>, i: int, j: int)
    requires
        is_first_max(keys, i),
        is_first_max(keys, j),
    ensures
        i == j,
{
    if i < j {
        assert(keys[i] < keys[j]);
        assert(keys[i] <= keys[i]);
    } else if j < i {
        assert(keys[j] < keys[i]);
        assert(keys[j] <= keys[j]);
    }
}

proof fn lemma_first_min_unique(keys: Seq<int>, i: int, j: int)
    requires
        is_first_min(keys, i),
        is_first_min(keys, j),
    ensures
        i == j,
{
    if i < j {
        assert(keys[i] > keys[j]);
        assert(keys[i] >= keys[i]);
    } else if j < i {
        assert(keys[j] > keys[i]);
        assert(keys[j] >= keys[j]);
    }
}

/// A trace has exactly one list of extremal points: whatever the call that
/// produced them, two such lists for the same trace are equal.
pub proof fn lemma_extremes_unique(trace: Seq<Point>, e1: Seq<(usize, Point)>, e2: Seq<(usize, Point)>)
    requires
        is_extremes(trace, e1),
        is_extremes(trace, e2),
    ensures
        e1 == e2,
{
    lemma_first_max_unique(lats(trace), e1[0].0 as int, e2[0].0 as int);
    lemma_first_min_unique(lats(trace), e1[1].0 as int, e2[1].0 as int);
    lemma_first_max_unique(lons(trace), e1[2].0 as int, e2[2].0 as int);
    lemma_first_min_unique(lons(trace), e1[3].0 as int, e2[3].0 as int);
    assert(e1[0] == e2[0] && e1[1] == e2[1] && e1[2] == e2[2] && e1[3] == e2[3]);
    assert(e1 =~= e2);
}

/// The search has one outcome: for the same trace and the same perimeter
/// keys, the extremal points and the winning triangle are always the same.
pub proof fn lemma_search_deterministic(
    trace: Seq<Point>,
    e1: Seq<(usize, Point)>,
    e2: Seq<(usize, Point)>,
    keys: Seq<u64>,
    c1: (usize, usize, usize),
    c2: (usize, usize, usize),
)
    requires
        is_extremes(trace, e1),
        is_extremes(trace, e2),
        keys.len() == 4,
        best_combination_spec(keys, c1),
        best_combination_spec(keys, c2),
    ensures
        e1 == e2,
        c1 == c2,
        triangle_of(e1, c1) == triangle_of(e2, c2),
{
    lemma_extremes_unique(trace, e1, e2);
    if exists|k: int| 0 <= k < 4 && #[trigger] keys[k] > 0 {
        let w1 = choose|w: int| is_first_max(key_ints(keys), w) && c1 == combination_spec(w);
        let w2 = choose|w: int| is_first_max(key_ints(keys), w) && c2 == combination_spec(w);
        lemma_first_max_unique(key_ints(keys), w1, w2);
    }
}

/// When several points share the largest latitude, the one recorded is the
/// earliest of them: a later point of equal latitude is never chosen.
pub proof fn lemma_max_lat_tie_first(trace: Seq<Point>, e: Seq<(usize, Point)>, i: int, j: int)
    requires
        is_extremes(trace, e),
        0 <= i < j < trace.len(),
        trace[i].lat == trace[j].lat,
        forall|k: int| 0 <= k < trace.len() ==> #[trigger] trace[k].lat <= trace[j].lat,
    ensures
        e[0].0 <= i,
        e[0].0 != j,
{
    let m = e[0].0 as int;
    assert(lats(trace)[j] <= lats(trace)[m]);
    assert(lats(trace)[m] <= lats(trace)[j]);
    if m > i {
        assert(lats(trace)[i] < lats(trace)[m]);
    }
}

} // verus!
