//! One timestamped fix and the time ordering of a trace.
use vstd::prelude::*;

verus! {

/// A fix of the flight path. Coordinates are held exactly, in millionths of
/// a degree: north and east are positive.
#[derive(Clone, Copy, Debug, PartialEq, Eq, Structural)]
pub struct Point {
    /// The record's `HHMMSS` field read as one integer; used for ordering only.
    pub time: usize,
    /// Latitude in millionths of a degree.
    pub lat: i64,
    /// Longitude in millionths of a degree.
    pub lon: i64,
}

/// A trace is ordered when its times never decrease.
pub open spec fn sorted_by_time(s: Seq<Point>) -> bool {
    forall|i: int, j: int| 0 <= i <= j < s.len() ==> s[i].time <= s[j].time
}

/// The points of `s` that carry time `t`, in their order in `s`.
pub open spec fn at_time(s: Seq<Point>, t: usize) -> Seq<Point> {
    s.filter(|p: Point| p.time == t)
}

/// `out` is the stable ordering of `s` by time: ordered, and for each time the
/// points of that time appear in the same order as in `s`.
pub open spec fn is_stable_sort(s: Seq<Point>, out: Seq<Point>) -> bool {
    &&& sorted_by_time(out)
    &&& forall|t: usize| #[trigger] at_time(out, t) == at_time(s, t)
}

/// Inserting `x` right after every point of time `<= x.time` in an ordered
/// sequence appends `x` to the points of its time and leaves the others.
proof fn lemma_insert_at_time(s: Seq<Point>, pos: int, x: Point, t: usize)
    requires
        0 <= pos <= s.len(),
        sorted_by_time(s),
        forall|i: int| 0 <= i < pos ==> s[i].time <= x.time,
        forall|i: int| pos <= i < s.len() ==> s[i].time > x.time,
    ensures
        at_time(s.insert(pos, x), t) == if t == x.time {
            at_time(s, t).push(x)
        } else {
            at_time(s, t)
        },
{
    broadcast use Seq::filter_distributes_over_add, Seq::lemma_filter_push;

    let pred = |p: Point| p.time == t;
    let a = s.subrange(0, pos);
    let b = s.subrange(pos, s.len() as int);
    assert(s == a + b);
    assert(s.insert(pos, x) == a.push(x) + b);
    if t == x.time {
        assert(b.filter(pred) == Seq::<Point>::empty()) by {
            if b.filter(pred).len() > 0 {
                b.lemma_filter_pred(pred, 0);
                assert(b.filter(pred).contains(b.filter(pred)[0]));
                b.lemma_filter_contains_rev(pred, b.filter(pred)[0]);
            }
        }
    }
    assert((a + b).filter(pred) == a.filter(pred) + b.filter(pred));
    assert((a.push(x) + b).filter(pred) == a.push(x).filter(pred) + b.filter(pred));
}

/// Orders `trace` by time, keeping points of equal time in their given order.
pub fn sort_by_time(trace: Vec<Point>) -> (r: Vec<Point>)
    ensures
        is_stable_sort(trace@, r@),
{
    let mut r: Vec<Point> = Vec::new();
    let mut k: usize = 0;
    while k < trace.len()
        invariant
            k <= trace.len(),
            sorted_by_time(r@),
            forall|t: usize| #[trigger] at_time(r@, t) == at_time(trace@.take(k as int), t),
        decreases trace.len() - k,
    {
        let x = trace[k];
        let mut pos: usize = r.len();
        while pos > 0 && r[pos - 1].time > x.time
            invariant
                pos <= r.len(),
                sorted_by_time(r@),
                forall|i: int| pos <= i < r.len() ==> r@[i].time > x.time,
            decreases pos,
        {
            pos = pos - 1;
        }
        assert(forall|i: int| 0 <= i < pos ==> r@[i].time <= x.time) by {
            if pos > 0 {
                assert(r@[pos - 1].time <= x.time);
            }
        }
        let ghost old_r = r@;
        r.insert(pos, x);
        assert forall|t: usize| #[trigger] at_time(r@, t) == at_time(trace@.take(k + 1), t) by {
            lemma_insert_at_time(old_r, pos as int, x, t);
            assert(trace@.take(k + 1) == trace@.take(k as int).push(x));
            trace@.take(k as int).lemma_filter_push(x, |p: Point| p.time == t);
        }
        k = k + 1;
    }
    assert(trace@.take(k as int) == trace@);
    r
}

} // verus!
