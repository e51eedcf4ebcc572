//! Ray–object crossings: sorting by distance (stable) and choosing the hit,
//! the nearest crossing at or in front of the ray's origin.

use vstd::prelude::*;
use crate::order::{
    key_of, is_nonneg_key, order_key, is_finite_bits, scaled_value, lemma_key_orders_values,
    lemma_nonneg_key_means_nonnegative,
};

verus! {

broadcast use {vstd::seq_lib::to_multiset_insert, vstd::seq_lib::to_multiset_contains};

/// A ray–object crossing: the ray parameter `t`, held as the bit pattern of
/// the double, and the index of the object that was crossed.
#[derive(Clone, Copy, Debug, PartialEq, Eq, Structural)]
pub struct Intersection {
    pub t_bits: u64,
    pub object: usize,
}

impl Intersection {
    /// The ordering key of this crossing's `t`.
    pub open spec fn key(self) -> u64 {
        key_of(self.t_bits)
    }

    /// Whether this crossing lies at or in front of the ray's origin.
    pub open spec fn in_front(self) -> bool {
        is_nonneg_key(self.key())
    }

    pub fn new(t_bits: u64, object: usize) -> (r: Intersection)
        ensures
            r.t_bits == t_bits,
            r.object == object,
    {
        Intersection { t_bits, object }
    }

    /// The ordering key of `t`.
    pub fn distance_key(&self) -> (r: u64)
        ensures
            r == self.key(),
    {
        order_key(self.t_bits)
    }

    /// Whether `t >= 0`.
    pub fn is_in_front(&self) -> (r: bool)
        ensures
            r == self.in_front(),
    {
        let k = order_key(self.t_bits);
        crate::order::ZERO_KEY <= k && k < crate::order::NAN_KEY
    }

    /// Sorts crossings by ascending `t`, keeping the relative order of equal
    /// distances; NaN distances come last.
    pub fn sort_intersections(intersections: Vec<Intersection>) -> (r: Vec<Intersection>)
        ensures
            sorted_by_distance(r@),
            r@.to_multiset() == intersections@.to_multiset(),
            forall|k: u64| #[trigger] at_distance(r@, k) == at_distance(intersections@, k),
    {
        let mut out: Vec<Intersection> = Vec::new();
        let mut i: usize = 0;
        while i < intersections.len()
            invariant
                i <= intersections.len(),
                sorted_by_distance(out@),
                out@.to_multiset() == intersections@.subrange(0, i as int).to_multiset(),
                forall|k: u64| #[trigger] at_distance(out@, k) == at_distance(intersections@.subrange(0, i as int), k),
            decreases intersections.len() - i,
        {
            let x = intersections[i];
            let k = x.distance_key();
            let mut p: usize = out.len();
            while p > 0 && out[p - 1].distance_key() > k
                invariant
                    p <= out.len(),
                    forall|j: int| p <= j < out.len() ==> #[trigger] out@[j].key() > k,
                decreases p,
            {
                p = p - 1;
            }
            proof {
                if p > 0 {
                    assert(out@[p - 1].key() <= k);
                }
            }
            let ghost before = out@;
            out.insert(p, x);
            proof {
                let s = intersections@.subrange(0, i as int + 1);
                let prefix = intersections@.subrange(0, i as int);
                assert(s == prefix.push(x));
                vstd::seq_lib::to_multiset_build(prefix, x);
                let low = before.subrange(0, p as int);
                let high = before.subrange(p as int, before.len() as int);
                assert(before == low + high);
                assert(out@ == low + seq![x] + high);
                assert forall|k: u64| #[trigger] at_distance(out@, k) == at_distance(s, k) by {
                    lemma_at_distance_split(low, high, x, k);
                    lemma_at_distance_push(prefix, x, k);
                    if k == x.key() {
                        lemma_at_distance_none(high, k);
                    }
                }
            }
            i = i + 1;
        }
        assert(intersections@.subrange(0, intersections.len() as int) == intersections@);
        out
    }

    /// The first crossing of a list that lies at or in front of the ray's
    /// origin. On a list sorted by distance this is the nearest visible one.
    pub fn hit(intersections: Vec<Intersection>) -> (r: Option<Intersection>)
        ensures
            r == hit_of(intersections@),
    {
        let mut i: usize = 0;
        assert(intersections@.subrange(0, intersections.len() as int) == intersections@);
        while i < intersections.len()
            invariant
                i <= intersections.len(),
                hit_of(intersections@) == hit_of(intersections@.subrange(i as int, intersections.len() as int)),
            decreases intersections.len() - i,
        {
            assert(intersections@.subrange(i as int, intersections.len() as int).drop_first()
                == intersections@.subrange(i + 1, intersections.len() as int));
            if intersections[i].is_in_front() {
                return Some(intersections[i]);
            }
            i = i + 1;
        }
        None
    }
}

/// Crossings in ascending order of distance.
pub open spec fn sorted_by_distance(s: Seq<Intersection>) -> bool {
    forall|i: int, j: int| 0 <= i < j < s.len() ==> s[i].key() <= s[j].key()
}

/// The crossings of `s` at the distance whose key is `k`, in order.
pub open spec fn at_distance(s: Seq<Intersection>, k: u64) -> Seq<Intersection> {
    s.filter(|x: Intersection| x.key() == k)
}

proof fn lemma_at_distance_split(low: Seq<Intersection>, high: Seq<Intersection>, x: Intersection, k: u64)
    ensures
        at_distance(low + high, k) == at_distance(low, k) + at_distance(high, k),
        at_distance(low + seq![x] + high, k) == at_distance(low, k) + (if x.key() == k {
            seq![x]
        } else {
            Seq::empty()
        }) + at_distance(high, k),
{
    let pred = |y: Intersection| y.key() == k;
    Seq::filter_distributes_over_add(low, high, pred);
    Seq::filter_distributes_over_add(low + seq![x], high, pred);
    Seq::filter_distributes_over_add(low, seq![x], pred);
    Seq::<Intersection>::empty().lemma_filter_push(x, pred);
    assert(Seq::<Intersection>::empty().push(x) == seq![x]);
    reveal(Seq::filter);
    assert(Seq::<Intersection>::empty().filter(pred) == Seq::<Intersection>::empty());
}

proof fn lemma_at_distance_push(s: Seq<Intersection>, x: Intersection, k: u64)
    ensures
        at_distance(s.push(x), k) == if x.key() == k {
            at_distance(s, k).push(x)
        } else {
            at_distance(s, k)
        },
{
    s.lemma_filter_push(x, |y: Intersection| y.key() == k);
}

proof fn lemma_at_distance_none(s: Seq<Intersection>, k: u64)
    requires
        forall|i: int| 0 <= i < s.len() ==> #[trigger] s[i].key() > k,
    ensures
        at_distance(s, k) == Seq::<Intersection>::empty(),
    decreases s.len(),
{
    reveal(Seq::filter);
    if s.len() > 0 {
        lemma_at_distance_none(s.drop_last(), k);
    }
}

/// The first crossing of `s` at or in front of the ray's origin.
pub open spec fn hit_of(s: Seq<Intersection>) -> Option<Intersection>
    decreases s.len(),
{
    if s.len() == 0 {
        None
    } else if s[0].in_front() {
        Some(s[0])
    } else {
        hit_of(s.drop_first())
    }
}

/// On a list sorted by distance, the hit is the nearest crossing in front of
/// the ray's origin: it is a member of the list, lies in front, and no member
/// in front is nearer. There is no hit exactly when every member lies behind.
pub proof fn lemma_hit_is_nearest(s: Seq<Intersection>)
    requires
        sorted_by_distance(s),
    ensures
        hit_of(s).is_none() <==> (forall|i: int| 0 <= i < s.len() ==> !(#[trigger] s[i]).in_front()),
        hit_of(s) matches Some(h) ==> {
            &&& s.contains(h)
            &&& h.in_front()
            &&& forall|i: int| 0 <= i < s.len() && (#[trigger] s[i]).in_front() ==> h.key() <= s[i].key()
        },
    decreases s.len(),
{
    if s.len() > 0 && !s[0].in_front() {
        let t = s.drop_first();
        lemma_hit_is_nearest(t);
        assert forall|i: int| 0 < i < s.len() implies s[i] == #[trigger] t[i - 1] by {}
        if let Some(h) = hit_of(t) {
            let j = choose|j: int| 0 <= j < t.len() && t[j] == h;
            assert(s[j + 1] == h);
            assert forall|i: int| 0 <= i < s.len() && (#[trigger] s[i]).in_front() implies h.key() <= s[i].key() by {
                assert(t[i - 1] == s[i]);
            }
        }
        if hit_of(t).is_none() {
            assert forall|i: int| 0 <= i < s.len() implies !(#[trigger] s[i]).in_front() by {
                if i > 0 {
                    assert(!t[i - 1].in_front());
                }
            }
        }
    }
    if s.len() > 0 && s[0].in_front() {
        assert(s.contains(s[0]));
    }
}

/// In terms of values: on a sorted list of finite distances, the hit is a
/// member whose `t` is not negative and is the least of all the members'
/// non-negative `t`; there is none exactly when every `t` is negative.
pub proof fn lemma_hit_is_least_nonnegative(s: Seq<Intersection>)
    requires
        sorted_by_distance(s),
        forall|i: int| 0 <= i < s.len() ==> is_finite_bits(#[trigger] s[i].t_bits),
    ensures
        hit_of(s).is_none() <==> (forall|i: int| 0 <= i < s.len() ==> scaled_value(#[trigger] s[i].t_bits) < 0),
        hit_of(s) matches Some(h) ==> {
            &&& s.contains(h)
            &&& scaled_value(h.t_bits) >= 0
            &&& forall|i: int| 0 <= i < s.len() && scaled_value(#[trigger] s[i].t_bits) >= 0
                ==> scaled_value(h.t_bits) <= scaled_value(s[i].t_bits)
        },
{
    lemma_hit_is_nearest(s);
    assert forall|i: int| 0 <= i < s.len() implies s[i].in_front() == (scaled_value(
        #[trigger] s[i].t_bits) >= 0) by {
        lemma_nonneg_key_means_nonnegative(s[i].t_bits);
    }
    if let Some(h) = hit_of(s) {
        let j = choose|j: int| 0 <= j < s.len() && s[j] == h;
        assert(s[j].in_front());
        assert forall|i: int| 0 <= i < s.len() && scaled_value(#[trigger] s[i].t_bits) >= 0
            implies scaled_value(h.t_bits) <= scaled_value(s[i].t_bits) by {
            assert(s[i].in_front());
            lemma_key_orders_values(s[i].t_bits, h.t_bits);
        }
    }
}

/// Sorting first makes the hit independent of the order in which the
/// crossings were gathered: two sorted arrangements of the same crossings
/// both have a hit or both have none, and their hits lie at the same distance.
pub proof fn lemma_hit_order_invariant(a: Seq<Intersection>, b: Seq<Intersection>)
    requires
        sorted_by_distance(a),
        sorted_by_distance(b),
        a.to_multiset() == b.to_multiset(),
    ensures
        hit_of(a).is_some() == hit_of(b).is_some(),
        hit_of(a) matches Some(x) ==> hit_of(b) matches Some(y) && x.key() == y.key(),
{
    lemma_hit_is_nearest(a);
    lemma_hit_is_nearest(b);
    if let Some(x) = hit_of(a) {
        assert(a.to_multiset().count(x) > 0);
        assert(b.contains(x));
        let j = choose|j: int| 0 <= j < b.len() && b[j] == x;
        assert(b[j].in_front());
        let y = hit_of(b).unwrap();
        assert(b.to_multiset().count(y) > 0);
        assert(a.contains(y));
        let k = choose|k: int| 0 <= k < a.len() && a[k] == y;
        assert(a[k].in_front());
    }
    if let Some(y) = hit_of(b) {
        assert(b.to_multiset().count(y) > 0);
        assert(a.contains(y));
        let k = choose|k: int| 0 <= k < a.len() && a[k] == y;
        assert(a[k].in_front());
    }
}

} // verus!
