//! The scene: an ordered collection of spheres queried linearly for the
//! nearest intersection.

use vstd::prelude::*;

use crate::hit::Hit;
use crate::math::{COORD_MAX, T_FAR};
use crate::ray::Ray;
use crate::sphere::{hit_time_m, matches_hit_record, sphere_hits, Sphere};
use crate::vector::bounded_m;

verus! {

/// Some object of the sequence reports a hit for the open interval.
pub open spec fn some_hit(objs: Seq<Sphere>, ray: Ray, t_min: int, t_max: int) -> bool {
    exists|i: int| 0 <= i < objs.len() && sphere_hits(#[trigger] objs[i], ray, t_min, t_max)
}

/// `t` is the time of some reported hit, and no reported hit is earlier.
pub open spec fn is_nearest_time(
    objs: Seq<Sphere>,
    ray: Ray,
    t_min: int,
    t_max: int,
    t: int,
) -> bool {
    &&& exists|i: int|
        0 <= i < objs.len() && sphere_hits(#[trigger] objs[i], ray, t_min, t_max) && hit_time_m(
            objs[i],
            ray,
        ) == t
    &&& forall|j: int|
        0 <= j < objs.len() && sphere_hits(#[trigger] objs[j], ray, t_min, t_max) ==> t
            <= hit_time_m(objs[j], ray)
}

/// `h` is the record the linear shrinking-interval scan returns: a hit
/// of some object, no reported hit earlier, and among equal times the
/// earliest object in the collection.
pub open spec fn nearest_record(objs: Seq<Sphere>, ray: Ray, t_min: int, t_max: int, h: Hit) -> bool {
    &&& t_min < h.time < t_max
    &&& is_nearest_time(objs, ray, t_min, t_max, h.time as int)
    &&& exists|i: int|
        {
            &&& 0 <= i < objs.len()
            &&& sphere_hits(#[trigger] objs[i], ray, t_min, t_max)
            &&& matches_hit_record(h, objs[i], ray)
            &&& forall|j: int|
                0 <= j < i && sphere_hits(#[trigger] objs[j], ray, t_min, t_max) ==> h.time
                    < hit_time_m(objs[j], ray)
        }
}

/// The scene to be rendered.
pub struct World {
    pub objects: Vec<Sphere>,
}

impl World {
    /// Every object of the scene is well formed.
    pub open spec fn wf(self) -> bool {
        forall|i: int| 0 <= i < self.objects.len() ==> (#[trigger] self.objects[i]).wf()
    }

    pub fn new() -> (r: Self)
        ensures
            r.objects@.len() == 0,
            r.wf(),
    {
        World { objects: Vec::new() }
    }

    pub fn push(&mut self, s: Sphere)
        requires
            old(self).wf(),
            s.wf(),
        ensures
            final(self).objects@ == old(self).objects@.push(s),
            final(self).wf(),
    {
        self.objects.push(s);
    }

    /// The nearest hit in the open interval `(t_min, t_max)`: every
    /// object is queried once, with the upper bound shrunk to the best
    /// time found so far, so overlapping objects resolve to the closest
    /// one, and among equal times to the earliest in the collection.
    pub fn hit_nearest(&self, ray: &Ray, t_min: i64, t_max: i64) -> (res: Option<Hit>)
        requires
            self.wf(),
            bounded_m(ray.origin.m(), COORD_MAX as int),
            bounded_m(ray.direction.m(), COORD_MAX as int),
            -(T_FAR as int) <= t_min as int,
            t_max as int <= T_FAR as int,
        ensures
            (res is Some) <==> some_hit(self.objects@, *ray, t_min as int, t_max as int),
            res is Some ==> {
                &&& res->Some_0.material.wf()
                &&& bounded_m(res->Some_0.normal.m(), 65536)
                &&& nearest_record(self.objects@, *ray, t_min as int, t_max as int, res->Some_0)
            },
    {
        let ghost objs = self.objects@;
        let mut best: Option<Hit> = None;
        let mut cur_max: i64 = t_max;
        let ghost mut wi: int = 0;
        let mut k: usize = 0;
        while k < self.objects.len()
            invariant
                self.wf(),
                objs == self.objects@,
                bounded_m(ray.origin.m(), COORD_MAX as int),
                bounded_m(ray.direction.m(), COORD_MAX as int),
                -(T_FAR as int) <= t_min as int,
                t_max as int <= T_FAR as int,
                k <= objs.len(),
                best is None ==> cur_max == t_max && forall|j: int|
                    0 <= j < k ==> !sphere_hits(#[trigger] objs[j], *ray, t_min as int, t_max as int),
                best is Some ==> {
                    &&& 0 <= wi < k
                    &&& sphere_hits(objs[wi], *ray, t_min as int, t_max as int)
                    &&& matches_hit_record(best->Some_0, objs[wi], *ray)
                    &&& cur_max == best->Some_0.time
                    &&& t_min < best->Some_0.time < t_max
                    &&& forall|j: int|
                        0 <= j < k && sphere_hits(#[trigger] objs[j], *ray, t_min as int, t_max as int)
                            ==> best->Some_0.time <= hit_time_m(objs[j], *ray)
                    &&& forall|j: int|
                        0 <= j < wi && sphere_hits(#[trigger] objs[j], *ray, t_min as int, t_max as int)
                            ==> best->Some_0.time < hit_time_m(objs[j], *ray)
                },
            decreases objs.len() - k,
        {
            let obj = &self.objects[k];
            match obj.hit(ray, t_min, cur_max) {
                Some(h) => {
                    proof {
                        wi = k as int;
                    }
                    cur_max = h.time;
                    best = Some(h);
                },
                None => {
                    proof {
                        if sphere_hits(objs[k as int], *ray, t_min as int, t_max as int) {
                            assert(best is Some);
                            assert(hit_time_m(objs[k as int], *ray) >= cur_max);
                        }
                    }
                },
            }
            k += 1;
        }
        best
    }
}

/// An empty scene reports no hit: every ray resolves to the background.
pub proof fn lemma_empty_scene_misses(objs: Seq<Sphere>, ray: Ray, t_min: int, t_max: int)
    requires
        objs.len() == 0,
    ensures
        !some_hit(objs, ray, t_min, t_max),
{
}

/// Querying the same collection of spheres in any order reports a hit
/// for exactly the same rays and intervals, and the nearest time found
/// is the same.
pub proof fn lemma_nearest_order_independent(
    a: Seq<Sphere>,
    b: Seq<Sphere>,
    ray: Ray,
    t_min: int,
    t_max: int,
)
    requires
        a.to_multiset() == b.to_multiset(),
    ensures
        some_hit(a, ray, t_min, t_max) == some_hit(b, ray, t_min, t_max),
        forall|t: int|
            #[trigger] is_nearest_time(a, ray, t_min, t_max, t) == is_nearest_time(
                b,
                ray,
                t_min,
                t_max,
                t,
            ),
{
    a.to_multiset_ensures();
    b.to_multiset_ensures();
    assert forall|x: Sphere| a.contains(x) implies b.contains(x) by {
        assert(a.to_multiset().count(x) > 0);
    }
    assert forall|x: Sphere| b.contains(x) implies a.contains(x) by {
        assert(b.to_multiset().count(x) > 0);
    }
    if some_hit(a, ray, t_min, t_max) {
        let i = choose|i: int| 0 <= i < a.len() && sphere_hits(#[trigger] a[i], ray, t_min, t_max);
        assert(a.contains(a[i]));
        assert(b.contains(a[i]));
        let j = choose|j: int| 0 <= j < b.len() && b[j] == a[i];
        assert(sphere_hits(b[j], ray, t_min, t_max));
    }
    if some_hit(b, ray, t_min, t_max) {
        let i = choose|i: int| 0 <= i < b.len() && sphere_hits(#[trigger] b[i], ray, t_min, t_max);
        assert(b.contains(b[i]));
        assert(a.contains(b[i]));
        let j = choose|j: int| 0 <= j < a.len() && a[j] == b[i];
        assert(sphere_hits(a[j], ray, t_min, t_max));
    }
    assert forall|t: int|
        is_nearest_time(a, ray, t_min, t_max, t) implies is_nearest_time(
        b,
        ray,
        t_min,
        t_max,
        t,
    ) by {
        lemma_nearest_time_transfers(a, b, ray, t_min, t_max, t);
    }
    assert forall|t: int|
        is_nearest_time(b, ray, t_min, t_max, t) implies is_nearest_time(
        a,
        ray,
        t_min,
        t_max,
        t,
    ) by {
        lemma_nearest_time_transfers(b, a, ray, t_min, t_max, t);
    }
}

/// One direction of the order-independence argument, over bare
/// membership.
proof fn lemma_nearest_time_transfers(
    a: Seq<Sphere>,
    b: Seq<Sphere>,
    ray: Ray,
    t_min: int,
    t_max: int,
    t: int,
)
    requires
        forall|x: Sphere| a.contains(x) <==> b.contains(x),
        is_nearest_time(a, ray, t_min, t_max, t),
    ensures
        is_nearest_time(b, ray, t_min, t_max, t),
{
    let i = choose|i: int|
        0 <= i < a.len() && sphere_hits(#[trigger] a[i], ray, t_min, t_max) && hit_time_m(
            a[i],
            ray,
        ) == t;
    assert(a.contains(a[i]));
    assert(b.contains(a[i]));
    let j = choose|j: int| 0 <= j < b.len() && b[j] == a[i];
    assert(sphere_hits(b[j], ray, t_min, t_max) && hit_time_m(b[j], ray) == t);
    assert forall|k: int|
        0 <= k < b.len() && sphere_hits(#[trigger] b[k], ray, t_min, t_max) implies t
        <= hit_time_m(b[k], ray) by {
        assert(b.contains(b[k]));
        assert(a.contains(b[k]));
        let l = choose|l: int| 0 <= l < a.len() && a[l] == b[k];
        assert(sphere_hits(a[l], ray, t_min, t_max));
    }
}

} // verus!
