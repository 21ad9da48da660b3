//! Surfaces that a ray can hit, and the list that answers for all of its
//! members with the nearest hit.
use crate::fixed::Fixed;
use crate::hit_record::{hit_view, HitModel, HitRecord};
use crate::ray::{Ray, RayModel};
use crate::sphere::{
    lemma_sphere_hit_in_range, lemma_sphere_hit_shrunk, sphere_hit, Sphere, SphereModel,
};
use vstd::prelude::*;

verus! {

/// A surface that can be asked where a ray meets it.
pub trait Hittable {
    /// What `hit` reports for the ray and the range of its parameter.
    spec fn hit_model(&self, ray: RayModel, t_min: int, t_max: int) -> Option<HitModel>;

    /// The intersection of `ray` with the surface at a parameter between
    /// `t_min` and `t_max`, if there is one.
    fn hit(&self, ray: &Ray, t_min: Fixed, t_max: Fixed) -> (r: Option<HitRecord>)
        ensures
            hit_view(r) == self.hit_model(ray@, t_min@, t_max@),
            r matches Some(rec) ==> rec@.wf() && t_min@ <= rec@.t <= t_max@,
    ;
}

/// What each member of `world` reports for the ray and the range, in the
/// order of the list.
pub open spec fn member_hits(world: Seq<SphereModel>, ray: RayModel, t_min: int, t_max: int)
    -> Seq<Option<HitModel>> {
    Seq::new(world.len(), |i: int| sphere_hit(world[i], ray, t_min, t_max))
}

/// The hit `best` of member `k` is to be preferred to what member `j` reports.
pub open spec fn nearer_or_first(other: Option<HitModel>, j: int, best: Option<HitModel>, k: int)
    -> bool {
    other matches Some(h) ==> best matches Some(b) && (b.t < h.t || (b.t == h.t && k <= j))
}

/// Entry `k` is a hit, no entry is a nearer one, and no entry before `k` is
/// one as near.
pub open spec fn is_nearest(hits: Seq<Option<HitModel>>, k: int) -> bool {
    &&& 0 <= k < hits.len()
    &&& hits[k] is Some
    &&& forall|j: int| 0 <= j < hits.len() ==> nearer_or_first(#[trigger] hits[j], j, hits[k], k)
}

/// Of the hits in `hits` the one with the least parameter, and the first among
/// several such.
pub open spec fn nearest_of(hits: Seq<Option<HitModel>>) -> Option<HitModel> {
    if exists|k: int| is_nearest(hits, k) {
        hits[choose|k: int| is_nearest(hits, k)]
    } else {
        None
    }
}

/// The nearest hit of `ray` among the members of `world`: of their hits within
/// the range the one with the least parameter, and that of the earliest member
/// among several such.
pub open spec fn nearest_hit(world: Seq<SphereModel>, ray: RayModel, t_min: int, t_max: int)
    -> Option<HitModel> {
    nearest_of(member_hits(world, ray, t_min, t_max))
}

/// At most one entry is the nearest.
pub proof fn lemma_nearest_unique(hits: Seq<Option<HitModel>>, k1: int, k2: int)
    requires
        is_nearest(hits, k1),
        is_nearest(hits, k2),
    ensures
        k1 == k2,
{
    assert(nearer_or_first(hits[k2], k2, hits[k1], k1));
    assert(nearer_or_first(hits[k1], k1, hits[k2], k2));
}

/// Among the first `n` entries, either none is a hit or one of them is the
/// nearest of them.
proof fn lemma_nearest_exists(hits: Seq<Option<HitModel>>, n: int)
    requires
        0 <= n <= hits.len(),
    ensures
        (forall|j: int| 0 <= j < n ==> (#[trigger] hits[j]) is None) || exists|k: int|
            is_nearest(hits.take(n), k),
    decreases n,
{
    if n > 0 {
        lemma_nearest_exists(hits, n - 1);
        let prefix = hits.take(n - 1);
        let now = hits.take(n);
        let last = hits[n - 1];
        if exists|k: int| is_nearest(prefix, k) {
            let k = choose|k: int| is_nearest(prefix, k);
            let best = prefix[k];
            if last is Some && last->0.t < best->0.t {
                assert forall|j: int| 0 <= j < now.len() implies nearer_or_first(
                    #[trigger] now[j],
                    j,
                    last,
                    n - 1,
                ) by {
                    if j < n - 1 {
                        assert(nearer_or_first(prefix[j], j, best, k));
                    }
                }
                assert(is_nearest(now, n - 1));
            } else {
                assert forall|j: int| 0 <= j < now.len() implies nearer_or_first(
                    #[trigger] now[j],
                    j,
                    best,
                    k,
                ) by {
                    if j < n - 1 {
                        assert(nearer_or_first(prefix[j], j, best, k));
                    }
                }
                assert(is_nearest(now, k));
            }
        } else if last is Some {
            assert forall|j: int| 0 <= j < now.len() implies nearer_or_first(
                #[trigger] now[j],
                j,
                last,
                n - 1,
            ) by {
                if j < n - 1 {
                    assert(hits[j] is None);
                }
            }
            assert(is_nearest(now, n - 1));
        }
    }
}

/// The nearest of `hits` is none exactly if no entry is a hit; else it is an
/// entry, and no entry is a nearer hit.
pub proof fn lemma_nearest_of_is_minimal(hits: Seq<Option<HitModel>>)
    ensures
        nearest_of(hits) is None <==> forall|j: int|
            0 <= j < hits.len() ==> (#[trigger] hits[j]) is None,
        nearest_of(hits) is Some ==> hits.contains(nearest_of(hits)),
        forall|j: int|
            0 <= j < hits.len() ==> ((#[trigger] hits[j]) matches Some(h) ==> nearest_of(
                hits,
            ) matches Some(best) && best.t <= h.t),
{
    lemma_nearest_exists(hits, hits.len() as int);
    assert(hits.take(hits.len() as int) =~= hits);
    if exists|k: int| is_nearest(hits, k) {
        let k = choose|k: int| is_nearest(hits, k);
        assert forall|j: int| 0 <= j < hits.len() implies ((#[trigger] hits[j]) matches Some(
            h,
        ) ==> nearest_of(hits) matches Some(best) && best.t <= h.t) by {
            assert(nearer_or_first(hits[j], j, hits[k], k));
        }
    }
}

/// The list reports a hit exactly if one of its members does; what it reports
/// is then the hit of a member, and no member reports a nearer one.
pub proof fn lemma_nearest_hit_is_minimal(
    world: Seq<SphereModel>,
    ray: RayModel,
    t_min: int,
    t_max: int,
)
    ensures
        nearest_hit(world, ray, t_min, t_max) is None <==> forall|j: int|
            0 <= j < world.len() ==> (#[trigger] member_hits(world, ray, t_min, t_max)[j]) is None,
        nearest_hit(world, ray, t_min, t_max) is Some ==> member_hits(
            world,
            ray,
            t_min,
            t_max,
        ).contains(nearest_hit(world, ray, t_min, t_max)),
        forall|j: int|
            0 <= j < world.len() ==> ((#[trigger] member_hits(world, ray, t_min, t_max)[j])
                matches Some(h) ==> nearest_hit(world, ray, t_min, t_max) matches Some(best)
                && best.t <= h.t),
{
    lemma_nearest_of_is_minimal(member_hits(world, ray, t_min, t_max));
}

/// Two lists with the same members report hits at the same parameter, in
/// whatever order they hold them: both report none, or both report one, and
/// the two are equally near.
pub proof fn lemma_nearest_hit_order_independent(
    first: Seq<SphereModel>,
    second: Seq<SphereModel>,
    ray: RayModel,
    t_min: int,
    t_max: int,
)
    requires
        forall|i: int| 0 <= i < first.len() ==> second.contains(#[trigger] first[i]),
        forall|i: int| 0 <= i < second.len() ==> first.contains(#[trigger] second[i]),
    ensures
        nearest_hit(first, ray, t_min, t_max) is Some <==> nearest_hit(second, ray, t_min, t_max)
            is Some,
        nearest_hit(first, ray, t_min, t_max) matches Some(a) ==> nearest_hit(
            second,
            ray,
            t_min,
            t_max,
        ) matches Some(b) && a.t == b.t,
{
    let hits1 = member_hits(first, ray, t_min, t_max);
    let hits2 = member_hits(second, ray, t_min, t_max);
    lemma_nearest_of_is_minimal(hits1);
    lemma_nearest_of_is_minimal(hits2);
    lemma_same_members_same_hits(first, second, ray, t_min, t_max);
    lemma_same_members_same_hits(second, first, ray, t_min, t_max);
    let a = nearest_of(hits1);
    let b = nearest_of(hits2);
    if a is Some {
        let i = choose|i: int| 0 <= i < hits1.len() && hits1[i] == a;
        assert(hits2.contains(hits1[i]));
        let j = choose|j: int| 0 <= j < hits2.len() && hits2[j] == a;
        assert(hits2[j] is Some);
    }
    if b is Some {
        let j = choose|j: int| 0 <= j < hits2.len() && hits2[j] == b;
        assert(hits1.contains(hits2[j]));
        let i = choose|i: int| 0 <= i < hits1.len() && hits1[i] == b;
        assert(hits1[i] is Some);
    }
}

/// No two members report different hits at one parameter: of two hits that
/// are equally near, one is the other.
pub open spec fn hits_apart(hits: Seq<Option<HitModel>>) -> bool {
    forall|i: int, j: int|
        0 <= i < hits.len() && 0 <= j < hits.len() ==> ((#[trigger] hits[i]) matches Some(a)
            ==> ((#[trigger] hits[j]) matches Some(b) ==> a.t == b.t ==> a == b))
}

/// Two lists with the same members report the same hit, in whatever order
/// they hold them, where no two members report different hits at one
/// parameter.
pub proof fn lemma_nearest_hit_same_record(
    first: Seq<SphereModel>,
    second: Seq<SphereModel>,
    ray: RayModel,
    t_min: int,
    t_max: int,
)
    requires
        forall|i: int| 0 <= i < first.len() ==> second.contains(#[trigger] first[i]),
        forall|i: int| 0 <= i < second.len() ==> first.contains(#[trigger] second[i]),
        hits_apart(member_hits(first, ray, t_min, t_max)),
    ensures
        nearest_hit(first, ray, t_min, t_max) == nearest_hit(second, ray, t_min, t_max),
{
    let hits1 = member_hits(first, ray, t_min, t_max);
    let hits2 = member_hits(second, ray, t_min, t_max);
    lemma_nearest_hit_order_independent(first, second, ray, t_min, t_max);
    lemma_nearest_of_is_minimal(hits1);
    lemma_nearest_of_is_minimal(hits2);
    lemma_same_members_same_hits(second, first, ray, t_min, t_max);
    let a = nearest_of(hits1);
    let b = nearest_of(hits2);
    if a is Some {
        let i = choose|i: int| 0 <= i < hits1.len() && hits1[i] == a;
        let j = choose|j: int| 0 <= j < hits2.len() && hits2[j] == b;
        assert(hits1.contains(hits2[j]));
        let k = choose|k: int| 0 <= k < hits1.len() && hits1[k] == b;
        assert(hits1[i] is Some && hits1[k] is Some);
        assert(hits1[i]->0.t == hits1[k]->0.t);
        assert(hits1[i] == hits1[k]);
    }
}

/// What a member of `first` reports, some member of `second` reports too, if
/// `second` holds every member of `first`.
proof fn lemma_same_members_same_hits(
    first: Seq<SphereModel>,
    second: Seq<SphereModel>,
    ray: RayModel,
    t_min: int,
    t_max: int,
)
    requires
        forall|i: int| 0 <= i < first.len() ==> second.contains(#[trigger] first[i]),
    ensures
        forall|i: int|
            0 <= i < first.len() ==> member_hits(second, ray, t_min, t_max).contains(
                #[trigger] member_hits(first, ray, t_min, t_max)[i],
            ),
{
    let hits1 = member_hits(first, ray, t_min, t_max);
    let hits2 = member_hits(second, ray, t_min, t_max);
    assert forall|i: int| 0 <= i < first.len() implies hits2.contains(#[trigger] hits1[i]) by {
        assert(second.contains(first[i]));
        let j = choose|j: int| 0 <= j < second.len() && second[j] == first[i];
        assert(hits2[j] == hits1[i]);
    }
}

/// An ordered collection of surfaces.
pub struct HittableList {
    objects: Vec<Sphere>,
}

impl View for HittableList {
    type V = Seq<SphereModel>;

    closed spec fn view(&self) -> Seq<SphereModel> {
        Seq::new(self.objects@.len(), |i: int| self.objects@[i]@)
    }
}

impl HittableList {
    /// The empty list.
    pub fn new() -> (r: HittableList)
        ensures
            r@ == Seq::<SphereModel>::empty(),
    {
        let r = HittableList { objects: Vec::new() };
        assert(r@ =~= Seq::<SphereModel>::empty());
        r
    }

    /// Removes every member.
    pub fn clear(&mut self)
        ensures
            final(self)@ == Seq::<SphereModel>::empty(),
    {
        self.objects.clear();
        assert(self@ =~= Seq::<SphereModel>::empty());
    }

    /// Adds `obj` behind the members that the list holds.
    pub fn add(&mut self, obj: Sphere)
        ensures
            final(self)@ == old(self)@.push(obj@),
    {
        self.objects.push(obj);
        assert(self@ =~= old(self)@.push(obj@));
    }

    /// The number of members.
    pub fn len(&self) -> (r: usize)
        ensures
            r == self@.len(),
    {
        self.objects.len()
    }
}

impl Hittable for HittableList {
    open spec fn hit_model(&self, ray: RayModel, t_min: int, t_max: int) -> Option<HitModel> {
        nearest_hit(self@, ray, t_min, t_max)
    }

    fn hit(&self, ray: &Ray, t_min: Fixed, t_max: Fixed) -> (r: Option<HitRecord>) {
        let ghost world = self@;
        let ghost hits = member_hits(world, ray@, t_min@, t_max@);
        let mut best: Option<HitRecord> = None;
        let mut closest_so_far = t_max;
        let ghost mut best_k: int = 0;
        let mut i: usize = 0;
        while i < self.objects.len()
            invariant
                0 <= i <= self.objects.len(),
                world == self@,
                world.len() == self.objects.len(),
                hits == member_hits(world, ray@, t_min@, t_max@),
                best is None ==> closest_so_far == t_max && forall|j: int|
                    0 <= j < i ==> (#[trigger] hits[j]) is None,
                best matches Some(rec) ==> {
                    &&& 0 <= best_k < i
                    &&& closest_so_far == rec.t
                    &&& rec@.wf()
                    &&& t_min@ <= rec@.t <= t_max@
                    &&& hits[best_k] == Some(rec@)
                    &&& forall|j: int|
                        0 <= j < i ==> nearer_or_first(#[trigger] hits[j], j, Some(rec@), best_k)
                },
            decreases self.objects.len() - i,
        {
            let candidate = self.objects[i].hit(ray, t_min, closest_so_far);
            proof {
                assert(world[i as int] == self.objects@[i as int]@);
                assert(hits[i as int] == sphere_hit(world[i as int], ray@, t_min@, t_max@));
                lemma_sphere_hit_shrunk(world[i as int], ray@, t_min@, closest_so_far@, t_max@);
                lemma_sphere_hit_in_range(world[i as int], ray@, t_min@, t_max@);
            }
            match candidate {
                Some(rec) => {
                    let nearer = match best {
                        Some(_) => rec.t.raw < closest_so_far.raw,
                        None => true,
                    };
                    if nearer {
                        best = Some(rec);
                        closest_so_far = rec.t;
                        proof {
                            best_k = i as int;
                        }
                    }
                },
                None => {},
            }
            i = i + 1;
        }
        proof {
            match best {
                Some(rec) => {
                    assert(is_nearest(hits, best_k));
                    let k = choose|k: int| is_nearest(hits, k);
                    lemma_nearest_unique(hits, k, best_k);
                },
                None => {
                    assert forall|k: int| !is_nearest(hits, k) by {
                        if 0 <= k < hits.len() {
                            assert(hits[k] is None);
                        }
                    }
                },
            }
        }
        best
    }
}

} // verus!
