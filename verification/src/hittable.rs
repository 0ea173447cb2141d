//! Intersection records and the scene: an ordered collection of primitives
//! answering closest-hit queries over a parametric interval.

use vstd::prelude::*;
use crate::fixed::{FX_ONE, FX_WORLD};
use crate::material::Materials;
use crate::ray::Ray;
use crate::sphere::{sphere_hit_s, sphere_wf, Sphere};
use crate::vec3::{bounded_v, dot_v, neg_v, V3, Vec3};

verus! {

/// The mathematical view of an intersection: hit point, oriented normal,
/// ray parameter and the side the ray came from.
pub ghost struct HitS {
    pub p: V3,
    pub normal: V3,
    pub t: int,
    pub front_face: bool,
}

/// A successful intersection: the hit point, the normal oriented against the
/// incoming ray (`front_face` records whether the outward normal was kept),
/// the ray parameter, and a handle to the hit object's material.
pub struct HitRecord {
    pub p: Vec3,
    pub normal: Vec3,
    pub mat: Option<Materials>,
    pub t: i128,
    pub front_face: bool,
}

/// The mathematical view of a hit record, forgetting the material handle.
pub open spec fn hr_view(h: HitRecord) -> HitS {
    HitS { p: h.p@, normal: h.normal@, t: h.t as int, front_face: h.front_face }
}

/// The bounds every record returned by an intersection satisfies: the point
/// within the world box, the normal within two units per component, and the
/// parameter within the world range.
pub open spec fn hit_bounds(h: HitS) -> bool {
    bounded_v(h.p, FX_WORLD as int) && bounded_v(h.normal, 2 * FX_ONE as int) && 0 <= h.t
        <= FX_WORLD as int
}

impl HitRecord {
    /// A blank record: the zero point and normal, no material, parameter zero.
    pub fn empty() -> (r: HitRecord)
        ensures
            hr_view(r) == (HitS {
                p: V3 { x: 0, y: 0, z: 0 },
                normal: V3 { x: 0, y: 0, z: 0 },
                t: 0,
                front_face: false,
            }),
            r.mat.is_none(),
    {
        HitRecord {
            p: Vec3::empty(),
            normal: Vec3::empty(),
            mat: None,
            t: 0,
            front_face: false,
        }
    }

    /// Orients the stored normal against the incoming ray and records which
    /// side was hit: the outward normal is kept exactly when the ray arrives
    /// from outside.
    pub fn set_face_normal(&mut self, r: &Ray, outward_normal: Vec3)
        requires
            bounded_v(r.direction@, 2305843009213693952int),
            bounded_v(outward_normal@, 2305843009213693952int),
        ensures
            final(self).front_face == (dot_v(r.direction@, outward_normal@) < 0),
            final(self).normal@ == (if dot_v(r.direction@, outward_normal@) < 0 {
                outward_normal@
            } else {
                neg_v(outward_normal@)
            }),
            final(self).p == old(self).p,
            final(self).t == old(self).t,
            final(self).mat == old(self).mat,
    {
        self.front_face = Vec3::dot(&r.direction, &outward_normal) < 0;
        self.normal = if self.front_face {
            outward_normal
        } else {
            outward_normal.neg()
        };
    }
}

/// The closed set of primitives.
pub enum HittableEnum {
    Sphere(Sphere),
}

/// What a primitive's intersection answers, as a mathematical value.
pub open spec fn enum_hit_s(h: HittableEnum, o: V3, d: V3, tmin: int, tmax: int) -> Option<
    HitS,
> {
    match h {
        HittableEnum::Sphere(s) => sphere_hit_s(s.center@, s.radius as int, o, d, tmin, tmax),
    }
}

/// The material of a primitive.
pub open spec fn enum_mat(h: HittableEnum) -> Materials {
    match h {
        HittableEnum::Sphere(s) => s.mat,
    }
}

/// A primitive's parameters are in range.
pub open spec fn enum_wf(h: HittableEnum) -> bool {
    match h {
        HittableEnum::Sphere(s) => sphere_wf(s),
    }
}

impl HittableEnum {
    /// The nearest intersection of the ray with this primitive within
    /// `[t_min, t_max]`, or nothing.
    pub fn hit(&self, r: &Ray, t_min: i128, t_max: i128) -> (res: Option<HitRecord>)
        requires
            enum_wf(*self),
            bounded_v(r.origin@, FX_WORLD as int),
            bounded_v(r.direction@, FX_WORLD as int),
            0 <= t_min <= t_max <= FX_WORLD,
        ensures
            match res {
                Some(rec) => {
                    &&& enum_hit_s(*self, r.origin@, r.direction@, t_min as int, t_max as int)
                        == Some(hr_view(rec))
                    &&& rec.mat == Some(enum_mat(*self))
                    &&& crate::material::mat_wf(enum_mat(*self))
                    &&& hit_bounds(hr_view(rec))
                    &&& t_min <= rec.t <= t_max
                },
                None => enum_hit_s(*self, r.origin@, r.direction@, t_min as int, t_max as int)
                    is None,
            },
    {
        match self {
            HittableEnum::Sphere(s) => s.hit(r, t_min, t_max),
        }
    }
}

/// The scene: an ordered collection of primitives, queried linearly for the
/// closest hit.
pub struct HittableList {
    pub objects: Vec<HittableEnum>,
}

/// The closest hit over the primitives from index `i` on, given the best
/// candidate so far and the shrunken upper bound `closest`: the fold the
/// linear scan computes.
pub open spec fn list_hit_s(
    objs: Seq<HittableEnum>,
    i: int,
    o: V3,
    d: V3,
    tmin: int,
    closest: int,
    best: Option<(HitS, Materials)>,
) -> Option<(HitS, Materials)>
    decreases objs.len() - i,
{
    if i < 0 || i >= objs.len() {
        best
    } else {
        match enum_hit_s(objs[i], o, d, tmin, closest) {
            Some(h) => list_hit_s(objs, i + 1, o, d, tmin, h.t, Some((h, enum_mat(objs[i])))),
            None => list_hit_s(objs, i + 1, o, d, tmin, closest, best),
        }
    }
}

/// Every primitive of the scene is in range.
pub open spec fn list_wf(objs: Seq<HittableEnum>) -> bool {
    forall|i: int| 0 <= i < objs.len() ==> enum_wf(#[trigger] objs[i])
}

/// The parameter of a hit, or zero for a miss.
pub open spec fn hit_t(r: Option<(HitS, Materials)>) -> int {
    match r {
        Some(hm) => hm.0.t,
        None => 0,
    }
}

/// The parameter of a primitive's answer, or zero for a miss.
pub open spec fn enum_hit_t(r: Option<HitS>) -> int {
    match r {
        Some(h) => h.t,
        None => 0,
    }
}

/// A primitive's accepted parameter lies in the queried interval.
proof fn lemma_enum_hit_range(h: HittableEnum, o: V3, d: V3, tmin: int, tmax: int)
    ensures
        match enum_hit_s(h, o, d, tmin, tmax) {
            Some(x) => tmin <= x.t <= tmax,
            None => true,
        },
{
    match h {
        HittableEnum::Sphere(sp) => crate::sphere::lemma_sphere_hit_range(
            sp.center@,
            sp.radius as int,
            o,
            d,
            tmin,
            tmax,
        ),
    }
}

/// Shrinking a primitive query's upper bound keeps a hit exactly when its
/// parameter still fits, and cannot conjure a new one.
proof fn lemma_enum_hit_tighter(h: HittableEnum, o: V3, d: V3, tmin: int, cap: int, tmax: int)
    requires
        tmin <= cap <= tmax,
    ensures
        match enum_hit_s(h, o, d, tmin, tmax) {
            Some(x) => enum_hit_s(h, o, d, tmin, cap) == (if x.t <= cap {
                Some(x)
            } else {
                None
            }),
            None => enum_hit_s(h, o, d, tmin, cap) is None,
        },
{
    match h {
        HittableEnum::Sphere(sp) => crate::sphere::lemma_sphere_hit_tighter(
            sp.center@,
            sp.radius as int,
            o,
            d,
            tmin,
            cap,
            tmax,
        ),
    }
}

/// Once the scan holds a candidate, the answer it returns never exceeds the
/// candidate's parameter: later hits only shrink it.
proof fn lemma_list_result_bound(
    objs: Seq<HittableEnum>,
    i: int,
    o: V3,
    d: V3,
    tmin: int,
    closest: int,
    h: HitS,
    m: Materials,
)
    requires
        tmin <= h.t <= closest,
    ensures
        ({
            let r = list_hit_s(objs, i, o, d, tmin, closest, Some((h, m)));
            r is Some && tmin <= hit_t(r) <= closest
        }),
    decreases objs.len() - i,
{
    if 0 <= i < objs.len() {
        lemma_enum_hit_range(objs[i], o, d, tmin, closest);
        match enum_hit_s(objs[i], o, d, tmin, closest) {
            Some(x) => {
                lemma_list_result_bound(objs, i + 1, o, d, tmin, x.t, x, enum_mat(objs[i]));
            },
            None => {
                lemma_list_result_bound(objs, i + 1, o, d, tmin, closest, h, m);
            },
        }
    }
}

/// The scan from index `i` on, holding bound `closest`, answers with a
/// parameter at most that of any full-interval hit of a primitive at or past
/// `i`, provided the bound is itself no better than the current candidate.
proof fn lemma_list_closest(
    objs: Seq<HittableEnum>,
    i: int,
    o: V3,
    d: V3,
    tmin: int,
    tmax: int,
    closest: int,
    best: Option<(HitS, Materials)>,
    j: int,
)
    requires
        0 <= i <= j < objs.len(),
        enum_hit_s(objs[j], o, d, tmin, tmax) is Some,
        tmin <= closest <= tmax,
        match best {
            Some(bm) => tmin <= bm.0.t <= closest && bm.0.t == closest,
            None => closest == tmax,
        },
    ensures
        ({
            let r = list_hit_s(objs, i, o, d, tmin, closest, best);
            r is Some && hit_t(r) <= enum_hit_t(enum_hit_s(objs[j], o, d, tmin, tmax))
        }),
    decreases objs.len() - i,
{
    let hj = enum_hit_s(objs[j], o, d, tmin, tmax)->0;
    lemma_enum_hit_range(objs[j], o, d, tmin, tmax);
    lemma_enum_hit_range(objs[i], o, d, tmin, closest);
    if i == j {
        lemma_enum_hit_tighter(objs[j], o, d, tmin, closest, tmax);
        if hj.t <= closest {
            lemma_list_result_bound(objs, i + 1, o, d, tmin, hj.t, hj, enum_mat(objs[i]));
        } else {
            // the candidate is already strictly better than this hit
            match best {
                Some(bm) => {
                    lemma_list_result_bound(objs, i + 1, o, d, tmin, closest, bm.0, bm.1);
                },
                None => {
                    assert(false);
                },
            }
        }
    } else {
        match enum_hit_s(objs[i], o, d, tmin, closest) {
            Some(x) => {
                lemma_list_closest(objs, i + 1, o, d, tmin, tmax, x.t,
                    Some((x, enum_mat(objs[i]))), j);
            },
            None => {
                lemma_list_closest(objs, i + 1, o, d, tmin, tmax, closest, best, j);
            },
        }
    }
}

/// The scan reports the nearest intersection: whatever parameter any single
/// primitive of the scene reports over the full interval, the scene's answer
/// is a hit at most that far along the ray.
pub proof fn lemma_scene_hit_is_nearest(
    objs: Seq<HittableEnum>,
    o: V3,
    d: V3,
    tmin: int,
    tmax: int,
    j: int,
)
    requires
        0 <= j < objs.len(),
        tmin <= tmax,
        enum_hit_s(objs[j], o, d, tmin, tmax) is Some,
    ensures
        ({
            let r = list_hit_s(objs, 0, o, d, tmin, tmax, None);
            r is Some && hit_t(r) <= enum_hit_t(enum_hit_s(objs[j], o, d, tmin, tmax))
        }),
{
    lemma_list_closest(objs, 0, o, d, tmin, tmax, tmax, None, j);
}

impl HittableList {
    /// An empty scene.
    pub fn new() -> (r: HittableList)
        ensures
            r.objects@.len() == 0,
    {
        HittableList { objects: Vec::new() }
    }

    /// Appends a sphere to the scene.
    pub fn add_sphere(&mut self, sphere: Sphere)
        ensures
            final(self).objects@ == old(self).objects@.push(HittableEnum::Sphere(sphere)),
    {
        self.objects.push(HittableEnum::Sphere(sphere));
    }

    /// The closest intersection of the ray with any primitive within
    /// `[t_min, t_max]`: the linear scan shrinks the upper bound to the best
    /// parameter seen so far, so the record returned is the nearest hit.
    pub fn hit(&self, r: &Ray, t_min: i128, t_max: i128) -> (res: Option<HitRecord>)
        requires
            list_wf(self.objects@),
            bounded_v(r.origin@, FX_WORLD as int),
            bounded_v(r.direction@, FX_WORLD as int),
            0 <= t_min <= t_max <= FX_WORLD,
        ensures
            match res {
                Some(rec) => {
                    &&& rec.mat is Some
                    &&& list_hit_s(
                        self.objects@,
                        0,
                        r.origin@,
                        r.direction@,
                        t_min as int,
                        t_max as int,
                        None,
                    ) == Some((hr_view(rec), rec.mat->0))
                    &&& crate::material::mat_wf(rec.mat->0)
                    &&& hit_bounds(hr_view(rec))
                    &&& t_min <= rec.t <= t_max
                },
                None => list_hit_s(
                    self.objects@,
                    0,
                    r.origin@,
                    r.direction@,
                    t_min as int,
                    t_max as int,
                    None,
                ) is None,
            },
    {
        let ghost objs = self.objects@;
        let mut hit_anything: Option<HitRecord> = None;
        let mut closest_so_far = t_max;
        let n = self.objects.len();
        let mut idx: usize = 0;
        while idx < n
            invariant
                n == objs.len(),
                objs == self.objects@,
                list_wf(objs),
                bounded_v(r.origin@, FX_WORLD as int),
                bounded_v(r.direction@, FX_WORLD as int),
                0 <= t_min <= t_max <= FX_WORLD,
                0 <= idx <= n,
                t_min <= closest_so_far <= t_max,
                match hit_anything {
                    Some(rec) => {
                        &&& rec.mat is Some
                        &&& crate::material::mat_wf(rec.mat->0)
                        &&& rec.t == closest_so_far
                        &&& hit_bounds(hr_view(rec))
                        &&& list_hit_s(
                            objs,
                            0,
                            r.origin@,
                            r.direction@,
                            t_min as int,
                            t_max as int,
                            None,
                        ) == list_hit_s(
                            objs,
                            idx as int,
                            r.origin@,
                            r.direction@,
                            t_min as int,
                            closest_so_far as int,
                            Some((hr_view(rec), rec.mat->0)),
                        )
                    },
                    None => {
                        &&& closest_so_far == t_max
                        &&& list_hit_s(
                            objs,
                            0,
                            r.origin@,
                            r.direction@,
                            t_min as int,
                            t_max as int,
                            None,
                        ) == list_hit_s(
                            objs,
                            idx as int,
                            r.origin@,
                            r.direction@,
                            t_min as int,
                            closest_so_far as int,
                            None,
                        )
                    },
                },
            decreases n - idx,
        {
            let object = &self.objects[idx];
            if let Some(hit) = object.hit(r, t_min, closest_so_far) {
                closest_so_far = hit.t;
                hit_anything = Some(hit);
            }
            idx = idx + 1;
        }
        hit_anything
    }
}

} // verus!
