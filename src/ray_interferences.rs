use vstd::prelude::*;

use crate::bounding_sphere::{hits, BoundingSphere};
use crate::bvt::{accepted_ids, lemma_ray_pruning_sound, Bvt, BvtVisitor};
use crate::geometry::Ray;

verus! {

/// A visitor that collects the identifiers of the leaves whose bounding
/// sphere a ray hits, descending only into volumes the ray hits.
pub struct RayInterferencesCollector {
    pub ray: Ray,
    pub collected: Vec<usize>,
}

impl RayInterferencesCollector {
    pub fn new(ray: &Ray) -> (r: RayInterferencesCollector)
        ensures
            r.ray == *ray,
            r.collected@ == Seq::<usize>::empty(),
    {
        RayInterferencesCollector { ray: *ray, collected: Vec::new() }
    }

    /// The identifiers collected so far, in the order they were met.
    pub fn into_collected(self) -> (r: Vec<usize>)
        ensures
            r@ == self.collected@,
    {
        self.collected
    }
}

impl BvtVisitor for RayInterferencesCollector {
    open spec fn inv(&self) -> bool {
        self.ray.in_range()
    }

    open spec fn accepts(&self, bv: BoundingSphere) -> bool {
        hits(bv, self.ray)
    }

    open spec fn reported(&self) -> Seq<usize> {
        self.collected@
    }

    fn visit_volume(&self, bv: &BoundingSphere) -> (r: bool) {
        bv.intersects_ray(&self.ray)
    }

    fn report(&mut self, id: usize) {
        self.collected.push(id);
    }
}

impl Bvt {
    /// The identifiers of the leaves whose bounding sphere `ray` hits, in
    /// left-to-right order: the same as testing every leaf, with pruning.
    pub fn ray_interferences(&self, ray: &Ray) -> (r: Vec<usize>)
        requires
            self.wf(),
            ray.in_range(),
        ensures
            r@ == accepted_ids(self.leaves(), |v: BoundingSphere| hits(v, *ray)),
    {
        let mut collector = RayInterferencesCollector::new(ray);
        let ghost c0 = collector;
        self.visit(&mut collector);
        proof {
            assert((|bv: BoundingSphere| c0.accepts(bv)) =~= (|v: BoundingSphere| hits(v, *ray)));
            if self.root.is_some() {
                lemma_ray_pruning_sound(self.root.unwrap(), *ray);
            }
            assert(Seq::<usize>::empty() + self.visit_order(|v: BoundingSphere| hits(v, *ray))
                == self.visit_order(|v: BoundingSphere| hits(v, *ray)));
        }
        collector.into_collected()
    }
}

} // verus!
