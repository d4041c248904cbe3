//! Queries on the world as it stands: the interactions of a collider, the
//! colliders in a region, and the colliders on the way of a ray.

use vstd::prelude::*;
use super::collision::aabb::{boxes_meet, boxes_meet_wide};
use super::collision::collision_graph::{interactions_listed, CollisionInfo, Interaction};
use super::collision::ray::{ray_hit_wide, raycast_at, Ray, Raycast};
use super::object::{BodySet, ColliderHandle, ColliderSet};
use super::vector::Vec2;
use super::world::PhysicsWorld;

verus! {

/// Whether the collider at position `j` of the set is in one of the
/// categories of `mask_bits` and its box, where its body stands, meets the
/// box at `center`.
pub open spec fn overlap_hit<T>(
    bodies: &BodySet,
    colliders: &ColliderSet<T>,
    j: int,
    center: Vec2,
    half_exts: Vec2,
    mask_bits: u32,
) -> bool {
    let collider = colliders.colliders.values()[j];
    let body = bodies.body(collider.owner);
    &&& (collider.category_bits & mask_bits) != 0
    &&& boxes_meet(
        body.position.x + collider.offset.x,
        body.position.y + collider.offset.y,
        collider.shape.half_exts.x as int,
        collider.shape.half_exts.y as int,
        center.x as int,
        center.y as int,
        half_exts.x as int,
        half_exts.y as int,
    )
}

/// The handles of the colliders from position `j` on that the query box
/// hits, in the order of the set.
pub open spec fn overlap_hits<T>(
    bodies: &BodySet,
    colliders: &ColliderSet<T>,
    j: int,
    center: Vec2,
    half_exts: Vec2,
    mask_bits: u32,
) -> Seq<ColliderHandle>
    decreases colliders.colliders.keys().len() - j,
{
    if j < 0 || j >= colliders.colliders.keys().len() {
        Seq::empty()
    } else if overlap_hit(bodies, colliders, j, center, half_exts, mask_bits) {
        seq![ColliderHandle(colliders.colliders.keys()[j])] + overlap_hits(
            bodies,
            colliders,
            j + 1,
            center,
            half_exts,
            mask_bits,
        )
    } else {
        overlap_hits(bodies, colliders, j + 1, center, half_exts, mask_bits)
    }
}

/// The hit of a ray on the collider at position `j` of the set, if the
/// collider is in one of the categories of `mask_bits`.
pub open spec fn ray_hit<T>(
    bodies: &BodySet,
    colliders: &ColliderSet<T>,
    j: int,
    ray: Ray,
    mask_bits: u32,
) -> Option<Raycast> {
    let collider = colliders.colliders.values()[j];
    let body = bodies.body(collider.owner);
    if (collider.category_bits & mask_bits) != 0 {
        raycast_at(
            ray,
            body.position.x + collider.offset.x,
            body.position.y + collider.offset.y,
            collider.shape.half_exts,
        )
    } else {
        None
    }
}

/// The hits of a ray on the colliders from position `j` on, each with the
/// handle of its collider, in the order of the set.
pub open spec fn ray_hits<T>(
    bodies: &BodySet,
    colliders: &ColliderSet<T>,
    j: int,
    ray: Ray,
    mask_bits: u32,
) -> Seq<(ColliderHandle, Raycast)>
    decreases colliders.colliders.keys().len() - j,
{
    if j < 0 || j >= colliders.colliders.keys().len() {
        Seq::empty()
    } else {
        match ray_hit(bodies, colliders, j, ray, mask_bits) {
            Some(hit) => seq![(ColliderHandle(colliders.colliders.keys()[j]), hit)] + ray_hits(
                bodies,
                colliders,
                j + 1,
                ray,
                mask_bits,
            ),
            None => ray_hits(bodies, colliders, j + 1, ray, mask_bits),
        }
    }
}

/// The collisions among the interactions from index `i` on, in their order.
pub open spec fn collisions_among(all: Seq<(ColliderHandle, Interaction)>, i: int) -> Seq<
    (ColliderHandle, CollisionInfo),
>
    decreases all.len() - i,
{
    if i < 0 || i >= all.len() {
        Seq::empty()
    } else {
        match all[i].1 {
            Interaction::Collision(info) => seq![(all[i].0, info)] + collisions_among(all, i + 1),
            Interaction::Overlap => collisions_among(all, i + 1),
        }
    }
}

/// The overlaps among the interactions from index `i` on, in their order.
pub open spec fn overlaps_among(all: Seq<(ColliderHandle, Interaction)>, i: int) -> Seq<
    (ColliderHandle, Interaction),
>
    decreases all.len() - i,
{
    if i < 0 || i >= all.len() {
        Seq::empty()
    } else if all[i].1 == Interaction::Overlap {
        seq![all[i]] + overlaps_among(all, i + 1)
    } else {
        overlaps_among(all, i + 1)
    }
}

impl<T: Copy> PhysicsWorld<T> {
    /// Interactions are defined per collider.
    /// To get only collisions or overlaps use `collisions_of` or `overlaps_of` respectively.
    pub fn interactions_of(&self, handle: ColliderHandle)
        -> (out: Vec<(ColliderHandle, Interaction)>)
        requires
            self.wf(),
        ensures
            exists|order: Seq<int>| #[trigger]
                interactions_listed(self.collision_graph.all_edges(), handle, out@, order),
            out@.len() <= self.collision_graph.all_edges().len(),
    {
        self.collision_graph.edges(handle)
    }

    /// The collisions of a collider: of its interactions, those with a
    /// solid, each with its contact.
    pub fn collisions_of(&self, handle: ColliderHandle)
        -> (out: Vec<(ColliderHandle, CollisionInfo)>)
        requires
            self.wf(),
        ensures
            exists|all: Seq<(ColliderHandle, Interaction)>, order: Seq<int>| #[trigger]
                interactions_listed(self.collision_graph.all_edges(), handle, all, order) && out@
                    == collisions_among(all, 0),
            out@.len() <= self.collision_graph.all_edges().len(),
    {
        let all = self.collision_graph.edges(handle);
        let mut out: Vec<(ColliderHandle, CollisionInfo)> = Vec::new();
        let mut i: usize = 0;
        while i < all.len()
            invariant
                0 <= i <= all@.len(),
                out@.len() <= i,
                out@ + collisions_among(all@, i as int) == collisions_among(all@, 0),
            decreases all@.len() - i,
        {
            let ghost before = out@;
            match all[i].1.collision() {
                Some(info) => {
                    out.push((all[i].0, *info));
                    proof {
                        let one = seq![(all@[i as int].0, *info)];
                        let rest = collisions_among(all@, i + 1);
                        assert(out@ =~= before + one);
                        assert((before + one) + rest =~= before + (one + rest));
                    }
                },
                None => {},
            }
            i += 1;
        }
        proof {
            assert(out@ =~= out@ + collisions_among(all@, all@.len() as int));
        }
        out
    }

    /// The overlaps of a collider: of its interactions, those in which a
    /// sensor takes part.
    pub fn overlaps_of(&self, handle: ColliderHandle) -> (out: Vec<(ColliderHandle, Interaction)>)
        requires
            self.wf(),
        ensures
            exists|all: Seq<(ColliderHandle, Interaction)>, order: Seq<int>| #[trigger]
                interactions_listed(self.collision_graph.all_edges(), handle, all, order) && out@
                    == overlaps_among(all, 0),
            out@.len() <= self.collision_graph.all_edges().len(),
    {
        let all = self.collision_graph.edges(handle);
        let mut out: Vec<(ColliderHandle, Interaction)> = Vec::new();
        let mut i: usize = 0;
        while i < all.len()
            invariant
                0 <= i <= all@.len(),
                out@.len() <= i,
                out@ + overlaps_among(all@, i as int) == overlaps_among(all@, 0),
            decreases all@.len() - i,
        {
            let ghost before = out@;
            if all[i].1.is_overlap() {
                out.push(all[i]);
                proof {
                    let one = seq![all@[i as int]];
                    let rest = overlaps_among(all@, i + 1);
                    assert(out@ =~= before + one);
                    assert((before + one) + rest =~= before + (one + rest));
                }
            }
            i += 1;
        }
        proof {
            assert(out@ =~= out@ + overlaps_among(all@, all@.len() as int));
        }
        out
    }

    /// The colliders, in the order of the set, that are in one of the
    /// categories of `mask_bits` and whose box, where their body stands,
    /// meets the box at `center` with the half extents `half_exts`.
    pub fn overlap_test(&self, center: Vec2, half_exts: Vec2, mask_bits: u32) -> (out: Vec<
        ColliderHandle,
    >)
        requires
            self.wf(),
        ensures
            out@ == overlap_hits(&self.bodies, &self.colliders, 0, center, half_exts, mask_bits),
    {
        let mut out: Vec<ColliderHandle> = Vec::new();
        let n = self.colliders.len();
        let mut j: usize = 0;
        while j < n
            invariant
                0 <= j <= n,
                n == self.colliders.colliders.keys().len(),
                self.wf(),
                out@ + overlap_hits(
                    &self.bodies,
                    &self.colliders,
                    j as int,
                    center,
                    half_exts,
                    mask_bits,
                ) == overlap_hits(&self.bodies, &self.colliders, 0, center, half_exts, mask_bits),
            decreases n - j,
        {
            let ghost before = out@;
            proof {
                self.colliders.colliders.lemma_keys_distinct();
            }
            let collider = self.colliders.colliders.value_at(j);
            if (collider.category_bits & mask_bits) != 0 {
                assert(self.bodies.contains(self.colliders.colliders.values()[j as int].owner));
                match self.bodies.get(collider.owner) {
                    Some(body) => {
                        if boxes_meet_wide(
                            body.position.x as i64 + collider.offset.x as i64,
                            body.position.y as i64 + collider.offset.y as i64,
                            collider.shape.half_exts.x as i64,
                            collider.shape.half_exts.y as i64,
                            center.x as i64,
                            center.y as i64,
                            half_exts.x as i64,
                            half_exts.y as i64,
                        ) {
                            out.push(ColliderHandle(self.colliders.colliders.key_at(j)));
                            proof {
                                let one = seq![ColliderHandle(self.colliders.colliders.keys()[j as int])];
                                let rest = overlap_hits(
                                    &self.bodies,
                                    &self.colliders,
                                    j + 1,
                                    center,
                                    half_exts,
                                    mask_bits,
                                );
                                assert(out@ =~= before + one);
                                assert((before + one) + rest =~= before + (one + rest));
                            }
                        }
                    },
                    None => {},
                }
            }
            j += 1;
        }
        proof {
            assert(out@ =~= out@ + overlap_hits(
                &self.bodies,
                &self.colliders,
                n as int,
                center,
                half_exts,
                mask_bits,
            ));
        }
        out
    }

    /// Every hit of the ray on a collider that is in one of the categories
    /// of `mask_bits`, with the handle of the collider, in the order of the
    /// set. The nearest hit is the one of least `toi`.
    pub fn project_ray(&self, ray: &Ray, mask_bits: u32) -> (out: Vec<(ColliderHandle, Raycast)>)
        requires
            self.wf(),
        ensures
            out@ == ray_hits(&self.bodies, &self.colliders, 0, *ray, mask_bits),
    {
        let mut out: Vec<(ColliderHandle, Raycast)> = Vec::new();
        let n = self.colliders.len();
        let mut j: usize = 0;
        while j < n
            invariant
                0 <= j <= n,
                n == self.colliders.colliders.keys().len(),
                self.wf(),
                out@ + ray_hits(&self.bodies, &self.colliders, j as int, *ray, mask_bits)
                    == ray_hits(
                    &self.bodies,
                    &self.colliders,
                    0,
                    *ray,
                    mask_bits,
                ),
            decreases n - j,
        {
            let ghost before = out@;
            proof {
                self.colliders.colliders.lemma_keys_distinct();
            }
            let collider = self.colliders.colliders.value_at(j);
            if (collider.category_bits & mask_bits) != 0 {
                assert(self.bodies.contains(self.colliders.colliders.values()[j as int].owner));
                match self.bodies.get(collider.owner) {
                    Some(body) => {
                        match ray_hit_wide(
                            ray,
                            body.position.x as i64 + collider.offset.x as i64,
                            body.position.y as i64 + collider.offset.y as i64,
                            collider.shape.half_exts,
                        ) {
                            Some(hit) => {
                                out.push((ColliderHandle(self.colliders.colliders.key_at(j)), hit));
                                proof {
                                    let one = seq![
                                        (ColliderHandle(self.colliders.colliders.keys()[j as int]), hit),
                                    ];
                                    let rest = ray_hits(
                                        &self.bodies,
                                        &self.colliders,
                                        j + 1,
                                        *ray,
                                        mask_bits,
                                    );
                                    assert(out@ =~= before + one);
                                    assert((before + one) + rest =~= before + (one + rest));
                                }
                            },
                            None => {},
                        }
                    },
                    None => {},
                }
            }
            j += 1;
        }
        proof {
            assert(out@ =~= out@ + ray_hits(&self.bodies, &self.colliders, n as int, *ray, mask_bits));
        }
        out
    }
}

} // verus!
