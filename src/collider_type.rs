use vstd::prelude::*;

verus! {

/// The kind of a collider.
#[allow(non_camel_case_types)]
#[derive(Clone, Copy, Debug, PartialEq, Eq, Structural)]
pub enum ColliderType {
    /// A pure mass / inertia point that never touches anything.
    NULL,
    /// A sphere: a local center and a radius.
    SPHERE,
    /// An oriented plane; the half-space behind its normal is solid.
    PLANE,
    /// A convex face mesh.
    MESH,
    /// An axis-aligned box in the entity's local space.
    ALIGNED_BOX,
}

/// The canonical narrow-phase routines. Each takes its two primitives in the
/// order of its name.
#[derive(Clone, Copy, Debug, PartialEq, Eq, Structural)]
pub enum ContactRoutine {
    SphereSphere,
    SpherePlane,
    SphereMesh,
    MeshPlane,
    MeshMesh,
}

/// Which routine answers for a pair of colliders, and whether the pair is
/// handed to it in the opposite order (the normal it reports then points
/// off the second collider and has to be negated).
#[derive(Clone, Copy, Debug, PartialEq, Eq, Structural)]
pub struct ContactPlan {
    pub routine: ContactRoutine,
    pub swapped: bool,
}

/// The routine for a pair given in its canonical order, if there is one.
pub open spec fn canonical_routine(first: ColliderType, second: ColliderType) -> Option<ContactRoutine> {
    match (first, second) {
        (ColliderType::SPHERE, ColliderType::SPHERE) => Some(ContactRoutine::SphereSphere),
        (ColliderType::SPHERE, ColliderType::PLANE) => Some(ContactRoutine::SpherePlane),
        (ColliderType::SPHERE, ColliderType::MESH) => Some(ContactRoutine::SphereMesh),
        (ColliderType::MESH, ColliderType::PLANE) => Some(ContactRoutine::MeshPlane),
        (ColliderType::MESH, ColliderType::MESH) => Some(ContactRoutine::MeshMesh),
        _ => None,
    }
}

/// The plan for a pair: the canonical routine when the pair is in its order,
/// else the canonical routine of the reversed pair, marked as swapped.
pub open spec fn plan_spec(first: ColliderType, second: ColliderType) -> Option<ContactPlan> {
    match canonical_routine(first, second) {
        Some(r) => Some(ContactPlan { routine: r, swapped: false }),
        None => match canonical_routine(second, first) {
            Some(r) => Some(ContactPlan { routine: r, swapped: true }),
            None => None,
        },
    }
}

/// Picks the narrow-phase routine for a pair of collider kinds. A null
/// collider, a pair of planes and a box have none.
pub fn contact_plan(first: ColliderType, second: ColliderType) -> (r: Option<ContactPlan>)
    ensures
        r == plan_spec(first, second),
        (first == ColliderType::NULL || second == ColliderType::NULL) ==> r.is_none(),
        (first == ColliderType::PLANE && second == ColliderType::PLANE) ==> r.is_none(),
{
    match (first, second) {
        (ColliderType::SPHERE, ColliderType::SPHERE) => Some(
            ContactPlan { routine: ContactRoutine::SphereSphere, swapped: false },
        ),
        (ColliderType::SPHERE, ColliderType::PLANE) => Some(
            ContactPlan { routine: ContactRoutine::SpherePlane, swapped: false },
        ),
        (ColliderType::PLANE, ColliderType::SPHERE) => Some(
            ContactPlan { routine: ContactRoutine::SpherePlane, swapped: true },
        ),
        (ColliderType::SPHERE, ColliderType::MESH) => Some(
            ContactPlan { routine: ContactRoutine::SphereMesh, swapped: false },
        ),
        (ColliderType::MESH, ColliderType::SPHERE) => Some(
            ContactPlan { routine: ContactRoutine::SphereMesh, swapped: true },
        ),
        (ColliderType::MESH, ColliderType::PLANE) => Some(
            ContactPlan { routine: ContactRoutine::MeshPlane, swapped: false },
        ),
        (ColliderType::PLANE, ColliderType::MESH) => Some(
            ContactPlan { routine: ContactRoutine::MeshPlane, swapped: true },
        ),
        (ColliderType::MESH, ColliderType::MESH) => Some(
            ContactPlan { routine: ContactRoutine::MeshMesh, swapped: false },
        ),
        _ => None,
    }
}

/// Reversing a pair keeps whether it has a routine, and which one; for two
/// different kinds it flips which side is handed over first.
pub proof fn lemma_plan_reversal(first: ColliderType, second: ColliderType)
    ensures
        plan_spec(first, second).is_some() == plan_spec(second, first).is_some(),
        plan_spec(first, second).is_some() ==> plan_spec(first, second).unwrap().routine
            == plan_spec(second, first).unwrap().routine,
        (plan_spec(first, second).is_some() && first != second) ==> plan_spec(
            first,
            second,
        ).unwrap().swapped != plan_spec(second, first).unwrap().swapped,
{
}

} // verus!
