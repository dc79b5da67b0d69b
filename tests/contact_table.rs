use physics_engine::{contact_plan, ColliderType, ContactPlan, ContactRoutine};

fn plan(routine: ContactRoutine, swapped: bool) -> Option<ContactPlan> {
    Some(ContactPlan { routine, swapped })
}

#[test]
fn null_collider_never_touches() {
    let all = [
        ColliderType::NULL,
        ColliderType::SPHERE,
        ColliderType::PLANE,
        ColliderType::MESH,
        ColliderType::ALIGNED_BOX,
    ];
    for kind in all {
        assert_eq!(contact_plan(ColliderType::NULL, kind), None);
        assert_eq!(contact_plan(kind, ColliderType::NULL), None);
    }
}

#[test]
fn plane_pair_has_no_routine() {
    assert_eq!(contact_plan(ColliderType::PLANE, ColliderType::PLANE), None);
}

#[test]
fn canonical_pairs_are_not_swapped() {
    assert_eq!(
        contact_plan(ColliderType::SPHERE, ColliderType::SPHERE),
        plan(ContactRoutine::SphereSphere, false)
    );
    assert_eq!(
        contact_plan(ColliderType::SPHERE, ColliderType::PLANE),
        plan(ContactRoutine::SpherePlane, false)
    );
    assert_eq!(
        contact_plan(ColliderType::SPHERE, ColliderType::MESH),
        plan(ContactRoutine::SphereMesh, false)
    );
    assert_eq!(
        contact_plan(ColliderType::MESH, ColliderType::PLANE),
        plan(ContactRoutine::MeshPlane, false)
    );
    assert_eq!(
        contact_plan(ColliderType::MESH, ColliderType::MESH),
        plan(ContactRoutine::MeshMesh, false)
    );
}

#[test]
fn reversed_pairs_are_swapped() {
    assert_eq!(
        contact_plan(ColliderType::PLANE, ColliderType::SPHERE),
        plan(ContactRoutine::SpherePlane, true)
    );
    assert_eq!(
        contact_plan(ColliderType::MESH, ColliderType::SPHERE),
        plan(ContactRoutine::SphereMesh, true)
    );
    assert_eq!(
        contact_plan(ColliderType::PLANE, ColliderType::MESH),
        plan(ContactRoutine::MeshPlane, true)
    );
}

#[test]
fn aligned_box_has_no_routine() {
    assert_eq!(contact_plan(ColliderType::ALIGNED_BOX, ColliderType::SPHERE), None);
    assert_eq!(contact_plan(ColliderType::PLANE, ColliderType::ALIGNED_BOX), None);
}
