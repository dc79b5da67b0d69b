use physics_engine::{ColliderType, HandleError, SettleStage, World};

#[test]
fn handles_survive_other_changes() {
    let mut world = World::new();
    let first = world.add_entity(false);
    let second = world.add_entity(false);
    assert_ne!(first, second);
    let ball = world.add_collider(ColliderType::SPHERE, false);
    assert!(world.remove_entity(first).is_some());
    let third = world.add_entity(false);
    assert_ne!(third, first);
    assert!(world.contains_entity(second));
    assert!(world.contains_entity(third));
    assert!(!world.contains_entity(first));
    assert!(world.collider(ball).is_some());
    assert_eq!(world.remove_entity(first), None);
    assert_eq!(world.entity_handles().len(), 2);
}

#[test]
fn link_and_unlink_collider() {
    let mut world = World::new();
    let body = world.add_entity(false);
    let other = world.add_entity(false);
    let ball = world.add_collider(ColliderType::SPHERE, false);
    assert_eq!(world.collider(ball).unwrap().entity, None);

    assert_eq!(world.link_collider(ball, Some(body)), Ok(None));
    assert_eq!(world.collider(ball).unwrap().entity, Some(body));
    assert_eq!(world.colliders_of(body), Some(vec![ball]));

    // Linking again to the same entity changes nothing.
    assert_eq!(world.link_collider(ball, Some(body)), Ok(Some(body)));
    assert_eq!(world.colliders_of(body), Some(vec![ball]));

    // Moving it to another entity.
    assert_eq!(world.link_collider(ball, Some(other)), Ok(Some(body)));
    assert_eq!(world.colliders_of(body), Some(vec![]));
    assert_eq!(world.colliders_of(other), Some(vec![ball]));

    // Unlinking.
    assert_eq!(world.link_collider(ball, None), Ok(Some(other)));
    assert_eq!(world.colliders_of(other), Some(vec![]));
    assert_eq!(world.collider(ball).unwrap().entity, None);
}

#[test]
fn link_errors_leave_world_unchanged() {
    let mut world = World::new();
    let body = world.add_entity(false);
    let ball = world.add_collider(ColliderType::SPHERE, false);
    world.link_collider(ball, Some(body)).unwrap();
    let gone = world.add_entity(false);
    world.remove_entity(gone);
    assert_eq!(world.link_collider(ball, Some(gone)), Err(HandleError::MissingEntity));
    assert_eq!(world.collider(ball).unwrap().entity, Some(body));
    let stale = world.add_collider(ColliderType::PLANE, true);
    world.remove_collider(stale).unwrap();
    assert_eq!(world.link_collider(stale, Some(body)), Err(HandleError::MissingCollider));
    assert_eq!(world.remove_collider(stale), Err(HandleError::MissingCollider));
}

#[test]
fn removing_entity_removes_its_colliders() {
    let mut world = World::new();
    let body = world.add_entity(false);
    let a = world.add_collider(ColliderType::SPHERE, false);
    let b = world.add_collider(ColliderType::NULL, false);
    let free = world.add_collider(ColliderType::PLANE, true);
    world.link_collider(a, Some(body)).unwrap();
    world.link_collider(b, Some(body)).unwrap();
    let removed = world.remove_entity(body).unwrap();
    assert_eq!(removed.len(), 2);
    assert!(removed.contains(&a) && removed.contains(&b));
    assert!(world.collider(a).is_none());
    assert!(world.collider(b).is_none());
    assert!(world.collider(free).is_some());
}

#[test]
fn removing_collider_detaches_it() {
    let mut world = World::new();
    let body = world.add_entity(false);
    let a = world.add_collider(ColliderType::SPHERE, false);
    world.link_collider(a, Some(body)).unwrap();
    assert_eq!(world.remove_collider(a), Ok(Some(body)));
    assert_eq!(world.colliders_of(body), Some(vec![]));
}

#[test]
fn infinite_mass_absorbs() {
    let mut world = World::new();
    let body = world.add_entity(false);
    let ball = world.add_collider(ColliderType::SPHERE, false);
    let wall = world.add_collider(ColliderType::PLANE, true);
    world.link_collider(ball, Some(body)).unwrap();
    assert_eq!(world.total_mass_infinite(body), Some(false));
    world.link_collider(wall, Some(body)).unwrap();
    assert_eq!(world.total_mass_infinite(body), Some(true));
    world.link_collider(wall, None).unwrap();
    assert_eq!(world.total_mass_infinite(body), Some(false));
    assert_eq!(world.update_collider(ball, ColliderType::SPHERE, true), Ok(Some(body)));
    assert_eq!(world.total_mass_infinite(body), Some(true));
    assert_eq!(
        world.update_collider(ball, ColliderType::PLANE, true),
        Err(HandleError::KindMismatch)
    );
    world.update_collider(ball, ColliderType::SPHERE, false).unwrap();
    world.set_own_mass_infinite(body, true).unwrap();
    assert_eq!(world.total_mass_infinite(body), Some(true));
}

#[test]
fn settle_stages() {
    let mut world = World::new();
    let body = world.add_entity(false);
    assert_eq!(world.settle(body, true), Ok(SettleStage::Active));
    assert_eq!(world.settle(body, false), Ok(SettleStage::Drowsy { accumulate: false }));
    assert_eq!(world.settle(body, false), Ok(SettleStage::Drowsy { accumulate: true }));
    assert_eq!(world.settle(body, true), Ok(SettleStage::Active));
    assert_eq!(world.settle(body, false), Ok(SettleStage::Drowsy { accumulate: false }));
    world.fall_asleep(body).unwrap();
    assert_eq!(world.is_asleep(body), Some(true));
    assert_eq!(world.settle(body, true), Ok(SettleStage::Asleep));
}

#[test]
fn sleep_edges_are_symmetric_and_skip_pairs() {
    let mut world = World::new();
    let ball = world.add_entity(false);
    let floor = world.add_entity(true);
    let loose = world.add_entity(false);
    world.begin_step();
    world.record_resting_contact(ball, floor).unwrap();
    assert!(!world.resting_pair(ball, floor));
    world.fall_asleep(ball).unwrap();
    assert!(world.resting_pair(ball, floor));
    assert!(world.resting_pair(floor, ball));
    assert!(!world.resting_pair(ball, loose));
    assert_eq!(world.is_asleep(floor), Some(false));
}

#[test]
fn wake_reaches_whole_cluster() {
    let mut world = World::new();
    let floor = world.add_entity(true);
    let bottom = world.add_entity(false);
    let middle = world.add_entity(false);
    let top = world.add_entity(false);
    let apart = world.add_entity(false);
    world.begin_step();
    world.record_resting_contact(bottom, floor).unwrap();
    world.record_resting_contact(middle, bottom).unwrap();
    world.record_resting_contact(top, middle).unwrap();
    for e in [bottom, middle, top, apart] {
        world.fall_asleep(e).unwrap();
    }
    assert!(world.resting_pair(floor, bottom));

    let woken = world.wake(top);
    assert_eq!(woken.len(), 3);
    for e in [bottom, middle, top] {
        assert!(woken.contains(&e));
        assert_eq!(world.is_asleep(e), Some(false));
    }
    assert_eq!(world.is_asleep(apart), Some(true));
    // The floor forgets the woken body, so contacts with it are found again.
    assert!(!world.resting_pair(floor, bottom));
    assert!(!world.resting_pair(top, middle));
}

#[test]
fn wake_of_missing_entity_does_nothing() {
    let mut world = World::new();
    let e = world.add_entity(false);
    world.remove_entity(e);
    assert!(world.wake(e).is_empty());
    assert_eq!(world.record_resting_contact(e, e), Err(HandleError::MissingEntity));
    assert_eq!(world.fall_asleep(e), Err(HandleError::MissingEntity));
    assert_eq!(world.settle(e, false), Err(HandleError::MissingEntity));
}

#[test]
fn bodies_on_one_floor_do_not_wake_each_other() {
    let mut world = World::new();
    let floor = world.add_entity(true);
    let early = world.add_entity(false);
    let late = world.add_entity(false);

    // The early body comes to rest and falls asleep.
    world.begin_step();
    world.record_resting_contact(early, floor).unwrap();
    world.fall_asleep(early).unwrap();
    assert_eq!(world.is_asleep(early), Some(true));

    // The late body lands on the floor: its wake does not pass through the floor.
    world.begin_step();
    let woken = world.wake(late);
    assert_eq!(woken, vec![late]);
    assert_eq!(world.is_asleep(early), Some(true));
    assert!(world.resting_pair(early, floor));

    world.record_resting_contact(late, floor).unwrap();
    world.fall_asleep(late).unwrap();
    assert_eq!(world.is_asleep(late), Some(true));
    assert_eq!(world.is_asleep(early), Some(true));
    assert!(world.resting_pair(late, floor));
    assert!(!world.resting_pair(late, early));
}
