use vstd::prelude::*;
use generational_arena::Arena;
use crate::arena::{
    collider_slot, collider_slots, entity_handles_of, entity_slot, entity_slots, insert_collider,
    insert_entity, new_collider_arena, new_entity_arena, remove_collider_slot, remove_entity_slot,
    set_collider_slot, set_entity_slot,
};
use crate::collider_type::ColliderType;
use crate::handles::{ColliderHandle, EntityHandle};

verus! {

broadcast use {vstd::seq_lib::lemma_seq_contains_after_push, vstd::seq_lib::seq_to_set_is_finite};

/// The discrete record of an entity.
#[derive(Debug)]
pub struct EntityNode {
    /// The colliders linked to the entity.
    pub colliders: Vec<ColliderHandle>,
    /// The peers it was resting on when it fell asleep; empty while awake.
    pub neighbors: Vec<EntityHandle>,
    /// The peers it came to rest against during the current step.
    pub contacts: Vec<EntityHandle>,
    /// Whether the entity's own point mass is infinite.
    pub own_mass_infinite: bool,
    /// Whether the entity sleeps.
    pub asleep: bool,
    /// Whether the entity has had too little energy since an earlier step.
    pub falling_asleep: bool,
}

/// A copy of a list of handles.
pub(crate) fn copied<T: Copy>(v: &Vec<T>) -> (r: Vec<T>)
    ensures
        r@ == v@,
{
    let mut r: Vec<T> = Vec::new();
    let mut i: usize = 0;
    while i < v.len()
        invariant
            i <= v.len(),
            r@ == v@.subrange(0, i as int),
        decreases v.len() - i,
    {
        r.push(v[i]);
        i += 1;
        assert(r@ =~= v@.subrange(0, i as int));
    }
    assert(r@ =~= v@);
    r
}

/// The list without any copy of `c`.
pub(crate) fn without_collider(v: &Vec<ColliderHandle>, c: ColliderHandle) -> (r: Vec<ColliderHandle>)
    ensures
        forall|x: ColliderHandle| r@.contains(x) <==> (v@.contains(x) && x != c),
{
    let mut r: Vec<ColliderHandle> = Vec::new();
    let mut i: usize = 0;
    while i < v.len()
        invariant
            i <= v.len(),
            forall|x: ColliderHandle|
                r@.contains(x) <==> (v@.subrange(0, i as int).contains(x) && x != c),
        decreases v.len() - i,
    {
        let x = v[i];
        assert(v@.subrange(0, i + 1) =~= v@.subrange(0, i as int).push(x));
        if x != c {
            r.push(x);
        }
        i += 1;
    }
    assert(v@.subrange(0, v.len() as int) =~= v@);
    r
}

/// Whether the list holds `x`.
pub(crate) fn holds_entity(v: &Vec<EntityHandle>, x: EntityHandle) -> (r: bool)
    ensures
        r == v@.contains(x),
{
    let mut i: usize = 0;
    while i < v.len()
        invariant
            i <= v.len(),
            forall|j: int| 0 <= j < i ==> v@[j] != x,
        decreases v.len() - i,
    {
        if v[i] == x {
            return true;
        }
        i += 1;
    }
    false
}

/// The list without any handle that `drop` holds.
pub(crate) fn without_entities(v: &Vec<EntityHandle>, drop: &Vec<EntityHandle>) -> (r: Vec<EntityHandle>)
    ensures
        forall|x: EntityHandle| r@.contains(x) <==> (v@.contains(x) && !drop@.contains(x)),
{
    let mut r: Vec<EntityHandle> = Vec::new();
    let mut i: usize = 0;
    while i < v.len()
        invariant
            i <= v.len(),
            forall|x: EntityHandle|
                r@.contains(x) <==> (v@.subrange(0, i as int).contains(x) && !drop@.contains(x)),
        decreases v.len() - i,
    {
        let x = v[i];
        assert(v@.subrange(0, i + 1) =~= v@.subrange(0, i as int).push(x));
        if !holds_entity(drop, x) {
            r.push(x);
        }
        i += 1;
    }
    assert(v@.subrange(0, v.len() as int) =~= v@);
    r
}

/// A list of distinct handles that all occur in `b` is no longer than `b`.
proof fn lemma_distinct_within(a: Seq<EntityHandle>, b: Seq<EntityHandle>)
    requires
        a.no_duplicates(),
        forall|x: EntityHandle| a.contains(x) ==> b.contains(x),
    ensures
        a.len() <= b.len(),
{
    a.unique_seq_to_set();
    b.lemma_cardinality_of_set();
    assert(a.to_set().subset_of(b.to_set()));
    vstd::set_lib::lemma_len_subset(a.to_set(), b.to_set());
}

/// An entity record seen as sets.
pub struct EntityView {
    pub colliders: Set<ColliderHandle>,
    pub neighbors: Set<EntityHandle>,
    pub contacts: Set<EntityHandle>,
    pub own_mass_infinite: bool,
    pub asleep: bool,
    pub falling_asleep: bool,
}

impl View for EntityNode {
    type V = EntityView;

    open spec fn view(&self) -> EntityView {
        EntityView {
            colliders: Set::new(|c: ColliderHandle| self.colliders@.contains(c)),
            neighbors: Set::new(|e: EntityHandle| self.neighbors@.contains(e)),
            contacts: Set::new(|e: EntityHandle| self.contacts@.contains(e)),
            own_mass_infinite: self.own_mass_infinite,
            asleep: self.asleep,
            falling_asleep: self.falling_asleep,
        }
    }
}

/// The discrete record of a collider.
#[derive(Clone, Copy, Debug, PartialEq, Eq, Structural)]
pub struct ColliderNode {
    /// Its kind; fixed for the collider's life.
    pub kind: ColliderType,
    /// The entity it is linked to, if any.
    pub entity: Option<EntityHandle>,
    /// Whether its mass is infinite (an immovable collider).
    pub infinite_mass: bool,
}

/// Why an operation on the store was refused. A refused operation leaves the
/// store as it was.
#[derive(Clone, Copy, Debug, PartialEq, Eq, Structural)]
pub enum HandleError {
    /// No entity is stored under the handle.
    MissingEntity,
    /// No collider is stored under the handle.
    MissingCollider,
    /// The new description of a collider is of another kind.
    KindMismatch,
}

/// Where an entity stands after a step, before its dwell timer is read.
#[derive(Clone, Copy, Debug, PartialEq, Eq, Structural)]
pub enum SettleStage {
    /// It sleeps; its velocities are to be zeroed.
    Asleep,
    /// Its energy is above the sleep threshold; its dwell timer restarts.
    Active,
    /// Its energy is at or below the threshold. With `accumulate` it was
    /// already falling asleep and the step's duration adds to its dwell
    /// timer; without, the timer starts now.
    Drowsy { accumulate: bool },
}

/// The stage of an entity with record `v`.
pub open spec fn settle_stage(v: EntityView, energy_above: bool) -> SettleStage {
    if v.asleep {
        SettleStage::Asleep
    } else if energy_above {
        SettleStage::Active
    } else {
        SettleStage::Drowsy { accumulate: v.falling_asleep }
    }
}

/// The record once its stage is taken: an awake entity with enough energy
/// stops falling asleep, one without starts (or goes on).
pub open spec fn settled(v: EntityView, energy_above: bool) -> EntityView {
    if v.asleep {
        v
    } else {
        EntityView { falling_asleep: !energy_above, ..v }
    }
}

/// The record with no contacts.
pub open spec fn without_contacts(v: EntityView) -> EntityView {
    EntityView { contacts: Set::empty(), ..v }
}

/// The entities once `a` and `b` have come to rest against each other.
pub open spec fn with_contact(
    m: Map<EntityHandle, EntityView>,
    a: EntityHandle,
    b: EntityHandle,
) -> Map<EntityHandle, EntityView> {
    let m1 = m.insert(a, EntityView { contacts: m[a].contacts.insert(b), ..m[a] });
    m1.insert(b, EntityView { contacts: m1[b].contacts.insert(a), ..m1[b] })
}

/// The record of `k` once `e` has fallen asleep: `e` sleeps with its contacts
/// of the step as neighbors, and each of those lists `e` as a neighbor.
pub open spec fn after_sleep(m: Map<EntityHandle, EntityView>, e: EntityHandle, k: EntityHandle) -> EntityView {
    if k == e {
        EntityView { asleep: true, neighbors: m[e].contacts, ..m[e] }
    } else if m[e].contacts.contains(k) {
        EntityView { neighbors: m[k].neighbors.insert(e), ..m[k] }
    } else {
        m[k]
    }
}

/// The record of a newly added entity.
pub open spec fn fresh_entity(own_mass_infinite: bool) -> EntityView {
    EntityView {
        colliders: Set::empty(),
        neighbors: Set::empty(),
        contacts: Set::empty(),
        own_mass_infinite,
        asleep: false,
        falling_asleep: false,
    }
}

/// The entities after `c` leaves the collider list of `owner`, if any.
pub open spec fn detach(
    m: Map<EntityHandle, EntityView>,
    owner: Option<EntityHandle>,
    c: ColliderHandle,
) -> Map<EntityHandle, EntityView> {
    match owner {
        Some(e) => m.insert(e, m[e].with_colliders(m[e].colliders.remove(c))),
        None => m,
    }
}

/// The entities after `c` joins the collider list of `owner`, if any.
pub open spec fn attach(
    m: Map<EntityHandle, EntityView>,
    owner: Option<EntityHandle>,
    c: ColliderHandle,
) -> Map<EntityHandle, EntityView> {
    match owner {
        Some(e) => m.insert(e, m[e].with_colliders(m[e].colliders.insert(c))),
        None => m,
    }
}

impl EntityView {
    pub open spec fn with_colliders(self, colliders: Set<ColliderHandle>) -> EntityView {
        EntityView { colliders, ..self }
    }

    pub open spec fn with_own_mass_infinite(self, own_mass_infinite: bool) -> EntityView {
        EntityView { own_mass_infinite, ..self }
    }
}

/// The entities and colliders of a world, each under a stable handle, and the
/// links between them.
pub struct World {
    pub(crate) entities: Arena<EntityNode>,
    pub(crate) colliders: Arena<ColliderNode>,
}

impl World {
    pub closed spec fn entity_nodes(&self) -> Map<EntityHandle, EntityNode> {
        entity_slots(self.entities)
    }

    /// The stored entities, by handle.
    pub open spec fn entities(&self) -> Map<EntityHandle, EntityView> {
        Map::new(
            |e: EntityHandle| self.entity_nodes().contains_key(e),
            |e: EntityHandle| self.entity_nodes()[e]@,
        )
    }

    /// The stored colliders, by handle.
    pub closed spec fn colliders(&self) -> Map<ColliderHandle, ColliderNode> {
        collider_slots(self.colliders)
    }

    /// A collider names an entity exactly when that entity lists it.
    pub open spec fn wf(&self) -> bool {
        &&& forall|c: ColliderHandle|
            #![trigger self.colliders()[c]]
            self.colliders().contains_key(c) && self.colliders()[c].entity is Some ==> {
                let e = self.colliders()[c].entity.unwrap();
                self.entities().contains_key(e) && self.entities()[e].colliders.contains(c)
            }
        &&& forall|e: EntityHandle, c: ColliderHandle|
            #![trigger self.entities()[e].colliders.contains(c)]
            self.entities().contains_key(e) && self.entities()[e].colliders.contains(c) ==> {
                &&& self.colliders().contains_key(c)
                &&& self.colliders()[c].entity == Some(e)
            }
    }

    /// Whether the entity's total mass is infinite: its own point mass is, or
    /// one of its linked colliders' masses is (infinity absorbs every sum).
    pub open spec fn mass_infinite(&self, e: EntityHandle) -> bool {
        self.entities()[e].own_mass_infinite || exists|c: ColliderHandle|
            #![trigger self.colliders()[c]]
            self.entities()[e].colliders.contains(c) && self.colliders()[c].infinite_mass
    }

    /// An empty world.
    pub fn new() -> (r: World)
        ensures
            r.wf(),
            r.entities().dom() == Set::<EntityHandle>::empty(),
            r.colliders().dom() == Set::<ColliderHandle>::empty(),
    {
        let r = World { entities: new_entity_arena(), colliders: new_collider_arena() };
        assert(r.entities().dom() =~= Set::<EntityHandle>::empty());
        assert(r.colliders().dom() =~= Set::<ColliderHandle>::empty());
        r
    }

    /// Stores a new entity, awake and without colliders, under a handle that
    /// no stored entity has.
    pub fn add_entity(&mut self, own_mass_infinite: bool) -> (h: EntityHandle)
        requires
            old(self).wf(),
        ensures
            final(self).wf(),
            !old(self).entities().contains_key(h),
            final(self).entities() == old(self).entities().insert(h, fresh_entity(own_mass_infinite)),
            final(self).colliders() == old(self).colliders(),
    {
        let node = EntityNode {
            colliders: Vec::new(),
            neighbors: Vec::new(),
            contacts: Vec::new(),
            own_mass_infinite,
            asleep: false,
            falling_asleep: false,
        };
        let h = insert_entity(&mut self.entities, node);
        assert(node@.colliders =~= Set::empty());
        assert(node@.neighbors =~= Set::empty());
        assert(node@.contacts =~= Set::empty());
        assert(self.entities() =~~= old(self).entities().insert(h, fresh_entity(own_mass_infinite)));
        h
    }

    /// Stores a new collider of the given kind, linked to no entity.
    pub fn add_collider(&mut self, kind: ColliderType, infinite_mass: bool) -> (h: ColliderHandle)
        requires
            old(self).wf(),
        ensures
            final(self).wf(),
            !old(self).colliders().contains_key(h),
            final(self).colliders() == old(self).colliders().insert(
                h,
                ColliderNode { kind, entity: None, infinite_mass },
            ),
            final(self).entities() == old(self).entities(),
    {
        let h = insert_collider(&mut self.colliders, ColliderNode { kind, entity: None, infinite_mass });
        assert(self.entities() =~~= old(self).entities());
        h
    }

    /// Replaces the collider list of a stored entity.
    fn put_colliders(&mut self, e: EntityHandle, list: Vec<ColliderHandle>)
        requires
            old(self).entities().contains_key(e),
        ensures
            final(self).entities() == old(self).entities().insert(
                e,
                old(self).entities()[e].with_colliders(Set::new(|c: ColliderHandle| list@.contains(c))),
            ),
            final(self).colliders() == old(self).colliders(),
    {
        let node = entity_slot(&self.entities, e).unwrap();
        let fresh = EntityNode {
            colliders: list,
            neighbors: copied(&node.neighbors),
            contacts: copied(&node.contacts),
            own_mass_infinite: node.own_mass_infinite,
            asleep: node.asleep,
            falling_asleep: node.falling_asleep,
        };
        set_entity_slot(&mut self.entities, e, fresh);
        assert(fresh@.neighbors =~= old(self).entities()[e].neighbors);
        assert(fresh@.contacts =~= old(self).entities()[e].contacts);
        assert(self.entities() =~~= old(self).entities().insert(
            e,
            old(self).entities()[e].with_colliders(Set::new(|c: ColliderHandle| list@.contains(c))),
        ));
    }

    /// Removes a collider. Its entity, if it has one, no longer lists it.
    /// Returns that entity.
    pub fn remove_collider(&mut self, c: ColliderHandle) -> (r: Result<Option<EntityHandle>, HandleError>)
        requires
            old(self).wf(),
        ensures
            final(self).wf(),
            !old(self).colliders().contains_key(c) ==> {
                &&& r == Err::<Option<EntityHandle>, HandleError>(HandleError::MissingCollider)
                &&& final(self).entities() == old(self).entities()
                &&& final(self).colliders() == old(self).colliders()
            },
            old(self).colliders().contains_key(c) ==> {
                &&& r == Ok::<Option<EntityHandle>, HandleError>(old(self).colliders()[c].entity)
                &&& final(self).colliders() == old(self).colliders().remove(c)
                &&& final(self).entities() == detach(old(self).entities(), old(self).colliders()[c].entity, c)
            },
    {
        let node = match collider_slot(&self.colliders, c) {
            Some(n) => *n,
            None => return Err(HandleError::MissingCollider),
        };
        if let Some(e) = node.entity {
            let list = without_collider(&entity_slot(&self.entities, e).unwrap().colliders, c);
            self.put_colliders(e, list);
            assert(Set::new(|x: ColliderHandle| list@.contains(x)) =~= old(self).entities()[e].colliders.remove(c));
        }
        remove_collider_slot(&mut self.colliders, c);
        proof {
            assert forall|x: ColliderHandle|
                #![trigger self.colliders()[x]]
                self.colliders().contains_key(x) && self.colliders()[x].entity is Some implies {
                    let o = self.colliders()[x].entity.unwrap();
                    self.entities().contains_key(o) && self.entities()[o].colliders.contains(x)
                } by {
                let o = self.colliders()[x].entity.unwrap();
                assert(old(self).colliders()[x] == self.colliders()[x]);
                assert(old(self).entities()[o].colliders.contains(x));
            }
            assert forall|o: EntityHandle, x: ColliderHandle|
                #![trigger self.entities()[o].colliders.contains(x)]
                self.entities().contains_key(o) && self.entities()[o].colliders.contains(x) implies {
                    &&& self.colliders().contains_key(x)
                    &&& self.colliders()[x].entity == Some(o)
                } by {
                assert(old(self).entities()[o].colliders.contains(x));
            }
        }
        Ok(node.entity)
    }

    /// Links a collider to an entity, or unlinks it with `None`. Linking to
    /// the entity it already has changes nothing; linking elsewhere moves it.
    /// Returns the entity it had before.
    pub fn link_collider(&mut self, c: ColliderHandle, target: Option<EntityHandle>) -> (r: Result<
        Option<EntityHandle>,
        HandleError,
    >)
        requires
            old(self).wf(),
        ensures
            final(self).wf(),
            !old(self).colliders().contains_key(c) ==> r == Err::<Option<EntityHandle>, HandleError>(
                HandleError::MissingCollider,
            ),
            old(self).colliders().contains_key(c) && target is Some && !old(self).entities().contains_key(
                target.unwrap(),
            ) ==> r == Err::<Option<EntityHandle>, HandleError>(HandleError::MissingEntity),
            r is Err ==> final(self).entities() == old(self).entities() && final(self).colliders()
                == old(self).colliders(),
            old(self).colliders().contains_key(c) && (target is None || old(self).entities().contains_key(
                target.unwrap(),
            )) ==> {
                let prior = old(self).colliders()[c].entity;
                &&& r == Ok::<Option<EntityHandle>, HandleError>(prior)
                &&& final(self).colliders() == old(self).colliders().insert(
                    c,
                    ColliderNode { entity: target, ..old(self).colliders()[c] },
                )
                &&& final(self).entities() == (if prior == target {
                    old(self).entities()
                } else {
                    attach(detach(old(self).entities(), prior, c), target, c)
                })
            },
    {
        let node = match collider_slot(&self.colliders, c) {
            Some(n) => *n,
            None => return Err(HandleError::MissingCollider),
        };
        if let Some(e) = target {
            if entity_slot(&self.entities, e).is_none() {
                return Err(HandleError::MissingEntity);
            }
        }
        let prior = node.entity;
        if prior == target {
            assert(old(self).colliders().insert(c, ColliderNode { entity: target, ..old(self).colliders()[c] })
                =~= old(self).colliders());
            return Ok(prior);
        }
        if let Some(p) = prior {
            let list = without_collider(&entity_slot(&self.entities, p).unwrap().colliders, c);
            self.put_colliders(p, list);
            assert(Set::new(|x: ColliderHandle| list@.contains(x)) =~= old(self).entities()[p].colliders.remove(c));
        }
        let ghost mid = self.entities();
        assert(mid == detach(old(self).entities(), prior, c));
        if let Some(e) = target {
            assert(self.entities().contains_key(e));
            assert(self.entity_nodes().contains_key(e));
            assert(self.entity_nodes()[e]@ == mid[e]);
            let mut list = copied(&entity_slot(&self.entities, e).unwrap().colliders);
            list.push(c);
            self.put_colliders(e, list);
            assert(Set::new(|x: ColliderHandle| list@.contains(x)) =~= mid[e].colliders.insert(c));
        }
        set_collider_slot(&mut self.colliders, c, ColliderNode { entity: target, ..node });
        proof {
            assert forall|x: ColliderHandle|
                #![trigger self.colliders()[x]]
                self.colliders().contains_key(x) && self.colliders()[x].entity is Some implies {
                    let o = self.colliders()[x].entity.unwrap();
                    self.entities().contains_key(o) && self.entities()[o].colliders.contains(x)
                } by {
                if x != c {
                    let o = self.colliders()[x].entity.unwrap();
                    assert(old(self).colliders()[x] == self.colliders()[x]);
                    assert(old(self).entities()[o].colliders.contains(x));
                }
            }
            assert forall|o: EntityHandle, x: ColliderHandle|
                #![trigger self.entities()[o].colliders.contains(x)]
                self.entities().contains_key(o) && self.entities()[o].colliders.contains(x) implies {
                    &&& self.colliders().contains_key(x)
                    &&& self.colliders()[x].entity == Some(o)
                } by {
                if x != c {
                    assert(old(self).entities()[o].colliders.contains(x));
                }
            }
        }
        Ok(prior)
    }

    /// Records a new description of a collider: its kind must stay, its mass
    /// may change. Returns the entity it is linked to.
    pub fn update_collider(&mut self, c: ColliderHandle, kind: ColliderType, infinite_mass: bool) -> (r:
        Result<Option<EntityHandle>, HandleError>)
        requires
            old(self).wf(),
        ensures
            final(self).wf(),
            final(self).entities() == old(self).entities(),
            !old(self).colliders().contains_key(c) ==> r == Err::<Option<EntityHandle>, HandleError>(
                HandleError::MissingCollider,
            ),
            old(self).colliders().contains_key(c) && old(self).colliders()[c].kind != kind ==> r == Err::<
                Option<EntityHandle>,
                HandleError,
            >(HandleError::KindMismatch),
            r is Err ==> final(self).colliders() == old(self).colliders(),
            old(self).colliders().contains_key(c) && old(self).colliders()[c].kind == kind ==> {
                &&& r == Ok::<Option<EntityHandle>, HandleError>(old(self).colliders()[c].entity)
                &&& final(self).colliders() == old(self).colliders().insert(
                    c,
                    ColliderNode { infinite_mass, ..old(self).colliders()[c] },
                )
            },
    {
        let node = match collider_slot(&self.colliders, c) {
            Some(n) => *n,
            None => return Err(HandleError::MissingCollider),
        };
        if node.kind != kind {
            return Err(HandleError::KindMismatch);
        }
        set_collider_slot(&mut self.colliders, c, ColliderNode { infinite_mass, ..node });
        assert(self.entities() =~~= old(self).entities());
        proof {
            assert forall|x: ColliderHandle|
                #![trigger self.colliders()[x]]
                self.colliders().contains_key(x) && self.colliders()[x].entity is Some implies {
                    let o = self.colliders()[x].entity.unwrap();
                    self.entities().contains_key(o) && self.entities()[o].colliders.contains(x)
                } by {
                assert(old(self).colliders()[x].entity == self.colliders()[x].entity);
            }
            assert forall|o: EntityHandle, x: ColliderHandle|
                #![trigger self.entities()[o].colliders.contains(x)]
                self.entities().contains_key(o) && self.entities()[o].colliders.contains(x) implies {
                    &&& self.colliders().contains_key(x)
                    &&& self.colliders()[x].entity == Some(o)
                } by {
                assert(old(self).entities()[o].colliders.contains(x));
            }
        }
        Ok(node.entity)
    }

    /// Removes an entity and, with it, every collider linked to it. Returns the
    /// handles of those colliders, or `None` when no entity is stored under
    /// the handle.
    pub fn remove_entity(&mut self, e: EntityHandle) -> (r: Option<Vec<ColliderHandle>>)
        requires
            old(self).wf(),
        ensures
            final(self).wf(),
            r is None <==> !old(self).entities().contains_key(e),
            r is None ==> final(self).entities() == old(self).entities() && final(self).colliders()
                == old(self).colliders(),
            r is Some ==> {
                &&& final(self).entities() == old(self).entities().remove(e)
                &&& final(self).colliders() == old(self).colliders().remove_keys(
                    old(self).entities()[e].colliders,
                )
                &&& forall|c: ColliderHandle|
                    r.unwrap()@.contains(c) <==> old(self).entities()[e].colliders.contains(c)
            },
    {
        let node = match remove_entity_slot(&mut self.entities, e) {
            Some(n) => n,
            None => {
                assert(entity_slots(self.entities) =~= entity_slots(old(self).entities));
                assert(self.entities() =~= old(self).entities());
                return None;
            },
        };
        assert(node@ == old(self).entities()[e]);
        let ghost gone = old(self).entities()[e].colliders;
        let mut i: usize = 0;
        while i < node.colliders.len()
            invariant
                i <= node.colliders.len(),
                node@.colliders == gone,
                entity_slots(self.entities) == entity_slots(old(self).entities).remove(e),
                self.colliders() == old(self).colliders().remove_keys(
                    Set::new(|x: ColliderHandle| node.colliders@.subrange(0, i as int).contains(x)),
                ),
            decreases node.colliders.len() - i,
        {
            let c = node.colliders[i];
            remove_collider_slot(&mut self.colliders, c);
            assert(node.colliders@.subrange(0, i + 1) =~= node.colliders@.subrange(0, i as int).push(c));
            i += 1;
            assert(self.colliders() =~= old(self).colliders().remove_keys(
                Set::new(|x: ColliderHandle| node.colliders@.subrange(0, i as int).contains(x)),
            ));
        }
        assert(node.colliders@.subrange(0, i as int) =~= node.colliders@);
        assert(Set::new(|x: ColliderHandle| node.colliders@.subrange(0, i as int).contains(x)) =~= gone);
        assert(self.entities() =~= old(self).entities().remove(e));
        proof {
            assert forall|x: ColliderHandle|
                #![trigger self.colliders()[x]]
                self.colliders().contains_key(x) && self.colliders()[x].entity is Some implies {
                    let o = self.colliders()[x].entity.unwrap();
                    self.entities().contains_key(o) && self.entities()[o].colliders.contains(x)
                } by {
                let o = self.colliders()[x].entity.unwrap();
                assert(old(self).colliders()[x] == self.colliders()[x]);
                assert(old(self).entities()[o].colliders.contains(x));
            }
            assert forall|o: EntityHandle, x: ColliderHandle|
                #![trigger self.entities()[o].colliders.contains(x)]
                self.entities().contains_key(o) && self.entities()[o].colliders.contains(x) implies {
                    &&& self.colliders().contains_key(x)
                    &&& self.colliders()[x].entity == Some(o)
                } by {
                assert(old(self).entities()[o].colliders.contains(x));
                assert(old(self).colliders()[x].entity == Some(o));
            }
        }
        Some(node.colliders)
    }

    /// Records whether an entity's own point mass is infinite.
    pub fn set_own_mass_infinite(&mut self, e: EntityHandle, own_mass_infinite: bool) -> (r: Result<
        (),
        HandleError,
    >)
        requires
            old(self).wf(),
        ensures
            final(self).wf(),
            final(self).colliders() == old(self).colliders(),
            r is Err <==> !old(self).entities().contains_key(e),
            r is Err ==> r == Err::<(), HandleError>(HandleError::MissingEntity) && final(self).entities()
                == old(self).entities(),
            r is Ok ==> final(self).entities() == old(self).entities().insert(
                e,
                old(self).entities()[e].with_own_mass_infinite(own_mass_infinite),
            ),
    {
        let node = match entity_slot(&self.entities, e) {
            Some(n) => n,
            None => return Err(HandleError::MissingEntity),
        };
        let fresh = EntityNode {
            colliders: copied(&node.colliders),
            neighbors: copied(&node.neighbors),
            contacts: copied(&node.contacts),
            own_mass_infinite,
            asleep: node.asleep,
            falling_asleep: node.falling_asleep,
        };
        set_entity_slot(&mut self.entities, e, fresh);
        assert(fresh@.colliders =~= old(self).entities()[e].colliders);
        assert(fresh@.neighbors =~= old(self).entities()[e].neighbors);
        assert(fresh@.contacts =~= old(self).entities()[e].contacts);
        assert(self.entities() =~~= old(self).entities().insert(
            e,
            old(self).entities()[e].with_own_mass_infinite(own_mass_infinite),
        ));
        Ok(())
    }

    /// Whether an entity is stored under the handle.
    pub fn contains_entity(&self, e: EntityHandle) -> (r: bool)
        ensures
            r == self.entities().contains_key(e),
    {
        entity_slot(&self.entities, e).is_some()
    }

    /// The record of the collider stored under the handle, if any.
    pub fn collider(&self, c: ColliderHandle) -> (r: Option<ColliderNode>)
        ensures
            r == (if self.colliders().contains_key(c) {
                Some(self.colliders()[c])
            } else {
                None
            }),
    {
        match collider_slot(&self.colliders, c) {
            Some(n) => Some(*n),
            None => None,
        }
    }

    /// The colliders linked to an entity, if the entity is stored.
    pub fn colliders_of(&self, e: EntityHandle) -> (r: Option<Vec<ColliderHandle>>)
        ensures
            r is Some == self.entities().contains_key(e),
            r is Some ==> forall|c: ColliderHandle|
                r.unwrap()@.contains(c) <==> self.entities()[e].colliders.contains(c),
    {
        match entity_slot(&self.entities, e) {
            Some(n) => Some(copied(&n.colliders)),
            None => None,
        }
    }

    /// Whether an entity sleeps, if it is stored.
    pub fn is_asleep(&self, e: EntityHandle) -> (r: Option<bool>)
        ensures
            r == (if self.entities().contains_key(e) {
                Some(self.entities()[e].asleep)
            } else {
                None
            }),
    {
        match entity_slot(&self.entities, e) {
            Some(n) => Some(n.asleep),
            None => None,
        }
    }

    /// The handles of all stored entities, each once.
    pub fn entity_handles(&self) -> (r: Vec<EntityHandle>)
        ensures
            r@.no_duplicates(),
            forall|e: EntityHandle| r@.contains(e) <==> self.entities().contains_key(e),
    {
        entity_handles_of(&self.entities)
    }

    /// Whether a stored entity's total mass is infinite.
    pub fn total_mass_infinite(&self, e: EntityHandle) -> (r: Option<bool>)
        requires
            self.wf(),
        ensures
            r == (if self.entities().contains_key(e) {
                Some(self.mass_infinite(e))
            } else {
                None
            }),
    {
        let node = match entity_slot(&self.entities, e) {
            Some(n) => n,
            None => return None,
        };
        if node.own_mass_infinite {
            return Some(true);
        }
        let mut i: usize = 0;
        while i < node.colliders.len()
            invariant
                i <= node.colliders.len(),
                node@ == self.entities()[e],
                self.entities().contains_key(e),
                self.wf(),
                forall|j: int|
                    0 <= j < i ==> !self.colliders()[#[trigger] node.colliders@[j]].infinite_mass,
            decreases node.colliders.len() - i,
        {
            let c = node.colliders[i];
            assert(self.entities()[e].colliders.contains(c));
            let cn = collider_slot(&self.colliders, c).unwrap();
            if cn.infinite_mass {
                return Some(true);
            }
            i += 1;
        }
        assert forall|c: ColliderHandle|
            #![trigger self.colliders()[c]]
            self.entities()[e].colliders.contains(c) implies !self.colliders()[c].infinite_mass by {
            let j = node.colliders@.index_of(c);
            assert(node.colliders@[j] == c);
        }
        Some(false)
    }

    /// Waking `m` wakes `n` too: `m` lists `n` as a neighbor, and `n` is a
    /// stored entity of finite mass.
    pub open spec fn wake_edge(&self, m: EntityHandle, n: EntityHandle) -> bool {
        &&& self.entities().contains_key(m)
        &&& self.entities()[m].neighbors.contains(n)
        &&& self.entities().contains_key(n)
        &&& !self.mass_infinite(n)
    }

    /// `n` is `seed` or is reached from it over at most `k` wake edges.
    pub open spec fn reaches(&self, seed: EntityHandle, n: EntityHandle, k: nat) -> bool
        decreases k,
    {
        if k == 0 {
            n == seed
        } else {
            self.reaches(seed, n, (k - 1) as nat) || exists|m: EntityHandle|
                #![trigger self.wake_edge(m, n)]
                self.reaches(seed, m, (k - 1) as nat) && self.wake_edge(m, n)
        }
    }

    /// Waking the stored entity `seed` wakes `n`.
    pub open spec fn wakes_with(&self, seed: EntityHandle, n: EntityHandle) -> bool {
        self.entities().contains_key(seed) && exists|k: nat| self.reaches(seed, n, k)
    }

    /// Every entity that `seed` reaches lies in a list that holds `seed` and is
    /// closed under wake edges.
    proof fn lemma_closed_list_holds_reached(
        &self,
        seed: EntityHandle,
        s: Seq<EntityHandle>,
        n: EntityHandle,
        k: nat,
    )
        requires
            s.contains(seed),
            forall|m: EntityHandle, x: EntityHandle|
                #![trigger s.contains(m), self.wake_edge(m, x)]
                s.contains(m) && self.wake_edge(m, x) ==> s.contains(x),
            self.reaches(seed, n, k),
        ensures
            s.contains(n),
        decreases k,
    {
        if k > 0 {
            if self.reaches(seed, n, (k - 1) as nat) {
                self.lemma_closed_list_holds_reached(seed, s, n, (k - 1) as nat);
            } else {
                let m = choose|m: EntityHandle|
                    #![trigger self.wake_edge(m, n)]
                    self.reaches(seed, m, (k - 1) as nat) && self.wake_edge(m, n);
                self.lemma_closed_list_holds_reached(seed, s, m, (k - 1) as nat);
            }
        }
    }

    /// The entities that waking `seed` wakes, each once, found breadth first.
    fn wake_set(&self, seed: EntityHandle) -> (r: Vec<EntityHandle>)
        requires
            self.wf(),
            self.entities().contains_key(seed),
        ensures
            r@.no_duplicates(),
            forall|n: EntityHandle| r@.contains(n) <==> self.wakes_with(seed, n),
    {
        let all = self.entity_handles();
        let mut visited: Vec<EntityHandle> = Vec::new();
        visited.push(seed);
        assert(self.reaches(seed, seed, 0));
        assert(all@.contains(seed));
        let mut head: usize = 0;
        while head < visited.len()
            invariant
                self.wf(),
                all@.no_duplicates(),
                forall|e: EntityHandle| all@.contains(e) <==> self.entities().contains_key(e),
                head <= visited.len() <= all.len(),
                visited@.no_duplicates(),
                visited@.contains(seed),
                self.entities().contains_key(seed),
                forall|x: EntityHandle|
                    visited@.contains(x) ==> self.entities().contains_key(x) && self.wakes_with(seed, x),
                forall|i: int, n: EntityHandle|
                    #![trigger self.wake_edge(visited@[i], n)]
                    0 <= i < head && self.wake_edge(visited@[i], n) ==> visited@.contains(n),
            decreases all.len() - head,
        {
            let t = visited[head];
            assert(visited@.contains(t));
            assert(self.entity_nodes().contains_key(t));
            let node = entity_slot(&self.entities, t).unwrap();
            assert(node@ == self.entities()[t]);
            let mut j: usize = 0;
            while j < node.neighbors.len()
                invariant
                    self.wf(),
                    all@.no_duplicates(),
                    forall|e: EntityHandle| all@.contains(e) <==> self.entities().contains_key(e),
                    head < visited.len() <= all.len(),
                    j <= node.neighbors.len(),
                    t == visited@[head as int],
                    node@ == self.entities()[t],
                    self.entities().contains_key(t),
                    self.wakes_with(seed, t),
                    visited@.no_duplicates(),
                    visited@.contains(seed),
                    self.entities().contains_key(seed),
                    forall|x: EntityHandle|
                        visited@.contains(x) ==> self.entities().contains_key(x) && self.wakes_with(
                            seed,
                            x,
                        ),
                    forall|i: int, n: EntityHandle|
                        #![trigger self.wake_edge(visited@[i], n)]
                        0 <= i < head && self.wake_edge(visited@[i], n) ==> visited@.contains(n),
                    forall|jj: int|
                        0 <= jj < j && self.wake_edge(t, #[trigger] node.neighbors@[jj])
                            ==> visited@.contains(node.neighbors@[jj]),
                decreases node.neighbors.len() - j,
            {
                let n = node.neighbors[j];
                if self.contains_entity(n) && !holds_entity(&visited, n) {
                    let infinite = self.total_mass_infinite(n).unwrap();
                    if !infinite {
                        proof {
                            lemma_distinct_within(visited@.push(n), all@);
                            let k0 = choose|k0: nat| self.reaches(seed, t, k0);
                            assert(self.wake_edge(t, n));
                            assert(self.reaches(seed, n, k0 + 1));
                            assert(self.wakes_with(seed, n));
                        }
                        visited.push(n);
                    }
                }
                j += 1;
            }
            proof {
                assert forall|n: EntityHandle|
                    #![trigger self.wake_edge(t, n)]
                    self.wake_edge(t, n) implies visited@.contains(n) by {
                    let jj = node.neighbors@.index_of(n);
                    assert(node.neighbors@[jj] == n);
                }
            }
            head += 1;
        }
        proof {
            assert forall|m: EntityHandle, x: EntityHandle|
                #![trigger visited@.contains(m), self.wake_edge(m, x)]
                visited@.contains(m) && self.wake_edge(m, x) implies visited@.contains(x) by {
                let i = visited@.index_of(m);
                assert(self.wake_edge(visited@[i], x));
            }
            assert forall|n: EntityHandle| self.wakes_with(seed, n) implies visited@.contains(n) by {
                let k = choose|k: nat| self.reaches(seed, n, k);
                self.lemma_closed_list_holds_reached(seed, visited@, n, k);
            }
        }
        visited
    }

    /// The record of `k` once `seed` has been woken. Every entity that wakes
    /// with `seed` is awake, no longer falling asleep, and has no neighbors; an
    /// infinite-mass entity, which never wakes this way, forgets the woken
    /// entities as neighbors so that it does not hide contacts with them.
    pub open spec fn after_wake(&self, seed: EntityHandle, k: EntityHandle) -> EntityView {
        let v = self.entities()[k];
        if self.wakes_with(seed, k) {
            EntityView { neighbors: Set::empty(), asleep: false, falling_asleep: false, ..v }
        } else if self.mass_infinite(k) {
            EntityView {
                neighbors: v.neighbors.difference(Set::new(|x: EntityHandle| self.wakes_with(seed, x))),
                ..v
            }
        } else {
            v
        }
    }

    /// Links are kept by any change that keeps the colliders, the stored
    /// entities and their collider lists.
    proof fn lemma_same_links(&self, other: &World)
        requires
            self.wf(),
            other.colliders() == self.colliders(),
            other.entities().dom() == self.entities().dom(),
            forall|k: EntityHandle|
                #![trigger other.entities()[k]]
                self.entities().contains_key(k) ==> other.entities()[k].colliders
                    == self.entities()[k].colliders,
        ensures
            other.wf(),
    {
        assert forall|c: ColliderHandle|
            #![trigger other.colliders()[c]]
            other.colliders().contains_key(c) && other.colliders()[c].entity is Some implies {
                let e = other.colliders()[c].entity.unwrap();
                other.entities().contains_key(e) && other.entities()[e].colliders.contains(c)
            } by {
            let e = other.colliders()[c].entity.unwrap();
            assert(self.colliders()[c] == other.colliders()[c]);
            assert(self.entities().contains_key(e));
            assert(other.entities()[e].colliders == self.entities()[e].colliders);
        }
        assert forall|e: EntityHandle, c: ColliderHandle|
            #![trigger other.entities()[e].colliders.contains(c)]
            other.entities().contains_key(e) && other.entities()[e].colliders.contains(c) implies {
                &&& other.colliders().contains_key(c)
                &&& other.colliders()[c].entity == Some(e)
            } by {
            assert(self.entities().contains_key(e));
            assert(other.entities()[e].colliders == self.entities()[e].colliders);
            assert(self.entities()[e].colliders.contains(c));
        }
    }

    /// Wakes an entity and every entity that wakes with it (see
    /// [`World::after_wake`]). Returns the woken entities.
    pub fn wake(&mut self, seed: EntityHandle) -> (r: Vec<EntityHandle>)
        requires
            old(self).wf(),
        ensures
            final(self).wf(),
            final(self).colliders() == old(self).colliders(),
            final(self).entities().dom() == old(self).entities().dom(),
            forall|k: EntityHandle|
                #![trigger final(self).entities()[k]]
                old(self).entities().contains_key(k) ==> final(self).entities()[k] == old(self).after_wake(seed, k),
            r@.no_duplicates(),
            forall|n: EntityHandle| r@.contains(n) <==> old(self).wakes_with(seed, n),
    {
        if !self.contains_entity(seed) {
            proof {
                assert forall|k: EntityHandle|
                    #![trigger self.entities()[k]]
                    old(self).entities().contains_key(k) implies self.entities()[k] == old(self).after_wake(seed, k) by {
                    assert(self.entities()[k].neighbors.difference(
                        Set::new(|x: EntityHandle| old(self).wakes_with(seed, x)),
                    ) =~= self.entities()[k].neighbors);
                }
            }
            return Vec::new();
        }
        let woken = self.wake_set(seed);
        let all = self.entity_handles();
        let ghost woken_set = Set::new(|x: EntityHandle| old(self).wakes_with(seed, x));
        let mut i: usize = 0;
        while i < all.len()
            invariant
                self.wf(),
                i <= all.len(),
                all@.no_duplicates(),
                forall|e: EntityHandle| all@.contains(e) <==> old(self).entities().contains_key(e),
                forall|n: EntityHandle| woken@.contains(n) <==> old(self).wakes_with(seed, n),
                woken_set == Set::new(|x: EntityHandle| old(self).wakes_with(seed, x)),
                self.colliders() == old(self).colliders(),
                self.entities().dom() == old(self).entities().dom(),
                forall|k: EntityHandle|
                    #![trigger self.entities()[k]]
                    old(self).entities().contains_key(k) ==> self.entities()[k] == (if all@.subrange(
                        0,
                        i as int,
                    ).contains(k) {
                        old(self).after_wake(seed, k)
                    } else {
                        old(self).entities()[k]
                    }),
            decreases all.len() - i,
        {
            let k = all[i];
            let ghost cur = *self;
            assert(all@.contains(k));
            assert(!all@.subrange(0, i as int).contains(k)) by {
                if all@.subrange(0, i as int).contains(k) {
                    let j = all@.subrange(0, i as int).index_of(k);
                    assert(all@[j] == all@[i as int]);
                }
            }
            assert(self.entities()[k] == old(self).entities()[k]);
            assert(self.entity_nodes().contains_key(k));
            let node = entity_slot(&self.entities, k).unwrap();
            assert(node@ == old(self).entities()[k]);
            if holds_entity(&woken, k) {
                let fresh = EntityNode {
                    colliders: copied(&node.colliders),
                    neighbors: Vec::new(),
                    contacts: copied(&node.contacts),
                    own_mass_infinite: node.own_mass_infinite,
                    asleep: false,
                    falling_asleep: false,
                };
                set_entity_slot(&mut self.entities, k, fresh);
                assert(fresh@.colliders =~= node@.colliders);
                assert(fresh@.contacts =~= node@.contacts);
                assert(fresh@.neighbors =~= Set::empty());
                assert(fresh@ == old(self).after_wake(seed, k));
            } else {
                let infinite = self.total_mass_infinite(k).unwrap();
                assert(infinite == old(self).mass_infinite(k));
                if infinite {
                    let fresh = EntityNode {
                        colliders: copied(&node.colliders),
                        neighbors: without_entities(&node.neighbors, &woken),
                        contacts: copied(&node.contacts),
                        own_mass_infinite: node.own_mass_infinite,
                        asleep: node.asleep,
                        falling_asleep: node.falling_asleep,
                    };
                    set_entity_slot(&mut self.entities, k, fresh);
                    assert(fresh@.colliders =~= node@.colliders);
                    assert(fresh@.contacts =~= node@.contacts);
                    assert(fresh@.neighbors =~= node@.neighbors.difference(woken_set));
                    assert(fresh@ == old(self).after_wake(seed, k));
                }
            }
            assert(all@.subrange(0, i + 1) =~= all@.subrange(0, i as int).push(k));
            i += 1;
            proof {
                assert(self.entities().dom() =~= old(self).entities().dom());
                assert forall|x: EntityHandle|
                    #![trigger self.entities()[x]]
                    old(self).entities().contains_key(x) implies self.entities()[x] == (if all@.subrange(
                        0,
                        i as int,
                    ).contains(x) {
                        old(self).after_wake(seed, x)
                    } else {
                        old(self).entities()[x]
                    }) by {
                    if x != k {
                        assert(cur.entities()[x] == self.entities()[x]);
                    }
                }
                cur.lemma_same_links(self);
            }
        }
        assert(all@.subrange(0, all.len() as int) =~= all@);
        woken
    }

    /// Whether contacts between two entities are skipped: one of them lists the
    /// other as a neighbor it rests on.
    pub fn resting_pair(&self, a: EntityHandle, b: EntityHandle) -> (r: bool)
        ensures
            r == ((self.entities().contains_key(a) && self.entities()[a].neighbors.contains(b)) || (
            self.entities().contains_key(b) && self.entities()[b].neighbors.contains(a))),
    {
        let in_a = match entity_slot(&self.entities, a) {
            Some(n) => holds_entity(&n.neighbors, b),
            None => false,
        };
        let in_b = match entity_slot(&self.entities, b) {
            Some(n) => holds_entity(&n.neighbors, a),
            None => false,
        };
        in_a || in_b
    }

    /// Replaces the sleep record of a stored entity: its neighbors, contacts
    /// and flags. Its colliders and its own mass stay.
    fn put_sleep_record(
        &mut self,
        e: EntityHandle,
        neighbors: Vec<EntityHandle>,
        contacts: Vec<EntityHandle>,
        asleep: bool,
        falling_asleep: bool,
    )
        requires
            old(self).wf(),
            old(self).entities().contains_key(e),
        ensures
            final(self).wf(),
            final(self).colliders() == old(self).colliders(),
            final(self).entities() == old(self).entities().insert(
                e,
                EntityView {
                    neighbors: Set::new(|x: EntityHandle| neighbors@.contains(x)),
                    contacts: Set::new(|x: EntityHandle| contacts@.contains(x)),
                    asleep,
                    falling_asleep,
                    ..old(self).entities()[e]
                },
            ),
    {
        let ghost cur = *self;
        let node = entity_slot(&self.entities, e).unwrap();
        let fresh = EntityNode {
            colliders: copied(&node.colliders),
            neighbors,
            contacts,
            own_mass_infinite: node.own_mass_infinite,
            asleep,
            falling_asleep,
        };
        set_entity_slot(&mut self.entities, e, fresh);
        assert(fresh@.colliders =~= old(self).entities()[e].colliders);
        assert(self.entities() =~~= old(self).entities().insert(
            e,
            EntityView {
                neighbors: Set::new(|x: EntityHandle| fresh.neighbors@.contains(x)),
                contacts: Set::new(|x: EntityHandle| fresh.contacts@.contains(x)),
                asleep,
                falling_asleep,
                ..old(self).entities()[e]
            },
        ));
        proof {
            assert(self.entities().dom() =~= cur.entities().dom());
            cur.lemma_same_links(self);
        }
    }

    /// Forgets every entity's contacts of the last step.
    pub fn begin_step(&mut self)
        requires
            old(self).wf(),
        ensures
            final(self).wf(),
            final(self).colliders() == old(self).colliders(),
            final(self).entities().dom() == old(self).entities().dom(),
            forall|k: EntityHandle|
                #![trigger final(self).entities()[k]]
                old(self).entities().contains_key(k) ==> final(self).entities()[k] == without_contacts(
                    old(self).entities()[k],
                ),
    {
        let all = self.entity_handles();
        let mut i: usize = 0;
        while i < all.len()
            invariant
                self.wf(),
                i <= all.len(),
                all@.no_duplicates(),
                forall|e: EntityHandle| all@.contains(e) <==> old(self).entities().contains_key(e),
                self.colliders() == old(self).colliders(),
                self.entities().dom() == old(self).entities().dom(),
                forall|k: EntityHandle|
                    #![trigger self.entities()[k]]
                    old(self).entities().contains_key(k) ==> self.entities()[k] == (if all@.subrange(
                        0,
                        i as int,
                    ).contains(k) {
                        without_contacts(old(self).entities()[k])
                    } else {
                        old(self).entities()[k]
                    }),
            decreases all.len() - i,
        {
            let k = all[i];
            let ghost cur = *self;
            assert(all@.contains(k));
            assert(!all@.subrange(0, i as int).contains(k)) by {
                if all@.subrange(0, i as int).contains(k) {
                    let j = all@.subrange(0, i as int).index_of(k);
                    assert(all@[j] == all@[i as int]);
                }
            }
            assert(self.entity_nodes().contains_key(k));
            let node = entity_slot(&self.entities, k).unwrap();
            let neighbors = copied(&node.neighbors);
            let asleep = node.asleep;
            let falling_asleep = node.falling_asleep;
            self.put_sleep_record(k, neighbors, Vec::new(), asleep, falling_asleep);
            proof {
                assert(Set::new(|x: EntityHandle| neighbors@.contains(x)) =~= cur.entities()[k].neighbors);
                assert(Set::new(|x: EntityHandle| Seq::<EntityHandle>::empty().contains(x)) =~= Set::<
                    EntityHandle,
                >::empty());
            }
            assert(all@.subrange(0, i + 1) =~= all@.subrange(0, i as int).push(k));
            i += 1;
            proof {
                assert(self.entities().dom() =~= old(self).entities().dom());
            }
        }
        assert(all@.subrange(0, all.len() as int) =~= all@);
    }

    /// Adds `y` to the contacts of the stored entity `x`.
    fn add_contact(&mut self, x: EntityHandle, y: EntityHandle)
        requires
            old(self).wf(),
            old(self).entities().contains_key(x),
        ensures
            final(self).wf(),
            final(self).colliders() == old(self).colliders(),
            final(self).entities() == old(self).entities().insert(
                x,
                EntityView { contacts: old(self).entities()[x].contacts.insert(y), ..old(self).entities()[x] },
            ),
    {
        assert(self.entity_nodes().contains_key(x));
        let node = entity_slot(&self.entities, x).unwrap();
        let neighbors = copied(&node.neighbors);
        let mut contacts = copied(&node.contacts);
        if !holds_entity(&contacts, y) {
            contacts.push(y);
        }
        let asleep = node.asleep;
        let falling_asleep = node.falling_asleep;
        self.put_sleep_record(x, neighbors, contacts, asleep, falling_asleep);
        assert(Set::new(|z: EntityHandle| neighbors@.contains(z)) =~= old(self).entities()[x].neighbors);
        assert(Set::new(|z: EntityHandle| contacts@.contains(z)) =~= old(self).entities()[x].contacts.insert(y));
    }

    /// Adds `y` to the neighbors of the stored entity `x`.
    fn add_neighbor(&mut self, x: EntityHandle, y: EntityHandle)
        requires
            old(self).wf(),
            old(self).entities().contains_key(x),
        ensures
            final(self).wf(),
            final(self).colliders() == old(self).colliders(),
            final(self).entities() == old(self).entities().insert(
                x,
                EntityView { neighbors: old(self).entities()[x].neighbors.insert(y), ..old(self).entities()[x] },
            ),
    {
        assert(self.entity_nodes().contains_key(x));
        let node = entity_slot(&self.entities, x).unwrap();
        let mut neighbors = copied(&node.neighbors);
        let contacts = copied(&node.contacts);
        if !holds_entity(&neighbors, y) {
            neighbors.push(y);
        }
        let asleep = node.asleep;
        let falling_asleep = node.falling_asleep;
        self.put_sleep_record(x, neighbors, contacts, asleep, falling_asleep);
        assert(Set::new(|z: EntityHandle| neighbors@.contains(z)) =~= old(self).entities()[x].neighbors.insert(y));
        assert(Set::new(|z: EntityHandle| contacts@.contains(z)) =~= old(self).entities()[x].contacts);
    }

    /// Records that `a` and `b` are left in contact: each becomes a contact of
    /// the other for this step.
    pub fn record_resting_contact(&mut self, a: EntityHandle, b: EntityHandle) -> (r: Result<(), HandleError>)
        requires
            old(self).wf(),
        ensures
            final(self).wf(),
            final(self).colliders() == old(self).colliders(),
            r is Err <==> !(old(self).entities().contains_key(a) && old(self).entities().contains_key(b)),
            r is Err ==> r == Err::<(), HandleError>(HandleError::MissingEntity) && final(self).entities()
                == old(self).entities(),
            r is Ok ==> final(self).entities() == with_contact(old(self).entities(), a, b),
    {
        if !self.contains_entity(a) || !self.contains_entity(b) {
            return Err(HandleError::MissingEntity);
        }
        self.add_contact(a, b);
        self.add_contact(b, a);
        Ok(())
    }

    /// Takes the settle stage of an entity after a step, given whether its
    /// energy is above the sleep threshold, and records whether it is now
    /// falling asleep.
    pub fn settle(&mut self, e: EntityHandle, energy_above: bool) -> (r: Result<SettleStage, HandleError>)
        requires
            old(self).wf(),
        ensures
            final(self).wf(),
            final(self).colliders() == old(self).colliders(),
            !old(self).entities().contains_key(e) ==> r == Err::<SettleStage, HandleError>(
                HandleError::MissingEntity,
            ) && final(self).entities() == old(self).entities(),
            old(self).entities().contains_key(e) ==> {
                &&& r == Ok::<SettleStage, HandleError>(settle_stage(old(self).entities()[e], energy_above))
                &&& final(self).entities() == old(self).entities().insert(
                    e,
                    settled(old(self).entities()[e], energy_above),
                )
            },
    {
        let node = match entity_slot(&self.entities, e) {
            Some(n) => n,
            None => return Err(HandleError::MissingEntity),
        };
        if node.asleep {
            assert(old(self).entities().insert(e, old(self).entities()[e]) =~= old(self).entities());
            return Ok(SettleStage::Asleep);
        }
        let stage = if energy_above {
            SettleStage::Active
        } else {
            SettleStage::Drowsy { accumulate: node.falling_asleep }
        };
        let neighbors = copied(&node.neighbors);
        let contacts = copied(&node.contacts);
        self.put_sleep_record(e, neighbors, contacts, false, !energy_above);
        assert(Set::new(|z: EntityHandle| neighbors@.contains(z)) =~= old(self).entities()[e].neighbors);
        assert(Set::new(|z: EntityHandle| contacts@.contains(z)) =~= old(self).entities()[e].contacts);
        Ok(stage)
    }

    /// Puts an entity to sleep: its contacts of this step become its
    /// neighbors, and it becomes a neighbor of each of them.
    pub fn fall_asleep(&mut self, e: EntityHandle) -> (r: Result<(), HandleError>)
        requires
            old(self).wf(),
        ensures
            final(self).wf(),
            final(self).colliders() == old(self).colliders(),
            r is Err <==> !old(self).entities().contains_key(e),
            r is Err ==> r == Err::<(), HandleError>(HandleError::MissingEntity) && final(self).entities()
                == old(self).entities(),
            r is Ok ==> {
                &&& final(self).entities().dom() == old(self).entities().dom()
                &&& forall|k: EntityHandle|
                    #![trigger final(self).entities()[k]]
                    old(self).entities().contains_key(k) ==> final(self).entities()[k] == after_sleep(
                        old(self).entities(),
                        e,
                        k,
                    )
            },
    {
        let node = match entity_slot(&self.entities, e) {
            Some(n) => n,
            None => return Err(HandleError::MissingEntity),
        };
        let contacts = copied(&node.contacts);
        let neighbors = copied(&node.contacts);
        let keep = copied(&node.contacts);
        let falling_asleep = node.falling_asleep;
        self.put_sleep_record(e, neighbors, keep, true, falling_asleep);
        assert(Set::new(|z: EntityHandle| keep@.contains(z)) =~= old(self).entities()[e].contacts);
        assert(Set::new(|z: EntityHandle| neighbors@.contains(z)) =~= old(self).entities()[e].contacts);
        let ghost m = old(self).entities();
        let mut j: usize = 0;
        while j < contacts.len()
            invariant
                self.wf(),
                j <= contacts.len(),
                contacts@ == node.contacts@,
                m == old(self).entities(),
                m.contains_key(e),
                forall|x: EntityHandle| contacts@.contains(x) <==> m[e].contacts.contains(x),
                self.colliders() == old(self).colliders(),
                self.entities().dom() == m.dom(),
                self.entities()[e] == after_sleep(m, e, e),
                forall|k: EntityHandle|
                    #![trigger self.entities()[k]]
                    m.contains_key(k) && k != e ==> self.entities()[k] == (if contacts@.subrange(
                        0,
                        j as int,
                    ).contains(k) {
                        after_sleep(m, e, k)
                    } else {
                        m[k]
                    }),
            decreases contacts.len() - j,
        {
            let p = contacts[j];
            let ghost cur = *self;
            assert(contacts@.subrange(0, j + 1) =~= contacts@.subrange(0, j as int).push(p));
            assert(contacts@[j as int] == p);
            assert(contacts@.contains(p));
            assert(m[e].contacts.contains(p));
            if p != e && self.contains_entity(p) {
                self.add_neighbor(p, e);
                proof {
                    if contacts@.subrange(0, j as int).contains(p) {
                        assert(cur.entities()[p] == after_sleep(m, e, p));
                        assert(cur.entities()[p].neighbors.contains(e));
                        assert(cur.entities()[p].neighbors.insert(e) =~= cur.entities()[p].neighbors);
                    }
                }
            }
            j += 1;
            proof {
                assert(self.entities().dom() =~= m.dom());
                assert forall|k: EntityHandle|
                    #![trigger self.entities()[k]]
                    m.contains_key(k) && k != e implies self.entities()[k] == (if contacts@.subrange(
                        0,
                        j as int,
                    ).contains(k) {
                        after_sleep(m, e, k)
                    } else {
                        m[k]
                    }) by {
                    if k != p {
                        assert(cur.entities()[k] == self.entities()[k]);
                    }
                }
            }
        }
        assert(contacts@.subrange(0, contacts.len() as int) =~= contacts@);
        assert(self.entities().dom() =~= old(self).entities().dom());
        Ok(())
    }
}

/// In a well-formed world a collider names an entity as its owner exactly
/// when that entity lists the collider among its own.
pub proof fn lemma_link_bidirectional(w: World, c: ColliderHandle, e: EntityHandle)
    requires
        w.wf(),
    ensures
        (w.colliders().contains_key(c) && w.colliders()[c].entity == Some(e)) <==> (
        w.entities().contains_key(e) && w.entities()[e].colliders.contains(c)),
{
    if w.colliders().contains_key(c) && w.colliders()[c].entity == Some(e) {
        assert(w.colliders()[c].entity is Some);
    }
    if w.entities().contains_key(e) && w.entities()[e].colliders.contains(c) {
        assert(w.colliders()[c].entity == Some(e));
    }
}

/// Waking any member of a sleeping cluster wakes every entity linked to it,
/// directly or through other members, by neighbor links that end at a
/// finite-mass entity: each is then awake, not falling asleep, and has no
/// neighbors left to hide contacts with.
pub proof fn lemma_wake_propagates(w: World, seed: EntityHandle, n: EntityHandle, k: nat)
    requires
        w.entities().contains_key(seed),
        w.reaches(seed, n, k),
    ensures
        w.wakes_with(seed, n),
        !w.after_wake(seed, n).asleep,
        !w.after_wake(seed, n).falling_asleep,
        w.after_wake(seed, n).neighbors.is_empty(),
{
}

/// A neighbor link at a finite-mass stored entity carries a wake one step
/// further: whatever wakes with `m` also wakes `n`.
pub proof fn lemma_wake_edge_extends(w: World, seed: EntityHandle, m: EntityHandle, n: EntityHandle)
    requires
        w.wakes_with(seed, m),
        w.wake_edge(m, n),
    ensures
        w.wakes_with(seed, n),
{
    let k = choose|k: nat| w.reaches(seed, m, k);
    assert(w.reaches(seed, n, k + 1));
}

/// Infinity absorbs every sum: an entity that lists a collider of infinite
/// mass has an infinite total mass, whatever else it holds.
pub proof fn lemma_infinite_mass_absorbs(w: World, e: EntityHandle, c: ColliderHandle)
    requires
        w.entities()[e].colliders.contains(c),
        w.colliders()[c].infinite_mass,
    ensures
        w.mass_infinite(e),
{
}

/// Sleep is stable under settling: a sleeping entity keeps sleeping, with
/// its record unchanged, whatever its energy.
pub proof fn lemma_sleep_is_kept(v: EntityView, energy_above: bool)
    requires
        v.asleep,
    ensures
        settle_stage(v, energy_above) == SettleStage::Asleep,
        settled(v, energy_above) == v,
{
}

/// Low energy keeps an awake entity on its way to sleep: from its second
/// low-energy settle on, the step's duration adds to its dwell timer.
pub proof fn lemma_low_energy_accumulates(v: EntityView)
    requires
        !v.asleep,
    ensures
        settle_stage(settled(v, false), false) == (SettleStage::Drowsy { accumulate: true }),
{
}

} // verus!
