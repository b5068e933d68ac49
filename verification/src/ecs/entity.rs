//! Entities: identifiers that components hang off, and the set of
//! entities that are alive.

use vstd::prelude::*;
use crate::platform::random_u64;

verus! {

broadcast use vstd::seq_lib::seq_to_set_is_finite;

/// Unique identifier of an entity: a random 64-bit number.
#[derive(Debug, Clone, Copy, PartialEq, Eq, Hash, Structural)]
pub struct EntityId(u64);

impl View for EntityId {
    type V = u64;

    closed spec fn view(&self) -> u64 {
        self.0
    }
}

impl EntityId {
    /// A fresh random identifier.
    pub fn new() -> (r: EntityId) {
        EntityId(random_u64())
    }

    /// The identifier as a number.
    pub fn value(&self) -> (r: u64)
        ensures
            r == self@,
    {
        self.0
    }

    /// Two identifiers are equal exactly when their numbers are.
    pub proof fn lemma_view_injective(a: EntityId, b: EntityId)
        ensures
            a@ == b@ <==> a == b,
    {
    }
}

/// An entity: an identifier and the generation it belongs to, so that a
/// reused identifier can be told apart.
#[derive(Debug, Clone, Copy, PartialEq, Eq, Hash, Structural)]
pub struct Entity {
    id: EntityId,
    generation: u32,
}

impl Entity {
    /// The identifier of this entity.
    pub closed spec fn spec_id(self) -> EntityId {
        self.id
    }

    /// The generation of this entity.
    pub closed spec fn spec_generation(self) -> u32 {
        self.generation
    }

    /// Entities are equal exactly when identifier and generation are.
    pub proof fn lemma_fields_determine(a: Entity, b: Entity)
        ensures
            (a.spec_id() == b.spec_id() && a.spec_generation() == b.spec_generation()) <==> a == b,
    {
    }

    /// A new entity with a fresh random identifier, in generation zero.
    pub fn new() -> (r: Entity)
        ensures
            r.spec_generation() == 0,
    {
        Entity { id: EntityId::new(), generation: 0 }
    }

    /// The identifier of this entity.
    pub fn id(&self) -> (r: EntityId)
        ensures
            r == self.spec_id(),
    {
        self.id
    }

    /// The generation of this entity.
    pub fn generation(&self) -> (r: u32)
        ensures
            r == self.spec_generation(),
    {
        self.generation
    }
}

/// Whether `e` occurs in `v`.
fn contains_entity(v: &Vec<Entity>, e: Entity) -> (r: Option<usize>)
    ensures
        r is None <==> !v@.contains(e),
        r matches Some(i) ==> i < v@.len() && v@[i as int] == e,
{
    let mut i: usize = 0;
    while i < v.len()
        invariant
            i <= v@.len(),
            forall|j: int| 0 <= j < i ==> v@[j] != e,
        decreases v@.len() - i,
    {
        if v[i] == e {
            return Some(i);
        }
        i = i + 1;
    }
    None
}

/// Creates and destroys entities and knows which are alive. The living
/// entities are kept in a list without repeats.
pub struct EntityManager {
    active_entities: Vec<Entity>,
    next_generation: u32,
}

impl View for EntityManager {
    type V = Set<Entity>;

    /// The set of living entities.
    closed spec fn view(&self) -> Set<Entity> {
        self.active_entities@.to_set()
    }
}

impl EntityManager {
    /// The list of living entities has no repeats.
    pub closed spec fn wf(self) -> bool {
        self.active_entities@.no_duplicates()
    }

    /// A manager with no living entity.
    pub fn new() -> (r: EntityManager)
        ensures
            r.wf(),
            r@ == Set::<Entity>::empty(),
            r@.finite(),
    {
        let r = EntityManager { active_entities: Vec::new(), next_generation: 0 };
        assert(r.active_entities@.to_set() =~= Set::<Entity>::empty());
        r
    }

    /// Creates a fresh entity and records it as alive.
    pub fn create_entity(&mut self) -> (e: Entity)
        requires
            old(self).wf(),
        ensures
            final(self).wf(),
            final(self)@ == old(self)@.insert(e),
            final(self)@.finite(),
            e.spec_generation() == 0,
    {
        let entity = Entity::new();
        let ghost before = self.active_entities@;
        if contains_entity(&self.active_entities, entity).is_none() {
            self.active_entities.push(entity);
            proof {
                assert(self.active_entities@.to_set() =~= before.to_set().insert(entity)) by {
                    assert forall|x: Entity| self.active_entities@.contains(x) <==> (before.contains(x)
                        || x == entity) by {
                        if before.contains(x) {
                            let k = choose|k: int| 0 <= k < before.len() && before[k] == x;
                            assert(self.active_entities@[k] == x);
                        }
                        if x == entity {
                            assert(self.active_entities@[before.len() as int] == x);
                        }
                        if self.active_entities@.contains(x) && x != entity {
                            let k = choose|k: int|
                                0 <= k < self.active_entities@.len() && self.active_entities@[k] == x;
                            assert(before[k] == x);
                        }
                    }
                }
                assert forall|a: int, b: int|
                    0 <= a < self.active_entities@.len() && 0 <= b < self.active_entities@.len() && a
                        != b implies self.active_entities@[a] != self.active_entities@[b] by {
                    if a == before.len() {
                        assert(before.contains(self.active_entities@[b]));
                    } else if b == before.len() {
                        assert(before.contains(self.active_entities@[a]));
                    } else {
                        assert(self.active_entities@[a] == before[a]);
                        assert(self.active_entities@[b] == before[b]);
                    }
                }
            }
        } else {
            proof {
                assert(before.to_set().insert(entity) =~= before.to_set());
            }
        }
        entity
    }

    /// Records `entity` as no longer alive (nothing happens if it was not).
    pub fn destroy_entity(&mut self, entity: Entity)
        requires
            old(self).wf(),
        ensures
            final(self).wf(),
            final(self)@ == old(self)@.remove(entity),
            final(self)@.finite(),
    {
        let ghost before = self.active_entities@;
        match contains_entity(&self.active_entities, entity) {
            Some(i) => {
                self.active_entities.swap_remove(i);
                proof {
                    let after = self.active_entities@;
                    let last = before.len() - 1;
                    assert forall|x: Entity| after.contains(x) <==> (before.contains(x) && x != entity) by {
                        if after.contains(x) {
                            let k = choose|k: int| 0 <= k < after.len() && after[k] == x;
                            if k == i {
                                assert(x == before[last]);
                                assert(last != i);
                            } else {
                                assert(x == before[k]);
                                assert(k != i);
                            }
                        }
                        if before.contains(x) && x != entity {
                            let k = choose|k: int| 0 <= k < before.len() && before[k] == x;
                            if k == last {
                                assert(after[i as int] == x);
                            } else {
                                assert(after[k] == x);
                            }
                        }
                    }
                    assert(after.to_set() =~= before.to_set().remove(entity));
                    assert forall|a: int, b: int| 0 <= a < after.len() && 0 <= b < after.len() && a != b
                        implies after[a] != after[b] by {
                        let a2 = if a == i { last } else { a };
                        let b2 = if b == i { last } else { b };
                        assert(after[a] == before[a2] && after[b] == before[b2]);
                    }
                }
            },
            None => {
                proof {
                    assert(before.to_set().remove(entity) =~= before.to_set());
                }
            },
        }
    }

    /// The living entities are finitely many.
    pub proof fn lemma_finite(self)
        ensures
            self@.finite(),
    {
        vstd::seq_lib::seq_to_set_is_finite(self.active_entities@);
    }

    /// Creating an entity whose identifier is new adds one to the count;
    /// destroying one removes one exactly when it was alive.
    pub proof fn lemma_counts(self, e: Entity)
        ensures
            !self@.contains(e) ==> self@.insert(e).len() == self@.len() + 1,
            self@.remove(e).len() == self@.len() - (if self@.contains(e) {
                1int
            } else {
                0int
            }),
    {
        self.lemma_finite();
    }

    /// Whether `entity` is alive.
    pub fn is_alive(&self, entity: Entity) -> (r: bool)
        ensures
            r == self@.contains(entity),
    {
        contains_entity(&self.active_entities, entity).is_some()
    }

    /// How many entities are alive.
    pub fn entity_count(&self) -> (r: usize)
        requires
            self.wf(),
        ensures
            r == self@.len(),
    {
        proof {
            self.active_entities@.unique_seq_to_set();
        }
        self.active_entities.len()
    }
}

/// Builds an entity step by step.
pub struct EntityBuilder {
    entity: Entity,
}

impl EntityBuilder {
    /// A builder around a new entity.
    pub fn new() -> (r: EntityBuilder)
        ensures
            r.spec_entity().spec_generation() == 0,
    {
        EntityBuilder { entity: Entity::new() }
    }

    /// The entity being built.
    pub closed spec fn spec_entity(self) -> Entity {
        self.entity
    }

    /// The finished entity.
    pub fn build(self) -> (r: Entity)
        ensures
            r == self.spec_entity(),
    {
        self.entity
    }
}

} // verus!
