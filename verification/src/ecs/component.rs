//! Components: data attached to entities, stored per component type.

use vstd::prelude::*;
use std::any::TypeId;
use std::collections::HashMap;
use std::marker::PhantomData;
use crate::ecs::entity::EntityId;
use crate::platform::type_id_of;

verus! {

broadcast use vstd::std_specs::hash::group_hash_axioms;

/// A type that can be attached to entities as a component.
pub trait Component: 'static + Send + Sync {
    /// The component's name.
    fn name() -> &'static str where Self: Sized;
}

/// Storage of one component type, seen without its type.
pub trait ComponentStorage {
    /// The storage's internal consistency, kept by every method.
    spec fn storage_wf(&self) -> bool;

    /// The type id of the stored component type.
    fn component_type_id(&self) -> TypeId;

    /// Detaches the component of `entity`; returns whether there was one.
    fn remove(&mut self, entity: EntityId) -> (r: bool)
        requires
            old(self).storage_wf(),
        ensures
            final(self).storage_wf(),
    ;

    /// Detaches every component.
    fn clear(&mut self)
        ensures
            final(self).storage_wf(),
    ;

    /// Whether `entity` has a component here.
    fn has(&self, entity: EntityId) -> bool
        requires
            self.storage_wf(),
    ;

    /// The entities that have a component here, in storage order.
    fn entity_ids(&self) -> Vec<EntityId>
        requires
            self.storage_wf(),
    ;
}


/// A call that changes a storage: `insert`, `remove` or `clear`.
pub enum StorageOp<T> {
    Insert(EntityId, T),
    Remove(EntityId),
    Clear,
}

/// What one call does to the map of a storage, as the contracts of
/// `insert`, `remove` and `clear` state it.
pub open spec fn apply_op<T>(m: Map<EntityId, T>, op: StorageOp<T>) -> Map<EntityId, T> {
    match op {
        StorageOp::Insert(e, c) => m.insert(e, c),
        StorageOp::Remove(e) => m.remove(e),
        StorageOp::Clear => Map::empty(),
    }
}

/// The component of `e` after the calls `ops` on an empty storage: the
/// one of the last insert for `e`, unless a remove of `e` or a clear came
/// after it.
pub open spec fn last_write<T>(ops: Seq<StorageOp<T>>, e: EntityId) -> Option<T>
    decreases ops.len(),
{
    if ops.len() == 0 {
        None
    } else {
        match ops.last() {
            StorageOp::Insert(x, c) => if x == e {
                Some(c)
            } else {
                last_write(ops.drop_last(), e)
            },
            StorageOp::Remove(x) => if x == e {
                None
            } else {
                last_write(ops.drop_last(), e)
            },
            StorageOp::Clear => None,
        }
    }
}

/// A storage behaves as a map from entity to component: after any run of
/// calls on an empty storage, each described by `apply_op`, an entity has
/// the component of its last insert, unless a remove of it or a clear came
/// after that insert, and no component otherwise.
pub proof fn lemma_storage_history<T>(views: Seq<Map<EntityId, T>>, ops: Seq<StorageOp<T>>, e: EntityId)
    requires
        views.len() == ops.len() + 1,
        views[0] == Map::<EntityId, T>::empty(),
        forall|i: int| 0 <= i < ops.len() ==> #[trigger] views[i + 1] == apply_op(views[i], ops[i]),
    ensures
        (if views.last().contains_key(e) {
            Some(views.last()[e])
        } else {
            None
        }) == last_write(ops, e),
    decreases ops.len(),
{
    if ops.len() > 0 {
        let n = ops.len() - 1;
        assert forall|i: int| 0 <= i < ops.drop_last().len() implies #[trigger] views.drop_last()[i + 1] == apply_op(
            views.drop_last()[i],
            ops.drop_last()[i],
        ) by {
            assert(views[i + 1] == apply_op(views[i], ops[i]));
        }
        lemma_storage_history(views.drop_last(), ops.drop_last(), e);
        assert(views[n + 1] == apply_op(views[n], ops[n]));
    }
}

/// The components of one type `T`, packed in a vector, with an index from
/// entity to slot.
pub struct VecStorage<T: Component> {
    entities: HashMap<u64, usize>,
    data: Vec<(EntityId, T)>,
    _marker: PhantomData<T>,
}

impl<T: Component> View for VecStorage<T> {
    type V = Map<EntityId, T>;

    /// Which entity has which component.
    closed spec fn view(&self) -> Map<EntityId, T> {
        Map::new(
            |e: EntityId| self.entities@.contains_key(e@),
            |e: EntityId| self.data@[self.entities@[e@] as int].1,
        )
    }
}

impl<T: Component> VecStorage<T> {
    /// The index and the slots agree: every indexed entity sits in its
    /// slot, and every slot is indexed.
    pub closed spec fn wf(self) -> bool {
        &&& forall|k: u64| #[trigger]
            self.entities@.contains_key(k) ==> self.entities@[k] < self.data@.len()
                && self.data@[self.entities@[k] as int].0@ == k
        &&& forall|i: int|
            0 <= i < self.data@.len() ==> self.entities@.contains_key(
                (#[trigger] self.data@[i]).0@,
            ) && self.entities@[self.data@[i].0@] == i
    }

    /// How many components are stored.
    pub closed spec fn stored_count(self) -> nat {
        self.data@.len()
    }

    /// The entities with a component, in slot order.
    pub closed spec fn slot_entities(self) -> Seq<EntityId> {
        self.data@.map_values(|p: (EntityId, T)| p.0)
    }

    /// An empty storage.
    pub fn new() -> (r: VecStorage<T>)
        ensures
            r.wf(),
            r@ == Map::<EntityId, T>::empty(),
            r.stored_count() == 0,
    {
        let r = VecStorage { entities: HashMap::new(), data: Vec::new(), _marker: PhantomData };
        assert(r@ =~= Map::<EntityId, T>::empty());
        r
    }

    /// Attaches `component` to `entity`, returning the component it
    /// replaces, if any.
    pub fn insert(&mut self, entity: EntityId, component: T) -> (r: Option<T>)
        requires
            old(self).wf(),
            old(self).stored_count() < usize::MAX,
        ensures
            final(self).wf(),
            final(self)@ == old(self)@.insert(entity, component),
            r == (if old(self)@.contains_key(entity) {
                Some(old(self)@[entity])
            } else {
                None
            }),
            final(self).stored_count() == old(self).stored_count() + (if old(self)@.contains_key(
                entity,
            ) {
                0int
            } else {
                1int
            }),
            final(self).slot_entities() == if old(self)@.contains_key(entity) {
                old(self).slot_entities()
            } else {
                old(self).slot_entities().push(entity)
            },
    {
        let key = entity.value();
        match self.entities.get(&key) {
            Some(index_ref) => {
                let index = *index_ref;
                let mut replaced = component;
                let ghost before = self.data@;
                let slot = &mut self.data[index].1;
                std::mem::swap(slot, &mut replaced);
                proof {
                    assert(self.data@ == before.update(index as int, (before[index as int].0, component)));
                    assert forall|i: int| 0 <= i < self.data@.len() implies #[trigger] self.data@[i].0
                        == before[i].0 by {}
                    assert forall|e: EntityId|
                        #![trigger self@.contains_key(e)]
                        self@.contains_key(e) == old(self)@.insert(entity, component).contains_key(e)
                            && (self@.contains_key(e) ==> self@[e] == old(self)@.insert(
                            entity,
                            component,
                        )[e]) by {
                        EntityId::lemma_view_injective(e, entity);
                    }
                    assert(self@ =~= old(self)@.insert(entity, component));
                    assert(self.slot_entities() =~= old(self).slot_entities());
                }
                Some(replaced)
            },
            None => {
                let index = self.data.len();
                let ghost before = self.data@;
                self.data.push((entity, component));
                self.entities.insert(key, index);
                proof {
                    assert forall|k: u64| #[trigger] self.entities@.contains_key(k) implies self.entities@[k]
                        < self.data@.len() && self.data@[self.entities@[k] as int].0@ == k by {
                        if k != key {
                            assert(self.data@[self.entities@[k] as int] == before[self.entities@[k] as int]);
                        }
                    }
                    assert forall|i: int| 0 <= i < self.data@.len() implies self.entities@.contains_key(
                        (#[trigger] self.data@[i]).0@,
                    ) && self.entities@[self.data@[i].0@] == i by {
                        if i < before.len() {
                            assert(self.data@[i] == before[i]);
                            assert(before[i].0@ != key);
                        }
                    }
                    assert forall|e: EntityId|
                        #![trigger self@.contains_key(e)]
                        self@.contains_key(e) == old(self)@.insert(entity, component).contains_key(e)
                            && (self@.contains_key(e) ==> self@[e] == old(self)@.insert(
                            entity,
                            component,
                        )[e]) by {
                        EntityId::lemma_view_injective(e, entity);
                        if self@.contains_key(e) && e != entity {
                            assert(self.data@[self.entities@[e@] as int] == before[self.entities@[e@] as int]);
                        }
                    }
                    assert(self@ =~= old(self)@.insert(entity, component));
                    assert(self.slot_entities() =~= old(self).slot_entities().push(entity));
                }
                None
            },
        }
    }

    /// The component of `entity`, if it has one.
    pub fn get(&self, entity: EntityId) -> (r: Option<&T>)
        requires
            self.wf(),
        ensures
            r == (if self@.contains_key(entity) {
                Some(&self@[entity])
            } else {
                None
            }),
    {
        match self.entities.get(&entity.value()) {
            Some(index) => Some(&self.data[*index].1),
            None => None,
        }
    }

    /// How many components are stored.
    pub fn len(&self) -> (r: usize)
        ensures
            r == self.stored_count(),
    {
        self.data.len()
    }

    /// Mutable access to the component of `entity`, if it has one.
    pub fn get_mut(&mut self, entity: EntityId) -> (r: Option<&mut T>)
        requires
            old(self).wf(),
        ensures
            old(self)@.contains_key(entity) ==> r is Some && *r.unwrap() == old(self)@[entity]
                && final(self)@ == old(self)@.insert(entity, *final(r.unwrap())) && final(self).wf(),
            !old(self)@.contains_key(entity) ==> r is None && *final(self) == *old(self),
    {
        match self.entities.get(&entity.value()) {
            Some(index_ref) => {
                let index = *index_ref;
                proof {
                    self.lemma_slot_update(entity, index);
                }
                Some(&mut self.data[index].1)
            },
            None => None,
        }
    }

    /// Writing a new component into the slot of `entity` keeps the storage
    /// well formed and updates the map at `entity` only.
    proof fn lemma_slot_update(self, entity: EntityId, index: usize)
        requires
            self.wf(),
            self.entities@.contains_key(entity@),
            self.entities@[entity@] == index,
        ensures
            forall|s: VecStorage<T>, v: T|
                #![trigger s@, self@.insert(entity, v)]
                s.entities == self.entities && s.data@ == self.data@.update(
                    index as int,
                    (self.data@[index as int].0, v),
                ) ==> s.wf() && s@ == self@.insert(entity, v),
    {
        assert forall|s: VecStorage<T>, v: T|
            #![trigger s@, self@.insert(entity, v)]
            s.entities == self.entities && s.data@ == self.data@.update(
                index as int,
                (self.data@[index as int].0, v),
            ) implies s.wf() && s@ == self@.insert(entity, v) by {
            assert forall|i: int| 0 <= i < s.data@.len() implies #[trigger] s.data@[i].0
                == self.data@[i].0 by {}
            assert forall|e: EntityId|
                #![trigger s@.contains_key(e)]
                s@.contains_key(e) == self@.insert(entity, v).contains_key(e) && (s@.contains_key(e)
                    ==> s@[e] == self@.insert(entity, v)[e]) by {
                EntityId::lemma_view_injective(e, entity);
            }
            assert(s@ =~= self@.insert(entity, v));
        }
    }
}

impl<T: Component> ComponentStorage for VecStorage<T> {
    open spec fn storage_wf(&self) -> bool {
        self.wf()
    }

    fn component_type_id(&self) -> TypeId {
        type_id_of::<T>()
    }

    /// Detaches the component of `entity`: the last slot moves into the
    /// freed one, so the slots stay packed.
    fn remove(&mut self, entity: EntityId) -> (r: bool)
        ensures
            r == old(self)@.contains_key(entity),
            final(self)@ == old(self)@.remove(entity),
            final(self).stored_count() == old(self).stored_count() - (if r {
                1int
            } else {
                0int
            }),
            r ==> exists|i: int|
                0 <= i < old(self).slot_entities().len() && old(self).slot_entities()[i] == entity
                    && final(self).slot_entities() == #[trigger] old(self).slot_entities().update(
                    i,
                    old(self).slot_entities().last(),
                ).drop_last(),
            !r ==> final(self).slot_entities() == old(self).slot_entities(),
    {
        let key = entity.value();
        let ghost old_entities = self.entities@;
        let ghost old_data = self.data@;
        match self.entities.remove(&key) {
            Some(index) => {
                let last_idx = self.data.len() - 1;
                let ghost swapped_key = old_data[last_idx as int].0@;
                if index < last_idx {
                    let swapped_entity = self.data[last_idx].0;
                    self.entities.insert(swapped_entity.value(), index);
                }
                self.data.swap_remove(index);
                proof {
                    let ne = self.entities@;
                    let nd = self.data@;
                    assert(nd.len() == old_data.len() - 1);
                    assert forall|i: int| 0 <= i < nd.len() implies #[trigger] nd[i] == (if i == index {
                        old_data[last_idx as int]
                    } else {
                        old_data[i]
                    }) by {}
                    assert forall|k: u64| #[trigger] ne.contains_key(k) implies ne[k] < nd.len()
                        && nd[ne[k] as int].0@ == k by {
                        if index < last_idx && k == swapped_key {
                        } else {
                            let j = old_entities[k];
                            assert(old_data[j as int].0@ == k);
                            assert(j != index);
                            assert(j != last_idx);
                        }
                    }
                    assert forall|i: int| 0 <= i < nd.len() implies ne.contains_key(
                        (#[trigger] nd[i]).0@,
                    ) && ne[nd[i].0@] == i by {
                        if i == index {
                            assert(old_entities[swapped_key] == last_idx);
                        } else {
                            let k = old_data[i].0@;
                            assert(old_entities[k] == i);
                            assert(k != key);
                            assert(old_entities[old_data[last_idx as int].0@] == last_idx);
                        }
                    }
                    assert forall|e: EntityId|
                        #![trigger self@.contains_key(e)]
                        self@.contains_key(e) == old(self)@.remove(entity).contains_key(e) && (
                        self@.contains_key(e) ==> self@[e] == old(self)@.remove(entity)[e]) by {
                        EntityId::lemma_view_injective(e, entity);
                        if self@.contains_key(e) {
                            let k = e@;
                            if index < last_idx && k == swapped_key {
                                assert(old_entities[k] == last_idx);
                            } else {
                                let j = old_entities[k];
                                assert(old_data[j as int].0@ == k);
                                assert(j != index);
                            }
                        }
                    }
                    assert(self@ =~= old(self)@.remove(entity));
                    let os = old(self).slot_entities();
                    EntityId::lemma_view_injective(old_data[index as int].0, entity);
                    assert(os[index as int] == entity);
                    assert(self.slot_entities() =~= os.update(index as int, os.last()).drop_last());
                }
                true
            },
            None => {
                proof {
                    assert(self@ =~= old(self)@.remove(entity));
                    assert(self.slot_entities() =~= old(self).slot_entities());
                }
                false
            },
        }
    }

    /// Detaches every component.
    fn clear(&mut self)
        ensures
            final(self)@ == Map::<EntityId, T>::empty(),
            final(self).stored_count() == 0,
    {
        self.entities.clear();
        self.data.clear();
        proof {
            assert(self@ =~= Map::<EntityId, T>::empty());
        }
    }

    /// Whether `entity` has a component here.
    fn has(&self, entity: EntityId) -> (r: bool)
        ensures
            r == self@.contains_key(entity),
    {
        self.entities.contains_key(&entity.value())
    }

    /// The entities that have a component here, in slot order: each once,
    /// and exactly those with a component.
    fn entity_ids(&self) -> (r: Vec<EntityId>)
        ensures
            r@ == self.slot_entities(),
            r@.no_duplicates(),
            forall|e: EntityId| r@.contains(e) <==> self@.contains_key(e),
    {
        let mut ids: Vec<EntityId> = Vec::new();
        let mut i: usize = 0;
        while i < self.data.len()
            invariant
                i <= self.data@.len(),
                ids@ == self.data@.take(i as int).map_values(|p: (EntityId, T)| p.0),
            decreases self.data@.len() - i,
        {
            ids.push(self.data[i].0);
            proof {
                assert(self.data@.take(i + 1) =~= self.data@.take(i as int).push(self.data@[i as int]));
                assert(self.data@.take(i + 1).map_values(|p: (EntityId, T)| p.0) =~= self.data@.take(
                    i as int,
                ).map_values(|p: (EntityId, T)| p.0).push(self.data@[i as int].0));
            }
            i = i + 1;
        }
        proof {
            assert(self.data@.take(i as int) =~= self.data@);
            assert forall|a: int, b: int| 0 <= a < ids@.len() && 0 <= b < ids@.len() && a != b implies ids@[a]
                != ids@[b] by {
                assert(self.entities@[self.data@[a].0@] == a);
                assert(self.entities@[self.data@[b].0@] == b);
            }
            assert forall|e: EntityId| ids@.contains(e) <==> self@.contains_key(e) by {
                if ids@.contains(e) {
                    let a = choose|a: int| 0 <= a < ids@.len() && ids@[a] == e;
                    assert(self.data@[a].0 == e);
                }
                if self@.contains_key(e) {
                    let j = self.entities@[e@] as int;
                    assert(self.data@[j].0@ == e@);
                    EntityId::lemma_view_injective(self.data@[j].0, e);
                    assert(ids@[j] == e);
                }
            }
        }
        ids
    }
}

} // verus!
