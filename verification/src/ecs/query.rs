//! Queries: the entities a system looks at, with optional filters.

use vstd::prelude::*;
use std::marker::PhantomData;
use crate::ecs::component::{Component, VecStorage};
use crate::ecs::entity::{Entity, EntityId};

verus! {

/// Filter marker: entities whose `T` changed.
#[derive(Debug)]
pub struct Changed<T: Component> {
    _marker: PhantomData<T>,
}

impl<T: Component> Default for Changed<T> {
    fn default() -> (r: Self)
        ensures
            true,
    {
        Changed { _marker: PhantomData }
    }
}

/// Filter marker: entities that have a `T`.
#[derive(Debug)]
pub struct With<T: Component> {
    _marker: PhantomData<T>,
}

impl<T: Component> Default for With<T> {
    fn default() -> (r: Self)
        ensures
            true,
    {
        With { _marker: PhantomData }
    }
}

/// The entities of `s` whose flag in `keep` is set, in order.
pub open spec fn kept(s: Seq<Entity>, keep: Seq<bool>) -> Seq<Entity>
    decreases s.len(),
{
    if s.len() == 0 || keep.len() == 0 {
        Seq::empty()
    } else {
        let rest = kept(s.drop_last(), keep.drop_last());
        if keep.last() {
            rest.push(s.last())
        } else {
            rest
        }
    }
}

/// `keep` is a verdict of `filter_fn` on entity `e` with its component in
/// `components`: kept only when it has one and the test said yes; dropped
/// only when it has none or the test said no.
pub open spec fn judged<T, P: Fn(&Entity, &T) -> bool>(
    components: Map<EntityId, T>,
    filter_fn: P,
    e: Entity,
    keep: bool,
) -> bool {
    if keep {
        components.contains_key(e.spec_id()) && filter_fn.ensures((&e, &components[e.spec_id()]), true)
    } else {
        !components.contains_key(e.spec_id()) || filter_fn.ensures((&e, &components[e.spec_id()]), false)
    }
}

/// `after` is `before` narrowed by `filter_fn` over `components`: in
/// order, exactly the entities whose component passes the test.
pub open spec fn filtered_as<T, P: Fn(&Entity, &T) -> bool>(
    before: Seq<Entity>,
    components: Map<EntityId, T>,
    filter_fn: P,
    after: Seq<Entity>,
) -> bool {
    exists|keep: Seq<bool>|
        keep.len() == before.len() && (forall|i: int| 0 <= i < before.len() ==> judged(components, filter_fn, #[trigger] before[i], keep[i]))
            && after == #[trigger] kept(before, keep)
}

/// The entities of `entities` whose component in `storage` passes
/// `filter_fn`, in order.
fn filter_entities<T: Component, P: Fn(&Entity, &T) -> bool>(
    entities: &Vec<Entity>,
    storage: &VecStorage<T>,
    filter_fn: &P,
) -> (r: Vec<Entity>)
    requires
        storage.wf(),
        forall|e: Entity, c: T| filter_fn.requires((&e, &c)),
    ensures
        filtered_as(entities@, storage@, *filter_fn, r@),
{
    let mut out: Vec<Entity> = Vec::new();
    let ghost mut keep: Seq<bool> = Seq::empty();
    let mut i: usize = 0;
    while i < entities.len()
        invariant
            i <= entities@.len(),
            storage.wf(),
            forall|e: Entity, c: T| filter_fn.requires((&e, &c)),
            keep.len() == i,
            forall|j: int| 0 <= j < i ==> judged(storage@, *filter_fn, #[trigger] entities@[j], keep[j]),
            out@ == kept(entities@.take(i as int), keep),
        decreases entities@.len() - i,
    {
        let e = entities[i];
        let ghost before = keep;
        let pass = match storage.get(e.id()) {
            Some(c) => filter_fn(&e, c),
            None => false,
        };
        if pass {
            out.push(e);
        }
        proof {
            keep = before.push(pass);
            assert(entities@.take(i + 1).drop_last() =~= entities@.take(i as int));
            assert(keep.drop_last() =~= before);
            assert(entities@.take(i + 1).last() == e);
        }
        i = i + 1;
    }
    proof {
        assert(entities@.take(i as int) =~= entities@);
    }
    out
}

/// The entities found for component type `T`, under filter `F`.
pub struct Query<T, F = ()> {
    component_type: PhantomData<T>,
    filter_type: PhantomData<F>,
    entities: Vec<Entity>,
}

impl<T, F> View for Query<T, F> {
    type V = Seq<Entity>;

    /// The entities found, in the order they were added.
    closed spec fn view(&self) -> Seq<Entity> {
        self.entities@
    }
}

impl<T, F> Default for Query<T, F> {
    fn default() -> (r: Self)
        ensures
            r@ == Seq::<Entity>::empty(),
    {
        Query { component_type: PhantomData, filter_type: PhantomData, entities: Vec::new() }
    }
}

impl<T: 'static + Component, F> Query<T, F> {
    /// A query with no entity yet.
    pub fn new() -> (r: Self)
        ensures
            r@ == Seq::<Entity>::empty(),
    {
        Self::default()
    }

    /// Appends `entity` to the results.
    pub fn add_entity(&mut self, entity: Entity)
        ensures
            final(self)@ == old(self)@.push(entity),
    {
        self.entities.push(entity);
    }

    /// A copy of the results.
    pub fn entities(&self) -> (r: Vec<Entity>)
        ensures
            r@ == self@,
    {
        self.entities.clone()
    }

    /// Number of results.
    pub fn len(&self) -> (r: usize)
        ensures
            r == self@.len(),
    {
        self.entities.len()
    }

    /// Whether there is no result.
    pub fn is_empty(&self) -> (r: bool)
        ensures
            r == (self@.len() == 0),
    {
        self.entities.is_empty()
    }

    /// Narrows the results with `filter_fn`: keeps, in order, the entities
    /// whose component in `storage` passes the test (an entity without one
    /// is dropped), and returns the query for chaining.
    pub fn filter<P>(&mut self, storage: &VecStorage<T>, filter_fn: P) -> (r: &mut Self)
        where
            P: Fn(&Entity, &T) -> bool,
        requires
            storage.wf(),
            forall|e: Entity, c: T| filter_fn.requires((&e, &c)),
        ensures
            filtered_as(old(self)@, storage@, filter_fn, (*r)@),
            *final(self) == *final(r),
    {
        self.entities = filter_entities(&self.entities, storage, &filter_fn);
        self
    }
}

/// The entities found for component type `T`, to be walked together with
/// their components.
pub struct EntityComponentQuery<T: 'static + Component> {
    entities: Vec<Entity>,
    _marker: PhantomData<T>,
}

impl<T: 'static + Component> View for EntityComponentQuery<T> {
    type V = Seq<Entity>;

    /// The entities found, in the order they were added.
    closed spec fn view(&self) -> Seq<Entity> {
        self.entities@
    }
}

impl<T: 'static + Component> Default for EntityComponentQuery<T> {
    fn default() -> (r: Self)
        ensures
            r@ == Seq::<Entity>::empty(),
    {
        EntityComponentQuery { entities: Vec::new(), _marker: PhantomData }
    }
}

impl<T: 'static + Component> EntityComponentQuery<T> {
    /// A query with no entity yet.
    pub fn new() -> (r: Self)
        ensures
            r@ == Seq::<Entity>::empty(),
    {
        Self::default()
    }

    /// Appends `entity` to the results.
    pub fn add_entity(&mut self, entity: Entity)
        ensures
            final(self)@ == old(self)@.push(entity),
    {
        self.entities.push(entity);
    }

    /// Narrows the results with `filter_fn`: keeps, in order, the entities
    /// whose component in `storage` passes the test (an entity without one
    /// is dropped), and returns the query for chaining.
    pub fn filter<P>(&mut self, storage: &VecStorage<T>, filter_fn: P) -> (r: &mut Self)
        where
            P: Fn(&Entity, &T) -> bool,
        requires
            storage.wf(),
            forall|e: Entity, c: T| filter_fn.requires((&e, &c)),
        ensures
            filtered_as(old(self)@, storage@, filter_fn, (*r)@),
            *final(self) == *final(r),
    {
        self.entities = filter_entities(&self.entities, storage, &filter_fn);
        self
    }

    /// Number of results.
    pub fn len(&self) -> (r: usize)
        ensures
            r == self@.len(),
    {
        self.entities.len()
    }

    /// Whether there is no result.
    pub fn is_empty(&self) -> (r: bool)
        ensures
            r == (self@.len() == 0),
    {
        self.entities.is_empty()
    }

    /// A copy of the results.
    pub fn entities(&self) -> (r: Vec<Entity>)
        ensures
            r@ == self@,
    {
        self.entities.clone()
    }
}

} // verus!
