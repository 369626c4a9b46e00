//! The simulation world: entities, and one store per kind of component.

use vstd::prelude::*;
use crate::components::{
    Entity, Position, Velocity, Health, Inventory, Resource, DroppedItem, Chest, WantsToGather,
    WantsToCraft, WantsToBuild, WantsToStoreItem, WantsToAttack, WantsToPickup,
};
use crate::player::Player;
use crate::brain::BrainComponent;
use crate::map::without_entity;

verus! {

/// A kind of data an entity can carry.
pub trait Component {}

impl Component for Position {}
impl Component for Velocity {}
impl Component for Health {}
impl Component for Inventory {}
impl Component for Resource {}
impl Component for DroppedItem {}
impl Component for Chest {}
impl Component for Player {}
impl Component for BrainComponent {}
impl Component for WantsToGather {}
impl Component for WantsToCraft {}
impl Component for WantsToBuild {}
impl Component for WantsToStoreItem {}
impl Component for WantsToAttack {}
impl Component for WantsToPickup {}

/// The components of one kind, indexed by entity; a slot is empty where the
/// entity has no such component.
pub struct ComponentStore<T: Component> {
    pub slots: Vec<Option<T>>,
}

impl<T: Component> ComponentStore<T> {
    /// The component `entity` has, if any.
    pub open spec fn get(&self, entity: int) -> Option<T> {
        if 0 <= entity < self.slots@.len() {
            self.slots@[entity]
        } else {
            None
        }
    }

    /// An empty store.
    pub fn new() -> (r: Self)
        ensures
            forall|e: int| #[trigger] r.get(e) is None,
    {
        ComponentStore { slots: Vec::new() }
    }

    /// Gives `entity` the component, replacing any it had.
    pub fn add_component(&mut self, entity: Entity, component: T)
        requires
            entity < usize::MAX,
        ensures
            forall|e: int| #[trigger] final(self).get(e) == if e == entity {
                Some(component)
            } else {
                old(self).get(e)
            },
    {
        let ghost before = self.slots@;
        while self.slots.len() <= entity
            invariant
                entity < usize::MAX,
                before.len() <= self.slots@.len(),
                forall|i: int| 0 <= i < before.len() ==> self.slots@[i] == before[i],
                forall|i: int| before.len() <= i < self.slots@.len() ==> self.slots@[i] is None,
            decreases entity + 1 - self.slots@.len(),
        {
            self.slots.push(None);
        }
        self.slots.set(entity, Some(component));
    }

    /// The component `entity` has, if any.
    pub fn get_component(&self, entity: Entity) -> (r: Option<&T>)
        ensures
            r is Some <==> self.get(entity as int) is Some,
            r matches Some(c) ==> *c == self.get(entity as int)->0,
            r is Some ==> entity < usize::MAX,
    {
        if entity < self.slots.len() {
            match &self.slots[entity] {
                Some(c) => Some(c),
                None => None,
            }
        } else {
            None
        }
    }

    /// Whether `entity` has a component here.
    pub fn has(&self, entity: Entity) -> (r: bool)
        ensures
            r == self.get(entity as int) is Some,
    {
        entity < self.slots.len() && self.slots[entity].is_some()
    }

    /// Takes away the component of `entity`, if it has one.
    pub fn remove_component_for_entity(&mut self, entity: Entity)
        ensures
            forall|e: int| #[trigger] final(self).get(e) == if e == entity {
                None
            } else {
                old(self).get(e)
            },
    {
        if entity < self.slots.len() {
            self.slots.set(entity, None);
        }
    }

    /// Takes the component of `entity` out of the store and hands it back.
    pub fn take(&mut self, entity: Entity) -> (r: Option<T>)
        ensures
            r == old(self).get(entity as int),
            r is Some ==> entity < usize::MAX,
            forall|e: int| #[trigger] final(self).get(e) == if e == entity {
                None
            } else {
                old(self).get(e)
            },
    {
        if entity < self.slots.len() {
            let mut out: Option<T> = None;
            std::mem::swap(&mut out, &mut self.slots[entity]);
            out
        } else {
            None
        }
    }
}

/// The entities of the simulation and their components.
pub struct World {
    /// The live entities, in the order they were made.
    pub entities: Vec<Entity>,
    /// The identifier the next new entity gets.
    pub next_entity_id: usize,
    pub positions: ComponentStore<Position>,
    pub velocities: ComponentStore<Velocity>,
    pub healths: ComponentStore<Health>,
    pub inventories: ComponentStore<Inventory>,
    pub resources: ComponentStore<Resource>,
    pub dropped_items: ComponentStore<DroppedItem>,
    pub chests: ComponentStore<Chest>,
    pub players: ComponentStore<Player>,
    pub brains: ComponentStore<BrainComponent>,
    pub wants_to_gather: ComponentStore<WantsToGather>,
    pub wants_to_craft: ComponentStore<WantsToCraft>,
    pub wants_to_build: ComponentStore<WantsToBuild>,
    pub wants_to_store: ComponentStore<WantsToStoreItem>,
    pub wants_to_attack: ComponentStore<WantsToAttack>,
    pub wants_to_pickup: ComponentStore<WantsToPickup>,
}

/// Every entity of `entities` is below `next`, and they come in increasing order.
pub open spec fn ids_below(entities: Seq<Entity>, next: int) -> bool {
    &&& forall|i: int| 0 <= i < entities.len() ==> #[trigger] entities[i] < next
    &&& forall|i: int, j: int| 0 <= i < j < entities.len() ==> entities[i] < entities[j]
}

impl World {
    /// The identifier the next new entity gets.
    pub open spec fn next_id(&self) -> int {
        self.next_entity_id as int
    }

    /// The live entities were all handed out, each once.
    pub open spec fn well_formed(&self) -> bool {
        ids_below(self.entities@, self.next_id())
    }

    /// A world with no entities and no components.
    pub fn new() -> (r: Self)
        ensures
            r.well_formed(),
            r.entities@ == Seq::<Entity>::empty(),
            r.next_id() == 0,
            forall|e: int| #[trigger] r.positions.get(e) is None,
            forall|e: int| #[trigger] r.velocities.get(e) is None,
            forall|e: int| #[trigger] r.healths.get(e) is None,
            forall|e: int| #[trigger] r.inventories.get(e) is None,
            forall|e: int| #[trigger] r.resources.get(e) is None,
            forall|e: int| #[trigger] r.dropped_items.get(e) is None,
            forall|e: int| #[trigger] r.chests.get(e) is None,
            forall|e: int| #[trigger] r.players.get(e) is None,
            forall|e: int| #[trigger] r.brains.get(e) is None,
            forall|e: int| #[trigger] r.wants_to_gather.get(e) is None,
            forall|e: int| #[trigger] r.wants_to_craft.get(e) is None,
            forall|e: int| #[trigger] r.wants_to_build.get(e) is None,
            forall|e: int| #[trigger] r.wants_to_store.get(e) is None,
            forall|e: int| #[trigger] r.wants_to_attack.get(e) is None,
            forall|e: int| #[trigger] r.wants_to_pickup.get(e) is None,
    {
        World {
            entities: Vec::new(),
            next_entity_id: 0,
            positions: ComponentStore::new(),
            velocities: ComponentStore::new(),
            healths: ComponentStore::new(),
            inventories: ComponentStore::new(),
            resources: ComponentStore::new(),
            dropped_items: ComponentStore::new(),
            chests: ComponentStore::new(),
            players: ComponentStore::new(),
            brains: ComponentStore::new(),
            wants_to_gather: ComponentStore::new(),
            wants_to_craft: ComponentStore::new(),
            wants_to_build: ComponentStore::new(),
            wants_to_store: ComponentStore::new(),
            wants_to_attack: ComponentStore::new(),
            wants_to_pickup: ComponentStore::new(),
        }
    }

    /// Makes a new entity, with an identifier no entity had before, and adds
    /// it to the live entities.
    pub fn create_entity(&mut self) -> (r: Entity)
        requires
            old(self).well_formed(),
            old(self).next_id() < usize::MAX,
        ensures
            final(self).well_formed(),
            r == old(self).next_id(),
            final(self).next_id() == old(self).next_id() + 1,
            final(self).entities@ == old(self).entities@.push(r),
            id_step(*old(self), *final(self), true),
            final(self).positions == old(self).positions,
            final(self).velocities == old(self).velocities,
            final(self).healths == old(self).healths,
            final(self).inventories == old(self).inventories,
            final(self).resources == old(self).resources,
            final(self).dropped_items == old(self).dropped_items,
            final(self).chests == old(self).chests,
            final(self).players == old(self).players,
            final(self).brains == old(self).brains,
            final(self).wants_to_gather == old(self).wants_to_gather,
            final(self).wants_to_craft == old(self).wants_to_craft,
            final(self).wants_to_build == old(self).wants_to_build,
            final(self).wants_to_store == old(self).wants_to_store,
            final(self).wants_to_attack == old(self).wants_to_attack,
            final(self).wants_to_pickup == old(self).wants_to_pickup,
    {
        let entity_id = self.next_entity_id;
        self.entities.push(entity_id);
        self.next_entity_id = self.next_entity_id + 1;
        entity_id
    }

    /// Removes an entity: it leaves the live entities and loses every component.
    pub fn remove_entity(&mut self, entity: Entity)
        requires
            old(self).well_formed(),
        ensures
            final(self).well_formed(),
            removed_entity(*old(self), *final(self), entity),
            id_step(*old(self), *final(self), false),
    {
        self.positions.remove_component_for_entity(entity);
        self.velocities.remove_component_for_entity(entity);
        self.healths.remove_component_for_entity(entity);
        self.inventories.remove_component_for_entity(entity);
        self.resources.remove_component_for_entity(entity);
        self.dropped_items.remove_component_for_entity(entity);
        self.chests.remove_component_for_entity(entity);
        self.players.remove_component_for_entity(entity);
        self.brains.remove_component_for_entity(entity);
        self.wants_to_gather.remove_component_for_entity(entity);
        self.wants_to_craft.remove_component_for_entity(entity);
        self.wants_to_build.remove_component_for_entity(entity);
        self.wants_to_store.remove_component_for_entity(entity);
        self.wants_to_attack.remove_component_for_entity(entity);
        self.wants_to_pickup.remove_component_for_entity(entity);
        let ghost before = self.entities@;
        let kept = crate::map::without(&self.entities, entity);
        self.entities = kept;
        proof {
            lemma_filter_keeps_order(before, entity, self.next_id());
        }
    }
}

/// One step of a world's life: a creation hands out the next identifier and
/// raises it by one, as [`World::create_entity`] does; any other step
/// (a removal, a change of components) leaves the identifier where it was.
pub open spec fn id_step(b: World, a: World, creates: bool) -> bool {
    if creates {
        a.next_id() == b.next_id() + 1 && a.entities@ == b.entities@.push(b.next_id() as Entity)
    } else {
        a.next_id() == b.next_id()
    }
}

/// How many of the steps `ops` create an entity.
pub open spec fn creations(ops: Seq<bool>) -> nat
    decreases ops.len(),
{
    if ops.len() == 0 {
        0
    } else {
        creations(ops.drop_last()) + if ops.last() { 1nat } else { 0nat }
    }
}

/// Identifiers are handed out in creation order and never again: the
/// entity created at step `j` gets the first identifier plus the number of
/// creations before `j` (so 0, 1, 2, ... from [`World::new`]), removals
/// in between change nothing, and the next identifier after all steps is
/// the first plus the number of creations.
pub proof fn lemma_ids_follow_creations(trace: Seq<World>, ops: Seq<bool>)
    requires
        trace.len() == ops.len() + 1,
        forall|j: int| 0 <= j < ops.len() ==> #[trigger] id_step(trace[j], trace[j + 1], ops[j]),
    ensures
        trace[ops.len() as int].next_id() == trace[0].next_id() + creations(ops),
        forall|j: int| 0 <= j < ops.len() ==> #[trigger] trace[j].next_id() == trace[0].next_id() + creations(ops.take(j)),
    decreases ops.len(),
{
    if ops.len() > 0 {
        let n = ops.len() as int;
        let t2 = trace.take(n);
        let o2 = ops.drop_last();
        assert forall|j: int| 0 <= j < o2.len() implies #[trigger] id_step(t2[j], t2[j + 1], o2[j]) by {
            assert(id_step(trace[j], trace[j + 1], ops[j]));
        }
        lemma_ids_follow_creations(t2, o2);
        assert(ops.take(n - 1) =~= o2);
        assert(id_step(trace[n - 1], trace[n], ops[n - 1]));
        assert forall|j: int| 0 <= j < ops.len() implies #[trigger] trace[j].next_id() == trace[0].next_id() + creations(ops.take(j)) by {
            if j < n - 1 {
                assert(o2.take(j) =~= ops.take(j));
                assert(t2[j] == trace[j]);
            } else {
                assert(t2[n - 1] == trace[n - 1]);
            }
        }
    }
}

/// A new entity's identifier belongs to no live entity.
pub proof fn lemma_next_id_is_fresh(w: World)
    requires
        w.well_formed(),
    ensures
        !w.entities@.contains(w.next_id() as Entity),
{
    if w.entities@.contains(w.next_id() as Entity) {
        let i = choose|i: int| 0 <= i < w.entities@.len() && w.entities@[i] == w.next_id() as Entity;
        assert(w.entities@[i] < w.next_id());
    }
}

/// A removed entity is no longer live, and every other live entity stays live.
pub proof fn lemma_removed_is_gone(b: World, a: World, d: Entity, e: Entity)
    requires
        b.well_formed(),
        removed_entity(b, a, d),
    ensures
        !a.entities@.contains(d),
        e != d ==> (a.entities@.contains(e) <==> b.entities@.contains(e)),
{
    lemma_filter_keeps_order(b.entities@, d, b.next_id());
}

/// `a` equals `b` but at `d`, where it has nothing.
pub open spec fn cleared_at<T: Component>(a: ComponentStore<T>, b: ComponentStore<T>, d: int) -> bool {
    forall|e: int| #[trigger] a.get(e) == if e == d { None } else { b.get(e) }
}

/// `a` is `b` after removing entity `d`: `d` leaves the live entities and
/// loses every component; nothing else changes.
pub open spec fn removed_entity(b: World, a: World, d: Entity) -> bool {
    &&& a.entities@ == without_entity(b.entities@, d)
    &&& a.next_id() == b.next_id()
    &&& cleared_at(a.positions, b.positions, d as int)
    &&& cleared_at(a.velocities, b.velocities, d as int)
    &&& cleared_at(a.healths, b.healths, d as int)
    &&& cleared_at(a.inventories, b.inventories, d as int)
    &&& cleared_at(a.resources, b.resources, d as int)
    &&& cleared_at(a.dropped_items, b.dropped_items, d as int)
    &&& cleared_at(a.chests, b.chests, d as int)
    &&& cleared_at(a.players, b.players, d as int)
    &&& cleared_at(a.brains, b.brains, d as int)
    &&& cleared_at(a.wants_to_gather, b.wants_to_gather, d as int)
    &&& cleared_at(a.wants_to_craft, b.wants_to_craft, d as int)
    &&& cleared_at(a.wants_to_build, b.wants_to_build, d as int)
    &&& cleared_at(a.wants_to_store, b.wants_to_store, d as int)
    &&& cleared_at(a.wants_to_attack, b.wants_to_attack, d as int)
    &&& cleared_at(a.wants_to_pickup, b.wants_to_pickup, d as int)
}

/// Dropping an entity from a list of increasing identifiers below `next`
/// leaves such a list.
pub proof fn lemma_filter_keeps_order(s: Seq<Entity>, entity: Entity, next: int)
    requires
        ids_below(s, next),
    ensures
        ids_below(without_entity(s, entity), next),
        forall|x: Entity| #[trigger] without_entity(s, entity).contains(x) <==> s.contains(x) && x != entity,
    decreases s.len(),
{
    reveal_with_fuel(Seq::filter, 1);
    if s.len() > 0 {
        let t = s.drop_last();
        assert(ids_below(t, next));
        lemma_filter_keeps_order(t, entity, next);
        let ft = without_entity(t, entity);
        assert forall|x: Entity| #[trigger] ft.contains(x) implies x < s.last() by {
            let k = choose|k: int| 0 <= k < ft.len() && ft[k] == x;
            assert(ft.contains(ft[k]));
            assert(t.contains(x));
            let j = choose|j: int| 0 <= j < t.len() && t[j] == x;
            assert(s[j] == x);
        }
        if s.last() != entity {
            let f = ft.push(s.last());
            assert(without_entity(s, entity) == f);
            assert forall|i: int, j: int| 0 <= i < j < f.len() implies f[i] < f[j] by {
                if j == f.len() - 1 {
                    assert(ft.contains(f[i]));
                }
            }
            assert forall|x: Entity| #[trigger] f.contains(x) <==> s.contains(x) && x != entity by {
                if x == s.last() {
                    assert(f[f.len() - 1] == x);
                    assert(s[s.len() - 1] == x);
                } else {
                    if f.contains(x) {
                        let k = choose|k: int| 0 <= k < f.len() && f[k] == x;
                        assert(ft[k] == x);
                        assert(ft.contains(x));
                    }
                    if s.contains(x) {
                        let k = choose|k: int| 0 <= k < s.len() && s[k] == x;
                        assert(t[k] == x);
                        assert(t.contains(x));
                        if x != entity {
                            assert(ft.contains(x));
                            let m = choose|m: int| 0 <= m < ft.len() && ft[m] == x;
                            assert(f[m] == x);
                        }
                    }
                }
            }
        } else {
            assert forall|x: Entity| #[trigger] ft.contains(x) <==> s.contains(x) && x != entity by {
                if s.contains(x) && x != entity {
                    let k = choose|k: int| 0 <= k < s.len() && s[k] == x;
                    assert(k != s.len() - 1);
                    assert(t[k] == x);
                    assert(t.contains(x));
                }
            }
        }
    }
}

} // verus!
