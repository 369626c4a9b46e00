//! The systems that carry out the agents' intents, one tick at a time.
//!
//! Each system walks the entity indices `0..n`, where `n` is the number of
//! live entities, and handles in turn each index that carries the intent; the
//! contracts describe one such step and the whole pass as the chain of steps.

use vstd::prelude::*;
use crate::components::{
    Entity, Position, Velocity, Inventory, Resource, Health, DroppedItem, Chest, quantity_in, covers, take_all, take_item,
};
use crate::text::{owned, str_eq};
use crate::events::{Event, EventBus};
use crate::brain::BrainComponent;
use crate::map::{GameMap, Tile, TileView, TileState, without_entity, copy_entities, lemma_tile_present};
use crate::fov::{field_of_view, on_map, within, clear_around, view_set, behind_neighbour, behind_blocker};
use crate::player::Player;
use crate::chance::random_in;
use crate::ecs::{World, ComponentStore, Component, removed_entity};
use crate::recipes::{RecipeManager, expand, Expansion, RecipeTable};
use crate::counts::as_ints;

verus! {

/// Two stores agree on every entity but `e`.
pub open spec fn same_except<T: Component>(a: ComponentStore<T>, b: ComponentStore<T>, e: int) -> bool {
    forall|q: int| q != e ==> #[trigger] a.get(q) == b.get(q)
}

/// The counts of `m` with `amount` more of `name`.
pub open spec fn with_more(m: Map<Seq<char>, u32>, name: Seq<char>, amount: u32) -> Map<Seq<char>, u32> {
    m.insert(name, (quantity_in(m, name) + amount) as u32)
}

/// `a` holds the inventory of `b` at `e` with `amount` more of `name`, and
/// the same inventories elsewhere; an entity without an inventory gets none.
pub open spec fn added_to_inventory(b: World, a: World, e: int, name: Seq<char>, amount: u32) -> bool {
    &&& same_except(a.inventories, b.inventories, e)
    &&& match b.inventories.get(e) {
        Some(inv) => a.inventories.get(e) matches Some(i2) && i2.items@ == with_more(inv.items@, name, amount),
        None => a.inventories.get(e) is None,
    }
}

/// Two positions are at most one tile apart along each axis.
pub open spec fn adjacent_or_same(a: Position, b: Position) -> bool {
    -1 <= a.x - b.x <= 1 && -1 <= a.y - b.y <= 1
}

/// One gathering step, for entity `k`: an entity that wants to gather from a
/// target within one tile, where the target holds some of a resource, takes
/// one unit from it into its inventory, if it has one.
pub open spec fn gather_step(b: World, a: World, k: int) -> bool {
    match b.wants_to_gather.get(k) {
        Some(w) => {
            let t = w.target as int;
            if b.positions.get(k) is Some && b.positions.get(t) is Some && adjacent_or_same(
                b.positions.get(k)->0,
                b.positions.get(t)->0,
            ) && b.resources.get(t) is Some && b.resources.get(t)->0.quantity > 0 {
                let r = b.resources.get(t)->0;
                &&& a == World { resources: a.resources, inventories: a.inventories, ..b }
                &&& a.resources.get(t) == Some(Resource { name: r.name, quantity: (r.quantity - 1) as u32 })
                &&& same_except(a.resources, b.resources, t)
                &&& added_to_inventory(b, a, k, r.name@, 1)
            } else {
                a == b
            }
        },
        None => a == b,
    }
}

/// `trace` runs from `first` through `n` steps of `step`.
pub open spec fn is_run<S>(trace: Seq<S>, n: int, step: spec_fn(S, S, int) -> bool) -> bool {
    &&& trace.len() == n + 1
    &&& forall|k: int| 0 <= k < n ==> #[trigger] step(trace[k], trace[k + 1], k)
}

/// `a` is `b` with the intents of entities `0..n` of one store cleared.
pub open spec fn cleared<T: Component>(a: ComponentStore<T>, b: ComponentStore<T>, n: int) -> bool {
    forall|e: int| #[trigger] a.get(e) == if 0 <= e < n { None } else { b.get(e) }
}

/// Entities that gather take one unit of their target's resource into their
/// inventory, when the target stands within one tile and still holds some.
/// Every gathering intent of the entities `0..n` is then cleared.
pub fn gathering_system(world: &mut World)
    requires
        forall|k: int|
            0 <= k < old(world).entities@.len() && #[trigger] old(world).wants_to_gather.get(k) is Some
                && old(world).resources.get(old(world).wants_to_gather.get(k)->0.target as int) is Some
                && old(world).inventories.get(k) is Some ==> quantity_in(
                old(world).inventories.get(k)->0.items@,
                old(world).resources.get(old(world).wants_to_gather.get(k)->0.target as int)->0.name@,
            ) < u32::MAX,
    ensures
        exists|trace: Seq<World>|
            is_run(trace, old(world).entities@.len() as int, |b: World, a: World, k: int| gather_step(b, a, k))
                && trace[0] == *old(world) && *final(world) == (World {
                wants_to_gather: final(world).wants_to_gather,
                ..trace[old(world).entities@.len() as int]
            }) && cleared(
                final(world).wants_to_gather,
                trace[old(world).entities@.len() as int].wants_to_gather,
                old(world).entities@.len() as int,
            ),
{
    let n = world.entities.len();
    let ghost start = *world;
    let ghost step = |b: World, a: World, k: int| gather_step(b, a, k);
    let ghost mut trace: Seq<World> = seq![*world];
    let mut k: usize = 0;
    while k < n
        invariant
            k <= n,
            n == start.entities@.len(),
            trace.len() == k + 1,
            trace[0] == start,
            trace[k as int] == *world,
            forall|j: int| 0 <= j < k ==> #[trigger] step(trace[j], trace[j + 1], j),
            step == (|b: World, a: World, k: int| gather_step(b, a, k)),
            world.wants_to_gather == start.wants_to_gather,
            world.positions == start.positions,
            forall|e: int| k <= e ==> #[trigger] world.inventories.get(e) == start.inventories.get(e),
            forall|e: int| #[trigger] world.resources.get(e) is Some <==> start.resources.get(e) is Some,
            forall|e: int| world.resources.get(e) is Some ==> #[trigger] world.resources.get(e)->0.name == start.resources.get(e)->0.name,
            forall|j: int|
                0 <= j < n && #[trigger] start.wants_to_gather.get(j) is Some
                    && start.resources.get(start.wants_to_gather.get(j)->0.target as int) is Some
                    && start.inventories.get(j) is Some ==> quantity_in(
                    start.inventories.get(j)->0.items@,
                    start.resources.get(start.wants_to_gather.get(j)->0.target as int)->0.name@,
                ) < u32::MAX,
        decreases n - k,
    {
        let ghost before = *world;
        if let Some(w) = world.wants_to_gather.get_component(k) {
            let target = w.target;
            let gp = world.positions.get_component(k);
            let tp = world.positions.get_component(target);
            if let (Some(gp), Some(tp)) = (gp, tp) {
                let dx = gp.x as i64 - tp.x as i64;
                let dy = gp.y as i64 - tp.y as i64;
                if -1 <= dx && dx <= 1 && -1 <= dy && dy <= 1 {
                    let available = match world.resources.get_component(target) {
                        Some(r) => r.quantity > 0,
                        None => false,
                    };
                    if available {
                        let taken = world.resources.take(target);
                        if let Some(mut resource) = taken {
                            resource.quantity = resource.quantity - 1;
                            let name = resource.name.clone();
                            world.resources.add_component(target, resource);
                            if let Some(mut inventory) = world.inventories.take(k) {
                                inventory.add_item(name.as_str(), 1);
                                world.inventories.add_component(k, inventory);
                            }
                        }
                    }
                }
            }
        }
        proof {
            assert(gather_step(before, *world, k as int));
            trace = trace.push(*world);
        }
        k = k + 1;
    }
    let ghost last = *world;
    let mut e: usize = 0;
    while e < n
        invariant
            e <= n,
            *world == (World { wants_to_gather: world.wants_to_gather, ..last }),
            forall|q: int| #[trigger] world.wants_to_gather.get(q) == if 0 <= q < e { None } else { last.wants_to_gather.get(q) },
        decreases n - e,
    {
        world.wants_to_gather.remove_component_for_entity(e);
        e = e + 1;
    }
    proof {
        assert(is_run(trace, n as int, step));
    }
}

/// An integer count table read back as `u32` counts.
pub open spec fn as_u32s(m: Map<Seq<char>, int>) -> Map<Seq<char>, u32> {
    Map::new(|k: Seq<char>| m.contains_key(k), |k: Seq<char>| m[k] as u32)
}

/// Reading `u32` counts as integers and back gives them again.
pub proof fn lemma_as_u32s_as_ints(m: Map<Seq<char>, u32>)
    ensures
        as_u32s(as_ints(m)) == m,
{
    assert(as_u32s(as_ints(m)) =~= m);
}

/// What one unit of `item` needs, as counts, when its recipes expand without a cycle.
pub open spec fn needs(t: RecipeTable, item: Seq<char>) -> Option<Map<Seq<char>, u32>> {
    match expand(t, item, 1, Set::empty()) {
        Expansion::Totals(m) => Some(as_u32s(m)),
        _ => None,
    }
}

/// One crafting step, for entity `k`: an entity that wants to craft an item
/// whose recipes expand without a cycle, and whose inventory holds all the
/// item needs, spends it and gains one of the item.
pub open spec fn craft_step(t: RecipeTable, b: World, a: World, k: int) -> bool {
    if b.wants_to_craft.get(k) is Some && needs(t, b.wants_to_craft.get(k)->0.item_name@) is Some
        && b.inventories.get(k) is Some && covers(
        b.inventories.get(k)->0.items@,
        needs(t, b.wants_to_craft.get(k)->0.item_name@)->0,
    ) {
        let name = b.wants_to_craft.get(k)->0.item_name@;
        let held = b.inventories.get(k)->0.items@;
        &&& a == World { inventories: a.inventories, ..b }
        &&& same_except(a.inventories, b.inventories, k)
        &&& a.inventories.get(k) matches Some(i2) && i2.items@ == with_more(take_all(held, needs(t, name)->0), name, 1)
    } else {
        a == b
    }
}

/// Taking what one covers out of a table leaves no count larger than before.
proof fn lemma_take_all_lowers(m: Map<Seq<char>, u32>, req: Map<Seq<char>, u32>, k: Seq<char>)
    requires
        covers(m, req),
    ensures
        quantity_in(take_all(m, req), k) <= quantity_in(m, k),
{
    if req.contains_key(k) {
        assert(quantity_in(m, k) >= req[k]);
    }
}

/// Entities that want to craft an item, and hold everything one unit of it
/// needs, spend that and gain the item. An item whose recipes depend on
/// themselves cannot be crafted. Every crafting intent of the entities
/// `0..n` is then cleared.
pub fn crafting_system(world: &mut World, recipe_manager: &RecipeManager)
    requires
        forall|k: int| 0 <= k < old(world).entities@.len() && #[trigger] old(world).wants_to_craft.get(k) is Some
            ==> expand(recipe_manager.table(), old(world).wants_to_craft.get(k)->0.item_name@, 1, Set::empty())
                != Expansion::Overflow,
        forall|k: int|
            0 <= k < old(world).entities@.len() && #[trigger] old(world).wants_to_craft.get(k) is Some
                && old(world).inventories.get(k) is Some ==> quantity_in(
                old(world).inventories.get(k)->0.items@,
                old(world).wants_to_craft.get(k)->0.item_name@,
            ) < u32::MAX,
    ensures
        exists|trace: Seq<World>|
            is_run(trace, old(world).entities@.len() as int, |b: World, a: World, k: int| craft_step(recipe_manager.table(), b, a, k))
                && trace[0] == *old(world) && *final(world) == (World {
                wants_to_craft: final(world).wants_to_craft,
                ..trace[old(world).entities@.len() as int]
            }) && cleared(
                final(world).wants_to_craft,
                trace[old(world).entities@.len() as int].wants_to_craft,
                old(world).entities@.len() as int,
            ),
{
    let n = world.entities.len();
    let ghost start = *world;
    let ghost table = recipe_manager.table();
    let ghost step = |b: World, a: World, k: int| craft_step(table, b, a, k);
    let ghost mut trace: Seq<World> = seq![*world];
    let mut k: usize = 0;
    while k < n
        invariant
            k <= n,
            n == start.entities@.len(),
            table == recipe_manager.table(),
            trace.len() == k + 1,
            trace[0] == start,
            trace[k as int] == *world,
            forall|j: int| 0 <= j < k ==> #[trigger] step(trace[j], trace[j + 1], j),
            step == (|b: World, a: World, k: int| craft_step(table, b, a, k)),
            world.wants_to_craft == start.wants_to_craft,
            forall|e: int| k <= e ==> #[trigger] world.inventories.get(e) == start.inventories.get(e),
            forall|j: int| 0 <= j < n && #[trigger] start.wants_to_craft.get(j) is Some
                ==> expand(table, start.wants_to_craft.get(j)->0.item_name@, 1, Set::empty()) != Expansion::Overflow,
            forall|j: int|
                0 <= j < n && #[trigger] start.wants_to_craft.get(j) is Some
                    && start.inventories.get(j) is Some ==> quantity_in(
                    start.inventories.get(j)->0.items@,
                    start.wants_to_craft.get(j)->0.item_name@,
                ) < u32::MAX,
        decreases n - k,
    {
        let ghost before = *world;
        if let Some(w) = world.wants_to_craft.get_component(k) {
            let item_name = w.item_name.clone();
            let required = recipe_manager.get_required_resources(item_name.as_str(), 1);
            if let Ok(required) = required {
                proof {
                    lemma_as_u32s_as_ints(required@);
                }
                let enough = match world.inventories.get_component(k) {
                    Some(inventory) => inventory.has_resources(&required),
                    None => false,
                };
                if enough {
                    let taken = world.inventories.take(k);
                    if let Some(mut inventory) = taken {
                        let ghost held = inventory.items@;
                        inventory.remove_resources(&required);
                        proof {
                            lemma_take_all_lowers(held, required@, item_name@);
                        }
                        inventory.add_item(item_name.as_str(), 1);
                        world.inventories.add_component(k, inventory);
                    }
                }
            }
        }
        proof {
            assert(craft_step(table, before, *world, k as int));
            trace = trace.push(*world);
        }
        k = k + 1;
    }
    let ghost last = *world;
    let mut e: usize = 0;
    while e < n
        invariant
            e <= n,
            *world == (World { wants_to_craft: world.wants_to_craft, ..last }),
            forall|q: int| #[trigger] world.wants_to_craft.get(q) == if 0 <= q < e { None } else { last.wants_to_craft.get(q) },
        decreases n - e,
    {
        world.wants_to_craft.remove_component_for_entity(e);
        e = e + 1;
    }
    proof {
        assert(is_run(trace, n as int, step));
    }
}

/// Whether entity `k` of `w` moves items into a chest this tick: it wants to
/// store some of an item and its inventory holds that many.
pub open spec fn stores(w: World, k: int) -> bool {
    &&& w.wants_to_store.get(k) is Some
    &&& w.inventories.get(k) is Some
    &&& w.inventories.get(k)->0.items@.contains_key(w.wants_to_store.get(k)->0.item_name@)
    &&& w.inventories.get(k)->0.items@[w.wants_to_store.get(k)->0.item_name@] >= w.wants_to_store.get(k)->0.quantity
}

/// One storing step, for entity `k`: an entity that wants to store some of an
/// item it holds enough of hands it over; the target chest, if there is one,
/// receives it.
pub open spec fn store_step(b: World, a: World, k: int) -> bool {
    if stores(b, k) {
        let w = b.wants_to_store.get(k)->0;
        let c = w.target_chest as int;
        &&& a == World { inventories: a.inventories, chests: a.chests, ..b }
        &&& same_except(a.inventories, b.inventories, k)
        &&& a.inventories.get(k) matches Some(i2) && i2.items@ == take_item(b.inventories.get(k)->0.items@, w.item_name@, w.quantity)
        &&& same_except(a.chests, b.chests, c)
        &&& match b.chests.get(c) {
            Some(chest) => a.chests.get(c) matches Some(c2) && c2.inventory.items@ == with_more(chest.inventory.items@, w.item_name@, w.quantity),
            None => a.chests.get(c) is None,
        }
    } else {
        a == b
    }
}

/// How much of `name` the entities `0..n` of `w` store into chest `c`.
pub open spec fn stored_total(w: World, n: int, c: int, name: Seq<char>) -> nat
    decreases n,
{
    if n <= 0 {
        0
    } else {
        stored_total(w, n - 1, c, name) + if stores(w, n - 1) && w.wants_to_store.get(n - 1)->0.target_chest == c
            && w.wants_to_store.get(n - 1)->0.item_name@ == name {
            w.wants_to_store.get(n - 1)->0.quantity as nat
        } else {
            0nat
        }
    }
}

/// Entities that want to store some of an item they hold enough of take it
/// out of their inventory and put it into the target chest; when the target
/// is no chest the items are lost. Every storing intent of the entities
/// `0..n` is then cleared.
pub fn storage_system(world: &mut World)
    requires
        forall|c: int, name: Seq<char>| old(world).chests.get(c) is Some ==> #[trigger] quantity_in(old(world).chests.get(c)->0.inventory.items@, name)
            + stored_total(*old(world), old(world).entities@.len() as int, c, name) <= u32::MAX,
    ensures
        exists|trace: Seq<World>|
            is_run(trace, old(world).entities@.len() as int, |b: World, a: World, k: int| store_step(b, a, k))
                && trace[0] == *old(world) && *final(world) == (World {
                wants_to_store: final(world).wants_to_store,
                ..trace[old(world).entities@.len() as int]
            }) && cleared(
                final(world).wants_to_store,
                trace[old(world).entities@.len() as int].wants_to_store,
                old(world).entities@.len() as int,
            ),
{
    let n = world.entities.len();
    let ghost start = *world;
    let ghost step = |b: World, a: World, k: int| store_step(b, a, k);
    let ghost mut trace: Seq<World> = seq![*world];
    let mut k: usize = 0;
    while k < n
        invariant
            k <= n,
            n == start.entities@.len(),
            trace.len() == k + 1,
            trace[0] == start,
            trace[k as int] == *world,
            forall|j: int| 0 <= j < k ==> #[trigger] step(trace[j], trace[j + 1], j),
            step == (|b: World, a: World, k: int| store_step(b, a, k)),
            world.wants_to_store == start.wants_to_store,
            forall|e: int| k <= e ==> #[trigger] world.inventories.get(e) == start.inventories.get(e),
            forall|c: int| #[trigger] world.chests.get(c) is Some <==> start.chests.get(c) is Some,
            forall|c: int, name: Seq<char>| world.chests.get(c) is Some ==> #[trigger] quantity_in(world.chests.get(c)->0.inventory.items@, name)
                == quantity_in(start.chests.get(c)->0.inventory.items@, name) + stored_total(start, k as int, c, name),
            forall|c: int, name: Seq<char>| start.chests.get(c) is Some ==> #[trigger] quantity_in(start.chests.get(c)->0.inventory.items@, name)
                + stored_total(start, n as int, c, name) <= u32::MAX,
        decreases n - k,
    {
        let ghost before = *world;
        proof {
            assert(stores(before, k as int) == stores(start, k as int));
            assert forall|c: int, name: Seq<char>| start.chests.get(c) is Some implies
                #[trigger] stored_total(start, k as int + 1, c, name) <= stored_total(start, n as int, c, name) by {
                lemma_stored_total_grows(start, k as int + 1, n as int, c, name);
            }
        }
        if let Some(w) = world.wants_to_store.get_component(k) {
            let item_name = w.item_name.clone();
            let quantity = w.quantity;
            let target = w.target_chest;
            let enough = match world.inventories.get_component(k) {
                Some(inventory) => inventory.has_item(item_name.as_str(), quantity),
                None => false,
            };
            if enough {
                if let Some(mut inventory) = world.inventories.take(k) {
                    inventory.remove_item(item_name.as_str(), quantity);
                    world.inventories.add_component(k, inventory);
                }
                let ghost mid = *world;
                if world.chests.has(target) {
                    if let Some(mut chest) = world.chests.take(target) {
                        proof {
                            let c = target as int;
                            assert(before.chests.get(c) is Some);
                            assert(quantity_in(before.chests.get(c)->0.inventory.items@, item_name@) == quantity_in(
                                start.chests.get(c)->0.inventory.items@, item_name@) + stored_total(start, k as int, c, item_name@));
                            assert(stored_total(start, k as int + 1, c, item_name@) == stored_total(start, k as int, c, item_name@) + quantity);
                            assert(stored_total(start, k as int + 1, c, item_name@) <= stored_total(start, n as int, c, item_name@));
                            assert(quantity_in(start.chests.get(c)->0.inventory.items@, item_name@) + stored_total(start, n as int, c, item_name@) <= u32::MAX);
                        }
                        chest.inventory.add_item(item_name.as_str(), quantity);
                        world.chests.add_component(target, chest);
                    }
                }
                proof {
                    assert forall|c: int, name: Seq<char>| world.chests.get(c) is Some implies #[trigger] quantity_in(world.chests.get(c)->0.inventory.items@, name)
                        == quantity_in(start.chests.get(c)->0.inventory.items@, name) + stored_total(start, k as int + 1, c, name) by {
                        assert(before.chests.get(c) is Some);
                        assert(quantity_in(before.chests.get(c)->0.inventory.items@, name) == quantity_in(
                            start.chests.get(c)->0.inventory.items@, name) + stored_total(start, k as int, c, name));
                        if c == target as int && name == item_name@ {
                            assert(stored_total(start, k as int + 1, c, name) == stored_total(start, k as int, c, name) + quantity);
                        } else {
                            assert(stored_total(start, k as int + 1, c, name) == stored_total(start, k as int, c, name));
                            if c == target as int {
                                assert(quantity_in(world.chests.get(c)->0.inventory.items@, name) == quantity_in(before.chests.get(c)->0.inventory.items@, name));
                            }
                        }
                    }
                }
            }
        }
        proof {
            assert(store_step(before, *world, k as int));
            trace = trace.push(*world);
        }
        k = k + 1;
    }
    let ghost last = *world;
    let mut e: usize = 0;
    while e < n
        invariant
            e <= n,
            *world == (World { wants_to_store: world.wants_to_store, ..last }),
            forall|q: int| #[trigger] world.wants_to_store.get(q) == if 0 <= q < e { None } else { last.wants_to_store.get(q) },
        decreases n - e,
    {
        world.wants_to_store.remove_component_for_entity(e);
        e = e + 1;
    }
    proof {
        assert(is_run(trace, n as int, step));
    }
}

/// The amount stored into a chest only grows as more entities take their turn.
pub proof fn lemma_stored_total_grows(w: World, i: int, j: int, c: int, name: Seq<char>)
    requires
        i <= j,
    ensures
        stored_total(w, i, c, name) <= stored_total(w, j, c, name),
    decreases j - i,
{
    if i < j {
        lemma_stored_total_grows(w, i, j - 1, c, name);
    }
}

/// The damage one attack deals.
pub const ATTACK_DAMAGE: i32 = 10;

/// One attacking step, for entity `k`: an entity that wants to attack a
/// target with health takes ten points off it; a target left at zero or
/// below is announced dead.
pub open spec fn attack_step(b: (World, Seq<Event>), a: (World, Seq<Event>), k: int) -> bool {
    if b.0.wants_to_attack.get(k) is Some && b.0.healths.get(b.0.wants_to_attack.get(k)->0.target as int) is Some {
        let target = b.0.wants_to_attack.get(k)->0.target;
        let h = b.0.healths.get(target as int)->0;
        &&& a.0 == World { healths: a.0.healths, ..b.0 }
        &&& same_except(a.0.healths, b.0.healths, target as int)
        &&& a.0.healths.get(target as int) == Some(Health { current: (h.current - ATTACK_DAMAGE) as i32, max: h.max })
        &&& a.1 == if h.current - ATTACK_DAMAGE <= 0 { b.1.push(Event::EntityDied(target)) } else { b.1 }
    } else {
        a == b
    }
}

/// How many of the entities `0..n` of `w` attack `t`.
pub open spec fn hits(w: World, n: int, t: int) -> nat
    decreases n,
{
    if n <= 0 {
        0
    } else {
        hits(w, n - 1, t) + if w.wants_to_attack.get(n - 1) matches Some(a) && a.target == t { 1nat } else { 0nat }
    }
}

/// The number of hits on a target only grows as more entities take their turn.
pub proof fn lemma_hits_grow(w: World, i: int, j: int, t: int)
    requires
        i <= j,
    ensures
        hits(w, i, t) <= hits(w, j, t),
    decreases j - i,
{
    if i < j {
        lemma_hits_grow(w, i, j - 1, t);
    }
}

/// Entities that want to attack deal ten damage to their target, if it has
/// health; each attack that leaves the target at zero or below announces its
/// death on the bus. Every attack intent of the entities `0..n` is then cleared.
pub fn combat_system(world: &mut World, event_bus: &mut EventBus)
    requires
        forall|t: int| old(world).healths.get(t) is Some ==> #[trigger] old(world).healths.get(t)->0.current
            - ATTACK_DAMAGE * hits(*old(world), old(world).entities@.len() as int, t) >= i32::MIN,
    ensures
        exists|trace: Seq<(World, Seq<Event>)>|
            is_run(trace, old(world).entities@.len() as int, |b: (World, Seq<Event>), a: (World, Seq<Event>), k: int| attack_step(b, a, k))
                && trace[0] == (*old(world), old(event_bus).events@)
                && final(event_bus).events@ == trace[old(world).entities@.len() as int].1
                && *final(world) == (World {
                wants_to_attack: final(world).wants_to_attack,
                ..trace[old(world).entities@.len() as int].0
            }) && cleared(
                final(world).wants_to_attack,
                trace[old(world).entities@.len() as int].0.wants_to_attack,
                old(world).entities@.len() as int,
            ),
{
    let n = world.entities.len();
    let ghost start = *world;
    let ghost step = |b: (World, Seq<Event>), a: (World, Seq<Event>), k: int| attack_step(b, a, k);
    let ghost mut trace: Seq<(World, Seq<Event>)> = seq![(*world, event_bus.events@)];
    let mut k: usize = 0;
    while k < n
        invariant
            k <= n,
            n == start.entities@.len(),
            trace.len() == k + 1,
            trace[0] == (start, old(event_bus).events@),
            trace[k as int] == (*world, event_bus.events@),
            forall|j: int| 0 <= j < k ==> #[trigger] step(trace[j], trace[j + 1], j),
            step == (|b: (World, Seq<Event>), a: (World, Seq<Event>), k: int| attack_step(b, a, k)),
            world.wants_to_attack == start.wants_to_attack,
            forall|t: int| #[trigger] world.healths.get(t) is Some <==> start.healths.get(t) is Some,
            forall|t: int| world.healths.get(t) is Some ==> #[trigger] world.healths.get(t)->0 == (Health {
                current: (start.healths.get(t)->0.current - ATTACK_DAMAGE * hits(start, k as int, t)) as i32,
                max: start.healths.get(t)->0.max,
            }),
            forall|t: int| start.healths.get(t) is Some ==> #[trigger] start.healths.get(t)->0.current
                - ATTACK_DAMAGE * hits(start, n as int, t) >= i32::MIN,
        decreases n - k,
    {
        let ghost before = *world;
        let ghost events_before = event_bus.events@;
        if let Some(w) = world.wants_to_attack.get_component(k) {
            let target = w.target;
            if world.healths.has(target) {
                if let Some(health) = world.healths.take(target) {
                    proof {
                        let t = target as int;
                        assert(start.healths.get(t) is Some);
                        lemma_hits_grow(start, k as int + 1, n as int, t);
                        assert(hits(start, k as int + 1, t) == hits(start, k as int, t) + 1);
                        assert(start.healths.get(t)->0.current - ATTACK_DAMAGE * hits(start, n as int, t) >= i32::MIN);
                        assert(ATTACK_DAMAGE * hits(start, k as int + 1, t) <= ATTACK_DAMAGE * hits(start, n as int, t)) by (nonlinear_arith)
                            requires hits(start, k as int + 1, t) <= hits(start, n as int, t);
                    }
                    let hurt = Health { current: health.current - ATTACK_DAMAGE, max: health.max };
                    world.healths.add_component(target, hurt);
                    if hurt.current <= 0 {
                        event_bus.publish(Event::EntityDied(target));
                    }
                }
            }
        }
        proof {
            assert forall|t: int| world.healths.get(t) is Some implies #[trigger] world.healths.get(t)->0 == (Health {
                current: (start.healths.get(t)->0.current - ATTACK_DAMAGE * hits(start, k as int + 1, t)) as i32,
                max: start.healths.get(t)->0.max,
            }) by {
                assert(before.healths.get(t) is Some);
                assert(start.healths.get(t) is Some);
                lemma_hits_grow(start, k as int + 1, n as int, t);
                lemma_hits_grow(start, k as int, k as int + 1, t);
                assert(hits(start, k as int + 1, t) == hits(start, k as int, t) + if (start.wants_to_attack.get(k as int) matches Some(a) && a.target == t) { 1nat } else { 0nat });
            }
            assert(attack_step((before, events_before), (*world, event_bus.events@), k as int));
            trace = trace.push((*world, event_bus.events@));
        }
        k = k + 1;
    }
    let ghost last = *world;
    let mut e: usize = 0;
    while e < n
        invariant
            e <= n,
            *world == (World { wants_to_attack: world.wants_to_attack, ..last }),
            forall|q: int| #[trigger] world.wants_to_attack.get(q) == if 0 <= q < e { None } else { last.wants_to_attack.get(q) },
        decreases n - e,
    {
        world.wants_to_attack.remove_component_for_entity(e);
        e = e + 1;
    }
    proof {
        assert(is_run(trace, n as int, step));
    }
}

/// Where `e` is first announced to have built a foundation, if it is.
pub open spec fn first_foundation(events: Seq<Event>, e: int) -> Option<Position>
    decreases events.len(),
{
    if events.len() == 0 {
        None
    } else {
        match first_foundation(events.drop_last(), e) {
            Some(p) => Some(p),
            None => match events.last() {
                Event::FoundationBuilt { builder, position } => if builder as int == e {
                    Some(position)
                } else {
                    None
                },
                _ => None,
            },
        }
    }
}

/// The brain `b` after the announcements: one without a home base takes as
/// home the place of its entity's first foundation, if any.
pub open spec fn with_home(b: BrainComponent, events: Seq<Event>, e: int) -> BrainComponent {
    if b.home_base is None {
        BrainComponent { home_base: first_foundation(events, e), ..b }
    } else {
        b
    }
}

/// Takes every queued event; each agent whose brain has no home base yet
/// makes its first announced foundation its home.
pub fn brain_event_handler_system(world: &mut World, event_bus: &mut EventBus)
    ensures
        final(event_bus).events@.len() == 0,
        *final(world) == (World { brains: final(world).brains, ..*old(world) }),
        forall|e: int| #[trigger] final(world).brains.get(e) == match old(world).brains.get(e) {
            Some(b) => Some(with_home(b, old(event_bus).events@, e)),
            None => None,
        },
{
    let events = event_bus.take_events();
    let ghost start = *world;
    let mut i: usize = 0;
    while i < events.len()
        invariant
            i <= events@.len(),
            *world == (World { brains: world.brains, ..start }),
            forall|e: int| #[trigger] world.brains.get(e) == match start.brains.get(e) {
                Some(b) => Some(with_home(b, events@.take(i as int), e)),
                None => None,
            },
        decreases events@.len() - i,
    {
        proof {
            assert(events@.take(i as int + 1).drop_last() =~= events@.take(i as int));
        }
        match &events[i] {
            Event::FoundationBuilt { builder, position } => {
                let builder = *builder;
                let position = *position;
                if let Some(mut brain) = world.brains.take(builder) {
                    if brain.home_base.is_none() {
                        brain.home_base = Some(position);
                    }
                    world.brains.add_component(builder, brain);
                }
            },
            _ => {},
        }
        proof {
            assert forall|e: int| #[trigger] world.brains.get(e) == match start.brains.get(e) {
                Some(b) => Some(with_home(b, events@.take(i as int + 1), e)),
                None => None,
            } by {
            }
        }
        i = i + 1;
    }
    proof {
        assert(events@.take(i as int) =~= events@);
    }
}

/// `a` is `b` with a new entity: meat lying at `p`.
pub open spec fn dropped_meat(b: World, a: World, p: Position) -> bool {
    let id = b.next_id();
    &&& a == World {
        entities: a.entities,
        next_entity_id: a.next_entity_id,
        positions: a.positions,
        dropped_items: a.dropped_items,
        ..b
    }
    &&& a.entities@ == b.entities@.push(id as Entity)
    &&& a.next_id() == id + 1
    &&& same_except(a.positions, b.positions, id)
    &&& a.positions.get(id) == Some(p)
    &&& same_except(a.dropped_items, b.dropped_items, id)
    &&& a.dropped_items.get(id) matches Some(item) && item.item_name@ == "meat"@ && item.quantity == 1
}

/// `a` records at `p`, in place of `d`, the entity `id` after the others;
/// off the map nothing changes.
pub open spec fn replaced_on_map(b: GameMap, a: GameMap, p: Position, d: Entity, id: Entity) -> bool {
    &&& a.width == b.width
    &&& a.height == b.height
    &&& a.well_formed()
    &&& forall|qx: u32, qy: u32| #[trigger] a.tile_at(qx, qy) == b.tile_at(qx, qy)
    &&& forall|qx: u32, qy: u32| #[trigger] a.entities_at(qx, qy) == if qx == p.x && qy == p.y && p.x < b.width && p.y < b.height {
        Some(
            match b.entities_at(p.x, p.y) {
                Some(v) => without_entity(v, d),
                None => Seq::empty(),
            }.push(id),
        )
    } else {
        b.entities_at(qx, qy)
    }
}

/// What one event does to the world and map: the death of an entity that
/// stands somewhere leaves a piece of meat there in its place; a dead entity
/// leaves the world in any case. Other events change nothing.
pub open spec fn death_step(b: (World, GameMap), a: (World, GameMap), ev: Event) -> bool {
    match ev {
        Event::EntityDied(d) => if b.0.positions.get(d as int) is Some {
            let p = b.0.positions.get(d as int)->0;
            &&& exists|mid: World| dropped_meat(b.0, mid, p) && removed_entity(mid, a.0, d)
            &&& replaced_on_map(b.1, a.1, p, d, b.0.next_id() as Entity)
        } else {
            removed_entity(b.0, a.0, d) && a.1 == b.1
        },
        _ => a == b,
    }
}

/// Takes every queued event and handles each death in turn: the dead
/// entity's tile, if it stands on one, gets a new entity with one piece of
/// meat in its place, and the dead entity leaves the world.
pub fn death_system(world: &mut World, event_bus: &mut EventBus, map: &mut GameMap)
    requires
        old(world).well_formed(),
        old(map).well_formed(),
        old(world).next_id() + old(event_bus).events@.len() < usize::MAX,
    ensures
        final(event_bus).events@.len() == 0,
        final(world).well_formed(),
        exists|trace: Seq<(World, GameMap)>|
            trace.len() == old(event_bus).events@.len() + 1 && trace[0] == (*old(world), *old(map))
                && trace[old(event_bus).events@.len() as int] == (*final(world), *final(map))
                && forall|i: int| 0 <= i < old(event_bus).events@.len() ==> #[trigger] death_step(trace[i], trace[i + 1], old(event_bus).events@[i]),
{
    let events = event_bus.take_events();
    let ghost start = (*world, *map);
    let ghost mut trace: Seq<(World, GameMap)> = seq![(*world, *map)];
    let mut i: usize = 0;
    while i < events.len()
        invariant
            i <= events@.len(),
            world.well_formed(),
            map.well_formed(),
            world.next_id() <= start.0.next_id() + i,
            start.0.next_id() + events@.len() < usize::MAX,
            trace.len() == i + 1,
            trace[0] == start,
            trace[i as int] == (*world, *map),
            forall|j: int| 0 <= j < i ==> #[trigger] death_step(trace[j], trace[j + 1], events@[j]),
        decreases events@.len() - i,
    {
        let ghost before = (*world, *map);
        match &events[i] {
            Event::EntityDied(dead) => {
                let dead = *dead;
                let at = match world.positions.get_component(dead) {
                    Some(p) => Some(*p),
                    None => None,
                };
                if let Some(pos) = at {
                    map.remove_entity_from_spatial_map(dead, pos.x, pos.y);
                    let item_entity = world.create_entity();
                    world.dropped_items.add_component(item_entity, DroppedItem { item_name: owned("meat"), quantity: 1 });
                    world.positions.add_component(item_entity, pos);
                    map.add_entity_to_spatial_map(item_entity, pos.x, pos.y);
                    let ghost mid = *world;
                    proof {
                        reveal_strlit("meat");
                        assert(dropped_meat(before.0, mid, pos));
                    }
                    world.remove_entity(dead);
                    proof {
                        assert(removed_entity(mid, *world, dead));
                    }
                } else {
                    world.remove_entity(dead);
                }
            },
            _ => {},
        }
        proof {
            assert(death_step(before, (*world, *map), events@[i as int]));
            trace = trace.push((*world, *map));
        }
        i = i + 1;
    }
}

/// `a` is map `b` with every record of `e` at `p` removed.
pub open spec fn unrecorded(b: GameMap, a: GameMap, e: Entity, p: Position) -> bool {
    &&& a.width == b.width
    &&& a.height == b.height
    &&& a.well_formed()
    &&& forall|qx: u32, qy: u32| #[trigger] a.tile_at(qx, qy) == b.tile_at(qx, qy)
    &&& forall|qx: u32, qy: u32| #[trigger] a.entities_at(qx, qy) == if qx == p.x && qy == p.y {
        match b.entities_at(p.x, p.y) {
            Some(v) => Some(without_entity(v, e)),
            None => None,
        }
    } else {
        b.entities_at(qx, qy)
    }
}

/// `a` is map `b` with `e` recorded at `p` after the others there; off the
/// map nothing changes.
pub open spec fn recorded(b: GameMap, a: GameMap, e: Entity, p: Position) -> bool {
    &&& a.width == b.width
    &&& a.height == b.height
    &&& a.well_formed()
    &&& forall|qx: u32, qy: u32| #[trigger] a.tile_at(qx, qy) == b.tile_at(qx, qy)
    &&& forall|qx: u32, qy: u32| #[trigger] a.entities_at(qx, qy) == if qx == p.x && qy == p.y && p.x < b.width && p.y < b.height {
        Some(
            match b.entities_at(p.x, p.y) {
                Some(v) => v,
                None => Seq::empty(),
            }.push(e),
        )
    } else {
        b.entities_at(qx, qy)
    }
}

/// A position moved by a velocity, each coordinate wrapping around the `u32` range.
pub open spec fn moved(p: Position, v: Velocity) -> Position {
    Position { x: (p.x as i64 + v.dx as i64) as u32, y: (p.y as i64 + v.dy as i64) as u32 }
}

/// Entity `q` is among the first `n` of `ids`.
pub open spec fn listed(ids: Seq<Entity>, n: int, q: int) -> bool {
    exists|j: int| 0 <= j < n && ids[j] as int == q
}

/// One movement step, for entity `e`: an entity with a velocity and a
/// position moves by the velocity, and the map's record of it moves along.
pub open spec fn move_step(b: (World, GameMap), a: (World, GameMap), e: Entity) -> bool {
    if b.0.velocities.get(e as int) is Some && b.0.positions.get(e as int) is Some {
        let p = b.0.positions.get(e as int)->0;
        let np = moved(p, b.0.velocities.get(e as int)->0);
        &&& a.0 == World { positions: a.0.positions, ..b.0 }
        &&& same_except(a.0.positions, b.0.positions, e as int)
        &&& a.0.positions.get(e as int) == Some(np)
        &&& exists|mid: GameMap| unrecorded(b.1, mid, e, p) && recorded(mid, a.1, e, np)
    } else {
        a == b
    }
}

/// Moves each live entity with a velocity and a position by its velocity,
/// in the order of the live entities, keeping the map's records in step;
/// then every live entity loses its velocity.
pub fn movement_system(world: &mut World, map: &mut GameMap)
    requires
        old(world).well_formed(),
        old(map).well_formed(),
    ensures
        final(map).well_formed(),
        exists|trace: Seq<(World, GameMap)>|
            is_run(trace, old(world).entities@.len() as int, |b: (World, GameMap), a: (World, GameMap), k: int| move_step(b, a, old(world).entities@[k]))
                && trace[0] == (*old(world), *old(map))
                && *final(map) == trace[old(world).entities@.len() as int].1
                && *final(world) == (World { velocities: final(world).velocities, ..trace[old(world).entities@.len() as int].0 })
                && forall|e: int| #[trigger] final(world).velocities.get(e) == if listed(old(world).entities@, old(world).entities@.len() as int, e) {
                    None
                } else {
                    old(world).velocities.get(e)
                },
{
    let n = world.entities.len();
    let ghost start = (*world, *map);
    let ghost ids = world.entities@;
    let ghost step = |b: (World, GameMap), a: (World, GameMap), k: int| move_step(b, a, ids[k]);
    let ghost mut trace: Seq<(World, GameMap)> = seq![(*world, *map)];
    let mut k: usize = 0;
    while k < n
        invariant
            k <= n,
            n == ids.len(),
            ids == start.0.entities@,
            world.entities@ == ids,
            crate::ecs::ids_below(ids, start.0.next_id()),
            map.well_formed(),
            world.velocities == start.0.velocities,
            trace.len() == k + 1,
            trace[0] == start,
            trace[k as int] == (*world, *map),
            forall|j: int| 0 <= j < k ==> #[trigger] step(trace[j], trace[j + 1], j),
            step == (|b: (World, GameMap), a: (World, GameMap), k: int| move_step(b, a, ids[k])),
        decreases n - k,
    {
        let ghost before = (*world, *map);
        let entity = world.entities[k];
        let vel = match world.velocities.get_component(entity) {
            Some(v) => Some(*v),
            None => None,
        };
        if let Some(vel) = vel {
            let at = match world.positions.get_component(entity) {
                Some(p) => Some(*p),
                None => None,
            };
            if let Some(pos) = at {
                map.remove_entity_from_spatial_map(entity, pos.x, pos.y);
                let ghost mid = *map;
                let new_pos = Position {
                    x: (pos.x as i64 + vel.dx as i64) as u32,
                    y: (pos.y as i64 + vel.dy as i64) as u32,
                };
                world.positions.add_component(entity, new_pos);
                map.add_entity_to_spatial_map(entity, new_pos.x, new_pos.y);
                proof {
                    assert(unrecorded(before.1, mid, entity, pos));
                    assert(recorded(mid, *map, entity, new_pos));
                }
            }
        }
        proof {
            assert(move_step(before, (*world, *map), ids[k as int]));
            trace = trace.push((*world, *map));
        }
        k = k + 1;
    }
    let ghost last = *world;
    let mut e: usize = 0;
    while e < n
        invariant
            e <= n,
            n == ids.len(),
            world.entities@ == ids,
            *world == (World { velocities: world.velocities, ..last }),
            last.velocities == start.0.velocities,
            forall|q: int| #[trigger] world.velocities.get(q) == if listed(ids, e as int, q) {
                None
            } else {
                last.velocities.get(q)
            },
        decreases n - e,
    {
        let entity = world.entities[e];
        world.velocities.remove_component_for_entity(entity);
        proof {
            assert forall|q: int| #[trigger] world.velocities.get(q) == if listed(ids, e as int + 1, q) {
                None
            } else {
                last.velocities.get(q)
            } by {
                if q == entity as int {
                    assert(ids[e as int] as int == q);
                } else {
                    if listed(ids, e as int + 1, q) {
                        let j = choose|j: int| 0 <= j < e + 1 && ids[j] as int == q;
                        assert(j != e);
                    }
                }
            }
        }
        e = e + 1;
    }
    proof {
        assert(is_run(trace, n as int, step));
    }
}

/// The terrain a built structure shows: a chest, a foundation, a wall, a
/// doorway, or a generic structure.
pub open spec fn structure_glyph(name: Seq<char>) -> char {
    if name == "chest"@ {
        'C'
    } else if name == "foundation"@ {
        'B'
    } else if name == "wall"@ {
        '#'
    } else if name == "doorway"@ {
        'O'
    } else {
        'X'
    }
}

/// What a structure shows, name by name: a wall `'#'`, a doorway `'O'`, a
/// foundation `'B'`, a chest `'C'`, and any other structure `'X'`; no two of
/// these names show alike.
pub proof fn lemma_structure_glyphs(name: Seq<char>)
    ensures
        structure_glyph(name) == '#' <==> name == "wall"@,
        structure_glyph(name) == 'O' <==> name == "doorway"@,
        structure_glyph(name) == 'B' <==> name == "foundation"@,
        structure_glyph(name) == 'C' <==> name == "chest"@,
        structure_glyph(name) == 'X' <==> (name != "wall"@ && name != "doorway"@ && name != "foundation"@ && name != "chest"@),
{
    reveal_strlit("chest");
    reveal_strlit("foundation");
    reveal_strlit("wall");
    reveal_strlit("doorway");
    assert("chest"@.len() == 5 && "foundation"@.len() == 10 && "wall"@.len() == 4 && "doorway"@.len() == 7);
}

/// The terrain a built structure shows.
pub fn structure_glyph_of(name: &str) -> (r: char)
    ensures
        r == structure_glyph(name@),
{
    proof {
        reveal_strlit("chest");
        reveal_strlit("foundation");
        reveal_strlit("wall");
        reveal_strlit("doorway");
    }
    if str_eq(name, "chest") {
        'C'
    } else if str_eq(name, "foundation") {
        'B'
    } else if str_eq(name, "wall") {
        '#'
    } else if str_eq(name, "doorway") {
        'O'
    } else {
        'X'
    }
}

/// Whether entity `k` builds this tick: it wants to build a structure whose
/// recipes expand without a cycle, stands on a grass tile, and its
/// inventory holds everything the structure needs.
pub open spec fn builds(t: RecipeTable, w: World, m: GameMap, k: int) -> bool {
    &&& w.wants_to_build.get(k) is Some
    &&& w.positions.get(k) is Some
    &&& m.tile_at(w.positions.get(k)->0.x, w.positions.get(k)->0.y) matches Some(tile) && tile.tile_type == '.'
    &&& w.inventories.get(k) is Some
    &&& needs(t, w.wants_to_build.get(k)->0.structure_name@) is Some
    &&& covers(w.inventories.get(k)->0.items@, needs(t, w.wants_to_build.get(k)->0.structure_name@)->0)
}

/// `a` is map `b` with the terrain of the tile at `p` turned into `glyph`.
pub open spec fn retiled(b: GameMap, a: GameMap, p: Position, glyph: char) -> bool {
    &&& a.width == b.width
    &&& a.height == b.height
    &&& a.well_formed()
    &&& forall|qx: u32, qy: u32| #[trigger] a.tile_at(qx, qy) == if qx == p.x && qy == p.y {
        Some(TileView { tile_type: glyph, ..b.tile_at(p.x, p.y)->0 })
    } else {
        b.tile_at(qx, qy)
    }
    &&& forall|qx: u32, qy: u32| #[trigger] a.entities_at(qx, qy) == b.entities_at(qx, qy)
}

/// One building step, for entity `k`: an entity that builds spends what the
/// structure needs and the tile it stands on shows the structure. A chest
/// becomes a new entity, with the builder's position and an empty
/// inventory; a foundation is announced on the bus.
pub open spec fn build_step(t: RecipeTable, b: (World, GameMap, Seq<Event>), a: (World, GameMap, Seq<Event>), k: int) -> bool {
    if builds(t, b.0, b.1, k) {
        let name = b.0.wants_to_build.get(k)->0.structure_name@;
        let p = b.0.positions.get(k)->0;
        let id = b.0.next_id();
        &&& same_except(a.0.inventories, b.0.inventories, k)
        &&& a.0.inventories.get(k) matches Some(i2) && i2.items@ == take_all(b.0.inventories.get(k)->0.items@, needs(t, name)->0)
        &&& retiled(b.1, a.1, p, structure_glyph(name))
        &&& if name == "chest"@ {
            &&& a.0 == World {
                inventories: a.0.inventories,
                entities: a.0.entities,
                next_entity_id: a.0.next_entity_id,
                positions: a.0.positions,
                chests: a.0.chests,
                ..b.0
            }
            &&& a.0.entities@ == b.0.entities@.push(id as Entity)
            &&& a.0.next_id() == id + 1
            &&& same_except(a.0.positions, b.0.positions, id)
            &&& a.0.positions.get(id) == Some(p)
            &&& same_except(a.0.chests, b.0.chests, id)
            &&& a.0.chests.get(id) matches Some(c) && c.inventory.items@ == Map::<Seq<char>, u32>::empty()
            &&& a.2 == b.2
        } else {
            &&& a.0 == World { inventories: a.0.inventories, ..b.0 }
            &&& a.2 == if name == "foundation"@ {
                b.2.push(Event::FoundationBuilt { builder: k as Entity, position: p })
            } else {
                b.2
            }
        }
    } else {
        a == b
    }
}

/// Entities that want to build a structure, stand on grass and hold what it
/// needs, spend that, and their tile shows the structure. A chest becomes an
/// entity of its own, standing there with an empty inventory; a foundation is
/// announced on the bus. Every building intent of the entities `0..n` is then
/// cleared.
pub fn building_system(world: &mut World, map: &mut GameMap, event_bus: &mut EventBus, recipe_manager: &RecipeManager)
    requires
        old(world).well_formed(),
        old(map).well_formed(),
        old(world).next_id() + old(world).entities@.len() < usize::MAX,
        forall|k: int| 0 <= k < old(world).entities@.len() && #[trigger] old(world).wants_to_build.get(k) is Some
            ==> expand(recipe_manager.table(), old(world).wants_to_build.get(k)->0.structure_name@, 1, Set::empty())
                != Expansion::Overflow,
    ensures
        final(world).well_formed(),
        final(map).well_formed(),
        exists|trace: Seq<(World, GameMap, Seq<Event>)>|
            is_run(trace, old(world).entities@.len() as int, |b: (World, GameMap, Seq<Event>), a: (World, GameMap, Seq<Event>), k: int| build_step(recipe_manager.table(), b, a, k))
                && trace[0] == (*old(world), *old(map), old(event_bus).events@)
                && *final(map) == trace[old(world).entities@.len() as int].1
                && final(event_bus).events@ == trace[old(world).entities@.len() as int].2
                && *final(world) == (World { wants_to_build: final(world).wants_to_build, ..trace[old(world).entities@.len() as int].0 })
                && cleared(
                final(world).wants_to_build,
                trace[old(world).entities@.len() as int].0.wants_to_build,
                old(world).entities@.len() as int,
            ),
{
    let n = world.entities.len();
    let ghost table = recipe_manager.table();
    let ghost start = (*world, *map, event_bus.events@);
    let ghost step = |b: (World, GameMap, Seq<Event>), a: (World, GameMap, Seq<Event>), k: int| build_step(table, b, a, k);
    let ghost mut trace: Seq<(World, GameMap, Seq<Event>)> = seq![start];
    let mut k: usize = 0;
    while k < n
        invariant
            k <= n,
            n == start.0.entities@.len(),
            table == recipe_manager.table(),
            world.well_formed(),
            map.well_formed(),
            world.next_id() <= start.0.next_id() + k,
            start.0.next_id() + n < usize::MAX,
            world.wants_to_build == start.0.wants_to_build,
            forall|j: int| 0 <= j < n && #[trigger] start.0.wants_to_build.get(j) is Some
                ==> expand(table, start.0.wants_to_build.get(j)->0.structure_name@, 1, Set::empty()) != Expansion::Overflow,
            trace.len() == k + 1,
            trace[0] == start,
            trace[k as int] == (*world, *map, event_bus.events@),
            forall|j: int| 0 <= j < k ==> #[trigger] step(trace[j], trace[j + 1], j),
            step == (|b: (World, GameMap, Seq<Event>), a: (World, GameMap, Seq<Event>), k: int| build_step(table, b, a, k)),
        decreases n - k,
    {
        let ghost before = (*world, *map, event_bus.events@);
        if let Some(w) = world.wants_to_build.get_component(k) {
            let structure_name = w.structure_name.clone();
            let at = match world.positions.get_component(k) {
                Some(p) => Some(*p),
                None => None,
            };
            if let Some(pos) = at {
                if let Some(mut tile) = map.get_tile(pos.x, pos.y) {
                    if tile.tile_type == '.' && world.inventories.has(k) {
                        let required = recipe_manager.get_required_resources(structure_name.as_str(), 1);
                        if let Ok(required) = required {
                            proof {
                                lemma_as_u32s_as_ints(required@);
                            }
                            let enough = match world.inventories.get_component(k) {
                                Some(inventory) => inventory.has_resources(&required),
                                None => false,
                            };
                            if enough {
                                if let Some(mut inventory) = world.inventories.take(k) {
                                    inventory.remove_resources(&required);
                                    world.inventories.add_component(k, inventory);
                                }
                                let glyph = structure_glyph_of(structure_name.as_str());
                                tile.tile_type = glyph;
                                proof {
                                    reveal_strlit("chest");
                                    reveal_strlit("foundation");
                                }
                                if str_eq(structure_name.as_str(), "chest") {
                                    let chest_entity = world.create_entity();
                                    world.positions.add_component(chest_entity, pos);
                                    world.chests.add_component(chest_entity, Chest { inventory: Inventory::new() });
                                } else if str_eq(structure_name.as_str(), "foundation") {
                                    event_bus.publish(Event::FoundationBuilt { builder: k, position: pos });
                                }
                                map.set_tile(pos.x, pos.y, tile);
                            }
                        }
                    }
                }
            }
        }
        proof {
            assert(build_step(table, before, (*world, *map, event_bus.events@), k as int));
            trace = trace.push((*world, *map, event_bus.events@));
        }
        k = k + 1;
    }
    let ghost last = *world;
    let mut e: usize = 0;
    while e < n
        invariant
            e <= n,
            last.well_formed(),
            *world == (World { wants_to_build: world.wants_to_build, ..last }),
            forall|q: int| #[trigger] world.wants_to_build.get(q) == if 0 <= q < e { None } else { last.wants_to_build.get(q) },
        decreases n - e,
    {
        world.wants_to_build.remove_component_for_entity(e);
        e = e + 1;
    }
    proof {
        assert(is_run(trace, n as int, step));
    }
}

/// The entities of `v` that are dropped items in `w`, in order.
pub open spec fn dropped_among(w: World, v: Seq<Entity>) -> Seq<Entity> {
    v.filter(|x: Entity| w.dropped_items.get(x as int) is Some)
}

/// The dropped items recorded at `p`, in order.
pub open spec fn dropped_on(w: World, m: GameMap, p: Position) -> Seq<Entity> {
    match m.entities_at(p.x, p.y) {
        Some(v) => dropped_among(w, v),
        None => Seq::empty(),
    }
}

/// The counts `held` after adding, in order, what each dropped item of `items` holds.
pub open spec fn gained(w: World, held: Map<Seq<char>, u32>, items: Seq<Entity>) -> Map<Seq<char>, u32>
    decreases items.len(),
{
    if items.len() == 0 {
        held
    } else {
        let d = w.dropped_items.get(items.last() as int)->0;
        with_more(gained(w, held, items.drop_last()), d.item_name@, d.quantity)
    }
}

/// No count overflows while adding, in order, what each dropped item of `items` holds.
pub open spec fn gain_fits(w: World, held: Map<Seq<char>, u32>, items: Seq<Entity>) -> bool
    decreases items.len(),
{
    if items.len() == 0 {
        true
    } else {
        let d = w.dropped_items.get(items.last() as int)->0;
        gain_fits(w, held, items.drop_last()) && quantity_in(gained(w, held, items.drop_last()), d.item_name@) + d.quantity
            <= u32::MAX
    }
}

/// `a` is `b` after a picked-up item `x` left the map and the world.
pub open spec fn cleared_item(b: (World, GameMap), a: (World, GameMap), x: Entity) -> bool {
    &&& if b.0.positions.get(x as int) is Some {
        unrecorded(b.1, a.1, x, b.0.positions.get(x as int)->0)
    } else {
        a.1 == b.1
    }
    &&& removed_entity(b.0, a.0, x)
}

/// One pickup step, for entity `e`: an entity that wants to pick up what
/// lies on its tile adds, in order, what each dropped item recorded there
/// holds to its inventory, if it has one; then each of those items leaves
/// the map and the world.
pub open spec fn pickup_step(b: (World, GameMap), a: (World, GameMap), e: Entity) -> bool {
    if b.0.wants_to_pickup.get(e as int) is Some && b.0.positions.get(e as int) is Some {
        let items = dropped_on(b.0, b.1, b.0.positions.get(e as int)->0);
        exists|tr: Seq<(World, GameMap)>| {
            &&& tr.len() == items.len() + 1
            &&& tr[0].1 == b.1
            &&& tr[0].0 == World { inventories: tr[0].0.inventories, ..b.0 }
            &&& same_except(tr[0].0.inventories, b.0.inventories, e as int)
            &&& match b.0.inventories.get(e as int) {
                Some(inv) => tr[0].0.inventories.get(e as int) matches Some(i2) && i2.items@ == gained(b.0, inv.items@, items),
                None => tr[0].0.inventories.get(e as int) is None,
            }
            &&& forall|j: int| 0 <= j < items.len() ==> #[trigger] cleared_item(tr[j], tr[j + 1], items[j])
            &&& tr[items.len() as int] == a
        }
    } else {
        a == b
    }
}

/// The pickup of entity `e` overflows no count of its inventory.
pub open spec fn pickup_fits(b: (World, GameMap), e: Entity) -> bool {
    b.0.wants_to_pickup.get(e as int) is Some && b.0.positions.get(e as int) is Some && b.0.inventories.get(e as int) is Some
        ==> gain_fits(b.0, b.0.inventories.get(e as int)->0.items@, dropped_on(b.0, b.1, b.0.positions.get(e as int)->0))
}

/// The list of the dropped items among `v`.
fn dropped_items_among(world: &World, v: &Vec<Entity>) -> (r: Vec<Entity>)
    ensures
        r@ == dropped_among(*world, v@),
{
    let mut r: Vec<Entity> = Vec::new();
    let mut i: usize = 0;
    while i < v.len()
        invariant
            i <= v@.len(),
            r@ == dropped_among(*world, v@.take(i as int)),
        decreases v@.len() - i,
    {
        proof {
            reveal_with_fuel(Seq::filter, 1);
            assert(v@.take(i as int + 1).drop_last() =~= v@.take(i as int));
        }
        if world.dropped_items.has(v[i]) {
            r.push(v[i]);
        }
        i = i + 1;
    }
    proof {
        assert(v@.take(v@.len() as int) =~= v@);
    }
    r
}

/// Each live entity, in order, that wants to pick up what lies on its tile
/// takes every dropped item recorded there into its inventory, and those
/// items leave the map and the world; then every entity still live loses its
/// wish to pick up.
pub fn pickup_system(world: &mut World, map: &mut GameMap)
    requires
        old(world).well_formed(),
        old(map).well_formed(),
        forall|tr: Seq<(World, GameMap)>, k: int|
            0 <= k < old(world).entities@.len() && tr.len() == k + 1 && tr[0] == (*old(world), *old(map)) && (forall|j: int|
                0 <= j < k ==> #[trigger] pickup_step(tr[j], tr[j + 1], old(world).entities@[j])) ==> #[trigger] pickup_fits(
                tr[k],
                old(world).entities@[k],
            ),
    ensures
        final(world).well_formed(),
        final(map).well_formed(),
        exists|trace: Seq<(World, GameMap)>|
            is_run(trace, old(world).entities@.len() as int, |b: (World, GameMap), a: (World, GameMap), k: int| pickup_step(b, a, old(world).entities@[k]))
                && trace[0] == (*old(world), *old(map))
                && *final(map) == trace[old(world).entities@.len() as int].1
                && *final(world) == (World { wants_to_pickup: final(world).wants_to_pickup, ..trace[old(world).entities@.len() as int].0 })
                && forall|q: int| #[trigger] final(world).wants_to_pickup.get(q) == if listed(
                    final(world).entities@,
                    final(world).entities@.len() as int,
                    q,
                ) {
                    None
                } else {
                    trace[old(world).entities@.len() as int].0.wants_to_pickup.get(q)
                },
{
    let ids = copy_entities(&world.entities);
    let n = ids.len();
    let ghost start = (*world, *map);
    let ghost step = |b: (World, GameMap), a: (World, GameMap), k: int| pickup_step(b, a, ids@[k]);
    let ghost mut trace: Seq<(World, GameMap)> = seq![(*world, *map)];
    let mut k: usize = 0;
    while k < n
        invariant
            k <= n,
            n == ids@.len(),
            ids@ == start.0.entities@,
            world.well_formed(),
            map.well_formed(),
            trace.len() == k + 1,
            trace[0] == start,
            trace[k as int] == (*world, *map),
            forall|j: int| 0 <= j < k ==> #[trigger] step(trace[j], trace[j + 1], j),
            step == (|b: (World, GameMap), a: (World, GameMap), k: int| pickup_step(b, a, ids@[k])),
            forall|tr: Seq<(World, GameMap)>, q: int|
                0 <= q < n && tr.len() == q + 1 && tr[0] == start && (forall|j: int|
                    0 <= j < q ==> #[trigger] pickup_step(tr[j], tr[j + 1], ids@[j])) ==> #[trigger] pickup_fits(tr[q], ids@[q]),
        decreases n - k,
    {
        let ghost before = (*world, *map);
        proof {
            assert forall|j: int| 0 <= j < k implies #[trigger] pickup_step(trace[j], trace[j + 1], ids@[j]) by {
                assert(step(trace[j], trace[j + 1], j));
            }
            assert(pickup_fits(trace[k as int], ids@[k as int]));
        }
        let ghost mut sub: Seq<(World, GameMap)> = Seq::empty();
        let picker = ids[k];
        let at = match world.positions.get_component(picker) {
            Some(p) => Some(*p),
            None => None,
        };
        if world.wants_to_pickup.has(picker) && at.is_some() {
            let pos = match at {
                Some(p) => p,
                None => Position { x: 0, y: 0 },
            };
            let on_tile: Vec<Entity> = match map.get_entities_at(pos.x, pos.y) {
                Some(v) => v,
                None => Vec::new(),
            };
            let items = dropped_items_among(world, &on_tile);
            proof {
                assert(items@ == dropped_on(before.0, before.1, pos));
            }
            if let Some(mut inventory) = world.inventories.take(picker) {
                let ghost held = inventory.items@;
                let mut i: usize = 0;
                while i < items.len()
                    invariant
                        i <= items@.len(),
                        inventory.items@ == gained(before.0, held, items@.take(i as int)),
                        gain_fits(before.0, held, items@),
                        forall|x: int| 0 <= x < items@.len() ==> #[trigger] before.0.dropped_items.get(items@[x] as int) is Some,
                        world.dropped_items == before.0.dropped_items,
                    decreases items@.len() - i,
                {
                    proof {
                        assert(items@.take(i as int + 1).drop_last() =~= items@.take(i as int));
                        lemma_gain_fits_prefix(before.0, held, items@, i as int + 1);
                    }
                    let item = items[i];
                    if let Some(d) = world.dropped_items.get_component(item) {
                        inventory.add_item(d.item_name.as_str(), d.quantity);
                    }
                    i = i + 1;
                }
                proof {
                    assert(items@.take(items@.len() as int) =~= items@);
                }
                world.inventories.add_component(picker, inventory);
            }
            let ghost first = (*world, *map);
            proof {
                sub = seq![first];
            }
            let mut j: usize = 0;
            while j < items.len()
                invariant
                    j <= items@.len(),
                    world.well_formed(),
                    map.well_formed(),
                    sub.len() == j + 1,
                    sub[0] == first,
                    sub[j as int] == (*world, *map),
                    forall|q: int| 0 <= q < j ==> #[trigger] cleared_item(sub[q], sub[q + 1], items@[q]),
                decreases items@.len() - j,
            {
                let ghost b2 = (*world, *map);
                let item = items[j];
                let item_at = match world.positions.get_component(item) {
                    Some(p) => Some(*p),
                    None => None,
                };
                if let Some(ip) = item_at {
                    map.remove_entity_from_spatial_map(item, ip.x, ip.y);
                }
                world.remove_entity(item);
                proof {
                    assert(cleared_item(b2, (*world, *map), item));
                    sub = sub.push((*world, *map));
                }
                j = j + 1;
            }
            proof {
                assert(sub[0] == first);
                assert(sub.len() == items@.len() + 1);
                assert(sub[items@.len() as int] == (*world, *map));
                assert(first.1 == before.1);
                assert(first.0 == World { inventories: first.0.inventories, ..before.0 });
            }
        }
        proof {
            assert(pickup_step(before, (*world, *map), ids@[k as int]));
            trace = trace.push((*world, *map));
        }
        k = k + 1;
    }
    let ghost last = *world;
    let live = copy_entities(&world.entities);
    let mut e: usize = 0;
    while e < live.len()
        invariant
            e <= live@.len(),
            live@ == last.entities@,
            last.well_formed(),
            *world == (World { wants_to_pickup: world.wants_to_pickup, ..last }),
            forall|q: int| #[trigger] world.wants_to_pickup.get(q) == if listed(live@, e as int, q) {
                None
            } else {
                last.wants_to_pickup.get(q)
            },
        decreases live@.len() - e,
    {
        let entity = live[e];
        world.wants_to_pickup.remove_component_for_entity(entity);
        proof {
            assert forall|q: int| #[trigger] world.wants_to_pickup.get(q) == if listed(live@, e as int + 1, q) {
                None
            } else {
                last.wants_to_pickup.get(q)
            } by {
                if q == entity as int {
                    assert(live@[e as int] as int == q);
                } else {
                    if listed(live@, e as int + 1, q) {
                        let j = choose|j: int| 0 <= j < e + 1 && live@[j] as int == q;
                        assert(j != e);
                    }
                }
            }
        }
        e = e + 1;
    }
    proof {
        assert(is_run(trace, n as int, step));
    }
}

/// Fitting all additions means fitting those of any prefix.
proof fn lemma_gain_fits_prefix(w: World, held: Map<Seq<char>, u32>, items: Seq<Entity>, i: int)
    requires
        0 <= i <= items.len(),
        gain_fits(w, held, items),
    ensures
        gain_fits(w, held, items.take(i)),
    decreases items.len() - i,
{
    if i < items.len() {
        assert(items.drop_last().take(i) =~= items.take(i));
        lemma_gain_fits_prefix(w, held, items.drop_last(), i);
    } else {
        assert(items.take(i) =~= items);
    }
}

/// What remains of a tile's state once it leaves the view: a visible tile
/// becomes explored.
pub open spec fn dimmed(s: TileState) -> TileState {
    if s == TileState::Visible {
        TileState::Explored
    } else {
        s
    }
}

/// How far a player sees: eight tiles by day, four by night.
pub open spec fn sight_radius(is_day: bool) -> i32 {
    if is_day {
        8
    } else {
        4
    }
}

/// `v` is the field of view from `p` with radius `r` on `m`, as
/// [`field_of_view`] computes it: without repeats, holding exactly the
/// positions that the shadowcast [`view_set`] sees. So it holds the viewer,
/// only tiles on the map within the radius, every such tile when nothing
/// there blocks sight, and no tile behind a blocking tile on an axis or
/// diagonal ray from the viewer.
pub open spec fn is_view(v: Seq<Position>, p: Position, r: i32, m: GameMap) -> bool {
    &&& v.no_duplicates()
    &&& v.to_set() == view_set(m, p, r)
    &&& forall|q: Position| #[trigger] behind_neighbour(m, p, r, q) ==> !v.contains(q)
    &&& forall|q: Position| #[trigger] behind_blocker(m, p, r, q) ==> !v.contains(q)
    &&& v.contains(p)
    &&& forall|q: Position| #[trigger] v.contains(q) ==> q == p || (on_map(m, q.x as int, q.y as int) && within(p, r, q.x as int, q.y as int))
    &&& clear_around(m, p, r) ==> forall|q: Position|
        on_map(m, q.x as int, q.y as int) && within(p, r, q.x as int, q.y as int) ==> #[trigger] v.contains(q)
}

/// One visibility step, for entity `e`: a player with a position looks
/// around. The tiles of its field of view ([`view_set`], eight tiles by day
/// and four by night) become visible; every other tile it showed as visible
/// becomes explored, and the rest of its sight map stays as it was.
pub open spec fn vision_step(m: GameMap, is_day: bool, b: World, a: World, e: int) -> bool {
    if b.positions.get(e) is Some && b.players.get(e) is Some {
        let p = b.positions.get(e)->0;
        let pl = b.players.get(e)->0;
        &&& a == World { players: a.players, ..b }
        &&& same_except(a.players, b.players, e)
        &&& a.players.get(e) matches Some(np) && {
            &&& np.id == pl.id
            &&& np.held_item == pl.held_item
            &&& np.mental_map.width == pl.mental_map.width
            &&& np.mental_map.height == pl.mental_map.height
            &&& np.mental_map.well_formed()
            &&& forall|x: int, y: int|
                0 <= x < pl.mental_map.width && 0 <= y < pl.mental_map.height ==> #[trigger] np.mental_map.at(x, y)
                    == if view_set(m, p, sight_radius(is_day)).contains(Position { x: x as u32, y: y as u32 }) {
                    TileState::Visible
                } else {
                    dimmed(pl.mental_map.at(x, y))
                }
        }
    } else {
        a == b
    }
}

/// What looking around does to player `e`'s sight map between `b` and `a`:
/// a player with a position has each tile of its field of view visible,
/// every other tile it showed as visible explored, and the rest unchanged;
/// anyone else's player component is as it was.
pub open spec fn sight_updated(m: GameMap, is_day: bool, b: World, a: World, e: int) -> bool {
    if b.positions.get(e) is Some && b.players.get(e) is Some {
        let p = b.positions.get(e)->0;
        let pl = b.players.get(e)->0;
        a.players.get(e) matches Some(np) && np.id == pl.id && np.held_item == pl.held_item
            && np.mental_map.width == pl.mental_map.width && np.mental_map.height == pl.mental_map.height
            && forall|x: int, y: int|
            0 <= x < pl.mental_map.width && 0 <= y < pl.mental_map.height ==> #[trigger] np.mental_map.at(x, y)
                == if view_set(m, p, sight_radius(is_day)).contains(Position { x: x as u32, y: y as u32 }) {
                TileState::Visible
            } else {
                dimmed(pl.mental_map.at(x, y))
            }
    } else {
        a.players.get(e) == b.players.get(e)
    }
}

proof fn lemma_vision_prefix(m: GameMap, is_day: bool, trace: Seq<World>, n: int, e: int, j: int)
    requires
        trace.len() == n + 1,
        forall|k: int| 0 <= k < n ==> #[trigger] vision_step(m, is_day, trace[k], trace[k + 1], k),
        0 <= e < n,
        0 <= j <= n,
    ensures
        trace[j] == (World { players: trace[j].players, ..trace[0] }),
        j <= e ==> trace[j].players.get(e) == trace[0].players.get(e),
        j > e ==> trace[j].players.get(e) == trace[e + 1].players.get(e),
    decreases j,
{
    if j > 0 {
        lemma_vision_prefix(m, is_day, trace, n, e, j - 1);
        let k = j - 1;
        assert(vision_step(m, is_day, trace[k], trace[k + 1], k));
        assert(k + 1 == j);
    }
}

/// Over a run of visibility steps, each player among the entities `0..n`
/// that has a position ends up showing exactly its field of view as
/// visible, what it saw before and no longer sees as explored, and the rest
/// of its sight map as it was; every other component is unchanged.
proof fn lemma_vision_per_player(m: GameMap, is_day: bool, trace: Seq<World>, n: int, e: int)
    requires
        trace.len() == n + 1,
        forall|k: int| 0 <= k < n ==> #[trigger] vision_step(m, is_day, trace[k], trace[k + 1], k),
        0 <= e < n,
    ensures
        sight_updated(m, is_day, trace[0], trace[n], e),
        trace[n] == (World { players: trace[n].players, ..trace[0] }),
{
    lemma_vision_prefix(m, is_day, trace, n, e, e);
    lemma_vision_prefix(m, is_day, trace, n, e, n);
    assert(vision_step(m, is_day, trace[e], trace[e + 1], e));
}

/// A player whose sight map covers the map and its own position, standing
/// where a field of view can be computed.
pub open spec fn can_look(w: World, m: GameMap, e: int) -> bool {
    w.positions.get(e) is Some && w.players.get(e) is Some ==> {
        let p = w.positions.get(e)->0;
        let mm = w.players.get(e)->0.mental_map;
        &&& mm.well_formed()
        &&& p.x < mm.width && p.y < mm.height
        &&& m.width <= mm.width && m.height <= mm.height
        &&& p.x < 0x7fff_8000 && p.y < 0x7fff_8000
    }
}

/// The player's sight map with every visible tile turned explored, then the
/// tiles of a fresh field of view turned visible.
fn look_around(player: &mut Player, pos: Position, radius: i32, map: &GameMap)
    requires
        old(player).mental_map.well_formed(),
        pos.x < old(player).mental_map.width && pos.y < old(player).mental_map.height,
        map.width <= old(player).mental_map.width && map.height <= old(player).mental_map.height,
        map.width <= 0x7fff_ffff && map.height <= 0x7fff_ffff,
        pos.x < 0x7fff_8000 && pos.y < 0x7fff_8000,
        -32767 <= radius <= 32767,
    ensures
        final(player).id == old(player).id,
        final(player).held_item == old(player).held_item,
        final(player).mental_map.width == old(player).mental_map.width,
        final(player).mental_map.height == old(player).mental_map.height,
        final(player).mental_map.well_formed(),
        forall|x: int, y: int|
            0 <= x < old(player).mental_map.width && 0 <= y < old(player).mental_map.height ==> #[trigger] final(player).mental_map.at(x, y)
                == if view_set(*map, pos, radius).contains(Position { x: x as u32, y: y as u32 }) {
                TileState::Visible
            } else {
                dimmed(old(player).mental_map.at(x, y))
            },
{
    let ghost orig = player.mental_map;
    let width = player.mental_map.width;
    let height = player.mental_map.height;
    let mut y: u32 = 0;
    while y < height
        invariant
            y <= height,
            width == orig.width,
            height == orig.height,
            player.mental_map.width == width,
            player.mental_map.height == height,
            player.id == old(player).id,
            player.held_item == old(player).held_item,
            orig == old(player).mental_map,
            player.mental_map.well_formed(),
            forall|i: int, j: int| 0 <= i < height && 0 <= j < width ==> #[trigger] player.mental_map.at(j, i)
                == if i < y { dimmed(orig.at(j, i)) } else { orig.at(j, i) },
        decreases height - y,
    {
        let mut x: u32 = 0;
        while x < width
            invariant
                x <= width,
                y < height,
                width == orig.width,
                height == orig.height,
                player.mental_map.width == width,
                player.mental_map.height == height,
                player.id == old(player).id,
                player.held_item == old(player).held_item,
                player.mental_map.well_formed(),
                forall|i: int, j: int| 0 <= i < height && 0 <= j < width ==> #[trigger] player.mental_map.at(j, i)
                    == if i < y || (i == y && j < x) { dimmed(orig.at(j, i)) } else { orig.at(j, i) },
            decreases width - x,
        {
            if player.mental_map.grid[y as usize][x as usize] == TileState::Visible {
                player.mental_map.grid[y as usize][x as usize] = TileState::Explored;
            }
            x = x + 1;
        }
        y = y + 1;
    }
    let visible = field_of_view(&pos, radius, map);
    let ghost v = visible@;
    let mut i: usize = 0;
    while i < visible.len()
        invariant
            i <= visible@.len(),
            v == visible@,
            is_view(v, pos, radius, *map),
            pos.x < width && pos.y < height,
            map.width <= width && map.height <= height,
            map.width <= 0x7fff_ffff && map.height <= 0x7fff_ffff,
            width == orig.width,
            height == orig.height,
            player.mental_map.width == width,
            player.mental_map.height == height,
            player.id == old(player).id,
            player.held_item == old(player).held_item,
            player.mental_map.well_formed(),
            forall|a: int, b: int| 0 <= a < height && 0 <= b < width ==> #[trigger] player.mental_map.at(b, a)
                == if v.take(i as int).contains(Position { x: b as u32, y: a as u32 }) {
                TileState::Visible
            } else {
                dimmed(orig.at(b, a))
            },
        decreases visible@.len() - i,
    {
        let q = visible[i];
        proof {
            assert(v.contains(q));
        }
        let ghost prev = player.mental_map;
        player.mental_map.grid[q.y as usize][q.x as usize] = TileState::Visible;
        proof {
            assert forall|a: int, b: int| 0 <= a < height && 0 <= b < width implies #[trigger] player.mental_map.at(b, a)
                == if a == q.y && b == q.x { TileState::Visible } else { prev.at(b, a) } by {}
        }
        proof {
            assert forall|a: int, b: int| 0 <= a < height && 0 <= b < width implies #[trigger] player.mental_map.at(b, a)
                == if v.take(i as int + 1).contains(Position { x: b as u32, y: a as u32 }) {
                TileState::Visible
            } else {
                dimmed(orig.at(b, a))
            } by {
                assert(v.take(i as int + 1) =~= v.take(i as int).push(q));
                let c = Position { x: b as u32, y: a as u32 };
                let t1 = v.take(i as int + 1);
                let t0 = v.take(i as int);
                assert(c.x as int == b && c.y as int == a);
                if c == q {
                    assert(t1[i as int] == c);
                } else {
                    if t1.contains(c) {
                        let k = choose|k: int| 0 <= k < t1.len() && t1[k] == c;
                        assert(k != i);
                        assert(t0[k] == c);
                    }
                    if t0.contains(c) {
                        let k = choose|k: int| 0 <= k < t0.len() && t0[k] == c;
                        assert(t1[k] == c);
                    }
                }
            }
        }
        i = i + 1;
    }
    proof {
        assert(v.take(v.len() as int) =~= v);
        assert forall|x: int, y: int| #[trigger] v.contains(Position { x: x as u32, y: y as u32 })
            == view_set(*map, pos, radius).contains(Position { x: x as u32, y: y as u32 }) by {
            assert(v.to_set().contains(Position { x: x as u32, y: y as u32 }) == v.contains(Position { x: x as u32, y: y as u32 }));
        }
    }
}

/// Every player with a position among the entity indices `0..n` looks
/// around: its earlier view dims to explored, and what it sees now, within
/// eight tiles by day or four by night, becomes visible.
pub fn visibility_system(world: &mut World, map: &GameMap, is_day: bool)
    requires
        map.width <= 0x7fff_ffff && map.height <= 0x7fff_ffff,
        forall|e: int| 0 <= e < old(world).entities@.len() ==> #[trigger] can_look(*old(world), *map, e),
    ensures
        exists|trace: Seq<World>|
            is_run(trace, old(world).entities@.len() as int, |b: World, a: World, k: int| vision_step(*map, is_day, b, a, k))
                && trace[0] == *old(world) && trace[old(world).entities@.len() as int] == *final(world),
        *final(world) == (World { players: final(world).players, ..*old(world) }),
        forall|e: int| 0 <= e < old(world).entities@.len() ==> #[trigger] sight_updated(*map, is_day, *old(world), *final(world), e),
{
    let n = world.entities.len();
    let radius: i32 = if is_day { 8 } else { 4 };
    let ghost start = *world;
    let ghost step = |b: World, a: World, k: int| vision_step(*map, is_day, b, a, k);
    let ghost mut trace: Seq<World> = seq![*world];
    let mut k: usize = 0;
    while k < n
        invariant
            k <= n,
            n == start.entities@.len(),
            radius == sight_radius(is_day),
            map.width <= 0x7fff_ffff && map.height <= 0x7fff_ffff,
            world.positions == start.positions,
            forall|e: int| k <= e ==> #[trigger] world.players.get(e) == start.players.get(e),
            forall|e: int| 0 <= e < n ==> #[trigger] can_look(start, *map, e),
            trace.len() == k + 1,
            trace[0] == start,
            trace[k as int] == *world,
            forall|j: int| 0 <= j < k ==> #[trigger] step(trace[j], trace[j + 1], j),
            step == (|b: World, a: World, k: int| vision_step(*map, is_day, b, a, k)),
        decreases n - k,
    {
        let ghost before = *world;
        proof {
            assert(can_look(start, *map, k as int));
        }
        let at = match world.positions.get_component(k) {
            Some(p) => Some(*p),
            None => None,
        };
        if let Some(pos) = at {
            if world.players.has(k) {
                if let Some(mut player) = world.players.take(k) {
                    look_around(&mut player, pos, radius, map);
                    world.players.add_component(k, player);
                }
            }
        }
        proof {
            assert(vision_step(*map, is_day, before, *world, k as int));
            trace = trace.push(*world);
        }
        k = k + 1;
    }
    proof {
        assert(is_run(trace, n as int, step));
        assert forall|j: int| 0 <= j < n implies #[trigger] vision_step(*map, is_day, trace[j], trace[j + 1], j) by {
            assert(step(trace[j], trace[j + 1], j));
        }
        if n > 0 {
            lemma_vision_per_player(*map, is_day, trace, n as int, 0);
        }
        assert forall|e: int| 0 <= e < n implies #[trigger] sight_updated(*map, is_day, start, *world, e) by {
            lemma_vision_per_player(*map, is_day, trace, n as int, e);
        }
    }
}

/// The tiles a viewer at `pos` sees, each with its position: within eight
/// tiles by day or four by night.
pub fn get_visible_tiles(map: &GameMap, pos: &Position, is_day: bool) -> (r: Vec<(Position, Tile)>)
    requires
        map.well_formed(),
        pos.x < map.width && pos.y < map.height,
        pos.x < 0x7fff_8000 && pos.y < 0x7fff_8000,
        map.width <= 0x7fff_ffff && map.height <= 0x7fff_ffff,
    ensures
        exists|v: Seq<Position>| {
            &&& is_view(v, *pos, sight_radius(is_day), *map)
            &&& r@.len() == v.len()
            &&& forall|i: int| 0 <= i < v.len() ==> (#[trigger] r@[i]).0 == v[i] && map.tile_at(v[i].x, v[i].y) == Some(r@[i].1@)
        },
{
    let radius: i32 = if is_day { 8 } else { 4 };
    let visible = field_of_view(pos, radius, map);
    let mut out: Vec<(Position, Tile)> = Vec::new();
    let mut i: usize = 0;
    while i < visible.len()
        invariant
            i <= visible@.len(),
            map.well_formed(),
            pos.x < map.width && pos.y < map.height,
            map.width <= 0x7fff_ffff && map.height <= 0x7fff_ffff,
            is_view(visible@, *pos, radius, *map),
            out@.len() == i,
            forall|j: int| 0 <= j < i ==> (#[trigger] out@[j]).0 == visible@[j] && map.tile_at(visible@[j].x, visible@[j].y) == Some(out@[j].1@),
        decreases visible@.len() - i,
    {
        let q = visible[i];
        proof {
            assert(visible@.contains(q));
            lemma_tile_present(*map, q.x, q.y);
        }
        match map.get_tile(q.x, q.y) {
            Some(t) => {
                out.push((q, t));
            },
            None => {
                proof {
                    assert(false);
                }
            },
        }
        i = i + 1;
    }
    proof {
        assert(radius == sight_radius(is_day));
        assert(is_view(visible@, *pos, sight_radius(is_day), *map));
        assert(out@.len() == visible@.len());
    }
    out
}

/// Entity `e` is a resource named `name` with some left, standing within one
/// tile of `pos` across and down.
pub open spec fn resource_beside(w: World, e: int, pos: Position, name: Seq<char>) -> bool {
    &&& w.resources.get(e) matches Some(r) && r.name@ == name && r.quantity > 0
    &&& w.positions.get(e) matches Some(p) && -1 <= p.x - pos.x <= 1 && -1 <= p.y - pos.y <= 1
}

/// The first live entity, in the world's order, that is a resource named
/// `name` with some left, within one tile of `pos`: what an agent next to
/// `pos` would gather.
pub fn adjacent_resource(world: &World, pos: Position, name: &str) -> (r: Option<Entity>)
    ensures
        match r {
            Some(e) => exists|i: int|
                0 <= i < world.entities@.len() && world.entities@[i] == e && resource_beside(*world, e as int, pos, name@)
                    && forall|j: int| 0 <= j < i ==> !resource_beside(*world, #[trigger] world.entities@[j] as int, pos, name@),
            None => forall|i: int|
                0 <= i < world.entities@.len() ==> !resource_beside(*world, #[trigger] world.entities@[i] as int, pos, name@),
        },
{
    let mut i: usize = 0;
    while i < world.entities.len()
        invariant
            i <= world.entities@.len(),
            forall|j: int| 0 <= j < i ==> !resource_beside(*world, #[trigger] world.entities@[j] as int, pos, name@),
        decreases world.entities@.len() - i,
    {
        let e = world.entities[i];
        let mut found = false;
        if let Some(res) = world.resources.get_component(e) {
            if res.quantity > 0 && str_eq(res.name.as_str(), name) {
                if let Some(p) = world.positions.get_component(e) {
                    found = (p.x as u64) <= (pos.x as u64) + 1 && (pos.x as u64) <= (p.x as u64) + 1
                        && (p.y as u64) <= (pos.y as u64) + 1 && (pos.y as u64) <= (p.y as u64) + 1;
                }
            }
        }
        assert(found == resource_beside(*world, e as int, pos, name@));
        if found {
            return Some(e);
        }
        i = i + 1;
    }
    None
}

/// Empties the hands of the players among the entity indices `0..n`.
pub fn reset_players(world: &mut World)
    ensures
        *final(world) == (World { players: final(world).players, ..*old(world) }),
        forall|e: int| #[trigger] final(world).players.get(e) == if 0 <= e < old(world).entities@.len() && old(world).players.get(e) is Some {
            Some(Player { held_item: None, ..old(world).players.get(e)->0 })
        } else {
            old(world).players.get(e)
        },
{
    let n = world.entities.len();
    let ghost start = *world;
    let mut k: usize = 0;
    while k < n
        invariant
            k <= n,
            n == start.entities@.len(),
            *world == (World { players: world.players, ..start }),
            forall|e: int| #[trigger] world.players.get(e) == if 0 <= e < k && start.players.get(e) is Some {
                Some(Player { held_item: None, ..start.players.get(e)->0 })
            } else {
                start.players.get(e)
            },
        decreases n - k,
    {
        if let Some(mut player) = world.players.take(k) {
            player.reset();
            world.players.add_component(k, player);
        }
        k = k + 1;
    }
}

/// The tiles of the map that show terrain `c`.
pub open spec fn cells_of(map: GameMap, c: char) -> Set<(u32, u32)> {
    Set::new(|p: (u32, u32)| p.0 < map.width && p.1 < map.height && (map.tile_at(p.0, p.1) matches Some(t) && t.tile_type == c))
}

/// The tiles of the map that show terrain `c`, row by row, each once.
fn tiles_showing(map: &GameMap, c: char) -> (r: Vec<(u32, u32)>)
    ensures
        r@.no_duplicates(),
        r@.to_set() == cells_of(*map, c),
{
    let mut r: Vec<(u32, u32)> = Vec::new();
    let mut y: u32 = 0;
    while y < map.height
        invariant
            y <= map.height,
            r@.no_duplicates(),
            forall|p: (u32, u32)| #[trigger] r@.contains(p) <==> p.1 < y && cells_of(*map, c).contains(p),
        decreases map.height - y,
    {
        let mut x: u32 = 0;
        while x < map.width
            invariant
                y < map.height,
                x <= map.width,
                r@.no_duplicates(),
                forall|p: (u32, u32)| #[trigger] r@.contains(p) <==> (p.1 < y || (p.1 == y && p.0 < x)) && cells_of(*map, c).contains(p),
            decreases map.width - x,
        {
            let shows = match map.get_tile(x, y) {
                Some(t) => t.tile_type == c,
                None => false,
            };
            if shows {
                let ghost before = r@;
                proof {
                    assert(!before.contains((x, y)));
                }
                r.push((x, y));
                proof {
                    assert forall|a: int, b: int| 0 <= a < b < r@.len() implies r@[a] != r@[b] by {
                        if b == r@.len() - 1 {
                            assert(before.contains(r@[a]));
                        }
                    }
                    assert forall|p: (u32, u32)| #[trigger] r@.contains(p) <==> (p.1 < y || (p.1 == y && p.0 < x + 1)) && cells_of(*map, c).contains(p) by {
                        if r@.contains(p) && p != (x, y) {
                            let k = choose|k: int| 0 <= k < r@.len() && r@[k] == p;
                            assert(before[k] == p);
                        }
                        if before.contains(p) {
                            let k = choose|k: int| 0 <= k < before.len() && before[k] == p;
                            assert(r@[k] == p);
                        }
                        if p == (x, y) {
                            assert(r@[r@.len() - 1] == p);
                        }
                    }
                }
            }
            x = x + 1;
        }
        y = y + 1;
    }
    proof {
        assert(r@.to_set() =~= cells_of(*map, c));
    }
    r
}

/// Removing an entry of a list without repeats leaves the other entries, still without repeats.
proof fn lemma_remove_entry(s: Seq<(u32, u32)>, i: int)
    requires
        s.no_duplicates(),
        0 <= i < s.len(),
    ensures
        s.remove(i).no_duplicates(),
        forall|p: (u32, u32)| #[trigger] s.remove(i).contains(p) <==> s.contains(p) && p != s[i],
{
    let t = s.remove(i);
    assert forall|a: int, b: int| 0 <= a < b < t.len() implies t[a] != t[b] by {
        let ia = if a < i { a } else { a + 1 };
        let ib = if b < i { b } else { b + 1 };
        assert(t[a] == s[ia] && t[b] == s[ib]);
    }
    assert forall|p: (u32, u32)| #[trigger] t.contains(p) <==> s.contains(p) && p != s[i] by {
        if t.contains(p) {
            let k = choose|k: int| 0 <= k < t.len() && t[k] == p;
            let ik = if k < i { k } else { k + 1 };
            assert(s[ik] == p);
        }
        if s.contains(p) && p != s[i] {
            let k = choose|k: int| 0 <= k < s.len() && s[k] == p;
            if k < i {
                assert(t[k] == p);
            } else {
                assert(k != i);
                assert(t[k - 1] == p);
            }
        }
    }
}

/// Gives each entity index `0..n` in turn a distinct tile of `plains`
/// terrain, drawn at random among those not yet given out; an index with a
/// position moves there. The map must have a tile of `plains` for each index.
pub fn find_and_set_valid_start_positions(world: &mut World, map: &GameMap, plains: char)
    requires
        cells_of(*map, plains).len() >= old(world).entities@.len(),
    ensures
        *final(world) == (World { positions: final(world).positions, ..*old(world) }),
        forall|e: int| !(0 <= e < old(world).entities@.len()) ==> #[trigger] final(world).positions.get(e) == old(world).positions.get(e),
        forall|e: int| 0 <= e < old(world).entities@.len() ==> (#[trigger] final(world).positions.get(e) is Some <==> old(world).positions.get(e) is Some),
        forall|e: int| 0 <= e < old(world).entities@.len() && #[trigger] final(world).positions.get(e) is Some ==> cells_of(*map, plains).contains(
            (final(world).positions.get(e)->0.x, final(world).positions.get(e)->0.y),
        ),
        forall|a: int, b: int|
            0 <= a < b < old(world).entities@.len() && #[trigger] final(world).positions.get(a) is Some && #[trigger] final(world).positions.get(b) is Some
                ==> final(world).positions.get(a) != final(world).positions.get(b),
{
    let n = world.entities.len();
    let ghost start = *world;
    let mut free = tiles_showing(map, plains);
    proof {
        free@.unique_seq_to_set();
    }
    let ghost mut given: Seq<(u32, u32)> = Seq::empty();
    let mut k: usize = 0;
    while k < n
        invariant
            k <= n,
            n == start.entities@.len(),
            free@.len() + k >= n,
            free@.no_duplicates(),
            given.len() == k,
            given.no_duplicates(),
            forall|p: (u32, u32)| #[trigger] free@.contains(p) ==> cells_of(*map, plains).contains(p) && !given.contains(p),
            forall|j: int| 0 <= j < k ==> cells_of(*map, plains).contains(#[trigger] given[j]),
            *world == (World { positions: world.positions, ..start }),
            forall|e: int| !(0 <= e < k) ==> #[trigger] world.positions.get(e) == start.positions.get(e),
            forall|e: int| 0 <= e < k ==> (#[trigger] world.positions.get(e) is Some <==> start.positions.get(e) is Some),
            forall|e: int| 0 <= e < k && #[trigger] world.positions.get(e) is Some ==> (world.positions.get(e)->0.x, world.positions.get(e)->0.y) == given[e],
        decreases n - k,
    {
        let last = free.len() - 1;
        let hi: i32 = if last > 0x7fff_ffff { 0x7fff_ffff } else { last as i32 };
        let idx = random_in(0, hi) as usize;
        let ghost before = free@;
        let cell = free.remove(idx);
        proof {
            lemma_remove_entry(before, idx as int);
            assert(before.contains(cell));
            assert forall|a: int, b: int| 0 <= a < b < given.len() + 1 implies given.push(cell)[a] != given.push(cell)[b] by {
                if b == given.len() {
                    assert(given.contains(given[a]));
                }
            }
            given = given.push(cell);
        }
        if world.positions.has(k) {
            world.positions.add_component(k, Position { x: cell.0, y: cell.1 });
        }
        proof {
            assert forall|p: (u32, u32)| #[trigger] free@.contains(p) implies cells_of(*map, plains).contains(p) && !given.contains(p) by {
                assert(before.contains(p) && p != cell);
                if given.contains(p) {
                    let j = choose|j: int| 0 <= j < given.len() && given[j] == p;
                    if j < given.len() - 1 {
                        assert(given.drop_last().contains(p));
                    }
                }
            }
        }
        k = k + 1;
    }
    proof {
        assert forall|a: int, b: int|
            0 <= a < b < n && #[trigger] world.positions.get(a) is Some && #[trigger] world.positions.get(b) is Some
                implies world.positions.get(a) != world.positions.get(b) by {
            assert(given[a] != given[b]);
        }
    }
}

/// Storing moves items without making or losing any: the storer holds
/// exactly as many fewer of the item as the chest, when there is one, holds more.
pub proof fn lemma_store_moves_items(b: World, a: World, k: int)
    requires
        store_step(b, a, k),
        stores(b, k),
        b.chests.get(b.wants_to_store.get(k)->0.target_chest as int) is Some ==> quantity_in(
            b.chests.get(b.wants_to_store.get(k)->0.target_chest as int)->0.inventory.items@,
            b.wants_to_store.get(k)->0.item_name@,
        ) + b.wants_to_store.get(k)->0.quantity <= u32::MAX,
    ensures
        ({
            let w = b.wants_to_store.get(k)->0;
            let c = w.target_chest as int;
            &&& quantity_in(a.inventories.get(k)->0.items@, w.item_name@) + w.quantity == quantity_in(
                b.inventories.get(k)->0.items@,
                w.item_name@,
            )
            &&& b.chests.get(c) is Some ==> quantity_in(a.chests.get(c)->0.inventory.items@, w.item_name@) == quantity_in(
                b.chests.get(c)->0.inventory.items@,
                w.item_name@,
            ) + w.quantity
        }),
{
    let w = b.wants_to_store.get(k)->0;
    crate::components::lemma_take_lowers(b.inventories.get(k)->0.items@, w.item_name@, w.quantity, w.item_name@);
}

/// Gathering moves one unit from the resource into the gatherer's
/// inventory, when it has one: the resource holds one less, the inventory
/// one more of the resource's name.
pub proof fn lemma_gather_moves_one(b: World, a: World, k: int)
    requires
        gather_step(b, a, k),
        b.wants_to_gather.get(k) is Some,
        b.resources.get(b.wants_to_gather.get(k)->0.target as int) is Some,
        a.resources.get(b.wants_to_gather.get(k)->0.target as int) != b.resources.get(b.wants_to_gather.get(k)->0.target as int),
        b.inventories.get(k) is Some ==> quantity_in(
            b.inventories.get(k)->0.items@,
            b.resources.get(b.wants_to_gather.get(k)->0.target as int)->0.name@,
        ) < u32::MAX,
    ensures
        ({
            let t = b.wants_to_gather.get(k)->0.target as int;
            let r = b.resources.get(t)->0;
            &&& a.resources.get(t)->0.quantity + 1 == r.quantity
            &&& b.inventories.get(k) is Some ==> quantity_in(a.inventories.get(k)->0.items@, r.name@) == quantity_in(
                b.inventories.get(k)->0.items@,
                r.name@,
            ) + 1
        }),
{
}

} // verus!
