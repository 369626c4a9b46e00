//! Plain data attached to the simulation's entities, and the inventory rules.

use vstd::prelude::*;
use crate::counts::ItemCounts;

verus! {

/// An entity's identifier in the simulation world.
pub type Entity = usize;

/// A tile coordinate.
#[derive(Debug, Clone, Copy, PartialEq, Eq, Hash, Structural)]
pub struct Position {
    pub x: u32,
    pub y: u32,
}

/// A one-tick displacement requested for an entity.
#[derive(Debug, Clone, Copy, PartialEq, Eq, Structural)]
pub struct Velocity {
    pub dx: i32,
    pub dy: i32,
}

/// Hit points of an entity.
#[derive(Debug, Clone, Copy, PartialEq, Eq, Structural)]
pub struct Health {
    pub current: i32,
    pub max: i32,
}

/// How many of an item a table holds; an absent name holds none.
pub open spec fn quantity_in(m: Map<Seq<char>, u32>, name: Seq<char>) -> u32 {
    if m.contains_key(name) {
        m[name]
    } else {
        0
    }
}

/// `m` holds at least the count of every name that `required` lists.
pub open spec fn covers(m: Map<Seq<char>, u32>, required: Map<Seq<char>, u32>) -> bool {
    forall|k: Seq<char>| #[trigger] required.contains_key(k) ==> quantity_in(m, k) >= required[k]
}

/// The table after taking `amount` of `name` out of it: nothing changes
/// unless it holds that many; a count that reaches zero leaves the table.
pub open spec fn take_item(m: Map<Seq<char>, u32>, name: Seq<char>, amount: u32) -> Map<
    Seq<char>,
    u32,
> {
    if m.contains_key(name) && m[name] >= amount {
        if m[name] - amount == 0 {
            m.remove(name)
        } else {
            m.insert(name, (m[name] - amount) as u32)
        }
    } else {
        m
    }
}

/// The table after taking every listed count out of it, when it covers them.
pub open spec fn take_all(m: Map<Seq<char>, u32>, required: Map<Seq<char>, u32>) -> Map<
    Seq<char>,
    u32,
> {
    Map::new(
        |k: Seq<char>| m.contains_key(k) && !(required.contains_key(k) && m[k] == required[k]),
        |k: Seq<char>|
            if required.contains_key(k) {
                (m[k] - required[k]) as u32
            } else {
                m[k]
            },
    )
}

/// Taking out what was just added gives back every count as it was; a name
/// that was held with a count of zero may leave the table.
pub proof fn lemma_add_then_take(m: Map<Seq<char>, u32>, name: Seq<char>, amount: u32, k: Seq<char>)
    requires
        quantity_in(m, name) + amount <= u32::MAX,
    ensures
        quantity_in(take_item(m.insert(name, (quantity_in(m, name) + amount) as u32), name, amount), k) == quantity_in(m, k),
        m.contains_key(name) && m[name] > 0 || !m.contains_key(name) ==> take_item(
            m.insert(name, (quantity_in(m, name) + amount) as u32),
            name,
            amount,
        ) == m,
{
    let added = m.insert(name, (quantity_in(m, name) + amount) as u32);
    if m.contains_key(name) && m[name] > 0 || !m.contains_key(name) {
        assert(take_item(added, name, amount) =~= m);
    }
}

/// Adding back what was just taken out gives back the table as it was.
pub proof fn lemma_take_then_add(m: Map<Seq<char>, u32>, name: Seq<char>, amount: u32)
    requires
        m.contains_key(name),
        m[name] >= amount,
    ensures
        ({
            let taken = take_item(m, name, amount);
            taken.insert(name, (quantity_in(taken, name) + amount) as u32) == m
        }),
{
    let taken = take_item(m, name, amount);
    assert(taken.insert(name, (quantity_in(taken, name) + amount) as u32) =~= m);
}

/// Taking out a held amount lowers its count by that amount and leaves every
/// other count alone.
pub proof fn lemma_take_lowers(m: Map<Seq<char>, u32>, name: Seq<char>, amount: u32, other: Seq<char>)
    requires
        m.contains_key(name),
        m[name] >= amount,
    ensures
        quantity_in(take_item(m, name, amount), name) + amount == quantity_in(m, name),
        other != name ==> quantity_in(take_item(m, name, amount), other) == quantity_in(m, other),
{
}

/// The items an agent or a chest carries, by name.
pub struct Inventory {
    pub items: ItemCounts,
}

impl Default for Inventory {
    fn default() -> (r: Self)
        ensures
            r.items@ == Map::<Seq<char>, u32>::empty(),
    {
        Inventory::new()
    }
}

impl Inventory {
    /// An empty inventory.
    pub fn new() -> (r: Self)
        ensures
            r.items@ == Map::<Seq<char>, u32>::empty(),
    {
        Inventory { items: ItemCounts::new() }
    }

    /// Adds `quantity` of `item_name`; a name not yet held starts from zero.
    pub fn add_item(&mut self, item_name: &str, quantity: u32)
        requires
            quantity_in(old(self).items@, item_name@) + quantity <= u32::MAX,
        ensures
            final(self).items@ == old(self).items@.insert(
                item_name@,
                (quantity_in(old(self).items@, item_name@) + quantity) as u32,
            ),
    {
        let current = match self.items.get(item_name) {
            Some(c) => c,
            None => 0,
        };
        self.items.insert(item_name, current + quantity);
    }

    /// Takes `quantity` of `item_name` out if that many are held, dropping the
    /// name when its count reaches zero; says whether it did.
    pub fn remove_item(&mut self, item_name: &str, quantity: u32) -> (r: bool)
        ensures
            r == (old(self).items@.contains_key(item_name@) && old(self).items@[item_name@]
                >= quantity),
            final(self).items@ == take_item(old(self).items@, item_name@, quantity),
    {
        match self.items.get(item_name) {
            Some(count) => {
                if count >= quantity {
                    let left = count - quantity;
                    if left == 0 {
                        self.items.remove(item_name);
                    } else {
                        self.items.insert(item_name, left);
                    }
                    true
                } else {
                    false
                }
            },
            None => false,
        }
    }

    /// Whether at least `quantity` of `item_name` is held.
    pub fn has_item(&self, item_name: &str, quantity: u32) -> (r: bool)
        ensures
            r == (self.items@.contains_key(item_name@) && self.items@[item_name@] >= quantity),
    {
        match self.items.get(item_name) {
            Some(count) => count >= quantity,
            None => false,
        }
    }

    /// How many of `item_name` are held.
    pub fn get_quantity(&self, item_name: &str) -> (r: u32)
        ensures
            r == quantity_in(self.items@, item_name@),
    {
        match self.items.get(item_name) {
            Some(count) => count,
            None => 0,
        }
    }

    /// Whether every count that `recipe` lists is held.
    pub fn has_resources(&self, recipe: &ItemCounts) -> (r: bool)
        ensures
            r == covers(self.items@, recipe@),
    {
        proof {
            use_type_invariant(recipe);
            recipe.lemma_seq();
        }
        let n = recipe.len();
        let mut i: usize = 0;
        while i < n
            invariant
                n == recipe.seq().len(),
                i <= n,
                recipe.inv(),
                forall|j: int|
                    0 <= j < i ==> quantity_in(self.items@, #[trigger] recipe.seq()[j].0@)
                        >= recipe.seq()[j].1,
            decreases n - i,
        {
            let name = recipe.name_at(i);
            if self.get_quantity(name.as_str()) < recipe.count_at(i) {
                proof {
                    recipe.lemma_seq();
                    assert(recipe@.contains_key(recipe.seq()[i as int].0@));
                }
                return false;
            }
            i = i + 1;
        }
        proof {
            recipe.lemma_seq();
            assert forall|k: Seq<char>| #[trigger] recipe@.contains_key(k) implies quantity_in(
                self.items@,
                k,
            ) >= recipe@[k] by {
                let j = choose|j: int| 0 <= j < recipe.seq().len() && recipe.seq()[j].0@ == k;
                assert(quantity_in(self.items@, recipe.seq()[j].0@) >= recipe.seq()[j].1);
            }
        }
        true
    }

    /// Takes every count that `recipe` lists out of the inventory if all are
    /// held; otherwise leaves it as it was. Says whether it took them.
    pub fn remove_resources(&mut self, recipe: &ItemCounts) -> (r: bool)
        ensures
            r == covers(old(self).items@, recipe@),
            r ==> final(self).items@ == take_all(old(self).items@, recipe@),
            !r ==> final(self).items@ == old(self).items@,
    {
        if !self.has_resources(recipe) {
            return false;
        }
        proof {
            use_type_invariant(recipe);
            recipe.lemma_seq();
        }
        let ghost m0 = self.items@;
        let n = recipe.len();
        let mut i: usize = 0;
        while i < n
            invariant
                n == recipe.seq().len(),
                i <= n,
                recipe.inv(),
                distinct_names_of(recipe.seq()),
                covers(m0, recipe@),
                forall|j: int| 0 <= j < n ==> #[trigger] recipe@.contains_key(recipe.seq()[j].0@)
                    && recipe@[recipe.seq()[j].0@] == recipe.seq()[j].1,
                forall|k: Seq<char>|
                    #[trigger] recipe@.contains_key(k) ==> exists|j: int|
                        0 <= j < n && recipe.seq()[j].0@ == k,
                forall|k: Seq<char>|
                    #![trigger self.items@.contains_key(k)]
                    (exists|j: int| 0 <= j < i && recipe.seq()[j].0@ == k) ==> (self.items@.contains_key(k)
                        == take_all(m0, recipe@).contains_key(k)) && (self.items@.contains_key(k)
                        ==> self.items@[k] == take_all(m0, recipe@)[k]),
                forall|k: Seq<char>|
                    #![trigger self.items@.contains_key(k)]
                    !(exists|j: int| 0 <= j < i && recipe.seq()[j].0@ == k) ==> (self.items@.contains_key(k)
                        == m0.contains_key(k)) && (self.items@.contains_key(k) ==> self.items@[k]
                        == m0[k]),
            decreases n - i,
        {
            let name = recipe.name_at(i);
            let amount = recipe.count_at(i);
            let ghost before = self.items@;
            let ghost key = name@;
            self.remove_item(name.as_str(), amount);
            proof {
                assert(recipe.seq()[i as int].0@ == key);
                assert forall|k: Seq<char>|
                    #![trigger self.items@.contains_key(k)]
                    (exists|j: int| 0 <= j < i + 1 && recipe.seq()[j].0@ == k) implies (
                    self.items@.contains_key(k) == take_all(m0, recipe@).contains_key(k)) && (
                    self.items@.contains_key(k) ==> self.items@[k] == take_all(m0, recipe@)[k]) by {
                    if k != key {
                        let j = choose|j: int| 0 <= j < i + 1 && recipe.seq()[j].0@ == k;
                        assert(j != i);
                        assert(j < i);
                        assert(before.contains_key(k) == self.items@.contains_key(k));
                    } else {
                        assert(!(exists|j: int| 0 <= j < i && recipe.seq()[j].0@ == k));
                        assert(recipe@.contains_key(k));
                        assert(quantity_in(m0, k) >= recipe@[k]);
                    }
                }
                assert forall|k: Seq<char>|
                    #![trigger self.items@.contains_key(k)]
                    !(exists|j: int| 0 <= j < i + 1 && recipe.seq()[j].0@ == k) implies (
                    self.items@.contains_key(k) == m0.contains_key(k)) && (self.items@.contains_key(k)
                        ==> self.items@[k] == m0[k]) by {
                    if k == key {
                        assert(recipe.seq()[i as int].0@ == k);
                    } else {
                        assert(!(exists|j: int| 0 <= j < i && recipe.seq()[j].0@ == k));
                    }
                }
            }
            i = i + 1;
        }
        proof {
            assert forall|k: Seq<char>| #![trigger self.items@.contains_key(k)] true implies (
            self.items@.contains_key(k) == take_all(m0, recipe@).contains_key(k)) && (
            self.items@.contains_key(k) ==> self.items@[k] == take_all(m0, recipe@)[k]) by {
                if exists|j: int| 0 <= j < n && recipe.seq()[j].0@ == k {
                } else {
                    assert(!recipe@.contains_key(k));
                }
            }
            assert(self.items@ =~= take_all(m0, recipe@));
        }
        true
    }
}

/// No two entries of `s` carry the same name.
pub open spec fn distinct_names_of(s: Seq<(String, u32)>) -> bool {
    crate::counts::distinct_names(s)
}

/// How many kills a wolf has made.
#[derive(Debug, Clone, Copy, PartialEq, Eq, Structural)]
pub struct Kills(pub u32);

/// A source of a raw material, such as a tree or a rock, and how much it still holds.
#[derive(Debug, Clone)]
pub struct Resource {
    pub name: String,
    pub quantity: u32,
}

/// Items lying on the ground.
#[derive(Debug, Clone)]
pub struct DroppedItem {
    pub item_name: String,
    pub quantity: u32,
}

/// A storage structure with its own inventory.
pub struct Chest {
    pub inventory: Inventory,
}

/// An agent's intent to gather from the target entity this tick.
#[derive(Debug, Clone, Copy, PartialEq, Eq, Structural)]
pub struct WantsToGather {
    pub target: Entity,
}

/// An agent's intent to craft one of an item this tick.
#[derive(Debug, Clone)]
pub struct WantsToCraft {
    pub item_name: String,
}

/// An agent's intent to build a structure where it stands this tick.
#[derive(Debug, Clone)]
pub struct WantsToBuild {
    pub structure_name: String,
}

/// An agent's intent to move items from its inventory into a chest this tick.
#[derive(Debug, Clone)]
pub struct WantsToStoreItem {
    pub item_name: String,
    pub quantity: u32,
    pub target_chest: Entity,
}

/// An agent's intent to attack the target entity this tick.
#[derive(Debug, Clone, Copy, PartialEq, Eq, Structural)]
pub struct WantsToAttack {
    pub target: Entity,
}

/// An agent's intent to pick up what lies on its tile this tick.
#[derive(Debug, Clone, Copy, PartialEq, Eq, Structural)]
pub struct WantsToPickup {}

/// Damage to be dealt to an entity.
#[derive(Debug, Clone, Copy, PartialEq, Eq, Structural)]
pub struct Damage(pub i32);

} // verus!
