//! Recipes, and the expansion of an item into the raw resources it takes.

use vstd::prelude::*;
use crate::counts::{ItemCounts, as_ints, count_of, sum_maps, scale_map, fits_u32};
use crate::errors::SimulationError;
use crate::text::{owned, str_eq};

verus! {

/// A recipe table as mathematics sees it: item names with their ingredient
/// lists, each ingredient a name and a count, in stored order.
pub type RecipeTable = Seq<(Seq<char>, Seq<(Seq<char>, u32)>)>;

/// The ingredients of the first recipe for `item`, if the table has one.
pub open spec fn lookup(t: RecipeTable, item: Seq<char>) -> Option<Seq<(Seq<char>, u32)>>
    decreases t.len(),
{
    if t.len() == 0 {
        None
    } else if t[0].0 == item {
        Some(t[0].1)
    } else {
        lookup(t.drop_first(), item)
    }
}

/// How many recipes of the table make an item outside `path`.
pub open spec fn unvisited(t: RecipeTable, path: Set<Seq<char>>) -> nat
    decreases t.len(),
{
    if t.len() == 0 {
        0
    } else {
        unvisited(t.drop_first(), path) + if path.contains(t[0].0) {
            0nat
        } else {
            1nat
        }
    }
}

/// Adding a name to the path never adds unvisited recipes, and adding one
/// that a recipe makes removes at least one.
pub proof fn lemma_unvisited_insert(t: RecipeTable, path: Set<Seq<char>>, x: Seq<char>)
    ensures
        unvisited(t, path.insert(x)) <= unvisited(t, path),
        !path.contains(x) && lookup(t, x) is Some ==> unvisited(t, path.insert(x)) < unvisited(
            t,
            path,
        ),
    decreases t.len(),
{
    if t.len() > 0 {
        lemma_unvisited_insert(t.drop_first(), path, x);
    }
}

/// The outcome of expanding an item into raw resources.
pub enum Expansion {
    /// The raw resources and their counts.
    Totals(Map<Seq<char>, int>),
    /// The expansion reached this item again while expanding it.
    Cycle(Seq<char>),
    /// A count grew beyond what a `u32` holds.
    Overflow,
}

/// Expands `quantity` of `item` into raw resources, with `path` the items
/// being expanded around it. An item on the path is a cycle; an item without
/// a recipe is raw and counts itself; a recipe item counts `quantity` times
/// the sum of its ingredients' expansions, taken in stored order so that the
/// first ingredient that fails decides the failure.
pub open spec fn expand(t: RecipeTable, item: Seq<char>, quantity: nat, path: Set<Seq<char>>) -> Expansion
    decreases unvisited(t, path), 0nat,
{
    if path.contains(item) {
        Expansion::Cycle(item)
    } else {
        match lookup(t, item) {
            None => Expansion::Totals(Map::empty().insert(item, quantity as int)),
            Some(ings) => {
                if quantity == 0 {
                    Expansion::Totals(Map::empty())
                } else {
                    proof {
                        lemma_unvisited_insert(t, path, item);
                    }
                    match expand_ingredients(t, ings, 0, path.insert(item), Map::empty()) {
                        Expansion::Totals(s) => {
                            if fits_u32(scale_map(quantity, s)) {
                                Expansion::Totals(scale_map(quantity, s))
                            } else {
                                Expansion::Overflow
                            }
                        },
                        other => other,
                    }
                }
            },
        }
    }
}

/// Adds the expansions of the ingredients from index `i` on to `acc`, in order.
pub open spec fn expand_ingredients(
    t: RecipeTable,
    ings: Seq<(Seq<char>, u32)>,
    i: int,
    path: Set<Seq<char>>,
    acc: Map<Seq<char>, int>,
) -> Expansion
    decreases unvisited(t, path), ings.len() - i + 1,
{
    if i < 0 || i >= ings.len() {
        Expansion::Totals(acc)
    } else {
        match expand(t, ings[i].0, ings[i].1 as nat, path) {
            Expansion::Totals(a) => {
                let acc2 = sum_maps(acc, a);
                if fits_u32(acc2) {
                    expand_ingredients(t, ings, i + 1, path, acc2)
                } else {
                    Expansion::Overflow
                }
            },
            other => other,
        }
    }
}

/// A name without a recipe expands to itself alone, in the quantity asked for.
pub proof fn lemma_raw_item_expands_to_itself(t: RecipeTable, item: Seq<char>, quantity: nat)
    requires
        lookup(t, item) is None,
    ensures
        expand(t, item, quantity, Set::empty()) == Expansion::Totals(
            Map::empty().insert(item, quantity as int),
        ),
{
}

/// Every name that an expansion counts is a raw resource: no recipe makes it.
pub proof fn lemma_expansion_is_raw(t: RecipeTable, item: Seq<char>, quantity: nat, path: Set<Seq<char>>)
    ensures
        expand(t, item, quantity, path) matches Expansion::Totals(m) ==> forall|k: Seq<char>|
            #[trigger] m.contains_key(k) ==> lookup(t, k) is None,
    decreases unvisited(t, path), 0nat,
{
    if !path.contains(item) {
        if let Some(ings) = lookup(t, item) {
            if quantity != 0 {
                lemma_unvisited_insert(t, path, item);
                lemma_ingredients_are_raw(t, ings, 0, path.insert(item), Map::empty());
            }
        }
    }
}

/// Summing the expansions of ingredients onto a table of raw resources
/// counts only raw resources.
pub proof fn lemma_ingredients_are_raw(
    t: RecipeTable,
    ings: Seq<(Seq<char>, u32)>,
    i: int,
    path: Set<Seq<char>>,
    acc: Map<Seq<char>, int>,
)
    requires
        forall|k: Seq<char>| #[trigger] acc.contains_key(k) ==> lookup(t, k) is None,
    ensures
        expand_ingredients(t, ings, i, path, acc) matches Expansion::Totals(m) ==> forall|
            k: Seq<char>,
        | #[trigger] m.contains_key(k) ==> lookup(t, k) is None,
    decreases unvisited(t, path), ings.len() - i + 1,
{
    if 0 <= i < ings.len() {
        lemma_expansion_is_raw(t, ings[i].0, ings[i].1 as nat, path);
        if let Expansion::Totals(a) = expand(t, ings[i].0, ings[i].1 as nat, path) {
            let acc2 = sum_maps(acc, a);
            if fits_u32(acc2) {
                lemma_ingredients_are_raw(t, ings, i + 1, path, acc2);
            }
        }
    }
}

/// Expanding `n` of an item takes `n` times what expanding one takes.
pub proof fn lemma_expansion_scales(t: RecipeTable, item: Seq<char>, n: nat, path: Set<Seq<char>>)
    requires
        n >= 1,
        expand(t, item, n, path) is Totals,
    ensures
        expand(t, item, 1, path) is Totals,
        expand(t, item, n, path)->Totals_0 == scale_map(n, expand(t, item, 1, path)->Totals_0),
{
    if lookup(t, item) is None {
        assert(Map::<Seq<char>, int>::empty().insert(item, n as int) =~= scale_map(
            n,
            Map::empty().insert(item, 1int),
        ));
    } else {
        let ings = lookup(t, item)->Some_0;
        lemma_unvisited_insert(t, path, item);
        let s = expand_ingredients(t, ings, 0, path.insert(item), Map::empty())->Totals_0;
        assert forall|k: Seq<char>| #[trigger] scale_map(1, s).contains_key(k) implies 0
            <= scale_map(1, s)[k] <= u32::MAX by {
            assert(scale_map(n, s).contains_key(k));
            assert(scale_map(n, s)[k] == n * s[k]);
            assert(0 <= s[k]) by (nonlinear_arith)
                requires
                    n >= 1,
                    0 <= n * s[k],
            ;
            assert(s[k] <= n * s[k]) by (nonlinear_arith)
                requires
                    n >= 1,
                    0 <= s[k],
            ;
        }
        assert(scale_map(1, s) =~= s);
    }
}

/// When one of an item expands, and `n` times its totals fit in a `u32`,
/// `n` of the item expand to exactly those `n`-fold totals.
pub proof fn lemma_expansion_scales_up(t: RecipeTable, item: Seq<char>, n: nat, path: Set<Seq<char>>)
    requires
        n >= 1,
        expand(t, item, 1, path) is Totals,
        fits_u32(scale_map(n, expand(t, item, 1, path)->Totals_0)),
    ensures
        expand(t, item, n, path) == Expansion::Totals(scale_map(n, expand(t, item, 1, path)->Totals_0)),
{
    if lookup(t, item) is None {
        let one = Map::<Seq<char>, int>::empty().insert(item, 1int);
        assert(n * 1int == n as int) by (nonlinear_arith);
        assert(scale_map(n, one)[item] == n as int);
        assert(Map::<Seq<char>, int>::empty().insert(item, n as int) =~= scale_map(n, one));
    } else {
        let ings = lookup(t, item)->Some_0;
        lemma_unvisited_insert(t, path, item);
        let s = expand_ingredients(t, ings, 0, path.insert(item), Map::empty())->Totals_0;
        assert(scale_map(1, s) =~= s);
        assert(scale_map(n, scale_map(1, s)) =~= scale_map(n, s));
    }
}

/// A recipe whose first ingredient is the item itself makes any positive
/// quantity of it fail, naming the item.
pub proof fn lemma_self_dependency_is_a_cycle(t: RecipeTable, item: Seq<char>, quantity: nat)
    requires
        quantity >= 1,
        lookup(t, item) matches Some(ings) && ings.len() >= 1 && ings[0].0 == item,
    ensures
        expand(t, item, quantity, Set::empty()) == Expansion::Cycle(item),
{
    let ings = lookup(t, item)->Some_0;
    let p = Set::<Seq<char>>::empty().insert(item);
    lemma_unvisited_insert(t, Set::empty(), item);
    assert(expand(t, item, ings[0].1 as nat, p) == Expansion::Cycle(item));
}

/// The set of names in a stack of visited items.
pub open spec fn names(v: Seq<String>) -> Set<Seq<char>> {
    Set::new(|k: Seq<char>| exists|i: int| 0 <= i < v.len() && #[trigger] v[i]@ == k)
}

/// The recipes of the simulation: which ingredients, in which counts, make an item.
pub struct RecipeManager {
    pub recipes: Vec<(String, ItemCounts)>,
}

impl RecipeManager {
    /// The recipe table as mathematics sees it.
    pub open spec fn table(&self) -> RecipeTable {
        self.recipes@.map_values(|r: (String, ItemCounts)| (r.0@, r.1.seq().map_values(|e: (String, u32)| (e.0@, e.1))))
    }

    /// A manager holding the given recipes.
    pub fn with_recipes(recipes: Vec<(String, ItemCounts)>) -> (r: Self)
        ensures
            r.recipes@ == recipes@,
    {
        RecipeManager { recipes }
    }

    /// The position of the first recipe for `item`, if any.
    fn find_recipe(&self, item: &str) -> (r: Option<usize>)
        ensures
            match r {
                Some(j) => j < self.recipes@.len() && lookup(self.table(), item@) == Some(self.table()[j as int].1),
                None => lookup(self.table(), item@) is None,
            },
    {
        let mut j: usize = 0;
        assert(self.table().skip(0) =~= self.table());
        while j < self.recipes.len()
            invariant
                j <= self.recipes@.len(),
                lookup(self.table(), item@) == lookup(self.table().skip(j as int), item@),
            decreases self.recipes@.len() - j,
        {
            assert(self.table().skip(j as int).drop_first() =~= self.table().skip(j as int + 1));
            if str_eq(self.recipes[j].0.as_str(), item) {
                return Some(j);
            }
            j = j + 1;
        }
        assert(self.table().skip(j as int).len() == 0);
        None
    }

    /// The raw resources, with their counts, that `quantity` of `item` takes.
    ///
    /// An item without a recipe is raw and takes itself. A recipe that depends
    /// on itself, directly or through other recipes, is an error that names
    /// the item at which the dependency closed.
    pub fn get_required_resources(&self, item: &str, quantity: u32) -> (r: Result<ItemCounts, SimulationError>)
        requires
            expand(self.table(), item@, quantity as nat, Set::empty()) != Expansion::Overflow,
        ensures
            match r {
                Ok(m) => expand(self.table(), item@, quantity as nat, Set::empty())
                    == Expansion::Totals(as_ints(m@)),
                Err(SimulationError::CircularDependency(n)) => expand(
                    self.table(),
                    item@,
                    quantity as nat,
                    Set::empty(),
                ) == Expansion::Cycle(n@),
                Err(_) => false,
            },
    {
        let mut visited: Vec<String> = Vec::new();
        proof {
            assert(names(visited@) =~= Set::empty());
        }
        self.get_required_resources_recursive(item, quantity, &mut visited)
    }

    /// Expands `quantity` of `item`, with `visited` the items whose expansion
    /// is under way; on success `visited` is as it was.
    pub fn get_required_resources_recursive(
        &self,
        item: &str,
        quantity: u32,
        visited: &mut Vec<String>,
    ) -> (r: Result<ItemCounts, SimulationError>)
        requires
            expand(self.table(), item@, quantity as nat, names(old(visited)@)) != Expansion::Overflow,
        ensures
            match r {
                Ok(m) => expand(self.table(), item@, quantity as nat, names(old(visited)@))
                    == Expansion::Totals(as_ints(m@)) && final(visited)@ == old(visited)@,
                Err(SimulationError::CircularDependency(n)) => expand(
                    self.table(),
                    item@,
                    quantity as nat,
                    names(old(visited)@),
                ) == Expansion::Cycle(n@),
                Err(_) => false,
            },
            names(old(visited)@).contains(item@) ==> (r matches Err(SimulationError::CircularDependency(n)) && n@ == item@)
                && final(visited)@ == old(visited)@,
        decreases unvisited(self.table(), names(old(visited)@)),
    {
        let ghost t = self.table();
        let ghost path = names(visited@);
        let mut k: usize = 0;
        while k < visited.len()
            invariant
                k <= visited@.len(),
                path == names(visited@),
                forall|i: int| 0 <= i < k ==> visited@[i]@ != item@,
            decreases visited@.len() - k,
        {
            if str_eq(visited[k].as_str(), item) {
                assert(visited@[k as int]@ == item@);
                assert(path.contains(item@));
                return Err(SimulationError::CircularDependency(owned(item)));
            }
            k = k + 1;
        }
        assert(!path.contains(item@));
        match self.find_recipe(item) {
            None => {
                let m = ItemCounts::single(item, quantity);
                assert(as_ints(m@) =~= Map::empty().insert(item@, quantity as int));
                Ok(m)
            },
            Some(j) => {
                if quantity == 0 {
                    let m = ItemCounts::new();
                    assert(as_ints(m@) =~= Map::<Seq<char>, int>::empty());
                    return Ok(m);
                }
                let ghost before = visited@;
                visited.push(owned(item));
                let ghost inner = names(visited@);
                proof {
                    assert forall|q: Seq<char>| inner.contains(q) == path.insert(item@).contains(q) by {
                        if inner.contains(q) {
                            let w = choose|w: int| 0 <= w < visited@.len() && visited@[w]@ == q;
                            if w < before.len() {
                                assert(before[w]@ == q);
                            }
                        }
                        if path.contains(q) {
                            let w = choose|w: int| 0 <= w < before.len() && before[w]@ == q;
                            assert(visited@[w]@ == q);
                        }
                        if q == item@ {
                            assert(visited@[before.len() as int]@ == q);
                        }
                    }
                    assert(inner =~= path.insert(item@));
                    lemma_unvisited_insert(t, path, item@);
                }
                let ings = &self.recipes[j].1;
                let ghost ing_seq = t[j as int].1;
                proof {
                    use_type_invariant(ings);
                    ings.lemma_seq();
                }
                let mut acc = ItemCounts::new();
                assert(as_ints(acc@) =~= Map::<Seq<char>, int>::empty());
                let n = ings.len();
                let mut i: usize = 0;
                while i < n
                    invariant
                        t == self.table(),
                        path == names(old(visited)@),
                        !path.contains(item@),
                        n == ing_seq.len(),
                        i <= n,
                        visited@.len() == before.len() + 1,
                        visited@.drop_last() == before,
                        visited@.last()@ == item@,
                        inner == names(visited@),
                        unvisited(t, inner) < unvisited(t, path),
                        ing_seq == ings.seq().map_values(|e: (String, u32)| (e.0@, e.1)),
                        expand_ingredients(t, ing_seq, 0, inner, Map::empty())
                            == expand_ingredients(t, ing_seq, i as int, inner, as_ints(acc@)),
                        expand(t, item@, quantity as nat, path) == match expand_ingredients(t, ing_seq, 0, inner, Map::empty()) {
                            Expansion::Totals(s) => {
                                if fits_u32(scale_map(quantity as nat, s)) {
                                    Expansion::Totals(scale_map(quantity as nat, s))
                                } else {
                                    Expansion::Overflow
                                }
                            },
                            other => other,
                        },
                        expand(t, item@, quantity as nat, path) != Expansion::Overflow,
                    decreases n - i,
                {
                    let name = ings.name_at(i);
                    let count = ings.count_at(i);
                    proof {
                        assert(ing_seq[i as int] == (name@, count));
                    }
                    match self.get_required_resources_recursive(name.as_str(), count, visited) {
                        Ok(sub) => {
                            acc.add_all(&sub);
                        },
                        Err(e) => {
                            proof {
                                assert(expand_ingredients(t, ing_seq, i as int, inner, as_ints(acc@))
                                    == expand(t, name@, count as nat, inner));
                            }
                            return Err(e);
                        },
                    }
                    i = i + 1;
                }
                let total = acc.scaled(quantity);
                visited.pop();
                Ok(total)
            },
        }
    }


    /// Whether expanding `quantity` of `item` keeps every count within a
    /// `u32`: true unless the expansion overflows.
    pub fn expansion_fits(&self, item: &str, quantity: u32) -> (r: bool)
        ensures
            r == (expand(self.table(), item@, quantity as nat, Set::empty()) != Expansion::Overflow),
    {
        let mut visited: Vec<String> = Vec::new();
        proof {
            assert(names(visited@) =~= Set::empty());
        }
        match self.expand_checked(item, quantity, &mut visited) {
            Ok(_) => true,
            Err(over) => !over,
        }
    }

    /// Expands `quantity` of `item` as [`Self::get_required_resources_recursive`]
    /// does, checking every sum and product first: the totals, or whether
    /// the expansion failed by overflow (`true`) or by a cycle (`false`).
    fn expand_checked(
        &self,
        item: &str,
        quantity: u32,
        visited: &mut Vec<String>,
    ) -> (r: Result<ItemCounts, bool>)
        ensures
            match r {
                Ok(m) => expand(self.table(), item@, quantity as nat, names(old(visited)@))
                    == Expansion::Totals(as_ints(m@)) && final(visited)@ == old(visited)@,
                Err(over) => !(expand(self.table(), item@, quantity as nat, names(old(visited)@)) is Totals)
                    && over == (expand(self.table(), item@, quantity as nat, names(old(visited)@)) == Expansion::Overflow),
            },
        decreases unvisited(self.table(), names(old(visited)@)),
    {
        let ghost t = self.table();
        let ghost path = names(visited@);
        let mut k: usize = 0;
        while k < visited.len()
            invariant
                k <= visited@.len(),
                path == names(visited@),
                forall|i: int| 0 <= i < k ==> visited@[i]@ != item@,
            decreases visited@.len() - k,
        {
            if str_eq(visited[k].as_str(), item) {
                assert(visited@[k as int]@ == item@);
                assert(path.contains(item@));
                return Err(false);
            }
            k = k + 1;
        }
        assert(!path.contains(item@));
        match self.find_recipe(item) {
            None => {
                let m = ItemCounts::single(item, quantity);
                assert(as_ints(m@) =~= Map::empty().insert(item@, quantity as int));
                Ok(m)
            },
            Some(j) => {
                if quantity == 0 {
                    let m = ItemCounts::new();
                    assert(as_ints(m@) =~= Map::<Seq<char>, int>::empty());
                    return Ok(m);
                }
                let ghost before = visited@;
                visited.push(owned(item));
                let ghost inner = names(visited@);
                proof {
                    assert forall|q: Seq<char>| inner.contains(q) == path.insert(item@).contains(q) by {
                        if inner.contains(q) {
                            let w = choose|w: int| 0 <= w < visited@.len() && visited@[w]@ == q;
                            if w < before.len() {
                                assert(before[w]@ == q);
                            }
                        }
                        if path.contains(q) {
                            let w = choose|w: int| 0 <= w < before.len() && before[w]@ == q;
                            assert(visited@[w]@ == q);
                        }
                        if q == item@ {
                            assert(visited@[before.len() as int]@ == q);
                        }
                    }
                    assert(inner =~= path.insert(item@));
                    lemma_unvisited_insert(t, path, item@);
                }
                let ings = &self.recipes[j].1;
                let ghost ing_seq = t[j as int].1;
                proof {
                    use_type_invariant(ings);
                    ings.lemma_seq();
                }
                let mut acc = ItemCounts::new();
                assert(as_ints(acc@) =~= Map::<Seq<char>, int>::empty());
                let n = ings.len();
                let mut i: usize = 0;
                while i < n
                    invariant
                        t == self.table(),
                        path == names(old(visited)@),
                        !path.contains(item@),
                        n == ing_seq.len(),
                        i <= n,
                        visited@.len() == before.len() + 1,
                        visited@.drop_last() == before,
                        visited@.last()@ == item@,
                        inner == names(visited@),
                        unvisited(t, inner) < unvisited(t, path),
                        ing_seq == ings.seq().map_values(|e: (String, u32)| (e.0@, e.1)),
                        expand_ingredients(t, ing_seq, 0, inner, Map::empty())
                            == expand_ingredients(t, ing_seq, i as int, inner, as_ints(acc@)),
                        expand(t, item@, quantity as nat, path) == match expand_ingredients(t, ing_seq, 0, inner, Map::empty()) {
                            Expansion::Totals(s) => {
                                if fits_u32(scale_map(quantity as nat, s)) {
                                    Expansion::Totals(scale_map(quantity as nat, s))
                                } else {
                                    Expansion::Overflow
                                }
                            },
                            other => other,
                        },
                    decreases n - i,
                {
                    let name = ings.name_at(i);
                    let count = ings.count_at(i);
                    proof {
                        assert(ing_seq[i as int] == (name@, count));
                    }
                    match self.expand_checked(name.as_str(), count, visited) {
                        Ok(sub) => {
                            if !acc.sum_fits(&sub) {
                                proof {
                                    assert(expand_ingredients(t, ing_seq, i as int, inner, as_ints(acc@))
                                        == Expansion::Overflow);
                                }
                                return Err(true);
                            }
                            acc.add_all(&sub);
                        },
                        Err(e) => {
                            proof {
                                assert(expand_ingredients(t, ing_seq, i as int, inner, as_ints(acc@))
                                    == expand(t, name@, count as nat, inner));
                            }
                            return Err(e);
                        },
                    }
                    i = i + 1;
                }
                if !acc.scale_fits(quantity) {
                    return Err(true);
                }
                let total = acc.scaled(quantity);
                visited.pop();
                Ok(total)
            },
        }
    }
}

} // verus!
