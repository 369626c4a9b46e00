use vstd::prelude::*;
use crate::text::owned;

verus! {

/// A direction in which an agent can move.
#[derive(Debug, Clone, Copy, PartialEq, Eq, Hash, Structural)]
pub enum Direction {
    Up,
    Down,
    Left,
    Right,
}

/// A primitive action an agent can take.
#[derive(Debug, Clone, PartialEq, Eq, Hash)]
pub enum Action {
    Move(Direction),
    Gather,
    Craft(String),
    Equip(String),
    Place(String),
    Smelt,
    Build(String),
    Open,
    Close,
}

/// The mathematical value of an [`Action`]: item names become character sequences.
pub enum ActionView {
    Move(Direction),
    Gather,
    Craft(Seq<char>),
    Equip(Seq<char>),
    Place(Seq<char>),
    Smelt,
    Build(Seq<char>),
    Open,
    Close,
}

impl View for Action {
    type V = ActionView;

    open spec fn view(&self) -> ActionView {
        match self {
            Action::Move(d) => ActionView::Move(*d),
            Action::Gather => ActionView::Gather,
            Action::Craft(s) => ActionView::Craft(s@),
            Action::Equip(s) => ActionView::Equip(s@),
            Action::Place(s) => ActionView::Place(s@),
            Action::Smelt => ActionView::Smelt,
            Action::Build(s) => ActionView::Build(s@),
            Action::Open => ActionView::Open,
            Action::Close => ActionView::Close,
        }
    }
}

/// The complete action list, in the order in which agents enumerate it.
pub open spec fn all_actions() -> Seq<ActionView> {
    seq![
        ActionView::Move(Direction::Up),
        ActionView::Move(Direction::Down),
        ActionView::Move(Direction::Left),
        ActionView::Move(Direction::Right),
        ActionView::Gather,
        ActionView::Craft("stone_axe"@),
        ActionView::Craft("stone_pickaxe"@),
        ActionView::Craft("furnace"@),
        ActionView::Craft("metal_pickaxe"@),
        ActionView::Equip("stone_axe"@),
        ActionView::Equip("stone_pickaxe"@),
        ActionView::Equip("metal_pickaxe"@),
        ActionView::Place("furnace"@),
        ActionView::Smelt,
        ActionView::Build("foundation"@),
        ActionView::Build("wall"@),
        ActionView::Build("doorway"@),
        ActionView::Open,
        ActionView::Close,
    ]
}

/// Every action an agent may choose from.
pub fn get_all_actions() -> (r: Vec<Action>)
    ensures
        r@.map_values(|a: Action| a@) == all_actions(),
{
    broadcast use vstd::string::group_string_axioms;
    let r = vec![
        Action::Move(Direction::Up),
        Action::Move(Direction::Down),
        Action::Move(Direction::Left),
        Action::Move(Direction::Right),
        Action::Gather,
        Action::Craft(owned("stone_axe")),
        Action::Craft(owned("stone_pickaxe")),
        Action::Craft(owned("furnace")),
        Action::Craft(owned("metal_pickaxe")),
        Action::Equip(owned("stone_axe")),
        Action::Equip(owned("stone_pickaxe")),
        Action::Equip(owned("metal_pickaxe")),
        Action::Place(owned("furnace")),
        Action::Smelt,
        Action::Build(owned("foundation")),
        Action::Build(owned("wall")),
        Action::Build(owned("doorway")),
        Action::Open,
        Action::Close,
    ];
    assert(r@.map_values(|a: Action| a@) =~= all_actions());
    r
}

} // verus!
