//! Buttons offered to the player ("gizmos"): what each shows, and when it
//! is shown.

use crate::board::Designation;
use crate::errand::ErrandKind;
use vstd::prelude::*;

verus! {

/// A button: its icon handle, its label and its place among the buttons.
pub struct ButtonGizmo<I> {
    pub icon: I,
    pub name: String,
    pub order: i32,
}

impl<I> ButtonGizmo<I> {
    pub fn new(icon: I, name: &str, order: i32) -> (r: Self)
        ensures
            r.icon == icon,
            r.name@ == name@,
            r.order == order,
    {
        Self { icon, name: name.to_owned(), order }
    }
}

/// What a button shows.
pub trait BaseGizmo<I> {
    fn get_icon(&self) -> &I;

    fn get_name(&self) -> &String;

    fn get_order(&self) -> i32;
}

impl<I> BaseGizmo<I> for ButtonGizmo<I> {
    fn get_icon(&self) -> &I {
        &self.icon
    }

    fn get_name(&self) -> &String {
        &self.name
    }

    fn get_order(&self) -> i32 {
        self.order
    }
}

/// A gizmo that shows a plain button.
pub trait HasBaseGizmo<I> {
    fn get_base_gizmo(&self) -> &ButtonGizmo<I>;
}

/// A button that is built from loaded assets.
pub trait Gizmo<I>: BaseGizmo<I> + Sized {
    type Assets;

    fn initialize(assets: &Self::Assets) -> Self;
}

/// A button that opens a menu of further buttons.
pub trait MenuGizmo<I>: Gizmo<I> {
}

/// Whether a menu button's children are shown.
#[derive(Eq, PartialEq, Structural, Clone, Copy, Debug)]
pub enum MenuGizmoState {
    Open,
    Closed,
}

impl MenuGizmoState {
    /// Opens a closed menu and closes an open one.
    pub fn toggle(&mut self)
        ensures
            *final(self) == match *old(self) {
                MenuGizmoState::Open => MenuGizmoState::Closed,
                MenuGizmoState::Closed => MenuGizmoState::Open,
            },
    {
        *self = match self {
            MenuGizmoState::Open => MenuGizmoState::Closed,
            MenuGizmoState::Closed => MenuGizmoState::Open,
        };
    }
}

/// What to do with a gizmo's button this frame.
#[derive(Eq, PartialEq, Structural, Clone, Copy, Debug)]
pub enum GizmoAction {
    Spawn,
    Despawn,
    Keep,
}

/// Spawns the button of a gizmo that should show and does not, despawns
/// the one of a gizmo that shows and should not.
pub fn maintain_gizmo(should_be_visible: bool, is_visible: bool) -> (r: GizmoAction)
    ensures
        r == if should_be_visible && !is_visible {
            GizmoAction::Spawn
        } else if !should_be_visible && is_visible {
            GizmoAction::Despawn
        } else {
            GizmoAction::Keep
        },
{
    match (should_be_visible, is_visible) {
        (true, false) => GizmoAction::Spawn,
        (false, true) => GizmoAction::Despawn,
        _ => GizmoAction::Keep,
    }
}

/// A button inside a menu shows while some instance of its menu is open.
pub fn menu_child_visible(parent_states: &Vec<MenuGizmoState>) -> (r: bool)
    ensures
        r == parent_states@.contains(MenuGizmoState::Open),
{
    let mut i: usize = 0;
    while i < parent_states.len()
        invariant
            i <= parent_states@.len(),
            forall|k: int| 0 <= k < i ==> parent_states@[k] != MenuGizmoState::Open,
        decreases parent_states@.len() - i,
    {
        if parent_states[i] == MenuGizmoState::Open {
            return true;
        }
        i = i + 1;
    }
    false
}

/// The "Mine" button, offered for selected minable walls.
pub struct MineWallGizmo<I>(pub ButtonGizmo<I>);

impl<I> HasBaseGizmo<I> for MineWallGizmo<I> {
    fn get_base_gizmo(&self) -> &ButtonGizmo<I> {
        &self.0
    }
}

impl<I> BaseGizmo<I> for MineWallGizmo<I> {
    fn get_icon(&self) -> &I {
        &self.0.icon
    }

    fn get_name(&self) -> &String {
        &self.0.name
    }

    fn get_order(&self) -> i32 {
        self.0.order
    }
}

impl<I: Clone> Gizmo<I> for MineWallGizmo<I> {
    type Assets = I;

    fn initialize(assets: &I) -> Self {
        MineWallGizmo(ButtonGizmo::new(assets.clone(), "Mine", 0))
    }
}

impl<I> MineWallGizmo<I> {
    /// Shown while some selected minable wall has no mining designation;
    /// `designations` holds the designation of each of them, if any.
    pub fn is_visible(designations: &Vec<Option<Designation>>) -> (r: bool)
        ensures
            r == exists|k: int| 0 <= k < designations@.len() && !(#[trigger] designations@[k] matches Some(d) && d.errand.spec_kind() == ErrandKind::MineWall),
    {
        let mut i: usize = 0;
        while i < designations.len()
            invariant
                i <= designations@.len(),
                forall|k: int| 0 <= k < i ==> (#[trigger] designations@[k] matches Some(d) && d.errand.spec_kind() == ErrandKind::MineWall),
            decreases designations@.len() - i,
        {
            let offered = match designations[i] {
                Some(d) => d.is_errand(ErrandKind::MineWall),
                None => false,
            };
            if !offered {
                return true;
            }
            i = i + 1;
        }
        false
    }
}

/// The "Build" menu button, offered while nothing is selected.
pub struct BuildingListGizmo<I>(pub ButtonGizmo<I>);

impl<I> HasBaseGizmo<I> for BuildingListGizmo<I> {
    fn get_base_gizmo(&self) -> &ButtonGizmo<I> {
        &self.0
    }
}

impl<I> BaseGizmo<I> for BuildingListGizmo<I> {
    fn get_icon(&self) -> &I {
        &self.0.icon
    }

    fn get_name(&self) -> &String {
        &self.0.name
    }

    fn get_order(&self) -> i32 {
        self.0.order
    }
}

impl<I: Clone> Gizmo<I> for BuildingListGizmo<I> {
    type Assets = I;

    fn initialize(assets: &I) -> Self {
        BuildingListGizmo(ButtonGizmo::new(assets.clone(), "Build", 0))
    }
}

impl<I: Clone> MenuGizmo<I> for BuildingListGizmo<I> {
}

impl<I> BuildingListGizmo<I> {
    pub fn is_visible(selected_count: usize) -> (r: bool)
        ensures
            r == (selected_count == 0),
    {
        selected_count == 0
    }
}

} // verus!
