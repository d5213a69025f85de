//! What the user interface decides without drawing: how many things of each
//! kind are selected, and whether the mouse cursor has moved on or off it.

use vstd::prelude::*;
use crate::utils::exchange_ware_data::ExchangeWareData;

verus! {

/// The kinds of things that a player can select.
#[derive(Clone, Copy, Debug, PartialEq, Eq, Structural)]
pub enum SelectableEntity {
    Asteroid,
    Gate,
    Ship,
    Station,
}

/// How many things of each kind are selected.
#[derive(Clone, Copy, Debug, PartialEq, Eq, Structural)]
pub struct SelectableCount {
    pub asteroids: u32,
    pub gates: u32,
    pub stations: u32,
    pub ships: u32,
}

impl Default for SelectableCount {
    fn default() -> (count: SelectableCount)
        ensures
            count == (SelectableCount { asteroids: 0, gates: 0, stations: 0, ships: 0 }),
    {
        SelectableCount { asteroids: 0, gates: 0, stations: 0, ships: 0 }
    }
}

/// The count after one more thing of kind `selected` has been counted.
pub open spec fn counting(count: SelectableCount, selected: SelectableEntity) -> SelectableCount {
    match selected {
        SelectableEntity::Asteroid => SelectableCount {
            asteroids: (count.asteroids + 1) as u32,
            ..count
        },
        SelectableEntity::Gate => SelectableCount { gates: (count.gates + 1) as u32, ..count },
        SelectableEntity::Ship => SelectableCount { ships: (count.ships + 1) as u32, ..count },
        SelectableEntity::Station => SelectableCount {
            stations: (count.stations + 1) as u32,
            ..count
        },
    }
}

/// The count of the first `n` of `selected`.
pub open spec fn counted(selected: Seq<SelectableEntity>, n: nat) -> SelectableCount
    decreases n,
{
    if n == 0 {
        SelectableCount { asteroids: 0, gates: 0, stations: 0, ships: 0 }
    } else {
        counting(counted(selected, (n - 1) as nat), selected[n - 1])
    }
}

/// As long as they fit, the counts of the first `n` things add up to `n`.
pub proof fn lemma_counted_adds_up(selected: Seq<SelectableEntity>, n: nat)
    requires
        n <= u32::MAX,
    ensures
        counted(selected, n).sum() == n,
    decreases n,
{
    if n > 0 {
        lemma_counted_adds_up(selected, (n - 1) as nat);
    }
}

impl SelectableCount {
    /// The four counts together.
    pub open spec fn sum(&self) -> nat {
        (self.stations + self.ships + self.gates + self.asteroids) as nat
    }

    /// How many things are selected, of whatever kind.
    pub fn total(&self) -> (total: u32)
        requires
            self.sum() <= u32::MAX,
        ensures
            total == self.sum(),
    {
        self.stations + self.ships + self.gates + self.asteroids
    }

    /// Counts one more thing of the kind of `selectable_entity`.
    pub fn add(self, selectable_entity: &SelectableEntity) -> (count: SelectableCount)
        requires
            self.sum() < u32::MAX,
        ensures
            count == counting(self, *selectable_entity),
            count.sum() == self.sum() + 1,
    {
        let mut count = self;
        match selectable_entity {
            SelectableEntity::Asteroid => count.asteroids += 1,
            SelectableEntity::Gate => count.gates += 1,
            SelectableEntity::Ship => count.ships += 1,
            SelectableEntity::Station => count.stations += 1,
        }
        count
    }

    /// Counts `selected` by kind.
    pub fn of(selected: &Vec<SelectableEntity>) -> (count: SelectableCount)
        requires
            selected.len() <= u32::MAX,
        ensures
            count == counted(selected@, selected@.len()),
            count.sum() == selected.len(),
    {
        let mut count = SelectableCount::default();
        let mut i: usize = 0;
        while i < selected.len()
            invariant
                i <= selected.len() <= u32::MAX,
                count == counted(selected@, i as nat),
                count.sum() == i,
            decreases selected.len() - i,
        {
            count = count.add(&selected[i]);
            i = i + 1;
        }
        count
    }
}

/// What a task in the queue of a ship is about, as far as the choice of its
/// icon goes.
#[derive(Clone, Copy, Debug, PartialEq, Eq, Structural)]
pub enum TaskKind {
    UseGate,
    MoveToEntity,
    ExchangeWares(ExchangeWareData),
    MineAsteroid,
}

/// The icons of the user interface, whatever an icon is.
#[derive(Clone, Copy, Debug)]
pub struct UiIcons<T> {
    pub asteroid: T,
    pub gate: T,
    pub ship: T,
    pub station: T,
    pub idle: T,
    pub move_to: T,
    pub buy: T,
    pub sell: T,
}

impl<T: Copy> UiIcons<T> {
    /// The icon for a thing of the kind of `selectable`.
    pub fn get_selectable(&self, selectable: &SelectableEntity) -> (icon: T)
        ensures
            icon == match *selectable {
                SelectableEntity::Asteroid => self.asteroid,
                SelectableEntity::Gate => self.gate,
                SelectableEntity::Ship => self.ship,
                SelectableEntity::Station => self.station,
            },
    {
        match selectable {
            SelectableEntity::Asteroid => self.asteroid,
            SelectableEntity::Gate => self.gate,
            SelectableEntity::Ship => self.ship,
            SelectableEntity::Station => self.station,
        }
    }

    /// The icon for a task: moving for both ways of moving, buying or
    /// selling for an exchange of wares, an asteroid for mining.
    pub fn get_task(&self, task: &TaskKind) -> (icon: T)
        ensures
            icon == match *task {
                TaskKind::UseGate => self.move_to,
                TaskKind::MoveToEntity => self.move_to,
                TaskKind::ExchangeWares(ExchangeWareData::Buy(_, _)) => self.buy,
                TaskKind::ExchangeWares(ExchangeWareData::Sell(_, _)) => self.sell,
                TaskKind::MineAsteroid => self.asteroid,
            },
    {
        match task {
            TaskKind::UseGate => self.move_to,
            TaskKind::MoveToEntity => self.move_to,
            TaskKind::ExchangeWares(data) => match data {
                ExchangeWareData::Buy(_, _) => self.buy,
                ExchangeWareData::Sell(_, _) => self.sell,
            },
            TaskKind::MineAsteroid => self.asteroid,
        }
    }
}

/// Whether the mouse cursor is over a part of the user interface.
#[derive(Debug, Clone, Copy, Eq, PartialEq, Structural, Hash)]
pub enum MouseCursorOverUiState {
    NotOverUI,
    OverUI,
}

impl Default for MouseCursorOverUiState {
    fn default() -> (state: MouseCursorOverUiState)
        ensures
            state == MouseCursorOverUiState::NotOverUI,
    {
        MouseCursorOverUiState::NotOverUI
    }
}

/// The state that says where the pointer is.
pub open spec fn state_for(pointer_over_area: bool) -> MouseCursorOverUiState {
    if pointer_over_area {
        MouseCursorOverUiState::OverUI
    } else {
        MouseCursorOverUiState::NotOverUI
    }
}

/// The state to change to, given where the pointer is now: `None` where
/// `current_mouse_state` says it already.
pub fn detect_mouse_cursor_over_ui(
    pointer_over_area: bool,
    current_mouse_state: MouseCursorOverUiState,
) -> (next_state: Option<MouseCursorOverUiState>)
    ensures
        next_state == if current_mouse_state == state_for(pointer_over_area) {
            None
        } else {
            Some(state_for(pointer_over_area))
        },
{
    if pointer_over_area {
        if current_mouse_state != MouseCursorOverUiState::OverUI {
            return Some(MouseCursorOverUiState::OverUI);
        }
    } else if current_mouse_state != MouseCursorOverUiState::NotOverUI {
        return Some(MouseCursorOverUiState::NotOverUI);
    }
    None
}

} // verus!
