//! The typed actions the engine consumes, and the errors with which it
//! rejects ill-formed input.

use vstd::prelude::*;

use crate::pos::{Direction, Pos};

verus! {

/// A ship system an order can charge.
#[derive(Debug, Clone, PartialEq, Eq, Structural, Copy)]
pub enum System {
    Torpedo,
    Sonar,
    Silence,
    Mine,
}

/// An opponent action as the observer infers it from the announced
/// orders: no parameters beyond what the announcement carries. A silent
/// move in particular announces neither direction nor distance.
#[derive(Debug, Clone, PartialEq, Eq, Structural)]
pub enum OppAction {
    Move(Direction),
    Surface(usize),
    Torpedo(Pos),
    Sonar(usize),
    Silence,
}

/// An own action, with the parameters the own side knows.
#[derive(Debug, Clone, PartialEq, Eq, Structural)]
pub enum MeAction {
    Move { dir: Direction, sys: System },
    Surface,
    Torpedo(Pos),
    Sonar(usize),
    Silence { dir: Direction, dist: usize },
}

/// An announced order as both sides see it.
#[derive(Debug, Clone, PartialEq, Eq, Structural)]
pub enum Action {
    Move(Direction, System),
    Surface(usize),
    Torpedo(Pos),
    Sonar(usize),
    Silence(Direction, usize),
}

/// Why the engine rejects an input instead of updating its belief:
/// accepting it silently would corrupt the candidate set without
/// detection.
#[derive(Debug, Clone, PartialEq, Eq, Structural, Copy)]
pub enum InputError {
    /// A sector id outside 1 to 9.
    BadSector,
    /// A position outside the map.
    BadPosition,
    /// A move that walks an exactly known opponent off the map.
    OffMap,
    /// An announced order that fits no known form.
    BadAction,
    /// A number that is no plain decimal or does not fit.
    BadNumber,
}

impl MeAction {
    /// The announcement the opponent's observer sees of this action.
    pub fn into_opp_action(&self, current_sector: usize) -> (r: OppAction)
        ensures
            r == (match *self {
                MeAction::Move { dir, sys } => OppAction::Move(dir),
                MeAction::Surface => OppAction::Surface(current_sector),
                MeAction::Torpedo(pos) => OppAction::Torpedo(pos),
                MeAction::Sonar(sector) => OppAction::Sonar(sector),
                MeAction::Silence { dir, dist } => OppAction::Silence,
            }),
    {
        match self {
            MeAction::Move { dir, .. } => OppAction::Move(*dir),
            MeAction::Surface => OppAction::Surface(current_sector),
            MeAction::Torpedo(pos) => OppAction::Torpedo(*pos),
            MeAction::Sonar(sector) => OppAction::Sonar(*sector),
            MeAction::Silence { .. } => OppAction::Silence,
        }
    }
}

} // verus!
