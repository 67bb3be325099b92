//! Tag enums shared with the numerical and plotting front ends that sit
//! around the matrix core: plot configuration, explicit ODE methods,
//! boundary conditions, solver options, and the mixed-number error tag.

use vstd::prelude::*;

verus! {

/// Keys of a plot's configuration table.
#[derive(Debug, Copy, Clone, Hash, PartialOrd, PartialEq, Eq)]
pub enum PlotOptions {
    Domain,
    Images,
    Pairs,
    Legends,
    Path,
}

/// Marker styles for plotted series.
#[derive(Debug, Copy, Clone, Hash, PartialOrd, PartialEq, Eq)]
pub enum Markers {
    Point,
    Line,
    Circle,
}

/// Whether a plot draws a grid.
#[derive(Debug, Copy, Clone, Hash, PartialOrd, PartialEq, Eq)]
pub enum Grid {
    On,
    Off,
}

/// Overall plot style.
#[derive(Debug, Copy, Clone, Hash, PartialOrd, PartialEq, Eq)]
pub enum PlotStyle {
    Nature,
    IEEE,
    Default,
    Science,
}

/// Axis scale of a plot.
#[derive(Debug, Copy, Clone, Hash, PartialOrd, PartialEq, Eq)]
pub enum PlotScale {
    Linear,
    Log,
}

/// Explicit ODE integration methods.
#[derive(Debug, Copy, Clone, Hash, PartialOrd, PartialEq, Eq)]
pub enum ExMethod {
    Euler,
    RK4,
}

/// Kinds of boundary conditions.
#[derive(Debug, Copy, Clone, Hash, PartialOrd, PartialEq, Eq)]
pub enum BoundaryCondition {
    Dirichlet,
    Neumann,
}

/// Keys of an ODE solver's option table.
#[derive(Debug, Clone, Copy, Hash, PartialOrd, PartialEq, Eq)]
pub enum ODEOptions {
    InitCond,
    BoundCond,
    Method,
    StopCond,
    StepSize,
    Times,
}

/// The error tag of arithmetic between mixed number kinds.
#[derive(Debug, Copy, Clone, PartialEq)]
pub enum NumError {
    DiffType,
}

} // verus!
