//! A grid of integer cells whose values are derived from formulas over other
//! cells.
//!
//! Every edit installs a formula in one cell, keeps the lists of readers of
//! each cell up to date, refuses the edit when it would make a cell depend on
//! itself, and otherwise recomputes every affected cell in dependency order.
//!
//! The data and what is done with them:
//!
//! * [`address`] maps labels such as `B7` to positions in the flat storage.
//! * [`operation`] is the closed set of formula shapes.
//! * [`numeric`] is the arithmetic of cell values.
//! * [`operations`] holds the aggregates over a rectangle of cells.
//! * [`evaluate`] computes the value of one formula, or of many in order.
//! * [`wiring`] keeps the lists of readers in step with the formulas.
//! * [`toposort`] finds the cells affected by an edit, in an order in which
//!   they can be recomputed, or reports a cycle.
//! * [`engine`] applies an edit to the raw stores.
//! * [`grid`] owns the stores and offers `apply_edit` and `read`.
//! * [`text`] scans characters and reads decimal numbers.
//! * [`input`] turns a command line into the parts of an edit.
//! * [`viewport`] moves the window of cells that a front end shows.
//!
//! The mathematics behind them:
//!
//! * [`graph`] is the dependency graph: walks, cycles, numberings.
//! * [`coherence`] ties the lists of readers to the formulas.
//! * [`settle`] shows that dependency order settles the grid.

pub mod address;
pub mod coherence;
pub mod engine;
pub mod evaluate;
pub mod graph;
pub mod grid;
pub mod input;
pub mod numeric;
pub mod operation;
pub mod operations;
pub mod settle;
pub mod text;
pub mod toposort;
pub mod viewport;
pub mod wiring;
