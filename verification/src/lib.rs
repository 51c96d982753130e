//! A line of service stations, stated as verified state machines.
//!
//! Work items pass through an ordered chain of stations. Each station keeps a
//! first-in first-out ready queue and serves the item at its front for one
//! slice, whose length its service policy decides: all the work that is left
//! under first come, first served, at most a quantum under round robin. The
//! stations, the generator of items and the collector that measures them are
//! written here as transition functions over plain values; whoever drives
//! them owns the channels, the clock and the waiting.
//!
//! The executable part:
//! - [`policy`]: the two service policies and the slice that each grants;
//! - [`product`]: the work item and a station's configuration;
//! - [`station`]: the station engine, one event in and one action out;
//! - [`generator`]: the source, which numbers and stamps the items;
//! - [`collector`]: the sink, which measures turnaround and wait;
//! - [`clock`]: milliseconds since the start of the line.
//!
//! What is proved of it, for every order and timing of events:
//! - [`history`]: what holds along every history of one station: nothing is
//!   lost or duplicated, the accounts of turns and service balance, and the
//!   number of events is bounded;
//! - [`schedule`]: no item leaves a station sooner than its service allows;
//! - [`theorems`]: the same, said of a station from its first event on;
//! - [`line`]: what the whole line guarantees: every item is delivered once,
//!   in order of generation where no station slices, never faster than its
//!   service, and after a known number of steps;
//! - [`progress`]: a line that has not run to its end can always take a step;
//! - [`witness`]: a worked record of a complete run.

pub mod clock;
pub mod collector;
pub mod generator;
pub mod history;
pub mod line;
pub mod policy;
pub mod product;
pub mod progress;
pub mod schedule;
pub mod station;
pub mod theorems;
pub mod witness;
