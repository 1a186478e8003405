//! Pricing of vehicle routes: a label-setting search for paths from a start
//! depot to an end depot whose reduced cost is negative, under time windows
//! and a vehicle capacity.
//!
//! A [`instance::Pricer`] holds one routing instance. Its
//! `find_path` takes the dual prices of the nodes and the arcs that are
//! forbidden for the moment, and hands out the routes that price out.
//!
//! Travel times, service starts and loads are whole numbers. Reduced costs
//! and dual prices are whole numbers too, counted in units of which
//! [`extension::RCOST_SCALE`] make one unit of travel time, so that every
//! comparison in the search is exact.
//!
//! The search is specified by a model of its state ([`search`]), refined by
//! the working state in [`frontier`]. What holds of every state that the
//! search reaches is proved in [`reach`], that the search ends in
//! [`progress`], and what holds of its result in [`laws`].

pub mod arcs;
pub mod dominance;
pub mod driver;
pub mod error;
pub mod extension;
pub mod frontier;
pub mod harvest;
pub mod instance;
pub mod interface;
pub mod label;
pub mod laws;
pub mod path;
pub mod priority;
pub mod progress;
pub mod queue;
pub mod reach;
pub mod route;
pub mod search;
pub mod visited;
