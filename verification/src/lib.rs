//! A verified market economy: entities hold ledgers of typed commodities,
//! reserve what their production recipes need, offer the surplus for sale
//! and bid for the shortfall, and a uniform-price double auction clears the
//! book once per trading day with fair random rationing of the abundant
//! side.
//!
//! The ledger keeps every commodity strictly positive, bundle removal is
//! atomic, totals are conserved by every settlement, every trade of one
//! commodity clears at one price, and a book produced by the offer
//! generator can always be settled.

pub mod clearing;
pub mod entity;
pub mod market;
pub mod prices;
pub mod recipe;
pub mod rng;
pub mod simulation;
pub mod trading;
pub mod ware;
pub mod ware_range;
pub mod world;
