//! Amar RPG companion: rules engine, calendar, combat bookkeeping,
//! adventure indexing and wiki text helpers.

pub mod dice;
pub mod text;
pub mod calendar;
pub mod combat;
pub mod adventure;
pub mod ui;
pub mod search;
pub mod keyed;
pub mod canon;
pub mod wiki;
pub mod scenes;
pub mod clock;
pub mod campaign;
