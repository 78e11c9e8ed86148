//! Chooses a relay server by where two clients are.
pub mod compat;
pub mod database;
pub mod facts;
pub mod matcher;
pub mod pairs;
pub mod records;
pub mod rules;
pub mod settings;
pub mod state;
pub mod text;
pub mod tiers;
