//! The core of a manager for a local osu! beatmap library: its file formats,
//! its rules and its state, each with a contract.
pub mod app_update;
pub mod background;
pub mod bytes;
pub mod caches;
pub mod collection;
pub mod collections_page;
pub mod display;
pub mod events;
pub mod local;
pub mod manager;
pub mod measure;
pub mod number;
pub mod order;
pub mod osu_api;
pub mod osu_db;
pub mod paths;
pub mod prefill;
pub mod probe;
pub mod query;
pub mod repair;
pub mod repair_state;
pub mod scan;
pub mod scan_state;
pub mod selection;
pub mod shrink;
pub mod shrink_plan;
pub mod shrink_run;
pub mod sizes;
pub mod text;
pub mod trusted;
pub mod update_run;
pub mod update_state;
pub mod updates;
