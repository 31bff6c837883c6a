pub mod text;
pub mod analysis;
pub mod socket;
pub mod netcfg;
pub mod rdns;
pub mod keyed;
pub mod events;
pub mod notify;
pub mod procinfo;
pub mod app;
pub mod triage;
pub mod palette;
