//! Server-side logic of the Vienna services: active map tiles, tappable and
//! encounter spawning, static-data validation, the object-store line protocol,
//! and the small decision functions behind the API server and tools.

pub mod text;
pub mod ids;
pub mod paths;
pub mod external;
pub mod random;
pub mod tiles;
pub mod tappables;
pub mod generate;
pub mod spawner;
pub mod manager;
pub mod staticdata;
pub mod objectstore;
pub mod db;
pub mod mods;
pub mod api;
pub mod buildplate;
pub mod packager;
