//! Mod activation layer for a game's encrypted composite package map.
//!
//! The map tells the game, for every object path, which container file holds
//! the object and where. Enabling a mod redirects the entries of the object
//! paths it declares to the mod's container; disabling it restores what a
//! clean snapshot of the map says.
//!
//! The library works on bytes and values; reading and writing files, the
//! window and the process list are left to the program around it.
//!
//! - [`cipher`]: the byte transform that hides the map on disk.
//! - [`codec`] and [`serializer`]: reading and writing the text of the map;
//!   [`round_trip`] proves that what is written reads back.
//! - [`composite_mapper`]: the map in memory, with lookup by object path.
//! - [`utils`]: the fuzzy comparison of object paths.
//! - [`mod_model`] and [`reader`]: mod packages and the list of installed
//!   mods, as bytes and as values.
//! - [`manager`]: the engine that turns mods on and off.
//! - [`entry_map`]: the contracts that are assumed of the ordered map.

pub mod cipher;
pub mod codec;
pub mod composite_mapper;
pub mod entry;
pub mod entry_map;
pub mod manager;
pub mod mod_model;
pub mod reader;
pub mod round_trip;
pub mod serializer;
pub mod text;
pub mod utils;

pub use cipher::{decrypt_bytes, decrypt_mapper, encrypt_mapper};
pub use codec::{parse_composite_map, ParsedMap};
pub use composite_mapper::{CompositeMapperFile, MapError, PathMatch};
pub use entry::CompositeEntry;
pub use manager::{check_tera, BackupAction, GameEvent, TmmApp};
pub use mod_model::{
    read_game_config, read_mod_file, write_game_config, write_string, CompositePackage,
    GameConfigFile, ModEntry, ModFile, TfcPackage, WriteError,
};
pub use reader::{read_string, ByteReader, ReadError};
pub use utils::{ascii_eq_ignore_case, incomplete_paths_equal, normalize_object_name};
