//! Identifiers in text form and the configuration files of the engine.

pub mod hash_path_list;
pub mod ini_file_system;
pub mod ini_laws;
pub mod resource_id;
pub mod resource_id_laws;
