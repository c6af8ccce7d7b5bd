pub mod dictionary;
pub mod error;
pub mod global_declarations;
pub mod index_manager;
pub mod indexed_table;
pub mod pair_map;
pub mod registry;
pub mod text;
pub mod variants;
pub mod wire;
